//! The order-0 frequency model: tally how often each byte value occurs in a
//! source, then squeeze the tallies into single-byte range so that the header
//! can carry them.

use vstd::prelude::*;
use vstd::arithmetic::div_mod::{
    lemma_div_is_ordered,
    lemma_multiply_divide_lt,
    lemma_fundamental_div_mod,
    lemma_mod_division_less_than_divisor,
    lemma_div_pos_is_pos,
};

verus! {

/// How many times `b` occurs in `s`.
pub open spec fn occurrences(s: Seq<u8>, b: u8) -> nat
    decreases s.len(),
{
    if s.len() == 0 {
        0
    } else {
        occurrences(s.drop_last(), b) + if s.last() == b {
            1nat
        } else {
            0nat
        }
    }
}

/// A byte that stands in the sequence is tallied at least once.
pub proof fn lemma_occurrences_pos(s: Seq<u8>, k: int)
    requires
        0 <= k < s.len(),
    ensures
        occurrences(s, s[k]) > 0,
    decreases s.len(),
{
    if k < s.len() - 1 {
        lemma_occurrences_pos(s.drop_last(), k);
    }
}

pub proof fn lemma_occurrences_le(s: Seq<u8>, b: u8)
    ensures
        occurrences(s, b) <= s.len(),
    decreases s.len(),
{
    if s.len() != 0 {
        lemma_occurrences_le(s.drop_last(), b);
    }
}

/// The largest value in `s`, zero when `s` is empty.
pub open spec fn seq_max(s: Seq<u64>) -> int
    decreases s.len(),
{
    if s.len() == 0 {
        0
    } else if s.last() as int > seq_max(s.drop_last()) {
        s.last() as int
    } else {
        seq_max(s.drop_last())
    }
}

pub proof fn lemma_seq_max_ge(s: Seq<u64>, i: int)
    requires
        0 <= i < s.len(),
    ensures
        s[i] <= seq_max(s),
        seq_max(s) >= 0,
    decreases s.len(),
{
    if i < s.len() - 1 {
        lemma_seq_max_ge(s.drop_last(), i);
    }
}

pub proof fn lemma_seq_max_nonneg(s: Seq<u64>)
    ensures
        seq_max(s) >= 0,
    decreases s.len(),
{
    if s.len() != 0 {
        lemma_seq_max_nonneg(s.drop_last());
    }
}

/// The divisor that brings every tally into single-byte range.
pub open spec fn scale_divisor(counts: Seq<u64>) -> int {
    seq_max(counts) / 255 + 1
}

/// The tally of slot `i` after scaling: divided by the common divisor, with
/// any nonzero tally that would vanish kept at one.
pub open spec fn scaled_count(counts: Seq<u64>, i: int) -> int {
    let q = counts[i] as int / scale_divisor(counts);
    if counts[i] != 0 && q == 0 {
        1
    } else {
        q
    }
}

/// Every scaled tally fits in a single byte.
pub proof fn lemma_scaled_count_le(counts: Seq<u64>, i: int)
    requires
        counts.len() == 256,
        0 <= i < 256,
    ensures
        0 <= scaled_count(counts, i) <= 255,
        counts[i] != 0 ==> scaled_count(counts, i) >= 1,
{
    let max = seq_max(counts);
    let sd = scale_divisor(counts);
    lemma_seq_max_nonneg(counts);
    lemma_fundamental_div_mod(max, 255);
    lemma_mod_division_less_than_divisor(max, 255);
    lemma_div_pos_is_pos(max, 255);
    assert(max < 255 * sd);
    lemma_multiply_divide_lt(max, sd, 255);
    lemma_seq_max_ge(counts, i);
    lemma_div_is_ordered(counts[i] as int, max, sd);
    lemma_div_pos_is_pos(counts[i] as int, sd);
}

/// Tallies how often each byte value occurs in the source; slot `b` of the
/// result is the tally of byte value `b`.
pub fn count_bytes(source: &Vec<u8>) -> (counts: Vec<u64>)
    ensures
        counts@.len() == 256,
        forall|b: int| 0 <= b < 256 ==> counts@[b] == occurrences(source@, b as u8),
{
    let mut counts: Vec<u64> = Vec::new();
    let mut k: usize = 0;
    while k < 256
        invariant
            counts@.len() == k <= 256,
            forall|b: int| 0 <= b < k ==> counts@[b] == 0,
        decreases 256 - k,
    {
        counts.push(0);
        k = k + 1;
    }
    let mut i: usize = 0;
    proof {
        assert forall|b: int| 0 <= b < 256 implies counts@[b] == occurrences(
            source@.take(0), b as u8) by {
            assert(source@.take(0) =~= Seq::<u8>::empty());
        }
    }
    while i < source.len()
        invariant
            counts@.len() == 256,
            i <= source@.len(),
            forall|b: int| 0 <= b < 256 ==> counts@[b] == occurrences(source@.take(i as int), b as u8),
        decreases source@.len() - i,
    {
        let byte = source[i];
        proof {
            lemma_occurrences_le(source@.take(i as int), byte);
            assert(source@.take(i as int).len() == i);
        }
        let c = counts[byte as usize];
        counts.set(byte as usize, c + 1);
        proof {
            assert forall|b: int| 0 <= b < 256 implies counts@[b] == occurrences(
                source@.take(i + 1), b as u8) by {
                assert(source@.take(i + 1).drop_last() =~= source@.take(i as int));
                assert(source@.take(i + 1).last() == source@[i as int]);
            }
        }
        i = i + 1;
    }
    proof {
        assert(source@.take(source@.len() as int) =~= source@);
    }
    counts
}

/// Scales 256 tallies into the range a header byte can carry, keeping every
/// nonzero tally at one or more, and fixes the end-of-stream slot at one.
pub fn scale_counts(counts: &Vec<u64>) -> (scaled: Vec<u32>)
    requires
        counts@.len() == 256,
    ensures
        scaled@.len() == 257,
        forall|i: int| 0 <= i < 256 ==> scaled@[i] == scaled_count(counts@, i),
        scaled@[256] == 1,
        forall|i: int| 0 <= i < 257 ==> 0 <= #[trigger] scaled@[i] <= 255,
        forall|i: int| 0 <= i < 256 && counts@[i] != 0 ==> scaled@[i] >= 1,
{
    let mut max: u64 = 0;
    let mut k: usize = 0;
    proof {
        assert(counts@.take(0) =~= Seq::<u64>::empty());
    }
    while k < 256
        invariant
            counts@.len() == 256,
            k <= 256,
            max == seq_max(counts@.take(k as int)),
        decreases 256 - k,
    {
        let c = counts[k];
        proof {
            assert(counts@.take(k + 1).drop_last() =~= counts@.take(k as int));
            lemma_seq_max_nonneg(counts@.take(k as int));
        }
        if c > max {
            max = c;
        }
        k = k + 1;
    }
    proof {
        assert(counts@.take(256) =~= counts@);
    }
    let scale: u64 = max / 255 + 1;
    let ghost sd = scale_divisor(counts@);
    proof {
        lemma_seq_max_nonneg(counts@);
        lemma_fundamental_div_mod(max as int, 255);
        lemma_mod_division_less_than_divisor(max as int, 255);
        lemma_div_pos_is_pos(max as int, 255);
        assert(max < 255 * scale);
        lemma_multiply_divide_lt(max as int, scale as int, 255);
        assert(max as int / sd < 255);
    }
    let mut scaled: Vec<u32> = Vec::new();
    let mut i: usize = 0;
    while i < 256
        invariant
            counts@.len() == 256,
            i <= 256,
            scaled@.len() == i,
            scale == scale_divisor(counts@),
            scale >= 1,
            max as int / scale_divisor(counts@) < 255,
            max == seq_max(counts@),
            forall|j: int| 0 <= j < i ==> scaled@[j] == scaled_count(counts@, j),
            forall|j: int| 0 <= j < i ==> 0 <= #[trigger] scaled@[j] <= 255,
        decreases 256 - i,
    {
        let c = counts[i];
        let q = c / scale;
        proof {
            lemma_seq_max_ge(counts@, i as int);
            lemma_div_is_ordered(c as int, max as int, scale as int);
        }
        let v: u32 = if q == 0 && c != 0 {
            1
        } else {
            q as u32
        };
        scaled.push(v);
        i = i + 1;
    }
    scaled.push(1);
    scaled
}

} // verus!
