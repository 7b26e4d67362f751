//! The compressed image's header: the 256 scaled tallies serialized as runs
//! of `{first, last, counts[first..=last]}` with small zero gaps bridged,
//! terminated by a lone zero byte.

use vstd::prelude::*;
use crate::HuffError;

verus! {

/// The first slot at or past `i` with a nonzero tally, or 256 if none.
pub open spec fn next_nonzero(t: Seq<u32>, i: int) -> int
    decreases 256 - i,
{
    if i < 0 || i >= 256 {
        256
    } else if t[i] != 0 {
        i
    } else {
        next_nonzero(t, i + 1)
    }
}

/// Where the run that starts at `last` ends: it swallows the next nonzero
/// slot as long as that slot lies within four positions (a gap of at most
/// three zero slots).
pub open spec fn run_end(t: Seq<u32>, last: int) -> int
    decreases 256 - last,
{
    let nn = next_nonzero(t, last + 1);
    if nn < 256 && nn > last && nn - last <= 4 {
        run_end(t, nn)
    } else {
        last
    }
}

/// The tallies of slots `first..=last`, each as one byte.
pub open spec fn run_counts(t: Seq<u32>, first: int, last: int) -> Seq<u8> {
    Seq::new((last - first + 1) as nat, |k: int| t[first + k] as u8)
}

/// The header bytes for the tallies from the nonzero slot `first` on: one
/// run after another, then the terminating zero byte.
pub open spec fn encode_runs(t: Seq<u32>, first: int) -> Seq<u8>
    decreases 256 - first,
{
    if first < 0 || first >= 256 {
        seq![0u8]
    } else {
        let last0 = run_end(t, first);
        let last = if last0 < first {
            first
        } else if last0 > 255 {
            255int
        } else {
            last0
        };
        let nx = next_nonzero(t, last + 1);
        let nf = if nx <= last {
            last + 1
        } else if nx > 256 {
            256int
        } else {
            nx
        };
        seq![first as u8, last as u8] + run_counts(t, first, last) + encode_runs(t, nf)
    }
}

/// A table with slots `first..=last` replaced by the bytes at `pos`.
pub open spec fn fill_counts(t: Seq<u32>, data: Seq<u8>, pos: int, first: int, last: int) -> Seq<
    u32,
>
    decreases last - first + 1,
{
    if first > last {
        t
    } else {
        fill_counts(t.update(first, data[pos] as u32), data, pos + 1, first + 1, last)
    }
}

/// The decoder's walk over the header bytes from position `i`: reads a
/// first slot, stops on the zero terminator (which on the very first read
/// only counts as a terminator when nothing follows it), else reads a last
/// slot and that many tally bytes, and goes on; yields the table and the
/// position just past the header.
pub open spec fn decode_runs(data: Seq<u8>, i: int, t: Seq<u32>, first_run: bool) -> Option<
    (Seq<u32>, int),
>
    decreases data.len() - i,
{
    if i < 0 || i >= data.len() {
        None
    } else {
        let first = data[i] as int;
        if first == 0 && (!first_run || i + 1 >= data.len()) {
            Some((t, i + 1))
        } else if i + 1 >= data.len() {
            None
        } else {
            let last = data[i + 1] as int;
            if last < first {
                decode_runs(data, i + 2, t, false)
            } else if i + 2 + (last - first + 1) > data.len() {
                None
            } else {
                decode_runs(
                    data,
                    i + 2 + (last - first + 1),
                    fill_counts(t, data, i + 2, first, last),
                    false,
                )
            }
        }
    }
}

/// The table the decoder starts from: all tallies clear but the fixed
/// end-of-stream slot.
pub open spec fn init_table() -> Seq<u32> {
    Seq::new(257, |i: int| if i == 256 {
        1u32
    } else {
        0u32
    })
}

pub proof fn lemma_next_nonzero_props(t: Seq<u32>, i: int)
    requires
        0 <= i <= 256,
    ensures
        i <= next_nonzero(t, i) <= 256,
        next_nonzero(t, i) < 256 ==> t[next_nonzero(t, i)] != 0,
        forall|j: int| i <= j < next_nonzero(t, i) ==> t[j] == 0,
    decreases 256 - i,
{
    if i < 256 && t[i] == 0 {
        lemma_next_nonzero_props(t, i + 1);
    }
}

pub proof fn lemma_run_end_props(t: Seq<u32>, f: int)
    requires
        0 <= f < 256,
        t[f] != 0,
    ensures
        f <= run_end(t, f) < 256,
        t[run_end(t, f)] != 0,
        next_nonzero(t, run_end(t, f) + 1) == 256 || next_nonzero(t, run_end(t, f) + 1)
            - run_end(t, f) > 4,
    decreases 256 - f,
{
    let nn = next_nonzero(t, f + 1);
    lemma_next_nonzero_props(t, f + 1);
    if nn < 256 && nn > f && nn - f <= 4 {
        lemma_run_end_props(t, nn);
    }
}

/// What filling writes: the named range takes the bytes, all else stays.
pub proof fn lemma_fill_counts_props(t: Seq<u32>, data: Seq<u8>, pos: int, first: int, last: int)
    requires
        0 <= first,
        last < t.len(),
    ensures
        fill_counts(t, data, pos, first, last).len() == t.len(),
        forall|i: int|
            0 <= i < t.len() && !(first <= i <= last) ==> fill_counts(
                t,
                data,
                pos,
                first,
                last,
            )[i] == t[i],
        forall|i: int|
            first <= i <= last ==> fill_counts(t, data, pos, first, last)[i] == data[pos + (i
                - first)] as u32,
    decreases last - first + 1,
{
    if first <= last {
        let t2 = t.update(first, data[pos] as u32);
        lemma_fill_counts_props(t2, data, pos + 1, first + 1, last);
        assert forall|i: int|
            0 <= i < t.len() && !(first <= i <= last) implies fill_counts(
            t, data, pos, first, last)[i] == t[i] by {
            assert(fill_counts(t2, data, pos + 1, first + 1, last)[i] == t2[i]);
        }
        assert forall|i: int|
            first <= i <= last implies fill_counts(t, data, pos, first, last)[i] == data[pos + (
        i - first)] as u32 by {
            if i == first {
                assert(fill_counts(t2, data, pos + 1, first + 1, last)[i] == t2[i]);
            } else {
                assert(fill_counts(t2, data, pos + 1, first + 1, last)[i] == data[(pos + 1) + (
                i - (first + 1))] as u32);
                assert((pos + 1) + (i - (first + 1)) == pos + (i - first));
            }
        }
    }
}

/// Decoding an encoded tally table out of a larger buffer reproduces the
/// table and consumes exactly the header bytes.
pub proof fn lemma_decode_encode(
    t: Seq<u32>,
    cur: Seq<u32>,
    p: int,
    data: Seq<u8>,
    pos: int,
    first_run: bool,
)
    requires
        t.len() == 257,
        forall|i: int| 0 <= i < 256 ==> t[i] <= 255,
        cur.len() == 257,
        forall|i: int| 0 <= i < p ==> cur[i] == t[i],
        forall|i: int| p <= i < 256 ==> cur[i] == 0,
        cur[256] == t[256],
        0 <= p <= 256,
        0 <= pos,
        pos + encode_runs(t, next_nonzero(t, p)).len() <= data.len(),
        data.subrange(pos, pos + encode_runs(t, next_nonzero(t, p)).len() as int)
            == encode_runs(t, next_nonzero(t, p)),
        next_nonzero(t, p) == 0 ==> first_run,
        first_run && next_nonzero(t, p) == 256 ==> pos + 1 == data.len(),
    ensures
        decode_runs(data, pos, cur, first_run) == Some(
            (t, pos + encode_runs(t, next_nonzero(t, p)).len() as int),
        ),
    decreases 256 - p,
{
    let nzp = next_nonzero(t, p);
    let enc = encode_runs(t, nzp);
    lemma_next_nonzero_props(t, p);
    assert forall|k: int| 0 <= k < enc.len() implies #[trigger] data[pos + k] == enc[k] by {
        assert(data.subrange(pos, pos + enc.len() as int)[k] == data[pos + k]);
    }
    if nzp >= 256 {
        assert(enc == seq![0u8]);
        assert(data[pos] == enc[0]);
        assert(cur =~= t);
    } else {
        let first = nzp;
        lemma_run_end_props(t, first);
        let last = run_end(t, first);
        lemma_next_nonzero_props(t, last + 1);
        let nx = next_nonzero(t, last + 1);
        let nf = if nx <= last {
            last + 1
        } else {
            nx
        };
        assert(nf == nx);
        let rc = run_counts(t, first, last);
        let enc2 = encode_runs(t, nf);
        assert(enc == seq![first as u8, last as u8] + rc + enc2);
        assert(enc.len() == 2 + rc.len() + enc2.len());
        assert(enc[0] == first as u8 && enc[1] == last as u8);
        assert(data[pos + 0] == first as u8 && data[pos + 1] == last as u8);
        assert(data[pos] == first as u8);
        assert forall|k: int| 0 <= k <= last - first implies #[trigger] data[pos + 2 + k]
            == t[first + k] as u8 by {
            assert(enc[2 + k] == rc[k]);
            assert(data[pos + (2 + k)] == enc[2 + k]);
        }
        let cur2 = fill_counts(cur, data, pos + 2, first, last);
        lemma_fill_counts_props(cur, data, pos + 2, first, last);
        assert forall|i: int| 0 <= i < last + 1 implies cur2[i] == t[i] by {
            if first <= i {
                let k = i - first;
                assert(data[pos + 2 + k] == t[first + k] as u8);
                assert(cur2[i] == data[(pos + 2) + (i - first)] as u32);
                assert(t[i] <= 255);
            } else {
                assert(cur2[i] == cur[i]);
                if i >= p {
                    assert(t[i] == 0);
                }
            }
        }
        assert forall|i: int| last + 1 <= i < 256 implies cur2[i] == 0 by {
            assert(cur2[i] == cur[i]);
        }
        assert(cur2[256] == cur[256]);
        let pos2 = pos + 2 + (last - first + 1);
        assert forall|k: int| 0 <= k < enc2.len() implies data.subrange(
            pos2, pos2 + enc2.len() as int)[k] == enc2[k] by {
            assert(enc[(2 + (last - first + 1)) + k] == enc2[k]);
            assert(data[pos + ((2 + (last - first + 1)) + k)] == enc[(2 + (last - first + 1))
                + k]);
            assert(data.subrange(pos2, pos2 + enc2.len() as int)[k] == data[pos2 + k]);
            assert(pos2 + k == pos + ((2 + (last - first + 1)) + k));
        }
        assert(data.subrange(pos2, pos2 + enc2.len() as int) =~= enc2);
        assert(next_nonzero(t, last + 1) == nf);
        lemma_next_nonzero_props(t, last + 1);
        lemma_decode_encode(t, cur2, last + 1, data, pos2, false);
        assert(data[pos] as int == first);
        if first == 0 {
            assert(first_run);
            assert(pos + 1 < data.len());
        }
        assert(decode_runs(data, pos, cur, first_run) == decode_runs(data, pos2, cur2, false));
    }
}

/// Header round-trip: decoding an encoded tally table reproduces the table
/// exactly, and consumes exactly the encoded bytes.
pub proof fn lemma_header_round_trip(t: Seq<u32>)
    requires
        t.len() == 257,
        forall|i: int| 0 <= i < 256 ==> t[i] <= 255,
        t[256] == 1,
    ensures
        decode_runs(encode_runs(t, next_nonzero(t, 0)), 0, init_table(), true) == Some(
            (t, encode_runs(t, next_nonzero(t, 0)).len() as int),
        ),
{
    let enc = encode_runs(t, next_nonzero(t, 0));
    assert(enc.subrange(0, enc.len() as int) =~= enc);
    lemma_next_nonzero_props(t, 0);
    if next_nonzero(t, 0) == 256 {
        assert(enc == seq![0u8]);
    }
    lemma_decode_encode(t, init_table(), 0, enc, 0, true);
}

/// Finds the first nonzero tally at or past `from`.
fn find_next_nonzero(table: &Vec<u32>, from: usize) -> (r: usize)
    requires
        table@.len() == 257,
        from <= 256,
    ensures
        r as int == next_nonzero(table@, from as int),
        from <= r <= 256,
        r < 256 ==> table@[r as int] != 0,
{
    let mut i = from;
    while i < 256 && table[i] == 0
        invariant
            table@.len() == 257,
            from <= i <= 256,
            next_nonzero(table@, from as int) == next_nonzero(table@, i as int),
        decreases 256 - i,
    {
        i = i + 1;
    }
    i
}

/// Finds where the run starting at the nonzero slot `first` ends.
fn find_run_end(table: &Vec<u32>, first: usize) -> (r: usize)
    requires
        table@.len() == 257,
        first < 256,
        table@[first as int] != 0,
    ensures
        r as int == run_end(table@, first as int),
        first <= r < 256,
        table@[r as int] != 0,
{
    proof {
        lemma_run_end_props(table@, first as int);
    }
    let mut last = first;
    loop
        invariant
            table@.len() == 257,
            first <= last < 256,
            table@[last as int] != 0,
            run_end(table@, first as int) == run_end(table@, last as int),
        decreases 256 - last,
    {
        let nn = find_next_nonzero(table, last + 1);
        if nn < 256 && nn - last <= 4 {
            last = nn;
        } else {
            return last;
        }
    }
}

/// Serializes the scaled tallies as runs of `{first, last, counts}` with
/// gaps of at most three zero slots bridged, then the terminating zero.
pub fn output_counts(table: &Vec<u32>) -> (header: Vec<u8>)
    requires
        table@.len() == 257,
        forall|i: int| 0 <= i < 257 ==> #[trigger] table@[i] <= 255,
    ensures
        header@ == encode_runs(table@, next_nonzero(table@, 0)),
{
    let mut out: Vec<u8> = Vec::new();
    let mut first = find_next_nonzero(table, 0);
    while first < 256
        invariant
            table@.len() == 257,
            forall|i: int| 0 <= i < 257 ==> #[trigger] table@[i] <= 255,
            first <= 256,
            first < 256 ==> table@[first as int] != 0,
            encode_runs(table@, next_nonzero(table@, 0)) == out@ + encode_runs(
                table@,
                first as int,
            ),
        decreases 256 - first,
    {
        let ghost pre = out@;
        let last = find_run_end(table, first);
        out.push(first as u8);
        out.push(last as u8);
        let mut k = first;
        while k <= last
            invariant
                table@.len() == 257,
                forall|i: int| 0 <= i < 257 ==> #[trigger] table@[i] <= 255,
                first <= k <= last + 1,
                last < 256,
                out@ == pre + seq![first as u8, last as u8] + run_counts(
                    table@,
                    first as int,
                    k - 1,
                ),
            decreases last + 1 - k,
        {
            out.push(table[k] as u8);
            proof {
                assert(run_counts(table@, first as int, k as int) =~= run_counts(
                    table@, first as int, k - 1).push(table@[k as int] as u8));
            }
            k = k + 1;
        }
        let next = find_next_nonzero(table, last + 1);
        proof {
            lemma_next_nonzero_props(table@, last + 1);
            assert(encode_runs(table@, first as int) == seq![first as u8, last as u8]
                + run_counts(table@, first as int, last as int) + encode_runs(
                table@,
                next as int,
            ));
            assert(out@ + encode_runs(table@, next as int) =~= (pre + encode_runs(
                table@, first as int)));
        }
        first = next;
    }
    out.push(0);
    proof {
        assert(encode_runs(table@, first as int) == seq![0u8]);
        assert(out@ =~= encode_runs(table@, next_nonzero(table@, 0)));
    }
    out
}

/// Reads the run-length header back into a fresh table, following the
/// decoder's walk; reports the table and the position just past the header,
/// or that the bytes ran out.
pub fn input_counts(data: &Vec<u8>, start: usize) -> (r: Result<(Vec<u32>, usize), HuffError>)
    requires
        start <= data@.len(),
    ensures
        match r {
            Ok(p) => {
                &&& decode_runs(data@, start as int, init_table(), true) == Some(
                    (p.0@, p.1 as int),
                )
                &&& p.0@.len() == 257
                &&& start <= p.1 <= data@.len()
                &&& forall|i: int| 0 <= i < 257 ==> #[trigger] p.0@[i] <= 255
                &&& p.0@[256] == 1
            },
            Err(e) => {
                &&& decode_runs(data@, start as int, init_table(), true) is None
                &&& e == HuffError::UnexpectedEndOfStream
            },
        },
{
    let mut table: Vec<u32> = Vec::new();
    let mut z: usize = 0;
    while z < 256
        invariant
            table@.len() == z <= 256,
            forall|i: int| 0 <= i < z ==> #[trigger] table@[i] == 0,
        decreases 256 - z,
    {
        table.push(0);
        z = z + 1;
    }
    table.push(1);
    proof {
        assert(table@ =~= init_table());
    }
    let mut i = start;
    let mut first_run = true;
    loop
        invariant
            start <= i <= data@.len(),
            table@.len() == 257,
            forall|k: int| 0 <= k < 257 ==> #[trigger] table@[k] <= 255,
            table@[256] == 1,
            decode_runs(data@, start as int, init_table(), true) == decode_runs(
                data@,
                i as int,
                table@,
                first_run,
            ),
        decreases data@.len() - i,
    {
        if i >= data.len() {
            return Err(HuffError::UnexpectedEndOfStream);
        }
        let first = data[i] as usize;
        if first == 0 && (!first_run || i + 1 >= data.len()) {
            return Ok((table, i + 1));
        }
        if i + 1 >= data.len() {
            return Err(HuffError::UnexpectedEndOfStream);
        }
        let last = data[i + 1] as usize;
        let ghost entry_table = table@;
        let ghost entry_i = i as int;
        i = i + 2;
        if last >= first {
            if data.len() - i < last - first + 1 {
                return Err(HuffError::UnexpectedEndOfStream);
            }
            let mut k = first;
            while k <= last
                invariant
                    data@.len() >= entry_i + 2 + (last - first + 1),
                    entry_i + 2 == i - (k - first),
                    first <= k <= last + 1,
                    last < 256,
                    i == entry_i + 2 + (k - first),
                    table@.len() == 257,
                    forall|j: int| 0 <= j < 257 ==> #[trigger] table@[j] <= 255,
                    table@[256] == 1,
                    fill_counts(entry_table, data@, entry_i + 2, first as int, last as int)
                        == fill_counts(table@, data@, i as int, k as int, last as int),
                decreases last + 1 - k,
            {
                let _buffer_len: usize = data.len();
                table.set(k, data[i] as u32);
                i = i + 1;
                k = k + 1;
            }
            proof {
                assert(fill_counts(
                    entry_table,
                    data@,
                    entry_i + 2,
                    first as int,
                    last as int,
                ) == table@);
            }
        }
        first_run = false;
    }
}

} // verus!
