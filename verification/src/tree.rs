//! Huffman tree construction and code derivation over an array-indexed
//! arena of nodes.
//!
//! Slots 0..=255 are literal-byte leaves, slot 256 the end-of-stream leaf,
//! slots 257..=512 internal nodes created by merging, and slot 513 a fixed
//! sentinel of maximal weight that terminates the minimum scan.

use vstd::prelude::*;
use crate::bitio::{code_seq, bits_val};

verus! {

/// The synthetic symbol whose code marks the end of the payload.
pub const END_OF_STREAM: usize = 256;

/// One arena slot: current weight, original weight once merged, and the
/// children of an internal node.
#[derive(Clone, Copy, Debug, PartialEq, Eq, Structural)]
pub struct Node {
    pub count: u32,
    pub saved_count: u32,
    pub child_0: usize,
    pub child_1: usize,
}

/// A symbol's bit pattern, right-justified, and its length in bits; a length
/// of zero marks a symbol with no code.
#[derive(Clone, Copy, Debug, PartialEq, Eq, Structural)]
pub struct Code {
    pub code: u32,
    pub code_bits: u32,
}

/// Every internal node at or below `n` points strictly downward, so a walk
/// from `n` terminates.
pub open spec fn wf_tree(nodes: Seq<Node>, n: int) -> bool
    decreases n,
{
    if n <= 256 {
        true
    } else if !(n < nodes.len() && (nodes[n].child_0 as int) < n && (nodes[n].child_1 as int)
        < n) {
        false
    } else {
        wf_tree(nodes, nodes[n].child_0 as int) && wf_tree(nodes, nodes[n].child_1 as int)
    }
}

/// The number of edges on the longest downward path from `n`.
pub open spec fn tree_height(nodes: Seq<Node>, n: int) -> int
    decreases n,
{
    if n <= 256 {
        0
    } else if !(n < nodes.len() && (nodes[n].child_0 as int) < n && (nodes[n].child_1 as int)
        < n) {
        0
    } else {
        let h0 = tree_height(nodes, nodes[n].child_0 as int);
        let h1 = tree_height(nodes, nodes[n].child_1 as int);
        1 + if h0 > h1 {
            h0
        } else {
            h1
        }
    }
}

/// Whether leaf `l` can be reached by walking down from `n`.
pub open spec fn reachable(nodes: Seq<Node>, n: int, l: int) -> bool
    decreases n,
{
    if n <= 256 {
        n == l
    } else if !(n < nodes.len() && (nodes[n].child_0 as int) < n && (nodes[n].child_1 as int)
        < n) {
        false
    } else {
        reachable(nodes, nodes[n].child_0 as int, l) || reachable(
            nodes,
            nodes[n].child_1 as int,
            l,
        )
    }
}

/// Walks down from `n`, consuming one bit of `bits` per internal node
/// starting at position `i`; yields the leaf reached and the next unread
/// position, or nothing if the bits run out or the arena is malformed.
pub open spec fn walk(nodes: Seq<Node>, n: int, bits: Seq<bool>, i: int) -> Option<(int, int)>
    decreases n,
{
    if n <= 256 {
        Some((n, i))
    } else if !(n < nodes.len() && (nodes[n].child_0 as int) < n && (nodes[n].child_1 as int)
        < n) {
        None
    } else if i < 0 || i >= bits.len() {
        None
    } else if bits[i] {
        walk(nodes, nodes[n].child_1 as int, bits, i + 1)
    } else {
        walk(nodes, nodes[n].child_0 as int, bits, i + 1)
    }
}

/// A successful walk never moves backwards, and from an internal node it
/// consumes at least one bit.
pub proof fn lemma_walk_advances(nodes: Seq<Node>, n: int, bits: Seq<bool>, i: int)
    requires
        walk(nodes, n, bits, i) is Some,
    ensures
        i <= walk(nodes, n, bits, i)->Some_0.1,
        n > 256 ==> i < walk(nodes, n, bits, i)->Some_0.1,
    decreases n,
{
    if n <= 256 {
    } else if !(n < nodes.len() && (nodes[n].child_0 as int) < n && (nodes[n].child_1 as int)
        < n) {
    } else if i < 0 || i >= bits.len() {
    } else if bits[i] {
        lemma_walk_advances(nodes, nodes[n].child_1 as int, bits, i + 1);
    } else {
        lemma_walk_advances(nodes, nodes[n].child_0 as int, bits, i + 1);
    }
}

/// The bit path from `n` down to leaf `l`, preferring the one-branch where
/// both lead to `l`.
pub open spec fn leaf_path(nodes: Seq<Node>, n: int, l: int) -> Seq<bool>
    decreases n,
{
    if n <= 256 {
        Seq::empty()
    } else if !(n < nodes.len() && (nodes[n].child_0 as int) < n && (nodes[n].child_1 as int)
        < n) {
        Seq::empty()
    } else if reachable(nodes, nodes[n].child_1 as int, l) {
        seq![true] + leaf_path(nodes, nodes[n].child_1 as int, l)
    } else {
        seq![false] + leaf_path(nodes, nodes[n].child_0 as int, l)
    }
}

/// The code table after a depth-first descent from `n` that records, at each
/// leaf, the bit path accumulated so far.
pub open spec fn assign_codes(
    nodes: Seq<Node>,
    n: int,
    prefix: Seq<bool>,
    codes: Seq<Code>,
) -> Seq<Code>
    decreases n,
{
    if n <= 256 {
        if 0 <= n < codes.len() {
            codes.update(
                n,
                Code { code: bits_val(prefix) as u32, code_bits: prefix.len() as u32 },
            )
        } else {
            codes
        }
    } else if !(n < nodes.len() && (nodes[n].child_0 as int) < n && (nodes[n].child_1 as int)
        < n) {
        codes
    } else {
        assign_codes(
            nodes,
            nodes[n].child_1 as int,
            prefix.push(true),
            assign_codes(nodes, nodes[n].child_0 as int, prefix.push(false), codes),
        )
    }
}

pub proof fn lemma_assign_codes_len(nodes: Seq<Node>, n: int, prefix: Seq<bool>, codes: Seq<Code>)
    ensures
        assign_codes(nodes, n, prefix, codes).len() == codes.len(),
    decreases n,
{
    if n <= 256 {
    } else if !(n < nodes.len() && (nodes[n].child_0 as int) < n && (nodes[n].child_1 as int)
        < n) {
    } else {
        lemma_assign_codes_len(nodes, nodes[n].child_0 as int, prefix.push(false), codes);
        lemma_assign_codes_len(
            nodes,
            nodes[n].child_1 as int,
            prefix.push(true),
            assign_codes(nodes, nodes[n].child_0 as int, prefix.push(false), codes),
        );
    }
}

/// What the descent records: every leaf under `n` gets the prefix extended
/// with its path, and every other slot is untouched.
pub proof fn lemma_assign_codes_content(
    nodes: Seq<Node>,
    n: int,
    prefix: Seq<bool>,
    codes: Seq<Code>,
)
    requires
        0 <= n,
        wf_tree(nodes, n),
        codes.len() == 257,
    ensures
        forall|l: int|
            0 <= l < codes.len() && reachable(nodes, n, l) ==> assign_codes(
                nodes,
                n,
                prefix,
                codes,
            )[l] == (Code {
                code: bits_val(prefix + leaf_path(nodes, n, l)) as u32,
                code_bits: (prefix + leaf_path(nodes, n, l)).len() as u32,
            }),
        forall|l: int|
            0 <= l < codes.len() && !reachable(nodes, n, l) ==> assign_codes(
                nodes,
                n,
                prefix,
                codes,
            )[l] == codes[l],
    decreases n,
{
    lemma_assign_codes_len(nodes, n, prefix, codes);
    if n <= 256 {
        assert(prefix + leaf_path(nodes, n, n) =~= prefix);
    } else {
        let c0 = nodes[n].child_0 as int;
        let c1 = nodes[n].child_1 as int;
        let mid = assign_codes(nodes, c0, prefix.push(false), codes);
        lemma_assign_codes_len(nodes, c0, prefix.push(false), codes);
        lemma_assign_codes_content(nodes, c0, prefix.push(false), codes);
        lemma_assign_codes_content(nodes, c1, prefix.push(true), mid);
        assert forall|l: int|
            0 <= l < codes.len() && reachable(nodes, n, l) implies assign_codes(
            nodes,
            n,
            prefix,
            codes,
        )[l] == (Code {
            code: bits_val(prefix + leaf_path(nodes, n, l)) as u32,
            code_bits: (prefix + leaf_path(nodes, n, l)).len() as u32,
        }) by {
            if reachable(nodes, c1, l) {
                assert(prefix.push(true) + leaf_path(nodes, c1, l) =~= prefix + (seq![true]
                    + leaf_path(nodes, c1, l)));
            } else {
                assert(reachable(nodes, c0, l));
                assert(prefix.push(false) + leaf_path(nodes, c0, l) =~= prefix + (seq![false]
                    + leaf_path(nodes, c0, l)));
            }
        }
    }
}

/// Following a leaf's recorded path from `n` lands exactly on that leaf,
/// with the read position just past the path.
pub proof fn lemma_walk_path(nodes: Seq<Node>, n: int, l: int, bits: Seq<bool>, i: int)
    requires
        0 <= n,
        wf_tree(nodes, n),
        reachable(nodes, n, l),
        0 <= i,
        i + leaf_path(nodes, n, l).len() <= bits.len(),
        forall|k: int|
            0 <= k < leaf_path(nodes, n, l).len() ==> bits[i + k] == leaf_path(nodes, n, l)[k],
    ensures
        walk(nodes, n, bits, i) == Some((l, i + leaf_path(nodes, n, l).len() as int)),
    decreases n,
{
    if n <= 256 {
    } else {
        let c0 = nodes[n].child_0 as int;
        let c1 = nodes[n].child_1 as int;
        let p = leaf_path(nodes, n, l);
        if reachable(nodes, c1, l) {
            let sub = leaf_path(nodes, c1, l);
            assert(bits[i] == p[0]);
            assert forall|k: int| 0 <= k < sub.len() implies bits[i + 1 + k] == sub[k] by {
                assert(p[k + 1] == sub[k]);
            }
            lemma_walk_path(nodes, c1, l, bits, i + 1);
        } else {
            let sub = leaf_path(nodes, c0, l);
            assert(bits[i] == p[0]);
            assert forall|k: int| 0 <= k < sub.len() implies bits[i + 1 + k] == sub[k] by {
                assert(p[k + 1] == sub[k]);
            }
            lemma_walk_path(nodes, c0, l, bits, i + 1);
        }
    }
}

/// A leaf's path is no longer than the height above it.
pub proof fn lemma_leaf_path_len(nodes: Seq<Node>, n: int, l: int)
    requires
        wf_tree(nodes, n),
    ensures
        leaf_path(nodes, n, l).len() <= tree_height(nodes, n),
    decreases n,
{
    if n <= 256 {
    } else if !(n < nodes.len() && (nodes[n].child_0 as int) < n && (nodes[n].child_1 as int)
        < n) {
    } else {
        lemma_leaf_path_len(nodes, nodes[n].child_0 as int, l);
        lemma_leaf_path_len(nodes, nodes[n].child_1 as int, l);
    }
}

/// The two slots an upward scan of `[0, n)` selects: the lowest-weight
/// active slot and the second-lowest, ties broken toward lower indices,
/// with the sentinel index standing for "none found".
pub open spec fn scan_pair(nodes: Seq<Node>, n: int) -> (int, int)
    decreases n,
{
    if n <= 0 {
        (513, 513)
    } else {
        let p = scan_pair(nodes, n - 1);
        let i = n - 1;
        if nodes[i].count != 0 {
            if nodes[i].count < nodes[p.0].count {
                (i, p.0)
            } else if nodes[i].count < nodes[p.1].count {
                (p.0, i)
            } else {
                p
            }
        } else {
            p
        }
    }
}

/// One merge: the two chosen slots retire (weight saved, then zeroed) and a
/// fresh internal node at `dest` takes their combined weight and adopts them.
pub open spec fn merge_step(nodes: Seq<Node>, m1: int, m2: int, dest: int) -> Seq<Node> {
    let c1 = nodes[m1].count;
    let c2 = nodes[m2].count;
    nodes.update(
        m1,
        Node {
            count: 0,
            saved_count: c1,
            child_0: nodes[m1].child_0,
            child_1: nodes[m1].child_1,
        },
    ).update(
        m2,
        Node {
            count: 0,
            saved_count: c2,
            child_0: nodes[m2].child_0,
            child_1: nodes[m2].child_1,
        },
    ).update(
        dest,
        Node {
            count: (c1 + c2) as u32,
            saved_count: nodes[dest].saved_count,
            child_0: m1 as usize,
            child_1: m2 as usize,
        },
    )
}

/// Repeated merging from slot `next_free` on, until no second active slot
/// remains; yields the arena and the slot one past the last node created.
pub open spec fn build_loop(nodes: Seq<Node>, next_free: int) -> (Seq<Node>, int)
    decreases 514 - next_free,
{
    if next_free < 257 || next_free > 513 {
        (nodes, next_free)
    } else {
        let p = scan_pair(nodes, next_free);
        if p.1 == 513 {
            (nodes, next_free)
        } else {
            build_loop(merge_step(nodes, p.0, p.1, next_free), next_free + 1)
        }
    }
}

/// The whole construction: arm the sentinel, merge until one active node
/// remains, and record the root's weight as its saved weight.
pub open spec fn build_spec(init: Seq<Node>) -> (Seq<Node>, int) {
    let start = init.update(
        513,
        Node {
            count: u32::MAX,
            saved_count: init[513].saved_count,
            child_0: init[513].child_0,
            child_1: init[513].child_1,
        },
    );
    let r = build_loop(start, 257);
    let root = r.1 - 1;
    (
        r.0.update(
            root,
            Node {
                count: r.0[root].count,
                saved_count: r.0[root].count,
                child_0: r.0[root].child_0,
                child_1: r.0[root].child_1,
            },
        ),
        root,
    )
}

/// The sum of the active weights of slots `[0, n)`.
pub open spec fn count_sum(nodes: Seq<Node>, n: int) -> int
    decreases n,
{
    if n <= 0 {
        0
    } else {
        count_sum(nodes, n - 1) + nodes[n - 1].count
    }
}

/// How many slots of `[0, n)` are active (nonzero weight).
pub open spec fn num_active(nodes: Seq<Node>, n: int) -> int
    decreases n,
{
    if n <= 0 {
        0
    } else {
        num_active(nodes, n - 1) + if nodes[n - 1].count != 0 {
            1int
        } else {
            0int
        }
    }
}

pub proof fn lemma_count_sum_nonneg(nodes: Seq<Node>, n: int)
    ensures
        count_sum(nodes, n) >= 0,
    decreases n,
{
    if n > 0 {
        lemma_count_sum_nonneg(nodes, n - 1);
    }
}

/// Updating one slot shifts the sum by the difference of the weights, and
/// leaves it alone when the slot lies at or past `n`.
pub proof fn lemma_count_sum_update(nodes: Seq<Node>, n: int, j: int, v: Node)
    requires
        0 <= j < nodes.len(),
        n <= nodes.len(),
    ensures
        j < n ==> count_sum(nodes.update(j, v), n) == count_sum(nodes, n) - nodes[j].count
            + v.count,
        j >= n ==> count_sum(nodes.update(j, v), n) == count_sum(nodes, n),
    decreases n,
{
    if n > 0 {
        lemma_count_sum_update(nodes, n - 1, j, v);
    }
}

/// An active slot's weight is at most the sum over its range.
pub proof fn lemma_count_le_sum(nodes: Seq<Node>, n: int, j: int)
    requires
        0 <= j < n,
    ensures
        nodes[j].count <= count_sum(nodes, n),
    decreases n,
{
    lemma_count_sum_nonneg(nodes, n - 1);
    if j < n - 1 {
        lemma_count_le_sum(nodes, n - 1, j);
    }
}

/// Two distinct slots' weights together are at most the sum over the range.
pub proof fn lemma_pair_le_sum(nodes: Seq<Node>, n: int, j: int, k: int)
    requires
        0 <= j < n,
        0 <= k < n,
        j != k,
        n <= nodes.len(),
    ensures
        nodes[j].count + nodes[k].count <= count_sum(nodes, n),
{
    let zeroed = nodes.update(
        j,
        Node {
            count: 0,
            saved_count: nodes[j].saved_count,
            child_0: nodes[j].child_0,
            child_1: nodes[j].child_1,
        },
    );
    lemma_count_sum_update(nodes, n, j, zeroed[j]);
    lemma_count_le_sum(zeroed, n, k);
}

/// A sum of weights each at most 255 over at most `n` slots stays small.
pub proof fn lemma_count_sum_bounded(nodes: Seq<Node>, n: int)
    requires
        0 <= n,
        forall|i: int| 0 <= i < n ==> nodes[i].count <= 255,
    ensures
        count_sum(nodes, n) <= 255 * n,
    decreases n,
{
    if n > 0 {
        lemma_count_sum_bounded(nodes, n - 1);
    }
}

pub proof fn lemma_num_active_update(nodes: Seq<Node>, n: int, j: int, v: Node)
    requires
        0 <= j < nodes.len(),
        n <= nodes.len(),
    ensures
        j < n ==> num_active(nodes.update(j, v), n) == num_active(nodes, n) + (if v.count != 0 {
            1int
        } else {
            0int
        }) - (if nodes[j].count != 0 {
            1int
        } else {
            0int
        }),
        j >= n ==> num_active(nodes.update(j, v), n) == num_active(nodes, n),
    decreases n,
{
    if n > 0 {
        lemma_num_active_update(nodes, n - 1, j, v);
    }
}

pub proof fn lemma_num_active_le(nodes: Seq<Node>, n: int)
    ensures
        0 <= num_active(nodes, n) <= (if n >= 0 {
            n
        } else {
            0
        }),
    decreases n,
{
    if n > 0 {
        lemma_num_active_le(nodes, n - 1);
    }
}

/// Two distinct active slots witness at least two actives in the range.
pub proof fn lemma_num_active_two(nodes: Seq<Node>, n: int, j: int, k: int)
    requires
        0 <= j < n,
        0 <= k < n,
        j != k,
        nodes[j].count != 0,
        nodes[k].count != 0,
    ensures
        num_active(nodes, n) >= 2,
    decreases n,
{
    lemma_num_active_le(nodes, n - 1);
    if j < n - 1 && k < n - 1 {
        lemma_num_active_two(nodes, n - 1, j, k);
    } else if j < n - 1 {
        lemma_num_active_one(nodes, n - 1, j);
    } else {
        lemma_num_active_one(nodes, n - 1, k);
    }
}

pub proof fn lemma_num_active_one(nodes: Seq<Node>, n: int, j: int)
    requires
        0 <= j < n,
        nodes[j].count != 0,
    ensures
        num_active(nodes, n) >= 1,
    decreases n,
{
    lemma_num_active_le(nodes, n - 1);
    if j < n - 1 {
        lemma_num_active_one(nodes, n - 1, j);
    }
}

/// If every active slot of the range is one fixed slot, at most one slot of
/// the range is active.
pub proof fn lemma_num_active_at_most_one(nodes: Seq<Node>, n: int, m: int)
    requires
        forall|i: int| 0 <= i < n && nodes[i].count != 0 ==> i == m,
    ensures
        num_active(nodes, n) <= 1,
    decreases n,
{
    if n > 0 {
        lemma_num_active_at_most_one(nodes, n - 1, m);
        if n - 1 != m {
        } else {
            lemma_num_active_at_most_one_below(nodes, n - 1, m);
        }
    }
}

proof fn lemma_num_active_at_most_one_below(nodes: Seq<Node>, n: int, m: int)
    requires
        forall|i: int| 0 <= i < n && nodes[i].count != 0 ==> i == m,
        n <= m,
    ensures
        num_active(nodes, n) == 0,
    decreases n,
{
    if n > 0 {
        lemma_num_active_at_most_one_below(nodes, n - 1, m);
    }
}

/// What the scan selects: chosen slots are active and in range, distinct
/// from each other, and when no second choice exists every active slot of
/// the range is the first choice.
pub proof fn lemma_scan_pair_props(nodes: Seq<Node>, n: int)
    requires
        0 <= n <= 513,
        nodes.len() == 514,
        nodes[513].count == u32::MAX,
        forall|i: int| 0 <= i < n ==> nodes[i].count < u32::MAX,
    ensures
        ({
            let p = scan_pair(nodes, n);
            &&& p.0 == 513 ==> forall|i: int| 0 <= i < n ==> nodes[i].count == 0
            &&& p.0 != 513 ==> 0 <= p.0 < n && nodes[p.0].count != 0
            &&& p.1 == 513 ==> forall|i: int|
                0 <= i < n && nodes[i].count != 0 ==> i == p.0
            &&& p.1 != 513 ==> 0 <= p.1 < n && nodes[p.1].count != 0 && p.0 != p.1 && p.0
                != 513
        }),
    decreases n,
{
    if n > 0 {
        lemma_scan_pair_props(nodes, n - 1);
    }
}

/// Nodes with equal children everywhere in a range reach the same leaves.
pub proof fn lemma_reachable_frame(s1: Seq<Node>, s2: Seq<Node>, n: int, l: int)
    requires
        s1.len() == s2.len(),
        forall|k: int|
            0 <= k <= n ==> s1[k].child_0 == s2[k].child_0 && s1[k].child_1 == s2[k].child_1,
    ensures
        reachable(s1, n, l) == reachable(s2, n, l),
    decreases n,
{
    if n <= 256 {
    } else if !(n < s1.len() && (s1[n].child_0 as int) < n && (s1[n].child_1 as int) < n) {
    } else {
        lemma_reachable_frame(s1, s2, s1[n].child_0 as int, l);
        lemma_reachable_frame(s1, s2, s1[n].child_1 as int, l);
    }
}

/// Nodes with equal children everywhere in a range are equally well formed.
pub proof fn lemma_wf_tree_frame(s1: Seq<Node>, s2: Seq<Node>, n: int)
    requires
        s1.len() == s2.len(),
        forall|k: int|
            0 <= k <= n ==> s1[k].child_0 == s2[k].child_0 && s1[k].child_1 == s2[k].child_1,
    ensures
        wf_tree(s1, n) == wf_tree(s2, n),
    decreases n,
{
    if n <= 256 {
    } else if !(n < s1.len() && (s1[n].child_0 as int) < n && (s1[n].child_1 as int) < n) {
    } else {
        lemma_wf_tree_frame(s1, s2, s1[n].child_0 as int);
        lemma_wf_tree_frame(s1, s2, s1[n].child_1 as int);
    }
}

/// A node whose internal slots below some bound all point downward is well
/// formed.
pub proof fn lemma_wf_from_children_bound(nodes: Seq<Node>, n: int, hi: int)
    requires
        nodes.len() == 514,
        0 <= n < hi,
        hi <= 514,
        forall|j: int|
            257 <= j < hi ==> (nodes[j].child_0 as int) < j && (nodes[j].child_1 as int) < j,
    ensures
        wf_tree(nodes, n),
    decreases n,
{
    if n <= 256 {
    } else {
        lemma_wf_from_children_bound(nodes, nodes[n].child_0 as int, hi);
        lemma_wf_from_children_bound(nodes, nodes[n].child_1 as int, hi);
    }
}

/// The height never exceeds the node's own index.
pub proof fn lemma_height_le_index(nodes: Seq<Node>, n: int)
    requires
        0 <= n,
    ensures
        0 <= tree_height(nodes, n) <= n,
    decreases n,
{
    if n <= 256 {
    } else if !(n < nodes.len() && (nodes[n].child_0 as int) < n && (nodes[n].child_1 as int)
        < n) {
    } else {
        lemma_height_le_index(nodes, nodes[n].child_0 as int);
        lemma_height_le_index(nodes, nodes[n].child_1 as int);
    }
}

/// A fresh arena of inert slots whose leaf weights come from the scaled
/// table.
pub fn make_nodes(table: &Vec<u32>) -> (nodes: Vec<Node>)
    requires
        table@.len() == 257,
        forall|i: int| 0 <= i < 257 ==> #[trigger] table@[i] <= 255,
    ensures
        nodes@.len() == 514,
        forall|i: int| 0 <= i <= 256 ==> nodes@[i].count == table@[i],
        forall|i: int| 257 <= i < 514 ==> nodes@[i].count == 0,
        forall|i: int| 0 <= i <= 256 ==> nodes@[i].count <= 255,
        forall|i: int|
            0 <= i < 514 ==> #[trigger] nodes@[i] == (Node {
                count: if i <= 256 {
                    table@[i]
                } else {
                    0u32
                },
                saved_count: 0,
                child_0: 0,
                child_1: 0,
            }),
{
    let mut nodes: Vec<Node> = Vec::new();
    let mut i: usize = 0;
    while i < 257
        invariant
            table@.len() == 257,
            forall|k: int| 0 <= k < 257 ==> #[trigger] table@[k] <= 255,
            i <= 257,
            nodes@.len() == i,
            forall|k: int|
                0 <= k < i ==> #[trigger] nodes@[k] == (Node {
                    count: table@[k],
                    saved_count: 0,
                    child_0: 0,
                    child_1: 0,
                }),
        decreases 257 - i,
    {
        nodes.push(Node { count: table[i], saved_count: 0, child_0: 0, child_1: 0 });
        i = i + 1;
    }
    while i < 514
        invariant
            table@.len() == 257,
            257 <= i <= 514,
            nodes@.len() == i,
            forall|k: int|
                0 <= k < 257 ==> #[trigger] nodes@[k] == (Node {
                    count: table@[k],
                    saved_count: 0,
                    child_0: 0,
                    child_1: 0,
                }),
            forall|k: int|
                257 <= k < i ==> #[trigger] nodes@[k] == (Node {
                    count: 0u32,
                    saved_count: 0,
                    child_0: 0,
                    child_1: 0,
                }),
        decreases 514 - i,
    {
        nodes.push(Node { count: 0, saved_count: 0, child_0: 0, child_1: 0 });
        i = i + 1;
    }
    proof {
        assert forall|k: int| 0 <= k <= 256 implies nodes@[k].count <= 255 by {
            assert(table@[k] <= 255);
        }
    }
    nodes
}

/// One scan of the active slots below `n` for the two lowest weights.
fn find_two_minima(nodes: &Vec<Node>, n: usize) -> (r: (usize, usize))
    requires
        nodes@.len() == 514,
        n <= 513,
    ensures
        (r.0 as int, r.1 as int) == scan_pair(nodes@, n as int),
        r.0 <= 513,
        r.1 <= 513,
{
    let mut min_1: usize = 513;
    let mut min_2: usize = 513;
    let mut i: usize = 0;
    while i < n
        invariant
            nodes@.len() == 514,
            i <= n <= 513,
            min_1 <= 513,
            min_2 <= 513,
            (min_1 as int, min_2 as int) == scan_pair(nodes@, i as int),
        decreases n - i,
    {
        if nodes[i].count != 0 {
            if nodes[i].count < nodes[min_1].count {
                min_2 = min_1;
                min_1 = i;
            } else if nodes[i].count < nodes[min_2].count {
                min_2 = i;
            }
        }
        i = i + 1;
    }
    (min_1, min_2)
}

/// Builds the Huffman tree in place by repeatedly merging the two
/// lowest-weight active slots, and returns the root's slot.
///
/// The arena afterwards is exactly what the merging recipe prescribes for
/// the starting weights, so two arenas with equal weights build equal trees.
pub fn build_tree(nodes: &mut Vec<Node>) -> (root: usize)
    requires
        old(nodes)@.len() == 514,
        forall|i: int| 0 <= i <= 256 ==> old(nodes)@[i].count <= 255,
        forall|i: int| 257 <= i < 514 ==> old(nodes)@[i].count == 0,
        old(nodes)@[256].count >= 1,
    ensures
        final(nodes)@.len() == 514,
        final(nodes)@ == build_spec(old(nodes)@).0,
        root == build_spec(old(nodes)@).1,
        256 <= root <= 512,
        wf_tree(final(nodes)@, root as int),
        forall|l: int|
            0 <= l <= 256 && old(nodes)@[l].count != 0 ==> reachable(
                final(nodes)@,
                root as int,
                l,
            ),
        (root == 256) <==> (forall|l: int| 0 <= l < 256 ==> old(nodes)@[l].count == 0),
{
    let ghost init = old(nodes)@;
    let s = nodes[513];
    nodes.set(
        513,
        Node {
            count: u32::MAX,
            saved_count: s.saved_count,
            child_0: s.child_0,
            child_1: s.child_1,
        },
    );
    let ghost start = nodes@;
    let ghost a0 = num_active(start, 257);
    let ghost s0 = count_sum(start, 257);
    proof {
        assert(start =~= init.update(
            513,
            Node {
                count: u32::MAX,
                saved_count: init[513].saved_count,
                child_0: init[513].child_0,
                child_1: init[513].child_1,
            },
        ));
        lemma_num_active_le(start, 257);
        lemma_num_active_one(start, 257, 256);
        lemma_count_sum_bounded(start, 257);
    }
    let mut next_free: usize = 257;
    let mut pair = find_two_minima(nodes, next_free);
    proof {
        assert forall|l: int| 0 <= l <= 256 && init[l].count != 0 implies exists|a: int|
            0 <= a < next_free && nodes@[a].count != 0 && reachable(nodes@, a, l) by {
            assert(0 <= l < next_free && nodes@[l].count != 0 && reachable(nodes@, l, l));
        }
    }
    while pair.1 != 513
        invariant
            init == old(nodes)@,
            init.len() == 514,
            forall|i: int| 0 <= i <= 256 ==> init[i].count <= 255,
            forall|i: int| 257 <= i < 514 ==> init[i].count == 0,
            init[256].count >= 1,
            nodes@.len() == 514,
            257 <= next_free <= 513,
            build_loop(start, 257) == build_loop(nodes@, next_free as int),
            nodes@[513].count == u32::MAX,
            count_sum(nodes@, next_free as int) == s0,
            s0 <= 65535,
            num_active(nodes@, next_free as int) == a0 - (next_free - 257),
            num_active(nodes@, next_free as int) >= 1,
            1 <= a0 <= 257,
            forall|j: int|
                257 <= j < next_free ==> (nodes@[j].child_0 as int) < j && (
                nodes@[j].child_1 as int) < j,
            next_free > 257 ==> nodes@[next_free - 1].count != 0,
            forall|l: int|
                0 <= l <= 256 && init[l].count != 0 ==> exists|a: int|
                    0 <= a < next_free && nodes@[a].count != 0 && reachable(nodes@, a, l),
            (pair.0 as int, pair.1 as int) == scan_pair(nodes@, next_free as int),
            pair.0 <= 513,
            pair.1 <= 513,
        decreases 513 - next_free,
    {
        let ghost prev = nodes@;
        proof {
            assert forall|i: int| 0 <= i < next_free implies prev[i].count < u32::MAX by {
                lemma_count_le_sum(prev, next_free as int, i);
            }
            lemma_scan_pair_props(prev, next_free as int);
            lemma_pair_le_sum(prev, next_free as int, pair.0 as int, pair.1 as int);
            lemma_num_active_two(prev, next_free as int, pair.0 as int, pair.1 as int);
        }
        let m1 = pair.0;
        let m2 = pair.1;
        let n1 = nodes[m1];
        let n2 = nodes[m2];
        let c1 = n1.count;
        let c2 = n2.count;
        nodes.set(
            m1,
            Node { count: 0, saved_count: c1, child_0: n1.child_0, child_1: n1.child_1 },
        );
        nodes.set(
            m2,
            Node { count: 0, saved_count: c2, child_0: n2.child_0, child_1: n2.child_1 },
        );
        let nd = nodes[next_free];
        nodes.set(
            next_free,
            Node { count: c1 + c2, saved_count: nd.saved_count, child_0: m1, child_1: m2 },
        );
        proof {
            let nf = next_free as int;
            assert(nodes@ =~= merge_step(prev, m1 as int, m2 as int, nf));
            let merged = nodes@;
            let step1 = prev.update(
                m1 as int,
                Node { count: 0, saved_count: c1, child_0: n1.child_0, child_1: n1.child_1 },
            );
            let step2 = step1.update(
                m2 as int,
                Node { count: 0, saved_count: c2, child_0: n2.child_0, child_1: n2.child_1 },
            );
            lemma_count_sum_update(prev, nf, m1 as int, step1[m1 as int]);
            lemma_count_sum_update(step1, nf, m2 as int, step2[m2 as int]);
            lemma_count_sum_update(step2, nf, nf, merged[nf]);
            assert(count_sum(merged, nf + 1) == count_sum(merged, nf) + merged[nf].count);
            lemma_num_active_update(prev, nf, m1 as int, step1[m1 as int]);
            lemma_num_active_update(step1, nf, m2 as int, step2[m2 as int]);
            lemma_num_active_update(step2, nf, nf, merged[nf]);
            assert(num_active(merged, nf + 1) == num_active(merged, nf) + 1);
            assert forall|l: int| 0 <= l <= 256 && init[l].count != 0 implies exists|a: int|
                0 <= a < nf + 1 && merged[a].count != 0 && reachable(merged, a, l) by {
                let a = choose|a: int|
                    0 <= a < nf && prev[a].count != 0 && reachable(prev, a, l);
                if a == m1 as int || a == m2 as int {
                    lemma_reachable_frame(prev, merged, m1 as int, l);
                    lemma_reachable_frame(prev, merged, m2 as int, l);
                    assert(reachable(merged, nf, l));
                    assert(0 <= nf < nf + 1 && merged[nf].count != 0 && reachable(
                        merged, nf, l));
                } else {
                    lemma_reachable_frame(prev, merged, a, l);
                    assert(0 <= a < nf + 1 && merged[a].count != 0 && reachable(merged, a, l));
                }
            }
        }
        next_free = next_free + 1;
        pair = find_two_minima(nodes, next_free);
    }
    proof {
        let nf = next_free as int;
        assert forall|i: int| 0 <= i < nf implies nodes@[i].count < u32::MAX by {
            lemma_count_le_sum(nodes@, nf, i);
        }
        lemma_scan_pair_props(nodes@, nf);
        lemma_num_active_at_most_one(nodes@, nf, pair.0 as int);
        assert(build_loop(nodes@, nf) == (nodes@, nf));
        if next_free == 257 {
            assert(init[256].count != 0);
            let a = choose|a: int|
                0 <= a < nf && nodes@[a].count != 0 && reachable(nodes@, a, 256);
            assert(a == 256);
            assert(nodes@[256].count != 0);
            assert(pair.0 == 256);
        }
    }
    let root = next_free - 1;
    let ghost before = nodes@;
    let r = nodes[root];
    nodes.set(
        root,
        Node {
            count: r.count,
            saved_count: r.count,
            child_0: r.child_0,
            child_1: r.child_1,
        },
    );
    proof {
        let nf = next_free as int;
        assert(nodes@ =~= build_spec(init).0);
        if next_free > 257 {
            assert(before[root as int].count != 0);
            assert(pair.0 == root);
        }
        lemma_wf_from_children_bound(before, root as int, nf);
        lemma_wf_tree_frame(before, nodes@, root as int);
        assert forall|l: int| 0 <= l <= 256 && init[l].count != 0 implies reachable(
            nodes@, root as int, l) by {
            let a = choose|a: int|
                0 <= a < nf && before[a].count != 0 && reachable(before, a, l);
            assert(a == pair.0 as int);
            lemma_reachable_frame(before, nodes@, a, l);
        }
        if forall|l: int| 0 <= l < 256 ==> init[l].count == 0 {
            lemma_num_active_at_most_one(start, 257, 256);
            lemma_num_active_one(start, 257, 256);
            assert(a0 == 1);
            assert(root == 256);
        }
        if root == 256 {
            assert forall|l: int| 0 <= l < 256 implies init[l].count == 0 by {
                if init[l].count != 0 {
                    assert(reachable(nodes@, 256, l));
                }
            }
        }
    }
    root
}

/// Computes the height of the tree under `node_index`.
pub fn measure_height(nodes: &Vec<Node>, node_index: usize) -> (h: u32)
    requires
        nodes@.len() == 514,
        node_index < 514,
        wf_tree(nodes@, node_index as int),
    ensures
        h == tree_height(nodes@, node_index as int),
    decreases node_index,
{
    if node_index <= END_OF_STREAM {
        return 0;
    }
    proof {
        lemma_height_le_index(nodes@, nodes@[node_index as int].child_0 as int);
        lemma_height_le_index(nodes@, nodes@[node_index as int].child_1 as int);
    }
    let h0 = measure_height(nodes, nodes[node_index].child_0);
    let h1 = measure_height(nodes, nodes[node_index].child_1);
    if h0 > h1 {
        h0 + 1
    } else {
        h1 + 1
    }
}

/// Records, for every leaf under `node_index`, the accumulated bit pattern
/// of the walk that reaches it: a zero bit for each first-child descent and
/// a one bit for each second-child descent.
pub fn convert_tree_to_code(
    nodes: &Vec<Node>,
    codes: &mut Vec<Code>,
    code_so_far: u32,
    bits: u32,
    node_index: usize,
)
    requires
        nodes@.len() == 514,
        old(codes)@.len() == 257,
        node_index < 514,
        wf_tree(nodes@, node_index as int),
        bits + tree_height(nodes@, node_index as int) <= 32,
        code_so_far < vstd::arithmetic::power2::pow2(bits as nat),
    ensures
        final(codes)@ == assign_codes(
            nodes@,
            node_index as int,
            code_seq(code_so_far, bits as int),
            old(codes)@,
        ),
        final(codes)@.len() == 257,
    decreases node_index,
{
    proof {
        lemma_assign_codes_len(
            nodes@,
            node_index as int,
            code_seq(code_so_far, bits as int),
            old(codes)@,
        );
    }
    if node_index <= END_OF_STREAM {
        proof {
            crate::bitio::lemma_bits_val_of_code_seq(code_so_far, bits as int);
        }
        codes.set(node_index, Code { code: code_so_far, code_bits: bits });
        return;
    }
    proof {
        assert(tree_height(nodes@, node_index as int) >= 1 + tree_height(
            nodes@,
            nodes@[node_index as int].child_0 as int,
        ));
        assert(tree_height(nodes@, node_index as int) >= 1 + tree_height(
            nodes@,
            nodes@[node_index as int].child_1 as int,
        ));
        lemma_height_le_index(nodes@, nodes@[node_index as int].child_0 as int);
        lemma_height_le_index(nodes@, nodes@[node_index as int].child_1 as int);
        lemma_code_seq_push(code_so_far, bits as int);
    }
    let next_bit = bits + 1;
    let left = nodes[node_index].child_0;
    convert_tree_to_code(nodes, codes, code_so_far << 1u32, next_bit, left);
    let right = nodes[node_index].child_1;
    convert_tree_to_code(nodes, codes, (code_so_far << 1u32) | 1u32, next_bit, right);
}

/// Appending a zero or one bit to a pattern doubles its value, possibly
/// plus one.
pub proof fn lemma_code_seq_push(v: u32, n: int)
    requires
        0 <= n <= 31,
        v < vstd::arithmetic::power2::pow2(n as nat),
    ensures
        code_seq(v << 1u32, n + 1) == code_seq(v, n).push(false),
        code_seq((v << 1u32) | 1u32, n + 1) == code_seq(v, n).push(true),
        (v << 1u32) < vstd::arithmetic::power2::pow2((n + 1) as nat),
        ((v << 1u32) | 1u32) < vstd::arithmetic::power2::pow2((n + 1) as nat),
{
    vstd::arithmetic::power2::lemma_pow2_unfold((n + 1) as nat);
    if n < 31 {
        vstd::arithmetic::power2::lemma_pow2_strictly_increases(n as nat, 31);
    }
    vstd::arithmetic::power2::lemma2_to64();
    assert((v << 1u32) == 2 * v && ((v << 1u32) | 1u32) == 2 * v + 1) by (bit_vector)
        requires
            v < 0x80000000u32,
    ;
    assert forall|i: int| 0 <= i < n implies code_seq(v << 1u32, n + 1)[i] == code_seq(
        v, n)[i] && code_seq((v << 1u32) | 1u32, n + 1)[i] == code_seq(v, n)[i] by {
        let k = (n - i) as u32;
        let w = v << 1u32;
        assert((w >> k) & 1 == (v >> ((k - 1) as u32)) & 1 && ((w | 1u32) >> k) & 1 == (v >> ((
        k - 1) as u32)) & 1) by (bit_vector)
            requires
                1 <= k < 32u32,
                w == v << 1u32,
        ;
        assert((n - 1 - i) as u32 == (k - 1) as u32);
        assert((n + 1 - 1 - i) as u32 == k);
    }
    let w = v << 1u32;
    assert((w >> 0u32) & 1 == 0 && ((w | 1u32) >> 0u32) & 1 == 1) by (bit_vector)
        requires
            w == v << 1u32,
    ;
    assert(code_seq(v << 1u32, n + 1) =~= code_seq(v, n).push(false));
    assert(code_seq((v << 1u32) | 1u32, n + 1) =~= code_seq(v, n).push(true));
}

/// No generated code is a bit-prefix of another symbol's code: the codes of
/// two distinct reachable symbols never stand in the prefix relation.
pub proof fn lemma_prefix_free(
    nodes: Seq<Node>,
    root: int,
    codes0: Seq<Code>,
    l: int,
    m: int,
)
    requires
        0 <= root < 514,
        nodes.len() == 514,
        wf_tree(nodes, root),
        codes0.len() == 257,
        tree_height(nodes, root) <= 32,
        0 <= l < 257,
        0 <= m < 257,
        l != m,
        reachable(nodes, root, l),
        reachable(nodes, root, m),
    ensures
        ({
            let codes = assign_codes(nodes, root, Seq::<bool>::empty(), codes0);
            !(codes[l].code_bits <= codes[m].code_bits && code_seq(
                codes[m].code,
                codes[m].code_bits as int,
            ).take(codes[l].code_bits as int) == code_seq(
                codes[l].code,
                codes[l].code_bits as int,
            ))
        }),
{
    let codes = assign_codes(nodes, root, Seq::<bool>::empty(), codes0);
    let pl = leaf_path(nodes, root, l);
    let pm = leaf_path(nodes, root, m);
    lemma_assign_codes_content(nodes, root, Seq::<bool>::empty(), codes0);
    assert(Seq::<bool>::empty() + pl =~= pl);
    assert(Seq::<bool>::empty() + pm =~= pm);
    lemma_leaf_path_len(nodes, root, l);
    lemma_leaf_path_len(nodes, root, m);
    crate::bitio::lemma_code_seq_of_bits_val(pl);
    crate::bitio::lemma_code_seq_of_bits_val(pm);
    if codes[l].code_bits <= codes[m].code_bits && code_seq(
        codes[m].code,
        codes[m].code_bits as int,
    ).take(codes[l].code_bits as int) == code_seq(codes[l].code, codes[l].code_bits as int) {
        lemma_walk_path(nodes, root, m, pm, 0);
        assert(forall|k: int| 0 <= k < pl.len() ==> pm[k] == pl[k]);
        lemma_walk_path(nodes, root, l, pm, 0);
        assert(false);
    }
}

} // verus!
