//! The bit-exact compress and expand drivers: each source byte's code goes
//! out most-significant bit first, the end-of-stream code closes the
//! payload, and expansion walks the tree bit by bit until it reaches the
//! end-of-stream leaf.

use vstd::prelude::*;
use crate::HuffError;
use crate::bitio::{
    BitWriter,
    BitReader,
    code_seq,
    bytes_to_bits,
    copy_bytes,
    lemma_bytes_to_bits_len,
    lemma_bytes_to_bits_concat,
    lemma_bytes_bits_prefix,
    lemma_code_seq_of_bits_val,
};
use crate::tree::{
    Node,
    Code,
    walk,
    wf_tree,
    reachable,
    tree_height,
    leaf_path,
    assign_codes,
    build_spec,
    make_nodes,
    build_tree,
    convert_tree_to_code,
    measure_height,
    lemma_assign_codes_content,
    lemma_leaf_path_len,
    lemma_walk_path,
};
use crate::model::{
    occurrences,
    scaled_count,
    count_bytes,
    scale_counts,
    lemma_scaled_count_le,
    lemma_occurrences_pos,
};
use crate::header::{
    encode_runs,
    decode_runs,
    next_nonzero,
    init_table,
    output_counts,
    input_counts,
    lemma_decode_encode,
};

verus! {

/// The bit stream that a code table produces for a byte sequence.
pub open spec fn symbols_bits(codes: Seq<Code>, src: Seq<u8>) -> Seq<bool>
    decreases src.len(),
{
    if src.len() == 0 {
        Seq::empty()
    } else {
        code_seq(codes[src[0] as int].code, codes[src[0] as int].code_bits as int)
            + symbols_bits(codes, src.drop_first())
    }
}

/// The whole payload: every source byte's code, then the end-of-stream
/// code.
pub open spec fn payload_bits(codes: Seq<Code>, src: Seq<u8>) -> Seq<bool> {
    symbols_bits(codes, src) + code_seq(codes[256].code, codes[256].code_bits as int)
}

pub proof fn lemma_symbols_bits_push(codes: Seq<Code>, src: Seq<u8>, b: u8)
    ensures
        symbols_bits(codes, src.push(b)) == symbols_bits(codes, src) + code_seq(
            codes[b as int].code,
            codes[b as int].code_bits as int,
        ),
    decreases src.len(),
{
    let c = code_seq(codes[b as int].code, codes[b as int].code_bits as int);
    if src.len() == 0 {
        assert(src.push(b)[0] == b);
        assert(src.push(b).drop_first() =~= Seq::<u8>::empty());
        assert(symbols_bits(codes, src.push(b)) == c + symbols_bits(
            codes,
            src.push(b).drop_first(),
        ));
        assert(symbols_bits(codes, src.push(b).drop_first()) == Seq::<bool>::empty());
        assert(symbols_bits(codes, src.push(b)) =~= symbols_bits(codes, src) + c);
    } else {
        assert(src.push(b)[0] == src[0]);
        assert(src.push(b).drop_first() =~= src.drop_first().push(b));
        lemma_symbols_bits_push(codes, src.drop_first(), b);
        assert(symbols_bits(codes, src.push(b)) =~= symbols_bits(codes, src) + c);
    }
}

/// Whether `out` is what the payload bits of `bits`, read from position
/// `i`, decode to under the tree rooted at `root`: one walk per output
/// byte, then a walk that reaches the end-of-stream leaf.
pub open spec fn decodes_to(
    nodes: Seq<Node>,
    root: int,
    bits: Seq<bool>,
    i: int,
    out: Seq<u8>,
) -> bool
    decreases out.len(),
{
    match walk(nodes, root, bits, i) {
        Some(p) => {
            if out.len() == 0 {
                p.0 == 256
            } else {
                p.0 == out[0] as int && decodes_to(nodes, root, bits, p.1, out.drop_first())
            }
        },
        None => false,
    }
}

/// The walk is deterministic, so at most one byte sequence decodes from a
/// given position.
pub proof fn lemma_decodes_unique(
    nodes: Seq<Node>,
    root: int,
    bits: Seq<bool>,
    i: int,
    s1: Seq<u8>,
    s2: Seq<u8>,
)
    requires
        decodes_to(nodes, root, bits, i, s1),
        decodes_to(nodes, root, bits, i, s2),
    ensures
        s1 == s2,
    decreases s1.len(),
{
    let p = walk(nodes, root, bits, i)->Some_0;
    if s1.len() == 0 {
        if s2.len() != 0 {
            assert(false);
        } else {
            assert(s1 =~= s2);
        }
    } else {
        assert(s2.len() != 0);
        lemma_decodes_unique(nodes, root, bits, p.1, s1.drop_first(), s2.drop_first());
        assert(s1.len() == s2.len());
        assert forall|k: int| 0 <= k < s1.len() implies s1[k] == s2[k] by {
            if k > 0 {
                assert(s1.drop_first()[k - 1] == s2.drop_first()[k - 1]);
            }
        }
        assert(s1 =~= s2);
    }
}

/// Writes each source byte's code in order, then the end-of-stream code.
pub fn compress_data(input: &Vec<u8>, output: &mut BitWriter, codes: &Vec<Code>)
    requires
        old(output).wf(),
        codes@.len() == 257,
        forall|b: int|
            0 <= b <= 256 ==> (#[trigger] codes@[b].code_bits) <= 32 && (codes@[b].code as nat)
                < vstd::arithmetic::power2::pow2(codes@[b].code_bits as nat),
    ensures
        final(output).wf(),
        final(output)@ == old(output)@ + payload_bits(codes@, input@),
{
    let ghost pre = *old(output);
    let mut i: usize = 0;
    proof {
        assert(input@.take(0) =~= Seq::<u8>::empty());
        assert(pre@ + symbols_bits(codes@, input@.take(0)) =~= pre@);
    }
    while i < input.len()
        invariant
            pre == *old(output),
            output.wf(),
            codes@.len() == 257,
            forall|b: int|
                0 <= b <= 256 ==> (#[trigger] codes@[b].code_bits) <= 32 && (
                codes@[b].code as nat) < vstd::arithmetic::power2::pow2(
                    codes@[b].code_bits as nat,
                ),
            i <= input@.len(),
            output@ == pre@ + symbols_bits(codes@, input@.take(i as int)),
        decreases input@.len() - i,
    {
        let c = input[i] as usize;
        output.output_bits(codes[c].code, codes[c].code_bits);
        proof {
            assert(input@.take(i + 1) =~= input@.take(i as int).push(input@[i as int]));
            lemma_symbols_bits_push(codes@, input@.take(i as int), input@[i as int]);
            assert(output@ =~= pre@ + symbols_bits(codes@, input@.take(i + 1)));
        }
        i = i + 1;
    }
    output.output_bits(codes[256].code, codes[256].code_bits);
    proof {
        assert(input@.take(input@.len() as int) =~= input@);
        assert(output@ =~= pre@ + payload_bits(codes@, input@));
    }
}

/// Walks the tree on the reader's bits until the end-of-stream leaf,
/// emitting one byte per literal leaf reached.
///
/// When any byte sequence decodes from the reader's position, exactly that
/// sequence is returned; when none does, the bits ran out mid-walk and the
/// reader reports the end of the stream.
pub fn expand_data(input: &mut BitReader, nodes: &Vec<Node>, root_node: usize) -> (r: Result<
    Vec<u8>,
    HuffError,
>)
    requires
        old(input).wf(),
        nodes@.len() == 514,
        256 <= root_node < 514,
        wf_tree(nodes@, root_node as int),
    ensures
        final(input).wf(),
        final(input).stream() == old(input).stream(),
        match r {
            Ok(out) => decodes_to(
                nodes@,
                root_node as int,
                old(input).stream(),
                old(input).consumed(),
                out@,
            ),
            Err(e) => {
                &&& e == HuffError::UnexpectedEndOfStream
                &&& forall|s: Seq<u8>|
                    !decodes_to(
                        nodes@,
                        root_node as int,
                        old(input).stream(),
                        old(input).consumed(),
                        s,
                    )
            },
        },
        forall|s: Seq<u8>|
            decodes_to(
                nodes@,
                root_node as int,
                old(input).stream(),
                old(input).consumed(),
                s,
            ) ==> (r matches Ok(out) && out@ == s),
{
    let ghost stream = old(input).stream();
    let ghost c0 = old(input).consumed();
    let ghost root = root_node as int;
    let mut out: Vec<u8> = Vec::new();
    proof {
        old(input).lemma_reader_bounds();
        assert forall|s: Seq<u8>|
            decodes_to(nodes@, root, stream, c0, s) implies out@.len() <= s.len() && s.take(
            out@.len() as int) == out@ && decodes_to(
            nodes@,
            root,
            stream,
            input.consumed(),
            s.skip(out@.len() as int),
        ) by {
            assert(s.take(0) =~= out@);
            assert(s.skip(0) =~= s);
        }
    }
    loop
        invariant
            input.wf(),
            input.stream() == stream,
            stream == old(input).stream(),
            c0 == old(input).consumed(),
            nodes@.len() == 514,
            256 <= root_node < 514,
            root == root_node as int,
            wf_tree(nodes@, root),
            0 <= c0 <= input.consumed() <= stream.len(),
            forall|t: Seq<u8>|
                #[trigger] decodes_to(nodes@, root, stream, input.consumed(), t) ==> decodes_to(
                    nodes@,
                    root,
                    stream,
                    c0,
                    (out@ + t),
                ),
            forall|s: Seq<u8>|
                #[trigger] decodes_to(nodes@, root, stream, c0, s) ==> out@.len() <= s.len()
                    && s.take(out@.len() as int) == out@ && decodes_to(
                    nodes@,
                    root,
                    stream,
                    input.consumed(),
                    s.skip(out@.len() as int),
                ),
        decreases stream.len() - input.consumed(),
    {
        let ghost head_c = input.consumed();
        let mut node = root_node;
        while node > 256
            invariant
                input.wf(),
                input.stream() == stream,
                stream == old(input).stream(),
                c0 == old(input).consumed(),
                nodes@.len() == 514,
                256 <= root_node < 514,
                root == root_node as int,
                wf_tree(nodes@, root),
                node < 514,
                wf_tree(nodes@, node as int),
                0 <= c0 <= head_c <= input.consumed() <= stream.len(),
                walk(nodes@, root, stream, head_c) == walk(
                    nodes@,
                    node as int,
                    stream,
                    input.consumed(),
                ),
                forall|s: Seq<u8>|
                    #[trigger] decodes_to(nodes@, root, stream, c0, s) ==> out@.len() <= s.len()
                        && s.take(out@.len() as int) == out@ && decodes_to(
                        nodes@,
                        root,
                        stream,
                        head_c,
                        s.skip(out@.len() as int),
                    ),
            decreases node,
        {
            let ghost wi = input.consumed();
            let ghost wnode = node as int;
            let bit = match input.input_bit() {
                Ok(b) => b,
                Err(e) => {
                    proof {
                        assert(walk(nodes@, wnode, stream, wi) is None);
                        assert forall|s: Seq<u8>|
                            !decodes_to(nodes@, root, stream, c0, s) by {
                            if decodes_to(nodes@, root, stream, c0, s) {
                                assert(decodes_to(
                                    nodes@,
                                    root,
                                    stream,
                                    head_c,
                                    s.skip(out@.len() as int),
                                ));
                            }
                        }
                    }
                    return Err(e);
                },
            };
            node = if bit {
                nodes[node].child_1
            } else {
                nodes[node].child_0
            };
            proof {
                assert(stream[wi] == bit);
                assert(wnode > 256);
                assert(wf_tree(nodes@, wnode));
                assert(wnode < nodes@.len() && (nodes@[wnode].child_0 as int) < wnode && (
                nodes@[wnode].child_1 as int) < wnode);
                assert(wi < stream.len());
                assert(walk(nodes@, wnode, stream, wi) == walk(
                    nodes@,
                    node as int,
                    stream,
                    wi + 1,
                ));
            }
        }
        proof {
            assert(walk(nodes@, root, stream, head_c) == Some(
                (node as int, input.consumed()),
            ));
        }
        if node == 256 {
            proof {
                assert(decodes_to(nodes@, root, stream, head_c, Seq::<u8>::empty()));
                assert(out@ + Seq::<u8>::empty() =~= out@);
                assert(decodes_to(nodes@, root, stream, c0, out@));
                assert forall|s: Seq<u8>|
                    decodes_to(nodes@, root, stream, c0, s) implies out@ == s by {
                    lemma_decodes_unique(nodes@, root, stream, c0, out@, s);
                }
            }
            return Ok(out);
        }
        let sym = node as u8;
        proof {
            let j = input.consumed();
            assert forall|t: Seq<u8>|
                decodes_to(nodes@, root, stream, j, t) implies decodes_to(
                nodes@, root, stream, c0, (out@.push(sym) + t)) by {
                let st = seq![sym] + t;
                assert(st[0] == sym);
                assert(st.drop_first() =~= t);
                assert(decodes_to(nodes@, root, stream, head_c, st));
                assert(out@ + st =~= out@.push(sym) + t);
            }
            assert forall|s: Seq<u8>|
                decodes_to(nodes@, root, stream, c0, s) implies out@.push(sym).len() <= s.len()
                && s.take(out@.push(sym).len() as int) == out@.push(sym) && decodes_to(
                nodes@,
                root,
                stream,
                j,
                s.skip(out@.push(sym).len() as int),
            ) by {
                let n0 = out@.len() as int;
                let rest = s.skip(n0);
                assert(decodes_to(nodes@, root, stream, head_c, rest));
                assert(rest.len() != 0);
                assert(rest[0] == sym);
                assert(decodes_to(nodes@, root, stream, j, rest.drop_first()));
                assert forall|k: int|
                    0 <= k < rest.drop_first().len() implies rest.drop_first()[k] == s.skip(
                    n0 + 1)[k] by {
                    assert(rest[k + 1] == s[n0 + (k + 1)]);
                }
                assert(rest.drop_first() =~= s.skip(n0 + 1));
                assert forall|k: int|
                    0 <= k < n0 + 1 implies s.take(n0 + 1)[k] == out@.push(sym)[k] by {
                    if k < n0 {
                        assert(s.take(n0)[k] == out@[k]);
                    } else {
                        assert(rest[0] == s[n0 + 0]);
                    }
                }
                assert(s.take(n0 + 1) =~= out@.push(sym));
            }
            crate::tree::lemma_walk_advances(nodes@, root, stream, head_c);
            assert(input.consumed() > head_c);
        }
        out.push(sym);
    }
}

/// The per-byte tallies of a source, as the model counts them.
pub open spec fn counts_spec(src: Seq<u8>) -> Seq<u64> {
    Seq::new(256, |b: int| occurrences(src, b as u8) as u64)
}

/// The scaled table a source produces: 256 scaled tallies and the fixed
/// end-of-stream slot.
pub open spec fn table_spec(src: Seq<u8>) -> Seq<u32> {
    Seq::new(
        257,
        |i: int|
            if i == 256 {
                1u32
            } else {
                scaled_count(counts_spec(src), i) as u32
            },
    )
}

/// The fresh arena a table seeds.
pub open spec fn nodes_init(table: Seq<u32>) -> Seq<Node> {
    Seq::new(
        514,
        |i: int|
            Node {
                count: if i <= 256 {
                    table[i]
                } else {
                    0u32
                },
                saved_count: 0,
                child_0: 0,
                child_1: 0,
            },
    )
}

/// The tree a table builds: the merged arena and its root slot.
pub open spec fn tree_spec(table: Seq<u32>) -> (Seq<Node>, int) {
    build_spec(nodes_init(table))
}

/// An empty code table.
pub open spec fn init_codes() -> Seq<Code> {
    Seq::new(257, |i: int| Code { code: 0, code_bits: 0 })
}

/// The code table a tree yields.
pub open spec fn codes_spec(nodes: Seq<Node>, root: int) -> Seq<Code> {
    assign_codes(nodes, root, Seq::<bool>::empty(), init_codes())
}

/// What makes `out` a compressed image of `src`: the header bytes encode
/// the source's scaled table, the tree that table builds is sound and
/// covers every occurring byte, and the remaining bytes carry the payload
/// bits, zero-padded to a whole byte.
pub open spec fn compressed_rel(src: Seq<u8>, out: Seq<u8>) -> bool {
    let table = table_spec(src);
    let header = encode_runs(table, next_nonzero(table, 0));
    let tr = tree_spec(table);
    let codes = codes_spec(tr.0, tr.1);
    let payload = payload_bits(codes, src);
    &&& header.len() <= out.len()
    &&& out.subrange(0, header.len() as int) == header
    &&& tr.0.len() == 514
    &&& 256 <= tr.1 <= 512
    &&& wf_tree(tr.0, tr.1)
    &&& tree_height(tr.0, tr.1) <= 32
    &&& forall|l: int| 0 <= l <= 256 && table[l] != 0 ==> reachable(tr.0, tr.1, l)
    &&& ((tr.1 == 256) <==> (forall|l: int| 0 <= l < 256 ==> table[l] == 0))
    &&& payload.len() <= 8 * (out.len() - header.len()) < payload.len() + 8
    &&& bytes_to_bits(out.skip(header.len() as int)).take(payload.len() as int) == payload
}

/// Bits that spell out a whole payload walk back to exactly its source
/// bytes and then the end-of-stream leaf.
pub proof fn lemma_payload_decodes(
    nodes: Seq<Node>,
    root: int,
    codes: Seq<Code>,
    src: Seq<u8>,
    bits: Seq<bool>,
    i: int,
)
    requires
        nodes.len() == 514,
        0 <= root < 514,
        wf_tree(nodes, root),
        codes.len() == 257,
        forall|l: int|
            0 <= l <= 256 && reachable(nodes, root, l) ==> code_seq(
                codes[l].code,
                codes[l].code_bits as int,
            ) == leaf_path(nodes, root, l),
        forall|k: int| 0 <= k < src.len() ==> reachable(nodes, root, (#[trigger] src[k]) as int),
        reachable(nodes, root, 256),
        0 <= i,
        i + payload_bits(codes, src).len() <= bits.len(),
        forall|k: int|
            0 <= k < payload_bits(codes, src).len() ==> #[trigger] bits[i + k] == payload_bits(
                codes,
                src,
            )[k],
    ensures
        decodes_to(nodes, root, bits, i, src),
    decreases src.len(),
{
    let pb = payload_bits(codes, src);
    if src.len() == 0 {
        let p256 = leaf_path(nodes, root, 256);
        assert(code_seq(codes[256].code, codes[256].code_bits as int) == p256);
        assert(symbols_bits(codes, src) == Seq::<bool>::empty());
        assert(pb =~= p256);
        assert forall|k: int| 0 <= k < p256.len() implies bits[i + k] == p256[k] by {
            assert(bits[i + k] == pb[k]);
        }
        lemma_walk_path(nodes, root, 256, bits, i);
    } else {
        let b = src[0];
        let c = code_seq(codes[b as int].code, codes[b as int].code_bits as int);
        let pth = leaf_path(nodes, root, b as int);
        assert(reachable(nodes, root, src[0] as int));
        assert(c == pth);
        let src2 = src.drop_first();
        let pb2 = payload_bits(codes, src2);
        assert(symbols_bits(codes, src) == c + symbols_bits(codes, src2));
        assert(pb =~= c + pb2);
        assert forall|k: int| 0 <= k < pth.len() implies bits[i + k] == pth[k] by {
            assert(bits[i + k] == pb[k]);
            assert(pb[k] == c[k]);
        }
        lemma_walk_path(nodes, root, b as int, bits, i);
        let j = i + pth.len() as int;
        assert forall|k: int| 0 <= k < pb2.len() implies #[trigger] bits[j + k] == pb2[k] by {
            assert(pb[pth.len() + k] == pb2[k]);
            assert(bits[i + (pth.len() + k)] == pb[pth.len() + k]);
            assert(j + k == i + (pth.len() + k));
        }
        assert forall|k: int|
            0 <= k < src2.len() implies reachable(nodes, root, (#[trigger] src2[k]) as int) by {
            assert(src2[k] == src[k + 1]);
        }
        lemma_payload_decodes(nodes, root, codes, src2, bits, j);
        assert(walk(nodes, root, bits, i) == Some((b as int, j)));
        assert(decodes_to(nodes, root, bits, i, src));
    }
}

/// Compresses a source into a self-describing image: the run-length header
/// for its scaled tallies, then the Huffman-coded payload closed by the
/// end-of-stream code. Fails only when a generated code would be longer
/// than its storage width allows.
pub fn compress(source: &Vec<u8>) -> (r: Result<Vec<u8>, HuffError>)
    ensures
        match r {
            Ok(out) => compressed_rel(source@, out@),
            Err(e) => {
                &&& e == HuffError::CodeTooLong
                &&& tree_height(
                    tree_spec(table_spec(source@)).0,
                    tree_spec(table_spec(source@)).1,
                ) > 32
            },
        },
{
    let counts = count_bytes(source);
    proof {
        assert(counts@ =~= counts_spec(source@));
    }
    let scaled = scale_counts(&counts);
    proof {
        assert(scaled@ =~= table_spec(source@));
    }
    let header = output_counts(&scaled);
    let mut nodes = make_nodes(&scaled);
    proof {
        assert(nodes@ =~= nodes_init(scaled@));
    }
    let root = build_tree(&mut nodes);
    let ghost table = scaled@;
    let ghost tr = tree_spec(table);
    let h = measure_height(&nodes, root);
    if h > 32 {
        return Err(HuffError::CodeTooLong);
    }
    let mut codes: Vec<Code> = Vec::new();
    let mut z: usize = 0;
    while z < 257
        invariant
            codes@.len() == z <= 257,
            forall|k: int| 0 <= k < z ==> #[trigger] codes@[k] == (Code { code: 0, code_bits: 0 }),
        decreases 257 - z,
    {
        codes.push(Code { code: 0, code_bits: 0 });
        z = z + 1;
    }
    proof {
        assert(codes@ =~= init_codes());
        vstd::arithmetic::power2::lemma2_to64();
        assert(code_seq(0u32, 0) =~= Seq::<bool>::empty());
    }
    convert_tree_to_code(&nodes, &mut codes, 0, 0, root);
    proof {
        assert(codes@ == codes_spec(tr.0, tr.1));
        lemma_assign_codes_content(nodes@, root as int, Seq::<bool>::empty(), init_codes());
        assert forall|b: int|
            0 <= b <= 256 implies (#[trigger] codes@[b].code_bits) <= 32 && (
        codes@[b].code as nat) < vstd::arithmetic::power2::pow2(codes@[b].code_bits as nat) by {
            if reachable(nodes@, root as int, b) {
                lemma_leaf_path_len(nodes@, root as int, b);
                let pth = Seq::<bool>::empty() + leaf_path(nodes@, root as int, b);
                lemma_code_seq_of_bits_val(pth);
            } else {
                assert(codes@[b] == init_codes()[b]);
            }
        }
    }
    let ghost hlen = header@.len() as int;
    let mut writer = BitWriter::from_bytes(header);
    compress_data(source, &mut writer, &codes);
    let ghost wbits = writer@;
    let out = writer.close_output();
    proof {
        let payload = payload_bits(codes@, source@);
        lemma_bytes_to_bits_len(out@);
        assert(wbits == bytes_to_bits(table_header_bytes(table)) + payload) by {
            assert(table_header_bytes(table) == encode_runs(table, next_nonzero(table, 0)));
        }
        let hdr = table_header_bytes(table);
        lemma_bytes_to_bits_len(hdr);
        assert forall|k: int| 0 <= k < 8 * hlen implies bytes_to_bits(out@)[k] == bytes_to_bits(
            hdr)[k] by {
            assert(bytes_to_bits(out@).take(wbits.len() as int)[k] == wbits[k]);
        }
        lemma_bytes_bits_prefix(out@, hdr);
        assert(out@.subrange(0, hlen) == hdr);
        assert(out@ =~= out@.subrange(0, hlen) + out@.skip(hlen));
        lemma_bytes_to_bits_concat(out@.subrange(0, hlen), out@.skip(hlen));
        lemma_bytes_to_bits_len(out@.skip(hlen));
        assert forall|k: int|
            0 <= k < payload.len() implies bytes_to_bits(out@.skip(hlen))[k] == payload[k] by {
            assert(bytes_to_bits(out@)[8 * hlen + k] == bytes_to_bits(out@.subrange(0, hlen)
                + out@.skip(hlen))[8 * hlen + k]);
            assert(bytes_to_bits(out@).take(wbits.len() as int)[8 * hlen + k] == wbits[8 * hlen
                + k]);
            assert(wbits[8 * hlen + k] == payload[k]);
        }
        assert(bytes_to_bits(out@.skip(hlen)).take(payload.len() as int) =~= payload);
        assert(compressed_rel(source@, out@));
    }
    Ok(out)
}

/// The header bytes of a table.
pub open spec fn table_header_bytes(table: Seq<u32>) -> Seq<u8> {
    encode_runs(table, next_nonzero(table, 0))
}

/// Expands a compressed image: reads the header back into a table, rebuilds
/// the tree, and decodes the payload bits until the end-of-stream code.
///
/// Whenever the image's header parses and its payload bits decode to some
/// byte sequence, exactly that sequence is returned.
pub fn expand(data: &Vec<u8>) -> (r: Result<Vec<u8>, HuffError>)
    ensures
        match r {
            Ok(out) => {
                let d = decode_runs(data@, 0, init_table(), true);
                &&& d is Some
                &&& decodes_to(
                    tree_spec(d->Some_0.0).0,
                    tree_spec(d->Some_0.0).1,
                    bytes_to_bits(data@),
                    8 * d->Some_0.1,
                    out@,
                )
            },
            Err(e) => e == HuffError::UnexpectedEndOfStream,
        },
        forall|s: Seq<u8>|
            (decode_runs(data@, 0, init_table(), true) is Some && #[trigger] decodes_to(
                tree_spec(decode_runs(data@, 0, init_table(), true)->Some_0.0).0,
                tree_spec(decode_runs(data@, 0, init_table(), true)->Some_0.0).1,
                bytes_to_bits(data@),
                8 * decode_runs(data@, 0, init_table(), true)->Some_0.1,
                s,
            )) ==> (r matches Ok(out) && out@ == s),
{
    let parsed = input_counts(data, 0);
    let (table, hdr_end) = match parsed {
        Ok(p) => p,
        Err(e) => {
            return Err(e);
        },
    };
    let mut nodes = make_nodes(&table);
    proof {
        assert(nodes@ =~= nodes_init(table@));
    }
    let root = build_tree(&mut nodes);
    let mut reader = BitReader::new_at(copy_bytes(data), hdr_end);
    let res = expand_data(&mut reader, &nodes, root);
    match res {
        Ok(out) => Ok(out),
        Err(e) => Err(e),
    }
}

/// Round-trip: a compressed image of a source parses back to the source's
/// own scaled table, and its payload bits decode, under the tree that table
/// rebuilds, to exactly the source bytes. Together with the expander's
/// contract this means expanding a compressed image returns the original.
pub proof fn lemma_round_trip(src: Seq<u8>, out: Seq<u8>)
    requires
        compressed_rel(src, out),
        src.len() <= u64::MAX,
    ensures
        ({
            let table = table_spec(src);
            let hlen = table_header_bytes(table).len() as int;
            &&& decode_runs(out, 0, init_table(), true) == Some((table, hlen))
            &&& decodes_to(
                tree_spec(table).0,
                tree_spec(table).1,
                bytes_to_bits(out),
                8 * hlen,
                src,
            )
        }),
{
    let table = table_spec(src);
    let header = table_header_bytes(table);
    let hlen = header.len() as int;
    let tr = tree_spec(table);
    let codes = codes_spec(tr.0, tr.1);
    let payload = payload_bits(codes, src);
    assert forall|i: int| 0 <= i < 256 implies table[i] <= 255 by {
        lemma_scaled_count_le(counts_spec(src), i);
    }
    lemma_assign_codes_content(tr.0, tr.1, Seq::<bool>::empty(), init_codes());
    if next_nonzero(table, 0) == 256 {
        crate::header::lemma_next_nonzero_props(table, 0);
        assert forall|l: int| 0 <= l < 256 implies table[l] == 0 by {}
        assert(tr.1 == 256);
        assert(src.len() == 0) by {
            if src.len() > 0 {
                lemma_occurrences_pos(src, 0);
                crate::model::lemma_occurrences_le(src, src[0]);
                assert(counts_spec(src)[src[0] as int] != 0);
                lemma_scaled_count_le(counts_spec(src), src[0] as int);
                assert(table[src[0] as int] != 0);
            }
        }
        assert(reachable(tr.0, tr.1, 256));
        assert(leaf_path(tr.0, tr.1, 256) =~= Seq::<bool>::empty());
        assert(Seq::<bool>::empty() + leaf_path(tr.0, tr.1, 256) =~= Seq::<bool>::empty());
        assert(codes[256].code_bits == 0);
        assert(symbols_bits(codes, src) == Seq::<bool>::empty());
        assert(code_seq(codes[256].code, 0) =~= Seq::<bool>::empty());
        assert(payload.len() == 0);
        assert(out.len() == hlen);
        assert(encode_runs(table, 256) == seq![0u8]);
        assert(hlen == 1);
    }
    assert(out.subrange(0, hlen) == header);
    lemma_decode_encode(table, init_table(), 0, out, 0, true);
    assert(decode_runs(out, 0, init_table(), true) == Some((table, hlen)));
    let bits = bytes_to_bits(out);
    lemma_bytes_to_bits_len(out);
    assert(out =~= out.subrange(0, hlen) + out.skip(hlen));
    lemma_bytes_to_bits_concat(out.subrange(0, hlen), out.skip(hlen));
    lemma_bytes_to_bits_len(header);
    lemma_bytes_to_bits_len(out.skip(hlen));
    assert forall|k: int|
        0 <= k < payload.len() implies #[trigger] bits[8 * hlen + k] == payload[k] by {
        assert(bits[8 * hlen + k] == bytes_to_bits(out.skip(hlen))[k]);
        assert(bytes_to_bits(out.skip(hlen)).take(payload.len() as int)[k] == bytes_to_bits(
            out.skip(hlen))[k]);
    }
    assert forall|l: int|
        0 <= l <= 256 && reachable(tr.0, tr.1, l) implies code_seq(
        codes[l].code, codes[l].code_bits as int) == leaf_path(tr.0, tr.1, l) by {
        lemma_leaf_path_len(tr.0, tr.1, l);
        let pth = Seq::<bool>::empty() + leaf_path(tr.0, tr.1, l);
        lemma_code_seq_of_bits_val(pth);
        assert(pth =~= leaf_path(tr.0, tr.1, l));
    }
    assert forall|k: int|
        0 <= k < src.len() implies reachable(tr.0, tr.1, (#[trigger] src[k]) as int) by {
        lemma_occurrences_pos(src, k);
        crate::model::lemma_occurrences_le(src, src[k]);
        lemma_scaled_count_le(counts_spec(src), src[k] as int);
        assert(counts_spec(src)[src[k] as int] != 0);
        assert(table[src[k] as int] != 0);
    }
    assert(table[256] != 0);
    assert(reachable(tr.0, tr.1, 256));
    crate::tree::lemma_assign_codes_len(tr.0, tr.1, Seq::<bool>::empty(), init_codes());
    lemma_payload_decodes(tr.0, tr.1, codes, src, bits, 8 * hlen);
}

} // verus!
