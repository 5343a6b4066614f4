//! Compression: builds the coding tree for a buffer, encodes every byte,
//! and assembles the compressed file
//! `[tree length][tree records][symbol count][bit-packed payload]`.

use crate::bits::{be_bytes, be_bytes_exec, pack_bits, spec_pack};
use crate::huffman::{
    copy_vec, create_byte_vec_from, find_code, lemma_records_len, lemma_records_preorder, preorder,
    ser_tree, spec_huffman_tree, HuffmanNode, HuffmanToVecError, NodeModel,
};
use vstd::prelude::*;

verus! {

/// The concatenated codes of the bytes of `b` in `t`, in input order.
/// A byte with no code in `t` contributes nothing; the builder's trees
/// give every byte of `b` a code.
pub open spec fn spec_encode_bits(t: NodeModel, b: Seq<u8>) -> Seq<bool>
    decreases b.len(),
{
    if b.len() == 0 {
        Seq::empty()
    } else {
        (match find_code(t, b[0]) {
            Some(c) => c,
            None => Seq::empty(),
        }) + spec_encode_bits(t, b.drop_first())
    }
}

pub proof fn lemma_encode_push(t: NodeModel, b: Seq<u8>, x: u8)
    ensures
        spec_encode_bits(t, b.push(x)) == spec_encode_bits(t, b) + (match find_code(t, x) {
            Some(c) => c,
            None => Seq::empty(),
        }),
    decreases b.len(),
{
    let cx = match find_code(t, x) {
        Some(c) => c,
        None => Seq::<bool>::empty(),
    };
    if b.len() == 0 {
        assert(b.push(x)[0] == x);
        assert(b.push(x).drop_first() =~= Seq::<u8>::empty());
        assert(spec_encode_bits(t, b.push(x)) == cx + spec_encode_bits(t, Seq::<u8>::empty()));
        assert(cx + Seq::<bool>::empty() =~= cx);
        assert(Seq::<bool>::empty() + cx =~= cx);
    } else {
        let c0 = match find_code(t, b[0]) {
            Some(c) => c,
            None => Seq::<bool>::empty(),
        };
        assert(b.push(x)[0] == b[0]);
        assert(b.push(x).drop_first() =~= b.drop_first().push(x));
        lemma_encode_push(t, b.drop_first(), x);
        assert(c0 + (spec_encode_bits(t, b.drop_first()) + cx) =~= (c0 + spec_encode_bits(
            t,
            b.drop_first(),
        )) + cx);
    }
}

/// Two trees of the same shape whose codes are their paths encode every
/// buffer identically.
pub proof fn lemma_encode_same(t1: NodeModel, t2: NodeModel, b: Seq<u8>)
    requires
        crate::huffman::same_shape(t1, t2),
        crate::huffman::codes_from(t1, Seq::empty()),
        crate::huffman::codes_from(t2, Seq::empty()),
    ensures
        spec_encode_bits(t1, b) == spec_encode_bits(t2, b),
    decreases b.len(),
{
    if b.len() > 0 {
        crate::huffman::lemma_find_code_same_shape(t1, t2, Seq::empty(), b[0]);
        lemma_encode_same(t1, t2, b.drop_first());
    }
}

/// When every byte of `b` has the same code `c`, the encoded stream is
/// `b.len()` repetitions of it.
pub proof fn lemma_encode_uniform_len(t: NodeModel, b: Seq<u8>, c: Seq<bool>)
    requires
        forall|i: int| 0 <= i < b.len() ==> find_code(t, #[trigger] b[i]) == Some(c),
    ensures
        spec_encode_bits(t, b).len() == b.len() * c.len(),
    decreases b.len(),
{
    if b.len() > 0 {
        let tail = b.drop_first();
        assert forall|i: int| 0 <= i < tail.len() implies find_code(t, #[trigger] tail[i])
            == Some(c) by {
            assert(tail[i] == b[i + 1]);
        }
        lemma_encode_uniform_len(t, tail, c);
        assert(find_code(t, b[0]) == Some(c));
        assert(spec_encode_bits(t, b).len() == c.len() + tail.len() * c.len());
        assert(c.len() + tail.len() * c.len() == b.len() * c.len()) by (nonlinear_arith)
            requires
                tail.len() == b.len() - 1,
                b.len() >= 1,
        ;
    }
}

/// The complete compressed buffer for `b`, or `None` when the serialized
/// tree would not fit the one-byte length field.
pub open spec fn spec_compress(b: Seq<u8>) -> Option<Seq<u8>> {
    let t = spec_huffman_tree(b);
    let recs = ser_tree(t);
    if recs.len() <= 255 {
        Some(
            seq![recs.len() as u8] + recs + be_bytes(b.len() as u64, 8) + spec_pack(
                spec_encode_bits(t, b),
            ),
        )
    } else {
        None
    }
}

/// Compresses `input` into one buffer: the serialized tree behind its
/// length byte, the eight-byte symbol count, then the bit-packed payload.
/// Fails exactly when the tree section would exceed 255 bytes.
pub fn compress(input: &Vec<u8>) -> (r: Result<Vec<u8>, HuffmanToVecError>)
    ensures
        (match r {
            Ok(bytes) => spec_compress(input@) == Some(bytes@),
            Err(_) => spec_compress(input@) is None,
        }),
{
    let contents = copy_vec(input);
    let huffman_tree = HuffmanNode::from_buffer(contents);
    let ghost t = spec_huffman_tree(input@);
    let mut encoded: Vec<bool> = Vec::new();
    let mut i: usize = 0;
    while i < input.len()
        invariant
            i <= input@.len(),
            huffman_tree@ == t,
            encoded@ == spec_encode_bits(t, input@.take(i as int)),
        decreases input@.len() - i,
    {
        match huffman_tree.find_encoding(input[i]) {
            Some(code) => {
                let mut c = code;
                encoded.append(&mut c);
            }
            None => {}
        }
        proof {
            assert(input@.take(i + 1) =~= input@.take(i as int).push(input@[i as int]));
            lemma_encode_push(t, input@.take(i as int), input@[i as int]);
            assert(encoded@ =~= spec_encode_bits(t, input@.take(i + 1)));
        }
        i = i + 1;
    }
    proof {
        assert(input@.take(input@.len() as int) =~= input@);
    }
    let preorder_vec = huffman_tree.preorder_nodes();
    proof {
        lemma_records_preorder(t);
        lemma_records_len(preorder(t));
    }
    let tree_bytes = match create_byte_vec_from(preorder_vec) {
        Ok(tb) => tb,
        Err(e) => {
            return Err(e);
        }
    };
    let mut out = tree_bytes;
    let mut count_bytes = be_bytes_exec(input.len() as u64, 8);
    out.append(&mut count_bytes);
    let mut payload = pack_bits(&encoded);
    out.append(&mut payload);
    proof {
        assert(out@ =~= seq![ser_tree(t).len() as u8] + ser_tree(t) + be_bytes(
            input@.len() as u64,
            8,
        ) + spec_pack(spec_encode_bits(t, input@)));
    }
    Ok(out)
}

} // verus!
