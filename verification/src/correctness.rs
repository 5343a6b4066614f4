//! The codec's central theorems: a compressed buffer decodes back to its
//! input, assigned codes are prefix-free, frequencies are conserved, the
//! tree survives serialization, and compression is deterministic.

use crate::bits::{
    be_bytes, be_val, lemma_be_roundtrip, lemma_pow256_values, lemma_unpack_pack, packed_len,
    spec_pack, spec_unpack,
};
use crate::compression::{
    lemma_encode_same, lemma_encode_uniform_len, spec_compress, spec_encode_bits,
};
use crate::decompression::{
    lemma_decode_encode, lemma_find_prefix, lemma_parse_builder_tree, lemma_strip_codes_from,
    lemma_strip_same_shape, spec_decode, spec_decompress, spec_parse_tree, strip_to_parsed,
    FormatError,
};
use crate::huffman::{
    codes_from, count_of, counts_of, find_code, leaf_freq_sum, leaf_model, leaves_model,
    lemma_assign_leaf_freq, lemma_builder_tree_props, lemma_contains_find, lemma_count_le_len,
    lemma_count_others_zero, lemma_count_positive, lemma_find_code_same_shape, lemma_leaves_total,
    lemma_merge_leaf_freq, lemma_merge_list_freq, lemma_ordered_single, lemma_same_shape_builder,
    lemma_same_shape_contains, lemma_same_shape_values, lemma_tree_contains, merge_list,
    ordered_pairs, ser_tree, spec_huffman_tree, values_at_leaves, wrap_root, NodeModel,
};
use vstd::prelude::*;

verus! {

/// Round trip: whatever the compressor produces, the decompressor turns
/// back into exactly the original bytes.
pub proof fn lemma_round_trip(b: Seq<u8>)
    requires
        b.len() <= usize::MAX,
    ensures
        (match spec_compress(b) {
            Some(f) => spec_decompress(f) == Ok::<Seq<u8>, FormatError>(b),
            None => true,
        }),
{
    let t = spec_huffman_tree(b);
    let recs = ser_tree(t);
    if recs.len() <= 255 {
        let cnt = be_bytes(b.len() as u64, 8);
        let ebits = spec_encode_bits(t, b);
        let payload = spec_pack(ebits);
        let f = seq![recs.len() as u8] + recs + cnt + payload;
        assert(spec_compress(b) == Some(f));
        let n = f[0] as int;
        assert(n == recs.len());
        crate::bits::lemma_be_bytes_len(b.len() as u64, 8);
        assert(f.len() == 1 + recs.len() + 8 + payload.len());
        assert(f.subrange(1, 1 + n) =~= recs);
        assert(f.subrange(1 + n, 1 + n + 8) =~= cnt);
        assert(f.skip(1 + n + 8) =~= payload);
        // the symbol count reads back as the input length
        lemma_pow256_values();
        lemma_be_roundtrip(b.len() as u64, 8);
        assert(be_val(cnt) == b.len());
        // the tree section parses back to the stripped tree
        lemma_builder_tree_props(b);
        let t0 = wrap_root(merge_list(leaves_model(ordered_pairs(counts_of(b)))));
        lemma_same_shape_builder(t0, t);
        lemma_parse_builder_tree(t);
        let tp = strip_to_parsed(t, Seq::empty());
        assert(spec_parse_tree(recs) == Ok::<NodeModel, FormatError>(tp));
        // the payload unpacks to the encoded bits plus padding
        lemma_unpack_pack(ebits);
        let allbits = spec_unpack(payload);
        let pad = allbits.skip(ebits.len() as int);
        assert(allbits =~= ebits + pad);
        // the stripped tree decodes the encoded bits back to the input
        lemma_strip_codes_from(t, Seq::empty());
        lemma_strip_same_shape(t, Seq::empty());
        lemma_same_shape_values(t, tp);
        assert forall|i: int| 0 <= i < b.len() implies find_code(tp, #[trigger] b[i]) is Some by {
            lemma_count_positive(b, i);
            lemma_tree_contains(b, b[i]);
            lemma_same_shape_contains(t, tp, b[i]);
            lemma_contains_find(tp, b[i]);
        }
        lemma_encode_same(t, tp, b);
        lemma_decode_encode(tp, b, pad);
        assert(spec_decode(tp, allbits, b.len()) == Ok::<Seq<u8>, FormatError>(b));
        assert(spec_decompress(f) == Ok::<Seq<u8>, FormatError>(b));
    }
}

/// Prefix-free codes in a tree whose codes are the nodes' paths: two
/// distinct values' codes are never prefixes of one another.
proof fn lemma_prefix_free_tree(t: NodeModel, p: Seq<bool>, x: u8, y: u8)
    requires
        codes_from(t, p),
        values_at_leaves(t),
        x != y,
        find_code(t, x) is Some,
        find_code(t, y) is Some,
    ensures
        !find_code(t, x).unwrap().is_prefix_of(find_code(t, y).unwrap()),
    decreases t,
{
    let cx = find_code(t, x).unwrap();
    let cy = find_code(t, y).unwrap();
    if t.value is Some {
        // a valued node is childless, so at most its own value is found
        if t.value == Some(x) {
            assert(find_code(t, y) is None);
        } else {
            assert(find_code(t, x) is None);
        }
    } else {
        let fx_left = match t.left {
            Some(l) => find_code(*l, x),
            None => None::<Seq<bool>>,
        };
        let fy_left = match t.left {
            Some(l) => find_code(*l, y),
            None => None::<Seq<bool>>,
        };
        if fx_left is Some && fy_left is Some {
            lemma_prefix_free_tree(*t.left.unwrap(), p.push(false), x, y);
        } else if fx_left is None && fy_left is None {
            lemma_prefix_free_tree(*t.right.unwrap(), p.push(true), x, y);
        } else if fx_left is Some {
            // x sits under the left child, y under the right
            lemma_find_prefix(*t.left.unwrap(), p.push(false), x);
            lemma_find_prefix(*t.right.unwrap(), p.push(true), y);
            assert(cx.take(p.len() as int + 1) =~= p.push(false));
            assert(cy.take(p.len() as int + 1) =~= p.push(true));
            assert(cx.take(p.len() as int + 1)[p.len() as int] == cx[p.len() as int]);
            assert(cy.take(p.len() as int + 1)[p.len() as int] == cy[p.len() as int]);
            assert(cx[p.len() as int] == false);
            assert(cy[p.len() as int] == true);
            if cx.is_prefix_of(cy) {
                assert(cy.take(cx.len() as int)[p.len() as int] == cy[p.len() as int]);
                assert(false);
            }
        } else {
            lemma_find_prefix(*t.right.unwrap(), p.push(true), x);
            lemma_find_prefix(*t.left.unwrap(), p.push(false), y);
            assert(cx.take(p.len() as int + 1) =~= p.push(true));
            assert(cy.take(p.len() as int + 1) =~= p.push(false));
            assert(cx.take(p.len() as int + 1)[p.len() as int] == cx[p.len() as int]);
            assert(cy.take(p.len() as int + 1)[p.len() as int] == cy[p.len() as int]);
            assert(cx[p.len() as int] == true);
            assert(cy[p.len() as int] == false);
            if cx.is_prefix_of(cy) {
                assert(cy.take(cx.len() as int)[p.len() as int] == cy[p.len() as int]);
                assert(false);
            }
        }
    }
}

/// Prefix-free codes: in any tree the builder produces, the codes of two
/// distinct symbols are never prefixes of one another, in either
/// direction.
pub proof fn lemma_prefix_free(b: Seq<u8>, x: u8, y: u8)
    requires
        x != y,
        find_code(spec_huffman_tree(b), x) is Some,
        find_code(spec_huffman_tree(b), y) is Some,
    ensures
        !find_code(spec_huffman_tree(b), x).unwrap().is_prefix_of(
            find_code(spec_huffman_tree(b), y).unwrap(),
        ),
        !find_code(spec_huffman_tree(b), y).unwrap().is_prefix_of(
            find_code(spec_huffman_tree(b), x).unwrap(),
        ),
{
    lemma_builder_tree_props(b);
    lemma_prefix_free_tree(spec_huffman_tree(b), Seq::empty(), x, y);
    lemma_prefix_free_tree(spec_huffman_tree(b), Seq::empty(), y, x);
}

/// Frequency conservation: the root frequency of a built tree equals the
/// sum of all leaf frequencies, and both equal the input length.
pub proof fn lemma_frequency_conservation(b: Seq<u8>)
    requires
        b.len() <= usize::MAX,
    ensures
        spec_huffman_tree(b).frequency == b.len(),
        leaf_freq_sum(spec_huffman_tree(b)) == b.len(),
{
    let pairs = ordered_pairs(counts_of(b));
    let leaves = leaves_model(pairs);
    let merged = merge_list(leaves);
    let t0 = wrap_root(merged);
    let t = spec_huffman_tree(b);
    lemma_merge_list_freq(leaves);
    lemma_leaves_total(b);
    assert(merged.frequency == b.len());
    if leaves.len() >= 1 {
        assert forall|i: int| 0 <= i < leaves.len() implies leaf_freq_sum(#[trigger] leaves[i])
            == leaves[i].frequency by {
            assert(leaves[i] == leaf_model(pairs[i]));
        }
        lemma_merge_leaf_freq(leaves);
    }
    assert(leaf_freq_sum(t0) == t0.frequency);
    assert(t0.frequency == merged.frequency);
    lemma_builder_tree_props(b);
    lemma_assign_leaf_freq(t0, Seq::empty());
}

/// Tree serialization round trip: deserializing a built tree's
/// serialization yields a tree of the same shape and values whose
/// per-symbol codes are identical.
pub proof fn lemma_tree_serialization_round_trip(b: Seq<u8>)
    ensures
        ({
            let t = spec_huffman_tree(b);
            let parsed = spec_parse_tree(ser_tree(t));
            &&& parsed == Ok::<NodeModel, FormatError>(strip_to_parsed(t, Seq::empty()))
            &&& crate::huffman::same_shape(t, parsed.unwrap())
            &&& forall|x: u8| find_code(t, x) == find_code(parsed.unwrap(), x)
        }),
{
    let t = spec_huffman_tree(b);
    lemma_builder_tree_props(b);
    let t0 = wrap_root(merge_list(leaves_model(ordered_pairs(counts_of(b)))));
    lemma_same_shape_builder(t0, t);
    lemma_parse_builder_tree(t);
    let tp = strip_to_parsed(t, Seq::empty());
    lemma_strip_same_shape(t, Seq::empty());
    lemma_strip_codes_from(t, Seq::empty());
    assert forall|x: u8| find_code(t, x) == find_code(tp, x) by {
        lemma_find_code_same_shape(t, tp, Seq::empty(), x);
    }
}

/// Determinism: the compressed form is a function of the input bytes
/// alone, so two compressions of equal buffers are byte-for-byte equal.
/// The compressor's contract ties its output to `spec_compress`, which
/// carries this equality to any two calls on identical input.
pub proof fn lemma_compress_deterministic(b1: Seq<u8>, b2: Seq<u8>)
    requires
        b1 == b2,
    ensures
        spec_compress(b1) == spec_compress(b2),
{
}

/// The single-symbol case: a nonempty buffer of one repeated byte value
/// compresses successfully, with a payload of one bit per input byte —
/// never an empty payload — and decodes back to the whole buffer.
pub proof fn lemma_single_symbol(b: Seq<u8>)
    requires
        1 <= b.len() <= usize::MAX,
        forall|i: int| 0 <= i < b.len() ==> #[trigger] b[i] == b[0],
    ensures
        (match spec_compress(b) {
            Some(f) => f.len() == 15 + packed_len(b.len()) && packed_len(b.len()) >= 1
                && spec_decompress(f) == Ok::<Seq<u8>, FormatError>(b),
            None => false,
        }),
{
    let counts = counts_of(b);
    let v = b[0];
    let c = count_of(b, v) as usize;
    lemma_count_positive(b, 0);
    lemma_count_le_len(b, v);
    assert forall|w: int| 0 <= w < 256 && w != v as int implies counts[w] == 0 by {
        lemma_count_others_zero(b, w as u8);
    }
    lemma_ordered_single(counts, 256, v, c);
    let pairs = ordered_pairs(counts);
    assert(pairs == seq![(v, c)]);
    let leaves = leaves_model(pairs);
    let leaf = leaf_model((v, c));
    assert(leaves =~= seq![leaf]);
    let merged = merge_list(leaves);
    assert(merged == leaf);
    let t0 = wrap_root(merged);
    let t = spec_huffman_tree(b);
    let one_bit = Seq::<bool>::empty().push(false);
    // the lone leaf's code is the single bit 0
    assert(t == crate::huffman::assign_model(t0, Seq::empty()));
    let leaf_assigned = crate::huffman::assign_model(leaf, one_bit);
    assert(t.left == Some(Box::new(leaf_assigned)));
    assert(t.value is None);
    assert(find_code(t, v) == Some(one_bit)) by {
        assert(leaf_assigned.value == Some(v));
        assert(leaf_assigned.code == one_bit);
        assert(find_code(leaf_assigned, v) == Some(one_bit));
    }
    // two records: six tree bytes, well under the bound
    crate::decompression::lemma_ser_records(t);
    assert(crate::decompression::rec_pairs(leaf_assigned) =~= seq![(true, v)]);
    assert(crate::decompression::rec_pairs(t) =~= seq![(false, 0u8), (true, v)]);
    assert(ser_tree(t).len() == 6);
    // one bit per input byte
    assert forall|i: int| 0 <= i < b.len() implies find_code(t, #[trigger] b[i]) == Some(
        one_bit,
    ) by {
        assert(b[i] == v);
    }
    lemma_encode_uniform_len(t, b, one_bit);
    assert(one_bit.len() == 1);
    assert(spec_encode_bits(t, b).len() == b.len() * 1);
    assert(b.len() * 1 == b.len()) by (nonlinear_arith);
    assert(spec_encode_bits(t, b).len() == b.len());
    assert(spec_pack(spec_encode_bits(t, b)).len() == packed_len(b.len()));
    assert(packed_len(b.len()) >= 1);
    crate::bits::lemma_be_bytes_len(b.len() as u64, 8);
    match spec_compress(b) {
        Some(f) => {
            assert(f.len() == 1 + 6 + 8 + packed_len(b.len()));
        }
        None => {
            assert(false);
        }
    }
    lemma_round_trip(b);
}

} // verus!
