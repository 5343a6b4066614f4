//! Decompression: splits a compressed buffer into tree section, symbol
//! count and payload, rebuilds the coding tree from its preorder records,
//! and walks it bit by bit to recover the original bytes.

use crate::bits::{be_val, be_val_exec, spec_unpack, unpack_bits};
use crate::compression::spec_encode_bits;
use crate::huffman::{
    builder_shape, codes_from, copy_vec, find_code, full_tree, record_of, same_shape, ser_tree,
    values_at_leaves, HuffmanNode, NodeModel,
};
use vstd::prelude::*;
use vstd::slice::slice_subrange;

verus! {

/// Why a compressed buffer was rejected.
#[derive(Debug, PartialEq, Eq, Structural, Clone, Copy)]
pub enum FormatError {
    /// The buffer ends before the tree section, the symbol count, or the
    /// encoded symbols are complete.
    Truncated,
    /// The tree section is empty, not a whole number of records, or its
    /// records do not describe exactly one tree.
    InvalidTreeSection,
    /// The payload's bits walk into a child that the tree does not have.
    InvalidPayload,
}

// ---------------------------------------------------------------------------
// Parsing the tree section
// ---------------------------------------------------------------------------

/// The provisional records of the tree section: one (is-leaf, value) pair
/// per three bytes.  The value byte of an internal record is unused and
/// reads as zero.
pub open spec fn spec_records(bytes: Seq<u8>) -> Seq<(bool, u8)> {
    Seq::new(
        bytes.len() / 3,
        |i: int|
            (
                bytes[3 * i] == 0xFF,
                if bytes[3 * i] == 0xFF {
                    bytes[3 * i + 1]
                } else {
                    0u8
                },
            ),
    )
}

/// A rebuilt leaf: the stored value, the accumulated path as its code, and
/// no frequency (the records do not store counts).
pub open spec fn parsed_leaf(v: u8, p: Seq<bool>) -> NodeModel {
    NodeModel { value: Some(v), code: p, frequency: 0, left: None, right: None }
}

/// A rebuilt internal node over the given children.
pub open spec fn parsed_internal(
    p: Seq<bool>,
    left: Option<Box<NodeModel>>,
    right: Option<Box<NodeModel>>,
) -> NodeModel {
    NodeModel { value: None, code: p, frequency: 0, left, right }
}

/// Rebuilds one subtree from `recs` starting at `i` with accumulated path
/// `p`: a leaf record is the subtree; an internal record consumes its left
/// subtree, then its right subtree from what remains.  A child is absent
/// only when the records are exhausted.  Returns the subtree and the index
/// just past it.  `fuel` only bounds the recursion; any fuel of at least
/// `recs.len() - i` gives the same answer.
pub open spec fn spec_build(recs: Seq<(bool, u8)>, i: int, p: Seq<bool>, fuel: nat) -> (
    NodeModel,
    int,
)
    decreases fuel,
{
    if fuel == 0 || i < 0 || i >= recs.len() {
        (parsed_internal(p, None, None), i)
    } else if recs[i].0 {
        (parsed_leaf(recs[i].1, p), i + 1)
    } else if i + 1 >= recs.len() {
        (parsed_internal(p, None, None), i + 1)
    } else {
        let lr = spec_build(recs, i + 1, p.push(false), (fuel - 1) as nat);
        if lr.1 >= recs.len() {
            (parsed_internal(p, Some(Box::new(lr.0)), None), lr.1)
        } else {
            let rr = spec_build(recs, lr.1, p.push(true), (fuel - 1) as nat);
            (parsed_internal(p, Some(Box::new(lr.0)), Some(Box::new(rr.0))), rr.1)
        }
    }
}

/// Rebuilding consumes at least one and at most all remaining records.
pub proof fn lemma_build_progress(recs: Seq<(bool, u8)>, i: int, p: Seq<bool>, fuel: nat)
    requires
        0 <= i < recs.len(),
        fuel >= recs.len() - i,
    ensures
        i < spec_build(recs, i, p, fuel).1 <= recs.len(),
    decreases fuel,
{
    if recs[i].0 {
    } else if i + 1 >= recs.len() {
    } else {
        lemma_build_progress(recs, i + 1, p.push(false), (fuel - 1) as nat);
        let lr = spec_build(recs, i + 1, p.push(false), (fuel - 1) as nat);
        if lr.1 < recs.len() {
            lemma_build_progress(recs, lr.1, p.push(true), (fuel - 1) as nat);
        }
    }
}

/// Any fuel of at least `recs.len() - i` rebuilds the same subtree.
pub proof fn lemma_build_fuel(recs: Seq<(bool, u8)>, i: int, p: Seq<bool>, f1: nat, f2: nat)
    requires
        0 <= i < recs.len(),
        f1 >= recs.len() - i,
        f2 >= recs.len() - i,
    ensures
        spec_build(recs, i, p, f1) == spec_build(recs, i, p, f2),
    decreases f1,
{
    if recs[i].0 {
    } else if i + 1 >= recs.len() {
    } else {
        lemma_build_fuel(recs, i + 1, p.push(false), (f1 - 1) as nat, (f2 - 1) as nat);
        lemma_build_progress(recs, i + 1, p.push(false), (f1 - 1) as nat);
        let lr = spec_build(recs, i + 1, p.push(false), (f1 - 1) as nat);
        if lr.1 < recs.len() {
            lemma_build_fuel(recs, lr.1, p.push(true), (f1 - 1) as nat, (f2 - 1) as nat);
        }
    }
}

/// The subtree rebuilt from `recs` at `i`, with enough fuel.
pub open spec fn build_at(recs: Seq<(bool, u8)>, i: int, p: Seq<bool>) -> (NodeModel, int) {
    spec_build(recs, i, p, (recs.len() - i) as nat)
}

/// The tree encoded by a whole tree section: its records must be nonempty,
/// a whole number of three-byte records, and describe exactly one tree.
pub open spec fn spec_parse_tree(bytes: Seq<u8>) -> Result<NodeModel, FormatError> {
    if bytes.len() == 0 || bytes.len() % 3 != 0 {
        Err(FormatError::InvalidTreeSection)
    } else {
        let recs = spec_records(bytes);
        let br = build_at(recs, 0, Seq::empty());
        if br.1 == recs.len() {
            Ok(br.0)
        } else {
            Err(FormatError::InvalidTreeSection)
        }
    }
}

// ---------------------------------------------------------------------------
// Walking the tree over the payload bits
// ---------------------------------------------------------------------------

/// Follows `bits` down from `t` to the first node that carries a value:
/// `false` descends left, `true` descends right.  Returns that value and
/// the bits left over.
pub open spec fn spec_walk(t: NodeModel, bits: Seq<bool>) -> Result<(u8, Seq<bool>), FormatError>
    decreases bits.len(),
{
    match t.value {
        Some(v) => Ok((v, bits)),
        None => {
            if bits.len() == 0 {
                Err(FormatError::Truncated)
            } else {
                let child = if !bits[0] {
                    t.left
                } else {
                    t.right
                };
                match child {
                    Some(c) => spec_walk(*c, bits.drop_first()),
                    None => Err(FormatError::InvalidPayload),
                }
            }
        }
    }
}

/// Decodes exactly `n` symbols from `bits`, walking the tree from its root
/// for each one; bits left over after the last symbol are padding and are
/// ignored.
pub open spec fn spec_decode(t: NodeModel, bits: Seq<bool>, n: nat) -> Result<Seq<u8>, FormatError>
    decreases n,
{
    if n == 0 {
        Ok(Seq::empty())
    } else {
        match spec_walk(t, bits) {
            Ok((v, rest)) => match spec_decode(t, rest, (n - 1) as nat) {
                Ok(s) => Ok(seq![v] + s),
                Err(e) => Err(e),
            },
            Err(e) => Err(e),
        }
    }
}

/// What decompressing a whole buffer yields: the layout is one length byte
/// `n`, then `n` bytes of tree records, then the eight-byte big-endian
/// symbol count, then the bit-packed payload.
pub open spec fn spec_decompress(buffer: Seq<u8>) -> Result<Seq<u8>, FormatError> {
    if buffer.len() < 1 {
        Err(FormatError::Truncated)
    } else {
        let n = buffer[0] as int;
        if buffer.len() < 1 + n + 8 {
            Err(FormatError::Truncated)
        } else {
            match spec_parse_tree(buffer.subrange(1, 1 + n)) {
                Ok(t) => spec_decode(
                    t,
                    spec_unpack(buffer.skip(1 + n + 8)),
                    be_val(buffer.subrange(1 + n, 1 + n + 8)),
                ),
                Err(e) => Err(e),
            }
        }
    }
}

// ---------------------------------------------------------------------------
// Rebuilding a serialized tree gives the serialized tree back
// ---------------------------------------------------------------------------

/// The provisional (is-leaf, value) pairs of a tree's preorder records.
pub open spec fn rec_pairs(t: NodeModel) -> Seq<(bool, u8)>
    decreases t,
{
    seq![
        (
            t.value is Some,
            match t.value {
                Some(v) => v,
                None => 0u8,
            },
        ),
    ] + (match t.left {
        Some(l) => rec_pairs(*l),
        None => Seq::empty(),
    }) + (match t.right {
        Some(r) => rec_pairs(*r),
        None => Seq::empty(),
    })
}

/// What rebuilding a serialized tree yields: the same values and
/// structure, codes re-derived from the position, frequencies zeroed
/// (the records do not store counts).
pub open spec fn strip_to_parsed(t: NodeModel, p: Seq<bool>) -> NodeModel
    decreases t,
{
    NodeModel {
        value: t.value,
        code: p,
        frequency: 0,
        left: match t.left {
            Some(l) => Some(Box::new(strip_to_parsed(*l, p.push(false)))),
            None => None,
        },
        right: match t.right {
            Some(r) => Some(Box::new(strip_to_parsed(*r, p.push(true)))),
            None => None,
        },
    }
}

pub proof fn lemma_strip_codes_from(t: NodeModel, p: Seq<bool>)
    ensures
        codes_from(strip_to_parsed(t, p), p),
    decreases t,
{
    match t.left {
        Some(l) => lemma_strip_codes_from(*l, p.push(false)),
        None => {}
    }
    match t.right {
        Some(r) => lemma_strip_codes_from(*r, p.push(true)),
        None => {}
    }
}

pub proof fn lemma_strip_same_shape(t: NodeModel, p: Seq<bool>)
    ensures
        same_shape(t, strip_to_parsed(t, p)),
    decreases t,
{
    match t.left {
        Some(l) => lemma_strip_same_shape(*l, p.push(false)),
        None => {}
    }
    match t.right {
        Some(r) => lemma_strip_same_shape(*r, p.push(true)),
        None => {}
    }
}

/// Splitting a byte sequence on a record boundary splits its records.
pub proof fn lemma_spec_records_concat(a: Seq<u8>, b: Seq<u8>)
    requires
        a.len() % 3 == 0,
    ensures
        spec_records(a + b) == spec_records(a) + spec_records(b),
{
    let m = a.len() / 3;
    assert((a.len() + b.len()) / 3 == m + b.len() / 3);
    assert forall|k: int| 0 <= k < spec_records(a + b).len() implies spec_records(a + b)[k]
        == (spec_records(a) + spec_records(b))[k] by {
        if k < m {
            assert((a + b)[3 * k] == a[3 * k]);
            assert((a + b)[3 * k + 1] == a[3 * k + 1]);
        } else {
            assert(3 * k >= a.len());
            assert((a + b)[3 * k] == b[3 * (k - m)]);
            assert((a + b)[3 * k + 1] == b[3 * (k - m) + 1]);
        }
    }
    assert(spec_records(a + b) =~= spec_records(a) + spec_records(b));
}

/// The records of a serialized tree are its provisional pairs.
pub proof fn lemma_ser_records(t: NodeModel)
    ensures
        ser_tree(t).len() == 3 * rec_pairs(t).len(),
        ser_tree(t).len() % 3 == 0,
        rec_pairs(t).len() >= 1,
        spec_records(ser_tree(t)) == rec_pairs(t),
    decreases t,
{
    let r0 = record_of(t);
    let sl = match t.left {
        Some(l) => ser_tree(*l),
        None => Seq::<u8>::empty(),
    };
    let sr = match t.right {
        Some(r) => ser_tree(*r),
        None => Seq::<u8>::empty(),
    };
    let p0 = seq![
        (
            t.value is Some,
            match t.value {
                Some(v) => v,
                None => 0u8,
            },
        ),
    ];
    let pl = match t.left {
        Some(l) => rec_pairs(*l),
        None => Seq::<(bool, u8)>::empty(),
    };
    let pr = match t.right {
        Some(r) => rec_pairs(*r),
        None => Seq::<(bool, u8)>::empty(),
    };
    match t.left {
        Some(l) => lemma_ser_records(*l),
        None => {}
    }
    match t.right {
        Some(r) => lemma_ser_records(*r),
        None => {}
    }
    assert(r0.len() == 3);
    lemma_spec_records_concat(r0, sl);
    lemma_spec_records_concat(r0 + sl, sr);
    assert(spec_records(r0) =~= p0);
    assert(spec_records(sl) == pl) by {
        match t.left {
            Some(_) => {}
            None => {
                assert(spec_records(sl) =~= pl);
            }
        }
    }
    assert(spec_records(sr) == pr) by {
        match t.right {
            Some(_) => {}
            None => {
                assert(spec_records(sr) =~= pr);
            }
        }
    }
    assert(ser_tree(t) == (r0 + sl) + sr);
    assert(rec_pairs(t) == (p0 + pl) + pr);
}

/// Rebuilding the records of a full serialized subtree returns that
/// subtree, stripped to values, structure and re-derived codes.
pub proof fn lemma_build_ser(t: NodeModel, recs: Seq<(bool, u8)>, i: int, p: Seq<bool>)
    requires
        full_tree(t),
        0 <= i,
        i + rec_pairs(t).len() <= recs.len(),
        recs.subrange(i, i + rec_pairs(t).len() as int) == rec_pairs(t),
    ensures
        spec_build(recs, i, p, (recs.len() - i) as nat) == (
            strip_to_parsed(t, p),
            i + rec_pairs(t).len(),
        ),
    decreases t,
{
    let size = rec_pairs(t).len() as int;
    assert(recs[i] == rec_pairs(t)[0]);
    match t.value {
        Some(v) => {
            assert(rec_pairs(t) =~= seq![(true, v)]);
            assert(recs[i].0);
            assert(parsed_leaf(v, p) =~= strip_to_parsed(t, p));
        }
        None => {
            let l = *t.left.unwrap();
            let r = *t.right.unwrap();
            let pl = rec_pairs(l);
            let pr = rec_pairs(r);
            lemma_rec_pairs_pos(l);
            lemma_rec_pairs_pos(r);
            assert(rec_pairs(t) == (seq![(false, 0u8)] + pl) + pr);
            assert(size == 1 + pl.len() + pr.len());
            assert(!recs[i].0);
            assert(i + 1 < recs.len());
            assert(recs.subrange(i + 1, i + 1 + pl.len() as int) =~= pl) by {
                assert forall|k: int| 0 <= k < pl.len() implies recs[i + 1 + k] == pl[k] by {
                    assert(recs[i + 1 + k] == rec_pairs(t)[1 + k]);
                    assert(rec_pairs(t)[1 + k] == pl[k]);
                }
            }
            lemma_build_ser(l, recs, i + 1, p.push(false));
            let j = i + 1 + pl.len() as int;
            assert(spec_build(recs, i + 1, p.push(false), (recs.len() - (i + 1)) as nat) == (
                strip_to_parsed(l, p.push(false)),
                j,
            ));
            assert(j < recs.len());
            assert(recs.subrange(j, j + pr.len() as int) =~= pr) by {
                assert forall|k: int| 0 <= k < pr.len() implies recs[j + k] == pr[k] by {
                    assert(recs[j + k] == rec_pairs(t)[1 + pl.len() + k]);
                    assert(rec_pairs(t)[1 + pl.len() + k] == pr[k]);
                }
            }
            lemma_build_ser(r, recs, j, p.push(true));
            lemma_build_fuel(
                recs,
                j,
                p.push(true),
                (recs.len() - j) as nat,
                (recs.len() - i - 1) as nat,
            );
            assert(strip_to_parsed(t, p) =~= parsed_internal(
                p,
                Some(Box::new(strip_to_parsed(l, p.push(false)))),
                Some(Box::new(strip_to_parsed(r, p.push(true)))),
            ));
        }
    }
}

pub proof fn lemma_rec_pairs_pos(t: NodeModel)
    ensures
        rec_pairs(t).len() >= 1,
{
}

/// Parsing the serialization of any tree the builder produces returns
/// that tree, stripped to values, structure and re-derived codes.
pub proof fn lemma_parse_builder_tree(t: NodeModel)
    requires
        builder_shape(t),
    ensures
        spec_parse_tree(ser_tree(t)) == Ok::<NodeModel, FormatError>(
            strip_to_parsed(t, Seq::empty()),
        ),
{
    lemma_ser_records(t);
    let bytes = ser_tree(t);
    let recs = spec_records(bytes);
    if t.value is None && full_tree(t) {
        assert(recs.subrange(0, rec_pairs(t).len() as int) =~= rec_pairs(t));
        lemma_build_ser(t, recs, 0, Seq::empty());
    } else {
        match t.left {
            None => {
                assert(rec_pairs(t) =~= seq![(false, 0u8)]);
                assert(recs.len() == 1);
                assert(!recs[0].0);
                assert(spec_build(recs, 0, Seq::empty(), 1) == (
                    parsed_internal(Seq::empty(), None, None),
                    1int,
                ));
                assert(parsed_internal(Seq::empty(), None, None) =~= strip_to_parsed(
                    t,
                    Seq::empty(),
                ));
            }
            Some(l) => {
                let v = l.value.unwrap();
                assert(rec_pairs(*l) =~= seq![(true, v)]);
                assert(rec_pairs(t) =~= seq![(false, 0u8), (true, v)]);
                assert(recs.len() == 2);
                assert(!recs[0].0);
                assert(recs[1].0);
                let lr = spec_build(recs, 1, Seq::empty().push(false), 1);
                assert(lr == (parsed_leaf(v, Seq::empty().push(false)), 2int));
                assert(spec_build(recs, 0, Seq::empty(), 2) == (
                    parsed_internal(
                        Seq::empty(),
                        Some(Box::new(parsed_leaf(v, Seq::empty().push(false)))),
                        None,
                    ),
                    2int,
                ));
                assert(parsed_leaf(v, Seq::empty().push(false)) =~= strip_to_parsed(
                    *l,
                    Seq::empty().push(false),
                ));
                assert(parsed_internal(
                    Seq::empty(),
                    Some(Box::new(strip_to_parsed(*l, Seq::empty().push(false)))),
                    None,
                ) =~= strip_to_parsed(t, Seq::empty()));
            }
        }
    }
}

// ---------------------------------------------------------------------------
// Decoding inverts encoding
// ---------------------------------------------------------------------------

/// In a tree whose codes are the nodes' paths, every found code has its
/// accumulated path as a prefix.
pub proof fn lemma_find_prefix(t: NodeModel, p: Seq<bool>, x: u8)
    requires
        codes_from(t, p),
        find_code(t, x) is Some,
    ensures
        find_code(t, x).unwrap().len() >= p.len(),
        p.is_prefix_of(find_code(t, x).unwrap()),
    decreases t,
{
    let c = find_code(t, x).unwrap();
    if t.value == Some(x) {
        assert(c =~= c.take(p.len() as int) + c.skip(p.len() as int));
        assert(p.is_prefix_of(p)) by {
            assert(p.take(p.len() as int) =~= p);
        }
    } else {
        let left_found = match t.left {
            Some(l) => find_code(*l, x),
            None => None::<Seq<bool>>,
        };
        if left_found is Some {
            let l = *t.left.unwrap();
            lemma_find_prefix(l, p.push(false), x);
            assert(p.push(false).take(p.len() as int + 1) =~= p.push(false));
            assert(p.is_prefix_of(c)) by {
                assert(c.take(p.len() as int + 1) =~= p.push(false));
                assert(c.take(p.len() as int) =~= p);
            }
        } else {
            let r = *t.right.unwrap();
            lemma_find_prefix(r, p.push(true), x);
            assert(p.is_prefix_of(c)) by {
                assert(c.take(p.len() as int + 1) =~= p.push(true));
                assert(c.take(p.len() as int) =~= p);
            }
        }
    }
}

/// Walking the bits of a found code from the tree's root reaches the
/// value it was found for, leaving exactly the trailing bits.
pub proof fn lemma_walk_code(t: NodeModel, p: Seq<bool>, x: u8, rest: Seq<bool>)
    requires
        codes_from(t, p),
        values_at_leaves(t),
        find_code(t, x) is Some,
    ensures
        ({
            let c = find_code(t, x).unwrap();
            c.len() >= p.len() && spec_walk(t, c.skip(p.len() as int) + rest) == Ok::<
                (u8, Seq<bool>),
                FormatError,
            >((x, rest))
        }),
    decreases t,
{
    let c = find_code(t, x).unwrap();
    if t.value == Some(x) {
        assert(c == p);
        assert(c.skip(p.len() as int) + rest =~= rest);
    } else if t.value is Some {
        assert(find_code(t, x) is None);
    } else {
        let left_found = match t.left {
            Some(l) => find_code(*l, x),
            None => None::<Seq<bool>>,
        };
        if left_found is Some {
            let l = *t.left.unwrap();
            lemma_find_prefix(l, p.push(false), x);
            lemma_walk_code(l, p.push(false), x, rest);
            let bits = c.skip(p.len() as int) + rest;
            assert(c.take(p.len() as int + 1) =~= p.push(false));
            assert(bits[0] == c[p.len() as int]);
            assert(c.take(p.len() as int + 1)[p.len() as int] == c[p.len() as int]);
            assert(p.push(false)[p.len() as int] == false);
            assert(c[p.len() as int] == false);
            assert(bits.drop_first() =~= c.skip(p.len() as int + 1) + rest);
        } else {
            let r = *t.right.unwrap();
            lemma_find_prefix(r, p.push(true), x);
            lemma_walk_code(r, p.push(true), x, rest);
            let bits = c.skip(p.len() as int) + rest;
            assert(c.take(p.len() as int + 1) =~= p.push(true));
            assert(bits[0] == c[p.len() as int]);
            assert(c.take(p.len() as int + 1)[p.len() as int] == c[p.len() as int]);
            assert(p.push(true)[p.len() as int] == true);
            assert(c[p.len() as int] == true);
            assert(bits.drop_first() =~= c.skip(p.len() as int + 1) + rest);
        }
    }
}

/// Decoding the concatenated codes of `b`, with anything after them,
/// returns exactly `b`.
pub proof fn lemma_decode_encode(t: NodeModel, b: Seq<u8>, pad: Seq<bool>)
    requires
        codes_from(t, Seq::empty()),
        values_at_leaves(t),
        forall|i: int| 0 <= i < b.len() ==> find_code(t, #[trigger] b[i]) is Some,
    ensures
        spec_decode(t, spec_encode_bits(t, b) + pad, b.len()) == Ok::<
            Seq<u8>,
            FormatError,
        >(b),
    decreases b.len(),
{
    if b.len() == 0 {
        assert(b =~= Seq::<u8>::empty());
    } else {
        assert(find_code(t, b[0]) is Some);
        let c = find_code(t, b[0]).unwrap();
        let tail = b.drop_first();
        let rest = spec_encode_bits(t, tail) + pad;
        lemma_walk_code(t, Seq::empty(), b[0], rest);
        assert(c.skip(0) =~= c);
        assert(spec_encode_bits(t, b) + pad =~= c + rest);
        assert(spec_walk(t, spec_encode_bits(t, b) + pad) == Ok::<
            (u8, Seq<bool>),
            FormatError,
        >((b[0], rest)));
        assert forall|i: int| 0 <= i < tail.len() implies find_code(t, #[trigger] tail[i])
            is Some by {
            assert(tail[i] == b[i + 1]);
        }
        lemma_decode_encode(t, tail, pad);
        assert(seq![b[0]] + tail =~= b);
    }
}

// ---------------------------------------------------------------------------
// Executable decoder
// ---------------------------------------------------------------------------

/// The (is-leaf, value) pairs of a list of provisional nodes.
pub open spec fn provisional_records(s: Seq<HuffmanNode>) -> Seq<(bool, u8)> {
    s.map_values(
        |n: HuffmanNode|
            match n.value {
                Some(x) => (true, x),
                None => (false, 0u8),
            },
    )
}

/// Rebuilds one subtree from the provisional node list, starting at
/// `index`, assigning each node `acc_binary` plus its path.  Returns the
/// subtree and the index just past the records it consumed.
pub fn reconstruct_huffman_node(
    huffman_nodes: &Vec<HuffmanNode>,
    index: usize,
    acc_binary: Vec<bool>,
) -> (r: (HuffmanNode, usize))
    requires
        index < huffman_nodes@.len(),
    ensures
        r.0@ == build_at(provisional_records(huffman_nodes@), index as int, acc_binary@).0,
        r.1 as int == build_at(provisional_records(huffman_nodes@), index as int, acc_binary@).1,
        index < r.1 <= huffman_nodes@.len(),
    decreases huffman_nodes@.len() - index,
{
    let ghost recs = provisional_records(huffman_nodes@);
    let n = huffman_nodes.len();
    let node_value = huffman_nodes[index].value;
    match node_value {
        Some(v) => {
            let leaf = HuffmanNode {
                value: Some(v),
                binary: acc_binary,
                frequency: 0,
                left: None,
                right: None,
            };
            proof {
                assert(recs[index as int].0);
                assert(leaf@ =~= parsed_leaf(v, leaf.binary@));
            }
            (leaf, index + 1)
        }
        None => {
            proof {
                assert(!recs[index as int].0);
            }
            let mut j = index + 1;
            let mut left: Option<Box<HuffmanNode>> = None;
            let mut right: Option<Box<HuffmanNode>> = None;
            if j < huffman_nodes.len() {
                let mut left_path = copy_vec(&acc_binary);
                left_path.push(false);
                let (left_node, j2) = reconstruct_huffman_node(huffman_nodes, j, left_path);
                proof {
                    lemma_build_fuel(
                        recs,
                        j as int,
                        acc_binary@.push(false),
                        (recs.len() - j) as nat,
                        ((recs.len() - index) - 1) as nat,
                    );
                }
                left = Some(Box::new(left_node));
                j = j2;
                if j < huffman_nodes.len() {
                    let mut right_path = copy_vec(&acc_binary);
                    right_path.push(true);
                    let (right_node, j3) = reconstruct_huffman_node(huffman_nodes, j, right_path);
                    proof {
                        lemma_build_fuel(
                            recs,
                            j as int,
                            acc_binary@.push(true),
                            (recs.len() - j) as nat,
                            ((recs.len() - index) - 1) as nat,
                        );
                    }
                    right = Some(Box::new(right_node));
                    j = j3;
                }
            }
            let out = HuffmanNode { value: None, binary: acc_binary, frequency: 0, left, right };
            proof {
                assert(out@ =~= build_at(recs, index as int, out.binary@).0);
            }
            (out, j)
        }
    }
}

/// Parses a whole tree section (without its outer length byte) into the
/// coding tree, with every node's code reassigned from its position.
pub fn parse_tree_data(tree_data_bytes: &[u8]) -> (r: Result<HuffmanNode, FormatError>)
    ensures
        (match r {
            Ok(t) => spec_parse_tree(tree_data_bytes@) == Ok::<NodeModel, FormatError>(t@),
            Err(e) => spec_parse_tree(tree_data_bytes@) == Err::<NodeModel, FormatError>(e),
        }),
{
    let len = tree_data_bytes.len();
    if len == 0 || len % 3 != 0 {
        return Err(FormatError::InvalidTreeSection);
    }
    let mut huffman_nodes: Vec<HuffmanNode> = Vec::new();
    let mut counter: usize = 0;
    while counter < len
        invariant
            counter <= len,
            counter % 3 == 0,
            len % 3 == 0,
            len == tree_data_bytes@.len(),
            huffman_nodes@.len() * 3 == counter,
            forall|k: int|
                0 <= k < huffman_nodes@.len() ==> provisional_records(huffman_nodes@)[k] == (
                tree_data_bytes@[3 * k] == 0xFF,
                if tree_data_bytes@[3 * k] == 0xFF {
                    tree_data_bytes@[3 * k + 1]
                } else {
                    0u8
                },
            ),
        decreases len - counter,
    {
        let tag = tree_data_bytes[counter];
        let value = tree_data_bytes[counter + 1];
        let ghost pre = huffman_nodes@;
        huffman_nodes.push(
            HuffmanNode {
                value: if tag == 0xFF {
                    Some(value)
                } else {
                    None
                },
                binary: Vec::new(),
                frequency: 0,
                left: None,
                right: None,
            },
        );
        proof {
            let cur = huffman_nodes@;
            assert forall|k: int| 0 <= k < cur.len() implies provisional_records(cur)[k] == (
                tree_data_bytes@[3 * k] == 0xFF,
                if tree_data_bytes@[3 * k] == 0xFF {
                    tree_data_bytes@[3 * k + 1]
                } else {
                    0u8
                },
            ) by {
                if k < pre.len() {
                    assert(cur[k] == pre[k]);
                    assert(provisional_records(pre)[k] == (
                        tree_data_bytes@[3 * k] == 0xFF,
                        if tree_data_bytes@[3 * k] == 0xFF {
                            tree_data_bytes@[3 * k + 1]
                        } else {
                            0u8
                        },
                    ));
                } else {
                    assert(3 * k == counter as int);
                }
            }
        }
        counter = counter + 3;
    }
    proof {
        assert(provisional_records(huffman_nodes@) =~= spec_records(tree_data_bytes@));
    }
    let (root, consumed) = reconstruct_huffman_node(&huffman_nodes, 0, Vec::new());
    if consumed != huffman_nodes.len() {
        return Err(FormatError::InvalidTreeSection);
    }
    Ok(root)
}

/// Walks the payload bits from `t`, starting at bit `i`, to the next
/// decoded symbol.  Returns the symbol and the position just past the bits
/// it consumed.
fn decode_symbol(t: &HuffmanNode, bits: &Vec<bool>, i: usize) -> (r: Result<
    (u8, usize),
    FormatError,
>)
    requires
        i <= bits@.len(),
    ensures
        (match r {
            Ok(p) => i <= p.1 <= bits@.len() && spec_walk(t@, bits@.skip(i as int)) == Ok::<
                (u8, Seq<bool>),
                FormatError,
            >((p.0, bits@.skip(p.1 as int))),
            Err(e) => spec_walk(t@, bits@.skip(i as int)) == Err::<(u8, Seq<bool>), FormatError>(e),
        }),
    decreases *t,
{
    match t.value {
        Some(v) => Ok((v, i)),
        None => {
            if i >= bits.len() {
                proof {
                    assert(bits@.skip(i as int).len() == 0);
                }
                return Err(FormatError::Truncated);
            }
            let bit = bits[i];
            proof {
                assert(bits@.skip(i as int)[0] == bits@[i as int]);
                assert(bits@.skip(i as int).drop_first() =~= bits@.skip(i + 1));
            }
            if !bit {
                match &t.left {
                    Some(c) => decode_symbol(&*c, bits, i + 1),
                    None => Err(FormatError::InvalidPayload),
                }
            } else {
                match &t.right {
                    Some(c) => decode_symbol(&*c, bits, i + 1),
                    None => Err(FormatError::InvalidPayload),
                }
            }
        }
    }
}

/// Decompresses a buffer produced by the compressor: reads the tree
/// section behind its length byte, the eight-byte symbol count, then
/// decodes exactly that many symbols from the bit-packed payload.
#[verifier::loop_isolation(false)]
pub fn decompress(buffer: &Vec<u8>) -> (r: Result<Vec<u8>, FormatError>)
    ensures
        (match r {
            Ok(out) => spec_decompress(buffer@) == Ok::<Seq<u8>, FormatError>(out@),
            Err(e) => spec_decompress(buffer@) == Err::<Seq<u8>, FormatError>(e),
        }),
{
    if buffer.len() < 1 {
        return Err(FormatError::Truncated);
    }
    let n = buffer[0] as usize;
    if buffer.len() < 1 + n + 8 {
        return Err(FormatError::Truncated);
    }
    let tree_slice = slice_subrange(buffer.as_slice(), 1, 1 + n);
    let tree = match parse_tree_data(tree_slice) {
        Ok(t) => t,
        Err(e) => {
            return Err(e);
        }
    };
    let count_slice = slice_subrange(buffer.as_slice(), 1 + n, 1 + n + 8);
    let count = be_val_exec(count_slice);
    let payload = slice_subrange(buffer.as_slice(), 1 + n + 8, buffer.len());
    let bits = unpack_bits(payload);
    let ghost tm = tree@;
    let ghost full = bits@;
    proof {
        assert(buffer@.skip(1 + n + 8) =~= buffer@.subrange(1 + n + 8, buffer@.len() as int));
        assert(full.skip(0) =~= full);
        match spec_decode(tm, full, count as nat) {
            Ok(s) => {
                assert(Seq::<u8>::empty() + s =~= s);
            }
            Err(_) => {}
        }
    }
    let mut out: Vec<u8> = Vec::new();
    let mut produced: u64 = 0;
    let mut bit_i: usize = 0;
    while produced < count
        invariant
            produced <= count,
            bit_i <= bits@.len(),
            bits@ == full,
            tree@ == tm,
            (match spec_decode(tm, full.skip(bit_i as int), (count - produced) as nat) {
                Ok(s) => spec_decode(tm, full, count as nat) == Ok::<Seq<u8>, FormatError>(out@ + s),
                Err(e) => spec_decode(tm, full, count as nat) == Err::<Seq<u8>, FormatError>(e),
            }),
        decreases count - produced,
    {
        let ghost rem = (count - produced) as nat;
        let ghost old_out = out@;
        let ghost old_i = bit_i as int;
        match decode_symbol(&tree, &bits, bit_i) {
            Ok(p) => {
                out.push(p.0);
                bit_i = p.1;
                produced = produced + 1;
                proof {
                    let rest = full.skip(bit_i as int);
                    assert(spec_walk(tm, full.skip(old_i)) == Ok::<(u8, Seq<bool>), FormatError>(
                        (p.0, rest),
                    ));
                    match spec_decode(tm, rest, (rem - 1) as nat) {
                        Ok(s) => {
                            assert(spec_decode(tm, full.skip(old_i), rem) == Ok::<
                                Seq<u8>,
                                FormatError,
                            >(seq![p.0] + s));
                            assert(old_out + (seq![p.0] + s) =~= out@ + s);
                        }
                        Err(e) => {
                            assert(spec_decode(tm, full.skip(old_i), rem) == Err::<
                                Seq<u8>,
                                FormatError,
                            >(e));
                        }
                    }
                }
            }
            Err(e) => {
                proof {
                    assert(spec_decode(tm, full.skip(old_i), rem) == Err::<Seq<u8>, FormatError>(
                        e,
                    ));
                    assert(spec_decode(tm, full, count as nat) == Err::<Seq<u8>, FormatError>(e));
                }
                return Err(e);
            }
        }
    }
    proof {
        assert(spec_decode(tm, full.skip(bit_i as int), 0) == Ok::<Seq<u8>, FormatError>(
            Seq::empty(),
        ));
        assert(out@ + Seq::<u8>::empty() =~= out@);
        assert(buffer@.subrange(1, 1 + n as int) == tree_slice@);
        assert(buffer@.subrange(1 + n as int, 1 + n + 8) == count_slice@);
        assert(buffer@.skip(1 + n + 8) == payload@);
    }
    Ok(out)
}

} // verus!
