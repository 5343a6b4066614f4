//! The Huffman coding tree: frequency analysis, greedy tree construction,
//! per-symbol code assignment, and the compact byte serialization of the tree.

use vstd::prelude::*;

verus! {

/// Mathematical model of a Huffman tree node.  `code` is the bit path from
/// the root (`false` = left, `true` = right); `frequency` is the total
/// occurrence count of the node's subtree.
#[verifier::ext_equal]
pub struct NodeModel {
    pub value: Option<u8>,
    pub code: Seq<bool>,
    pub frequency: nat,
    pub left: Option<Box<NodeModel>>,
    pub right: Option<Box<NodeModel>>,
}

/// A node of the Huffman coding tree.  Leaves carry the encoded byte in
/// `value`; internal nodes have `value == None`.  `binary` is the node's
/// assigned bit path from the root.
#[derive(Debug)]
pub struct HuffmanNode {
    pub value: Option<u8>,
    pub binary: Vec<bool>,
    pub frequency: usize,
    pub left: Option<Box<HuffmanNode>>,
    pub right: Option<Box<HuffmanNode>>,
}

/// Model of an optional child node.
pub open spec fn child_model(c: Option<Box<HuffmanNode>>) -> Option<Box<NodeModel>>
    decreases c,
{
    match c {
        Some(b) => Some(Box::new(node_model(*b))),
        None => None,
    }
}

/// Model of a node: the same tree with `Vec` and `usize` replaced by
/// `Seq` and `nat`.
pub open spec fn node_model(t: HuffmanNode) -> NodeModel
    decreases t,
{
    NodeModel {
        value: t.value,
        code: t.binary@,
        frequency: t.frequency as nat,
        left: child_model(t.left),
        right: child_model(t.right),
    }
}

impl View for HuffmanNode {
    type V = NodeModel;

    open spec fn view(&self) -> NodeModel {
        node_model(*self)
    }
}

/// Frequency of an optional child in the model.
pub open spec fn child_frequency(c: Option<Box<NodeModel>>) -> nat {
    match c {
        Some(b) => b.frequency,
        None => 0,
    }
}

// ---------------------------------------------------------------------------
// Frequency analysis
// ---------------------------------------------------------------------------

/// Number of occurrences of `v` in `b`.
pub open spec fn count_of(b: Seq<u8>, v: u8) -> nat
    decreases b.len(),
{
    if b.len() == 0 {
        0
    } else {
        count_of(b.drop_last(), v) + (if b.last() == v {
            1nat
        } else {
            0nat
        })
    }
}

/// The frequency table of `b` as a dense 256-entry sequence.
pub open spec fn counts_of(b: Seq<u8>) -> Seq<usize> {
    Seq::new(256, |i: int| count_of(b, i as u8) as usize)
}

pub proof fn lemma_count_le_len(b: Seq<u8>, v: u8)
    ensures
        count_of(b, v) <= b.len(),
    decreases b.len(),
{
    if b.len() > 0 {
        lemma_count_le_len(b.drop_last(), v);
    }
}

pub proof fn lemma_count_push(b: Seq<u8>, x: u8, v: u8)
    ensures
        count_of(b.push(x), v) == count_of(b, v) + (if x == v {
            1nat
        } else {
            0nat
        }),
{
    assert(b.push(x).drop_last() =~= b);
    assert(b.push(x).last() == x);
}

// ---------------------------------------------------------------------------
// The ordered leaf list
// ---------------------------------------------------------------------------

/// Inserts `p` into a list ordered ascending by count, directly after every
/// entry whose count is at most `p`'s.
pub open spec fn insert_pair(s: Seq<(u8, usize)>, p: (u8, usize)) -> Seq<(u8, usize)>
    decreases s.len(),
{
    if s.len() == 0 {
        seq![p]
    } else if p.1 < s[0].1 {
        seq![p] + s
    } else {
        seq![s[0]] + insert_pair(s.drop_first(), p)
    }
}

/// The (symbol, count) pairs for symbols below `n`, ordered ascending by
/// count with ties broken by ascending symbol value; zero counts are left out.
pub open spec fn ordered_pairs_upto(counts: Seq<usize>, n: int) -> Seq<(u8, usize)>
    decreases n,
{
    if n <= 0 {
        Seq::empty()
    } else {
        let prev = ordered_pairs_upto(counts, n - 1);
        if counts[n - 1] > 0 {
            insert_pair(prev, ((n - 1) as u8, counts[n - 1]))
        } else {
            prev
        }
    }
}

/// `insert_pair` places `p` exactly at the first index whose count
/// exceeds `p`'s.
pub proof fn lemma_insert_pair_at(s: Seq<(u8, usize)>, p: (u8, usize), j: int)
    requires
        0 <= j <= s.len(),
        forall|k: int| 0 <= k < j ==> !(p.1 < s[k].1),
        j < s.len() ==> p.1 < s[j].1,
    ensures
        insert_pair(s, p) == s.insert(j, p),
    decreases j,
{
    if j == 0 {
        if s.len() == 0 {
            assert(insert_pair(s, p) =~= s.insert(0, p));
        } else {
            assert(p.1 < s[0].1);
            assert(seq![p] + s =~= s.insert(0, p));
        }
    } else {
        assert(!(p.1 < s[0].1));
        lemma_insert_pair_at(s.drop_first(), p, j - 1);
        assert(seq![s[0]] + s.drop_first().insert(j - 1, p) =~= s.insert(j, p));
    }
}

/// The full ordered leaf list for a 256-entry frequency table.
pub open spec fn ordered_pairs(counts: Seq<usize>) -> Seq<(u8, usize)> {
    ordered_pairs_upto(counts, 256)
}

// ---------------------------------------------------------------------------
// Tree construction
// ---------------------------------------------------------------------------

/// The leaf node of one (symbol, count) pair.
pub open spec fn leaf_model(p: (u8, usize)) -> NodeModel {
    NodeModel {
        value: Some(p.0),
        code: Seq::empty(),
        frequency: p.1 as nat,
        left: None,
        right: None,
    }
}

/// The models of a list of nodes.
pub open spec fn models(s: Seq<HuffmanNode>) -> Seq<NodeModel> {
    s.map_values(|t: HuffmanNode| node_model(t))
}

/// The leaf models of a list of (symbol, count) pairs.
pub open spec fn leaves_model(s: Seq<(u8, usize)>) -> Seq<NodeModel> {
    s.map_values(|p: (u8, usize)| leaf_model(p))
}

pub proof fn lemma_models_push(s: Seq<HuffmanNode>, x: HuffmanNode)
    ensures
        models(s.push(x)) == models(s).push(node_model(x)),
{
    assert(models(s.push(x)) =~= models(s).push(node_model(x)));
}

pub proof fn lemma_leaves_push(s: Seq<(u8, usize)>, p: (u8, usize))
    ensures
        leaves_model(s.push(p)) == leaves_model(s).push(leaf_model(p)),
{
    assert(leaves_model(s.push(p)) =~= leaves_model(s).push(leaf_model(p)));
}

/// The node that the builder returns for an empty alphabet.
pub open spec fn empty_root() -> NodeModel {
    NodeModel { value: None, code: Seq::empty(), frequency: 0, left: None, right: None }
}

/// An internal node merging `a` (left) and `b` (right).
pub open spec fn merge_nodes(a: NodeModel, b: NodeModel) -> NodeModel {
    NodeModel {
        value: None,
        code: Seq::empty(),
        frequency: a.frequency + b.frequency,
        left: Some(Box::new(a)),
        right: Some(Box::new(b)),
    }
}

/// The greedy pairwise merge: repeatedly take the first two nodes, merge
/// them, and append the result at the end, until one node remains.
pub open spec fn merge_list(s: Seq<NodeModel>) -> NodeModel
    decreases s.len(),
{
    if s.len() == 0 {
        empty_root()
    } else if s.len() == 1 {
        s[0]
    } else {
        merge_list(s.subrange(2, s.len() as int).push(merge_nodes(s[0], s[1])))
    }
}

/// Sum of the frequencies of a list of nodes.
pub open spec fn sum_freq(s: Seq<NodeModel>) -> nat
    decreases s.len(),
{
    if s.len() == 0 {
        0
    } else {
        s[0].frequency + sum_freq(s.drop_first())
    }
}

pub proof fn lemma_sum_freq_push(s: Seq<NodeModel>, x: NodeModel)
    ensures
        sum_freq(s.push(x)) == sum_freq(s) + x.frequency,
    decreases s.len(),
{
    if s.len() == 0 {
        assert(s.push(x).drop_first() =~= s);
    } else {
        assert(s.push(x).drop_first() =~= s.drop_first().push(x));
        lemma_sum_freq_push(s.drop_first(), x);
    }
}

/// The first two nodes never carry more than the whole list's total.
pub proof fn lemma_sum_first_two(s: Seq<NodeModel>)
    requires
        s.len() >= 2,
    ensures
        s[0].frequency + s[1].frequency <= sum_freq(s),
{
    assert(sum_freq(s) == s[0].frequency + sum_freq(s.drop_first()));
    assert(sum_freq(s.drop_first()) == s[1].frequency + sum_freq(s.drop_first().drop_first()));
}

/// One greedy merge step keeps the total frequency of the list.
pub proof fn lemma_merge_step_sum(s: Seq<NodeModel>)
    requires
        s.len() >= 2,
    ensures
        sum_freq(s.subrange(2, s.len() as int).push(merge_nodes(s[0], s[1]))) == sum_freq(s),
{
    let tail2 = s.subrange(2, s.len() as int);
    assert(s.drop_first().drop_first() =~= tail2);
    assert(sum_freq(s) == s[0].frequency + sum_freq(s.drop_first()));
    assert(sum_freq(s.drop_first()) == s[1].frequency + sum_freq(tail2));
    lemma_sum_freq_push(tail2, merge_nodes(s[0], s[1]));
}

/// The merged root's frequency is the sum of all the leaves'.
pub proof fn lemma_merge_list_freq(s: Seq<NodeModel>)
    ensures
        merge_list(s).frequency == sum_freq(s),
    decreases s.len(),
{
    if s.len() == 0 {
    } else if s.len() == 1 {
        assert(s.drop_first() =~= Seq::<NodeModel>::empty());
        assert(sum_freq(s) == s[0].frequency + sum_freq(s.drop_first()));
        assert(sum_freq(Seq::<NodeModel>::empty()) == 0);
    } else {
        lemma_merge_step_sum(s);
        lemma_merge_list_freq(s.subrange(2, s.len() as int).push(merge_nodes(s[0], s[1])));
    }
}

/// Sum of the counts in a list of (symbol, count) pairs.
pub open spec fn sum_pairs(s: Seq<(u8, usize)>) -> nat
    decreases s.len(),
{
    if s.len() == 0 {
        0
    } else {
        (s[0].1 + sum_pairs(s.drop_first())) as nat
    }
}

pub proof fn lemma_sum_leaves_model(s: Seq<(u8, usize)>)
    ensures
        sum_freq(leaves_model(s)) == sum_pairs(s),
    decreases s.len(),
{
    if s.len() > 0 {
        assert(leaves_model(s).drop_first() =~= leaves_model(s.drop_first()));
        lemma_sum_leaves_model(s.drop_first());
    }
}

pub proof fn lemma_sum_insert_pair(s: Seq<(u8, usize)>, p: (u8, usize))
    ensures
        sum_pairs(insert_pair(s, p)) == sum_pairs(s) + p.1,
    decreases s.len(),
{
    if s.len() == 0 {
        let one = insert_pair(s, p);
        assert(one == seq![p]);
        assert(one.drop_first() =~= Seq::<(u8, usize)>::empty());
        assert(sum_pairs(one) == p.1 + sum_pairs(one.drop_first()));
        assert(sum_pairs(Seq::<(u8, usize)>::empty()) == 0);
    } else if p.1 < s[0].1 {
        let r = seq![p] + s;
        assert(insert_pair(s, p) == r);
        assert(r.drop_first() =~= s);
        assert(sum_pairs(r) == p.1 + sum_pairs(s));
    } else {
        let rec = insert_pair(s.drop_first(), p);
        let r = seq![s[0]] + rec;
        assert(insert_pair(s, p) == r);
        assert(r.drop_first() =~= rec);
        assert(sum_pairs(r) == s[0].1 + sum_pairs(rec));
        assert(sum_pairs(s) == s[0].1 + sum_pairs(s.drop_first()));
        lemma_sum_insert_pair(s.drop_first(), p);
    }
}

/// Sum of the first `n` entries of a frequency table.
pub open spec fn sum_counts_upto(counts: Seq<usize>, n: int) -> nat
    decreases n,
{
    if n <= 0 {
        0
    } else {
        (sum_counts_upto(counts, n - 1) + counts[n - 1]) as nat
    }
}

pub proof fn lemma_sum_ordered_upto(counts: Seq<usize>, n: int)
    ensures
        sum_pairs(ordered_pairs_upto(counts, n)) == sum_counts_upto(counts, n),
    decreases n,
{
    if n > 0 {
        lemma_sum_ordered_upto(counts, n - 1);
        if counts[n - 1] > 0 {
            lemma_sum_insert_pair(ordered_pairs_upto(counts, n - 1), ((n - 1) as u8, counts[n - 1]));
        }
    }
}

/// Sum of `count_of` over the symbols below `n`.
pub open spec fn total_count_upto(b: Seq<u8>, n: int) -> nat
    decreases n,
{
    if n <= 0 {
        0
    } else {
        total_count_upto(b, n - 1) + count_of(b, (n - 1) as u8)
    }
}

pub proof fn lemma_counts_of_total(b: Seq<u8>, n: int)
    requires
        b.len() <= usize::MAX,
        0 <= n <= 256,
    ensures
        sum_counts_upto(counts_of(b), n) == total_count_upto(b, n),
    decreases n,
{
    if n > 0 {
        lemma_counts_of_total(b, n - 1);
        lemma_count_le_len(b, (n - 1) as u8);
    }
}

pub proof fn lemma_total_drop(b: Seq<u8>, n: int)
    requires
        b.len() > 0,
        0 <= n <= 256,
    ensures
        total_count_upto(b, n) == total_count_upto(b.drop_last(), n) + (if (b.last() as int) < n {
            1nat
        } else {
            0nat
        }),
    decreases n,
{
    if n > 0 {
        lemma_total_drop(b, n - 1);
    }
}

/// Every byte of `b` is counted exactly once over the whole alphabet.
pub proof fn lemma_total_count(b: Seq<u8>)
    ensures
        total_count_upto(b, 256) == b.len(),
    decreases b.len(),
{
    if b.len() == 0 {
        assert forall|n: int| 0 <= n <= 256 implies total_count_upto(b, n) == 0 by {
            lemma_total_zero(b, n);
        }
    } else {
        lemma_total_drop(b, 256);
        lemma_total_count(b.drop_last());
    }
}

pub proof fn lemma_total_zero(b: Seq<u8>, n: int)
    requires
        b.len() == 0,
        0 <= n,
    ensures
        total_count_upto(b, n) == 0,
    decreases n,
{
    if n > 0 {
        lemma_total_zero(b, n - 1);
    }
}

/// The ordered leaves of `b` carry exactly `b.len()` total frequency.
pub proof fn lemma_leaves_total(b: Seq<u8>)
    requires
        b.len() <= usize::MAX,
    ensures
        sum_freq(leaves_model(ordered_pairs(counts_of(b)))) == b.len(),
{
    lemma_sum_leaves_model(ordered_pairs(counts_of(b)));
    lemma_sum_ordered_upto(counts_of(b), 256);
    lemma_counts_of_total(b, 256);
    lemma_total_count(b);
}

/// A lone leaf would get a zero-length code, which is unencodable, so the
/// builder wraps it as the left child of a synthetic root.
pub open spec fn wrap_root(t: NodeModel) -> NodeModel {
    if t.value is Some {
        NodeModel {
            value: None,
            code: Seq::empty(),
            frequency: t.frequency,
            left: Some(Box::new(t)),
            right: None,
        }
    } else {
        t
    }
}

// ---------------------------------------------------------------------------
// Code assignment
// ---------------------------------------------------------------------------

/// Assigns every node of `t` the code `p` plus its path below `t`
/// (left appends `false`, right appends `true`).
pub open spec fn assign_model(t: NodeModel, p: Seq<bool>) -> NodeModel
    decreases t,
{
    NodeModel {
        value: t.value,
        code: p,
        frequency: t.frequency,
        left: match t.left {
            Some(l) => Some(Box::new(assign_model(*l, p.push(false)))),
            None => None,
        },
        right: match t.right {
            Some(r) => Some(Box::new(assign_model(*r, p.push(true)))),
            None => None,
        },
    }
}

/// The code of `byte` in `t`: the `code` field of the first node found, in
/// preorder, whose value is `byte`.
pub open spec fn find_code(t: NodeModel, byte: u8) -> Option<Seq<bool>>
    decreases t,
{
    if t.value == Some(byte) {
        Some(t.code)
    } else {
        let left_found = match t.left {
            Some(l) => find_code(*l, byte),
            None => None,
        };
        if left_found is Some {
            left_found
        } else {
            match t.right {
                Some(r) => find_code(*r, byte),
                None => None,
            }
        }
    }
}

/// The complete tree that the builder produces for input `b`: ordered
/// leaves, greedy merge, the single-leaf wrap, and code assignment.
pub open spec fn spec_huffman_tree(b: Seq<u8>) -> NodeModel {
    assign_model(wrap_root(merge_list(leaves_model(ordered_pairs(counts_of(b))))), Seq::empty())
}

// ---------------------------------------------------------------------------
// Shape and code properties of built trees
// ---------------------------------------------------------------------------

/// Only leaves carry values: every valued node is childless.
pub open spec fn values_at_leaves(t: NodeModel) -> bool
    decreases t,
{
    &&& (t.value is Some ==> t.left is None && t.right is None)
    &&& (match t.left {
        Some(l) => values_at_leaves(*l),
        None => true,
    })
    &&& (match t.right {
        Some(r) => values_at_leaves(*r),
        None => true,
    })
}

/// A full binary tree: values exactly at the leaves, and every internal
/// node has both children.
pub open spec fn full_tree(t: NodeModel) -> bool
    decreases t,
{
    if t.value is Some {
        t.left is None && t.right is None
    } else {
        match (t.left, t.right) {
            (Some(l), Some(r)) => full_tree(*l) && full_tree(*r),
            _ => false,
        }
    }
}

/// Every node's code is `p` plus its path below this root.
pub open spec fn codes_from(t: NodeModel, p: Seq<bool>) -> bool
    decreases t,
{
    &&& t.code == p
    &&& (match t.left {
        Some(l) => codes_from(*l, p.push(false)),
        None => true,
    })
    &&& (match t.right {
        Some(r) => codes_from(*r, p.push(true)),
        None => true,
    })
}

/// Some node of `t` carries the value `v`.
pub open spec fn contains_value(t: NodeModel, v: u8) -> bool
    decreases t,
{
    ||| t.value == Some(v)
    ||| (match t.left {
        Some(l) => contains_value(*l, v),
        None => false,
    })
    ||| (match t.right {
        Some(r) => contains_value(*r, v),
        None => false,
    })
}

/// Equal node values and child structure; codes and frequencies may differ.
pub open spec fn same_shape(a: NodeModel, b: NodeModel) -> bool
    decreases a,
{
    &&& a.value == b.value
    &&& (match (a.left, b.left) {
        (Some(x), Some(y)) => same_shape(*x, *y),
        (None, None) => true,
        _ => false,
    })
    &&& (match (a.right, b.right) {
        (Some(x), Some(y)) => same_shape(*x, *y),
        (None, None) => true,
        _ => false,
    })
}

/// The root shapes the builder produces: a full tree under a valueless
/// root for two or more symbols, a lone left leaf under a synthetic root
/// for one, a childless valueless root for none.
pub open spec fn builder_shape(t: NodeModel) -> bool {
    ||| (t.value is None && full_tree(t))
    ||| (t.value is None && t.right is None && (match t.left {
        Some(l) => l.value is Some && l.left is None && l.right is None,
        None => true,
    }))
}

pub proof fn lemma_full_values(t: NodeModel)
    requires
        full_tree(t),
    ensures
        values_at_leaves(t),
    decreases t,
{
    match t.left {
        Some(l) => lemma_full_values(*l),
        None => {}
    }
    match t.right {
        Some(r) => lemma_full_values(*r),
        None => {}
    }
}

/// Code assignment gives every node its path.
pub proof fn lemma_assign_codes_from(t: NodeModel, p: Seq<bool>)
    ensures
        codes_from(assign_model(t, p), p),
    decreases t,
{
    match t.left {
        Some(l) => lemma_assign_codes_from(*l, p.push(false)),
        None => {}
    }
    match t.right {
        Some(r) => lemma_assign_codes_from(*r, p.push(true)),
        None => {}
    }
}

/// Code assignment changes codes only, never values or structure.
pub proof fn lemma_assign_same_shape(t: NodeModel, p: Seq<bool>)
    ensures
        same_shape(t, assign_model(t, p)),
    decreases t,
{
    match t.left {
        Some(l) => lemma_assign_same_shape(*l, p.push(false)),
        None => {}
    }
    match t.right {
        Some(r) => lemma_assign_same_shape(*r, p.push(true)),
        None => {}
    }
}

pub proof fn lemma_same_shape_values(a: NodeModel, b: NodeModel)
    requires
        same_shape(a, b),
        values_at_leaves(a),
    ensures
        values_at_leaves(b),
    decreases a,
{
    match (a.left, b.left) {
        (Some(x), Some(y)) => lemma_same_shape_values(*x, *y),
        _ => {}
    }
    match (a.right, b.right) {
        (Some(x), Some(y)) => lemma_same_shape_values(*x, *y),
        _ => {}
    }
}

pub proof fn lemma_same_shape_full(a: NodeModel, b: NodeModel)
    requires
        same_shape(a, b),
        full_tree(a),
    ensures
        full_tree(b),
    decreases a,
{
    match (a.left, b.left) {
        (Some(x), Some(y)) => lemma_same_shape_full(*x, *y),
        _ => {}
    }
    match (a.right, b.right) {
        (Some(x), Some(y)) => lemma_same_shape_full(*x, *y),
        _ => {}
    }
}

pub proof fn lemma_same_shape_contains(a: NodeModel, b: NodeModel, v: u8)
    requires
        same_shape(a, b),
    ensures
        contains_value(a, v) == contains_value(b, v),
    decreases a,
{
    match (a.left, b.left) {
        (Some(x), Some(y)) => lemma_same_shape_contains(*x, *y, v),
        _ => {}
    }
    match (a.right, b.right) {
        (Some(x), Some(y)) => lemma_same_shape_contains(*x, *y, v),
        _ => {}
    }
}

/// Two trees of the same shape whose codes are both their paths assign
/// every value the same code.
pub proof fn lemma_find_code_same_shape(a: NodeModel, b: NodeModel, p: Seq<bool>, x: u8)
    requires
        same_shape(a, b),
        codes_from(a, p),
        codes_from(b, p),
    ensures
        find_code(a, x) == find_code(b, x),
    decreases a,
{
    match (a.left, b.left) {
        (Some(l1), Some(l2)) => lemma_find_code_same_shape(*l1, *l2, p.push(false), x),
        _ => {}
    }
    match (a.right, b.right) {
        (Some(r1), Some(r2)) => lemma_find_code_same_shape(*r1, *r2, p.push(true), x),
        _ => {}
    }
}

/// Every value contained in a tree has a code in it.
pub proof fn lemma_contains_find(t: NodeModel, v: u8)
    requires
        contains_value(t, v),
    ensures
        find_code(t, v) is Some,
    decreases t,
{
    if t.value == Some(v) {
    } else {
        match t.left {
            Some(l) => {
                if contains_value(*l, v) {
                    lemma_contains_find(*l, v);
                }
            }
            None => {}
        }
        match t.right {
            Some(r) => {
                if contains_value(*r, v) {
                    lemma_contains_find(*r, v);
                }
            }
            None => {}
        }
    }
}

/// The greedy merge of full trees is a full tree; with two or more nodes
/// the root is internal.
pub proof fn lemma_merge_full(s: Seq<NodeModel>)
    requires
        s.len() >= 1,
        forall|i: int| 0 <= i < s.len() ==> full_tree(#[trigger] s[i]),
    ensures
        full_tree(merge_list(s)),
        s.len() >= 2 ==> merge_list(s).value is None,
    decreases s.len(),
{
    if s.len() >= 2 {
        let merged = merge_nodes(s[0], s[1]);
        let next = s.subrange(2, s.len() as int).push(merged);
        assert(full_tree(merged));
        assert forall|i: int| 0 <= i < next.len() implies full_tree(#[trigger] next[i]) by {
            if i < next.len() - 1 {
                assert(next[i] == s[i + 2]);
            }
        }
        lemma_merge_full(next);
        if s.len() == 2 {
            assert(merge_list(next) == merged);
        }
    }
}

/// A value contained in some node of the list is contained in the merged
/// tree.
pub proof fn lemma_merge_contains(s: Seq<NodeModel>, v: u8)
    requires
        s.len() >= 1,
        exists|i: int| 0 <= i < s.len() && contains_value(#[trigger] s[i], v),
    ensures
        contains_value(merge_list(s), v),
    decreases s.len(),
{
    let i = choose|i: int| 0 <= i < s.len() && contains_value(#[trigger] s[i], v);
    if s.len() == 1 {
        assert(merge_list(s) == s[0]);
    } else {
        let merged = merge_nodes(s[0], s[1]);
        let next = s.subrange(2, s.len() as int).push(merged);
        if i >= 2 {
            assert(next[i - 2] == s[i]);
            assert(contains_value(next[i - 2], v));
        } else {
            assert(contains_value(merged, v));
            assert(next[next.len() - 1] == merged);
        }
        lemma_merge_contains(next, v);
    }
}

/// Inserting a pair keeps it and every present pair in the list.
pub proof fn lemma_insert_pair_mem(s: Seq<(u8, usize)>, p: (u8, usize))
    ensures
        insert_pair(s, p).contains(p),
        forall|q: (u8, usize)| s.contains(q) ==> insert_pair(s, p).contains(q),
    decreases s.len(),
{
    if s.len() == 0 {
        assert(insert_pair(s, p)[0] == p);
    } else if p.1 < s[0].1 {
        let r = seq![p] + s;
        assert(r[0] == p);
        assert forall|q: (u8, usize)| s.contains(q) implies r.contains(q) by {
            let j = choose|j: int| 0 <= j < s.len() && s[j] == q;
            assert(r[j + 1] == q);
        }
    } else {
        lemma_insert_pair_mem(s.drop_first(), p);
        let rec = insert_pair(s.drop_first(), p);
        let r = seq![s[0]] + rec;
        let jp = choose|j: int| 0 <= j < rec.len() && rec[j] == p;
        assert(r[jp + 1] == p);
        assert forall|q: (u8, usize)| s.contains(q) implies r.contains(q) by {
            let j = choose|j: int| 0 <= j < s.len() && s[j] == q;
            if j == 0 {
                assert(r[0] == q);
            } else {
                assert(s.drop_first()[j - 1] == q);
                assert(s.drop_first().contains(q));
                let j2 = choose|j2: int| 0 <= j2 < rec.len() && rec[j2] == q;
                assert(r[j2 + 1] == q);
            }
        }
    }
}

/// Every symbol with a positive count appears in the ordered leaf list
/// with that count.
pub proof fn lemma_ordered_mem(counts: Seq<usize>, n: int, v: u8)
    requires
        0 <= v < n <= 256,
        counts[v as int] > 0,
    ensures
        ordered_pairs_upto(counts, n).contains((v, counts[v as int])),
    decreases n,
{
    let prev = ordered_pairs_upto(counts, n - 1);
    if v as int == n - 1 {
        lemma_insert_pair_mem(prev, (v, counts[v as int]));
    } else {
        lemma_ordered_mem(counts, n - 1, v);
        if counts[n - 1] > 0 {
            lemma_insert_pair_mem(prev, (((n - 1) as u8), counts[n - 1]));
        }
    }
}

/// The tree the builder produces for `b` contains every byte value that
/// occurs in `b`.
pub proof fn lemma_tree_contains(b: Seq<u8>, v: u8)
    requires
        b.len() <= usize::MAX,
        count_of(b, v) > 0,
    ensures
        contains_value(spec_huffman_tree(b), v),
{
    let counts = counts_of(b);
    let pairs = ordered_pairs(counts);
    let leaves = leaves_model(pairs);
    let merged = merge_list(leaves);
    let wrapped = wrap_root(merged);
    lemma_count_le_len(b, v);
    assert(counts[v as int] == count_of(b, v));
    lemma_ordered_mem(counts, 256, v);
    let j = choose|j: int| 0 <= j < pairs.len() && pairs[j] == (v, counts[v as int]);
    assert(leaves[j] == leaf_model(pairs[j]));
    assert(contains_value(leaves[j], v));
    lemma_merge_contains(leaves, v);
    assert(contains_value(wrapped, v));
    lemma_assign_same_shape(wrapped, Seq::empty());
    lemma_same_shape_contains(wrapped, assign_model(wrapped, Seq::empty()), v);
}

/// The builder's trees keep values at the leaves and have one of the
/// three root shapes; their codes are the nodes' paths.
pub proof fn lemma_builder_tree_props(b: Seq<u8>)
    ensures
        ({
            let t0 = wrap_root(merge_list(leaves_model(ordered_pairs(counts_of(b)))));
            let t = spec_huffman_tree(b);
            builder_shape(t0) && values_at_leaves(t0) && t == assign_model(t0, Seq::empty())
                && same_shape(t0, t) && values_at_leaves(t) && codes_from(t, Seq::empty())
        }),
{
    let pairs = ordered_pairs(counts_of(b));
    let leaves = leaves_model(pairs);
    let merged = merge_list(leaves);
    let t0 = wrap_root(merged);
    assert forall|i: int| 0 <= i < leaves.len() implies full_tree(#[trigger] leaves[i]) by {
        assert(leaves[i] == leaf_model(pairs[i]));
    }
    if leaves.len() == 0 {
        assert(merged == empty_root());
        assert(builder_shape(t0));
        assert(values_at_leaves(t0));
    } else if leaves.len() == 1 {
        assert(merged == leaves[0]);
        assert(merged == leaf_model(pairs[0]));
        assert(builder_shape(t0));
        assert(values_at_leaves(merged));
        assert(values_at_leaves(t0));
    } else {
        lemma_merge_full(leaves);
        assert(merged.value is None);
        assert(t0 == merged);
        assert(builder_shape(t0));
        lemma_full_values(t0);
    }
    lemma_assign_same_shape(t0, Seq::empty());
    lemma_same_shape_values(t0, assign_model(t0, Seq::empty()));
    lemma_assign_codes_from(t0, Seq::empty());
}

/// Shape equality carries the builder's root shapes over.
pub proof fn lemma_same_shape_builder(a: NodeModel, b: NodeModel)
    requires
        same_shape(a, b),
        builder_shape(a),
    ensures
        builder_shape(b),
{
    if a.value is None && full_tree(a) {
        lemma_same_shape_full(a, b);
    } else {
        match (a.left, b.left) {
            (Some(x), Some(y)) => {
                assert(same_shape(*x, *y));
            }
            _ => {}
        }
    }
}

/// Every byte of `b` occurs in `b`.
pub proof fn lemma_count_positive(b: Seq<u8>, i: int)
    requires
        0 <= i < b.len(),
    ensures
        count_of(b, b[i]) > 0,
    decreases b.len(),
{
    if i < b.len() - 1 {
        lemma_count_positive(b.drop_last(), i);
    }
}

// ---------------------------------------------------------------------------
// Leaf frequencies
// ---------------------------------------------------------------------------

/// Sum of the frequencies stored at the valued nodes of `t`.
pub open spec fn leaf_freq_sum(t: NodeModel) -> nat
    decreases t,
{
    ((if t.value is Some {
        t.frequency
    } else {
        0nat
    }) + (match t.left {
        Some(l) => leaf_freq_sum(*l),
        None => 0nat,
    }) + (match t.right {
        Some(r) => leaf_freq_sum(*r),
        None => 0nat,
    })) as nat
}

/// The greedy merge keeps each tree's frequency equal to the sum of its
/// leaves' frequencies.
pub proof fn lemma_merge_leaf_freq(s: Seq<NodeModel>)
    requires
        s.len() >= 1,
        forall|i: int| 0 <= i < s.len() ==> leaf_freq_sum(#[trigger] s[i]) == s[i].frequency,
    ensures
        leaf_freq_sum(merge_list(s)) == merge_list(s).frequency,
    decreases s.len(),
{
    if s.len() >= 2 {
        let merged = merge_nodes(s[0], s[1]);
        let next = s.subrange(2, s.len() as int).push(merged);
        assert(leaf_freq_sum(merged) == merged.frequency);
        assert forall|i: int| 0 <= i < next.len() implies leaf_freq_sum(#[trigger] next[i])
            == next[i].frequency by {
            if i < next.len() - 1 {
                assert(next[i] == s[i + 2]);
            }
        }
        lemma_merge_leaf_freq(next);
    }
}

/// Code assignment does not change any frequency.
pub proof fn lemma_assign_leaf_freq(t: NodeModel, p: Seq<bool>)
    ensures
        leaf_freq_sum(assign_model(t, p)) == leaf_freq_sum(t),
    decreases t,
{
    match t.left {
        Some(l) => lemma_assign_leaf_freq(*l, p.push(false)),
        None => {}
    }
    match t.right {
        Some(r) => lemma_assign_leaf_freq(*r, p.push(true)),
        None => {}
    }
}

// ---------------------------------------------------------------------------
// The single-symbol alphabet
// ---------------------------------------------------------------------------

/// In a buffer of one repeated byte every other value has count zero.
pub proof fn lemma_count_others_zero(b: Seq<u8>, v: u8)
    requires
        forall|i: int| 0 <= i < b.len() ==> #[trigger] b[i] == b[0],
        v != b[0] || b.len() == 0,
    ensures
        count_of(b, v) == 0,
    decreases b.len(),
{
    if b.len() > 0 {
        assert(b.last() == b[0]);
        if b.len() == 1 {
            assert(b.drop_last().len() == 0);
            lemma_count_others_zero(b.drop_last(), v);
        } else {
            assert(forall|i: int|
                0 <= i < b.drop_last().len() ==> #[trigger] b.drop_last()[i] == b.drop_last()[0]);
            lemma_count_others_zero(b.drop_last(), v);
        }
    }
}

/// With exactly one positive count the ordered leaf list is that one pair.
pub proof fn lemma_ordered_single(counts: Seq<usize>, n: int, v: u8, c: usize)
    requires
        0 <= n <= 256,
        counts[v as int] == c,
        c > 0,
        forall|w: int| 0 <= w < 256 && w != v ==> counts[w] == 0,
    ensures
        ordered_pairs_upto(counts, n) == (if (v as int) < n {
            seq![(v, c)]
        } else {
            Seq::<(u8, usize)>::empty()
        }),
    decreases n,
{
    if n > 0 {
        lemma_ordered_single(counts, n - 1, v, c);
        if n - 1 == v as int {
            assert(insert_pair(Seq::<(u8, usize)>::empty(), (v, c)) =~= seq![(v, c)]);
        } else {
            assert(counts[n - 1] == 0);
        }
    }
}

// ---------------------------------------------------------------------------
// Tree serialization
// ---------------------------------------------------------------------------

/// The three-byte record of one node: `[tag, value, depth]`, with tag
/// `0xFF` for a leaf and `0x00` for an internal node.
pub open spec fn record_of(m: NodeModel) -> Seq<u8> {
    match m.value {
        Some(v) => seq![0xFFu8, v, (m.code.len() % 256) as u8],
        None => seq![0x00u8, 0x00u8, (m.code.len() % 256) as u8],
    }
}

/// The concatenated records of a list of nodes.
pub open spec fn records_of(s: Seq<NodeModel>) -> Seq<u8>
    decreases s.len(),
{
    if s.len() == 0 {
        Seq::empty()
    } else {
        record_of(s[0]) + records_of(s.drop_first())
    }
}

/// All nodes of `t` in preorder: the node itself, then its whole left
/// subtree, then its whole right subtree.
pub open spec fn preorder(t: NodeModel) -> Seq<NodeModel>
    decreases t,
{
    seq![t] + (match t.left {
        Some(l) => preorder(*l),
        None => Seq::empty(),
    }) + (match t.right {
        Some(r) => preorder(*r),
        None => Seq::empty(),
    })
}

/// The serialized byte form of `t`: its records in preorder.
pub open spec fn ser_tree(t: NodeModel) -> Seq<u8>
    decreases t,
{
    record_of(t) + (match t.left {
        Some(l) => ser_tree(*l),
        None => Seq::empty(),
    }) + (match t.right {
        Some(r) => ser_tree(*r),
        None => Seq::empty(),
    })
}

pub proof fn lemma_records_concat(a: Seq<NodeModel>, b: Seq<NodeModel>)
    ensures
        records_of(a + b) == records_of(a) + records_of(b),
    decreases a.len(),
{
    if a.len() == 0 {
        assert(a + b =~= b);
        assert(records_of(a) + records_of(b) =~= records_of(b));
    } else {
        assert((a + b).drop_first() =~= a.drop_first() + b);
        lemma_records_concat(a.drop_first(), b);
        assert(records_of(a + b) == record_of(a[0]) + (records_of(a.drop_first()) + records_of(
            b)));
        assert(record_of(a[0]) + (records_of(a.drop_first()) + records_of(b)) =~= (record_of(a[0])
            + records_of(a.drop_first())) + records_of(b));
    }
}

/// Every node contributes exactly three bytes.
pub proof fn lemma_records_len(s: Seq<NodeModel>)
    ensures
        records_of(s).len() == 3 * s.len(),
    decreases s.len(),
{
    if s.len() > 0 {
        lemma_records_len(s.drop_first());
    }
}

pub proof fn lemma_records_push(s: Seq<NodeModel>, x: NodeModel)
    ensures
        records_of(s.push(x)) == records_of(s) + record_of(x),
{
    assert(s.push(x) =~= s + seq![x]);
    lemma_records_concat(s, seq![x]);
    assert(seq![x].drop_first() =~= Seq::<NodeModel>::empty());
    assert(records_of(seq![x]) == record_of(x) + records_of(Seq::<NodeModel>::empty()));
    assert(record_of(x) + Seq::<u8>::empty() =~= record_of(x));
}

/// The records of the preorder node list are the serialized tree.
pub proof fn lemma_records_preorder(t: NodeModel)
    ensures
        records_of(preorder(t)) == ser_tree(t),
    decreases t,
{
    let left_pre = match t.left {
        Some(l) => preorder(*l),
        None => Seq::<NodeModel>::empty(),
    };
    let right_pre = match t.right {
        Some(r) => preorder(*r),
        None => Seq::<NodeModel>::empty(),
    };
    match t.left {
        Some(l) => lemma_records_preorder(*l),
        None => {}
    }
    match t.right {
        Some(r) => lemma_records_preorder(*r),
        None => {}
    }
    lemma_records_concat(seq![t] + left_pre, right_pre);
    lemma_records_concat(seq![t], left_pre);
    assert(seq![t].drop_first() =~= Seq::<NodeModel>::empty());
    assert(records_of(seq![t]) == record_of(t) + records_of(Seq::<NodeModel>::empty()));
    assert(record_of(t) + Seq::<u8>::empty() =~= record_of(t));
}

/// Error returned when a tree cannot be serialized: its record list would
/// not fit the one-byte length field of the tree section.
#[derive(Debug)]
pub struct HuffmanToVecError;

/// Copies a vector of plain values.
pub fn copy_vec<T: Copy>(v: &Vec<T>) -> (r: Vec<T>)
    ensures
        r@ == v@,
{
    let mut r: Vec<T> = Vec::new();
    let mut i: usize = 0;
    while i < v.len()
        invariant
            i <= v@.len(),
            r@ == v@.take(i as int),
        decreases v@.len() - i,
    {
        r.push(v[i]);
        proof {
            assert(v@.take(i + 1) =~= v@.take(i as int).push(v@[i as int]));
        }
        i = i + 1;
    }
    proof {
        assert(v@.take(v@.len() as int) =~= v@);
    }
    r
}

/// Copies a whole tree.
fn clone_tree(t: &HuffmanNode) -> (r: HuffmanNode)
    ensures
        r@ == (*t)@,
    decreases *t,
{
    let r = HuffmanNode {
        value: t.value,
        binary: copy_vec(&t.binary),
        frequency: t.frequency,
        left: (match &t.left {
            Some(l) => Some(Box::new(clone_tree(&*l))),
            None => None,
        }),
        right: (match &t.right {
            Some(rt) => Some(Box::new(clone_tree(&*rt))),
            None => None,
        }),
    };
    proof {
        assert(r@ =~= (*t)@);
    }
    r
}

impl Clone for HuffmanNode {
    /// A clone is model-equal to the original.
    fn clone(&self) -> (r: Self)
        ensures
            r@ == (*self)@,
    {
        clone_tree(self)
    }
}

impl HuffmanNode {
    /// Builds a node with the given fields and an empty code.
    pub fn new(
        value: Option<u8>,
        frequency: usize,
        left: Option<Box<HuffmanNode>>,
        right: Option<Box<HuffmanNode>>,
    ) -> (r: Self)
        ensures
            r@ == (NodeModel {
                value,
                code: Seq::<bool>::empty(),
                frequency: frequency as nat,
                left: child_model(left),
                right: child_model(right),
            }),
    {
        let r = HuffmanNode { value, binary: Vec::new(), frequency, left, right };
        proof {
            assert(r@.code =~= Seq::<bool>::empty());
        }
        r
    }

    /// Builds a node whose frequency is the sum of its children's.
    pub fn from(
        value: Option<u8>,
        left: Option<Box<HuffmanNode>>,
        right: Option<Box<HuffmanNode>>,
    ) -> (r: Self)
        requires
            child_frequency(child_model(left)) + child_frequency(child_model(right))
                <= usize::MAX,
        ensures
            r@ == (NodeModel {
                value,
                code: Seq::<bool>::empty(),
                frequency: child_frequency(child_model(left))
                    + child_frequency(child_model(right)),
                left: child_model(left),
                right: child_model(right),
            }),
    {
        let mut node = HuffmanNode { value, binary: Vec::new(), frequency: 0, left, right };
        node.calc_freq();
        proof {
            assert(node@.code =~= Seq::<bool>::empty());
        }
        node
    }

    /// Counts the occurrences of each byte value in `contents`.
    fn create_frequency_table(contents: &Vec<u8>) -> (r: Vec<usize>)
        ensures
            r@ == counts_of(contents@),
    {
        let mut counts: Vec<usize> = Vec::new();
        let mut j: usize = 0;
        while j < 256
            invariant
                j <= 256,
                counts@.len() == j,
                forall|k: int| 0 <= k < j ==> counts@[k] == 0,
            decreases 256 - j,
        {
            counts.push(0);
            j = j + 1;
        }
        let mut i: usize = 0;
        while i < contents.len()
            invariant
                i <= contents@.len(),
                counts@.len() == 256,
                forall|v: u8| counts@[v as int] == count_of(contents@.take(i as int), v),
            decreases contents@.len() - i,
        {
            let b = contents[i];
            proof {
                lemma_count_le_len(contents@.take(i as int), b);
                assert(contents@.take(i as int).len() == i);
                assert forall|v: u8| #[trigger] count_of(contents@.take(i + 1), v)
                    == count_of(contents@.take(i as int), v) + (if b == v {
                    1nat
                } else {
                    0nat
                }) by {
                    assert(contents@.take(i + 1) =~= contents@.take(i as int).push(
                        contents@[i as int]));
                    lemma_count_push(contents@.take(i as int), b, v);
                }
            }
            counts[b as usize] = counts[b as usize] + 1;
            i = i + 1;
        }
        proof {
            assert(contents@.take(contents@.len() as int) =~= contents@);
            assert(counts@ =~= counts_of(contents@));
        }
        counts
    }

    /// Inserts `p` into `out`, which is ordered ascending by count, after
    /// every entry whose count is at most `p.1`.
    fn insert_ordered(out: &mut Vec<(u8, usize)>, p: (u8, usize))
        ensures
            final(out)@ == insert_pair(old(out)@, p),
    {
        let mut j: usize = 0;
        while j < out.len() && out[j].1 <= p.1
            invariant
                j <= out@.len(),
                out@ == old(out)@,
                forall|k: int| 0 <= k < j ==> !(p.1 < out@[k].1),
            decreases out@.len() - j,
        {
            j = j + 1;
        }
        proof {
            lemma_insert_pair_at(out@, p, j as int);
        }
        out.insert(j, p);
    }

    /// Turns a 256-entry frequency table into the ordered leaf list:
    /// ascending by count, ties broken by ascending symbol value, zero
    /// counts left out.
    fn frequency_table_to_ordered_tuple_vec(freq_table: &Vec<usize>) -> (r: Vec<(u8, usize)>)
        requires
            freq_table@.len() == 256,
        ensures
            r@ == ordered_pairs(freq_table@),
    {
        let mut out: Vec<(u8, usize)> = Vec::new();
        let mut v: usize = 0;
        while v < 256
            invariant
                v <= 256,
                freq_table@.len() == 256,
                out@ == ordered_pairs_upto(freq_table@, v as int),
            decreases 256 - v,
        {
            let c = freq_table[v];
            if c > 0 {
                Self::insert_ordered(&mut out, (v as u8, c));
            }
            v = v + 1;
        }
        out
    }

    /// Turns the ordered (symbol, count) list into a list of leaf nodes.
    fn create_huffman_node_vec(ordered_vec: &Vec<(u8, usize)>) -> (r: Vec<HuffmanNode>)
        ensures
            models(r@) == leaves_model(ordered_vec@),
    {
        let mut huffman_node_vec: Vec<HuffmanNode> = Vec::new();
        let mut i: usize = 0;
        while i < ordered_vec.len()
            invariant
                i <= ordered_vec@.len(),
                models(huffman_node_vec@) == leaves_model(ordered_vec@.take(i as int)),
            decreases ordered_vec@.len() - i,
        {
            let p = ordered_vec[i];
            let ghost pre = huffman_node_vec@;
            let leaf = HuffmanNode::new(Some(p.0), p.1, None, None);
            huffman_node_vec.push(leaf);
            proof {
                lemma_models_push(pre, leaf);
                lemma_leaves_push(ordered_vec@.take(i as int), p);
                assert(ordered_vec@.take(i + 1) =~= ordered_vec@.take(i as int).push(p));
                assert(leaf@ == leaf_model(p));
            }
            i = i + 1;
        }
        proof {
            assert(ordered_vec@.take(ordered_vec@.len() as int) =~= ordered_vec@);
        }
        huffman_node_vec
    }

    /// Repeatedly merges the first two nodes of the list into a fresh
    /// internal node appended at the end, until one root remains.
    fn create_huffman_tree(huffman_vec: Vec<HuffmanNode>) -> (r: HuffmanNode)
        requires
            sum_freq(models(huffman_vec@)) <= usize::MAX,
        ensures
            r@ == merge_list(models(huffman_vec@)),
    {
        let ghost orig: Seq<NodeModel> = models(huffman_vec@);
        let mut v = huffman_vec;
        if v.len() == 0 {
            return HuffmanNode::new(None, 0, None, None);
        }
        while v.len() > 1
            invariant
                v@.len() >= 1,
                merge_list(models(v@)) == merge_list(orig),
                sum_freq(models(v@)) == sum_freq(orig),
                sum_freq(orig) <= usize::MAX,
            decreases v@.len(),
        {
            let ghost vs = models(v@);
            let a = v.remove(0);
            let b = v.remove(0);
            proof {
                lemma_sum_first_two(vs);
                assert(a@ == vs[0] && b@ == vs[1]);
            }
            let merged = HuffmanNode::from(None, Some(Box::new(a)), Some(Box::new(b)));
            v.push(merged);
            proof {
                assert(merged@ == merge_nodes(vs[0], vs[1]));
                assert(models(v@) =~= vs.subrange(2, vs.len() as int).push(
                    merge_nodes(vs[0], vs[1])));
                lemma_merge_step_sum(vs);
            }
        }
        let ghost last = models(v@);
        let root = v.remove(0);
        proof {
            assert(merge_list(last) == last[0]);
            assert(last[0] == root@);
        }
        root
    }

    /// Assigns codes below `prefix` to the child in `child`, if any.
    fn assign_binary_child(child: &mut Option<Box<HuffmanNode>>, prefix: Vec<bool>)
        ensures
            child_model(*final(child)) == (match child_model(*old(child)) {
                Some(m) => Some(Box::new(assign_model(*m, prefix@))),
                None => None::<Box<NodeModel>>,
            }),
        decreases *old(child),
    {
        match child.take() {
            None => {}
            Some(mut b) => {
                (&mut *b).assign_binary(prefix);
                *child = Some(b);
            }
        }
    }

    /// Assigns every node of this tree the code `prefix` plus its path from
    /// here: descending left appends a `false` bit, descending right a
    /// `true` bit.
    pub fn assign_binary(&mut self, prefix: Vec<bool>)
        ensures
            final(self)@ == assign_model(old(self)@, prefix@),
        decreases *old(self),
    {
        let mut left_prefix = copy_vec(&prefix);
        left_prefix.push(false);
        let mut right_prefix = copy_vec(&prefix);
        right_prefix.push(true);
        Self::assign_binary_child(&mut self.left, left_prefix);
        Self::assign_binary_child(&mut self.right, right_prefix);
        self.binary = prefix;
        proof {
            assert(self@ =~= assign_model(old(self)@, prefix@));
        }
    }

    /// Looks up the code assigned to `byte`: the `binary` of the first
    /// node found, in preorder, whose value is `byte`.
    pub fn find_encoding(&self, byte: u8) -> (r: Option<Vec<bool>>)
        ensures
            (match find_code(self@, byte) {
                Some(c) => r matches Some(v) && v@ == c,
                None => r is None,
            }),
        decreases *self,
    {
        let self_matches = match self.value {
            Some(x) => x == byte,
            None => false,
        };
        if self_matches {
            return Some(copy_vec(&self.binary));
        }
        match &self.left {
            Some(l) => {
                let e = l.find_encoding(byte);
                if e.is_some() {
                    return e;
                }
            }
            None => {}
        }
        match &self.right {
            Some(r) => {
                return r.find_encoding(byte);
            }
            None => {}
        }
        None
    }

    /// Builds the complete coding tree for `buffer`: frequency analysis,
    /// ordered leaves, greedy merge, the single-leaf wrap, and code
    /// assignment.
    pub fn from_buffer(buffer: Vec<u8>) -> (r: Self)
        ensures
            r@ == spec_huffman_tree(buffer@),
    {
        let total = buffer.len();
        let freq_table = Self::create_frequency_table(&buffer);
        let freq_vec = Self::frequency_table_to_ordered_tuple_vec(&freq_table);
        let huffman_vec = Self::create_huffman_node_vec(&freq_vec);
        proof {
            assert(buffer@.len() == total);
            lemma_leaves_total(buffer@);
        }
        let mut huffman_tree = Self::create_huffman_tree(huffman_vec);
        if huffman_tree.value.is_some() {
            huffman_tree = HuffmanNode::from(None, Some(Box::new(huffman_tree)), None);
        }
        huffman_tree.assign_binary(Vec::new());
        huffman_tree
    }

    /// Lists all nodes of this tree in preorder, each element carrying its
    /// whole subtree.
    pub fn preorder_nodes(&self) -> (r: Vec<HuffmanNode>)
        ensures
            models(r@) == preorder(self@),
        decreases *self,
    {
        let mut out: Vec<HuffmanNode> = Vec::new();
        out.push(clone_tree(self));
        let ghost first = out@;
        proof {
            assert(models(first) =~= seq![self@]);
        }
        match &self.left {
            Some(l) => {
                let mut lv = l.preorder_nodes();
                out.append(&mut lv);
            }
            None => {}
        }
        let ghost with_left = models(out@);
        proof {
            match self@.left {
                Some(lm) => {
                    assert(with_left =~= seq![self@] + preorder(*lm));
                }
                None => {
                    assert(with_left =~= seq![self@] + Seq::<NodeModel>::empty());
                }
            }
        }
        match &self.right {
            Some(r) => {
                let mut rv = r.preorder_nodes();
                out.append(&mut rv);
            }
            None => {}
        }
        proof {
            match self@.right {
                Some(rm) => {
                    assert(models(out@) =~= with_left + preorder(*rm));
                }
                None => {
                    assert(models(out@) =~= with_left + Seq::<NodeModel>::empty());
                }
            }
            assert(models(out@) =~= preorder(self@));
        }
        out
    }

    /// Adds the children's frequencies onto this node's own.
    fn calc_freq(&mut self)
        requires
            old(self).frequency + child_frequency(child_model(old(self).left))
                + child_frequency(child_model(old(self).right)) <= usize::MAX,
        ensures
            final(self)@ == (NodeModel {
                frequency: (old(self).frequency + child_frequency(child_model(old(self).left))
                    + child_frequency(child_model(old(self).right))) as nat,
                ..old(self)@
            }),
    {
        let left_freq: usize = match &self.left {
            Some(l) => l.frequency,
            None => 0,
        };
        let right_freq: usize = match &self.right {
            Some(r) => r.frequency,
            None => 0,
        };
        self.frequency = self.frequency + left_freq + right_freq;
    }
}

/// Serializes a preorder node list into the tree section: one length byte
/// (three bytes per node) followed by each node's record.  Fails when the
/// records would not fit the one-byte length field.
pub fn create_byte_vec_from(huffman_node_vec: Vec<HuffmanNode>) -> (r: Result<
    Vec<u8>,
    HuffmanToVecError,
>)
    ensures
        (match r {
            Ok(bytes) => 3 * huffman_node_vec@.len() <= 255 && bytes@ == seq![
                (3 * huffman_node_vec@.len()) as u8,
            ] + records_of(models(huffman_node_vec@)),
            Err(_) => 3 * huffman_node_vec@.len() > 255,
        }),
{
    let n = huffman_node_vec.len();
    if n > 85 {
        return Err(HuffmanToVecError);
    }
    let mut info_to_write: Vec<u8> = Vec::new();
    info_to_write.push((3 * n) as u8);
    let mut i: usize = 0;
    while i < n
        invariant
            i <= n,
            n == huffman_node_vec@.len(),
            n <= 85,
            info_to_write@ == seq![(3 * n) as u8] + records_of(
                models(huffman_node_vec@.take(i as int)),
            ),
        decreases n - i,
    {
        let node = &huffman_node_vec[i];
        match node.value {
            Some(v) => {
                info_to_write.push(0xFF);
                info_to_write.push(v);
            }
            None => {
                info_to_write.push(0x00);
                info_to_write.push(0x00);
            }
        }
        let depth = node.binary.len() % 256;
        info_to_write.push(depth as u8);
        proof {
            let m = node_model(huffman_node_vec@[i as int]);
            assert(huffman_node_vec@.take(i + 1) =~= huffman_node_vec@.take(i as int).push(
                huffman_node_vec@[i as int]));
            lemma_models_push(huffman_node_vec@.take(i as int), huffman_node_vec@[i as int]);
            lemma_records_push(models(huffman_node_vec@.take(i as int)), m);
            assert(info_to_write@ =~= seq![(3 * n) as u8] + records_of(
                models(huffman_node_vec@.take(i + 1))));
        }
        i = i + 1;
    }
    proof {
        assert(huffman_node_vec@.take(n as int) =~= huffman_node_vec@);
    }
    Ok(info_to_write)
}

} // verus!
