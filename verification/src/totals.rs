//! How counts over several nodes behave when the nodes are joined, reordered,
//! removed or replaced.

use crate::model::{field_sum, forest_total, Field, Measure, NodeView};
use vstd::prelude::*;

verus! {

/// Counting two groups together is adding their counts.
pub proof fn lemma_forest_total_add(a: Seq<NodeView>, b: Seq<NodeView>, m: Measure)
    ensures
        forest_total(a + b, m) == forest_total(a, m) + forest_total(b, m),
    decreases b.len(),
{
    if b.len() == 0 {
        assert(a + b =~= a);
    } else {
        lemma_forest_total_add(a, b.drop_last(), m);
        assert((a + b).drop_last() =~= a + b.drop_last());
    }
}

/// Summing a field over two groups is adding their sums.
pub proof fn lemma_field_sum_add(a: Seq<NodeView>, b: Seq<NodeView>, f: Field)
    ensures
        field_sum(a + b, f) == field_sum(a, f) + field_sum(b, f),
    decreases b.len(),
{
    if b.len() == 0 {
        assert(a + b =~= a);
    } else {
        lemma_field_sum_add(a, b.drop_last(), f);
        assert((a + b).drop_last() =~= a + b.drop_last());
    }
}

/// One node alone counts for itself.
pub proof fn lemma_single(node: NodeView, m: Measure, f: Field)
    ensures
        forest_total(seq![node], m) == node.total(m),
        field_sum(seq![node], f) == node.field(f),
{
    let one = seq![node];
    assert(one.drop_last() =~= Seq::<NodeView>::empty());
    assert(forest_total(one.drop_last(), m) == 0);
    assert(field_sum(one.drop_last(), f) == 0);
}

/// A count splits into that of one node and that of the others.
pub proof fn lemma_split_one(nodes: Seq<NodeView>, i: int, m: Measure, f: Field)
    requires
        0 <= i < nodes.len(),
    ensures
        forest_total(nodes, m) == forest_total(nodes.remove(i), m) + nodes[i].total(m),
        field_sum(nodes, f) == field_sum(nodes.remove(i), f) + nodes[i].field(f),
{
    let before = nodes.take(i);
    let one = seq![nodes[i]];
    let after = nodes.skip(i + 1);
    assert(nodes =~= before + one + after);
    assert(nodes.remove(i) =~= before + after);
    lemma_single(nodes[i], m, f);
    lemma_forest_total_add(before, one, m);
    lemma_forest_total_add(before + one, after, m);
    lemma_forest_total_add(before, after, m);
    lemma_field_sum_add(before, one, f);
    lemma_field_sum_add(before + one, after, f);
    lemma_field_sum_add(before, after, f);
}

/// Replacing a node exchanges its part of a count.
pub proof fn lemma_replace_one(nodes: Seq<NodeView>, i: int, node: NodeView, m: Measure, f: Field)
    requires
        0 <= i < nodes.len(),
    ensures
        forest_total(nodes.update(i, node), m) + nodes[i].total(m) == forest_total(nodes, m)
            + node.total(m),
        field_sum(nodes.update(i, node), f) + nodes[i].field(f) == field_sum(nodes, f)
            + node.field(f),
{
    let new = nodes.update(i, node);
    assert(new.remove(i) =~= nodes.remove(i));
    lemma_split_one(nodes, i, m, f);
    lemma_split_one(new, i, m, f);
}

/// Reordering nodes changes no count.
pub proof fn lemma_reordered(a: Seq<NodeView>, b: Seq<NodeView>, m: Measure, f: Field)
    requires
        a.to_multiset() == b.to_multiset(),
    ensures
        forest_total(a, m) == forest_total(b, m),
        field_sum(a, f) == field_sum(b, f),
    decreases a.len(),
{
    broadcast use vstd::seq_lib::group_to_multiset_ensures;

    assert(a.len() == a.to_multiset().len() == b.to_multiset().len());
    if a.len() > 0 {
        let x = a.last();
        assert(a.contains(x));
        assert(b.to_multiset().count(x) > 0);
        let j = choose|j: int| 0 <= j < b.len() && b[j] == x;
        let rest = a.drop_last();
        assert(rest =~= a.remove(a.len() - 1));
        assert(rest.to_multiset() =~= b.remove(j).to_multiset());
        lemma_reordered(rest, b.remove(j), m, f);
        lemma_split_one(b, j, m, f);
    }
}

} // verus!
