//! Laws of the file tree: what its counts mean, how paths compose, and what
//! removing a node does to the rest.

use crate::extension::bucket_of;
use crate::model::{
    all_consistent, field_sum, forest_total, measure_of, minus, Amounts, Field, Measure, NodeView,
};
use crate::totals::{lemma_replace_one, lemma_split_one};
use crate::tree::upper_chain;
use vstd::prelude::*;

verus! {

/// Where the counts kept in a tree are right step by step, each of them is the
/// count over all files and directories below the node: its size is the bytes
/// of its files, its file count their number, its directory count the number of
/// directories, itself among them.
pub proof fn law_kept_counts_are_totals(node: NodeView, f: Field)
    requires
        node.consistent(),
    ensures
        node.field(f) == node.total(measure_of(f)),
    decreases node,
{
    if node.is_dir {
        lemma_kept_sums_are_totals(node.children, f);
    } else {
        assert(forest_total(node.children, measure_of(f)) == 0);
    }
}

/// What several nodes keep adds up to the counts over all that lies below them.
pub proof fn lemma_kept_sums_are_totals(nodes: Seq<NodeView>, f: Field)
    requires
        all_consistent(nodes),
    ensures
        field_sum(nodes, f) == forest_total(nodes, measure_of(f)),
    decreases nodes,
{
    if nodes.len() > 0 {
        let front = nodes.drop_last();
        assert(all_consistent(front)) by {
            assert forall|i: int| 0 <= i < front.len() implies (
            #[trigger] front[i]).consistent() by {
                assert(front[i] == nodes[i]);
            }
        }
        lemma_kept_sums_are_totals(front, f);
        assert(nodes.last() == nodes[nodes.len() - 1]);
        law_kept_counts_are_totals(nodes.last(), f);
    }
}

/// Following one path and then another is following the two in a row.
pub proof fn law_paths_compose(node: NodeView, first: Seq<usize>, second: Seq<usize>)
    ensures
        node.node_at(first + second) == (match node.node_at(first) {
            Some(below) => below.node_at(second),
            None => None,
        }),
    decreases first.len(),
{
    let path = first + second;
    if first.len() == 0 {
        assert(path =~= second);
    } else {
        assert(path.drop_first() =~= first.drop_first() + second);
        if first[0] < node.children.len() {
            law_paths_compose(node.children[first[0] as int], first.drop_first(), second);
        }
    }
}

/// Removing a node from a tree whose counts are right leaves them right, and
/// every ancestor counts exactly that much less.
pub proof fn law_removal_keeps_counts_right(node: NodeView, path: Seq<usize>)
    requires
        node.consistent(),
        path.len() > 0,
        node.node_at(path) is Some,
    ensures
        node.removed(path).consistent(),
        node.node_at(path).unwrap().consistent(),
        forall|f: Field| #[trigger]
            node.removed(path).field(f) + node.node_at(path).unwrap().field(f) == node.field(f),
    decreases path.len(),
{
    let i = path[0] as int;
    let child = node.children[i];
    let gone = node.node_at(path).unwrap();
    let after = node.removed(path);
    let rest = path.drop_first();
    assert(child.consistent());
    if path.len() == 1 {
        assert(gone == child);
        assert forall|f: Field| #[trigger] after.field(f) + gone.field(f) == node.field(f) by {
            lemma_split_one(node.children, i, measure_of(f), f);
            assert(node.field(f) == field_sum(node.children, f) + (if f is DirCount {
                1nat
            } else {
                0nat
            }));
        }
        assert forall|f: Field| #[trigger]
            after.field(f) == field_sum(after.children, f) + (if f is DirCount {
                1nat
            } else {
                0nat
            }) by {
            assert(after.field(f) + gone.field(f) == node.field(f));
            lemma_split_one(node.children, i, measure_of(f), f);
            assert(node.field(f) == field_sum(node.children, f) + (if f is DirCount {
                1nat
            } else {
                0nat
            }));
        }
        assert forall|j: int| 0 <= j < after.children.len() implies (
        #[trigger] after.children[j]).consistent() by {
            let k = if j < i {
                j
            } else {
                j + 1
            };
            assert(after.children[j] == node.children[k]);
        }
    } else {
        law_removal_keeps_counts_right(child, rest);
        let smaller = child.removed(rest);
        assert forall|f: Field| #[trigger] after.field(f) + gone.field(f) == node.field(f) by {
            lemma_split_one(node.children, i, measure_of(f), f);
            assert(smaller.field(f) + gone.field(f) == child.field(f));
            assert(node.field(f) == field_sum(node.children, f) + (if f is DirCount {
                1nat
            } else {
                0nat
            }));
        }
        assert forall|f: Field| #[trigger]
            after.field(f) == field_sum(after.children, f) + (if f is DirCount {
                1nat
            } else {
                0nat
            }) by {
            assert(after.field(f) + gone.field(f) == node.field(f));
            assert(smaller.field(f) + gone.field(f) == child.field(f));
            lemma_replace_one(node.children, i, smaller, measure_of(f), f);
            assert(node.field(f) == field_sum(node.children, f) + (if f is DirCount {
                1nat
            } else {
                0nat
            }));
        }
        assert forall|j: int| 0 <= j < after.children.len() implies (
        #[trigger] after.children[j]).consistent() by {
            if j != i {
                assert(after.children[j] == node.children[j]);
            }
        }
    }
}

/// Whether no node from this one down to the parent at the end of `path` changes
/// what it adds to a count by itself when its own counts are reduced. (A
/// directory never does; a file does when it loses bytes.)
pub open spec fn keeps_own(node: NodeView, path: Seq<usize>, by: Amounts, m: Measure) -> bool
    decreases path.len(),
{
    path.len() > 0 ==> {
        &&& node.reduced(by).own(m) == node.own(m)
        &&& path[0] < node.children.len() ==> keeps_own(
            node.children[path[0] as int],
            path.drop_first(),
            by,
            m,
        )
    }
}

/// What a removal takes from a tree is the removed subtree, no less and no
/// more: every count over the tree drops by that of the removed node, unless a
/// file among the ancestors loses bytes of its own, and then by more. In a tree
/// whose counts are right no file is an ancestor.
pub proof fn law_removal_takes_the_subtree(node: NodeView, path: Seq<usize>, m: Measure)
    requires
        path.len() > 0,
        node.node_at(path) is Some,
    ensures
        node.removed(path).total(m) + node.node_at(path).unwrap().total(m) <= node.total(m),
        node.removed(path).total(m) + node.node_at(path).unwrap().total(m) == node.total(m)
            <==> keeps_own(node, path, node.node_at(path).unwrap().amounts(), m),
        node.consistent() ==> keeps_own(node, path, node.node_at(path).unwrap().amounts(), m),
    decreases path.len(),
{
    let i = path[0] as int;
    let child = node.children[i];
    let after = node.removed(path);
    let gone = node.node_at(path).unwrap();
    let rest = path.drop_first();
    if path.len() == 1 {
        assert(gone == child);
        lemma_split_one(node.children, i, m, Field::Size);
        assert(keeps_own(child, rest, gone.amounts(), m));
    } else {
        assert(child.node_at(rest) == node.node_at(path));
        law_removal_takes_the_subtree(child, rest, m);
        lemma_replace_one(node.children, i, child.removed(rest), m, Field::Size);
        if node.consistent() {
            assert(child.consistent());
        }
    }
    assert(after.own(m) == node.reduced(gone.amounts()).own(m));
    assert(after.own(m) <= node.own(m));
}

/// Removing a node two or more levels down is taking it from its parent and
/// then reducing the counts of the parent's ancestors by what it counted for.
pub proof fn law_removal_is_detaching_and_reducing(node: NodeView, path: Seq<usize>)
    requires
        path.len() >= 2,
        node.node_at(path) is Some,
    ensures
        node.removed(path) == node.detached(path).reduced_along(
            path.take(path.len() - 2),
            node.node_at(path).unwrap().amounts(),
        ),
    decreases path.len(),
{
    let i = path[0] as int;
    let child = node.children[i];
    let rest = path.drop_first();
    let by = node.node_at(path).unwrap().amounts();
    let chain = path.take(path.len() - 2);
    let mid = node.detached(path);
    assert(child.node_at(rest) == node.node_at(path));
    if path.len() == 2 {
        assert(child.removed(rest) == child.without_child(rest[0] as int));
        assert(child.detached(rest) == child.without_child(rest[0] as int));
    } else {
        law_removal_is_detaching_and_reducing(child, rest);
        assert(chain.drop_first() =~= rest.take(rest.len() - 2));
        assert(mid.children[i] == child.detached(rest));
        assert(mid.reduced_along(chain, by).children =~= node.children.update(
            i,
            child.removed(rest),
        ));
    }
}

/// A removal reaches every ancestor of the removed node, from the root
/// (`k` zero) to the parent, and nothing else: each counts what it counted less
/// what the removed node counted for, keeps its name, kind and place, and keeps
/// all children but the one on the way, which the parent loses.
pub proof fn law_removal_updates_all_ancestors(node: NodeView, path: Seq<usize>, k: int)
    requires
        node.node_at(path) is Some,
        0 <= k < path.len(),
    ensures
        node.node_at(path.take(k)) is Some,
        node.removed(path).node_at(path.take(k)) is Some,
        ({
            let gone = node.node_at(path).unwrap();
            let before = node.node_at(path.take(k)).unwrap();
            let after = node.removed(path).node_at(path.take(k)).unwrap();
            &&& forall|f: Field| #[trigger] after.field(f) == minus(before.field(f), gone.field(f))
            &&& after.size == (if before.size >= gone.size {
                before.size - gone.size
            } else {
                0
            })
            &&& after.file_count == (if before.file_count >= gone.file_count {
                before.file_count - gone.file_count
            } else {
                0
            })
            &&& after.dir_count == (if before.dir_count >= gone.dir_count {
                before.dir_count - gone.dir_count
            } else {
                0
            })
            &&& after.name == before.name
            &&& after.is_dir == before.is_dir
            &&& after.rect == before.rect
            &&& path[k] < before.children.len()
            &&& if k + 1 == path.len() {
                after.children == before.children.remove(path[k] as int)
            } else {
                after.children == before.children.update(
                    path[k] as int,
                    after.children[path[k] as int],
                )
            }
        }),
    decreases path.len(),
{
    let i = path[0] as int;
    let child = node.children[i];
    let rest = path.drop_first();
    if k > 0 {
        assert(path.take(k).drop_first() =~= rest.take(k - 1));
        assert(child.node_at(rest) == node.node_at(path));
        law_removal_updates_all_ancestors(child, rest, k - 1);
    } else {
        assert(path.take(0) =~= Seq::<usize>::empty());
        if path.len() == 1 {
            assert(node.node_at(path) == Some(child));
        }
    }
}

/// A reduction reaches every node along the chain, as far as it can be
/// followed: each counts what it counted less the given amounts.
pub proof fn law_reduction_reaches_the_chain(
    node: NodeView,
    chain: Seq<usize>,
    by: Amounts,
    k: int,
)
    requires
        0 <= k <= chain.len(),
        node.node_at(chain.take(k)) is Some,
    ensures
        node.reduced_along(chain, by).node_at(chain.take(k)) is Some,
        ({
            let before = node.node_at(chain.take(k)).unwrap();
            let after = node.reduced_along(chain, by).node_at(chain.take(k)).unwrap();
            &&& after.size == minus(before.size, by.size)
            &&& after.file_count == minus(before.file_count, by.file_count)
            &&& after.dir_count == minus(before.dir_count, by.dir_count)
        }),
    decreases chain.len(),
{
    if k > 0 {
        assert(chain.take(k).drop_first() =~= chain.drop_first().take(k - 1));
        law_reduction_reaches_the_chain(
            node.children[chain[0] as int],
            chain.drop_first(),
            by,
            k - 1,
        );
    } else {
        assert(chain.take(0) =~= Seq::<usize>::empty());
    }
}

/// Reducing counts moves nothing: every path leads to a node of the same name,
/// kind and place as before, with as many children.
pub proof fn law_reduction_keeps_the_shape(
    node: NodeView,
    chain: Seq<usize>,
    by: Amounts,
    path: Seq<usize>,
)
    ensures
        match (node.node_at(path), node.reduced_along(chain, by).node_at(path)) {
            (Some(a), Some(b)) => a.name == b.name && a.is_dir == b.is_dir && a.rect == b.rect
                && a.children.len() == b.children.len(),
            (None, None) => true,
            _ => false,
        },
    decreases path.len(),
{
    let after = node.reduced_along(chain, by);
    if path.len() > 0 && path[0] < node.children.len() {
        let i = path[0] as int;
        if chain.len() > 0 && chain[0] == path[0] {
            law_reduction_keeps_the_shape(
                node.children[i],
                chain.drop_first(),
                by,
                path.drop_first(),
            );
        } else {
            assert(after.children[i] == node.children[i]);
        }
    }
}

/// A path is followed step by step: the empty path stays at the node, and one
/// index leads to the child of that place, if there is one.
pub proof fn law_paths_go_by_steps(node: NodeView, index: usize)
    ensures
        node.node_at(Seq::<usize>::empty()) == Some(node),
        index < node.children.len() ==> node.node_at(seq![index]) == Some(
            node.children[index as int],
        ),
        index >= node.children.len() ==> node.node_at(seq![index]) is None,
{
    assert(seq![index].drop_first() =~= Seq::<usize>::empty());
    if index < node.children.len() {
        let child = node.children[index as int];
        assert(child.node_at(seq![index].drop_first()) == Some(child));
    }
}

/// A node that loses a child keeps all its other children in order, counts what
/// it counted less what the child counted for, and stays what it is.
pub proof fn law_losing_a_child(node: NodeView, index: int)
    requires
        0 <= index < node.children.len(),
    ensures
        ({
            let after = node.without_child(index);
            let gone = node.children[index];
            &&& after.children == node.children.take(index) + node.children.skip(index + 1)
            &&& after.size == (if node.size >= gone.size {
                node.size - gone.size
            } else {
                0
            })
            &&& after.file_count == (if node.file_count >= gone.file_count {
                node.file_count - gone.file_count
            } else {
                0
            })
            &&& after.dir_count == (if node.dir_count >= gone.dir_count {
                node.dir_count - gone.dir_count
            } else {
                0
            })
            &&& after.name == node.name
            &&& after.is_dir == node.is_dir
            &&& after.rect == node.rect
        }),
{
    assert(node.without_child(index).children =~= node.children.take(index) + node.children.skip(
        index + 1,
    ));
}

/// The counts of a file are right exactly when it counts as one file and no
/// directory and has nothing below it; those of an empty directory when it
/// counts itself and nothing else.
pub proof fn law_right_counts_without_children(node: NodeView)
    requires
        node.children.len() == 0,
    ensures
        !node.is_dir ==> (node.consistent() <==> node.file_count == 1 && node.dir_count == 0),
        node.is_dir ==> (node.consistent() <==> node.size == 0 && node.file_count == 0
            && node.dir_count == 1),
{
    if node.is_dir {
        assert(node.field(Field::Size) == node.size);
        assert(node.field(Field::FileCount) == node.file_count);
        assert(node.field(Field::DirCount) == node.dir_count);
        assert forall|f: Field| field_sum(node.children, f) == 0 by {}
    }
}

/// Giving a directory one more child, and counting what the child counts for,
/// keeps counts right and wrong counts wrong; a file with a child is never right.
pub proof fn law_right_counts_with_one_more_child(node: NodeView, child: NodeView)
    ensures
        ({
            let more = NodeView {
                children: node.children.push(child),
                size: node.size + child.size,
                file_count: node.file_count + child.file_count,
                dir_count: node.dir_count + child.dir_count,
                ..node
            };
            &&& node.is_dir ==> (more.consistent() <==> node.consistent() && child.consistent())
            &&& !node.is_dir ==> !more.consistent()
        }),
{
    let more = NodeView {
        children: node.children.push(child),
        size: node.size + child.size,
        file_count: node.file_count + child.file_count,
        dir_count: node.dir_count + child.dir_count,
        ..node
    };
    assert(more.children.drop_last() =~= node.children);
    assert(more.children.last() == child);
    assert forall|f: Field|
        #![trigger more.field(f)]
        #![trigger node.field(f)]
        {
            &&& more.field(f) == node.field(f) + child.field(f)
            &&& field_sum(more.children, f) == field_sum(node.children, f) + child.field(f)
        } by {}
    if node.is_dir && more.consistent() {
        assert forall|i: int| 0 <= i < node.children.len() implies (
        #[trigger] node.children[i]).consistent() by {
            assert(more.children[i] == node.children[i]);
        }
        assert(more.children[node.children.len() as int].consistent());
        assert forall|f: Field| #[trigger]
            node.field(f) == field_sum(node.children, f) + (if f is DirCount {
                1nat
            } else {
                0nat
            }) by {
            assert(more.field(f) == field_sum(more.children, f) + (if f is DirCount {
                1nat
            } else {
                0nat
            }));
        }
    }
    if node.is_dir && node.consistent() && child.consistent() {
        assert forall|i: int| 0 <= i < more.children.len() implies (
        #[trigger] more.children[i]).consistent() by {
            if i < node.children.len() {
                assert(more.children[i] == node.children[i]);
            }
        }
        assert forall|f: Field| #[trigger]
            more.field(f) == field_sum(more.children, f) + (if f is DirCount {
                1nat
            } else {
                0nat
            }) by {
            assert(node.field(f) == field_sum(node.children, f) + (if f is DirCount {
                1nat
            } else {
                0nat
            }));
        }
    }
}

/// What right counts mean: the size of a tree is the bytes of its files, its
/// file count their number, its directory count the number of its directories.
pub proof fn law_right_counts_mean_totals(node: NodeView)
    requires
        node.consistent(),
    ensures
        node.size == node.total(Measure::Bytes),
        node.file_count == node.total(Measure::Files),
        node.dir_count == node.total(Measure::Dirs),
{
    law_kept_counts_are_totals(node, Field::Size);
    law_kept_counts_are_totals(node, Field::FileCount);
    law_kept_counts_are_totals(node, Field::DirCount);
}

/// What is counted in a tree. A node without children counts for itself: a file
/// for its bytes and as one file, in all and in its bucket alone; a directory as
/// one directory. One more child adds what is counted in the child, whatever
/// the node.
pub proof fn law_totals_go_node_by_node(
    node: NodeView,
    child: NodeView,
    m: Measure,
    bucket: Seq<char>,
)
    ensures
        (NodeView { children: node.children.push(child), ..node }).total(m) == node.total(m)
            + child.total(m),
        node.children.len() == 0 && !node.is_dir ==> {
            &&& node.total(Measure::Bytes) == node.size
            &&& node.total(Measure::Files) == 1
            &&& node.total(Measure::Dirs) == 0
            &&& bucket_of(node.name) == bucket ==> node.total(Measure::BytesIn(bucket))
                == node.size && node.total(Measure::FilesIn(bucket)) == 1
            &&& bucket_of(node.name) != bucket ==> node.total(Measure::BytesIn(bucket)) == 0
                && node.total(Measure::FilesIn(bucket)) == 0
        },
        node.children.len() == 0 && node.is_dir ==> {
            &&& node.total(Measure::Dirs) == 1
            &&& node.total(Measure::Bytes) == 0
            &&& node.total(Measure::Files) == 0
            &&& node.total(Measure::BytesIn(bucket)) == 0
            &&& node.total(Measure::FilesIn(bucket)) == 0
        },
{
    let more = NodeView { children: node.children.push(child), ..node };
    assert(more.children.drop_last() =~= node.children);
    assert(more.own(m) == node.own(m));
    assert(forest_total(more.children, m) == forest_total(node.children, m) + child.total(m));
    if node.children.len() == 0 {
        assert forall|k: Measure| forest_total(node.children, k) == 0 by {}
    }
}

/// The sum of what several nodes keep grows by what one more keeps.
pub proof fn law_kept_sums_go_node_by_node(nodes: Seq<NodeView>, node: NodeView)
    ensures
        field_sum(nodes.push(node), Field::Size) == field_sum(nodes, Field::Size) + node.size,
        field_sum(nodes.push(node), Field::FileCount) == field_sum(nodes, Field::FileCount)
            + node.file_count,
        field_sum(nodes.push(node), Field::DirCount) == field_sum(nodes, Field::DirCount)
            + node.dir_count,
        nodes.len() == 0 ==> field_sum(nodes, Field::Size) == 0 && field_sum(
            nodes,
            Field::FileCount,
        ) == 0 && field_sum(nodes, Field::DirCount) == 0,
{
    assert(nodes.push(node).drop_last() =~= nodes);
}

/// A count over several trees grows by that over one more.
pub proof fn law_counts_go_tree_by_tree(nodes: Seq<NodeView>, node: NodeView, m: Measure)
    ensures
        forest_total(nodes.push(node), m) == forest_total(nodes, m) + node.total(m),
        nodes.len() == 0 ==> forest_total(nodes, m) == 0,
{
    assert(nodes.push(node).drop_last() =~= nodes);
}

/// What is counted at the end of a path is counted in the tree.
pub proof fn law_tree_counts_what_it_holds(node: NodeView, path: Seq<usize>, m: Measure)
    requires
        node.node_at(path) is Some,
    ensures
        node.node_at(path).unwrap().total(m) <= node.total(m),
    decreases path.len(),
{
    if path.len() > 0 {
        let i = path[0] as int;
        law_tree_counts_what_it_holds(node.children[i], path.drop_first(), m);
        lemma_split_one(node.children, i, m, Field::Size);
    }
}

proof fn lemma_reduction_step(node: NodeView, chain: Seq<usize>, by: Amounts, k: int)
    requires
        0 <= k <= chain.len(),
        node.node_at(chain.take(k)) is Some,
    ensures
        node.reduced_along(chain, by).node_at(chain.take(k)) is Some,
        ({
            let before = node.node_at(chain.take(k)).unwrap();
            let after = node.reduced_along(chain, by).node_at(chain.take(k)).unwrap();
            &&& after == (NodeView { children: after.children, ..before.reduced(by) })
            &&& if k < chain.len() && chain[k] < before.children.len() {
                after.children == before.children.update(
                    chain[k] as int,
                    after.children[chain[k] as int],
                )
            } else {
                after.children == before.children
            }
        }),
    decreases chain.len(),
{
    if k > 0 {
        assert(chain.take(k).drop_first() =~= chain.drop_first().take(k - 1));
        lemma_reduction_step(node.children[chain[0] as int], chain.drop_first(), by, k - 1);
    } else {
        assert(chain.take(0) =~= Seq::<usize>::empty());
    }
}

/// How a reduction goes up from the node at `path`. The root, and every ancestor
/// above the node's parent that the path leads to, counts what it counted less
/// the amounts and stays what it is otherwise; of its children only the one on
/// the way changes, and none where the way ends.
pub proof fn law_reduction_goes_up_the_path(
    node: NodeView,
    path: Seq<usize>,
    by: Amounts,
    k: int,
)
    requires
        path.len() > 0,
        k == 0 || 0 < k <= path.len() - 2,
        node.node_at(path.take(k)) is Some,
    ensures
        node.reduced_along(upper_chain(path), by).node_at(path.take(k)) is Some,
        ({
            let before = node.node_at(path.take(k)).unwrap();
            let after = node.reduced_along(upper_chain(path), by).node_at(path.take(k)).unwrap();
            &&& after.size == (if before.size >= by.size {
                before.size - by.size
            } else {
                0
            })
            &&& after.file_count == (if before.file_count >= by.file_count {
                before.file_count - by.file_count
            } else {
                0
            })
            &&& after.dir_count == (if before.dir_count >= by.dir_count {
                before.dir_count - by.dir_count
            } else {
                0
            })
            &&& after.name == before.name
            &&& after.is_dir == before.is_dir
            &&& after.rect == before.rect
            &&& if k < path.len() - 2 && path[k] < before.children.len() {
                after.children == before.children.update(
                    path[k] as int,
                    after.children[path[k] as int],
                )
            } else {
                after.children == before.children
            }
        }),
{
    let chain = upper_chain(path);
    assert(chain.take(k) =~= path.take(k));
    lemma_reduction_step(node, chain, by, k);
}

/// A reduction leaves the parent of the node at `path`, two or more levels down,
/// as it was, with all that lies below it.
pub proof fn law_reduction_leaves_the_parent_alone(node: NodeView, path: Seq<usize>, by: Amounts)
    requires
        path.len() >= 2,
    ensures
        node.reduced_along(upper_chain(path), by).node_at(path.take(path.len() - 1))
            == node.node_at(path.take(path.len() - 1)),
{
    let n = path.len() - 2;
    let after = node.reduced_along(upper_chain(path), by);
    let last = seq![path[n]];
    assert(path.take(n + 1) =~= path.take(n) + last);
    law_paths_compose(node, path.take(n), last);
    law_paths_compose(after, path.take(n), last);
    if node.node_at(path.take(n)) is Some {
        law_reduction_goes_up_the_path(node, path, by, n);
        law_paths_go_by_steps(node.node_at(path.take(n)).unwrap(), path[n]);
        law_paths_go_by_steps(after.node_at(path.take(n)).unwrap(), path[n]);
    } else {
        law_reduction_keeps_the_shape(node, upper_chain(path), by, path.take(n));
    }
}

} // verus!
