//! Extension statistics: how many bytes the files of each extension take.

use crate::extension::{bucket_of, ext_bucket};
use crate::laws::{law_kept_counts_are_totals, law_tree_counts_what_it_holds};
use crate::model::{forest_total, Field, Measure, NodeView};
use crate::order::{
    heaviest_first, law_heavier_items_stand_before, sort_heaviest_first, Weighed,
};
use crate::strmap::{lists, StrMap};
use crate::totals::{lemma_forest_total_add, lemma_reordered, lemma_single};
use crate::tree::{lemma_children_view, views, FileNode};
use vstd::prelude::*;

verus! {

/// The bytes recorded for a bucket.
pub open spec fn bytes_in(m: Map<Seq<char>, u64>, bucket: Seq<char>) -> nat {
    if m.contains_key(bucket) {
        m[bucket] as nat
    } else {
        0
    }
}

/// Whether `after` records what `before` did and the files of `nodes` on top: a
/// bucket is there if it was there or one of the files falls into it, and holds
/// the bytes of those files more.
pub open spec fn gained(
    before: Map<Seq<char>, u64>,
    after: Map<Seq<char>, u64>,
    nodes: Seq<NodeView>,
) -> bool {
    forall|b: Seq<char>|
        #![trigger after.contains_key(b)]
        #![trigger bytes_in(after, b)]
        {
            &&& after.contains_key(b) <==> before.contains_key(b) || forest_total(
                nodes,
                Measure::FilesIn(b),
            ) > 0
            &&& bytes_in(after, b) == bytes_in(before, b) + forest_total(nodes, Measure::BytesIn(b))
        }
}

/// Whether no bucket would hold more bytes than can be recorded.
pub open spec fn room_for(m: Map<Seq<char>, u64>, nodes: Seq<NodeView>) -> bool {
    forall|b: Seq<char>| #[trigger]
        bytes_in(m, b) + forest_total(nodes, Measure::BytesIn(b)) <= u64::MAX
}

/// Records `bytes` more for a bucket.
pub fn add_bytes(map: &mut StrMap<u64>, bucket: Box<str>, bytes: u64)
    requires
        bytes_in(old(map)@, bucket@) + bytes <= u64::MAX,
    ensures
        final(map)@ == old(map)@.insert(bucket@, (bytes_in(old(map)@, bucket@) + bytes) as u64),
{
    let so_far: u64 = match map.get(&bucket) {
        Some(n) => *n,
        None => 0,
    };
    map.insert(bucket, so_far + bytes);
}

/// Recording one file is recording the bytes of that file in its bucket.
pub proof fn lemma_gained_one(
    before: Map<Seq<char>, u64>,
    after: Map<Seq<char>, u64>,
    file: NodeView,
)
    requires
        !file.is_dir,
        file.children.len() == 0,
        ({
            let bucket = bucket_of(file.name);
            &&& bytes_in(before, bucket) + file.size <= u64::MAX
            &&& after == before.insert(bucket, (bytes_in(before, bucket) + file.size) as u64)
        }),
    ensures
        gained(before, after, seq![file]),
{
    assert forall|b: Seq<char>|
        #![trigger after.contains_key(b)]
        #![trigger bytes_in(after, b)]
        {
            &&& after.contains_key(b) <==> before.contains_key(b) || forest_total(
                seq![file],
                Measure::FilesIn(b),
            ) > 0
            &&& bytes_in(after, b) == bytes_in(before, b) + forest_total(
                seq![file],
                Measure::BytesIn(b),
            )
        } by {
        lemma_single(file, Measure::FilesIn(b), Field::Size);
        lemma_single(file, Measure::BytesIn(b), Field::Size);
        assert(forest_total(file.children, Measure::FilesIn(b)) == 0);
        assert(forest_total(file.children, Measure::BytesIn(b)) == 0);
    }
}

/// Recording one group of files and then another is recording both.
pub proof fn lemma_gained_more(
    before: Map<Seq<char>, u64>,
    between: Map<Seq<char>, u64>,
    after: Map<Seq<char>, u64>,
    first: Seq<NodeView>,
    second: Seq<NodeView>,
)
    requires
        gained(before, between, first),
        gained(between, after, second),
    ensures
        gained(before, after, first + second),
{
    assert forall|b: Seq<char>|
        #![trigger after.contains_key(b)]
        #![trigger bytes_in(after, b)]
        {
            &&& after.contains_key(b) <==> before.contains_key(b) || forest_total(
                first + second,
                Measure::FilesIn(b),
            ) > 0
            &&& bytes_in(after, b) == bytes_in(before, b) + forest_total(
                first + second,
                Measure::BytesIn(b),
            )
        } by {
        lemma_forest_total_add(first, second, Measure::FilesIn(b));
        lemma_forest_total_add(first, second, Measure::BytesIn(b));
        assert(between.contains_key(b) <==> before.contains_key(b) || forest_total(
            first,
            Measure::FilesIn(b),
        ) > 0);
        assert(bytes_in(between, b) == bytes_in(before, b) + forest_total(
            first,
            Measure::BytesIn(b),
        ));
    }
}

/// Recording nothing changes nothing.
pub proof fn lemma_gained_none(m: Map<Seq<char>, u64>)
    ensures
        gained(m, m, Seq::<NodeView>::empty()),
{
}

/// Whether two groups of nodes hold the same files as far as buckets go.
pub open spec fn same_buckets(a: Seq<NodeView>, b: Seq<NodeView>) -> bool {
    forall|bucket: Seq<char>|
        #![trigger forest_total(b, Measure::FilesIn(bucket))]
        #![trigger forest_total(b, Measure::BytesIn(bucket))]
        {
            &&& forest_total(a, Measure::FilesIn(bucket)) == forest_total(
                b,
                Measure::FilesIn(bucket),
            )
            &&& forest_total(a, Measure::BytesIn(bucket)) == forest_total(
                b,
                Measure::BytesIn(bucket),
            )
        }
}

/// A node without what lies below it.
pub open spec fn alone(node: NodeView) -> NodeView {
    NodeView { children: Seq::empty(), ..node }
}

/// A node holds the file that it is, and the files below it.
pub proof fn lemma_node_is_itself_and_children(node: NodeView)
    ensures
        same_buckets(seq![alone(node)] + node.children, seq![node]),
        node.is_dir ==> same_buckets(node.children, seq![node]),
{
    assert forall|bucket: Seq<char>|
        #![trigger forest_total(seq![node], Measure::FilesIn(bucket))]
        #![trigger forest_total(seq![node], Measure::BytesIn(bucket))]
        {
            &&& forest_total(seq![alone(node)] + node.children, Measure::FilesIn(bucket))
                == forest_total(seq![node], Measure::FilesIn(bucket))
            &&& forest_total(seq![alone(node)] + node.children, Measure::BytesIn(bucket))
                == forest_total(seq![node], Measure::BytesIn(bucket))
            &&& node.is_dir ==> forest_total(node.children, Measure::FilesIn(bucket))
                == forest_total(seq![node], Measure::FilesIn(bucket))
            &&& node.is_dir ==> forest_total(node.children, Measure::BytesIn(bucket))
                == forest_total(seq![node], Measure::BytesIn(bucket))
        } by {
        lemma_forest_total_add(seq![alone(node)], node.children, Measure::FilesIn(bucket));
        lemma_forest_total_add(seq![alone(node)], node.children, Measure::BytesIn(bucket));
        lemma_single(alone(node), Measure::FilesIn(bucket), Field::Size);
        lemma_single(alone(node), Measure::BytesIn(bucket), Field::Size);
        lemma_single(node, Measure::FilesIn(bucket), Field::Size);
        lemma_single(node, Measure::BytesIn(bucket), Field::Size);
        assert(forest_total(alone(node).children, Measure::FilesIn(bucket)) == 0);
        assert(forest_total(alone(node).children, Measure::BytesIn(bucket)) == 0);
    }
}

/// A part of a group fits wherever the group does.
pub proof fn lemma_room_for_part(
    before: Map<Seq<char>, u64>,
    between: Map<Seq<char>, u64>,
    first: Seq<NodeView>,
    second: Seq<NodeView>,
)
    requires
        room_for(before, first + second),
        gained(before, between, first),
    ensures
        room_for(between, second),
{
    assert forall|b: Seq<char>| #[trigger]
        bytes_in(between, b) + forest_total(second, Measure::BytesIn(b)) <= u64::MAX by {
        lemma_forest_total_add(first, second, Measure::BytesIn(b));
        assert(bytes_in(before, b) + forest_total(first + second, Measure::BytesIn(b))
            <= u64::MAX);
    }
}

/// Adds the files of a node and of everything below it to the record.
pub fn collect_extensions(node: &FileNode, map: &mut StrMap<u64>)
    requires
        room_for(old(map)@, seq![node@]),
    ensures
        gained(old(map)@, final(map)@, seq![node@]),
    decreases node,
{
    broadcast use lemma_children_view;

    let ghost start = map@;
    let ghost kids = views(node.children@);
    let ghost own: Seq<NodeView> = if node.is_dir {
        Seq::empty()
    } else {
        seq![alone(node@)]
    };
    proof {
        lemma_node_is_itself_and_children(node@);
        assert(own + kids =~= if node.is_dir {
            kids
        } else {
            seq![alone(node@)] + kids
        });
        assert(same_buckets(own + kids, seq![node@]));
        assert(room_for(start, own + kids)) by {
            assert forall|b: Seq<char>| #[trigger]
                bytes_in(start, b) + forest_total(own + kids, Measure::BytesIn(b))
                    <= u64::MAX by {
                assert(bytes_in(start, b) + forest_total(seq![node@], Measure::BytesIn(b))
                    <= u64::MAX);
            }
        }
    }
    if !node.is_dir {
        let bucket: Box<str> = ext_bucket(&node.name);
        proof {
            lemma_forest_total_add(own, kids, Measure::BytesIn(bucket@));
            lemma_single(alone(node@), Measure::BytesIn(bucket@), Field::Size);
            assert(bytes_in(start, bucket@) + forest_total(
                own + kids,
                Measure::BytesIn(bucket@),
            ) <= u64::MAX);
        }
        add_bytes(map, bucket, node.size);
        proof {
            lemma_gained_one(start, map@, alone(node@));
        }
    } else {
        proof {
            lemma_gained_none(start);
        }
    }
    let mut i: usize = 0;
    assert(own + kids.take(0) =~= own);
    while i < node.children.len()
        invariant
            i <= node.children@.len(),
            kids == views(node.children@),
            room_for(start, own + kids),
            gained(start, map@, own + kids.take(i as int)),
        decreases node.children@.len() - i,
    {
        let ghost done = own + kids.take(i as int);
        let ghost one = seq![kids[i as int]];
        let ghost before = map@;
        proof {
            assert(own + kids =~= done + (one + kids.skip(i + 1)));
            lemma_room_for_part(start, before, done, one + kids.skip(i + 1));
            assert forall|b: Seq<char>| #[trigger]
                bytes_in(before, b) + forest_total(one, Measure::BytesIn(b)) <= u64::MAX by {
                lemma_forest_total_add(one, kids.skip(i + 1), Measure::BytesIn(b));
                assert(bytes_in(before, b) + forest_total(
                    one + kids.skip(i + 1),
                    Measure::BytesIn(b),
                ) <= u64::MAX);
            }
        }
        collect_extensions(&node.children[i], map);
        proof {
            lemma_gained_more(start, before, map@, done, one);
            assert(own + kids.take(i + 1) =~= done + one);
        }
        i = i + 1;
    }
    proof {
        assert(kids.take(kids.len() as int) =~= kids);
        assert forall|b: Seq<char>|
            #![trigger map@.contains_key(b)]
            #![trigger bytes_in(map@, b)]
            {
                &&& map@.contains_key(b) <==> start.contains_key(b) || forest_total(
                    seq![node@],
                    Measure::FilesIn(b),
                ) > 0
                &&& bytes_in(map@, b) == bytes_in(start, b) + forest_total(
                    seq![node@],
                    Measure::BytesIn(b),
                )
            } by {
            assert(forest_total(own + kids, Measure::FilesIn(b)) == forest_total(
                seq![node@],
                Measure::FilesIn(b),
            ));
        }
    }
}

impl Weighed for (Box<str>, u64) {
    open spec fn weight_view(&self) -> u64 {
        self.1
    }

    fn weight(&self) -> (r: u64) {
        self.1
    }
}

/// A list stays a list of the same map in any order.
pub proof fn lemma_lists_reordered(
    a: Seq<(Box<str>, u64)>,
    b: Seq<(Box<str>, u64)>,
    m: Map<Seq<char>, u64>,
)
    requires
        lists(a, m),
        a.to_multiset() == b.to_multiset(),
    ensures
        lists(b, m),
{
    broadcast use vstd::seq_lib::group_to_multiset_ensures;

    assert forall|i: int| 0 <= i < b.len() implies m.contains_pair(
        (#[trigger] b[i]).0@,
        b[i].1,
    ) by {
        assert(b.contains(b[i]));
        assert(a.to_multiset().count(b[i]) > 0);
        assert(a.contains(b[i]));
    }
    assert forall|k: Seq<char>| #[trigger] m.contains_key(k) implies exists|i: int|
        0 <= i < b.len() && (#[trigger] b[i]).0@ == k by {
        let j = choose|j: int| 0 <= j < a.len() && (#[trigger] a[j]).0@ == k;
        assert(a.contains(a[j]));
        assert(b.to_multiset().count(a[j]) > 0);
        assert(b.contains(a[j]));
    }
    assert(a.no_duplicates());
    a.lemma_multiset_has_no_duplicates();
    b.lemma_multiset_has_no_duplicates_conv();
    assert forall|i: int, j: int| 0 <= i < j < b.len() implies (#[trigger] b[i]).0@ != (
    #[trigger] b[j]).0@ by {
        assert(m.contains_pair(b[i].0@, b[i].1));
        assert(m.contains_pair(b[j].0@, b[j].1));
        assert(b.contains(b[i]) && b.contains(b[j]));
        assert(a.to_multiset().count(b[i]) > 0 && a.to_multiset().count(b[j]) > 0);
        assert(a.contains(b[i]) && a.contains(b[j]));
        let x = choose|x: int| 0 <= x < a.len() && a[x] == b[i];
        let y = choose|y: int| 0 <= y < a.len() && a[y] == b[j];
        assert(b[i] != b[j]);
        assert(x != y);
    }
}

/// The record as a list, sorted by size descending.
pub fn sorted_extensions(map: StrMap<u64>) -> (r: Vec<(Box<str>, u64)>)
    ensures
        lists(r@, map@),
        heaviest_first(r@),
{
    let mut extensions: Vec<(Box<str>, u64)> = map.into_entries();
    let ghost listed = extensions@;
    sort_heaviest_first(&mut extensions);
    proof {
        lemma_lists_reordered(listed, extensions@, map@);
    }
    extensions
}

/// Whether `extensions` says what the files of a tree take: each bucket that
/// holds a file once, with the bytes of its files, the largest first.
pub open spec fn stats_of_tree(extensions: Seq<(Box<str>, u64)>, root: NodeView) -> bool {
    &&& forall|i: int, j: int|
        0 <= i < j < extensions.len() ==> (#[trigger] extensions[i]).0@ != (
        #[trigger] extensions[j]).0@
    &&& forall|i: int|
        0 <= i < extensions.len() ==> root.total(Measure::FilesIn((#[trigger] extensions[i]).0@))
            > 0 && extensions[i].1 == root.total(Measure::BytesIn(extensions[i].0@))
    &&& forall|b: Seq<char>| #[trigger]
        root.total(Measure::FilesIn(b)) > 0 ==> exists|i: int|
            0 <= i < extensions.len() && (#[trigger] extensions[i]).0@ == b
    &&& heaviest_first(extensions)
}

/// The extension statistics of a tree.
pub fn extensions_of(root: &FileNode) -> (r: Vec<(Box<str>, u64)>)
    requires
        forall|b: Seq<char>| #[trigger] root@.total(Measure::BytesIn(b)) <= u64::MAX,
    ensures
        stats_of_tree(r@, root@),
{
    let mut map: StrMap<u64> = StrMap::new();
    proof {
        assert forall|b: Seq<char>| #[trigger]
            bytes_in(map@, b) + forest_total(seq![root@], Measure::BytesIn(b)) <= u64::MAX by {
            lemma_single(root@, Measure::BytesIn(b), Field::Size);
        }
    }
    collect_extensions(root, &mut map);
    let ghost m = map@;
    let r = sorted_extensions(map);
    proof {
        assert forall|b: Seq<char>|
            #![trigger m.contains_key(b)]
            #![trigger root@.total(Measure::FilesIn(b))]
            {
                &&& m.contains_key(b) <==> root@.total(Measure::FilesIn(b)) > 0
                &&& m.contains_key(b) ==> m[b] == root@.total(Measure::BytesIn(b))
            } by {
            lemma_single(root@, Measure::FilesIn(b), Field::Size);
            lemma_single(root@, Measure::BytesIn(b), Field::Size);
            assert(bytes_in(m, b) == forest_total(seq![root@], Measure::BytesIn(b)));
        }
        assert forall|i: int| 0 <= i < r@.len() implies root@.total(
            Measure::FilesIn((#[trigger] r@[i]).0@),
        ) > 0 && r@[i].1 == root@.total(Measure::BytesIn(r@[i].0@)) by {
            assert(m.contains_pair(r@[i].0@, r@[i].1));
        }
    }
    r
}

/// The bytes recorded for a bucket in several records together.
pub open spec fn all_bytes_in(maps: Seq<Map<Seq<char>, u64>>, bucket: Seq<char>) -> nat
    decreases maps.len(),
{
    if maps.len() == 0 {
        0
    } else {
        all_bytes_in(maps.drop_last(), bucket) + bytes_in(maps.last(), bucket)
    }
}

/// Whether one of several records has a bucket.
pub open spec fn any_has(maps: Seq<Map<Seq<char>, u64>>, bucket: Seq<char>) -> bool {
    exists|i: int| 0 <= i < maps.len() && (#[trigger] maps[i]).contains_key(bucket)
}

/// Whether `extensions` says what several records say together: each bucket
/// once, with its bytes added up, the largest first.
pub open spec fn stats_of_maps(
    extensions: Seq<(Box<str>, u64)>,
    maps: Seq<Map<Seq<char>, u64>>,
) -> bool {
    &&& forall|i: int, j: int|
        0 <= i < j < extensions.len() ==> (#[trigger] extensions[i]).0@ != (
        #[trigger] extensions[j]).0@
    &&& forall|i: int|
        0 <= i < extensions.len() ==> any_has(maps, (#[trigger] extensions[i]).0@)
            && extensions[i].1 == all_bytes_in(maps, extensions[i].0@)
    &&& forall|b: Seq<char>| #[trigger]
        any_has(maps, b) ==> exists|i: int|
            0 <= i < extensions.len() && (#[trigger] extensions[i]).0@ == b
    &&& heaviest_first(extensions)
}

/// Whether a pair for the bucket is among the first `n`.
pub open spec fn listed_before(entries: Seq<(Box<str>, u64)>, n: int, bucket: Seq<char>) -> bool {
    exists|j: int| 0 <= j < n && (#[trigger] entries[j]).0@ == bucket
}

/// Adds one record to another.
pub fn merge_extensions(global: &mut StrMap<u64>, local: StrMap<u64>)
    requires
        forall|b: Seq<char>| #[trigger]
            bytes_in(old(global)@, b) + bytes_in(local@, b) <= u64::MAX,
    ensures
        forall|b: Seq<char>| #[trigger]
            final(global)@.contains_key(b) <==> old(global)@.contains_key(b)
                || local@.contains_key(b),
        forall|b: Seq<char>| #[trigger]
            bytes_in(final(global)@, b) == bytes_in(old(global)@, b) + bytes_in(local@, b),
{
    let ghost start = global@;
    let ghost added = local@;
    let entries: Vec<(Box<str>, u64)> = local.into_entries();
    let ghost pairs = entries@;
    let n: usize = entries.len();
    let mut i: usize = 0;
    for entry in it: entries.into_iter()
        invariant
            it.seq() == pairs,
            i == it.index(),
            lists(pairs, added),
            forall|b: Seq<char>| #[trigger] bytes_in(start, b) + bytes_in(added, b) <= u64::MAX,
            forall|b: Seq<char>| #[trigger]
                global@.contains_key(b) <==> start.contains_key(b) || listed_before(
                    pairs,
                    i as int,
                    b,
                ),
            forall|b: Seq<char>| #[trigger]
                bytes_in(global@, b) == bytes_in(start, b) + (if listed_before(
                    pairs,
                    i as int,
                    b,
                ) {
                    bytes_in(added, b)
                } else {
                    0
                }),
            n == pairs.len(),
    {
        let ghost here = pairs[i as int];
        let ghost before = global@;
        let (bucket, bytes) = entry;
        proof {
            assert(added.contains_pair(here.0@, here.1));
            assert(!listed_before(pairs, i as int, here.0@));
            assert(bytes_in(start, here.0@) + bytes_in(added, here.0@) <= u64::MAX);
        }
        add_bytes(global, bucket, bytes);
        proof {
            assert forall|b: Seq<char>| #[trigger]
                listed_before(pairs, i + 1, b) <==> listed_before(pairs, i as int, b) || b
                    == here.0@ by {
                if listed_before(pairs, i + 1, b) && b != here.0@ {
                    let j = choose|j: int| 0 <= j < i + 1 && (#[trigger] pairs[j]).0@ == b;
                    assert(j < i);
                }
            }
            assert forall|b: Seq<char>| #[trigger]
                bytes_in(global@, b) == bytes_in(start, b) + (if listed_before(
                    pairs,
                    i + 1,
                    b,
                ) {
                    bytes_in(added, b)
                } else {
                    0
                }) by {
                assert(bytes_in(before, b) == bytes_in(start, b) + (if listed_before(
                    pairs,
                    i as int,
                    b,
                ) {
                    bytes_in(added, b)
                } else {
                    0
                }));
            }
        }
        i = i + 1;
    }
    proof {
        assert forall|b: Seq<char>| #[trigger]
            listed_before(pairs, pairs.len() as int, b) <==> added.contains_key(b) by {
            if listed_before(pairs, pairs.len() as int, b) {
                let j = choose|j: int| 0 <= j < pairs.len() && (#[trigger] pairs[j]).0@ == b;
                assert(added.contains_pair(pairs[j].0@, pairs[j].1));
            }
        }
    }
}

/// Takes everything out of a record.
pub fn drain_record(record: &mut StrMap<u64>) -> (r: StrMap<u64>)
    ensures
        r@ == old(record)@,
        final(record)@ == Map::<Seq<char>, u64>::empty(),
{
    let mut drained: StrMap<u64> = StrMap::new();
    std::mem::swap(record, &mut drained);
    drained
}

/// The models of several records.
pub open spec fn map_views(maps: Seq<StrMap<u64>>) -> Seq<Map<Seq<char>, u64>> {
    maps.map_values(|m: StrMap<u64>| m@)
}

/// A part of several records holds no more of a bucket than all of them.
pub proof fn lemma_fewer_maps_hold_less(maps: Seq<Map<Seq<char>, u64>>, n: int, b: Seq<char>)
    requires
        0 <= n <= maps.len(),
    ensures
        all_bytes_in(maps.take(n), b) <= all_bytes_in(maps, b),
    decreases maps.len() - n,
{
    if n < maps.len() {
        lemma_fewer_maps_hold_less(maps, n + 1, b);
        assert(maps.take(n + 1).drop_last() =~= maps.take(n));
    } else {
        assert(maps.take(n) =~= maps);
    }
}

/// The extension statistics that several records give together.
pub fn extensions_of_all(maps: Vec<StrMap<u64>>) -> (r: Vec<(Box<str>, u64)>)
    requires
        forall|b: Seq<char>| #[trigger] all_bytes_in(map_views(maps@), b) <= u64::MAX,
    ensures
        stats_of_maps(r@, map_views(maps@)),
{
    let ghost all = map_views(maps@);
    let ghost held = maps@;
    let n: usize = maps.len();
    let mut global: StrMap<u64> = StrMap::new();
    let mut i: usize = 0;
    for local in it: maps.into_iter()
        invariant
            it.seq() == held,
            i == it.index(),
            n == held.len(),
            all == map_views(held),
            forall|b: Seq<char>| #[trigger] all_bytes_in(all, b) <= u64::MAX,
            forall|b: Seq<char>| #[trigger]
                global@.contains_key(b) <==> any_has(all.take(i as int), b),
            forall|b: Seq<char>| #[trigger]
                bytes_in(global@, b) == all_bytes_in(all.take(i as int), b),
    {
        let ghost before = global@;
        let ghost mine = all[i as int];
        proof {
            assert(all.take(i + 1).drop_last() =~= all.take(i as int));
            assert forall|b: Seq<char>| #[trigger]
                bytes_in(before, b) + bytes_in(mine, b) <= u64::MAX by {
                lemma_fewer_maps_hold_less(all, i + 1, b);
                assert(all_bytes_in(all, b) <= u64::MAX);
                assert(bytes_in(before, b) == all_bytes_in(all.take(i as int), b));
            }
        }
        merge_extensions(&mut global, local);
        proof {
            assert forall|b: Seq<char>| #[trigger]
                global@.contains_key(b) <==> any_has(all.take(i + 1), b) by {
                let shorter = all.take(i as int);
                let longer = all.take(i + 1);
                assert(before.contains_key(b) <==> any_has(shorter, b));
                if any_has(shorter, b) {
                    let j = choose|j: int|
                        0 <= j < shorter.len() && (#[trigger] shorter[j]).contains_key(b);
                    assert(longer[j] == shorter[j]);
                }
                if mine.contains_key(b) {
                    assert(longer[i as int] == mine);
                }
                if any_has(longer, b) && !mine.contains_key(b) {
                    let j = choose|j: int|
                        0 <= j < longer.len() && (#[trigger] longer[j]).contains_key(b);
                    assert(shorter[j] == longer[j]);
                }
            }
            assert forall|b: Seq<char>| #[trigger]
                bytes_in(global@, b) == all_bytes_in(all.take(i + 1), b) by {
                assert(bytes_in(before, b) == all_bytes_in(all.take(i as int), b));
            }
        }
        i = i + 1;
    }
    assert(all.take(n as int) =~= all);
    let ghost m = global@;
    let r = sorted_extensions(global);
    proof {
        assert forall|i: int| 0 <= i < r@.len() implies any_has(all, (#[trigger] r@[i]).0@)
            && r@[i].1 == all_bytes_in(all, r@[i].0@) by {
            assert(m.contains_pair(r@[i].0@, r@[i].1));
            assert(bytes_in(m, r@[i].0@) == all_bytes_in(all, r@[i].0@));
        }
        assert forall|b: Seq<char>| #[trigger] any_has(all, b) implies exists|i: int|
            0 <= i < r@.len() && (#[trigger] r@[i]).0@ == b by {
            assert(m.contains_key(b));
        }
    }
    r
}

/// A bucket takes no more than all files together.
pub proof fn law_bucket_is_part_of_the_whole(node: NodeView, bucket: Seq<char>)
    ensures
        node.total(Measure::BytesIn(bucket)) <= node.total(Measure::Bytes),
        node.total(Measure::FilesIn(bucket)) <= node.total(Measure::Files),
    decreases node,
{
    lemma_bucket_is_part_of_the_forest(node.children, bucket);
}

proof fn lemma_bucket_is_part_of_the_forest(nodes: Seq<NodeView>, bucket: Seq<char>)
    ensures
        forest_total(nodes, Measure::BytesIn(bucket)) <= forest_total(nodes, Measure::Bytes),
        forest_total(nodes, Measure::FilesIn(bucket)) <= forest_total(nodes, Measure::Files),
    decreases nodes,
{
    if nodes.len() > 0 {
        lemma_bucket_is_part_of_the_forest(nodes.drop_last(), bucket);
        law_bucket_is_part_of_the_whole(nodes.last(), bucket);
    }
}

/// The statistics of a tree whose counts are right can always be built: no
/// bucket holds more bytes than the root counts.
pub proof fn law_counted_tree_has_statistics(root: NodeView, bucket: Seq<char>)
    requires
        root.consistent(),
        root.size <= u64::MAX,
    ensures
        root.total(Measure::BytesIn(bucket)) <= u64::MAX,
{
    law_bucket_is_part_of_the_whole(root, bucket);
    law_kept_counts_are_totals(root, Field::Size);
}

/// The files recorded by all threads of a scan, thread by thread.
pub open spec fn all_recorded(groups: Seq<Seq<NodeView>>) -> Seq<NodeView>
    decreases groups.len(),
{
    if groups.len() == 0 {
        Seq::empty()
    } else {
        all_recorded(groups.drop_last()) + groups.last()
    }
}

proof fn lemma_records_add_up(
    maps: Seq<Map<Seq<char>, u64>>,
    groups: Seq<Seq<NodeView>>,
    b: Seq<char>,
)
    requires
        maps.len() == groups.len(),
        forall|k: int|
            0 <= k < maps.len() ==> gained(Map::empty(), #[trigger] maps[k], groups[k]),
    ensures
        all_bytes_in(maps, b) == forest_total(all_recorded(groups), Measure::BytesIn(b)),
        any_has(maps, b) <==> forest_total(all_recorded(groups), Measure::FilesIn(b)) > 0,
    decreases maps.len(),
{
    if maps.len() > 0 {
        let front = maps.drop_last();
        let n = maps.len() - 1;
        assert forall|k: int| 0 <= k < front.len() implies gained(
            Map::empty(),
            #[trigger] front[k],
            groups.drop_last()[k],
        ) by {
            assert(front[k] == maps[k]);
        }
        lemma_records_add_up(front, groups.drop_last(), b);
        assert(gained(Map::empty(), maps[n], groups[n]));
        assert(bytes_in(maps[n], b) == forest_total(groups[n], Measure::BytesIn(b)));
        assert(maps[n].contains_key(b) <==> forest_total(groups[n], Measure::FilesIn(b)) > 0);
        lemma_forest_total_add(
            all_recorded(groups.drop_last()),
            groups.last(),
            Measure::BytesIn(b),
        );
        lemma_forest_total_add(
            all_recorded(groups.drop_last()),
            groups.last(),
            Measure::FilesIn(b),
        );
        if any_has(front, b) {
            let k = choose|k: int| 0 <= k < front.len() && (#[trigger] front[k]).contains_key(b);
            assert(maps[k] == front[k]);
        }
        if any_has(maps, b) && !maps[n].contains_key(b) {
            let k = choose|k: int| 0 <= k < maps.len() && (#[trigger] maps[k]).contains_key(b);
            assert(front[k] == maps[k]);
        }
    }
}

/// A scan and a rebuild agree: where the files that the threads of a scan
/// recorded are, bucket by bucket, the files of the tree, whichever thread
/// recorded which, the statistics that their records give together are the
/// statistics of the tree.
pub proof fn law_scan_and_rebuild_agree(
    extensions: Seq<(Box<str>, u64)>,
    maps: Seq<Map<Seq<char>, u64>>,
    groups: Seq<Seq<NodeView>>,
    root: NodeView,
)
    requires
        stats_of_maps(extensions, maps),
        maps.len() == groups.len(),
        forall|k: int|
            0 <= k < maps.len() ==> gained(Map::empty(), #[trigger] maps[k], groups[k]),
        same_buckets(all_recorded(groups), seq![root]),
    ensures
        stats_of_tree(extensions, root),
{
    assert forall|b: Seq<char>|
        #![trigger any_has(maps, b)]
        #![trigger root.total(Measure::FilesIn(b))]
        {
            &&& any_has(maps, b) <==> root.total(Measure::FilesIn(b)) > 0
            &&& all_bytes_in(maps, b) == root.total(Measure::BytesIn(b))
        } by {
        lemma_records_add_up(maps, groups, b);
        lemma_single(root, Measure::FilesIn(b), Field::Size);
        lemma_single(root, Measure::BytesIn(b), Field::Size);
        assert(forest_total(all_recorded(groups), Measure::FilesIn(b)) == forest_total(
            seq![root],
            Measure::FilesIn(b),
        ));
    }
}

/// The pairs of a list, without their order.
pub open spec fn pairs_of(extensions: Seq<(Box<str>, u64)>) -> Set<(Seq<char>, u64)> {
    Set::new(
        |pair: (Seq<char>, u64)|
            exists|i: int|
                0 <= i < extensions.len() && (#[trigger] extensions[i]).0@ == pair.0
                    && extensions[i].1 == pair.1,
    )
}

/// The statistics of a tree depend on the tree alone: any two lists of them hold
/// the same pairs. (So a second rebuild gives what the first gave; only pairs of
/// equal bytes may change places.)
pub proof fn law_statistics_are_determined(
    a: Seq<(Box<str>, u64)>,
    b: Seq<(Box<str>, u64)>,
    root: NodeView,
)
    requires
        stats_of_tree(a, root),
        stats_of_tree(b, root),
    ensures
        pairs_of(a) == pairs_of(b),
{
    assert forall|pair: (Seq<char>, u64)| #[trigger]
        pairs_of(a).contains(pair) <==> pairs_of(b).contains(pair) by {
        if pairs_of(a).contains(pair) {
            lemma_pair_is_in_both(a, b, root, pair);
        }
        if pairs_of(b).contains(pair) {
            lemma_pair_is_in_both(b, a, root, pair);
        }
    }
    assert(pairs_of(a) =~= pairs_of(b));
}

proof fn lemma_pair_is_in_both(
    a: Seq<(Box<str>, u64)>,
    b: Seq<(Box<str>, u64)>,
    root: NodeView,
    pair: (Seq<char>, u64),
)
    requires
        stats_of_tree(a, root),
        stats_of_tree(b, root),
        pairs_of(a).contains(pair),
    ensures
        pairs_of(b).contains(pair),
{
    let i = choose|i: int|
        0 <= i < a.len() && (#[trigger] a[i]).0@ == pair.0 && a[i].1 == pair.1;
    assert(root.total(Measure::FilesIn(a[i].0@)) > 0);
    let j = choose|j: int| 0 <= j < b.len() && (#[trigger] b[j]).0@ == a[i].0@;
    assert(b[j].1 == a[i].1);
}

/// The bytes of all pairs of a list together.
pub open spec fn listed_bytes(extensions: Seq<(Box<str>, u64)>) -> nat
    decreases extensions.len(),
{
    if extensions.len() == 0 {
        0
    } else {
        listed_bytes(extensions.drop_last()) + extensions.last().1 as nat
    }
}

/// The sum of `f` over some buckets.
spec fn summed(keys: Seq<Seq<char>>, f: spec_fn(Seq<char>) -> nat) -> nat
    decreases keys.len(),
{
    if keys.len() == 0 {
        0
    } else {
        summed(keys.drop_last(), f) + f(keys.last())
    }
}

proof fn lemma_summed_adds(
    keys: Seq<Seq<char>>,
    f: spec_fn(Seq<char>) -> nat,
    g: spec_fn(Seq<char>) -> nat,
    both: spec_fn(Seq<char>) -> nat,
)
    requires
        forall|k: Seq<char>| #[trigger] both(k) == f(k) + g(k),
    ensures
        summed(keys, both) == summed(keys, f) + summed(keys, g),
    decreases keys.len(),
{
    if keys.len() > 0 {
        lemma_summed_adds(keys.drop_last(), f, g, both);
    }
}

/// The own bytes of a node, bucket by bucket, are in its bucket and nowhere else.
proof fn lemma_own_bytes_are_in_one_bucket(keys: Seq<Seq<char>>, node: NodeView)
    requires
        keys.no_duplicates(),
    ensures
        summed(keys, |k: Seq<char>| node.own(Measure::BytesIn(k))) == (if keys.contains(
            bucket_of(node.name),
        ) {
            node.own(Measure::Bytes)
        } else {
            0
        }),
    decreases keys.len(),
{
    if keys.len() > 0 {
        let front = keys.drop_last();
        let bucket = bucket_of(node.name);
        lemma_own_bytes_are_in_one_bucket(front, node);
        if front.contains(bucket) {
            let i = choose|i: int| 0 <= i < front.len() && front[i] == bucket;
            assert(keys[i] == bucket);
            assert(keys[keys.len() - 1] != keys[i]);
        } else if keys.contains(bucket) {
            let i = choose|i: int| 0 <= i < keys.len() && keys[i] == bucket;
            if i < front.len() {
                assert(front[i] == bucket);
            }
        } else {
            assert(keys[keys.len() - 1] != bucket);
        }
    }
}

/// Over buckets that take in all files of a tree, the bytes add up to its bytes.
proof fn lemma_buckets_add_up(keys: Seq<Seq<char>>, node: NodeView)
    requires
        keys.no_duplicates(),
        forall|b: Seq<char>| #[trigger]
            node.total(Measure::FilesIn(b)) > 0 ==> keys.contains(b),
    ensures
        summed(keys, |k: Seq<char>| node.total(Measure::BytesIn(k))) == node.total(Measure::Bytes),
    decreases node,
{
    let own = |k: Seq<char>| node.own(Measure::BytesIn(k));
    let below = |k: Seq<char>| forest_total(node.children, Measure::BytesIn(k));
    let all = |k: Seq<char>| node.total(Measure::BytesIn(k));
    lemma_summed_adds(keys, own, below, all);
    lemma_own_bytes_are_in_one_bucket(keys, node);
    if !node.is_dir {
        assert(node.total(Measure::FilesIn(bucket_of(node.name))) > 0);
    }
    assert forall|b: Seq<char>| #[trigger]
        forest_total(node.children, Measure::FilesIn(b)) > 0 implies keys.contains(b) by {
        assert(node.total(Measure::FilesIn(b)) > 0);
    }
    lemma_forest_buckets_add_up(keys, node.children);
}

proof fn lemma_forest_buckets_add_up(keys: Seq<Seq<char>>, nodes: Seq<NodeView>)
    requires
        keys.no_duplicates(),
        forall|b: Seq<char>| #[trigger]
            forest_total(nodes, Measure::FilesIn(b)) > 0 ==> keys.contains(b),
    ensures
        summed(keys, |k: Seq<char>| forest_total(nodes, Measure::BytesIn(k))) == forest_total(
            nodes,
            Measure::Bytes,
        ),
    decreases nodes,
{
    let all = |k: Seq<char>| forest_total(nodes, Measure::BytesIn(k));
    if nodes.len() == 0 {
        // Everything is zero, and so twice the sum is the sum.
        lemma_summed_adds(keys, all, all, all);
    } else {
        let front = nodes.drop_last();
        let first = |k: Seq<char>| forest_total(front, Measure::BytesIn(k));
        let last = |k: Seq<char>| nodes.last().total(Measure::BytesIn(k));
        assert forall|b: Seq<char>| #[trigger]
            forest_total(front, Measure::FilesIn(b)) > 0 implies keys.contains(b) by {
            assert(forest_total(nodes, Measure::FilesIn(b)) > 0);
        }
        assert forall|b: Seq<char>| #[trigger]
            nodes.last().total(Measure::FilesIn(b)) > 0 implies keys.contains(b) by {
            assert(forest_total(nodes, Measure::FilesIn(b)) > 0);
        }
        lemma_forest_buckets_add_up(keys, front);
        lemma_buckets_add_up(keys, nodes.last());
        lemma_summed_adds(keys, first, last, all);
    }
}

/// The buckets of a list.
spec fn keys_of(extensions: Seq<(Box<str>, u64)>) -> Seq<Seq<char>> {
    extensions.map_values(|e: (Box<str>, u64)| e.0@)
}

proof fn lemma_listed_bytes(extensions: Seq<(Box<str>, u64)>, root: NodeView)
    requires
        forall|i: int|
            0 <= i < extensions.len() ==> (#[trigger] extensions[i]).1 == root.total(
                Measure::BytesIn(extensions[i].0@),
            ),
    ensures
        listed_bytes(extensions) == summed(
            keys_of(extensions),
            |k: Seq<char>| root.total(Measure::BytesIn(k)),
        ),
    decreases extensions.len(),
{
    if extensions.len() > 0 {
        let front = extensions.drop_last();
        assert forall|i: int| 0 <= i < front.len() implies (#[trigger] front[i]).1 == root.total(
            Measure::BytesIn(front[i].0@),
        ) by {
            assert(front[i] == extensions[i]);
        }
        lemma_listed_bytes(front, root);
        assert(keys_of(extensions).drop_last() =~= keys_of(front));
        assert(extensions[extensions.len() - 1] == extensions.last());
    }
}

/// The statistics of a tree add up: their bytes together are the bytes of all
/// its files, and so the size of the root where its counts are right.
pub proof fn law_statistics_add_up(extensions: Seq<(Box<str>, u64)>, root: NodeView)
    requires
        stats_of_tree(extensions, root),
    ensures
        listed_bytes(extensions) == root.total(Measure::Bytes),
        root.consistent() ==> listed_bytes(extensions) == root.size,
{
    let keys = keys_of(extensions);
    assert forall|i: int, j: int|
        0 <= i < keys.len() && 0 <= j < keys.len() && i != j implies keys[i] != keys[j] by {
        assert(extensions[i].0@ != extensions[j].0@);
    }
    assert forall|b: Seq<char>| #[trigger]
        root.total(Measure::FilesIn(b)) > 0 implies keys.contains(b) by {
        let i = choose|i: int| 0 <= i < extensions.len() && (#[trigger] extensions[i]).0@ == b;
        assert(keys[i] == b);
    }
    lemma_listed_bytes(extensions, root);
    lemma_buckets_add_up(keys, root);
    if root.consistent() {
        law_kept_counts_are_totals(root, Field::Size);
    }
}

/// The bytes recorded for a bucket are what the record says of it, or none.
pub proof fn law_recorded_bytes(m: Map<Seq<char>, u64>, bucket: Seq<char>, bytes: u64)
    ensures
        bytes_in(m.insert(bucket, bytes), bucket) == bytes,
        !m.contains_key(bucket) ==> bytes_in(m, bucket) == 0,
        m.contains_key(bucket) ==> bytes_in(m, bucket) == m[bucket],
{
}

/// Recording a file adds its bytes to its bucket, which is there from then on,
/// and changes no other bucket.
pub proof fn law_recording_a_file(
    before: Map<Seq<char>, u64>,
    after: Map<Seq<char>, u64>,
    file: NodeView,
)
    requires
        gained(before, after, seq![file]),
        !file.is_dir,
        file.children.len() == 0,
    ensures
        after.dom() == before.dom().insert(bucket_of(file.name)),
        after[bucket_of(file.name)] == file.size + (if before.contains_key(bucket_of(file.name)) {
            before[bucket_of(file.name)] as int
        } else {
            0
        }),
        forall|b: Seq<char>| #[trigger]
            before.contains_key(b) && b != bucket_of(file.name) ==> after[b] == before[b],
{
    let bucket = bucket_of(file.name);
    assert forall|b: Seq<char>|
        #![trigger after.contains_key(b)]
        #![trigger before.contains_key(b)]
        {
            &&& after.contains_key(b) <==> before.contains_key(b) || b == bucket
            &&& bytes_in(after, b) == bytes_in(before, b) + (if b == bucket {
                file.size
            } else {
                0
            })
        } by {
        lemma_single(file, Measure::FilesIn(b), Field::Size);
        lemma_single(file, Measure::BytesIn(b), Field::Size);
        assert(forest_total(file.children, Measure::FilesIn(b)) == 0);
        assert(forest_total(file.children, Measure::BytesIn(b)) == 0);
        assert(bytes_in(after, b) == bytes_in(before, b) + forest_total(
            seq![file],
            Measure::BytesIn(b),
        ));
    }
    assert(after.dom() =~= before.dom().insert(bucket));
    assert(after.contains_key(bucket));
}

/// A record is determined by what it was and by the files recorded, and does not
/// depend on their order.
pub proof fn law_record_is_determined(
    before: Map<Seq<char>, u64>,
    one: Map<Seq<char>, u64>,
    other: Map<Seq<char>, u64>,
    nodes: Seq<NodeView>,
    reordered: Seq<NodeView>,
)
    requires
        gained(before, one, nodes),
        gained(before, other, reordered),
        nodes.to_multiset() == reordered.to_multiset(),
    ensures
        one == other,
{
    assert forall|b: Seq<char>|
        #![trigger one.contains_key(b)]
        #![trigger other.contains_key(b)]
        {
            &&& one.contains_key(b) <==> other.contains_key(b)
            &&& one.contains_key(b) ==> one[b] == other[b]
        } by {
        lemma_reordered(nodes, reordered, Measure::FilesIn(b), Field::Size);
        lemma_reordered(nodes, reordered, Measure::BytesIn(b), Field::Size);
        assert(bytes_in(one, b) == bytes_in(before, b) + forest_total(nodes, Measure::BytesIn(b)));
        assert(bytes_in(other, b) == bytes_in(before, b) + forest_total(
            reordered,
            Measure::BytesIn(b),
        ));
    }
    assert(one =~= other);
}

/// The statistics of a tree name a bucket exactly when a file of the tree falls
/// into it, name it once, give the bytes of its files, and put larger buckets
/// before smaller ones.
pub proof fn law_statistics_name_every_bucket(
    extensions: Seq<(Box<str>, u64)>,
    root: NodeView,
    bucket: Seq<char>,
)
    requires
        stats_of_tree(extensions, root),
    ensures
        root.total(Measure::FilesIn(bucket)) > 0 <==> exists|i: int|
            0 <= i < extensions.len() && (#[trigger] extensions[i]).0@ == bucket,
        forall|i: int|
            0 <= i < extensions.len() && (#[trigger] extensions[i]).0@ == bucket ==> extensions[i].1
                == root.total(Measure::BytesIn(bucket)),
        forall|i: int, j: int|
            0 <= i < extensions.len() && 0 <= j < extensions.len() && (
            #[trigger] extensions[i]).0@ == (#[trigger] extensions[j]).0@ ==> i == j,
        forall|i: int, j: int|
            0 <= i < extensions.len() && 0 <= j < extensions.len() && (
            #[trigger] extensions[i]).1 > (#[trigger] extensions[j]).1 ==> i < j,
{
    assert forall|i: int, j: int|
        0 <= i < extensions.len() && 0 <= j < extensions.len() && (#[trigger] extensions[i]).1 > (
        #[trigger] extensions[j]).1 implies i < j by {
        law_heavier_items_stand_before(extensions, i, j);
    }
}

/// Every file counts: wherever in the tree it lies, its bucket is in the
/// statistics of the tree, with its bytes at least.
pub proof fn law_every_file_is_in_the_statistics(
    extensions: Seq<(Box<str>, u64)>,
    root: NodeView,
    path: Seq<usize>,
)
    requires
        stats_of_tree(extensions, root),
        root.node_at(path) is Some,
        !root.node_at(path).unwrap().is_dir,
    ensures
        ({
            let file = root.node_at(path).unwrap();
            exists|i: int|
                0 <= i < extensions.len() && (#[trigger] extensions[i]).0@ == bucket_of(file.name)
                    && extensions[i].1 >= file.size
        }),
{
    let file = root.node_at(path).unwrap();
    let bucket = bucket_of(file.name);
    law_tree_counts_what_it_holds(root, path, Measure::FilesIn(bucket));
    law_tree_counts_what_it_holds(root, path, Measure::BytesIn(bucket));
    assert(root.total(Measure::FilesIn(bucket)) > 0);
    let i = choose|i: int| 0 <= i < extensions.len() && (#[trigger] extensions[i]).0@ == bucket;
    assert(extensions[i].1 == root.total(Measure::BytesIn(bucket)));
}

/// What several records hold of a bucket grows by what one more holds, and they
/// have it when one of them has.
pub proof fn law_records_go_one_by_one(
    maps: Seq<Map<Seq<char>, u64>>,
    m: Map<Seq<char>, u64>,
    bucket: Seq<char>,
)
    ensures
        all_bytes_in(Seq::<Map<Seq<char>, u64>>::empty(), bucket) == 0,
        m.contains_key(bucket) ==> all_bytes_in(maps.push(m), bucket) == all_bytes_in(
            maps,
            bucket,
        ) + m[bucket],
        !m.contains_key(bucket) ==> all_bytes_in(maps.push(m), bucket) == all_bytes_in(
            maps,
            bucket,
        ),
        any_has(maps.push(m), bucket) <==> any_has(maps, bucket) || m.contains_key(bucket),
        !any_has(Seq::<Map<Seq<char>, u64>>::empty(), bucket),
{
    let more = maps.push(m);
    assert(more.drop_last() =~= maps);
    if any_has(maps, bucket) {
        let k = choose|k: int| 0 <= k < maps.len() && (#[trigger] maps[k]).contains_key(bucket);
        assert(more[k] == maps[k]);
    }
    if m.contains_key(bucket) {
        assert(more[maps.len() as int] == m);
    }
    if any_has(more, bucket) && !m.contains_key(bucket) {
        let k = choose|k: int| 0 <= k < more.len() && (#[trigger] more[k]).contains_key(bucket);
        assert(maps[k] == more[k]);
    }
}

/// The statistics of several records name a bucket exactly when one of the
/// records has it, name it once, give its bytes in all of them together, and put
/// larger buckets before smaller ones.
pub proof fn law_merged_statistics_name_every_bucket(
    extensions: Seq<(Box<str>, u64)>,
    maps: Seq<Map<Seq<char>, u64>>,
    bucket: Seq<char>,
)
    requires
        stats_of_maps(extensions, maps),
    ensures
        (exists|k: int| 0 <= k < maps.len() && (#[trigger] maps[k]).contains_key(bucket))
            <==> exists|i: int|
            0 <= i < extensions.len() && (#[trigger] extensions[i]).0@ == bucket,
        forall|i: int|
            0 <= i < extensions.len() && (#[trigger] extensions[i]).0@ == bucket ==> extensions[i].1
                == all_bytes_in(maps, bucket),
        forall|i: int, j: int|
            0 <= i < extensions.len() && 0 <= j < extensions.len() && (
            #[trigger] extensions[i]).0@ == (#[trigger] extensions[j]).0@ ==> i == j,
        forall|i: int, j: int|
            0 <= i < extensions.len() && 0 <= j < extensions.len() && (
            #[trigger] extensions[i]).1 > (#[trigger] extensions[j]).1 ==> i < j,
{
    assert(any_has(maps, bucket) <==> exists|k: int|
        0 <= k < maps.len() && (#[trigger] maps[k]).contains_key(bucket));
    assert forall|i: int, j: int|
        0 <= i < extensions.len() && 0 <= j < extensions.len() && (#[trigger] extensions[i]).1 > (
        #[trigger] extensions[j]).1 implies i < j by {
        law_heavier_items_stand_before(extensions, i, j);
    }
}

/// Several records are seen as they are, in their order.
pub proof fn law_records_are_seen_as_they_are(maps: Seq<StrMap<u64>>, i: int)
    ensures
        map_views(maps).len() == maps.len(),
        0 <= i < maps.len() ==> map_views(maps)[i] == maps[i]@,
{
}

/// A list of pairs grows by one pair and its bytes.
pub proof fn law_lists_go_pair_by_pair(extensions: Seq<(Box<str>, u64)>, pair: (Box<str>, u64))
    ensures
        listed_bytes(extensions.push(pair)) == listed_bytes(extensions) + pair.1,
        extensions.len() == 0 ==> listed_bytes(extensions) == 0,
        pairs_of(extensions.push(pair)) == pairs_of(extensions).insert((pair.0@, pair.1)),
        extensions.len() == 0 ==> pairs_of(extensions) == Set::<(Seq<char>, u64)>::empty(),
{
    let more = extensions.push(pair);
    assert(more.drop_last() =~= extensions);
    assert forall|p: (Seq<char>, u64)| #[trigger]
        pairs_of(more).contains(p) <==> pairs_of(extensions).insert((pair.0@, pair.1)).contains(
            p,
        ) by {
        if pairs_of(extensions).contains(p) {
            let i = choose|i: int|
                0 <= i < extensions.len() && (#[trigger] extensions[i]).0@ == p.0
                    && extensions[i].1 == p.1;
            assert(more[i] == extensions[i]);
        }
        if p == (pair.0@, pair.1) {
            assert(more[extensions.len() as int] == pair);
        }
        if pairs_of(more).contains(p) && p != (pair.0@, pair.1) {
            let i = choose|i: int|
                0 <= i < more.len() && (#[trigger] more[i]).0@ == p.0 && more[i].1 == p.1;
            assert(extensions[i] == more[i]);
        }
    }
    assert(pairs_of(more) =~= pairs_of(extensions).insert((pair.0@, pair.1)));
    if extensions.len() == 0 {
        assert(pairs_of(extensions) =~= Set::<(Seq<char>, u64)>::empty());
    }
}

} // verus!
