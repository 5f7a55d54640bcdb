//! Laws of a scan as a whole: what holds of the tree and of the statistics that
//! come out of visiting directory after directory.

use crate::laws::{law_kept_counts_are_totals, lemma_kept_sums_are_totals};
use crate::listing::{are_nodes_of, dirs_among, files_among, holds, is_node_of, DirEntry};
use crate::model::{all_consistent, field_sum, forest_total, Field, Measure, NodeView};
use crate::scan::ScanView;
use crate::scan_laws::{
    after_looks, enters, law_building_loses_nothing, law_built_counts_are_right,
    law_built_tree_is_sorted, law_distinct_directories_are_entered,
    law_no_directory_is_entered_twice, law_visited_only_grows, sorted_throughout, Look,
};
use crate::stats::{
    all_recorded, gained, law_scan_and_rebuild_agree, law_statistics_add_up,
    law_statistics_are_determined, listed_bytes, pairs_of, same_buckets, stats_of_maps,
    stats_of_tree,
};
use crate::totals::{lemma_forest_total_add, lemma_reordered, lemma_single};
use vstd::prelude::*;

verus! {

/// The visit of a directory by a scan.
pub ghost struct Visit {
    /// What the file system listed.
    pub entries: Seq<DirEntry>,
    /// The nodes made of the files, whose extensions were recorded.
    pub files: Seq<NodeView>,
    /// The visits of the subdirectories that were entered.
    pub below: Seq<Visit>,
    /// The node that came out.
    pub node: NodeView,
    /// The identity of the directory, where it is known.
    pub ident: Option<(u64, u64)>,
    /// Where the directory lies in the Data volume.
    pub data_rel: Option<Seq<char>>,
    /// The place of the look by which the directory was entered, among all looks
    /// of the scan. (The scan's root was entered without one.)
    pub place: int,
    /// The places of the looks at its subdirectories, in the order of their
    /// entries.
    pub looked: Seq<int>,
}

/// The nodes that came out of several visits.
pub open spec fn nodes_of(visits: Seq<Visit>) -> Seq<NodeView> {
    visits.map_values(|v: Visit| v.node)
}

impl Visit {
    /// Whether the visit went as visits go: the entries were split, the
    /// subdirectories visited, and the node built of both.
    pub open spec fn sound(self) -> bool
        decreases self,
    {
        &&& are_nodes_of(self.files, files_among(self.entries))
        &&& forall|i: int| 0 <= i < self.below.len() ==> (#[trigger] self.below[i]).sound()
        &&& holds(self.node, self.files, nodes_of(self.below))
        &&& self.node.size == field_sum(self.files, Field::Size) + field_sum(
            nodes_of(self.below),
            Field::Size,
        )
        &&& self.node.file_count == field_sum(self.files, Field::FileCount) + field_sum(
            nodes_of(self.below),
            Field::FileCount,
        )
    }

    /// Whether the visit went by the decisions of the scan. The threads of a scan
    /// look at one subdirectory at a time; `looks` are their looks in the order
    /// in which they came, from the state `start` on. Each subdirectory that is
    /// listed was looked at, and those that were admitted, and no others, were
    /// visited, in the order of their entries and under their names.
    pub open spec fn follows(self, start: ScanView, looks: Seq<Look>) -> bool
        decreases self,
    {
        let admitted = self.looked.filter(|p: int| enters(start, looks, p));
        &&& self.looked.len() == dirs_among(self.entries).len()
        &&& forall|i: int|
            0 <= i < self.looked.len() ==> {
                let p = #[trigger] self.looked[i];
                &&& 0 <= p < looks.len()
                &&& looks[p].name == dirs_among(self.entries)[i].name@
                &&& looks[p].parent_rel == self.data_rel
            }
        &&& self.below.len() == admitted.len()
        &&& forall|i: int|
            0 <= i < self.below.len() ==> {
                let child = #[trigger] self.below[i];
                let look = looks[child.place];
                &&& child.place == admitted[i]
                &&& child.ident == look.ident
                &&& child.data_rel == start.data_rel(look.name, look.ident, look.parent_rel)
                &&& child.node.name == look.name
                &&& child.follows(start, looks)
            }
    }

    /// The places of the looks by which the directories below were entered.
    pub open spec fn places_below(self) -> Seq<int>
        decreases self,
    {
        all_places(self.below)
    }

    /// The identities of the directories below.
    pub open spec fn identities_below(self) -> Seq<Option<(u64, u64)>>
        decreases self,
    {
        all_identities(self.below)
    }

    /// The identities of all directories of the tree, one for each.
    pub open spec fn identities(self) -> Seq<Option<(u64, u64)>> {
        seq![self.ident] + self.identities_below()
    }

    /// Whether this is the visit of the root of a scan that began in the state
    /// `initial`: the root was claimed first, and each look was a look at one
    /// directory.
    pub open spec fn is_whole_scan(self, initial: ScanView, looks: Seq<Look>) -> bool {
        &&& self.sound()
        &&& self.data_rel == initial.data_rel(Seq::empty(), self.ident, None)
        &&& self.follows(initial.claimed(self.ident), looks)
        &&& self.places_below().no_duplicates()
    }

    /// The files whose extensions were recorded, here and below.
    pub open spec fn recorded(self) -> Seq<NodeView>
        decreases self,
    {
        self.files + all_recorded_in(self.below)
    }
}

/// The files whose extensions were recorded in several visits.
pub open spec fn all_recorded_in(visits: Seq<Visit>) -> Seq<NodeView>
    decreases visits,
{
    if visits.len() == 0 {
        Seq::empty()
    } else {
        all_recorded_in(visits.drop_last()) + visits.last().recorded()
    }
}

/// The places of the looks by which the directories of several visits were
/// entered.
pub open spec fn all_places(visits: Seq<Visit>) -> Seq<int>
    decreases visits,
{
    if visits.len() == 0 {
        Seq::empty()
    } else {
        all_places(visits.drop_last()) + (seq![visits.last().place] + visits.last().places_below())
    }
}

/// The identities of the directories of several visits.
pub open spec fn all_identities(visits: Seq<Visit>) -> Seq<Option<(u64, u64)>>
    decreases visits,
{
    if visits.len() == 0 {
        Seq::empty()
    } else {
        all_identities(visits.drop_last()) + (seq![visits.last().ident]
            + visits.last().identities_below())
    }
}

proof fn lemma_listed_files_count_one_each(files: Seq<NodeView>, entries: Seq<DirEntry>)
    requires
        are_nodes_of(files, entries),
    ensures
        all_consistent(files),
        field_sum(files, Field::DirCount) == 0,
    decreases files.len(),
{
    if files.len() > 0 {
        let front = files.drop_last();
        assert forall|i: int| 0 <= i < front.len() implies is_node_of(
            #[trigger] front[i],
            entries.drop_last()[i],
        ) by {
            assert(front[i] == files[i]);
        }
        lemma_listed_files_count_one_each(front, entries.drop_last());
        assert(files.last() == files[files.len() - 1]);
        assert forall|i: int| 0 <= i < files.len() implies (
        #[trigger] files[i]).consistent() by {}
    }
}

/// The counts of a scanned tree are right throughout, however deep it is.
pub proof fn law_scanned_counts_are_right(visit: Visit)
    requires
        visit.sound(),
    ensures
        visit.node.consistent(),
    decreases visit,
{
    let dirs = nodes_of(visit.below);
    lemma_listed_files_count_one_each(visit.files, files_among(visit.entries));
    assert forall|i: int| 0 <= i < dirs.len() implies (#[trigger] dirs[i]).consistent() by {
        law_scanned_counts_are_right(visit.below[i]);
    }
    law_built_counts_are_right(visit.node, visit.files, dirs);
}

/// In a scanned tree no child comes before a larger one, however deep.
pub proof fn law_scanned_tree_is_sorted(visit: Visit)
    requires
        visit.sound(),
    ensures
        sorted_throughout(visit.node),
    decreases visit,
{
    let dirs = nodes_of(visit.below);
    assert forall|i: int| 0 <= i < dirs.len() implies sorted_throughout(#[trigger] dirs[i]) by {
        law_scanned_tree_is_sorted(visit.below[i]);
    }
    law_built_tree_is_sorted(visit.node, visit.files, dirs);
}

/// A scan records exactly the files that end up in its tree.
pub proof fn law_scan_records_the_tree(visit: Visit)
    requires
        visit.sound(),
    ensures
        same_buckets(visit.recorded(), seq![visit.node]),
{
    assert forall|b: Seq<char>|
        #![trigger forest_total(seq![visit.node], Measure::FilesIn(b))]
        #![trigger forest_total(seq![visit.node], Measure::BytesIn(b))]
        {
            &&& forest_total(visit.recorded(), Measure::FilesIn(b)) == forest_total(
                seq![visit.node],
                Measure::FilesIn(b),
            )
            &&& forest_total(visit.recorded(), Measure::BytesIn(b)) == forest_total(
                seq![visit.node],
                Measure::BytesIn(b),
            )
        } by {
        lemma_recorded(visit, Measure::FilesIn(b));
        lemma_recorded(visit, Measure::BytesIn(b));
        lemma_single(visit.node, Measure::FilesIn(b), Field::Size);
        lemma_single(visit.node, Measure::BytesIn(b), Field::Size);
    }
}

proof fn lemma_recorded(visit: Visit, m: Measure)
    requires
        visit.sound(),
        m !is Dirs,
    ensures
        forest_total(visit.recorded(), m) == visit.node.total(m),
    decreases visit,
{
    lemma_all_recorded(visit.below, m);
    lemma_forest_total_add(visit.files, all_recorded_in(visit.below), m);
    law_building_loses_nothing(visit.node, visit.files, nodes_of(visit.below), m);
}

proof fn lemma_all_recorded(visits: Seq<Visit>, m: Measure)
    requires
        forall|i: int| 0 <= i < visits.len() ==> (#[trigger] visits[i]).sound(),
        m !is Dirs,
    ensures
        forest_total(all_recorded_in(visits), m) == forest_total(nodes_of(visits), m),
    decreases visits,
{
    if visits.len() > 0 {
        let front = visits.drop_last();
        assert forall|i: int| 0 <= i < front.len() implies (#[trigger] front[i]).sound() by {
            assert(front[i] == visits[i]);
        }
        assert(visits[visits.len() - 1] == visits.last());
        lemma_all_recorded(front, m);
        lemma_recorded(visits.last(), m);
        lemma_forest_total_add(all_recorded_in(front), visits.last().recorded(), m);
        assert(nodes_of(visits).drop_last() =~= nodes_of(front));
    }
}

/// The statistics of a scan are those of its tree: whichever thread recorded
/// which of the files, the records together give the pairs that a rebuild from
/// the tree gives, each bucket once, the largest first, and their bytes add up
/// to the size of the root.
pub proof fn law_scan_statistics_are_those_of_the_tree(
    visit: Visit,
    extensions: Seq<(Box<str>, u64)>,
    maps: Seq<Map<Seq<char>, u64>>,
    groups: Seq<Seq<NodeView>>,
)
    requires
        visit.sound(),
        maps.len() == groups.len(),
        forall|k: int|
            0 <= k < maps.len() ==> gained(Map::empty(), #[trigger] maps[k], groups[k]),
        all_recorded(groups).to_multiset() == visit.recorded().to_multiset(),
        stats_of_maps(extensions, maps),
    ensures
        stats_of_tree(extensions, visit.node),
        listed_bytes(extensions) == visit.node.size,
        forall|rebuilt: Seq<(Box<str>, u64)>| #[trigger]
            stats_of_tree(rebuilt, visit.node) ==> pairs_of(rebuilt) == pairs_of(extensions),
{
    law_scan_records_the_tree(visit);
    assert forall|b: Seq<char>|
        #![trigger forest_total(seq![visit.node], Measure::FilesIn(b))]
        #![trigger forest_total(seq![visit.node], Measure::BytesIn(b))]
        {
            &&& forest_total(all_recorded(groups), Measure::FilesIn(b)) == forest_total(
                seq![visit.node],
                Measure::FilesIn(b),
            )
            &&& forest_total(all_recorded(groups), Measure::BytesIn(b)) == forest_total(
                seq![visit.node],
                Measure::BytesIn(b),
            )
        } by {
        lemma_reordered(
            all_recorded(groups),
            visit.recorded(),
            Measure::FilesIn(b),
            Field::Size,
        );
        lemma_reordered(
            all_recorded(groups),
            visit.recorded(),
            Measure::BytesIn(b),
            Field::Size,
        );
        assert(forest_total(visit.recorded(), Measure::FilesIn(b)) == forest_total(
            seq![visit.node],
            Measure::FilesIn(b),
        ));
    }
    law_scan_and_rebuild_agree(extensions, maps, groups, visit.node);
    law_scanned_counts_are_right(visit);
    law_statistics_add_up(extensions, visit.node);
    assert forall|rebuilt: Seq<(Box<str>, u64)>| #[trigger]
        stats_of_tree(rebuilt, visit.node) implies pairs_of(rebuilt) == pairs_of(extensions) by {
        law_statistics_are_determined(rebuilt, extensions, visit.node);
    }
}

/// What was said of a place: a look there entered a directory of that identity.
spec fn entered_at(
    start: ScanView,
    looks: Seq<Look>,
    place: int,
    ident: Option<(u64, u64)>,
) -> bool {
    &&& 0 <= place < looks.len()
    &&& looks[place].ident == ident
    &&& enters(start, looks, place)
}

/// What a filter keeps was there and meets the condition.
proof fn lemma_filtered(places: Seq<int>, keep: spec_fn(int) -> bool, i: int)
    requires
        0 <= i < places.filter(keep).len(),
    ensures
        places.contains(places.filter(keep)[i]),
        keep(places.filter(keep)[i]),
{
    broadcast use vstd::seq_lib::group_filter_ensures;

    assert(places.filter(keep).contains(places.filter(keep)[i]));
    places.lemma_filter_contains_rev(keep, places.filter(keep)[i]);
}

proof fn lemma_entered(visit: Visit, start: ScanView, looks: Seq<Look>)
    requires
        visit.follows(start, looks),
    ensures
        visit.places_below().len() == visit.identities_below().len(),
        forall|i: int|
            #![trigger visit.places_below()[i]]
            0 <= i < visit.places_below().len() ==> entered_at(
                start,
                looks,
                visit.places_below()[i],
                visit.identities_below()[i],
            ),
    decreases visit,
{
    assert forall|i: int| 0 <= i < visit.below.len() implies {
        &&& (#[trigger] visit.below[i]).follows(start, looks)
        &&& entered_at(start, looks, visit.below[i].place, visit.below[i].ident)
    } by {
        let keep = |p: int| enters(start, looks, p);
        lemma_filtered(visit.looked, keep, i);
        let p = visit.below[i].place;
        let k = choose|k: int| 0 <= k < visit.looked.len() && visit.looked[k] == p;
        assert(0 <= visit.looked[k] < looks.len());
    }
    lemma_all_entered(visit.below, start, looks);
}

proof fn lemma_all_entered(visits: Seq<Visit>, start: ScanView, looks: Seq<Look>)
    requires
        forall|i: int|
            0 <= i < visits.len() ==> {
                &&& (#[trigger] visits[i]).follows(start, looks)
                &&& entered_at(start, looks, visits[i].place, visits[i].ident)
            },
    ensures
        all_places(visits).len() == all_identities(visits).len(),
        forall|i: int|
            #![trigger all_places(visits)[i]]
            0 <= i < all_places(visits).len() ==> entered_at(
                start,
                looks,
                all_places(visits)[i],
                all_identities(visits)[i],
            ),
    decreases visits,
{
    if visits.len() > 0 {
        let front = visits.drop_last();
        let last = visits.last();
        assert forall|i: int| 0 <= i < front.len() implies {
            &&& (#[trigger] front[i]).follows(start, looks)
            &&& entered_at(start, looks, front[i].place, front[i].ident)
        } by {
            assert(front[i] == visits[i]);
        }
        assert(visits[visits.len() - 1] == last);
        lemma_all_entered(front, start, looks);
        lemma_entered(last, start, looks);
        let n = all_places(front).len() as int;
        assert forall|i: int|
            #![trigger all_places(visits)[i]]
            0 <= i < all_places(visits).len() implies entered_at(
            start,
            looks,
            all_places(visits)[i],
            all_identities(visits)[i],
        ) by {
            if i < n {
                assert(all_places(visits)[i] == all_places(front)[i]);
                assert(all_identities(visits)[i] == all_identities(front)[i]);
            } else if i > n {
                assert(all_places(visits)[i] == last.places_below()[i - n - 1]);
                assert(all_identities(visits)[i] == last.identities_below()[i - n - 1]);
            }
        }
    }
}

/// No directory is in a scanned tree twice: of all its directories, the root
/// among them, no two have one known identity.
pub proof fn law_no_directory_has_two_nodes(
    visit: Visit,
    initial: ScanView,
    looks: Seq<Look>,
    i: int,
    j: int,
)
    requires
        visit.is_whole_scan(initial, looks),
        0 <= i < j < visit.identities().len(),
        visit.identities()[i] is Some,
    ensures
        visit.identities()[i] != visit.identities()[j],
{
    let start = initial.claimed(visit.ident);
    let places = visit.places_below();
    lemma_entered(visit, start, looks);
    let q = places[j - 1];
    assert(entered_at(start, looks, q, visit.identities()[j]));
    if i == 0 {
        law_visited_only_grows(start, looks.take(q), 0);
        assert(looks.take(q).take(0) =~= Seq::<Look>::empty());
        assert(after_looks(start, looks.take(q).take(0)) == start);
        assert(start.visited.contains(visit.ident.unwrap()));
    } else {
        let p = places[i - 1];
        assert(entered_at(start, looks, p, visit.identities()[i]));
        assert(p != q);
        if visit.identities()[i] == visit.identities()[j] {
            if p < q {
                law_no_directory_is_entered_twice(start, looks, p, q);
            } else {
                law_no_directory_is_entered_twice(start, looks, q, p);
            }
        }
    }
}

/// No mirror of something that the scan covers elsewhere is in a scanned tree.
pub proof fn law_no_mirror_has_a_node(visit: Visit, start: ScanView, looks: Seq<Look>, i: int)
    requires
        visit.follows(start, looks),
        0 <= i < visit.below.len(),
    ensures
        !start.prunes(visit.below[i].data_rel),
{
    let keep = |p: int| enters(start, looks, p);
    lemma_filtered(visit.looked, keep, i);
    let p = visit.below[i].place;
    law_visited_only_grows(start, looks.take(p), 0);
}

/// A scanned tree has one directory node for each directory that the scan
/// entered, the root among them, and counts them so.
pub proof fn law_every_entered_directory_has_one_node(visit: Visit)
    requires
        visit.sound(),
    ensures
        visit.node.total(Measure::Dirs) == visit.identities().len(),
        visit.node.dir_count == visit.identities().len(),
{
    lemma_directories(visit);
    law_scanned_counts_are_right(visit);
    law_kept_counts_are_totals(visit.node, Field::DirCount);
}

proof fn lemma_directories(visit: Visit)
    requires
        visit.sound(),
    ensures
        visit.node.total(Measure::Dirs) == visit.identities_below().len() + 1,
    decreases visit,
{
    lemma_all_directories(visit.below);
    lemma_listed_files_count_one_each(visit.files, files_among(visit.entries));
    lemma_kept_sums_are_totals(visit.files, Field::DirCount);
    law_building_loses_nothing(visit.node, visit.files, nodes_of(visit.below), Measure::Dirs);
}

proof fn lemma_all_directories(visits: Seq<Visit>)
    requires
        forall|i: int| 0 <= i < visits.len() ==> (#[trigger] visits[i]).sound(),
    ensures
        forest_total(nodes_of(visits), Measure::Dirs) == all_identities(visits).len(),
    decreases visits,
{
    if visits.len() > 0 {
        let front = visits.drop_last();
        assert forall|i: int| 0 <= i < front.len() implies (#[trigger] front[i]).sound() by {
            assert(front[i] == visits[i]);
        }
        assert(visits[visits.len() - 1] == visits.last());
        lemma_all_directories(front);
        lemma_directories(visits.last());
        assert(nodes_of(visits).drop_last() =~= nodes_of(front));
    }
}

proof fn lemma_filter_keeps_all(places: Seq<int>, keep: spec_fn(int) -> bool)
    requires
        forall|i: int| 0 <= i < places.len() ==> keep(#[trigger] places[i]),
    ensures
        places.filter(keep) == places,
    decreases places.len(),
{
    reveal(Seq::filter);
    if places.len() > 0 {
        let front = places.drop_last();
        assert forall|i: int| 0 <= i < front.len() implies keep(#[trigger] front[i]) by {
            assert(front[i] == places[i]);
        }
        lemma_filter_keeps_all(front, keep);
        assert(keep(places[places.len() - 1]));
        assert(front.push(places.last()) =~= places);
    }
}

/// Distinct directories are all in the tree: where none is a mirror to be left
/// out, and no known identity comes up twice, every subdirectory that is listed
/// has its node, in the order of the entries and under its name.
pub proof fn law_distinct_directories_have_nodes(visit: Visit, start: ScanView, looks: Seq<Look>)
    requires
        visit.follows(start, looks),
        forall|k: int|
            0 <= k < looks.len() ==> !start.prunes(
                start.data_rel(
                    (#[trigger] looks[k]).name,
                    looks[k].ident,
                    looks[k].parent_rel,
                ),
            ),
        forall|k: int| 0 <= k < looks.len() ==> start.claimable((#[trigger] looks[k]).ident),
        forall|k: int, l: int|
            0 <= k < l < looks.len() && looks[l].ident is Some ==> (#[trigger] looks[k]).ident
                != (#[trigger] looks[l]).ident,
    ensures
        visit.below.len() == dirs_among(visit.entries).len(),
        forall|i: int|
            0 <= i < visit.below.len() ==> (#[trigger] visit.below[i]).node.name == dirs_among(
                visit.entries,
            )[i].name@,
{
    let keep = |p: int| enters(start, looks, p);
    assert forall|i: int| 0 <= i < visit.looked.len() implies keep(
        #[trigger] visit.looked[i],
    ) by {
        let p = visit.looked[i];
        assert(start.claimable(looks[p].ident));
        law_distinct_directories_are_entered(start, looks, p);
    }
    lemma_filter_keeps_all(visit.looked, keep);
    assert forall|i: int| 0 <= i < visit.below.len() implies (
    #[trigger] visit.below[i]).node.name == dirs_among(visit.entries)[i].name@ by {
        assert(visit.below[i].place == visit.looked[i]);
    }
}

} // verus!
