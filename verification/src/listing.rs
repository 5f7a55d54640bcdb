//! From the entries of a directory to its node.

use crate::extension::{bucket_of, ext_bucket};
use crate::model::{all_consistent, field_sum, forest_total, Field, Measure, NodeView};
use crate::order::sort_heaviest_first;
use crate::scan_laws::law_built_counts_are_right;
use crate::stats::{add_bytes, bytes_in, gained, lemma_gained_more, lemma_gained_none, lemma_gained_one};
use crate::strmap::StrMap;
use crate::totals::{lemma_field_sum_add, lemma_forest_total_add, lemma_single};
use crate::tree::{lemma_children_view, rect_bits, unplaced, views, FileNode};
use vstd::prelude::*;

verus! {

/// An entry of a directory, as the file system lists it.
pub struct DirEntry {
    pub name: Box<str>,
    pub file_size: u64,
    pub is_dir: bool,
}

/// The entries of a directory, taken apart.
pub struct Listing {
    /// The files, as nodes.
    pub file_nodes: Vec<FileNode>,
    /// The subdirectories.
    pub dir_entries: Vec<DirEntry>,
    /// The bytes of the files.
    pub total_size: u64,
    /// The number of the files.
    pub total_file_count: u64,
}

/// The files among some entries, in order.
pub open spec fn files_among(entries: Seq<DirEntry>) -> Seq<DirEntry> {
    entries.filter(|e: DirEntry| !e.is_dir)
}

/// The directories among some entries, in order.
pub open spec fn dirs_among(entries: Seq<DirEntry>) -> Seq<DirEntry> {
    entries.filter(|e: DirEntry| e.is_dir)
}

/// The bytes of the files among some entries.
pub open spec fn entry_bytes(entries: Seq<DirEntry>) -> nat
    decreases entries.len(),
{
    if entries.len() == 0 {
        0
    } else {
        entry_bytes(entries.drop_last()) + (if entries.last().is_dir {
            0
        } else {
            entries.last().file_size as nat
        })
    }
}

/// The bytes of the files in a bucket among some entries.
pub open spec fn entry_bytes_in(entries: Seq<DirEntry>, bucket: Seq<char>) -> nat
    decreases entries.len(),
{
    if entries.len() == 0 {
        0
    } else {
        entry_bytes_in(entries.drop_last(), bucket) + (if !entries.last().is_dir && bucket_of(
            entries.last().name@,
        ) == bucket {
            entries.last().file_size as nat
        } else {
            0
        })
    }
}

/// Whether `node` is the node of the file that `entry` lists: a leaf that
/// counts as one file, not laid out yet.
pub open spec fn is_node_of(node: NodeView, entry: DirEntry) -> bool {
    &&& node.name == entry.name@
    &&& node.size == entry.file_size
    &&& !node.is_dir
    &&& node.children.len() == 0
    &&& rect_bits(node.rect) == unplaced()
    &&& node.file_count == 1
    &&& node.dir_count == 0
}

/// Whether `nodes` are the nodes of the files that `entries` lists.
pub open spec fn are_nodes_of(nodes: Seq<NodeView>, entries: Seq<DirEntry>) -> bool {
    &&& nodes.len() == entries.len()
    &&& forall|i: int| 0 <= i < nodes.len() ==> is_node_of(#[trigger] nodes[i], entries[i])
}

impl Listing {
    /// Whether the totals are those of the files.
    pub open spec fn adds_up(self) -> bool {
        &&& self.total_size == field_sum(views(self.file_nodes@), Field::Size)
        &&& self.total_file_count == field_sum(views(self.file_nodes@), Field::FileCount)
        &&& field_sum(views(self.file_nodes@), Field::DirCount) == 0
        &&& all_consistent(views(self.file_nodes@))
    }
}

proof fn lemma_fewer_entries_hold_less(entries: Seq<DirEntry>, n: int, bucket: Seq<char>)
    requires
        0 <= n <= entries.len(),
    ensures
        entry_bytes(entries.take(n)) <= entry_bytes(entries),
        entry_bytes_in(entries.take(n), bucket) <= entry_bytes_in(entries, bucket),
    decreases entries.len() - n,
{
    if n < entries.len() {
        lemma_fewer_entries_hold_less(entries, n + 1, bucket);
        assert(entries.take(n + 1).drop_last() =~= entries.take(n));
    } else {
        assert(entries.take(n) =~= entries);
    }
}

/// The node of a file.
fn file_node(name: Box<str>, size: u64) -> (r: FileNode)
    ensures
        r.name == name,
        r.size == size,
        !r.is_dir,
        r.children@.len() == 0,
        rect_bits(r.rect) == unplaced(),
        r.file_count == 1,
        r.dir_count == 0,
{
    FileNode {
        name,
        size,
        is_dir: false,
        children: Vec::new(),
        rect: treemap::Rect::new(),
        file_count: 1,
        dir_count: 0,
    }
}

/// Separates files and directories, and records the extensions of the files.
pub fn split_entries(entries: Vec<DirEntry>, record: &mut StrMap<u64>) -> (r: Listing)
    requires
        entry_bytes(entries@) <= u64::MAX,
        forall|b: Seq<char>| #[trigger]
            bytes_in(old(record)@, b) + entry_bytes_in(entries@, b) <= u64::MAX,
    ensures
        are_nodes_of(views(r.file_nodes@), files_among(entries@)),
        r.dir_entries@ == dirs_among(entries@),
        r.total_size == entry_bytes(entries@),
        r.total_file_count == files_among(entries@).len(),
        r.adds_up(),
        r.file_nodes@.len() + r.dir_entries@.len() == entries@.len(),
        forall|e: DirEntry| #[trigger]
            r.dir_entries@.contains(e) <==> entries@.contains(e) && e.is_dir,
        gained(old(record)@, final(record)@, views(r.file_nodes@)),
{
    let ghost all = entries@;
    let ghost start = record@;
    let n: usize = entries.len();
    let mut file_nodes: Vec<FileNode> = Vec::new();
    let mut dir_entries: Vec<DirEntry> = Vec::new();
    let mut total_size: u64 = 0;
    let mut total_file_count: u64 = 0;
    let mut i: usize = 0;
    proof {
        lemma_gained_none(start);
        assert(views(file_nodes@) =~= Seq::<NodeView>::empty());
        reveal_with_fuel(Seq::filter, 1);
        assert(files_among(all.take(0)) =~= Seq::<DirEntry>::empty());
        assert(dirs_among(all.take(0)) =~= Seq::<DirEntry>::empty());
    }
    for entry in it: entries.into_iter()
        invariant
            it.seq() == all,
            i == it.index(),
            n == all.len(),
            entry_bytes(all) <= u64::MAX,
            forall|b: Seq<char>| #[trigger]
                bytes_in(start, b) + entry_bytes_in(all, b) <= u64::MAX,
            are_nodes_of(views(file_nodes@), files_among(all.take(i as int))),
            dir_entries@ == dirs_among(all.take(i as int)),
            total_size == entry_bytes(all.take(i as int)),
            total_file_count == files_among(all.take(i as int)).len(),
            total_file_count <= i,
            total_size == field_sum(views(file_nodes@), Field::Size),
            total_file_count == field_sum(views(file_nodes@), Field::FileCount),
            field_sum(views(file_nodes@), Field::DirCount) == 0,
            all_consistent(views(file_nodes@)),
            gained(start, record@, views(file_nodes@)),
            forall|b: Seq<char>| #[trigger]
                forest_total(views(file_nodes@), Measure::BytesIn(b)) == entry_bytes_in(
                    all.take(i as int),
                    b,
                ),
    {
        let ghost here = all[i as int];
        let ghost shorter = all.take(i as int);
        let ghost longer = all.take(i + 1);
        let ghost nodes = views(file_nodes@);
        let ghost before = record@;
        proof {
            assert(longer =~= shorter.push(here));
            assert(longer.drop_last() =~= shorter);
            shorter.lemma_filter_push(here, |e: DirEntry| !e.is_dir);
            shorter.lemma_filter_push(here, |e: DirEntry| e.is_dir);
        }
        if entry.is_dir {
            dir_entries.push(entry);
            proof {
                assert forall|b: Seq<char>| #[trigger]
                    forest_total(nodes, Measure::BytesIn(b)) == entry_bytes_in(longer, b) by {
                    assert(forest_total(nodes, Measure::BytesIn(b)) == entry_bytes_in(shorter, b));
                }
            }
        } else {
            let bucket: Box<str> = ext_bucket(&entry.name);
            proof {
                lemma_fewer_entries_hold_less(all, i + 1, bucket@);
                assert(bytes_in(start, bucket@) + entry_bytes_in(all, bucket@) <= u64::MAX);
                assert(bytes_in(before, bucket@) == bytes_in(start, bucket@) + forest_total(
                    nodes,
                    Measure::BytesIn(bucket@),
                ));
                assert(forest_total(nodes, Measure::BytesIn(bucket@)) == entry_bytes_in(
                    shorter,
                    bucket@,
                ));
            }
            total_size = total_size + entry.file_size;
            total_file_count = total_file_count + 1;
            add_bytes(record, bucket, entry.file_size);
            let node: FileNode = file_node(entry.name, entry.file_size);
            let ghost one = node@;
            file_nodes.push(node);
            proof {
                lemma_children_view(node);
                assert(views(file_nodes@) =~= nodes.push(one));
                assert(views(file_nodes@) =~= nodes + seq![one]);
                assert(is_node_of(one, here));
                lemma_gained_one(before, record@, one);
                lemma_gained_more(start, before, record@, nodes, seq![one]);
                assert(views(file_nodes@).drop_last() =~= nodes);
                assert forall|b: Seq<char>| #[trigger]
                    forest_total(views(file_nodes@), Measure::BytesIn(b)) == entry_bytes_in(
                        longer,
                        b,
                    ) by {
                    lemma_forest_total_add(nodes, seq![one], Measure::BytesIn(b));
                    lemma_single(one, Measure::BytesIn(b), Field::Size);
                    assert(forest_total(nodes, Measure::BytesIn(b)) == entry_bytes_in(shorter, b));
                    assert(forest_total(one.children, Measure::BytesIn(b)) == 0);
                }
                assert forall|k: int| 0 <= k < views(file_nodes@).len() implies (
                #[trigger] views(file_nodes@)[k]).consistent() by {
                    if k < nodes.len() {
                        assert(views(file_nodes@)[k] == nodes[k]);
                    }
                }
            }
        }
        i = i + 1;
    }
    assert(all.take(n as int) =~= all);
    proof {
        law_splitting_loses_nothing(all);
    }
    Listing { file_nodes, dir_entries, total_size, total_file_count }
}

/// Reordering nodes is reordering their models.
proof fn lemma_views_reordered(a: Seq<FileNode>, b: Seq<FileNode>)
    requires
        a.to_multiset() == b.to_multiset(),
    ensures
        views(a).to_multiset() == views(b).to_multiset(),
    decreases a.len(),
{
    broadcast use vstd::seq_lib::group_to_multiset_ensures;

    assert(a.len() == a.to_multiset().len() == b.to_multiset().len());
    if a.len() == 0 {
        assert(a =~= b);
    } else {
        let x = a.last();
        assert(a.contains(x));
        assert(b.to_multiset().count(x) > 0);
        let j = choose|j: int| 0 <= j < b.len() && b[j] == x;
        let rest = a.drop_last();
        assert(rest =~= a.remove(a.len() - 1));
        assert(rest.to_multiset() =~= b.remove(j).to_multiset());
        lemma_views_reordered(rest, b.remove(j));
        assert(views(a) =~= views(rest).push(x@));
        assert(views(b) =~= views(b.remove(j)).insert(j, x@));
        assert(views(a).to_multiset() =~= views(b).to_multiset());
    }
}

/// Whether `node` is a directory that holds `files` and `dirs` and counts them:
/// the largest child first, itself counted as a directory, not laid out yet.
pub open spec fn holds(node: NodeView, files: Seq<NodeView>, dirs: Seq<NodeView>) -> bool {
    &&& node.is_dir
    &&& node.children.to_multiset() == (files + dirs).to_multiset()
    &&& forall|i: int, j: int|
        0 <= i < j < node.children.len() ==> (#[trigger] node.children[i]).size >= (
        #[trigger] node.children[j]).size
    &&& node.dir_count == 1 + field_sum(dirs, Field::DirCount)
    &&& rect_bits(node.rect) == unplaced()
}

/// The node of a directory, from its entries and the nodes of those of its
/// subdirectories that were scanned.
pub fn build_node(name: Box<str>, listing: Listing, dir_nodes: Vec<FileNode>) -> (r: FileNode)
    requires
        listing.total_size + field_sum(views(dir_nodes@), Field::Size) <= u64::MAX,
        listing.total_file_count + field_sum(views(dir_nodes@), Field::FileCount) <= u64::MAX,
        field_sum(views(dir_nodes@), Field::DirCount) + 1 <= u64::MAX,
    ensures
        r@.name == name@,
        holds(r@, views(listing.file_nodes@), views(dir_nodes@)),
        r@.children.len() == listing.file_nodes@.len() + dir_nodes@.len(),
        r@.size == listing.total_size + field_sum(views(dir_nodes@), Field::Size),
        r@.file_count == listing.total_file_count + field_sum(views(dir_nodes@), Field::FileCount),
        listing.adds_up() && all_consistent(views(dir_nodes@)) ==> r@.consistent(),
{
    let ghost files = views(listing.file_nodes@);
    let ghost dirs = views(dir_nodes@);
    let mut total_size: u64 = listing.total_size;
    let mut total_file_count: u64 = listing.total_file_count;
    let mut total_dir_count: u64 = 0;
    let mut i: usize = 0;
    while i < dir_nodes.len()
        invariant
            i <= dir_nodes@.len(),
            dirs == views(dir_nodes@),
            listing.total_size + field_sum(dirs, Field::Size) <= u64::MAX,
            listing.total_file_count + field_sum(dirs, Field::FileCount) <= u64::MAX,
            field_sum(dirs, Field::DirCount) + 1 <= u64::MAX,
            total_size == listing.total_size + field_sum(dirs.take(i as int), Field::Size),
            total_file_count == listing.total_file_count + field_sum(
                dirs.take(i as int),
                Field::FileCount,
            ),
            total_dir_count == field_sum(dirs.take(i as int), Field::DirCount),
        decreases dir_nodes@.len() - i,
    {
        let child: &FileNode = &dir_nodes[i];
        proof {
            assert(dirs.take(i + 1).drop_last() =~= dirs.take(i as int));
            assert(dirs =~= dirs.take(i + 1) + dirs.skip(i + 1));
            lemma_field_sum_add(dirs.take(i + 1), dirs.skip(i + 1), Field::Size);
            lemma_field_sum_add(dirs.take(i + 1), dirs.skip(i + 1), Field::FileCount);
            lemma_field_sum_add(dirs.take(i + 1), dirs.skip(i + 1), Field::DirCount);
        }
        total_size = total_size + child.size;
        total_file_count = total_file_count + child.file_count;
        total_dir_count = total_dir_count + child.dir_count;
        i = i + 1;
    }
    assert(dirs.take(i as int) =~= dirs);
    let mut children: Vec<FileNode> = listing.file_nodes;
    let mut dir_nodes: Vec<FileNode> = dir_nodes;
    children.append(&mut dir_nodes);
    let ghost gathered = children@;
    sort_heaviest_first(&mut children);
    let node = FileNode {
        name,
        size: total_size,
        is_dir: true,
        children,
        rect: treemap::Rect::new(),
        file_count: total_file_count,
        dir_count: total_dir_count + 1,
    };
    proof {
        lemma_children_view(node);
        lemma_views_reordered(node.children@, gathered);
        assert(node.children@.len() == gathered.len()) by {
            broadcast use vstd::seq_lib::group_to_multiset_ensures;

            assert(node.children@.to_multiset().len() == gathered.to_multiset().len());
        }
        assert(views(gathered) =~= files + dirs);
        assert forall|i: int, j: int| 0 <= i < j < node@.children.len() implies (
        #[trigger] node@.children[i]).size >= (#[trigger] node@.children[j]).size by {
            assert(node.children@[i].size >= node.children@[j].size);
        }
        if listing.adds_up() && all_consistent(dirs) {
            law_built_counts_are_right(node@, files, dirs);
        }
    }
    node
}

/// Splitting goes entry by entry: a directory is a directory and a file is a
/// file, whatever its name and size, and the entries of two lists in a row are
/// split as each of them is.
pub proof fn law_splitting_goes_by_entry(a: Seq<DirEntry>, b: Seq<DirEntry>, e: DirEntry)
    ensures
        dirs_among(a + b) == dirs_among(a) + dirs_among(b),
        files_among(a + b) == files_among(a) + files_among(b),
        dirs_among(seq![e]) == (if e.is_dir {
            seq![e]
        } else {
            Seq::empty()
        }),
        files_among(seq![e]) == (if e.is_dir {
            Seq::empty()
        } else {
            seq![e]
        }),
{
    Seq::filter_distributes_over_add(a, b, |e: DirEntry| e.is_dir);
    Seq::filter_distributes_over_add(a, b, |e: DirEntry| !e.is_dir);
    let none = Seq::<DirEntry>::empty();
    reveal_with_fuel(Seq::filter, 1);
    none.lemma_filter_push(e, |e: DirEntry| e.is_dir);
    none.lemma_filter_push(e, |e: DirEntry| !e.is_dir);
    assert(none.push(e) =~= seq![e]);
    assert(dirs_among(none) =~= none);
    assert(files_among(none) =~= none);
    assert(dirs_among(seq![e]) =~= (if e.is_dir {
        seq![e]
    } else {
        none
    }));
    assert(files_among(seq![e]) =~= (if e.is_dir {
        none
    } else {
        seq![e]
    }));
}

/// Splitting loses nothing: every directory that is listed is among the
/// directories, every file among the files, each as often as it is listed, and
/// nothing else is.
pub proof fn law_splitting_loses_nothing(entries: Seq<DirEntry>)
    ensures
        files_among(entries).len() + dirs_among(entries).len() == entries.len(),
        forall|e: DirEntry| #[trigger]
            dirs_among(entries).contains(e) <==> entries.contains(e) && e.is_dir,
        forall|e: DirEntry| #[trigger]
            files_among(entries).contains(e) <==> entries.contains(e) && !e.is_dir,
        forall|e: DirEntry| #[trigger]
            (files_among(entries) + dirs_among(entries)).to_multiset().count(e)
                == entries.to_multiset().count(e),
    decreases entries.len(),
{
    broadcast use vstd::seq_lib::group_to_multiset_ensures;

    if entries.len() == 0 {
        reveal_with_fuel(Seq::filter, 1);
        assert(files_among(entries) =~= entries);
        assert(dirs_among(entries) =~= entries);
        assert(files_among(entries) + dirs_among(entries) =~= entries);
    } else {
        let front = entries.drop_last();
        let last = entries.last();
        law_splitting_loses_nothing(front);
        law_splitting_goes_by_entry(front, seq![last], last);
        assert(front + seq![last] =~= entries);
        assert(front.push(last) =~= entries);
        let files = files_among(front);
        let dirs = dirs_among(front);
        assert forall|e: DirEntry| #[trigger]
            entries.contains(e) <==> front.contains(e) || e == last by {
            if front.contains(e) {
                let i = choose|i: int| 0 <= i < front.len() && front[i] == e;
                assert(entries[i] == e);
            }
            assert(entries[entries.len() - 1] == last);
        }
        let all = files_among(entries) + dirs_among(entries);
        if last.is_dir {
            assert(files_among(entries) =~= files);
            assert(dirs_among(entries) =~= dirs.push(last));
            assert(all =~= (files + dirs).push(last));
            assert forall|e: DirEntry| #[trigger]
                dirs.push(last).contains(e) <==> dirs.contains(e) || e == last by {
                lemma_pushed(dirs, last, e);
            }
        } else {
            assert(files_among(entries) =~= files.push(last));
            assert(dirs_among(entries) =~= dirs);
            assert(all =~= (files + dirs).insert(files.len() as int, last));
            assert forall|e: DirEntry| #[trigger]
                files.push(last).contains(e) <==> files.contains(e) || e == last by {
                lemma_pushed(files, last, e);
            }
        }
        assert(all.to_multiset() =~= (files + dirs).to_multiset().insert(last));
        assert(entries.to_multiset() =~= front.to_multiset().insert(last));
        assert forall|e: DirEntry| #[trigger]
            all.to_multiset().count(e) == entries.to_multiset().count(e) by {
            assert((files + dirs).to_multiset().count(e) == front.to_multiset().count(e));
        }
    }
}

proof fn lemma_pushed(entries: Seq<DirEntry>, last: DirEntry, e: DirEntry)
    ensures
        entries.push(last).contains(e) <==> entries.contains(e) || e == last,
{
    if entries.contains(e) {
        let i = choose|i: int| 0 <= i < entries.len() && entries[i] == e;
        assert(entries.push(last)[i] == e);
    }
    assert(entries.push(last)[entries.len() as int] == last);
}

/// The bytes of the files of two lists in a row are those of both; of one entry
/// they are its size, and nothing for a directory. The same goes for the bytes
/// in a bucket.
pub proof fn law_listed_bytes_add_up(
    a: Seq<DirEntry>,
    b: Seq<DirEntry>,
    e: DirEntry,
    bucket: Seq<char>,
)
    ensures
        entry_bytes(a + b) == entry_bytes(a) + entry_bytes(b),
        entry_bytes_in(a + b, bucket) == entry_bytes_in(a, bucket) + entry_bytes_in(b, bucket),
        entry_bytes(seq![e]) == (if e.is_dir {
            0
        } else {
            e.file_size as nat
        }),
        entry_bytes_in(seq![e], bucket) == (if !e.is_dir && bucket_of(e.name@) == bucket {
            e.file_size as nat
        } else {
            0
        }),
    decreases b.len(),
{
    let one = seq![e];
    assert(one.drop_last() =~= Seq::<DirEntry>::empty());
    assert(entry_bytes(one.drop_last()) == 0);
    assert(entry_bytes_in(one.drop_last(), bucket) == 0);
    if b.len() == 0 {
        assert(a + b =~= a);
    } else {
        assert((a + b).drop_last() =~= a + b.drop_last());
        law_listed_bytes_add_up(a, b.drop_last(), e, bucket);
    }
}

/// The nodes of files are theirs, one for each and in order: each has the name
/// and the size of its entry, is no directory, has nothing below it, counts as
/// one file, and lies on the unit square.
pub proof fn law_file_nodes_are_those_of_the_entries(
    nodes: Seq<NodeView>,
    entries: Seq<DirEntry>,
    i: int,
)
    requires
        are_nodes_of(nodes, entries),
        0 <= i < entries.len(),
    ensures
        nodes.len() == entries.len(),
        nodes[i].name == entries[i].name@,
        nodes[i].size == entries[i].file_size,
        !nodes[i].is_dir,
        nodes[i].children.len() == 0,
        nodes[i].file_count == 1,
        nodes[i].dir_count == 0,
        rect_bits(nodes[i].rect) == seq![
            0u64,
            0u64,
            0x3ff0_0000_0000_0000u64,
            0x3ff0_0000_0000_0000u64,
        ],
{
    assert(is_node_of(nodes[i], entries[i]));
}

/// A listing adds up when its totals are the sums over its files.
pub proof fn law_listing_totals(listing: Listing)
    requires
        listing.adds_up(),
    ensures
        listing.total_size == field_sum(views(listing.file_nodes@), Field::Size),
        listing.total_file_count == field_sum(views(listing.file_nodes@), Field::FileCount),
        field_sum(views(listing.file_nodes@), Field::DirCount) == 0,
        forall|i: int|
            0 <= i < listing.file_nodes@.len() ==> (#[trigger] listing.file_nodes@[i])@.consistent(),
{
    assert forall|i: int| 0 <= i < listing.file_nodes@.len() implies (
    #[trigger] listing.file_nodes@[i])@.consistent() by {
        assert(views(listing.file_nodes@)[i] == listing.file_nodes@[i]@);
    }
}

/// A directory that holds files and subdirectories has each of them as a child,
/// as often as it is given and no other; a larger child comes before a smaller
/// one; it counts one directory more than its subdirectories do, and lies on the
/// unit square.
pub proof fn law_directory_has_all_its_children(
    node: NodeView,
    files: Seq<NodeView>,
    dirs: Seq<NodeView>,
    child: NodeView,
)
    requires
        holds(node, files, dirs),
    ensures
        node.is_dir,
        node.children.len() == files.len() + dirs.len(),
        node.children.to_multiset().count(child) == files.to_multiset().count(child)
            + dirs.to_multiset().count(child),
        node.children.contains(child) <==> files.contains(child) || dirs.contains(child),
        forall|i: int, j: int|
            0 <= i < node.children.len() && 0 <= j < node.children.len() && (
            #[trigger] node.children[i]).size > (#[trigger] node.children[j]).size ==> i < j,
        node.dir_count == 1 + field_sum(dirs, Field::DirCount),
        rect_bits(node.rect) == seq![
            0u64,
            0u64,
            0x3ff0_0000_0000_0000u64,
            0x3ff0_0000_0000_0000u64,
        ],
{
    broadcast use vstd::seq_lib::group_to_multiset_ensures;

    vstd::seq_lib::lemma_multiset_commutative(files, dirs);
    assert(node.children.len() == node.children.to_multiset().len());
    assert((files + dirs).len() == (files + dirs).to_multiset().len());
    assert(node.children.contains(child) <==> node.children.to_multiset().count(child) > 0);
    assert(files.contains(child) <==> files.to_multiset().count(child) > 0);
    assert(dirs.contains(child) <==> dirs.to_multiset().count(child) > 0);
}

} // verus!
