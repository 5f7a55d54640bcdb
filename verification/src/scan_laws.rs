//! Laws of a scan: what it enters, what it leaves out, and what the tree that
//! it builds holds.

use crate::listing::holds;
use crate::model::{all_consistent, field_sum, forest_total, Field, Measure, NodeView};
use crate::scan::{
    is_parent_cut, lies_under, mirrored, string_of, text_of, ScanCtx, ScanView,
};
use crate::totals::{lemma_field_sum_add, lemma_forest_total_add, lemma_reordered};
use vstd::prelude::*;

verus! {

proof fn lemma_children_come_from(node: NodeView, files: Seq<NodeView>, dirs: Seq<NodeView>, i: int)
    requires
        holds(node, files, dirs),
        0 <= i < node.children.len(),
    ensures
        files.contains(node.children[i]) || dirs.contains(node.children[i]),
{
    broadcast use vstd::seq_lib::group_to_multiset_ensures;

    let child = node.children[i];
    assert(node.children.contains(child));
    assert((files + dirs).to_multiset().count(child) > 0);
    assert((files + dirs).contains(child));
    let k = choose|k: int| 0 <= k < (files + dirs).len() && (files + dirs)[k] == child;
    if k < files.len() {
        assert(files[k] == child);
    } else {
        assert(dirs[k - files.len()] == child);
    }
}

/// A directory built from files and subdirectories whose counts are right has
/// right counts. (Every tree is built so from its leaves up; hence the counts
/// of a scanned tree are right throughout.)
pub proof fn law_built_counts_are_right(
    node: NodeView,
    files: Seq<NodeView>,
    dirs: Seq<NodeView>,
)
    requires
        holds(node, files, dirs),
        node.size == field_sum(files, Field::Size) + field_sum(dirs, Field::Size),
        node.file_count == field_sum(files, Field::FileCount) + field_sum(dirs, Field::FileCount),
        field_sum(files, Field::DirCount) == 0,
        all_consistent(files),
        all_consistent(dirs),
    ensures
        node.consistent(),
{
    assert forall|f: Field| #[trigger]
        node.field(f) == field_sum(node.children, f) + (if f is DirCount {
            1nat
        } else {
            0nat
        }) by {
        lemma_reordered(node.children, files + dirs, Measure::Bytes, f);
        lemma_field_sum_add(files, dirs, f);
    }
    assert forall|i: int| 0 <= i < node.children.len() implies (
    #[trigger] node.children[i]).consistent() by {
        lemma_children_come_from(node, files, dirs, i);
        let child = node.children[i];
        if files.contains(child) {
            let k = choose|k: int| 0 <= k < files.len() && files[k] == child;
            assert(files[k].consistent());
        } else {
            let k = choose|k: int| 0 <= k < dirs.len() && dirs[k] == child;
            assert(dirs[k].consistent());
        }
    }
}

/// Building a directory neither loses nor repeats anything: every count over it
/// is that over its files and its subdirectories, and one for the directory
/// itself where directories are counted.
pub proof fn law_building_loses_nothing(
    node: NodeView,
    files: Seq<NodeView>,
    dirs: Seq<NodeView>,
    m: Measure,
)
    requires
        holds(node, files, dirs),
    ensures
        node.total(m) == forest_total(files, m) + forest_total(dirs, m) + (if m is Dirs {
            1nat
        } else {
            0nat
        }),
{
    lemma_reordered(node.children, files + dirs, m, Field::Size);
    lemma_forest_total_add(files, dirs, m);
}

/// Whether throughout a tree no child comes before a larger one.
pub open spec fn sorted_throughout(node: NodeView) -> bool
    decreases node,
{
    &&& forall|i: int, j: int|
        0 <= i < j < node.children.len() ==> (#[trigger] node.children[i]).size >= (
        #[trigger] node.children[j]).size
    &&& forall|i: int| 0 <= i < node.children.len() ==> sorted_throughout(#[trigger] node.children[i])
}

/// A directory built from subdirectories that are sorted throughout, and files
/// with nothing below them, is sorted throughout.
pub proof fn law_built_tree_is_sorted(node: NodeView, files: Seq<NodeView>, dirs: Seq<NodeView>)
    requires
        holds(node, files, dirs),
        forall|i: int| 0 <= i < files.len() ==> (#[trigger] files[i]).children.len() == 0,
        forall|i: int| 0 <= i < dirs.len() ==> sorted_throughout(#[trigger] dirs[i]),
    ensures
        sorted_throughout(node),
{
    assert forall|i: int| 0 <= i < node.children.len() implies sorted_throughout(
        #[trigger] node.children[i],
    ) by {
        lemma_children_come_from(node, files, dirs, i);
        let child = node.children[i];
        if files.contains(child) {
            let k = choose|k: int| 0 <= k < files.len() && files[k] == child;
            assert(files[k].children.len() == 0);
        } else {
            let k = choose|k: int| 0 <= k < dirs.len() && dirs[k] == child;
            assert(sorted_throughout(dirs[k]));
        }
    }
}

/// A look at a subdirectory: its name, its identity and where its parent lies
/// in the Data volume.
pub ghost struct Look {
    pub name: Seq<char>,
    pub ident: Option<(u64, u64)>,
    pub parent_rel: Option<Seq<char>>,
}

/// The state after several looks.
pub open spec fn after_looks(start: ScanView, looks: Seq<Look>) -> ScanView
    decreases looks.len(),
{
    if looks.len() == 0 {
        start
    } else {
        let look = looks.last();
        after_looks(start, looks.drop_last()).after(look.name, look.ident, look.parent_rel)
    }
}

/// Whether the scan enters the directory of the look at place `i`.
pub open spec fn enters(start: ScanView, looks: Seq<Look>, i: int) -> bool {
    after_looks(start, looks.take(i)).admits(
        looks[i].name,
        looks[i].ident,
        looks[i].parent_rel,
    )
}

/// What was visited stays visited, and the rules of a scan do not change.
pub proof fn law_visited_only_grows(start: ScanView, looks: Seq<Look>, n: int)
    requires
        0 <= n <= looks.len(),
    ensures
        after_looks(start, looks.take(n)).visited.subset_of(after_looks(start, looks).visited),
        after_looks(start, looks).links == start.links,
        after_looks(start, looks).data_root == start.data_root,
        after_looks(start, looks).scan_root == start.scan_root,
    decreases looks.len(),
{
    if looks.len() > 0 {
        let front = looks.drop_last();
        if n < looks.len() {
            law_visited_only_grows(start, front, n);
            assert(front.take(n) =~= looks.take(n));
        } else {
            law_visited_only_grows(start, front, front.len() as int);
            assert(looks.take(n) =~= looks);
        }
    } else {
        assert(looks.take(n) =~= looks);
    }
}

/// In whatever order directories come up, and under whatever names and paths,
/// a scan enters no directory twice.
pub proof fn law_no_directory_is_entered_twice(start: ScanView, looks: Seq<Look>, i: int, j: int)
    requires
        0 <= i < j < looks.len(),
        looks[i].ident is Some,
        looks[i].ident == looks[j].ident,
        enters(start, looks, i),
    ensures
        !enters(start, looks, j),
{
    let before_i = looks.take(i);
    let after_i = looks.take(i + 1);
    let before_j = looks.take(j);
    assert(after_i.drop_last() =~= before_i);
    assert(after_i.last() == looks[i]);
    law_visited_only_grows(start, before_j, i + 1);
    assert(before_j.take(i + 1) =~= after_i);
    assert(after_looks(start, after_i).visited.contains(looks[i].ident.unwrap()));
}

/// Distinct directories are never taken for one another: a directory that is no
/// mirror to be left out, and that comes up for the first time or whose identity
/// is not known, is entered.
pub proof fn law_distinct_directories_are_entered(start: ScanView, looks: Seq<Look>, i: int)
    requires
        0 <= i < looks.len(),
        !start.prunes(start.data_rel(looks[i].name, looks[i].ident, looks[i].parent_rel)),
        start.claimable(looks[i].ident),
        looks[i].ident is Some ==> forall|k: int|
            0 <= k < i ==> (#[trigger] looks[k]).ident != looks[i].ident,
    ensures
        enters(start, looks, i),
{
    let before = looks.take(i);
    law_visited_only_grows(start, before, 0);
    if looks[i].ident is Some {
        if after_looks(start, before).visited.contains(looks[i].ident.unwrap()) {
            lemma_visited_was_looked_at(start, before, looks[i].ident.unwrap());
            let k = choose|k: int|
                0 <= k < before.len() && (#[trigger] before[k]).ident == looks[i].ident;
            assert(before[k] == looks[k]);
        }
    }
}

proof fn lemma_visited_was_looked_at(start: ScanView, looks: Seq<Look>, ident: (u64, u64))
    requires
        after_looks(start, looks).visited.contains(ident),
        !start.visited.contains(ident),
    ensures
        exists|k: int| 0 <= k < looks.len() && (#[trigger] looks[k]).ident == Some(ident),
    decreases looks.len(),
{
    if looks.len() > 0 {
        let front = looks.drop_last();
        if after_looks(start, front).visited.contains(ident) {
            lemma_visited_was_looked_at(start, front, ident);
            let k = choose|k: int|
                0 <= k < front.len() && (#[trigger] front[k]).ident == Some(ident);
            assert(looks[k] == front[k]);
        } else {
            assert(looks[looks.len() - 1].ident == Some(ident));
        }
    }
}

/// A mirror that is left out is not claimed: the directory can still be entered
/// at another path.
pub proof fn law_pruned_mirror_stays_claimable(state: ScanView, look: Look)
    requires
        state.prunes(state.data_rel(look.name, look.ident, look.parent_rel)),
    ensures
        !state.admits(look.name, look.ident, look.parent_rel),
        state.after(look.name, look.ident, look.parent_rel) == state,
{
}

/// Outside the Data volume no directory is left out as a mirror, nor is the
/// Data volume itself.
pub proof fn law_only_the_data_volume_is_pruned(state: ScanView, look: Look)
    requires
        look.parent_rel is None || (look.ident is Some && look.ident == state.data_root),
    ensures
        !state.prunes(state.data_rel(look.name, look.ident, look.parent_rel)),
{
}

/// Everything beneath a mirror is a mirror.
pub proof fn law_mirrors_cover_what_lies_beneath(
    rel: Seq<char>,
    below: Seq<char>,
    links: Map<Seq<char>, Seq<char>>,
    root: Seq<char>,
)
    requires
        mirrored(rel, links, root),
    ensures
        mirrored(rel + seq!['/'] + below, links, root),
{
    let longer = rel + seq!['/'] + below;
    let n = choose|n: int|
        is_parent_cut(rel, n) && links.contains_key(#[trigger] rel.take(n)) && lies_under(
            links[rel.take(n)],
            root,
        );
    assert(longer.take(n) =~= rel.take(n));
    assert(is_parent_cut(longer, n));
}

/// Where the table is empty, nothing is a mirror.
pub proof fn law_empty_table_mirrors_nothing(rel: Seq<char>, root: Seq<char>)
    ensures
        !mirrored(rel, Map::<Seq<char>, Seq<char>>::empty(), root),
{
}

/// In a scan of everything, a target and all beneath it are mirrors.
pub proof fn law_scan_of_everything_mirrors_every_target(
    target: Seq<char>,
    links: Map<Seq<char>, Seq<char>>,
)
    requires
        links.contains_key(target),
    ensures
        mirrored(target, links, seq!['/']),
{
    let n = target.len() as int;
    assert(target.take(n) =~= target);
    assert(is_parent_cut(target, n));
}

/// Containment goes by whole components: a path that merely begins with the
/// root's text, and goes on with anything but a slash, is not below it.
pub proof fn law_containment_is_by_component(root: Seq<char>, more: Seq<char>)
    requires
        root != seq!['/'],
        more.len() > 0,
    ensures
        lies_under(root + more, root) <==> more[0] == '/',
{
    assert((root + more).take(root.len() as int) =~= root);
    assert((root + more).len() != root.len());
}

/// Something lies under a root exactly when the root is `/`, when it is the root
/// itself, or when its text is the root's, a slash and more; so, below any other
/// root than `/`, its text begins with the root's.
pub proof fn law_what_lies_under_a_root_begins_with_it(canonical: Seq<char>, root: Seq<char>)
    ensures
        lies_under(canonical, root) <==> root == seq!['/'] || canonical == root || exists|
            rest: Seq<char>,
        | canonical == #[trigger] (root + seq!['/'] + rest),
        lies_under(canonical, root) && root != seq!['/'] ==> canonical.len() >= root.len()
            && canonical.take(root.len() as int) == root,
{
    let n = root.len() as int;
    if lies_under(canonical, root) && root != seq!['/'] {
        if canonical == root {
            assert(canonical.take(n) =~= root);
        } else {
            let rest = canonical.skip(n + 1);
            assert(canonical =~= root + seq!['/'] + rest) by {
                assert forall|j: int| 0 <= j < n implies canonical[j] == root[j] by {
                    assert(canonical.take(n)[j] == canonical[j]);
                }
            }
        }
    }
    if exists|rest: Seq<char>| canonical == #[trigger] (root + seq!['/'] + rest) {
        let rest = choose|rest: Seq<char>| canonical == #[trigger] (root + seq!['/'] + rest);
        assert(canonical.take(n) =~= root);
        assert(canonical[n] == '/');
    }
}

/// A path is a mirror exactly when some target of the table whose canonical path
/// lies under the root is the path itself, or is followed in it by a slash and
/// more.
pub proof fn law_mirrors_are_targets_and_what_lies_below(
    rel: Seq<char>,
    links: Map<Seq<char>, Seq<char>>,
    root: Seq<char>,
)
    ensures
        mirrored(rel, links, root) <==> exists|target: Seq<char>| #[trigger]
            links.contains_key(target) && lies_under(links[target], root) && (rel == target
                || exists|rest: Seq<char>| rel == #[trigger] (target + seq!['/'] + rest)),
{
    if mirrored(rel, links, root) {
        let n = choose|n: int|
            is_parent_cut(rel, n) && links.contains_key(#[trigger] rel.take(n)) && lies_under(
                links[rel.take(n)],
                root,
            );
        let target = rel.take(n);
        if n == rel.len() {
            assert(target =~= rel);
        } else {
            assert(rel =~= target + seq!['/'] + rel.skip(n + 1));
        }
        assert(links.contains_key(target));
    }
    if exists|target: Seq<char>| #[trigger]
        links.contains_key(target) && lies_under(links[target], root) && (rel == target || exists|
            rest: Seq<char>,
        | rel == #[trigger] (target + seq!['/'] + rest)) {
        let target = choose|target: Seq<char>| #[trigger]
            links.contains_key(target) && lies_under(links[target], root) && (rel == target
                || exists|rest: Seq<char>| rel == #[trigger] (target + seq!['/'] + rest));
        let n = target.len() as int;
        assert(rel.take(n) =~= target);
        assert(is_parent_cut(rel, n));
    }
}

/// In the terms of a scan's context: a path is a mirror exactly when a target of
/// its table, with its canonical path under the scan's root, is the path itself
/// or is followed in it by a slash and more.
pub proof fn law_mirrors_of_a_scan(rel: Seq<char>, ctx: ScanCtx)
    ensures
        ctx@.mirrors(rel) <==> exists|target: Seq<char>| #[trigger]
            ctx.firmlinks@.contains_key(target) && lies_under(
                ctx.firmlinks@[target]@,
                ctx.scan_root@,
            ) && (rel == target || exists|rest: Seq<char>|
                rel == #[trigger] (target + seq!['/'] + rest)),
{
    let links = ctx@.links;
    law_mirrors_are_targets_and_what_lies_below(rel, links, ctx.scan_root@);
    if ctx@.mirrors(rel) {
        let target = choose|target: Seq<char>| #[trigger]
            links.contains_key(target) && lies_under(links[target], ctx.scan_root@) && (rel
                == target || exists|rest: Seq<char>|
                rel == #[trigger] (target + seq!['/'] + rest));
        law_rules_see_the_context(ctx, target);
        assert(ctx.firmlinks@.contains_key(target));
    }
    if exists|target: Seq<char>| #[trigger]
        ctx.firmlinks@.contains_key(target) && lies_under(
            ctx.firmlinks@[target]@,
            ctx.scan_root@,
        ) && (rel == target || exists|rest: Seq<char>|
            rel == #[trigger] (target + seq!['/'] + rest)) {
        let target = choose|target: Seq<char>| #[trigger]
            ctx.firmlinks@.contains_key(target) && lies_under(
                ctx.firmlinks@[target]@,
                ctx.scan_root@,
            ) && (rel == target || exists|rest: Seq<char>|
                rel == #[trigger] (target + seq!['/'] + rest));
        law_rules_see_the_context(ctx, target);
        assert(links.contains_key(target));
    }
}

/// Where a directory lies in the Data volume: the volume itself at the empty
/// path, whatever lies above it; below it a name follows its parent's path with
/// a slash between them, or stands alone directly below the volume; elsewhere
/// nowhere.
pub proof fn law_data_relative_paths(
    state: ScanView,
    name: Seq<char>,
    ident: Option<(u64, u64)>,
    parent: Seq<char>,
)
    ensures
        ident is Some && ident == state.data_root ==> state.data_rel(name, ident, Some(parent))
            == Some(Seq::<char>::empty()) && state.data_rel(name, ident, None) == Some(
            Seq::<char>::empty(),
        ),
        ident is None || ident != state.data_root ==> {
            &&& state.data_rel(name, ident, None) is None
            &&& state.data_rel(name, ident, Some(Seq::<char>::empty())) == Some(name)
            &&& parent.len() > 0 ==> state.data_rel(name, ident, Some(parent)) == Some(
                parent + seq!['/'] + name,
            )
        },
{
}

/// What becomes of a directory that a scan looks at. It is entered exactly when
/// it is not a mirror inside the Data volume and its identity, if known, was not
/// visited. A mirror changes nothing; any other directory is visited from then
/// on; and no look changes anything else.
pub proof fn law_what_a_look_decides(state: ScanView, look: Look)
    ensures
        ({
            let rel = state.data_rel(look.name, look.ident, look.parent_rel);
            let mirror = rel is Some && rel.unwrap().len() > 0 && mirrored(
                rel.unwrap(),
                state.links,
                state.scan_root,
            );
            let after = state.after(look.name, look.ident, look.parent_rel);
            &&& state.prunes(rel) <==> mirror
            &&& state.admits(look.name, look.ident, look.parent_rel) <==> !mirror && (look.ident
                is None || !state.visited.contains(look.ident.unwrap()))
            &&& after.visited == (if mirror || look.ident is None {
                state.visited
            } else {
                state.visited.insert(look.ident.unwrap())
            })
            &&& after.links == state.links
            &&& after.data_root == state.data_root
            &&& after.scan_root == state.scan_root
        }),
{
}

/// Claiming an identity marks it as visited, and changes nothing else; an
/// unknown identity can always be claimed.
pub proof fn law_claims(state: ScanView, key: (u64, u64))
    ensures
        state.claimable(None),
        state.claimed(None) == state,
        state.claimable(Some(key)) <==> !state.visited.contains(key),
        state.claimed(Some(key)).visited == state.visited.insert(key),
        state.claimed(Some(key)).links == state.links,
        state.claimed(Some(key)).data_root == state.data_root,
        state.claimed(Some(key)).scan_root == state.scan_root,
{
}

/// The rules of a scan see its context as it is.
pub proof fn law_rules_see_the_context(ctx: ScanCtx, target: Seq<char>)
    ensures
        ctx@.visited == ctx.visited@,
        ctx@.data_root == ctx.data_root,
        ctx@.scan_root == ctx.scan_root@,
        ctx@.links.contains_key(target) <==> ctx.firmlinks@.contains_key(target),
        ctx.firmlinks@.contains_key(target) ==> ctx@.links[target] == ctx.firmlinks@[target]@,
        ctx@.mirrors(target) <==> mirrored(target, ctx@.links, ctx.scan_root@),
{
}

/// Optional texts are seen as they are.
pub proof fn law_optional_texts(text: &str, string: String)
    ensures
        text_of(Some(text)) == Some(text@),
        text_of(None) is None,
        string_of(Some(string)) == Some(string@),
        string_of(None) is None,
{
}

} // verus!
