//! The file tree: nodes, paths into them, and edits.

use crate::extension::{extension_of, raw_extension};
use crate::fspath::{path_at, path_from, path_push, path_text};
use crate::laws::{
    law_reduction_goes_up_the_path, law_reduction_leaves_the_parent_alone,
    law_removal_is_detaching_and_reducing,
};
use crate::model::{Amounts, Measure, NodeView};
use crate::order::Weighed;
use crate::stats::{
    all_bytes_in, extensions_of, extensions_of_all, law_statistics_are_determined, map_views,
    pairs_of, stats_of_maps, stats_of_tree,
};
use crate::strmap::StrMap;
use std::path::PathBuf;
use vstd::prelude::*;
use vstd::slice::slice_subrange;

verus! {

/// Index path from root to a node in the tree (e.g. [2, 0, 1] = root's 3rd child -> 1st child ->
/// 2nd child).
pub type TreePath = Vec<usize>;

/// The rectangle type of the treemap layout. Its four coordinates are floating
/// point numbers; here they are carried along and not read.
#[verifier::external_type_specification]
#[verifier::external_body]
pub struct ExRect(treemap::Rect);

/// What a rectangle holds: the bit patterns of its `x`, `y`, `w` and `h`.
pub uninterp spec fn rect_bits(r: treemap::Rect) -> Seq<u64>;

/// The unit square at the origin, where a node lies before it is laid out:
/// two zeros, then the bit pattern of one, twice.
pub open spec fn unplaced() -> Seq<u64> {
    seq![0, 0, 0x3ff0_0000_0000_0000, 0x3ff0_0000_0000_0000]
}

/// `treemap::Rect::new`: the rectangle with `x` and `y` zero, `w` and `h` one.
pub assume_specification[ treemap::Rect::new ]() -> (r: treemap::Rect)
    ensures
        rect_bits(r) == unplaced(),
;

/// A node in the file tree.
pub struct FileNode {
    pub name: Box<str>,
    pub size: u64,
    pub is_dir: bool,
    pub children: Vec<FileNode>,
    /// Treemap rectangle, set during layout.
    pub rect: treemap::Rect,
    /// Cached file count (1 for files, sum of children for dirs).
    pub file_count: u64,
    /// Cached directory count (0 for files, 1 + sum of children for dirs).
    pub dir_count: u64,
}

/// The model of a node.
pub open spec fn node_view(node: FileNode) -> NodeView
    decreases node,
{
    NodeView {
        name: node.name@,
        size: node.size as nat,
        is_dir: node.is_dir,
        children: Seq::new(
            node.children@.len(),
            |i: int|
                if 0 <= i < node.children@.len() {
                    node_view(node.children@[i])
                } else {
                    arbitrary()
                },
        ),
        rect: node.rect,
        file_count: node.file_count as nat,
        dir_count: node.dir_count as nat,
    }
}

impl View for FileNode {
    type V = NodeView;

    open spec fn view(&self) -> NodeView {
        node_view(*self)
    }
}

/// The model of several nodes.
pub open spec fn views(nodes: Seq<FileNode>) -> Seq<NodeView> {
    nodes.map_values(|n: FileNode| n@)
}

/// The children of a node's model are the models of its children.
pub broadcast proof fn lemma_children_view(node: FileNode)
    ensures
        (#[trigger] node@).children == views(node.children@),
{
    assert forall|i: int| 0 <= i < node.children@.len() implies node@.children[i]
        == #[trigger] node.children@[i]@ by {}
    assert(node@.children =~= views(node.children@));
}

impl Weighed for FileNode {
    open spec fn weight_view(&self) -> u64 {
        self.size
    }

    fn weight(&self) -> (r: u64) {
        self.size
    }
}

impl FileNode {
    /// Get the file extension, or empty string for dirs/extensionless files.
    pub fn extension(&self) -> (r: &str)
        ensures
            r@ == (if self.is_dir {
                Seq::<char>::empty()
            } else {
                extension_of(self.name@)
            }),
    {
        if self.is_dir {
            let none: &str = "";
            proof {
                reveal_strlit("");
                assert(none@ =~= Seq::<char>::empty());
            }
            none
        } else {
            raw_extension(&self.name)
        }
    }

    /// Walk a path of child indices to reach a descendant node.
    pub fn resolve_path(&self, path: &[usize]) -> (r: Option<&FileNode>)
        ensures
            match r {
                Some(node) => self@.node_at(path@) == Some(node@),
                None => self@.node_at(path@) is None,
            },
    {
        broadcast use lemma_children_view;

        let mut node: &FileNode = self;
        let mut i: usize = 0;
        assert(path@.skip(0) =~= path@);
        while i < path.len()
            invariant
                i <= path@.len(),
                self@.node_at(path@) == node@.node_at(path@.skip(i as int)),
            decreases path@.len() - i,
        {
            broadcast use lemma_children_view;

            let idx: usize = path[i];
            assert(path@.skip(i as int).drop_first() =~= path@.skip(i + 1));
            if idx >= node.children.len() {
                return None;
            }
            node = &node.children[idx];
            i = i + 1;
        }
        Some(node)
    }

    /// Remove the child at `index` from this node's children, updating size and counts.
    /// Returns the removed child.
    pub fn remove_child(&mut self, index: usize) -> (r: FileNode)
        requires
            index < old(self).children@.len(),
        ensures
            r@ == old(self)@.children[index as int],
            final(self)@ == old(self)@.without_child(index as int),
            final(self).size == (if old(self).size >= r.size {
                old(self).size - r.size
            } else {
                0
            }),
            final(self).file_count == (if old(self).file_count >= r.file_count {
                old(self).file_count - r.file_count
            } else {
                0
            }),
            final(self).dir_count == (if old(self).dir_count >= r.dir_count {
                old(self).dir_count - r.dir_count
            } else {
                0
            }),
            r == old(self).children@[index as int],
            final(self).children@ == old(self).children@.remove(index as int),
    {
        broadcast use lemma_children_view;

        let removed: FileNode = self.children.remove(index);
        self.size = self.size.saturating_sub(removed.size);
        self.file_count = self.file_count.saturating_sub(removed.file_count);
        self.dir_count = self.dir_count.saturating_sub(removed.dir_count);
        proof {
            lemma_children_view(*old(self));
            lemma_children_view(*self);
            assert(self@.children =~= old(self)@.children.remove(index as int));
        }
        removed
    }

    /// Takes the node at the end of `path[at..]` from its parent.
    fn detach(&mut self, path: &[usize], at: usize) -> (r: Option<FileNode>)
        requires
            at < path@.len(),
        ensures
            match r {
                Some(node) => old(self)@.node_at(path@.skip(at as int)) == Some(node@)
                    && final(self)@ == old(self)@.detached(path@.skip(at as int)),
                None => old(self)@.node_at(path@.skip(at as int)) is None
                    && final(self)@ == old(self)@,
            },
        decreases path@.len() - at,
    {
        broadcast use lemma_children_view;

        let idx: usize = path[at];
        let ghost rest = path@.skip(at as int);
        assert(rest.drop_first() =~= path@.skip(at + 1));
        if idx >= self.children.len() {
            return None;
        }
        if at + 1 == path.len() {
            assert(self@.children[idx as int].node_at(rest.drop_first()) == Some(
                self@.children[idx as int],
            ));
            Some(self.remove_child(idx))
        } else {
            let taken = self.children[idx].detach(path, at + 1);
            proof {
                lemma_children_view(*old(self));
                lemma_children_view(*self);
                assert(self.children@ =~= old(self).children@.update(
                    idx as int,
                    self.children@[idx as int],
                ));
                assert(self@.children =~= old(self)@.children.update(
                    idx as int,
                    self.children@[idx as int]@,
                ));
                if taken is None {
                    assert(self@.children =~= old(self)@.children);
                }
            }
            taken
        }
    }

    /// Reduces the counts of this node.
    fn reduce(&mut self, size: u64, file_count: u64, dir_count: u64)
        ensures
            final(self)@ == old(self)@.reduced(
                (Amounts {
                    size: size as nat,
                    file_count: file_count as nat,
                    dir_count: dir_count as nat,
                }),
            ),
    {
        broadcast use lemma_children_view;

        self.size = self.size.saturating_sub(size);
        self.file_count = self.file_count.saturating_sub(file_count);
        self.dir_count = self.dir_count.saturating_sub(dir_count);
    }

    /// Reduces the counts of this node and of those along `chain[at..]`.
    fn reduce_along(
        &mut self,
        chain: &[usize],
        at: usize,
        size: u64,
        file_count: u64,
        dir_count: u64,
    )
        requires
            at <= chain@.len(),
        ensures
            final(self)@ == old(self)@.reduced_along(
                chain@.skip(at as int),
                (Amounts {
                    size: size as nat,
                    file_count: file_count as nat,
                    dir_count: dir_count as nat,
                }),
            ),
        decreases chain@.len() - at,
    {
        broadcast use lemma_children_view;

        self.reduce(size, file_count, dir_count);
        let ghost by = Amounts {
            size: size as nat,
            file_count: file_count as nat,
            dir_count: dir_count as nat,
        };
        if at < chain.len() {
            let idx: usize = chain[at];
            assert(chain@.skip(at as int).drop_first() =~= chain@.skip(at + 1));
            if idx < self.children.len() {
                self.children[idx].reduce_along(chain, at + 1, size, file_count, dir_count);
                proof {
                    lemma_children_view(*old(self));
                    lemma_children_view(*self);
                    assert(self@.children =~= old(self)@.children.update(
                        idx as int,
                        self.children@[idx as int]@,
                    ));
                }
            }
        }
    }
}

/// The complete scanned file tree with precomputed extension statistics.
pub struct FileTree {
    pub root: FileNode,
    pub root_path: String,
    /// Extension -> total bytes mapping, sorted by size descending.
    pub extensions: Vec<(Box<str>, u64)>,
}

/// The ancestors below the root whose counts are still to be reduced when the
/// node at `path` was taken from its parent: all of them but that parent.
pub open spec fn upper_chain(path: Seq<usize>) -> Seq<usize> {
    if path.len() >= 2 {
        path.take(path.len() - 2)
    } else {
        Seq::empty()
    }
}

impl FileTree {
    /// Build a file tree from what a scan brought: the root node, the scanned
    /// path, and the extension records that the scanning threads kept.
    pub fn scan(root: FileNode, root_path: String, records: Vec<StrMap<u64>>) -> (r: Self)
        requires
            forall|b: Seq<char>| #[trigger] all_bytes_in(map_views(records@), b) <= u64::MAX,
        ensures
            r.root == root,
            r.root_path == root_path,
            stats_of_maps(r.extensions@, map_views(records@)),
    {
        let extensions: Vec<(Box<str>, u64)> = extensions_of_all(records);
        FileTree { root, root_path, extensions }
    }

    /// Rebuild extension statistics from the current tree. They depend on the
    /// tree alone: whatever list of its statistics was there before, an earlier
    /// rebuild's or a scan's, holds the same pairs.
    pub fn rebuild_extensions(&mut self)
        requires
            forall|b: Seq<char>| #[trigger]
                old(self).root@.total(Measure::BytesIn(b)) <= u64::MAX,
        ensures
            final(self).root == old(self).root,
            final(self).root_path == old(self).root_path,
            stats_of_tree(final(self).extensions@, final(self).root@),
            forall|other: Seq<(Box<str>, u64)>| #[trigger]
                stats_of_tree(other, final(self).root@) ==> pairs_of(other) == pairs_of(
                    final(self).extensions@,
                ),
    {
        self.extensions = extensions_of(&self.root);
        proof {
            let built = self.extensions@;
            let root = self.root@;
            assert forall|other: Seq<(Box<str>, u64)>| #[trigger]
                stats_of_tree(other, root) implies pairs_of(other) == pairs_of(built) by {
                law_statistics_are_determined(other, built, root);
            }
        }
    }

    /// Build the full filesystem path for a node identified by index path.
    pub fn build_fs_path(&self, path: &[usize]) -> (r: Option<PathBuf>)
        ensures
            match r {
                Some(p) => path_at(self.root@, self.root_path@, path@) == Some(path_text(p)),
                None => path_at(self.root@, self.root_path@, path@) is None,
            },
    {
        broadcast use lemma_children_view;

        let mut fs_path: PathBuf = path_from(&self.root_path);
        let mut node: &FileNode = &self.root;
        let mut i: usize = 0;
        assert(path@.skip(0) =~= path@);
        while i < path.len()
            invariant
                i <= path@.len(),
                path_at(self.root@, self.root_path@, path@) == path_at(
                    node@,
                    path_text(fs_path),
                    path@.skip(i as int),
                ),
            decreases path@.len() - i,
        {
            broadcast use lemma_children_view;

            let idx: usize = path[i];
            assert(path@.skip(i as int).drop_first() =~= path@.skip(i + 1));
            if idx >= node.children.len() {
                return None;
            }
            let child: &FileNode = &node.children[idx];
            path_push(&mut fs_path, &child.name);
            node = child;
            i = i + 1;
        }
        Some(fs_path)
    }

    /// Remove the node at the given index path from the tree, updating all ancestor sizes/counts.
    /// Returns the removed node, or None if the path is invalid.
    pub fn remove_at_path(&mut self, path: &[usize]) -> (r: Option<FileNode>)
        ensures
            final(self).root_path == old(self).root_path,
            final(self).extensions == old(self).extensions,
            match r {
                Some(node) => path@.len() > 0 && old(self).root@.node_at(path@) == Some(node@)
                    && final(self).root@ == old(self).root@.removed(path@),
                None => (path@.len() == 0 || old(self).root@.node_at(path@) is None)
                    && final(self).root@ == old(self).root@,
            },
    {
        if path.len() == 0 {
            return None;
        }
        assert(path@.skip(0) =~= path@);
        match self.root.detach(path, 0) {
            None => None,
            Some(removed) => {
                if path.len() >= 2 {
                    proof {
                        law_removal_is_detaching_and_reducing(old(self).root@, path@);
                    }
                    self.subtract_from_ancestors(
                        path,
                        removed.size,
                        removed.file_count,
                        removed.dir_count,
                    );
                }
                Some(removed)
            },
        }
    }

    /// Propagate a size/count reduction up the ancestor chain (excluding the node itself).
    /// The root has no ancestors: for the empty path nothing changes. The direct
    /// parent of a node below the root's children is left alone:
    /// [`FileNode::remove_child`] has already updated it.
    pub fn subtract_from_ancestors(
        &mut self,
        path: &[usize],
        size: u64,
        file_count: u64,
        dir_count: u64,
    )
        ensures
            final(self).root_path == old(self).root_path,
            final(self).extensions == old(self).extensions,
            path@.len() == 0 ==> final(self).root@ == old(self).root@,
            path@.len() > 0 ==> final(self).root@ == old(self).root@.reduced_along(
                upper_chain(path@),
                (Amounts {
                    size: size as nat,
                    file_count: file_count as nat,
                    dir_count: dir_count as nat,
                }),
            ),
            forall|k: int|
                #![trigger path@.take(k)]
                path@.len() > 0 && (k == 0 || 0 < k <= path@.len() - 2) && old(self).root@.node_at(
                    path@.take(k),
                ) is Some ==> {
                    let before = old(self).root@.node_at(path@.take(k)).unwrap();
                    &&& final(self).root@.node_at(path@.take(k)) matches Some(after)
                    &&& after.size == (if before.size >= size {
                        before.size - size
                    } else {
                        0
                    })
                    &&& after.file_count == (if before.file_count >= file_count {
                        before.file_count - file_count
                    } else {
                        0
                    })
                    &&& after.dir_count == (if before.dir_count >= dir_count {
                        before.dir_count - dir_count
                    } else {
                        0
                    })
                },
            path@.len() >= 2 ==> final(self).root@.node_at(path@.take(path@.len() - 1)) == old(
                self,
            ).root@.node_at(path@.take(path@.len() - 1)),
    {
        if path.len() == 0 {
            return;
        }
        let upper: usize = if path.len() >= 2 {
            path.len() - 2
        } else {
            0
        };
        let chain: &[usize] = slice_subrange(path, 0, upper);
        assert(chain@.skip(0) =~= upper_chain(path@));
        self.root.reduce_along(chain, 0, size, file_count, dir_count);
        proof {
            let by = Amounts {
                size: size as nat,
                file_count: file_count as nat,
                dir_count: dir_count as nat,
            };
            let before = old(self).root@;
            assert forall|k: int|
                #![trigger path@.take(k)]
                (k == 0 || 0 < k <= path@.len() - 2) && before.node_at(
                    path@.take(k),
                ) is Some implies {
                let at = before.node_at(path@.take(k)).unwrap();
                &&& self.root@.node_at(path@.take(k)) matches Some(after)
                &&& after.size == (if at.size >= size {
                    at.size - size
                } else {
                    0
                })
                &&& after.file_count == (if at.file_count >= file_count {
                    at.file_count - file_count
                } else {
                    0
                })
                &&& after.dir_count == (if at.dir_count >= dir_count {
                    at.dir_count - dir_count
                } else {
                    0
                })
            } by {
                law_reduction_goes_up_the_path(before, path@, by, k);
            }
            if path@.len() >= 2 {
                law_reduction_leaves_the_parent_alone(before, path@, by);
            }
        }
    }
}

/// The model of a node says what the node holds, with the models of its
/// children in their order.
pub proof fn law_model_says_what_a_node_holds(node: FileNode, i: int)
    ensures
        node@.name == node.name@,
        node@.size == node.size,
        node@.is_dir == node.is_dir,
        node@.rect == node.rect,
        node@.file_count == node.file_count,
        node@.dir_count == node.dir_count,
        node@.children.len() == node.children@.len(),
        0 <= i < node.children@.len() ==> node@.children[i] == node.children@[i]@,
        views(node.children@).len() == node.children@.len(),
        0 <= i < node.children@.len() ==> views(node.children@)[i] == node.children@[i]@,
{
    lemma_children_view(node);
}

} // verus!
