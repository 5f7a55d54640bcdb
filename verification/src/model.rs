//! The mathematical model of a file tree: what a node is, what it holds, and
//! what editing it means.

use crate::extension::bucket_of;
use vstd::prelude::*;

verus! {

/// A file or a directory with everything below it.
#[verifier::ext_equal]
pub ghost struct NodeView {
    pub name: Seq<char>,
    pub size: nat,
    pub is_dir: bool,
    pub children: Seq<NodeView>,
    pub rect: treemap::Rect,
    pub file_count: nat,
    pub dir_count: nat,
}

/// What can be counted in a tree by looking at its files and directories.
pub ghost enum Measure {
    /// The bytes of all files.
    Bytes,
    /// The number of files.
    Files,
    /// The number of directories.
    Dirs,
    /// The bytes of the files in an extension bucket.
    BytesIn(Seq<char>),
    /// The number of files in an extension bucket.
    FilesIn(Seq<char>),
}

/// The counts that a node keeps of itself.
pub ghost enum Field {
    Size,
    FileCount,
    DirCount,
}

/// A reduction of the counts that a node keeps.
pub ghost struct Amounts {
    pub size: nat,
    pub file_count: nat,
    pub dir_count: nat,
}

/// `a - b`, or zero where that would be negative.
pub open spec fn minus(a: nat, b: nat) -> nat {
    if a >= b {
        (a - b) as nat
    } else {
        0
    }
}

/// What a field is a count of.
pub open spec fn measure_of(field: Field) -> Measure {
    match field {
        Field::Size => Measure::Bytes,
        Field::FileCount => Measure::Files,
        Field::DirCount => Measure::Dirs,
    }
}

impl NodeView {
    /// What the node itself adds to a count, its descendants left out.
    pub open spec fn own(self, m: Measure) -> nat {
        match m {
            Measure::Bytes => if self.is_dir {
                0
            } else {
                self.size
            },
            Measure::Files => if self.is_dir {
                0
            } else {
                1
            },
            Measure::Dirs => if self.is_dir {
                1
            } else {
                0
            },
            Measure::BytesIn(bucket) => if !self.is_dir && bucket_of(self.name) == bucket {
                self.size
            } else {
                0
            },
            Measure::FilesIn(bucket) => if !self.is_dir && bucket_of(self.name) == bucket {
                1
            } else {
                0
            },
        }
    }

    /// A count over the node and everything below it.
    pub open spec fn total(self, m: Measure) -> nat
        decreases self,
    {
        self.own(m) + forest_total(self.children, m)
    }

    /// A count that the node keeps.
    pub open spec fn field(self, f: Field) -> nat {
        match f {
            Field::Size => self.size,
            Field::FileCount => self.file_count,
            Field::DirCount => self.dir_count,
        }
    }

    /// Whether the counts kept in this tree are right: a file counts as one
    /// file and has nothing below it; a directory counts what its children
    /// count, and itself as a directory.
    pub open spec fn consistent(self) -> bool
        decreases self,
    {
        if self.is_dir {
            &&& forall|f: Field| #[trigger]
                self.field(f) == field_sum(self.children, f) + (if f is DirCount {
                    1nat
                } else {
                    0nat
                })
            &&& all_consistent(self.children)
        } else {
            &&& self.file_count == 1
            &&& self.dir_count == 0
            &&& self.children.len() == 0
        }
    }

    /// The descendant that a path of child indices leads to.
    pub open spec fn node_at(self, path: Seq<usize>) -> Option<NodeView>
        decreases path.len(),
    {
        if path.len() == 0 {
            Some(self)
        } else if path[0] < self.children.len() {
            self.children[path[0] as int].node_at(path.drop_first())
        } else {
            None
        }
    }

    /// What the node counts for in its ancestors.
    pub open spec fn amounts(self) -> Amounts {
        Amounts { size: self.size, file_count: self.file_count, dir_count: self.dir_count }
    }

    /// The node with smaller counts of its own.
    pub open spec fn reduced(self, by: Amounts) -> NodeView {
        NodeView {
            size: minus(self.size, by.size),
            file_count: minus(self.file_count, by.file_count),
            dir_count: minus(self.dir_count, by.dir_count),
            ..self
        }
    }

    /// The node without a child, no longer counting it.
    pub open spec fn without_child(self, index: int) -> NodeView
        recommends
            0 <= index < self.children.len(),
    {
        NodeView {
            children: self.children.remove(index),
            ..self.reduced(self.children[index].amounts())
        }
    }

    /// The tree with the node at the end of `path` taken from its parent; of
    /// the ancestors only the parent stops counting it.
    pub open spec fn detached(self, path: Seq<usize>) -> NodeView
        recommends
            path.len() > 0,
            self.node_at(path) is Some,
        decreases path.len(),
    {
        if path.len() <= 1 {
            self.without_child(path[0] as int)
        } else {
            let child = self.children[path[0] as int];
            NodeView {
                children: self.children.update(
                    path[0] as int,
                    child.detached(path.drop_first()),
                ),
                ..self
            }
        }
    }

    /// The tree with the counts of the node and of the nodes along `chain`
    /// reduced, as far as the chain can be followed.
    pub open spec fn reduced_along(self, chain: Seq<usize>, by: Amounts) -> NodeView
        decreases chain.len(),
    {
        if chain.len() == 0 || chain[0] >= self.children.len() {
            self.reduced(by)
        } else {
            let child = self.children[chain[0] as int];
            NodeView {
                children: self.children.update(
                    chain[0] as int,
                    child.reduced_along(chain.drop_first(), by),
                ),
                ..self.reduced(by)
            }
        }
    }

    /// The tree without the node at the end of `path`, which no ancestor counts
    /// any longer.
    pub open spec fn removed(self, path: Seq<usize>) -> NodeView
        recommends
            path.len() > 0,
            self.node_at(path) is Some,
        decreases path.len(),
    {
        if path.len() <= 1 {
            self.without_child(path[0] as int)
        } else {
            let child = self.children[path[0] as int];
            NodeView {
                children: self.children.update(path[0] as int, child.removed(path.drop_first())),
                ..self.reduced(self.node_at(path).unwrap().amounts())
            }
        }
    }
}

/// A count over several trees.
pub open spec fn forest_total(nodes: Seq<NodeView>, m: Measure) -> nat
    decreases nodes,
{
    if nodes.len() == 0 {
        0
    } else {
        forest_total(nodes.drop_last(), m) + nodes.last().total(m)
    }
}

/// The sum of a count that each of several nodes keeps.
pub open spec fn field_sum(nodes: Seq<NodeView>, f: Field) -> nat
    decreases nodes.len(),
{
    if nodes.len() == 0 {
        0
    } else {
        field_sum(nodes.drop_last(), f) + nodes.last().field(f)
    }
}

/// Whether the counts kept in several trees are right.
pub open spec fn all_consistent(nodes: Seq<NodeView>) -> bool
    decreases nodes,
{
    forall|i: int| 0 <= i < nodes.len() ==> (#[trigger] nodes[i]).consistent()
}

} // verus!
