//! File system paths.

use crate::model::NodeView;
use std::path::PathBuf;
use vstd::prelude::*;

verus! {

/// The owned path type of the standard library.
#[verifier::external_type_specification]
#[verifier::external_body]
pub struct ExPathBuf(PathBuf);

/// The text that a path made of text holds.
pub uninterp spec fn path_text(path: PathBuf) -> Seq<char>;

/// A path followed by one more part, on Unix: an absolute part takes the place
/// of the path; any other is put behind it, with a slash between them unless
/// the path is empty or ends in one.
pub open spec fn joined(path: Seq<char>, part: Seq<char>) -> Seq<char> {
    if part.len() > 0 && part[0] == '/' {
        part
    } else if path.len() == 0 || path.last() == '/' {
        path + part
    } else {
        path + seq!['/'] + part
    }
}

/// The path of the node at the end of `path`, where `node` itself lies at
/// `base`.
pub open spec fn path_at(node: NodeView, base: Seq<char>, path: Seq<usize>) -> Option<Seq<char>>
    decreases path.len(),
{
    if path.len() == 0 {
        Some(base)
    } else if path[0] < node.children.len() {
        let child = node.children[path[0] as int];
        path_at(child, joined(base, child.name), path.drop_first())
    } else {
        None
    }
}

/// `PathBuf::from`: the path holds the given text.
#[verifier::external_body]
pub(crate) fn path_from(text: &str) -> (r: PathBuf)
    ensures
        path_text(r) == text@,
{
    PathBuf::from(text)
}

/// `PathBuf::push`: on Unix the path becomes what [`joined`] says. The rules of
/// other systems for drive letters and backslashes are not stated.
#[verifier::external_body]
pub(crate) fn path_push(path: &mut PathBuf, part: &str)
    ensures
        path_text(*final(path)) == joined(path_text(*old(path)), part@),
{
    path.push(part);
}

/// A node has a path in the file system exactly when the tree has it.
pub proof fn law_path_exists_iff_node_does(node: NodeView, base: Seq<char>, path: Seq<usize>)
    ensures
        path_at(node, base, path) is Some <==> node.node_at(path) is Some,
    decreases path.len(),
{
    if path.len() > 0 && path[0] < node.children.len() {
        let child = node.children[path[0] as int];
        law_path_exists_iff_node_does(child, joined(base, child.name), path.drop_first());
    }
}

/// A child lies at its parent's path joined with its own name.
pub proof fn law_child_path_extends_parent_path(
    node: NodeView,
    base: Seq<char>,
    path: Seq<usize>,
    index: usize,
)
    requires
        node.node_at(path) is Some,
        index < node.node_at(path).unwrap().children.len(),
    ensures
        path_at(node, base, path) is Some,
        path_at(node, base, path.push(index)) == Some(
            joined(
                path_at(node, base, path).unwrap(),
                node.node_at(path).unwrap().children[index as int].name,
            ),
        ),
    decreases path.len(),
{
    let longer = path.push(index);
    if path.len() == 0 {
        let child = node.children[index as int];
        assert(longer.drop_first() =~= Seq::<usize>::empty());
        assert(path_at(child, joined(base, child.name), longer.drop_first()) == Some(
            joined(base, child.name),
        ));
    } else {
        let child = node.children[path[0] as int];
        assert(longer.drop_first() =~= path.drop_first().push(index));
        law_child_path_extends_parent_path(
            child,
            joined(base, child.name),
            path.drop_first(),
            index,
        );
    }
}

/// Joining: an absolute part stands alone; a part goes right behind an empty
/// path or one that ends in a slash; in all other cases a slash stands between.
pub proof fn law_joining(path: Seq<char>, part: Seq<char>)
    ensures
        joined(path, seq!['/'] + part) == seq!['/'] + part,
        part.len() == 0 || part[0] != '/' ==> {
            &&& joined(Seq::empty(), part) == part
            &&& joined(path + seq!['/'], part) == path + seq!['/'] + part
            &&& path.len() > 0 && path.last() != '/' ==> joined(path, part) == path + seq!['/']
                + part
        },
{
    assert((seq!['/'] + part)[0] == '/');
    assert(Seq::<char>::empty() + part =~= part);
    assert((path + seq!['/']).last() == '/');
}

/// The path of a node is its base followed by the names on the way: none for the
/// empty path, and for a longer one the first child's name and then the way from
/// that child on.
pub proof fn law_path_goes_by_names(
    node: NodeView,
    base: Seq<char>,
    index: usize,
    rest: Seq<usize>,
)
    ensures
        path_at(node, base, Seq::<usize>::empty()) == Some(base),
        index >= node.children.len() ==> path_at(node, base, seq![index] + rest) is None,
        index < node.children.len() ==> path_at(node, base, seq![index] + rest) == path_at(
            node.children[index as int],
            joined(base, node.children[index as int].name),
            rest,
        ),
{
    assert((seq![index] + rest).drop_first() =~= rest);
}

} // verus!
