use macdirstat::stats::{
    add_bytes, collect_extensions, drain_record, merge_extensions, sorted_extensions,
};
use macdirstat::strmap::StrMap;
use macdirstat::tree::{FileNode, FileTree, TreePath};

fn file(name: &str, size: u64) -> FileNode {
    FileNode {
        name: name.into(),
        size,
        is_dir: false,
        children: Vec::new(),
        rect: treemap::Rect::new(),
        file_count: 1,
        dir_count: 0,
    }
}

fn dir(name: &str, children: Vec<FileNode>) -> FileNode {
    FileNode {
        name: name.into(),
        size: children.iter().map(|c| c.size).sum(),
        is_dir: true,
        rect: treemap::Rect::new(),
        file_count: children.iter().map(|c| c.file_count).sum(),
        dir_count: 1 + children.iter().map(|c| c.dir_count).sum::<u64>(),
        children,
    }
}

/// /top with docs/{a.txt, deep/{b.md, c}} and d.txt.
fn sample() -> FileTree {
    FileTree {
        root: dir(
            "/top",
            vec![
                dir(
                    "docs",
                    vec![
                        file("a.txt", 100),
                        dir("deep", vec![file("b.md", 30), file("c", 7)]),
                    ],
                ),
                file("d.txt", 11),
            ],
        ),
        root_path: "/top".to_string(),
        extensions: Vec::new(),
    }
}

fn counts(node: &FileNode) -> (u64, u64, u64) {
    (node.size, node.file_count, node.dir_count)
}

#[test]
fn extension_of_nodes() {
    assert_eq!(file("a.txt", 0).extension(), "txt");
    assert_eq!(file("a.tar.gz", 0).extension(), "gz");
    assert_eq!(file("a.", 0).extension(), "");
    assert_eq!(file("a", 0).extension(), "");
    assert_eq!(file(".bashrc", 0).extension(), "bashrc");
    assert_eq!(dir("a.app", Vec::new()).extension(), "");
}

#[test]
fn paths_resolve() {
    let tree = sample();
    let path: TreePath = vec![0, 1, 0];
    assert_eq!(&*tree.root.resolve_path(&path).unwrap().name, "b.md");
    assert_eq!(&*tree.root.resolve_path(&[]).unwrap().name, "/top");
    assert!(tree.root.resolve_path(&[2]).is_none());
    assert!(tree.root.resolve_path(&[1, 0]).is_none());
    let below = tree.root.resolve_path(&[0]).unwrap();
    assert_eq!(&*below.resolve_path(&[1, 0]).unwrap().name, "b.md");
}

#[test]
fn file_system_paths() {
    let tree = sample();
    assert_eq!(
        tree.build_fs_path(&[0, 1, 0]).unwrap().to_str(),
        Some("/top/docs/deep/b.md")
    );
    assert_eq!(tree.build_fs_path(&[]).unwrap().to_str(), Some("/top"));
    assert!(tree.build_fs_path(&[0, 1, 2]).is_none());
    assert!(tree.build_fs_path(&[usize::MAX]).is_none());
}

#[test]
fn file_system_path_joins() {
    let mut tree = sample();
    tree.root_path = "/".to_string();
    assert_eq!(tree.build_fs_path(&[0, 0]).unwrap().to_str(), Some("/docs/a.txt"));
    tree.root_path = String::new();
    assert_eq!(tree.build_fs_path(&[0, 0]).unwrap().to_str(), Some("docs/a.txt"));
    tree.root_path = "rel/".to_string();
    assert_eq!(tree.build_fs_path(&[1]).unwrap().to_str(), Some("rel/d.txt"));
    tree.root.children[0].name = "/else".into();
    assert_eq!(tree.build_fs_path(&[0, 0]).unwrap().to_str(), Some("/else/a.txt"));
    tree.root.children[0].name = "".into();
    assert_eq!(tree.build_fs_path(&[0]).unwrap().to_str(), Some("rel/"));
    tree.root_path = "rel".to_string();
    assert_eq!(tree.build_fs_path(&[0]).unwrap().to_str(), Some("rel/"));
}

#[test]
fn child_is_removed() {
    let mut node = dir("x", vec![file("a", 1), file("b", 2), file("c", 4)]);
    let gone = node.remove_child(1);
    assert_eq!(&*gone.name, "b");
    assert_eq!(counts(&node), (5, 2, 1));
    let names: Vec<&str> = node.children.iter().map(|c| &*c.name).collect();
    assert_eq!(names, ["a", "c"]);
}

/// Counts that were too small already stop at zero.
#[test]
fn removal_saturates() {
    let mut node = dir("x", vec![file("a", 9)]);
    node.size = 3;
    node.file_count = 0;
    node.remove_child(0);
    assert_eq!(counts(&node), (0, 0, 1));
}

/// Removing updates all ancestors and keeps the counts right.
#[test]
fn removal_updates_all_ancestors() {
    let mut tree = sample();
    assert_eq!(counts(&tree.root), (148, 4, 3));
    let gone = tree.remove_at_path(&[0, 1, 0]).unwrap();
    assert_eq!(&*gone.name, "b.md");
    assert_eq!(counts(&tree.root), (118, 3, 3));
    assert_eq!(counts(&tree.root.children[0]), (107, 2, 2));
    assert_eq!(counts(&tree.root.children[0].children[1]), (7, 1, 1));
    assert_eq!(counts(&tree.root.children[1]), (11, 1, 0));
    let gone = tree.remove_at_path(&[0]).unwrap();
    assert_eq!(counts(&gone), (107, 2, 2));
    assert_eq!(counts(&tree.root), (11, 1, 1));
    assert_eq!(tree.root.children.len(), 1);
}

#[test]
fn invalid_removals_change_nothing() {
    let mut tree = sample();
    assert!(tree.remove_at_path(&[]).is_none());
    assert!(tree.remove_at_path(&[2]).is_none());
    assert!(tree.remove_at_path(&[0, 2]).is_none());
    assert!(tree.remove_at_path(&[7, 0]).is_none());
    assert!(tree.remove_at_path(&[1, 0]).is_none());
    assert_eq!(counts(&tree.root), (148, 4, 3));
    assert_eq!(counts(&tree.root.children[0]), (137, 3, 2));
}

/// Taking a child from its parent and then reducing the ancestors is removing
/// the node at its path.
#[test]
fn removal_is_detaching_and_reducing() {
    let mut whole = sample();
    whole.remove_at_path(&[0, 1, 0]);
    let mut steps = sample();
    let gone = steps.root.children[0].children[1].remove_child(0);
    steps.subtract_from_ancestors(&[0, 1, 0], gone.size, gone.file_count, gone.dir_count);
    assert_eq!(counts(&whole.root), counts(&steps.root));
    assert_eq!(counts(&whole.root.children[0]), counts(&steps.root.children[0]));
    assert_eq!(
        counts(&whole.root.children[0].children[1]),
        counts(&steps.root.children[0].children[1])
    );
}

#[test]
fn reduction_leaves_the_parent_alone() {
    let mut tree = sample();
    tree.subtract_from_ancestors(&[0, 1, 0], 10, 1, 0);
    assert_eq!(counts(&tree.root), (138, 3, 3));
    assert_eq!(counts(&tree.root.children[0]), (127, 2, 2));
    assert_eq!(counts(&tree.root.children[0].children[1]), (37, 2, 1));
    // The root is an ancestor of its children, but not of itself; a broken
    // path stops the walk.
    tree.subtract_from_ancestors(&[0], 8, 0, 0);
    assert_eq!(counts(&tree.root), (130, 3, 3));
    tree.subtract_from_ancestors(&[], 0, 0, 1);
    assert_eq!(counts(&tree.root), (130, 3, 3));
    tree.subtract_from_ancestors(&[9, 0, 0, 0], 1, 0, 0);
    assert_eq!(counts(&tree.root), (129, 3, 3));
    assert_eq!(counts(&tree.root.children[0]), (127, 2, 2));
    tree.subtract_from_ancestors(&[0, 1], u64::MAX, u64::MAX, u64::MAX);
    assert_eq!(counts(&tree.root), (0, 0, 0));
    assert_eq!(counts(&tree.root.children[0]), (127, 2, 2));
}

#[test]
fn statistics_are_rebuilt() {
    let mut tree = sample();
    tree.rebuild_extensions();
    let expected: Vec<(Box<str>, u64)> =
        vec![("txt".into(), 111), ("md".into(), 30), ("(no ext)".into(), 7)];
    assert_eq!(tree.extensions, expected);
    tree.remove_at_path(&[0, 0]);
    tree.rebuild_extensions();
    let expected: Vec<(Box<str>, u64)> =
        vec![("md".into(), 30), ("txt".into(), 11), ("(no ext)".into(), 7)];
    assert_eq!(tree.extensions, expected);
}

/// A bucket of empty files is listed, with no bytes.
#[test]
fn empty_files_have_a_bucket() {
    let mut tree = sample();
    tree.root = dir("x", vec![file("a.log", 0)]);
    tree.rebuild_extensions();
    let expected: Vec<(Box<str>, u64)> = vec![("log".into(), 0)];
    assert_eq!(tree.extensions, expected);
}

/// Which thread recorded which file does not matter.
#[test]
fn scan_and_rebuild_agree() {
    let mut one = StrMap::new();
    let mut two = StrMap::new();
    let source = sample();
    collect_extensions(&source.root.children[0].children[1], &mut one);
    collect_extensions(&source.root.children[1], &mut one);
    collect_extensions(&source.root.children[0].children[0], &mut two);
    let mut tree = FileTree::scan(source.root, "/top".to_string(), vec![one, StrMap::new(), two]);
    let scanned = tree.extensions.clone();
    tree.rebuild_extensions();
    assert_eq!(scanned, tree.extensions);
    assert_eq!(tree.root_path, "/top");
}

#[test]
fn records_are_merged() {
    let mut global = StrMap::new();
    add_bytes(&mut global, "a".into(), 1);
    add_bytes(&mut global, "b".into(), 2);
    let mut local = StrMap::new();
    add_bytes(&mut local, "b".into(), 40);
    add_bytes(&mut local, "c".into(), 5);
    merge_extensions(&mut global, local);
    let listed: Vec<(Box<str>, u64)> = vec![("b".into(), 42), ("c".into(), 5), ("a".into(), 1)];
    assert_eq!(sorted_extensions(global), listed);
}

#[test]
fn map_keeps_the_latest_value() {
    let mut map: StrMap<u64> = StrMap::default();
    assert!(map.is_empty());
    map.insert("x".into(), 1);
    map.insert("y".into(), 2);
    map.insert("x".into(), 3);
    assert_eq!(map.len(), 2);
    assert!(!map.is_empty());
    assert_eq!(map.get("x"), Some(&3));
    assert_eq!(map.get("z"), None);
    let listed: Vec<(Box<str>, u64)> = vec![("x".into(), 3), ("y".into(), 2)];
    assert_eq!(map.entries(), &listed);
    assert_eq!(map.into_entries(), listed);
}

/// Whatever the list held before, a rebuild gives the statistics of the tree,
/// and their bytes add up to the size of the root.
#[test]
fn rebuild_depends_on_the_tree_alone() {
    let mut tree = sample();
    tree.extensions = vec![("txt".into(), 5), ("old".into(), 1)];
    tree.rebuild_extensions();
    let first = tree.extensions.clone();
    assert_eq!(first.iter().map(|(_, bytes)| bytes).sum::<u64>(), 148);
    tree.rebuild_extensions();
    assert_eq!(tree.extensions, first);
    assert_eq!(counts(&tree.root), (148, 4, 3));
    assert_eq!(tree.root_path, "/top");
}

#[test]
fn root_has_no_ancestors() {
    let mut tree = sample();
    tree.subtract_from_ancestors(&[], 100, 1, 1);
    assert_eq!(counts(&tree.root), (148, 4, 3));
    assert_eq!(counts(&tree.root.children[0]), (137, 3, 2));
}

#[test]
fn drained_record_is_empty() {
    let mut record = StrMap::new();
    add_bytes(&mut record, "a".into(), 3);
    let drained = drain_record(&mut record);
    assert!(record.is_empty());
    assert_eq!(drained.get("a"), Some(&3));
    assert_eq!(drained.len(), 1);
}

/// A file on the way to the removed node loses bytes of its own.
#[test]
fn removal_below_a_file_reduces_the_file() {
    let mut odd = file("odd.txt", 10);
    odd.children = vec![file("inner.md", 4)];
    let mut tree = sample();
    tree.root = dir("x", vec![odd]);
    tree.remove_at_path(&[0, 0]);
    assert_eq!(counts(&tree.root), (6, 0, 1));
    assert_eq!(counts(&tree.root.children[0]), (6, 0, 0));
    tree.rebuild_extensions();
    let expected: Vec<(Box<str>, u64)> = vec![("txt".into(), 6)];
    assert_eq!(tree.extensions, expected);
}
