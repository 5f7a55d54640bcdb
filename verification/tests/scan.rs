use macdirstat::listing::{build_node, split_entries, DirEntry};
use macdirstat::scan::{
    child_data_rel, claim_ident, enter_child, enter_root, make_scan_ctx, new_scan_ctx, ChildStep,
    ScanCtx, VisitedDirs,
};
use macdirstat::strmap::StrMap;
use macdirstat::tree::{FileNode, FileTree};

/// A file system held in memory.
struct Fake {
    name: &'static str,
    ident: Option<(u64, u64)>,
    size: u64,
    dir: Option<Vec<Fake>>,
}

fn file(name: &'static str, size: u64) -> Fake {
    Fake { name, ident: None, size, dir: None }
}

fn dir(name: &'static str, ino: u64, inside: Vec<Fake>) -> Fake {
    Fake { name, ident: Some((1, ino)), size: 0, dir: Some(inside) }
}

fn walk(
    inside: &[Fake],
    name: &str,
    ctx: &mut ScanCtx,
    data_rel: Option<&str>,
    record: &mut StrMap<u64>,
) -> FileNode {
    let entries = inside
        .iter()
        .map(|f| DirEntry { name: f.name.into(), file_size: f.size, is_dir: f.dir.is_some() })
        .collect();
    let listing = split_entries(entries, record);
    let mut dir_nodes = Vec::new();
    for entry in &listing.dir_entries {
        let below = inside.iter().find(|f| f.name == &*entry.name).unwrap();
        match enter_child(&entry.name, below.ident, data_rel, ctx) {
            ChildStep::Skip => {}
            ChildStep::Descend { data_rel } => dir_nodes.push(walk(
                below.dir.as_ref().unwrap(),
                &entry.name,
                ctx,
                data_rel.as_deref(),
                record,
            )),
        }
    }
    build_node(name.into(), listing, dir_nodes)
}

fn scan(root: &Fake) -> FileTree {
    let mut ctx = make_scan_ctx(root.name, StrMap::new(), None);
    let mut record = StrMap::new();
    let rel = enter_root(root.ident, &mut ctx);
    let node = walk(
        root.dir.as_ref().unwrap(),
        root.name,
        &mut ctx,
        rel.as_deref(),
        &mut record,
    );
    FileTree::scan(node, root.name.to_string(), vec![record])
}

fn find_child<'a>(root: &'a FileNode, name: &str) -> &'a FileNode {
    root.children
        .iter()
        .find(|c| &*c.name == name)
        .unwrap_or_else(|| panic!("missing child {name}"))
}

fn bucket(exts: &[(Box<str>, u64)], name: &str) -> Option<u64> {
    exts.iter().find(|(ext, _)| &**ext == name).map(|(_, n)| *n)
}

/// A symlink is listed as a file: it stays a childless file node with the size
/// of the link, and its target is counted once.
#[test]
fn scan_does_not_follow_symlinks() {
    let base = dir(
        "base",
        1,
        vec![
            dir("real", 2, vec![file("file.txt", 1024)]),
            file("link_to_real", 4),
            file("link_to_file", 13),
            file("loop", 4),
        ],
    );
    let tree = scan(&base);

    let link = find_child(&tree.root, "link_to_real");
    assert!(!link.is_dir, "symlink to a dir must not be a dir node");
    assert!(link.children.is_empty());
    let lf = find_child(&tree.root, "link_to_file");
    assert!(!lf.is_dir, "symlink to a file must not be a dir node");
    assert!(lf.children.is_empty());
    assert!(
        lf.size < find_child(&tree.root, "real").size,
        "file link reports link size"
    );
    let lp = find_child(&tree.root, "loop");
    assert!(!lp.is_dir, "symlink loop must not be a dir node");
    let real = find_child(&tree.root, "real");
    assert!(real.is_dir);
    assert_eq!(real.children.len(), 1);
    assert!(
        link.size < real.size,
        "symlink must report link size, not target size"
    );
    let sum: u64 = tree.root.children.iter().map(|c| c.size).sum();
    assert_eq!(tree.root.size, sum, "target must be counted once");
    assert_eq!(tree.root.file_count, 4, "real file + 3 links");
}

/// Same directory seen twice (e.g. firmlink mirror paths share dev+ino):
/// the second claim must be rejected so its contents aren't counted twice.
#[test]
fn claim_dir_rejects_second_fd_to_same_dir() {
    let mut visited = VisitedDirs::default();
    assert!(claim_ident(Some((16, 42)), &mut visited));
    assert!(
        !claim_ident(Some((16, 42)), &mut visited),
        "same dir via a second fd must be rejected"
    );
}

/// Distinct directories must never be pruned: no false-positive dedup.
#[test]
fn scan_keeps_distinct_directories() {
    let base = dir(
        "base",
        1,
        vec![
            dir("a", 2, vec![file("file.txt", 512)]),
            dir("b", 3, vec![file("file.txt", 512)]),
            file("top.md", 256),
            file("README", 128),
        ],
    );
    let mut tree = scan(&base);

    let a = find_child(&tree.root, "a");
    let b = find_child(&tree.root, "b");
    assert!(a.is_dir && b.is_dir);
    assert_eq!(a.children.len(), 1);
    assert_eq!(b.children.len(), 1);
    assert_eq!(tree.root.dir_count, 3, "root + a + b");
    assert_eq!(tree.root.file_count, 4, "one file per dir + top-level");
    // Extension stats drain into the tree: both txt files, summed.
    assert_eq!(bucket(&tree.extensions, "txt"), Some(a.size + b.size));
    assert_eq!(bucket(&tree.extensions, "md"), Some(256));
    // The extensionless file must land in the "(no ext)" bucket on both
    // the scan path and the rebuild path.
    assert_eq!(bucket(&tree.extensions, "(no ext)"), Some(128));
    let scanned: Vec<(Box<str>, u64)> = tree.extensions.clone();
    tree.rebuild_extensions();
    assert_eq!(bucket(&tree.extensions, "(no ext)"), Some(128));
    assert_eq!(tree.extensions, scanned);
}

fn mirror_fixture(canon: &str) -> (Fake, ScanCtx) {
    let base = dir(
        "base",
        1,
        vec![
            dir("a", 2, vec![file("file.txt", 512)]),
            dir("b", 3, vec![file("file.txt", 512)]),
        ],
    );
    let mut firmlinks: StrMap<Box<str>> = StrMap::new();
    firmlinks.insert("a".into(), canon.into());
    let ctx = ScanCtx {
        visited: VisitedDirs::default(),
        firmlinks,
        data_root: base.ident,
        scan_root: "/base".into(),
    };
    (base, ctx)
}

/// End-to-end prune: with a synthetic ctx treating the fixture root as the Data
/// volume and `a` as a mirror target whose canonical is in the scan, `a`
/// disappears while sibling `b` scans normally.
#[test]
fn firmlink_mirror_subtree_is_skipped() {
    let (base, mut ctx) = mirror_fixture("/base/a");
    let mut record = StrMap::new();
    // The fixture root plays the Data volume: its Data-relative path is "".
    let node = walk(base.dir.as_ref().unwrap(), "base", &mut ctx, Some(""), &mut record);

    assert_eq!(node.children.len(), 1);
    assert_eq!(&*node.children[0].name, "b");
    assert_eq!(node.children[0].children.len(), 1);
    assert_eq!(node.file_count, 1, "only b's file is counted");
    // The pruned mirror is skipped before claiming: only b is visited,
    // and a's identity stays claimable.
    assert!(!claim_ident(Some((1, 3)), &mut ctx.visited));
    assert!(claim_ident(Some((1, 2)), &mut ctx.visited));
    assert!(claim_ident(Some((1, 1)), &mut ctx.visited));
}

/// Same fixture, but the mirror's canonical is outside the scan:
/// the mirror is the only view, so it must be kept (no undercount).
#[test]
fn firmlink_mirror_kept_when_canonical_outside_scan() {
    let (base, mut ctx) = mirror_fixture("/elsewhere/a");
    let mut record = StrMap::new();
    let node = walk(base.dir.as_ref().unwrap(), "base", &mut ctx, Some(""), &mut record);

    assert_eq!(node.children.len(), 2);
    assert_eq!(node.dir_count, 3, "root + a + b");
    assert_eq!(node.file_count, 2, "both files are counted");
}

/// Scan-context wiring: the root is lowered once, and the Data
/// identity is tracked exactly when the table loaded.
#[test]
fn scan_ctx_wiring() {
    let ctx = make_scan_ctx("/Users/Someone/Work", StrMap::new(), Some((9, 9)));
    assert_eq!(&*ctx.scan_root, "/users/someone/work");
    assert_eq!(ctx.data_root.is_some(), !ctx.firmlinks.is_empty());

    let mut firmlinks: StrMap<Box<str>> = StrMap::new();
    firmlinks.insert("Users".into(), "/users".into());
    let ctx = make_scan_ctx("/\u{c4}", firmlinks, Some((9, 9)));
    assert_eq!(&*ctx.scan_root, "/\u{e4}");
    assert_eq!(ctx.data_root.is_some(), !ctx.firmlinks.is_empty());
    assert_eq!(ctx.data_root, Some((9, 9)));
}

/// A scan root that could not be listed yields an empty tree, not a panic.
/// (Unreadable subtrees behave the same: empty dir node, kept in place.)
#[test]
fn scan_of_missing_root_is_empty() {
    let missing = Fake { name: "nope", ident: None, size: 0, dir: Some(Vec::new()) };
    let tree = scan(&missing);
    assert!(tree.root.children.is_empty());
    assert_eq!(tree.root.size, 0);
    assert_eq!(tree.root.file_count, 0);
    assert_eq!(tree.root.dir_count, 1);
    assert!(tree.extensions.is_empty());
    assert_eq!(tree.root_path, "nope");
}

/// An unreadable subdir scans as an empty dir without panicking.
/// (Unreadable content stays visible in place — never silently dropped.)
#[test]
fn scan_tolerates_unreadable_subdir() {
    let base = dir(
        "base",
        1,
        vec![
            Fake { name: "locked", ident: None, size: 0, dir: Some(Vec::new()) },
            dir("open", 3, vec![file("file.txt", 512)]),
        ],
    );
    let tree = scan(&base);

    let locked = find_child(&tree.root, "locked");
    assert!(locked.is_dir && locked.children.is_empty());
    assert_eq!(find_child(&tree.root, "open").children.len(), 1);
    assert_eq!(tree.root.file_count, 1, "only the readable file counts");
}

/// Data-relative path tracking: the Data root itself, plain join,
/// empty-parent join, and the outside-Data case.
#[test]
fn child_data_rel_tracking() {
    let ctx = ScanCtx {
        visited: VisitedDirs::default(),
        firmlinks: StrMap::new(),
        data_root: Some((9, 9)),
        scan_root: "/".into(),
    };
    assert_eq!(
        child_data_rel("x", Some((9, 9)), None, &ctx),
        Some(String::new())
    );
    assert_eq!(child_data_rel("x", Some((1, 2)), None, &ctx), None);
    assert_eq!(
        child_data_rel("c", Some((1, 2)), Some("a/b"), &ctx),
        Some("a/b/c".into())
    );
    assert_eq!(
        child_data_rel("c", Some((1, 2)), Some(""), &ctx),
        Some("c".into())
    );
    // The scan root itself: set only when the root IS the Data volume.
    assert_eq!(
        child_data_rel("", Some((9, 9)), None, &ctx),
        Some(String::new())
    );
    assert_eq!(child_data_rel("", Some((1, 2)), None, &ctx), None);
    assert_eq!(child_data_rel("", None, None, &ctx), None);
}

/// An unknown identity is not that of an unknown Data volume.
#[test]
fn unknown_identities_do_not_match() {
    let ctx = new_scan_ctx("/".into(), StrMap::new(), None);
    assert_eq!(child_data_rel("x", None, None, &ctx), None);
    assert_eq!(child_data_rel("x", None, Some("a"), &ctx), Some("a/x".into()));
}

#[test]
fn data_identity_counts_only_with_a_table() {
    let ctx = new_scan_ctx("/".into(), StrMap::new(), Some((9, 9)));
    assert_eq!(ctx.data_root, None);
    let mut firmlinks: StrMap<Box<str>> = StrMap::new();
    firmlinks.insert("Users".into(), "/users".into());
    let ctx = new_scan_ctx("/".into(), firmlinks, None);
    assert_eq!(ctx.data_root, None);
}

/// A scanned root is named by the path it was opened under, whatever it is.
#[test]
fn scan_through_symlinked_root() {
    let real = Fake {
        name: "linkroot",
        ident: Some((1, 2)),
        size: 0,
        dir: Some(vec![file("file.txt", 512)]),
    };
    let tree = scan(&real);

    assert_eq!(tree.root.children.len(), 1);
    assert_eq!(&*tree.root.children[0].name, "file.txt");
    assert_eq!(tree.root.file_count, 1);
}

#[test]
fn unstated_directories_are_always_claimed() {
    let mut visited = VisitedDirs::default();
    assert!(claim_ident(None, &mut visited));
    assert!(claim_ident(None, &mut visited));
}

#[test]
fn identities_differ_by_device_and_by_inode() {
    let mut visited = VisitedDirs::default();
    assert!(visited.insert((1, 2)));
    assert!(visited.insert((2, 1)));
    assert!(visited.insert((0, u64::MAX)));
    assert!(visited.insert((1, 0)));
    assert!(visited.insert((u64::MAX, u64::MAX)));
    assert!(!visited.insert((1, 2)));
    assert!(!visited.insert((u64::MAX, u64::MAX)));
}

/// One directory under two names is entered once; the first claim wins.
#[test]
fn no_directory_is_entered_twice() {
    let base = dir(
        "base",
        1,
        vec![
            dir("first", 2, vec![file("x.txt", 10)]),
            dir("again", 2, vec![file("x.txt", 10)]),
            dir("inside", 3, vec![dir("itself", 1, vec![file("y", 5)])]),
        ],
    );
    let tree = scan(&base);
    assert_eq!(tree.root.children.len(), 2);
    assert_eq!(&*tree.root.children[0].name, "first");
    assert_eq!(find_child(&tree.root, "inside").children.len(), 0);
    assert_eq!(tree.root.size, 10);
    assert_eq!(tree.root.dir_count, 3);
    assert_eq!(bucket(&tree.extensions, "(no ext)"), None);
}

/// The root is the Data volume: paths below it are relative to it.
#[test]
fn root_that_is_the_data_volume_gets_an_empty_path() {
    let mut firmlinks: StrMap<Box<str>> = StrMap::new();
    firmlinks.insert("Users".into(), "/users".into());
    let mut ctx = make_scan_ctx("/", firmlinks, Some((5, 5)));
    assert_eq!(enter_root(Some((5, 5)), &mut ctx), Some(String::new()));
    assert!(!claim_ident(Some((5, 5)), &mut ctx.visited));
    assert!(matches!(
        enter_child("Users", Some((5, 6)), Some(""), &mut ctx),
        ChildStep::Skip
    ));
    match enter_child("Users", Some((5, 6)), None, &mut ctx) {
        ChildStep::Descend { data_rel } => assert_eq!(data_rel, None),
        ChildStep::Skip => panic!("the mirror was not claimed"),
    }
    match enter_child("private", Some((5, 7)), Some(""), &mut ctx) {
        ChildStep::Descend { data_rel } => assert_eq!(data_rel.as_deref(), Some("private")),
        ChildStep::Skip => panic!("no mirror"),
    }
    let mut other = make_scan_ctx("/", StrMap::new(), Some((5, 5)));
    assert_eq!(enter_root(Some((5, 5)), &mut other), None);
}

/// The Data volume found below another root starts a path of its own.
#[test]
fn data_volume_below_the_root_starts_over() {
    let mut firmlinks: StrMap<Box<str>> = StrMap::new();
    firmlinks.insert("Users".into(), "/users".into());
    let mut ctx = make_scan_ctx("/", firmlinks, Some((5, 5)));
    match enter_child("Data", Some((5, 5)), None, &mut ctx) {
        ChildStep::Descend { data_rel } => assert_eq!(data_rel.as_deref(), Some("")),
        ChildStep::Skip => panic!("the Data volume is no mirror"),
    }
}

#[test]
fn entries_are_split_and_recorded() {
    let entry = |name: &str, file_size: u64, is_dir: bool| DirEntry {
        name: name.into(),
        file_size,
        is_dir,
    };
    let mut record = StrMap::new();
    record.insert("txt".into(), 1);
    let listing = split_entries(
        vec![
            entry("a.txt", 3, false),
            entry("d.txt", 100, true),
            entry("b", 4, false),
            entry("c.txt", 5, false),
        ],
        &mut record,
    );
    assert_eq!(listing.total_size, 12);
    assert_eq!(listing.total_file_count, 3);
    assert_eq!(listing.dir_entries.len(), 1);
    assert_eq!(&*listing.dir_entries[0].name, "d.txt");
    let names: Vec<&str> = listing.file_nodes.iter().map(|n| &*n.name).collect();
    assert_eq!(names, ["a.txt", "b", "c.txt"]);
    assert_eq!(record.get("txt"), Some(&9));
    assert_eq!(record.get("(no ext)"), Some(&4));
    assert_eq!(record.len(), 2);
    let node = build_node("dir".into(), listing, Vec::new());
    assert_eq!((node.size, node.file_count, node.dir_count), (12, 3, 1));
    let sizes: Vec<u64> = node.children.iter().map(|c| c.size).collect();
    assert_eq!(sizes, [5, 4, 3]);
}

/// A node starts as the unit square.
#[test]
fn new_nodes_are_not_laid_out() {
    let tree = scan(&dir("base", 1, vec![file("x", 1)]));
    for node in [&tree.root, &tree.root.children[0]] {
        assert_eq!(node.rect, treemap::Rect { x: 0.0, y: 0.0, w: 1.0, h: 1.0 });
        assert_eq!(
            [
                node.rect.x.to_bits(),
                node.rect.y.to_bits(),
                node.rect.w.to_bits(),
                node.rect.h.to_bits()
            ],
            [0, 0, 0x3ff0_0000_0000_0000, 0x3ff0_0000_0000_0000]
        );
    }
}

fn assert_counted(node: &FileNode) {
    if node.is_dir {
        let sum = |field: fn(&FileNode) -> u64| node.children.iter().map(field).sum::<u64>();
        assert_eq!(node.size, sum(|c| c.size));
        assert_eq!(node.file_count, sum(|c| c.file_count));
        assert_eq!(node.dir_count, 1 + sum(|c| c.dir_count));
    } else {
        assert_eq!((node.file_count, node.dir_count), (1, 0));
        assert!(node.children.is_empty());
    }
    for pair in node.children.windows(2) {
        assert!(pair[0].size >= pair[1].size);
    }
    for child in &node.children {
        assert_counted(child);
    }
}

/// Counts are right and children sorted throughout, and the statistics of the
/// scan are those of the tree.
#[test]
fn deep_scan_is_counted_sorted_and_recorded() {
    let base = dir(
        "base",
        1,
        vec![
            file("z.txt", 1),
            dir(
                "d",
                2,
                vec![
                    file("a.txt", 20),
                    dir("e", 3, vec![file("b.rs", 300), file("c", 40), file("d.rs", 5)]),
                    dir("empty", 4, Vec::new()),
                ],
            ),
            file("y.rs", 50),
        ],
    );
    let mut tree = scan(&base);
    assert_counted(&tree.root);
    assert_eq!((tree.root.size, tree.root.file_count, tree.root.dir_count), (416, 6, 4));
    assert_eq!(&*tree.root.children[0].name, "d");
    let expected: Vec<(Box<str>, u64)> =
        vec![("rs".into(), 355), ("(no ext)".into(), 40), ("txt".into(), 21)];
    assert_eq!(tree.extensions, expected);
    assert_eq!(tree.extensions.iter().map(|(_, n)| n).sum::<u64>(), tree.root.size);
    tree.rebuild_extensions();
    assert_eq!(tree.extensions, expected);
}

/// Directories of unknown identity are all kept, under their names.
#[test]
fn unknown_directories_are_all_kept() {
    let unknown = |name: &'static str| Fake {
        name,
        ident: None,
        size: 0,
        dir: Some(vec![file("x", 1)]),
    };
    let tree = scan(&dir("base", 1, vec![unknown("p"), unknown("q"), unknown("r")]));
    let mut names: Vec<&str> = tree.root.children.iter().map(|c| &*c.name).collect();
    names.sort();
    assert_eq!(names, ["p", "q", "r"]);
    assert_eq!(tree.root.dir_count, 4);
}

/// A firmlink table leaves out mirrors only: distinct directories that are none
/// are all entered.
#[test]
fn distinct_directories_are_kept_under_a_table() {
    let (_, mut ctx) = mirror_fixture("/base/a");
    let inside = [
        dir("a", 2, vec![file("x", 1)]),
        dir("b", 3, vec![file("x", 2)]),
        dir("c", 4, vec![dir("a", 5, vec![file("x", 4)])]),
    ];
    let mut record = StrMap::new();
    let node = walk(&inside, "base", &mut ctx, Some(""), &mut record);
    assert_eq!(node.children.len(), 2);
    assert_eq!(find_child(&node, "b").size, 2);
    assert_eq!(find_child(find_child(&node, "c"), "a").size, 4);
    assert_eq!((node.size, node.dir_count), (6, 4));
}
