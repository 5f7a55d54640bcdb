use macdirstat::firmlinks::{insert_firmlink, load_firmlinks, parse_firmlink, parse_firmlinks};
use macdirstat::scan::{is_mirror_in_scan, ScanCtx, VisitedDirs};
use macdirstat::strmap::StrMap;

fn table(pairs: &[(&str, &str)]) -> StrMap<Box<str>> {
    let mut map = StrMap::new();
    for (target, canonical) in pairs {
        map.insert((*target).into(), (*canonical).into());
    }
    map
}

/// Mirror pruning: exact targets and anything beneath them are skipped
/// when the canonical is in the scan; siblings, lookalike prefixes, and
/// mirrors whose canonical is outside the scan are kept. Containment is
/// component-wise: `/users2` is not under `/users`.
#[test]
fn firmlink_mirror_matching() {
    let ctx_for = |root: &str| ScanCtx {
        visited: VisitedDirs::default(),
        firmlinks: table(&[
            ("Users", "/users"),
            ("System/Library/Caches", "/system/library/caches"),
            ("usr/local", "/usr/local"),
            ("Other", "/users2"),
        ]),
        data_root: None,
        scan_root: root.into(),
    };
    let root = ctx_for("/");
    assert!(is_mirror_in_scan("Users", &root));
    assert!(is_mirror_in_scan("Users/gregoreesmaa", &root));
    assert!(is_mirror_in_scan("System/Library/Caches", &root));
    assert!(!is_mirror_in_scan("System/Library", &root));
    assert!(!is_mirror_in_scan("System", &root));
    assert!(!is_mirror_in_scan("Users2", &root));
    assert!(!is_mirror_in_scan("Applications", &root));
    assert!(!is_mirror_in_scan("usr/libexec", &root));
    assert!(is_mirror_in_scan("usr/local/bin", &root));

    // Same mirrors, narrower scan: canonicals outside are kept.
    let sys = ctx_for("/system");
    assert!(!is_mirror_in_scan("Users", &sys));
    assert!(is_mirror_in_scan("System/Library/Caches", &sys));
    assert!(is_mirror_in_scan("System/Library/Caches/x", &sys));
    assert!(!is_mirror_in_scan("usr/local", &sys));

    // Canonical boundary even when the target matches textually.
    let user = ctx_for("/user");
    assert!(!is_mirror_in_scan("Users", &user));

    // Canon-side boundary: "/users2" is not under "/users".
    let users = ctx_for("/users");
    assert!(!is_mirror_in_scan("Other", &users));

    // Empty table prunes nothing.
    let empty = ScanCtx {
        visited: VisitedDirs::default(),
        firmlinks: StrMap::new(),
        data_root: None,
        scan_root: "/".into(),
    };
    assert!(!is_mirror_in_scan("Users", &empty));
}

/// The firmlink parser skips blanks, comments, and malformed lines,
/// trims slashes, and lowercases canonicals.
#[test]
fn parse_firmlinks_edges() {
    let pairs = parse_firmlinks(
        "# comment\n\nUsers\tUsers\nopt/\t/opt/\nUSERS2\tUSERS2\nCanonDir\tTargetName\n\
         bad-line-no-tab\nempty-target\t\n\t\nSystem/Library/Caches\tSystem/Library/Caches\n",
    );
    assert_eq!(pairs.get("Users"), Some(&"/users".into()));
    assert_eq!(pairs.get("opt"), Some(&"/opt".into()));
    assert_eq!(pairs.get("USERS2"), Some(&"/users2".into()));
    // Asymmetric pair pins column order: target keys, canonical values.
    assert_eq!(pairs.get("TargetName"), Some(&"/canondir".into()));
    assert!(!pairs.entries().iter().any(|(k, _)| &**k == "CanonDir"));
    assert_eq!(
        pairs.get("System/Library/Caches"),
        Some(&"/system/library/caches".into())
    );
    assert!(!pairs.entries().iter().any(|(k, _)| &**k == "bad-line-no-tab"));
    assert!(!pairs.entries().iter().any(|(k, _)| &**k == "empty-target"));
    assert_eq!(pairs.len(), 5);
    assert!(parse_firmlinks("").is_empty());
}

/// A table as the system ships it parses to the expected pairs.
#[test]
fn firmlink_table_loads() {
    let pairs = load_firmlinks(Some(
        "/AppleInternal\tAppleInternal\n/Applications\tApplications\n/Library\tLibrary\n\
         /System/Library/Caches\tSystem/Library/Caches\n/Users\tUsers\n/usr/local\tusr/local\n",
    ));
    assert_eq!(pairs.get("Users"), Some(&"/users".into()));
    assert_eq!(
        pairs.get("System/Library/Caches"),
        Some(&"/system/library/caches".into())
    );
    for (target, canon) in pairs.entries().iter() {
        assert!(!target.is_empty());
        assert!(!target.starts_with('/'));
        assert!(canon.starts_with('/'), "canonical must be absolute");
    }
}

#[test]
fn unreadable_table_is_empty() {
    assert!(load_firmlinks(None).is_empty());
}

#[test]
fn one_line_gives_target_and_canonical() {
    assert_eq!(parse_firmlink("/Users\tUsers"), Some(("Users", "Users")));
    assert_eq!(parse_firmlink("  a/b \t /c/d/ \r"), Some(("c/d", "a/b")));
    assert_eq!(parse_firmlink("a\tb\tc"), Some(("b\tc", "a")));
    assert_eq!(parse_firmlink(" # a\tb"), None);
    assert_eq!(parse_firmlink("a b"), None);
    assert_eq!(parse_firmlink("/\tb"), None);
    assert_eq!(parse_firmlink("a\t//"), None);
    assert_eq!(parse_firmlink(""), None);
}

#[test]
fn windows_line_ends_change_nothing() {
    let unix = parse_firmlinks("/Users\tUsers\n/opt\topt\n");
    let dos = parse_firmlinks("/Users\tUsers\r\n/opt\topt\r\n");
    assert_eq!(unix.len(), 2);
    assert_eq!(dos.len(), 2);
    assert_eq!(unix.get("Users"), dos.get("Users"));
    assert_eq!(unix.get("opt"), dos.get("opt"));
}

#[test]
fn later_line_for_a_target_counts() {
    let pairs = parse_firmlinks("first\tx\nsecond\tx");
    assert_eq!(pairs.len(), 1);
    assert_eq!(pairs.get("x"), Some(&"/second".into()));
}

#[test]
fn canonicals_are_lowered_beyond_ascii() {
    let pairs = parse_firmlinks("\u{c4}PFEL\tobst");
    assert_eq!(pairs.get("obst"), Some(&"/\u{e4}pfel".into()));
}

#[test]
fn inserted_link_gets_its_slash() {
    let mut map = StrMap::new();
    insert_firmlink(&mut map, "Users", "users");
    assert_eq!(map.get("Users"), Some(&"/users".into()));
    insert_firmlink(&mut map, "Users", "home");
    assert_eq!(map.get("Users"), Some(&"/home".into()));
    assert_eq!(map.len(), 1);
}

/// Double slashes make empty components: each cut is tried as it stands.
#[test]
fn parents_are_tried_up_to_the_first_component() {
    let ctx = ScanCtx {
        visited: VisitedDirs::default(),
        firmlinks: table(&[("a/", "/x"), ("b", "/y")]),
        data_root: None,
        scan_root: "/".into(),
    };
    assert!(is_mirror_in_scan("a//c", &ctx));
    assert!(!is_mirror_in_scan("a/c", &ctx));
    assert!(is_mirror_in_scan("b/c/d/e", &ctx));
    assert!(!is_mirror_in_scan("", &ctx));
}
