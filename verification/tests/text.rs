use macdirstat::extension::{ext_bucket, raw_extension};
use macdirstat::text::{
    boxed, characters, find_first, find_last, pads, split_first, split_last, trim, Padding,
};

const SAMPLES: [&str; 12] = [
    "",
    " ",
    "/",
    "a",
    "a.b.c",
    " a / b ",
    "//a//",
    "\t\r\n x \u{3000}",
    "\u{e9}.\u{df}",
    ".",
    "a\tb\tc",
    "\u{2028}\u{1f600}.\u{1f600}\u{85}",
];

#[test]
fn splits_match_the_standard_library() {
    for s in SAMPLES {
        for c in ['.', '/', '\t', ' ', '\u{1f600}'] {
            assert_eq!(split_first(s, c), s.split_once(c));
            assert_eq!(split_last(s, c), s.rsplit_once(c));
        }
    }
}

#[test]
fn trimming_matches_the_standard_library() {
    for s in SAMPLES {
        assert_eq!(trim(s, Padding::Space), s.trim());
        assert_eq!(trim(s, Padding::Slash), s.trim_matches('/'));
    }
}

#[test]
fn blanks_are_those_of_the_standard_library() {
    for c in '\0'..=char::MAX {
        assert_eq!(pads(Padding::Space, c), c.is_whitespace());
        assert_eq!(pads(Padding::Slash, c), c == '/');
    }
}

#[test]
fn positions_are_counted_in_characters() {
    assert_eq!(find_first("\u{e9}.\u{df}.", '.'), Some(1));
    assert_eq!(find_last("\u{e9}.\u{df}.", '.'), Some(3));
    assert_eq!(find_first("abc", '.'), None);
    assert_eq!(find_last("abc", '.'), None);
}

#[test]
fn copies_hold_the_text() {
    assert_eq!(&*boxed("a\u{e9}"), "a\u{e9}");
    assert_eq!(characters("a\u{e9}"), vec!['a', '\u{e9}']);
}

#[test]
fn extensions_and_buckets() {
    assert_eq!(raw_extension("photo.JPG"), "JPG");
    assert_eq!(raw_extension("a.b.c"), "c");
    assert_eq!(raw_extension("trailing."), "");
    assert_eq!(raw_extension("none"), "");
    assert_eq!(raw_extension(""), "");
    assert_eq!(raw_extension(".hidden"), "hidden");
    assert_eq!(&*ext_bucket("photo.JPG"), "JPG");
    assert_eq!(&*ext_bucket("trailing."), "(no ext)");
    assert_eq!(&*ext_bucket("none"), "(no ext)");
}
