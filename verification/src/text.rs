//! Searching, cutting and trimming text, character by character.

use vstd::prelude::*;

verus! {

/// The position of the first `c` in `s`.
pub open spec fn first_index_of(s: Seq<char>, c: char) -> Option<int>
    decreases s.len(),
{
    if s.len() == 0 {
        None
    } else if s[0] == c {
        Some(0)
    } else {
        match first_index_of(s.drop_first(), c) {
            Some(i) => Some(i + 1),
            None => None,
        }
    }
}

/// The position of the last `c` in `s`.
pub open spec fn last_index_of(s: Seq<char>, c: char) -> Option<int>
    decreases s.len(),
{
    if s.len() == 0 {
        None
    } else if s.last() == c {
        Some(s.len() - 1)
    } else {
        last_index_of(s.drop_last(), c)
    }
}

/// `s` cut at every `c`; the pieces hold no `c`.
pub open spec fn pieces(s: Seq<char>, c: char) -> Seq<Seq<char>>
    decreases s.len(),
    via pieces_shrinks
{
    match first_index_of(s, c) {
        Some(i) => seq![s.take(i)] + pieces(s.skip(i + 1), c),
        None => seq![s],
    }
}

#[via_fn]
proof fn pieces_shrinks(s: Seq<char>, c: char) {
    lemma_first_index_of(s, c);
}

/// The first `c` is a `c`, and none stands before it.
pub proof fn lemma_first_index_of(s: Seq<char>, c: char)
    ensures
        match first_index_of(s, c) {
            Some(i) => 0 <= i < s.len() && s[i] == c && forall|j: int|
                0 <= j < i ==> s[j] != c,
            None => forall|j: int| 0 <= j < s.len() ==> s[j] != c,
        },
    decreases s.len(),
{
    if s.len() > 0 && s[0] != c {
        let rest = s.drop_first();
        lemma_first_index_of(rest, c);
        assert forall|j: int| 0 < j < s.len() implies s[j] == rest[j - 1] by {}
    }
}

/// The last `c` is a `c`, and none stands behind it.
pub proof fn lemma_last_index_of(s: Seq<char>, c: char)
    ensures
        match last_index_of(s, c) {
            Some(i) => 0 <= i < s.len() && s[i] == c && forall|j: int|
                i < j < s.len() ==> s[j] != c,
            None => forall|j: int| 0 <= j < s.len() ==> s[j] != c,
        },
    decreases s.len(),
{
    if s.len() > 0 && s.last() != c {
        let front = s.drop_last();
        lemma_last_index_of(front, c);
        assert forall|j: int| 0 <= j < front.len() implies s[j] == front[j] by {}
    }
}

/// The position of the first `c` in `s`, in characters.
pub fn find_first(s: &str, c: char) -> (r: Option<usize>)
    ensures
        match r {
            Some(i) => first_index_of(s@, c) == Some(i as int),
            None => first_index_of(s@, c) is None,
        },
{
    let n: usize = s.unicode_len();
    let mut i: usize = 0;
    proof {
        lemma_first_index_of(s@, c);
    }
    for ch in it: s.chars()
        invariant
            it.seq() == s@,
            i == it.index(),
            n == s@.len(),
            forall|j: int| 0 <= j < i ==> s@[j] != c,
            match first_index_of(s@, c) {
                Some(k) => 0 <= k < s@.len() && s@[k] == c && forall|j: int|
                    0 <= j < k ==> s@[j] != c,
                None => forall|j: int| 0 <= j < s@.len() ==> s@[j] != c,
            },
    {
        if ch == c {
            return Some(i);
        }
        i = i + 1;
    }
    None
}

/// The position of the last `c` in `s`, in characters.
pub fn find_last(s: &str, c: char) -> (r: Option<usize>)
    ensures
        match r {
            Some(i) => last_index_of(s@, c) == Some(i as int),
            None => last_index_of(s@, c) is None,
        },
{
    let n: usize = s.unicode_len();
    let mut i: usize = 0;
    let mut last: Option<usize> = None;
    for ch in it: s.chars()
        invariant
            it.seq() == s@,
            i == it.index(),
            n == s@.len(),
            match last {
                Some(k) => k < i && s@[k as int] == c && forall|j: int|
                    k < j < i ==> s@[j] != c,
                None => forall|j: int| 0 <= j < i ==> s@[j] != c,
            },
    {
        if ch == c {
            last = Some(i);
        }
        i = i + 1;
    }
    proof {
        lemma_last_index_of(s@, c);
    }
    last
}

/// The text before and after the first `c`, as `str::split_once` gives it.
pub fn split_first<'a>(s: &'a str, c: char) -> (r: Option<(&'a str, &'a str)>)
    ensures
        match first_index_of(s@, c) {
            Some(i) => r matches Some((before, after)) && before@ == s@.take(i) && after@
                == s@.skip(i + 1),
            None => r is None,
        },
{
    match find_first(s, c) {
        None => None,
        Some(i) => {
            let n: usize = s.unicode_len();
            proof {
                lemma_first_index_of(s@, c);
            }
            Some((s.substring_char(0, i), s.substring_char(i + 1, n)))
        },
    }
}

/// The text before and after the last `c`, as `str::rsplit_once` gives it.
pub fn split_last<'a>(s: &'a str, c: char) -> (r: Option<(&'a str, &'a str)>)
    ensures
        match last_index_of(s@, c) {
            Some(i) => r matches Some((before, after)) && before@ == s@.take(i) && after@
                == s@.skip(i + 1),
            None => r is None,
        },
{
    match find_last(s, c) {
        None => None,
        Some(i) => {
            let n: usize = s.unicode_len();
            proof {
                lemma_last_index_of(s@, c);
            }
            Some((s.substring_char(0, i), s.substring_char(i + 1, n)))
        },
    }
}

/// What [`trim`] takes off the ends of a text.
#[derive(Clone, Copy)]
pub enum Padding {
    /// Characters with the Unicode property `White_Space`.
    Space,
    /// Slashes.
    Slash,
}

/// Whether `c` has the Unicode property `White_Space`.
pub open spec fn is_space(c: char) -> bool {
    let n = c as int;
    ||| 0x9 <= n <= 0xd
    ||| n == 0x20
    ||| n == 0x85
    ||| n == 0xa0
    ||| n == 0x1680
    ||| 0x2000 <= n <= 0x200a
    ||| n == 0x2028
    ||| n == 0x2029
    ||| n == 0x202f
    ||| n == 0x205f
    ||| n == 0x3000
}

/// Whether `c` is padding of the given kind.
pub open spec fn is_padding(padding: Padding, c: char) -> bool {
    match padding {
        Padding::Space => is_space(c),
        Padding::Slash => c == '/',
    }
}

/// `s` without the padding at its front.
pub open spec fn trimmed_front(s: Seq<char>, padding: Padding) -> Seq<char>
    decreases s.len(),
{
    if s.len() > 0 && is_padding(padding, s[0]) {
        trimmed_front(s.drop_first(), padding)
    } else {
        s
    }
}

/// `s` without the padding at its back.
pub open spec fn trimmed_back(s: Seq<char>, padding: Padding) -> Seq<char>
    decreases s.len(),
{
    if s.len() > 0 && is_padding(padding, s.last()) {
        trimmed_back(s.drop_last(), padding)
    } else {
        s
    }
}

/// `s` without the padding at both ends.
pub open spec fn trimmed(s: Seq<char>, padding: Padding) -> Seq<char> {
    trimmed_back(trimmed_front(s, padding), padding)
}

/// Trimming the front skips everything up to the first character that stays.
pub proof fn lemma_trimmed_front(s: Seq<char>, padding: Padding, start: int)
    requires
        0 <= start <= s.len(),
        forall|j: int| 0 <= j < start ==> is_padding(padding, #[trigger] s[j]),
        start < s.len() ==> !is_padding(padding, s[start]),
    ensures
        trimmed_front(s, padding) == s.skip(start),
    decreases s.len(),
{
    if start > 0 {
        let rest = s.drop_first();
        assert forall|j: int| 0 <= j < rest.len() implies rest[j] == s[j + 1] by {}
        lemma_trimmed_front(rest, padding, start - 1);
        assert(rest.skip(start - 1) == s.skip(start));
    } else {
        assert(s.skip(0) == s);
    }
}

/// Trimming the back keeps everything up to the last character that stays.
pub proof fn lemma_trimmed_back(s: Seq<char>, padding: Padding, end: int)
    requires
        0 <= end <= s.len(),
        forall|j: int| end <= j < s.len() ==> is_padding(padding, #[trigger] s[j]),
        end > 0 ==> !is_padding(padding, s[end - 1]),
    ensures
        trimmed_back(s, padding) == s.take(end),
    decreases s.len(),
{
    if end < s.len() {
        let front = s.drop_last();
        assert forall|j: int| 0 <= j < front.len() implies front[j] == s[j] by {}
        lemma_trimmed_back(front, padding, end);
        assert(front.take(end) == s.take(end));
    } else {
        assert(s.take(end) == s);
    }
}

/// Whether `c` is padding of the given kind.
pub fn pads(padding: Padding, c: char) -> (r: bool)
    ensures
        r == is_padding(padding, c),
{
    match padding {
        Padding::Space => {
            let n: u32 = c as u32;
            (0x9 <= n && n <= 0xd) || n == 0x20 || n == 0x85 || n == 0xa0 || n == 0x1680 || (0x2000
                <= n && n <= 0x200a) || n == 0x2028 || n == 0x2029 || n == 0x202f || n == 0x205f
                || n == 0x3000
        },
        Padding::Slash => c == '/',
    }
}

/// The text without the padding at both ends.
pub fn trim<'a>(s: &'a str, padding: Padding) -> (r: &'a str)
    ensures
        r@ == trimmed(s@, padding),
{
    let n: usize = s.unicode_len();
    let mut i: usize = 0;
    let mut start: usize = 0;
    let mut end: usize = 0;
    for ch in it: s.chars()
        invariant
            it.seq() == s@,
            i == it.index(),
            n == s@.len(),
            start <= end <= i,
            forall|j: int| 0 <= j < start ==> is_padding(padding, #[trigger] s@[j]),
            forall|j: int| end <= j < i ==> is_padding(padding, #[trigger] s@[j]),
            end == 0 ==> start == 0,
            end > 0 ==> start < end && !is_padding(padding, s@[start as int]) && !is_padding(
                padding,
                s@[end - 1],
            ),
    {
        if !pads(padding, ch) {
            if end == 0 {
                start = i;
            }
            end = i + 1;
        }
        i = i + 1;
    }
    proof {
        if end == 0 {
            lemma_trimmed_front(s@, padding, n as int);
            assert(s@.skip(n as int) == s@.subrange(0, 0));
        } else {
            lemma_trimmed_front(s@, padding, start as int);
            let rest = s@.skip(start as int);
            assert forall|j: int| 0 <= j < rest.len() implies rest[j] == s@[j + start] by {}
            lemma_trimmed_back(rest, padding, end - start);
            assert(rest.take(end - start) == s@.subrange(start as int, end as int));
        }
    }
    s.substring_char(start, end)
}

/// The characters of a text, one by one.
pub fn characters(s: &str) -> (r: Vec<char>)
    ensures
        r@ == s@,
{
    let mut out: Vec<char> = Vec::new();
    for ch in it: s.chars()
        invariant
            it.seq() == s@,
            out@ == s@.take(it.index()),
    {
        out.push(ch);
    }
    assert(s@.take(s@.len() as int) == s@);
    out
}

/// `String::into_boxed_str`: the box holds the text that the string held.
pub assume_specification[ String::into_boxed_str ](s: String) -> (r: Box<str>)
    ensures
        r@ == s@,
;

/// An owned copy of a text.
pub fn boxed(s: &str) -> (r: Box<str>)
    ensures
        r@ == s@,
{
    s.to_owned().into_boxed_str()
}

/// What `str::to_lowercase` makes of a text: its Unicode lowercase mapping.
pub uninterp spec fn lowercase(s: Seq<char>) -> Seq<char>;

/// Whether every character of `s` is ASCII.
pub open spec fn all_ascii(s: Seq<char>) -> bool {
    forall|i: int| 0 <= i < s.len() ==> (#[trigger] s[i]) as int <= 0x7f
}

/// `c`, with an ASCII capital turned into the small letter.
pub open spec fn ascii_lowercase(c: char) -> char {
    if 'A' as int <= c as int <= 'Z' as int {
        (c as int + 32) as char
    } else {
        c
    }
}

/// `s` with its ASCII capitals turned into small letters.
pub open spec fn ascii_lowercased(s: Seq<char>) -> Seq<char> {
    s.map_values(|c: char| ascii_lowercase(c))
}

/// `str::to_lowercase`: the result depends on the text alone, and on ASCII text
/// it maps the letters `A` to `Z` to `a` to `z` and leaves the rest. What it
/// does to other characters is left to the Unicode tables.
pub assume_specification[ str::to_lowercase ](s: &str) -> (r: String)
    ensures
        r@ == lowercase(s@),
        all_ascii(s@) ==> r@ == ascii_lowercased(s@),
;

/// What is left after trimming has no padding at either end.
pub proof fn law_trimmed_ends_are_clean(s: Seq<char>, padding: Padding)
    ensures
        trimmed(s, padding).len() > 0 ==> !is_padding(padding, trimmed(s, padding)[0])
            && !is_padding(padding, trimmed(s, padding).last()),
{
    let front = trimmed_front(s, padding);
    lemma_front_is_clean(s, padding);
    lemma_back_is_clean(front, padding);
}

proof fn lemma_front_is_clean(s: Seq<char>, padding: Padding)
    ensures
        trimmed_front(s, padding).len() > 0 ==> !is_padding(
            padding,
            trimmed_front(s, padding)[0],
        ),
    decreases s.len(),
{
    if s.len() > 0 && is_padding(padding, s[0]) {
        lemma_front_is_clean(s.drop_first(), padding);
    }
}

proof fn lemma_back_is_clean(s: Seq<char>, padding: Padding)
    ensures
        trimmed_back(s, padding).len() > 0 ==> !is_padding(padding, trimmed_back(s, padding).last())
            && trimmed_back(s, padding)[0] == s[0],
    decreases s.len(),
{
    if s.len() > 0 && is_padding(padding, s.last()) {
        lemma_back_is_clean(s.drop_last(), padding);
    }
}

/// Padding put behind a text is taken off with the rest.
pub proof fn law_trimming_ignores_more_padding(s: Seq<char>, padding: Padding, c: char)
    requires
        is_padding(padding, c),
    ensures
        trimmed(s.push(c), padding) == trimmed(s, padding),
    decreases s.len(),
{
    let longer = s.push(c);
    if s.len() == 0 {
        assert(longer.drop_first() =~= s);
        assert(trimmed_front(longer, padding) =~= trimmed_front(s, padding));
    } else if is_padding(padding, s[0]) {
        assert(longer.drop_first() =~= s.drop_first().push(c));
        law_trimming_ignores_more_padding(s.drop_first(), padding, c);
    } else {
        assert(longer.drop_last() =~= s);
    }
}

/// Cutting is the opposite of joining: a text without a `c` is one piece, and
/// the pieces of two texts with a `c` between them are those of the first and
/// then those of the second.
pub proof fn law_pieces_of_joined_texts(a: Seq<char>, b: Seq<char>, c: char)
    ensures
        !a.contains(c) ==> pieces(a, c) == seq![a],
        pieces(a + seq![c] + b, c) == pieces(a, c) + pieces(b, c),
    decreases a.len(),
{
    let both = a + seq![c] + b;
    lemma_first_index_of(a, c);
    lemma_first_index_of(both, c);
    match first_index_of(a, c) {
        Some(i) => {
            assert(both[i] == a[i]);
            assert forall|j: int| 0 <= j < i implies both[j] != c by {
                assert(both[j] == a[j]);
            }
            assert(first_index_of(both, c) == Some(i));
            law_pieces_of_joined_texts(a.skip(i + 1), b, c);
            assert(both.take(i) =~= a.take(i));
            assert(both.skip(i + 1) =~= a.skip(i + 1) + seq![c] + b);
            assert(pieces(both, c) =~= pieces(a, c) + pieces(b, c));
        },
        None => {
            let n = a.len() as int;
            assert(both[n] == c);
            assert forall|j: int| 0 <= j < n implies both[j] != c by {
                assert(both[j] == a[j]);
            }
            assert(first_index_of(both, c) == Some(n));
            assert(both.take(n) =~= a);
            assert(both.skip(n + 1) =~= b);
            assert(pieces(both, c) =~= pieces(a, c) + pieces(b, c));
        },
    }
}

/// Trimming takes off all the padding around a text and nothing else: what
/// stands between is given back whole, whatever it holds inside.
pub proof fn law_trimming_takes_off_padding_only(
    front: Seq<char>,
    text: Seq<char>,
    back: Seq<char>,
    padding: Padding,
)
    requires
        forall|i: int| 0 <= i < front.len() ==> is_padding(padding, #[trigger] front[i]),
        forall|i: int| 0 <= i < back.len() ==> is_padding(padding, #[trigger] back[i]),
        text.len() > 0 ==> !is_padding(padding, text[0]) && !is_padding(padding, text.last()),
    ensures
        trimmed(front + text + back, padding) == text,
{
    let s = front + text + back;
    let n = front.len() as int;
    if text.len() == 0 {
        assert forall|j: int| 0 <= j < s.len() implies is_padding(padding, #[trigger] s[j]) by {
            if j < n {
                assert(s[j] == front[j]);
            } else {
                assert(s[j] == back[j - n]);
            }
        }
        lemma_trimmed_front(s, padding, s.len() as int);
        assert(s.skip(s.len() as int) =~= text);
    } else {
        assert forall|j: int| 0 <= j < n implies is_padding(padding, #[trigger] s[j]) by {
            assert(s[j] == front[j]);
        }
        assert(s[n] == text[0]);
        lemma_trimmed_front(s, padding, n);
        let rest = s.skip(n);
        assert(rest =~= text + back);
        assert forall|j: int| text.len() <= j < rest.len() implies is_padding(
            padding,
            #[trigger] rest[j],
        ) by {
            assert(rest[j] == back[j - text.len()]);
        }
        lemma_trimmed_back(rest, padding, text.len() as int);
        assert(rest.take(text.len() as int) =~= text);
    }
}

/// Blanks are the characters with the property `White_Space`, and slashes are
/// slashes: no letter, digit or other visible ASCII character is a blank.
pub proof fn law_padding_is_blank_or_slash(c: char)
    ensures
        is_padding(Padding::Slash, c) <==> c == '/',
        0x21 <= c as int <= 0x7e ==> !is_padding(Padding::Space, c),
        c == ' ' || c == '\t' || c == '\n' || c == '\r' ==> is_padding(Padding::Space, c),
{
}

/// ASCII lowering goes letter by letter: `A` to `Z` become `a` to `z`, in place,
/// and nothing else changes.
pub proof fn law_ascii_lowering_goes_by_letter(s: Seq<char>, i: int)
    requires
        0 <= i < s.len(),
    ensures
        ascii_lowercased(s).len() == s.len(),
        0x41 <= s[i] as int <= 0x5a ==> ascii_lowercased(s)[i] as int == s[i] as int + 0x20,
        !(0x41 <= s[i] as int <= 0x5a) ==> ascii_lowercased(s)[i] == s[i],
        ascii_lowercased(ascii_lowercased(s)) == ascii_lowercased(s),
        (forall|k: int| 0 <= k < s.len() ==> (#[trigger] s[k]) as int <= 0x7f) <==> all_ascii(s),
{
    assert(ascii_lowercased(ascii_lowercased(s)) =~= ascii_lowercased(s));
}

} // verus!
