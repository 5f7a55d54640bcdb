//! The firmlink table: which places of the Data volume show up at which paths
//! of the system.

use crate::strmap::StrMap;
use crate::text::{
    all_ascii, ascii_lowercased, boxed, first_index_of, is_padding, law_pieces_of_joined_texts,
    law_trimmed_ends_are_clean, law_trimming_ignores_more_padding, lemma_first_index_of, lemma_trimmed_back,
    lemma_trimmed_front, lowercase, pieces, split_first, trim, trimmed, Padding,
};
use vstd::prelude::*;

verus! {

/// A table with its values as plain text.
pub open spec fn link_texts(table: Map<Seq<char>, Box<str>>) -> Map<Seq<char>, Seq<char>> {
    table.map_values(|canonical: Box<str>| canonical@)
}

/// What is left of a column: its blanks and then its slashes taken off.
pub open spec fn column(text: Seq<char>) -> Seq<char> {
    trimmed(trimmed(text, Padding::Space), Padding::Slash)
}

/// The target and the canonical path that a line of the table names; none when
/// it is blank, a comment, has no tab, or one of the two comes out empty.
pub open spec fn link_of_line(line: Seq<char>) -> Option<(Seq<char>, Seq<char>)> {
    let line = trimmed(line, Padding::Space);
    if line.len() == 0 || line[0] == '#' {
        None
    } else {
        match first_index_of(line, '\t') {
            None => None,
            Some(tab) => {
                let target = column(line.skip(tab + 1));
                let canonical = column(line.take(tab));
                if target.len() == 0 || canonical.len() == 0 {
                    None
                } else {
                    Some((target, canonical))
                }
            },
        }
    }
}

/// The canonical path as the table keeps it: absolute, in lower case.
pub open spec fn canonical_path(lowered: Seq<char>) -> Seq<char> {
    seq!['/'] + lowered
}

/// The table that some lines make; of two lines for one target the later counts.
pub open spec fn links_of_lines(lines: Seq<Seq<char>>) -> Map<Seq<char>, Seq<char>>
    decreases lines.len(),
{
    if lines.len() == 0 {
        Map::empty()
    } else {
        let earlier = links_of_lines(lines.drop_last());
        match link_of_line(lines.last()) {
            Some((target, canonical)) => earlier.insert(
                target,
                canonical_path(lowercase(canonical)),
            ),
            None => earlier,
        }
    }
}

/// The table that a text makes, line by line. (A carriage return before the
/// line feed goes with the blanks around the line.)
pub open spec fn links_of_text(text: Seq<char>) -> Map<Seq<char>, Seq<char>> {
    links_of_lines(pieces(text, '\n'))
}

/// Whether lowering the canonical paths of these lines, as far as they are
/// ASCII, turns their capitals into small letters and changes nothing else.
pub open spec fn ascii_lines_lowered(lines: Seq<Seq<char>>) -> bool {
    forall|i: int|
        0 <= i < lines.len() ==> (link_of_line(#[trigger] lines[i]) matches Some((_, canonical))
            ==> all_ascii(canonical) ==> lowercase(canonical) == ascii_lowercased(canonical))
}

/// The target and the canonical path that a line of the table names.
pub fn parse_firmlink<'a>(line: &'a str) -> (r: Option<(&'a str, &'a str)>)
    ensures
        match link_of_line(line@) {
            Some((target, canonical)) => r matches Some((t, c)) && t@ == target && c@ == canonical,
            None => r is None,
        },
{
    let line: &str = trim(line, Padding::Space);
    if line.is_empty() || line.get_char(0) == '#' {
        return None;
    }
    match split_first(line, '\t') {
        None => None,
        Some((canonical, target)) => {
            let target: &str = trim(trim(target, Padding::Space), Padding::Slash);
            let canonical: &str = trim(trim(canonical, Padding::Space), Padding::Slash);
            if target.is_empty() || canonical.is_empty() {
                None
            } else {
                Some((target, canonical))
            }
        },
    }
}

/// Adds a link to the table. `lowered` is the canonical path in lower case,
/// without the slash in front.
pub fn insert_firmlink(table: &mut StrMap<Box<str>>, target: &str, lowered: &str)
    ensures
        link_texts(final(table)@) == link_texts(old(table)@).insert(
            target@,
            canonical_path(lowered@),
        ),
{
    let mut canonical: String = String::new();
    let slash: &str = "/";
    canonical.append(slash);
    canonical.append(lowered);
    proof {
        reveal_strlit("/");
        assert(canonical@ =~= canonical_path(lowered@));
    }
    table.insert(boxed(target), canonical.into_boxed_str());
    assert(link_texts(table@) =~= link_texts(old(table)@).insert(
        target@,
        canonical_path(lowered@),
    ));
}

/// Parse firmlink pairs (Data-relative target -> lowercased canonical absolute
/// path) from the text of the system table. Skips blanks, comments, and
/// malformed lines.
pub fn parse_firmlinks(text: &str) -> (r: StrMap<Box<str>>)
    ensures
        link_texts(r@) == links_of_text(text@),
        ascii_lines_lowered(pieces(text@, '\n')),
{
    let mut table: StrMap<Box<str>> = StrMap::new();
    let mut rest: &str = text;
    let mut more: bool = true;
    let ghost mut done: Seq<Seq<char>> = Seq::empty();
    assert(link_texts(table@) =~= Map::<Seq<char>, Seq<char>>::empty());
    assert(done + pieces(rest@, '\n') =~= pieces(text@, '\n'));
    while more
        invariant
            more ==> done + pieces(rest@, '\n') == pieces(text@, '\n'),
            !more ==> done == pieces(text@, '\n'),
            link_texts(table@) == links_of_lines(done),
            ascii_lines_lowered(done),
        decreases
                (if more {
                    rest@.len() + 1
                } else {
                    0
                }),
    {
        proof {
            lemma_first_index_of(rest@, '\n');
        }
        let ghost before = done;
        let line: &str = match split_first(rest, '\n') {
            Some((first, after)) => {
                proof {
                    done = done.push(first@);
                    assert(before + pieces(rest@, '\n') =~= done + pieces(after@, '\n'));
                }
                rest = after;
                first
            },
            None => {
                proof {
                    done = done.push(rest@);
                    assert(before + pieces(rest@, '\n') =~= done);
                }
                more = false;
                rest
            },
        };
        assert(done.drop_last() =~= before);
        if let Some((target, canonical)) = parse_firmlink(line) {
            let lowered: String = canonical.to_lowercase();
            insert_firmlink(&mut table, target, &lowered);
        }
    }
    table
}

/// The firmlink pairs of the system table, given its text if it could be read.
/// Empty map when unreadable.
pub fn load_firmlinks(text: Option<&str>) -> (r: StrMap<Box<str>>)
    ensures
        link_texts(r@) == (match text {
            Some(t) => links_of_text(t@),
            None => Map::empty(),
        }),
        text matches Some(t) ==> ascii_lines_lowered(pieces(t@, '\n')),
{
    match text {
        Some(t) => parse_firmlinks(t),
        None => {
            let table: StrMap<Box<str>> = StrMap::new();
            assert(link_texts(table@) =~= Map::<Seq<char>, Seq<char>>::empty());
            table
        },
    }
}

/// A line that is blank, a comment or malformed (without a tab, or with an empty
/// column) changes nothing.
pub proof fn law_other_lines_are_skipped(lines: Seq<Seq<char>>, line: Seq<char>)
    requires
        ({
            let t = trimmed(line, Padding::Space);
            ||| t.len() == 0
            ||| t[0] == '#'
            ||| !t.contains('\t')
            ||| first_index_of(t, '\t') matches Some(tab) && (column(t.take(tab)).len() == 0
                || column(t.skip(tab + 1)).len() == 0)
        }),
    ensures
        links_of_lines(lines.push(line)) == links_of_lines(lines),
{
    let t = trimmed(line, Padding::Space);
    lemma_first_index_of(t, '\t');
    assert(lines.push(line).drop_last() =~= lines);
}

/// A carriage return at the end of a line changes nothing.
pub proof fn law_carriage_return_is_ignored(line: Seq<char>)
    ensures
        link_of_line(line.push('\r')) == link_of_line(line),
{
    law_trimming_ignores_more_padding(line, Padding::Space, '\r');
}

/// Every target is nonempty and has no slash at either end, and every canonical
/// path is absolute: a slash and the lower case of something nonempty that has
/// no slash at either end.
pub proof fn law_links_are_clean(text: Seq<char>, target: Seq<char>)
    requires
        links_of_text(text).contains_key(target),
    ensures
        target.len() > 0,
        target[0] != '/',
        target.last() != '/',
        links_of_text(text)[target][0] == '/',
        exists|canonical: Seq<char>|
            links_of_text(text)[target] == canonical_path(#[trigger] lowercase(canonical))
                && canonical.len() > 0 && canonical[0] != '/' && canonical.last() != '/',
{
    lemma_links_of_lines_are_clean(pieces(text, '\n'), target);
}

proof fn lemma_links_of_lines_are_clean(lines: Seq<Seq<char>>, target: Seq<char>)
    requires
        links_of_lines(lines).contains_key(target),
    ensures
        target.len() > 0,
        target[0] != '/',
        target.last() != '/',
        exists|canonical: Seq<char>|
            links_of_lines(lines)[target] == canonical_path(#[trigger] lowercase(canonical))
                && canonical.len() > 0 && canonical[0] != '/' && canonical.last() != '/',
    decreases lines.len(),
{
    let line = trimmed(lines.last(), Padding::Space);
    match link_of_line(lines.last()) {
        Some((t, c)) if t == target => {
            let tab = first_index_of(line, '\t').unwrap();
            law_trimmed_ends_are_clean(
                trimmed(line.skip(tab + 1), Padding::Space),
                Padding::Slash,
            );
            law_trimmed_ends_are_clean(trimmed(line.take(tab), Padding::Space), Padding::Slash);
            assert(links_of_lines(lines)[target] == canonical_path(lowercase(c)));
        },
        _ => {
            lemma_links_of_lines_are_clean(lines.drop_last(), target);
        },
    }
}

/// The columns are the canonical path and then the target: a line made of two
/// clean columns with a tab between them links the second to the first.
pub proof fn law_well_formed_line_is_kept(canonical: Seq<char>, target: Seq<char>)
    requires
        is_clean_column(canonical),
        is_clean_column(target),
        canonical[0] != '#',
    ensures
        link_of_line(canonical + seq!['\t'] + target) == Some((target, canonical)),
{
    let line = canonical + seq!['\t'] + target;
    lemma_clean_column_stays(canonical);
    lemma_clean_column_stays(target);
    lemma_trimmed_front(line, Padding::Space, 0);
    assert(line.skip(0) =~= line);
    lemma_trimmed_back(line, Padding::Space, line.len() as int);
    assert(line.take(line.len() as int) =~= line);
    lemma_first_index_of(line, '\t');
    let tab = canonical.len() as int;
    assert(line[tab] == '\t');
    assert forall|j: int| 0 <= j < tab implies line[j] != '\t' by {
        assert(line[j] == canonical[j]);
    }
    assert(first_index_of(line, '\t') == Some(tab));
    assert(line.take(tab) =~= canonical);
    assert(line.skip(tab + 1) =~= target);
}

/// A column as the parser leaves it: not empty, without a tab, with neither
/// blank nor slash at its ends.
pub open spec fn is_clean_column(text: Seq<char>) -> bool {
    &&& text.len() > 0
    &&& !text.contains('\t')
    &&& !is_padding(Padding::Space, text[0]) && !is_padding(Padding::Space, text.last())
    &&& !is_padding(Padding::Slash, text[0]) && !is_padding(Padding::Slash, text.last())
}

proof fn lemma_clean_column_stays(text: Seq<char>)
    requires
        is_clean_column(text),
    ensures
        column(text) == text,
{
    assert(text.skip(0) =~= text);
    assert(text.take(text.len() as int) =~= text);
    lemma_trimmed_front(text, Padding::Space, 0);
    lemma_trimmed_back(text, Padding::Space, text.len() as int);
    lemma_trimmed_front(text, Padding::Slash, 0);
    lemma_trimmed_back(text, Padding::Slash, text.len() as int);
}

/// A line means its columns: where what is left of it without the blanks around
/// it is no comment and has a tab, the part before the first tab names the
/// canonical path and the part behind it the target, each without its blanks
/// and then its slashes; it is a link exactly when both are nonempty.
pub proof fn law_line_names_its_columns(line: Seq<char>, left: Seq<char>, right: Seq<char>)
    requires
        trimmed(line, Padding::Space) == left + seq!['\t'] + right,
        !left.contains('\t'),
        left.len() > 0 ==> left[0] != '#',
    ensures
        ({
            let canonical = trimmed(trimmed(left, Padding::Space), Padding::Slash);
            let target = trimmed(trimmed(right, Padding::Space), Padding::Slash);
            &&& canonical.len() > 0 && target.len() > 0 ==> link_of_line(line) == Some(
                (target, canonical),
            )
            &&& canonical.len() == 0 || target.len() == 0 ==> link_of_line(line) is None
        }),
{
    let whole = left + seq!['\t'] + right;
    let n = left.len() as int;
    lemma_first_index_of(whole, '\t');
    assert(whole[n] == '\t');
    assert forall|j: int| 0 <= j < n implies whole[j] != '\t' by {
        assert(whole[j] == left[j]);
        assert(left.contains(left[j]));
    }
    assert(first_index_of(whole, '\t') == Some(n));
    assert(whole.take(n) =~= left);
    assert(whole.skip(n + 1) =~= right);
    if n > 0 {
        assert(whole[0] == left[0]);
    } else {
        assert(whole[0] == '\t');
    }
}

/// A blank line, a comment and a line without a tab are no links.
pub proof fn law_other_lines_are_no_links(line: Seq<char>)
    requires
        ({
            let t = trimmed(line, Padding::Space);
            t.len() == 0 || t[0] == '#' || !t.contains('\t')
        }),
    ensures
        link_of_line(line) is None,
{
    let t = trimmed(line, Padding::Space);
    lemma_first_index_of(t, '\t');
    if first_index_of(t, '\t') is Some {
        assert(t.contains(t[first_index_of(t, '\t').unwrap()]));
    }
}

/// Every line that is a link counts, however many came before it: it maps its
/// target to a slash and the lower case of its canonical path, in place of what
/// an earlier line said, and changes no other target.
pub proof fn law_every_link_counts(
    lines: Seq<Seq<char>>,
    line: Seq<char>,
    target: Seq<char>,
    canonical: Seq<char>,
)
    requires
        link_of_line(line) == Some((target, canonical)),
    ensures
        links_of_lines(lines.push(line)) == links_of_lines(lines).insert(
            target,
            seq!['/'] + lowercase(canonical),
        ),
{
    assert(lines.push(line).drop_last() =~= lines);
}

/// The table of some lines and then others is the table of the first with that
/// of the second over it; no lines make no table.
pub proof fn law_later_lines_go_over_earlier_ones(a: Seq<Seq<char>>, b: Seq<Seq<char>>)
    ensures
        links_of_lines(a + b) == links_of_lines(a).union_prefer_right(links_of_lines(b)),
        links_of_lines(Seq::<Seq<char>>::empty()) == Map::<Seq<char>, Seq<char>>::empty(),
    decreases b.len(),
{
    if b.len() == 0 {
        assert(a + b =~= a);
        assert(links_of_lines(a + b) =~= links_of_lines(a).union_prefer_right(links_of_lines(b)));
    } else {
        assert((a + b).drop_last() =~= a + b.drop_last());
        assert((a + b).last() == b.last());
        law_later_lines_go_over_earlier_ones(a, b.drop_last());
        assert(links_of_lines(a + b) =~= links_of_lines(a).union_prefer_right(links_of_lines(b)));
    }
}

/// The table of a text goes by its lines: a text of one line makes the link that
/// the line is, if any, and two texts with a line feed between them make the
/// table of the first with that of the second over it.
pub proof fn law_table_goes_by_lines(a: Seq<char>, b: Seq<char>)
    ensures
        !a.contains('\n') ==> links_of_text(a) == (match link_of_line(a) {
            Some((target, canonical)) => Map::empty().insert(
                target,
                seq!['/'] + lowercase(canonical),
            ),
            None => Map::empty(),
        }),
        links_of_text(a + seq!['\n'] + b) == links_of_text(a).union_prefer_right(
            links_of_text(b),
        ),
{
    law_pieces_of_joined_texts(a, b, '\n');
    law_later_lines_go_over_earlier_ones(pieces(a, '\n'), pieces(b, '\n'));
    if !a.contains('\n') {
        let lines = seq![a];
        assert(lines.drop_last() =~= Seq::<Seq<char>>::empty());
        assert(lines.last() == a);
        assert(links_of_lines(lines.drop_last()) == Map::<Seq<char>, Seq<char>>::empty());
    }
}

/// Every well-formed line of a table is in the table: wherever it stands, and
/// whatever stands around it, its target is linked to its canonical path unless
/// a line behind it names the target again.
pub proof fn law_every_line_is_read(
    before: Seq<char>,
    line: Seq<char>,
    after: Seq<char>,
    target: Seq<char>,
    canonical: Seq<char>,
)
    requires
        !line.contains('\n'),
        link_of_line(line) == Some((target, canonical)),
        !links_of_text(after).contains_key(target),
    ensures
        links_of_text(before + seq!['\n'] + (line + seq!['\n'] + after)).contains_pair(
            target,
            seq!['/'] + lowercase(canonical),
        ),
{
    law_table_goes_by_lines(line, after);
    law_table_goes_by_lines(before, line + seq!['\n'] + after);
}

/// A table as text has the targets of the table, each with the text that the
/// table holds for it.
pub proof fn law_texts_are_those_of_the_table(
    table: Map<Seq<char>, Box<str>>,
    target: Seq<char>,
)
    ensures
        link_texts(table).contains_key(target) <==> table.contains_key(target),
        table.contains_key(target) ==> link_texts(table)[target] == table[target]@,
{
}

} // verus!
