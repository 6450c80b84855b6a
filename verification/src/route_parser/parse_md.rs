//! Headings of Markdown and Org text: lines that begin with the heading
//! mark (`#` or `*`), leveled by how many marks precede a space.

use vstd::prelude::*;
use crate::format::{Heading, HeadingView, RawStructruedText, heading_views};
use crate::route_parser::parse_text::{find_substr_position, lemma_position_stands, stands_at, substr_position};
use crate::text::{byte_len, lemma_split_pieces_occur, occurs_in, char_rows, chars_of, lines_of, split_chars, starts_with_chars, starts_with_seq, string_from_chars};

verus! {

/// `note` written `n` times.
pub open spec fn repeat_note(note: Seq<char>, n: nat) -> Seq<char>
    decreases n,
{
    if n == 0 {
        Seq::<char>::empty()
    } else {
        repeat_note(note, (n - 1) as nat) + note
    }
}

/// The level of a heading line: `n` marks followed by a space give level
/// `n` for `n` from 1 to 4, the fewest marks that fit winning; any other
/// line that begins with the mark has level 0.
pub open spec fn mark_level(c: Seq<char>, note: Seq<char>) -> u8 {
    if starts_with_seq(c, repeat_note(note, 1).push(' ')) {
        1
    } else if starts_with_seq(c, repeat_note(note, 2).push(' ')) {
        2
    } else if starts_with_seq(c, repeat_note(note, 3).push(' ')) {
        3
    } else if starts_with_seq(c, repeat_note(note, 4).push(' ')) {
        4
    } else {
        0
    }
}

/// The headings among the first `k` lines of `ls`, lines of `content`.
pub open spec fn marked_headings(content: Seq<char>, ls: Seq<Seq<char>>, k: int, note: Seq<char>) -> Seq<HeadingView>
    decreases k,
{
    if k <= 0 {
        Seq::<HeadingView>::empty()
    } else {
        let prev = marked_headings(content, ls, k - 1, note);
        let c = ls[k - 1];
        if starts_with_seq(c, note) {
            prev.push(HeadingView { name: c, location: substr_position(content, c) as usize, level: mark_level(c, note) })
        } else {
            prev
        }
    }
}

/// The headings of `content` with heading mark `note`.
pub open spec fn mark_headings(content: Seq<char>, note: Seq<char>) -> Seq<HeadingView> {
    marked_headings(content, lines_of(content), lines_of(content).len() as int, note)
}

proof fn lemma_marked_are_lines(content: Seq<char>, ls: Seq<Seq<char>>, k: int, note: Seq<char>)
    requires
        k <= ls.len(),
    ensures
        forall|i: int|
            0 <= i < marked_headings(content, ls, k, note).len() ==> {
                let h = #[trigger] marked_headings(content, ls, k, note)[i];
                &&& ls.contains(h.name)
                &&& starts_with_seq(h.name, note)
                &&& h.location == substr_position(content, h.name) as usize
            },
    decreases k,
{
    if k > 0 {
        lemma_marked_are_lines(content, ls, k - 1, note);
        let prev = marked_headings(content, ls, k - 1, note);
        let cur = marked_headings(content, ls, k, note);
        assert forall|i: int| 0 <= i < cur.len() implies {
            let h = #[trigger] cur[i];
            &&& ls.contains(h.name)
            &&& starts_with_seq(h.name, note)
            &&& h.location == substr_position(content, h.name) as usize
        } by {
            if i < prev.len() {
                assert(cur[i] == prev[i]);
            } else {
                assert(cur[i].name == ls[k - 1]);
            }
        }
    }
}

/// Every Markdown/Org heading begins with the mark and stands in the text at
/// its location: the bytes of its line begin there.
pub proof fn law_marked_headings_stand_at_their_location(content: Seq<char>, note: Seq<char>)
    requires
        byte_len(content) <= usize::MAX,
    ensures
        forall|i: int|
            0 <= i < mark_headings(content, note).len() ==> {
                let h = #[trigger] mark_headings(content, note)[i];
                starts_with_seq(h.name, note) && stands_at(content, h.name, h.location as int)
            },
{
    let ls = lines_of(content);
    lemma_marked_are_lines(content, ls, ls.len() as int, note);
    lemma_split_pieces_occur(content, '\n');
    assert forall|i: int| 0 <= i < mark_headings(content, note).len() implies {
        let h = #[trigger] mark_headings(content, note)[i];
        starts_with_seq(h.name, note) && stands_at(content, h.name, h.location as int)
    } by {
        let h = mark_headings(content, note)[i];
        let j = choose|j: int| 0 <= j < ls.len() && ls[j] == h.name;
        assert(occurs_in(content, ls[j]));
        lemma_position_stands(content, h.name);
    }
}

fn repeated_marker(note: &Vec<char>, n: usize) -> (r: Vec<char>)
    ensures
        r@ == repeat_note(note@, n as nat).push(' '),
{
    let mut r: Vec<char> = Vec::new();
    let mut i: usize = 0;
    assert(r@ =~= repeat_note(note@, 0));
    while i < n
        invariant
            i <= n,
            r@ == repeat_note(note@, i as nat),
        decreases n - i,
    {
        let mut j: usize = 0;
        let ghost base = r@;
        while j < note.len()
            invariant
                j <= note.len(),
                r@ == base + note@.take(j as int),
            decreases note.len() - j,
        {
            r.push(note[j]);
            j = j + 1;
            assert(r@ =~= base + note@.take(j as int));
        }
        assert(note@.take(note@.len() as int) =~= note@);
        i = i + 1;
    }
    r.push(' ');
    r
}

fn heading_level(c: &Vec<char>, markers: &Vec<Vec<char>>, note: Ghost<Seq<char>>) -> (r: u8)
    requires
        markers@.len() == 4,
        forall|n: int| 0 <= n < 4 ==> (#[trigger] markers@[n])@ == repeat_note(note@, (n + 1) as nat).push(' '),
    ensures
        r == mark_level(c@, note@),
{
    if starts_with_chars(c, &markers[0]) {
        1
    } else if starts_with_chars(c, &markers[1]) {
        2
    } else if starts_with_chars(c, &markers[2]) {
        3
    } else if starts_with_chars(c, &markers[3]) {
        4
    } else {
        0
    }
}

/// Finds the headings of Markdown/Org `content` whose heading mark is
/// `note`: every line that begins with `note`, at the byte offset of its
/// first occurrence, with its level by [`mark_level`].
pub fn parse_mdorg(content: String, note: String) -> (r: RawStructruedText)
    ensures
        heading_views(r.heads@) == mark_headings(content@, note@),
        r.raw_text@ == content@,
{
    let chars = chars_of(content.as_str());
    let notev = chars_of(note.as_str());
    let lines = split_chars(&chars, '\n');
    let markers = vec![
        repeated_marker(&notev, 1),
        repeated_marker(&notev, 2),
        repeated_marker(&notev, 3),
        repeated_marker(&notev, 4),
    ];
    let ghost ls = char_rows(lines@);
    let mut heads: Vec<Heading> = Vec::new();
    let mut i: usize = 0;
    while i < lines.len()
        invariant
            i <= lines.len(),
            ls == char_rows(lines@),
            ls == lines_of(content@),
            chars@ == content@,
            markers@.len() == 4,
            forall|n: int| 0 <= n < 4 ==> (#[trigger] markers@[n])@ == repeat_note(notev@, (n + 1) as nat).push(' '),
            notev@ == note@,
            heading_views(heads@) == marked_headings(content@, ls, i as int, note@),
        decreases lines.len() - i,
    {
        let c = &lines[i];
        assert(ls[i as int] == c@);
        if starts_with_chars(c, &notev) {
            let level: u8 = heading_level(c, &markers, Ghost(notev@));
            let name = string_from_chars(c);
            let locate: usize = find_substr_position(content.as_str(), name.as_str());
            let ghost prev = heading_views(heads@);
            heads.push(Heading { name, location: locate, level });
            assert(heading_views(heads@) =~= prev.push(heads@[heads@.len() - 1]@));
        }
        i = i + 1;
    }
    RawStructruedText { heads, raw_text: content }
}

/// Headings of Markdown text, marked by `#`.
pub fn parse_md(content: String) -> (r: RawStructruedText)
    ensures
        heading_views(r.heads@) == mark_headings(content@, seq!['#']),
        r.raw_text@ == content@,
{
    let note = string_from_chars(&vec!['#']);
    assert(note@ =~= seq!['#']);
    parse_mdorg(content, note)
}

/// Headings of Org text, marked by `*`.
pub fn parse_org(content: String) -> (r: RawStructruedText)
    ensures
        heading_views(r.heads@) == mark_headings(content@, seq!['*']),
        r.raw_text@ == content@,
{
    let note = string_from_chars(&vec!['*']);
    assert(note@ =~= seq!['*']);
    parse_mdorg(content, note)
}

} // verus!
