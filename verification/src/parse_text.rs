//! The first plain-text heading finder: every line that begins or ends with
//! a numbering keyword, or matches the chapter pattern, is a heading, placed
//! at the character index of its first occurrence.

use vstd::prelude::*;
use crate::format::HeadingView;
use crate::pattern::{pattern_hit, pattern_matches};
use crate::text::{byte_len, single_byte_chars, char_rows, chars_of, contains_seq, ends_with_chars, ends_with_seq, find_chars, first_occurrence, lines_of, split_chars, starts_with_chars, starts_with_seq, string_from_chars};

verus! {

/// A heading found by [`parse_text`]: its text, its character index in the
/// text, and its level.
#[derive(Clone, Debug)]
pub struct Heading {
    pub name: String,
    pub location: usize,
    pub level: u8,
}

impl View for Heading {
    type V = HeadingView;

    open spec fn view(&self) -> HeadingView {
        HeadingView { name: self.name@, location: self.location, level: self.level }
    }
}

impl Default for Heading {
    fn default() -> (r: Self)
        ensures
            r.name@ == Seq::<char>::empty(),
            r.location == 0,
            r.level == 0,
    {
        Heading { name: String::new(), location: 0, level: 0 }
    }
}

/// The views of a sequence of headings.
pub open spec fn heading_views(s: Seq<Heading>) -> Seq<HeadingView> {
    s.map_values(|h: Heading| h@)
}

/// The keywords that make a line a heading when it begins or ends with one.
pub open spec fn heading_keywords() -> Seq<Seq<char>> {
    seq![
        seq!['<', '目', '录', '>'],
        seq!['一', '、'], seq!['二', '、'], seq!['三', '、'], seq!['四', '、'], seq!['五', '、'],
        seq!['六'], seq!['七'], seq!['八'], seq!['九'],
        seq!['1', '.'], seq!['2', '.'], seq!['3', '.'], seq!['4', '.'], seq!['5', '.'],
        seq!['6', '.'], seq!['7', '.'], seq!['8', '.'], seq!['9', '.'],
        seq!['(', '1', ')'], seq!['(', '2', ')'], seq!['(', '3', ')'], seq!['(', '4', ')'],
        seq!['(', '5', ')'], seq!['(', '6', ')'], seq!['(', '7', ')'], seq!['(', '8', ')'],
        seq!['(', '9', ')'],
        seq!['A'], seq!['B'], seq!['C'], seq!['D'], seq!['E'], seq!['F'], seq!['G'],
        seq!['H'], seq!['I'], seq!['J'], seq!['K'], seq!['L'], seq!['M'],
        seq!['甲'], seq!['乙'], seq!['丙'], seq!['丁'], seq!['戊'],
    ]
}

/// The chapter pattern ".第(.*?)章(.*?)".
pub open spec fn chapter_pattern() -> Seq<char> {
    seq!['.', '第', '(', '.', '*', '?', ')', '章', '(', '.', '*', '?', ')']
}

/// `c` begins or ends with one of `kws`.
pub open spec fn keyword_edge_hit(c: Seq<char>, kws: Seq<Seq<char>>) -> bool {
    exists|j: int| 0 <= j < kws.len() && (#[trigger] starts_with_seq(c, kws[j]) || ends_with_seq(c, kws[j]))
}

/// Whether a line is a heading.
pub open spec fn is_heading_line(c: Seq<char>) -> bool {
    keyword_edge_hit(c, heading_keywords()) || pattern_hit(chapter_pattern(), c)
}

/// The heading lines of `content`, in order, repeats included.
pub open spec fn heading_lines(content: Seq<char>) -> Seq<Seq<char>> {
    lines_of(content).filter(|c: Seq<char>| is_heading_line(c))
}

/// The lines among the first `k` of `ls` that begin or end with one of
/// [`heading_keywords`] or carry the chapter mark `marks[i]`, in order.
pub open spec fn marked_lines(ls: Seq<Seq<char>>, marks: Seq<bool>, k: int) -> Seq<Seq<char>>
    decreases k,
{
    if k <= 0 {
        Seq::<Seq<char>>::empty()
    } else {
        let p = marked_lines(ls, marks, k - 1);
        if keyword_edge_hit(ls[k - 1], heading_keywords()) || marks[k - 1] {
            p.push(ls[k - 1])
        } else {
            p
        }
    }
}

/// The chapter marks of the lines of `ls`: a line is marked when it has no
/// keyword at either end and [`chapter_pattern`] matches in it.
pub open spec fn chapter_marks(ls: Seq<Seq<char>>) -> Seq<bool> {
    Seq::new(ls.len(), |i: int| !keyword_edge_hit(ls[i], heading_keywords()) && pattern_hit(chapter_pattern(), ls[i]))
}

/// A heading can be placed: it is not empty, each of its characters takes
/// one byte, and it occurs in the text.
pub open spec fn placeable(s: Seq<char>, sub: Seq<char>) -> bool {
    sub.len() > 0 && byte_len(sub) == sub.len() && contains_seq(s, sub)
}

/// The headings of `content`, when every heading line can be placed: each
/// at the character index of its first occurrence, at level 1.
pub open spec fn legacy_headings(content: Seq<char>) -> Seq<HeadingView> {
    heading_lines(content).map_values(
        |h: Seq<char>| HeadingView { name: h, location: first_occurrence(content, h)->0 as usize, level: 1 },
    )
}

/// Character index of the first occurrence of `sub` in `s`, searching
/// windows of `s` as wide as `sub` is long in bytes.
pub fn find_substr_position(s: &str, sub: &str) -> (r: usize)
    requires
        placeable(s@, sub@),
    ensures
        r == first_occurrence(s@, sub@)->0,
{
    let sv = chars_of(s);
    let subv = chars_of(sub);
    let _n: usize = sv.len();
    // The windows are as wide as `sub` is long in bytes, which for
    // one-byte characters is its length in characters.
    let width: usize = sub.len();
    assert(width == subv@.len());
    let k = find_chars(&sv, &subv);
    proof {
        crate::text::lemma_find_from_found(sv@, subv@, 0);
    }
    match k {
        Some(k) => k,
        None => 0,
    }
}

fn keyword_list() -> (v: Vec<Vec<char>>)
    ensures
        char_rows(v@) == heading_keywords(),
{
    let v = vec![
        vec!['<', '目', '录', '>'],
        vec!['一', '、'], vec!['二', '、'], vec!['三', '、'], vec!['四', '、'], vec!['五', '、'],
        vec!['六'], vec!['七'], vec!['八'], vec!['九'],
        vec!['1', '.'], vec!['2', '.'], vec!['3', '.'], vec!['4', '.'], vec!['5', '.'],
        vec!['6', '.'], vec!['7', '.'], vec!['8', '.'], vec!['9', '.'],
        vec!['(', '1', ')'], vec!['(', '2', ')'], vec!['(', '3', ')'], vec!['(', '4', ')'],
        vec!['(', '5', ')'], vec!['(', '6', ')'], vec!['(', '7', ')'], vec!['(', '8', ')'],
        vec!['(', '9', ')'],
        vec!['A'], vec!['B'], vec!['C'], vec!['D'], vec!['E'], vec!['F'], vec!['G'],
        vec!['H'], vec!['I'], vec!['J'], vec!['K'], vec!['L'], vec!['M'],
        vec!['甲'], vec!['乙'], vec!['丙'], vec!['丁'], vec!['戊'],
    ];
    assert(char_rows(v@) =~~= heading_keywords());
    v
}

fn has_edge_keyword(c: &Vec<char>, kws: &Vec<Vec<char>>) -> (r: bool)
    ensures
        r == keyword_edge_hit(c@, char_rows(kws@)),
{
    let mut j: usize = 0;
    while j < kws.len()
        invariant
            j <= kws.len(),
            forall|t: int| 0 <= t < j ==> !(#[trigger] starts_with_seq(c@, char_rows(kws@)[t]) || ends_with_seq(c@, char_rows(kws@)[t])),
        decreases kws.len() - j,
    {
        let kw = &kws[j];
        if starts_with_chars(c, kw) || ends_with_chars(c, kw) {
            assert(char_rows(kws@)[j as int] == kw@);
            return true;
        }
        j = j + 1;
    }
    false
}

/// The lines of `lines` that begin or end with one of [`heading_keywords`]
/// or carry the chapter mark `chapter_marks[i]`, in order, repeats included.
pub fn select_heading_lines(lines: &Vec<Vec<char>>, chapter_marks: &Vec<bool>) -> (heads: Vec<Vec<char>>)
    requires
        chapter_marks@.len() == lines@.len(),
    ensures
        char_rows(heads@) == marked_lines(char_rows(lines@), chapter_marks@, lines@.len() as int),
{
    let kws = keyword_list();
    let ghost ls = char_rows(lines@);
    let mut heads: Vec<Vec<char>> = Vec::new();
    let mut i: usize = 0;
    assert(char_rows(heads@) =~= Seq::<Seq<char>>::empty());
    while i < lines.len()
        invariant
            i <= lines.len(),
            chapter_marks@.len() == lines@.len(),
            ls == char_rows(lines@),
            char_rows(kws@) == heading_keywords(),
            char_rows(heads@) == marked_lines(ls, chapter_marks@, i as int),
        decreases lines.len() - i,
    {
        let c = &lines[i];
        let ghost before = char_rows(heads@);
        assert(ls[i as int] == c@);
        if has_edge_keyword(c, &kws) || chapter_marks[i] {
            heads.push(c.clone());
            assert(char_rows(heads@) =~= before.push(c@));
        }
        i = i + 1;
    }
    heads
}

/// The chapter marks of `lines`: whether a line has no keyword at either
/// end and [`chapter_pattern`] matches in it.
fn mark_chapters(lines: &Vec<Vec<char>>) -> (marks: Vec<bool>)
    ensures
        marks@ == chapter_marks(char_rows(lines@)),
{
    let kws = keyword_list();
    let pat = string_from_chars(&vec!['.', '第', '(', '.', '*', '?', ')', '章', '(', '.', '*', '?', ')']);
    assert(pat@ =~= chapter_pattern());
    let ghost ls = char_rows(lines@);
    let mut marks: Vec<bool> = Vec::new();
    let mut i: usize = 0;
    while i < lines.len()
        invariant
            i <= lines.len(),
            ls == char_rows(lines@),
            char_rows(kws@) == heading_keywords(),
            pat@ == chapter_pattern(),
            marks@ =~= chapter_marks(ls).take(i as int),
        decreases lines.len() - i,
    {
        let c = &lines[i];
        assert(ls[i as int] == c@);
        let mark = if has_edge_keyword(c, &kws) {
            false
        } else {
            let text = string_from_chars(c);
            pattern_matches(pat.as_str(), text.as_str())
        };
        marks.push(mark);
        i = i + 1;
    }
    marks
}

proof fn lemma_marked_lines_filter(ls: Seq<Seq<char>>, k: int)
    requires
        0 <= k <= ls.len(),
    ensures
        marked_lines(ls, chapter_marks(ls), k) == ls.take(k).filter(|c: Seq<char>| is_heading_line(c)),
    decreases k,
{
    reveal(Seq::filter);
    if k > 0 {
        lemma_marked_lines_filter(ls, k - 1);
        assert(ls.take(k).drop_last() =~= ls.take(k - 1));
        assert(ls.take(k).last() == ls[k - 1]);
    } else {
        assert(ls.take(k) =~= Seq::<Seq<char>>::empty());
    }
}

/// The heading lines of `content`, in order, repeats included.
pub fn detect_heading_lines(content: &Vec<char>) -> (heads: Vec<Vec<char>>)
    ensures
        char_rows(heads@) == heading_lines(content@),
{
    let lines = split_chars(content, '\n');
    let marks = mark_chapters(&lines);
    let heads = select_heading_lines(&lines, &marks);
    proof {
        let ls = char_rows(lines@);
        lemma_marked_lines_filter(ls, ls.len() as int);
        assert(ls.take(ls.len() as int) =~= ls);
    }
    heads
}

fn all_placeable(sv: &Vec<char>, heads: &Vec<Vec<char>>) -> (r: bool)
    ensures
        r == forall|i: int| 0 <= i < heads@.len() ==> placeable(sv@, #[trigger] char_rows(heads@)[i]),
{
    let mut i: usize = 0;
    while i < heads.len()
        invariant
            i <= heads.len(),
            forall|t: int| 0 <= t < i ==> placeable(sv@, #[trigger] char_rows(heads@)[t]),
        decreases heads.len() - i,
    {
        let h = &heads[i];
        assert(char_rows(heads@)[i as int] == h@);
        if h.len() == 0 || !single_byte_chars(h) {
            return false;
        }
        if find_chars(sv, h).is_none() {
            return false;
        }
        i = i + 1;
    }
    true
}


/// Every heading line of `content` can be placed.
pub open spec fn all_heading_lines_placeable(content: Seq<char>) -> bool {
    forall|i: int| 0 <= i < heading_lines(content).len() ==> placeable(content, #[trigger] heading_lines(content)[i])
}

/// Finds the headings of a plain-text book: every line that begins or ends
/// with one of [`heading_keywords`], or matches [`chapter_pattern`], each
/// placed at the character index of its first occurrence, at level 1.
/// Placing a heading needs it to be non-empty, made of one-byte characters,
/// and present in the text ([`heading_lines_placeable`] tests that).
pub fn parse_text(content: &str) -> (r: Vec<Heading>)
    requires
        all_heading_lines_placeable(content@),
    ensures
        heading_views(r@) == legacy_headings(content@),
{
    let sv = chars_of(content);
    let heads = detect_heading_lines(&sv);
    let ghost hs = char_rows(heads@);
    let mut headings: Vec<Heading> = Vec::new();
    let mut i: usize = 0;
    while i < heads.len()
        invariant
            i <= heads.len(),
            hs == char_rows(heads@),
            hs == heading_lines(sv@),
            sv@ == content@,
            forall|t: int| 0 <= t < heads@.len() ==> placeable(sv@, #[trigger] char_rows(heads@)[t]),
            heading_views(headings@) == hs.take(i as int).map_values(
                |h: Seq<char>| HeadingView { name: h, location: first_occurrence(content@, h)->0 as usize, level: 1 },
            ),
        decreases heads.len() - i,
    {
        let h = &heads[i];
        assert(hs[i as int] == h@);
        assert(placeable(sv@, hs[i as int]));
        let k = find_chars(&sv, h);
        proof {
            crate::text::lemma_find_from_found(sv@, h@, 0);
        }
        let locate: usize = match k {
            Some(k) => k,
            None => 0,
        };
        let name = string_from_chars(h);
        let ghost prev = heading_views(headings@);
        headings.push(Heading { name, location: locate, level: 1 });
        i = i + 1;
        proof {
            assert(heading_views(headings@) =~= prev.push(headings@[i - 1]@));
            assert(heading_views(headings@) =~= hs.take(i as int).map_values(
                |h: Seq<char>| HeadingView { name: h, location: first_occurrence(content@, h)->0 as usize, level: 1 },
            ));
        }
    }
    proof {
        assert(hs.take(hs.len() as int) =~= hs);
    }
    headings
}

/// Whether every heading line of `content` can be placed, as
/// [`parse_text`] needs.
pub fn heading_lines_placeable(content: &str) -> (r: bool)
    ensures
        r == all_heading_lines_placeable(content@),
{
    let sv = chars_of(content);
    let heads = detect_heading_lines(&sv);
    all_placeable(&sv, &heads)
}

/// [`parse_text`] where its heading lines can be placed, `None` elsewhere.
pub fn parse_text_checked(content: &str) -> (r: Option<Vec<Heading>>)
    ensures
        r is Some <==> all_heading_lines_placeable(content@),
        r matches Some(hs) ==> heading_views(hs@) == legacy_headings(content@),
{
    if heading_lines_placeable(content) {
        Some(parse_text(content))
    } else {
        None
    }
}

} // verus!
