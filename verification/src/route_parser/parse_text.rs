//! Headings of a plain-text book: short lines set off by blank lines that
//! carry a numbering keyword or a "第…章/回/品" chapter mark.

use vstd::prelude::*;
use vstd::utf8::encode_utf8;
use crate::format::{Heading, HeadingView, heading_views};
use crate::pattern::{pattern_hit, pattern_matches};
use crate::text::{occurs_in, lemma_split_pieces_occur, lemma_occurs_found, lemma_occurrence_bytes, lemma_find_from_found, chars_of, find_chars, lines_of, prefix_byte_len, split_chars, byte_len, byte_len_below, char_rows, chars_eq, contains_chars, contains_seq, ends_with_chars, ends_with_seq, first_occurrence, starts_with_chars, starts_with_seq, string_from_chars};

verus! {

/// Numbering marks that make a line a heading when it begins or ends with one.
pub open spec fn numbering_keywords() -> Seq<Seq<char>> {
    seq![
        seq!['<', '目', '录', '>'],
        seq!['一', '、'], seq!['二', '、'], seq!['三', '、'], seq!['四', '、'], seq!['五', '、'],
        seq!['六', '、'], seq!['七', '、'], seq!['八', '、'], seq!['九', '、'],
        seq!['1', '.'], seq!['2', '.'], seq!['3', '.'], seq!['4', '.'], seq!['5', '.'],
        seq!['6', '.'], seq!['7', '.'], seq!['8', '.'], seq!['9', '.'],
        seq!['(', '1', ')'], seq!['(', '2', ')'], seq!['(', '3', ')'], seq!['(', '4', ')'],
        seq!['(', '5', ')'], seq!['(', '6', ')'], seq!['(', '7', ')'], seq!['(', '8', ')'],
        seq!['(', '9', ')'],
    ]
}

/// Celestial-stem marks that make a line a heading when it begins with one.
pub open spec fn stem_keywords() -> Seq<Seq<char>> {
    seq![seq!['甲'], seq!['乙'], seq!['丙'], seq!['丁'], seq!['戊']]
}

/// The chapter patterns: "第…章", "第…回" and "第…品".
pub open spec fn chapter_patterns() -> Seq<Seq<char>> {
    seq![
        seq!['第', '(', '.', '*', '?', ')', '章'],
        seq!['第', '(', '.', '*', '?', ')', '回'],
        seq!['第', '(', '.', '*', '?', ')', '品'],
    ]
}

/// `c` holds one of `kws` at its start or at its end.
pub open spec fn affix_keyword_hit(c: Seq<char>, kws: Seq<Seq<char>>) -> bool {
    exists|j: int|
        0 <= j < kws.len() && #[trigger] contains_seq(c, kws[j]) && (starts_with_seq(c, kws[j])
            || ends_with_seq(c, kws[j]))
}

/// `c` begins with one of `kws`.
pub open spec fn prefix_keyword_hit(c: Seq<char>, kws: Seq<Seq<char>>) -> bool {
    exists|j: int| 0 <= j < kws.len() && #[trigger] contains_seq(c, kws[j]) && starts_with_seq(c, kws[j])
}

/// One of `pats` compiles and matches somewhere in `c`.
pub open spec fn any_pattern_hit(c: Seq<char>, pats: Seq<Seq<char>>) -> bool {
    exists|j: int| 0 <= j < pats.len() && #[trigger] pattern_hit(pats[j], c)
}

/// Line `ii` of `ls` is set off by blank lines: it is neither the first nor
/// the last line, and both of its neighbours are empty.
pub open spec fn set_off(ls: Seq<Seq<char>>, ii: int) -> bool {
    &&& 0 < ii < ls.len() - 1
    &&& ls[ii - 1].len() == 0
    &&& ls[ii + 1].len() == 0
}

/// The chapter patterns decide whether line `ii` of `ls` is a heading: it is
/// set off, not taken for its length alone under `use_newline`, at most 50
/// bytes long, and carries no numbering or stem mark.
pub open spec fn patterns_decide(ls: Seq<Seq<char>>, ii: int, use_newline: bool) -> bool {
    let c = ls[ii];
    &&& set_off(ls, ii)
    &&& !(use_newline && byte_len(c) < 70)
    &&& byte_len(c) <= 50
    &&& !affix_keyword_hit(c, numbering_keywords())
    &&& !prefix_keyword_hit(c, stem_keywords())
}

/// The chapter marks of the lines of `ls`: a line is marked when the
/// chapter patterns decide it and one of them matches in it.
pub open spec fn chapter_marks(ls: Seq<Seq<char>>, use_newline: bool) -> Seq<bool> {
    Seq::new(ls.len(), |i: int| patterns_decide(ls, i, use_newline) && any_pattern_hit(ls[i], chapter_patterns()))
}

/// What line `ii` of `ls`, with chapter mark `marked`, does to the headings
/// found so far.
pub open spec fn heading_step(heads: Seq<Seq<char>>, ls: Seq<Seq<char>>, ii: int, marked: bool, use_newline: bool) -> Seq<Seq<char>> {
    let c = ls[ii];
    if !set_off(ls, ii) {
        heads
    } else if use_newline && byte_len(c) < 70 {
        heads.push(c)
    } else if (affix_keyword_hit(c, numbering_keywords()) || prefix_keyword_hit(c, stem_keywords()) || marked)
        && byte_len(c) <= 50 && !heads.contains(c) {
        heads.push(c)
    } else {
        heads
    }
}

/// The heading lines among the first `k` lines of `ls`, in order, when line
/// `i` carries the chapter mark `marks[i]`.
pub open spec fn marked_heading_lines(ls: Seq<Seq<char>>, marks: Seq<bool>, k: int, use_newline: bool) -> Seq<Seq<char>>
    decreases k,
{
    if k <= 0 {
        Seq::<Seq<char>>::empty()
    } else {
        heading_step(marked_heading_lines(ls, marks, k - 1, use_newline), ls, k - 1, marks[k - 1], use_newline)
    }
}

/// The heading lines among the first `k` lines of `ls`, in order.
pub open spec fn heading_lines(ls: Seq<Seq<char>>, k: int, use_newline: bool) -> Seq<Seq<char>> {
    marked_heading_lines(ls, chapter_marks(ls, use_newline), k, use_newline)
}

/// The byte offset of the first occurrence of `sub` in `s`, or 0 when
/// there is none.
pub open spec fn substr_position(s: Seq<char>, sub: Seq<char>) -> nat {
    match first_occurrence(s, sub) {
        Some(k) => byte_len(s.take(k)),
        None => 0,
    }
}

/// The headings found in `content`: the heading lines, each placed at its
/// first occurrence, all at level 1.
pub open spec fn text_headings(content: Seq<char>, use_newline: bool) -> Seq<HeadingView> {
    let ls = lines_of(content);
    let hs = heading_lines(ls, ls.len() as int, use_newline);
    hs.map_values(
        |h: Seq<char>| HeadingView { name: h, location: substr_position(content, h) as usize, level: 1 },
    )
}

fn numbering_keyword_list() -> (v: Vec<Vec<char>>)
    ensures
        char_rows(v@) == numbering_keywords(),
{
    let v = vec![
        vec!['<', '目', '录', '>'],
        vec!['一', '、'], vec!['二', '、'], vec!['三', '、'], vec!['四', '、'], vec!['五', '、'],
        vec!['六', '、'], vec!['七', '、'], vec!['八', '、'], vec!['九', '、'],
        vec!['1', '.'], vec!['2', '.'], vec!['3', '.'], vec!['4', '.'], vec!['5', '.'],
        vec!['6', '.'], vec!['7', '.'], vec!['8', '.'], vec!['9', '.'],
        vec!['(', '1', ')'], vec!['(', '2', ')'], vec!['(', '3', ')'], vec!['(', '4', ')'],
        vec!['(', '5', ')'], vec!['(', '6', ')'], vec!['(', '7', ')'], vec!['(', '8', ')'],
        vec!['(', '9', ')'],
    ];
    assert(char_rows(v@) =~~= numbering_keywords());
    v
}

fn stem_keyword_list() -> (v: Vec<Vec<char>>)
    ensures
        char_rows(v@) == stem_keywords(),
{
    let v = vec![vec!['甲'], vec!['乙'], vec!['丙'], vec!['丁'], vec!['戊']];
    assert(char_rows(v@) =~~= stem_keywords());
    v
}

fn chapter_pattern_list() -> (v: Vec<Vec<char>>)
    ensures
        char_rows(v@) == chapter_patterns(),
{
    let v = vec![
        vec!['第', '(', '.', '*', '?', ')', '章'],
        vec!['第', '(', '.', '*', '?', ')', '回'],
        vec!['第', '(', '.', '*', '?', ')', '品'],
    ];
    assert(char_rows(v@) =~~= chapter_patterns());
    v
}

fn has_affix_keyword(c: &Vec<char>, kws: &Vec<Vec<char>>) -> (r: bool)
    ensures
        r == affix_keyword_hit(c@, char_rows(kws@)),
{
    let mut j: usize = 0;
    while j < kws.len()
        invariant
            j <= kws.len(),
            forall|t: int| 0 <= t < j ==> !(#[trigger] contains_seq(c@, char_rows(kws@)[t]) && (starts_with_seq(c@, char_rows(kws@)[t])
                || ends_with_seq(c@, char_rows(kws@)[t]))),
        decreases kws.len() - j,
    {
        let kw = &kws[j];
        if contains_chars(c, kw) && (starts_with_chars(c, kw) || ends_with_chars(c, kw)) {
            assert(char_rows(kws@)[j as int] == kw@);
            return true;
        }
        j = j + 1;
    }
    false
}

fn has_prefix_keyword(c: &Vec<char>, kws: &Vec<Vec<char>>) -> (r: bool)
    ensures
        r == prefix_keyword_hit(c@, char_rows(kws@)),
{
    let mut j: usize = 0;
    while j < kws.len()
        invariant
            j <= kws.len(),
            forall|t: int| 0 <= t < j ==> !(#[trigger] contains_seq(c@, char_rows(kws@)[t]) && starts_with_seq(c@, char_rows(kws@)[t])),
        decreases kws.len() - j,
    {
        let kw = &kws[j];
        if contains_chars(c, kw) && starts_with_chars(c, kw) {
            assert(char_rows(kws@)[j as int] == kw@);
            return true;
        }
        j = j + 1;
    }
    false
}

fn has_pattern_match(c: &Vec<char>, pats: &Vec<Vec<char>>) -> (r: bool)
    ensures
        r == any_pattern_hit(c@, char_rows(pats@)),
{
    let text = string_from_chars(c);
    let mut j: usize = 0;
    while j < pats.len()
        invariant
            j <= pats.len(),
            text@ == c@,
            forall|t: int| 0 <= t < j ==> !#[trigger] pattern_hit(char_rows(pats@)[t], c@),
        decreases pats.len() - j,
    {
        let pat = string_from_chars(&pats[j]);
        if pattern_matches(pat.as_str(), text.as_str()) {
            assert(char_rows(pats@)[j as int] == pats@[j as int]@);
            return true;
        }
        j = j + 1;
    }
    false
}

fn contains_line(heads: &Vec<Vec<char>>, c: &Vec<char>) -> (r: bool)
    ensures
        r == char_rows(heads@).contains(c@),
{
    let mut j: usize = 0;
    while j < heads.len()
        invariant
            j <= heads.len(),
            forall|t: int| 0 <= t < j ==> char_rows(heads@)[t] != c@,
        decreases heads.len() - j,
    {
        if chars_eq(&heads[j], c) {
            assert(char_rows(heads@)[j as int] == c@);
            return true;
        }
        j = j + 1;
    }
    false
}

/// The heading lines of `lines`, in order of appearance, when line `i`
/// carries the chapter mark `chapter_marks[i]`: a set-off line becomes a
/// heading when it is shorter than 70 bytes under `use_newline`, and
/// otherwise when it is at most 50 bytes long, not yet a heading, and
/// begins or ends with a numbering mark, begins with a celestial stem, or
/// is marked.
pub fn select_heading_lines(lines: &Vec<Vec<char>>, chapter_marks: &Vec<bool>, use_newline: bool) -> (heads: Vec<Vec<char>>)
    requires
        chapter_marks@.len() == lines@.len(),
    ensures
        char_rows(heads@) == marked_heading_lines(char_rows(lines@), chapter_marks@, lines@.len() as int, use_newline),
{
    let kws = numbering_keyword_list();
    let stems = stem_keyword_list();
    let ghost ls = char_rows(lines@);
    let mut heads: Vec<Vec<char>> = Vec::new();
    let mut ii: usize = 0;
    assert(char_rows(heads@) =~= Seq::<Seq<char>>::empty());
    while ii < lines.len()
        invariant
            ii <= lines.len(),
            chapter_marks@.len() == lines@.len(),
            ls == char_rows(lines@),
            char_rows(kws@) == numbering_keywords(),
            char_rows(stems@) == stem_keywords(),
            char_rows(heads@) == marked_heading_lines(ls, chapter_marks@, ii as int, use_newline),
        decreases lines.len() - ii,
    {
        let ghost before = char_rows(heads@);
        let c = &lines[ii];
        assert(ls[ii as int] == c@);
        if ii == 0 || ii == lines.len() - 1 {
        } else if !(lines[ii - 1].len() == 0 && lines[ii + 1].len() == 0) {
            assert(ls[ii - 1] == lines@[ii - 1]@);
            assert(ls[ii + 1] == lines@[ii + 1]@);
        } else if use_newline && byte_len_below(c, 70) {
            assert(ls[ii - 1] == lines@[ii - 1]@);
            assert(ls[ii + 1] == lines@[ii + 1]@);
            heads.push(c.clone());
            assert(char_rows(heads@) =~= before.push(c@));
        } else {
            assert(ls[ii - 1] == lines@[ii - 1]@);
            assert(ls[ii + 1] == lines@[ii + 1]@);
            let hit = has_affix_keyword(c, &kws) || has_prefix_keyword(c, &stems) || chapter_marks[ii];
            if hit && byte_len_below(c, 51) && !contains_line(&heads, c) {
                heads.push(c.clone());
                assert(char_rows(heads@) =~= before.push(c@));
            }
        }
        ii = ii + 1;
    }
    heads
}

/// The chapter marks of `lines`: whether the chapter patterns decide each
/// line and one of them matches in it.
fn mark_chapters(lines: &Vec<Vec<char>>, use_newline: bool) -> (marks: Vec<bool>)
    ensures
        marks@ == chapter_marks(char_rows(lines@), use_newline),
{
    let kws = numbering_keyword_list();
    let stems = stem_keyword_list();
    let pats = chapter_pattern_list();
    let ghost ls = char_rows(lines@);
    let mut marks: Vec<bool> = Vec::new();
    let mut ii: usize = 0;
    while ii < lines.len()
        invariant
            ii <= lines.len(),
            ls == char_rows(lines@),
            char_rows(kws@) == numbering_keywords(),
            char_rows(stems@) == stem_keywords(),
            char_rows(pats@) == chapter_patterns(),
            marks@ =~= chapter_marks(ls, use_newline).take(ii as int),
        decreases lines.len() - ii,
    {
        let c = &lines[ii];
        assert(ls[ii as int] == c@);
        let mut decided = false;
        if ii > 0 && ii < lines.len() - 1 && lines[ii - 1].len() == 0 && lines[ii + 1].len() == 0 {
            assert(ls[ii - 1] == lines@[ii - 1]@);
            assert(ls[ii + 1] == lines@[ii + 1]@);
            if !(use_newline && byte_len_below(c, 70)) && byte_len_below(c, 51) {
                decided = !has_affix_keyword(c, &kws) && !has_prefix_keyword(c, &stems);
            }
        } else if ii > 0 && ii < lines.len() - 1 {
            assert(ls[ii - 1] == lines@[ii - 1]@);
            assert(ls[ii + 1] == lines@[ii + 1]@);
        }
        assert(decided == patterns_decide(ls, ii as int, use_newline));
        let mark = decided && has_pattern_match(c, &pats);
        marks.push(mark);
        ii = ii + 1;
    }
    marks
}

/// The heading lines of `lines`, in order of appearance.
pub fn detect_heading_lines(lines: &Vec<Vec<char>>, use_newline: bool) -> (heads: Vec<Vec<char>>)
    ensures
        char_rows(heads@) == heading_lines(char_rows(lines@), lines@.len() as int, use_newline),
{
    let marks = mark_chapters(lines, use_newline);
    select_heading_lines(lines, &marks, use_newline)
}

/// The UTF-8 bytes of `name` stand in those of `content` at `location`.
pub open spec fn stands_at(content: Seq<char>, name: Seq<char>, location: int) -> bool {
    &&& 0 <= location
    &&& location + byte_len(name) <= byte_len(content)
    &&& encode_utf8(content).subrange(location, location + byte_len(name)) == encode_utf8(name)
}

/// A text that holds `name` holds its bytes at [`substr_position`].
pub proof fn lemma_position_stands(content: Seq<char>, name: Seq<char>)
    requires
        occurs_in(content, name),
    ensures
        stands_at(content, name, substr_position(content, name) as int),
{
    let k = choose|k: int| crate::text::occurs_at(content, name, k);
    lemma_occurs_found(content, name, k);
    lemma_find_from_found(content, name, 0);
    let f = first_occurrence(content, name)->0;
    lemma_occurrence_bytes(content, name, f);
}

pub proof fn lemma_heading_lines_are_lines(ls: Seq<Seq<char>>, marks: Seq<bool>, k: int, use_newline: bool)
    requires
        k <= ls.len(),
    ensures
        forall|i: int|
            0 <= i < marked_heading_lines(ls, marks, k, use_newline).len() ==> ls.contains(
                #[trigger] marked_heading_lines(ls, marks, k, use_newline)[i],
            ),
    decreases k,
{
    if k > 0 {
        lemma_heading_lines_are_lines(ls, marks, k - 1, use_newline);
        let prev = marked_heading_lines(ls, marks, k - 1, use_newline);
        let cur = marked_heading_lines(ls, marks, k, use_newline);
        assert forall|i: int| 0 <= i < cur.len() implies ls.contains(#[trigger] cur[i]) by {
            if i < prev.len() {
                assert(cur[i] == prev[i]);
            } else {
                assert(cur[i] == ls[k - 1]);
            }
        }
    }
}

/// `c` begins with a numbering mark: "<目录>", a Chinese numeral from 一 to
/// 九 followed by "、", a digit from 1 to 9 followed by ".", or such a digit
/// in round brackets; or with a celestial stem from 甲 to 戊.
pub open spec fn begins_with_numbering(c: Seq<char>) -> bool {
    ||| c.len() >= 4 && c[0] == '<' && c[1] == '目' && c[2] == '录' && c[3] == '>'
    ||| c.len() >= 2 && c[1] == '、' && (c[0] == '一' || c[0] == '二' || c[0] == '三' || c[0] == '四'
        || c[0] == '五' || c[0] == '六' || c[0] == '七' || c[0] == '八' || c[0] == '九')
    ||| c.len() >= 2 && c[1] == '.' && '1' <= c[0] && c[0] <= '9'
    ||| c.len() >= 3 && c[0] == '(' && '1' <= c[1] && c[1] <= '9' && c[2] == ')'
    ||| c.len() >= 1 && (c[0] == '甲' || c[0] == '乙' || c[0] == '丙' || c[0] == '丁' || c[0] == '戊')
}

proof fn lemma_keyword_begins(c: Seq<char>, kws: Seq<Seq<char>>, j: int)
    requires
        0 <= j < kws.len(),
        starts_with_seq(c, kws[j]),
    ensures
        affix_keyword_hit(c, kws),
        prefix_keyword_hit(c, kws),
{
    assert(crate::text::occurs_at(c, kws[j], 0));
    lemma_occurs_found(c, kws[j], 0);
    assert(contains_seq(c, kws[j]));
}

proof fn lemma_numbering_mark_hit(c: Seq<char>)
    requires
        begins_with_numbering(c),
    ensures
        affix_keyword_hit(c, numbering_keywords()) || prefix_keyword_hit(c, stem_keywords()),
{
    let kws = numbering_keywords();
    let stems = stem_keywords();
    if c.len() >= 4 && c[0] == '<' && c[1] == '目' && c[2] == '录' && c[3] == '>' {
        assert(c.subrange(0, 4) =~= kws[0]);
        lemma_keyword_begins(c, kws, 0);
    } else if c.len() >= 2 && c[1] == '、' && (c[0] == '一' || c[0] == '二' || c[0] == '三' || c[0] == '四'
        || c[0] == '五' || c[0] == '六' || c[0] == '七' || c[0] == '八' || c[0] == '九') {
        let j: int = if c[0] == '一' { 1 } else if c[0] == '二' { 2 } else if c[0] == '三' { 3 }
            else if c[0] == '四' { 4 } else if c[0] == '五' { 5 } else if c[0] == '六' { 6 }
            else if c[0] == '七' { 7 } else if c[0] == '八' { 8 } else { 9 };
        assert(kws[j] =~= seq![c[0], '、']);
        assert(c.subrange(0, 2) =~= kws[j]);
        lemma_keyword_begins(c, kws, j);
    } else if c.len() >= 2 && c[1] == '.' && '1' <= c[0] && c[0] <= '9' {
        let j: int = if c[0] == '1' { 10 } else if c[0] == '2' { 11 } else if c[0] == '3' { 12 }
            else if c[0] == '4' { 13 } else if c[0] == '5' { 14 } else if c[0] == '6' { 15 }
            else if c[0] == '7' { 16 } else if c[0] == '8' { 17 } else { 18 };
        assert(kws[j] =~= seq![c[0], '.']);
        assert(c.subrange(0, 2) =~= kws[j]);
        lemma_keyword_begins(c, kws, j);
    } else if c.len() >= 3 && c[0] == '(' && '1' <= c[1] && c[1] <= '9' && c[2] == ')' {
        let j: int = if c[1] == '1' { 19 } else if c[1] == '2' { 20 } else if c[1] == '3' { 21 }
            else if c[1] == '4' { 22 } else if c[1] == '5' { 23 } else if c[1] == '6' { 24 }
            else if c[1] == '7' { 25 } else if c[1] == '8' { 26 } else { 27 };
        assert(kws[j] =~= seq!['(', c[1], ')']);
        assert(c.subrange(0, 3) =~= kws[j]);
        lemma_keyword_begins(c, kws, j);
    } else {
        let j: int = if c[0] == '甲' { 0 } else if c[0] == '乙' { 1 } else if c[0] == '丙' { 2 }
            else if c[0] == '丁' { 3 } else { 4 };
        assert(stems[j] =~= seq![c[0]]);
        assert(c.subrange(0, 1) =~= stems[j]);
        lemma_keyword_begins(c, stems, j);
    }
}

/// `c` ends with a numbering mark: "<目录>", a Chinese numeral from 一 to 九
/// followed by "、", a digit from 1 to 9 followed by ".", or such a digit in
/// round brackets.
pub open spec fn ends_with_numbering(c: Seq<char>) -> bool {
    let n = c.len() as int;
    ||| n >= 4 && c[n - 4] == '<' && c[n - 3] == '目' && c[n - 2] == '录' && c[n - 1] == '>'
    ||| n >= 2 && c[n - 1] == '、' && (c[n - 2] == '一' || c[n - 2] == '二' || c[n - 2] == '三' || c[n - 2] == '四'
        || c[n - 2] == '五' || c[n - 2] == '六' || c[n - 2] == '七' || c[n - 2] == '八' || c[n - 2] == '九')
    ||| n >= 2 && c[n - 1] == '.' && '1' <= c[n - 2] && c[n - 2] <= '9'
    ||| n >= 3 && c[n - 3] == '(' && '1' <= c[n - 2] && c[n - 2] <= '9' && c[n - 1] == ')'
}

proof fn lemma_keyword_ends(c: Seq<char>, kws: Seq<Seq<char>>, j: int)
    requires
        0 <= j < kws.len(),
        ends_with_seq(c, kws[j]),
    ensures
        affix_keyword_hit(c, kws),
{
    assert(crate::text::occurs_at(c, kws[j], c.len() - kws[j].len()));
    lemma_occurs_found(c, kws[j], c.len() - kws[j].len());
    assert(contains_seq(c, kws[j]));
}

proof fn lemma_numbering_end_hit(c: Seq<char>)
    requires
        ends_with_numbering(c),
    ensures
        affix_keyword_hit(c, numbering_keywords()),
{
    let kws = numbering_keywords();
    let n = c.len() as int;
    if n >= 4 && c[n - 4] == '<' && c[n - 3] == '目' && c[n - 2] == '录' && c[n - 1] == '>' {
        assert(c.subrange(n - 4, n) =~= kws[0]);
        lemma_keyword_ends(c, kws, 0);
    } else if n >= 2 && c[n - 1] == '、' && (c[n - 2] == '一' || c[n - 2] == '二' || c[n - 2] == '三' || c[n - 2] == '四'
        || c[n - 2] == '五' || c[n - 2] == '六' || c[n - 2] == '七' || c[n - 2] == '八' || c[n - 2] == '九') {
        let d = c[n - 2];
        let j: int = if d == '一' { 1 } else if d == '二' { 2 } else if d == '三' { 3 }
            else if d == '四' { 4 } else if d == '五' { 5 } else if d == '六' { 6 }
            else if d == '七' { 7 } else if d == '八' { 8 } else { 9 };
        assert(kws[j] =~= seq![d, '、']);
        assert(c.subrange(n - 2, n) =~= kws[j]);
        lemma_keyword_ends(c, kws, j);
    } else if n >= 2 && c[n - 1] == '.' && '1' <= c[n - 2] && c[n - 2] <= '9' {
        let d = c[n - 2];
        let j: int = if d == '1' { 10 } else if d == '2' { 11 } else if d == '3' { 12 }
            else if d == '4' { 13 } else if d == '5' { 14 } else if d == '6' { 15 }
            else if d == '7' { 16 } else if d == '8' { 17 } else { 18 };
        assert(kws[j] =~= seq![d, '.']);
        assert(c.subrange(n - 2, n) =~= kws[j]);
        lemma_keyword_ends(c, kws, j);
    } else {
        let d = c[n - 2];
        let j: int = if d == '1' { 19 } else if d == '2' { 20 } else if d == '3' { 21 }
            else if d == '4' { 22 } else if d == '5' { 23 } else if d == '6' { 24 }
            else if d == '7' { 25 } else if d == '8' { 26 } else { 27 };
        assert(kws[j] =~= seq!['(', d, ')']);
        assert(c.subrange(n - 3, n) =~= kws[j]);
        lemma_keyword_ends(c, kws, j);
    }
}

proof fn lemma_heading_lines_grow(ls: Seq<Seq<char>>, marks: Seq<bool>, k1: int, k2: int, use_newline: bool, x: Seq<char>)
    requires
        0 <= k1 <= k2,
        marked_heading_lines(ls, marks, k1, use_newline).contains(x),
    ensures
        marked_heading_lines(ls, marks, k2, use_newline).contains(x),
    decreases k2,
{
    if k1 < k2 {
        lemma_heading_lines_grow(ls, marks, k1, k2 - 1, use_newline, x);
        let prev = marked_heading_lines(ls, marks, k2 - 1, use_newline);
        let j = choose|j: int| 0 <= j < prev.len() && prev[j] == x;
        let cur = marked_heading_lines(ls, marks, k2, use_newline);
        assert(cur[j] == x);
    }
}

/// A set-off line (not the first or last, between two empty lines) of at
/// most 50 bytes that begins or ends with a numbering mark, or begins with a
/// celestial stem, is among the headings found, with or without
/// `use_newline`.
pub proof fn law_numbered_lines_are_headings(content: Seq<char>, ii: int, use_newline: bool)
    requires
        0 < ii < lines_of(content).len() - 1,
        lines_of(content)[ii - 1].len() == 0,
        lines_of(content)[ii + 1].len() == 0,
        byte_len(lines_of(content)[ii]) <= 50,
        begins_with_numbering(lines_of(content)[ii]) || ends_with_numbering(lines_of(content)[ii]),
    ensures
        exists|j: int|
            0 <= j < text_headings(content, use_newline).len() && #[trigger] text_headings(content, use_newline)[j].name
                == lines_of(content)[ii],
{
    let ls = lines_of(content);
    let c = ls[ii];
    let marks = chapter_marks(ls, use_newline);
    if begins_with_numbering(c) {
        lemma_numbering_mark_hit(c);
    } else {
        lemma_numbering_end_hit(c);
    }
    let prev = marked_heading_lines(ls, marks, ii, use_newline);
    let cur = marked_heading_lines(ls, marks, ii + 1, use_newline);
    assert(cur == heading_step(prev, ls, ii, marks[ii], use_newline));
    if prev.contains(c) {
        lemma_heading_lines_grow(ls, marks, ii, ii + 1, use_newline, c);
    } else {
        assert(cur == prev.push(c));
        assert(cur[prev.len() as int] == c);
    }
    assert(cur.contains(c));
    lemma_heading_lines_grow(ls, marks, ii + 1, ls.len() as int, use_newline, c);
    let hs = heading_lines(ls, ls.len() as int, use_newline);
    let j = choose|j: int| 0 <= j < hs.len() && hs[j] == c;
    assert(text_headings(content, use_newline)[j].name == c);
}

/// Every heading found in a text stands in it at its location: the bytes of
/// its name begin there.
pub proof fn law_headings_stand_at_their_location(content: Seq<char>, use_newline: bool)
    requires
        byte_len(content) <= usize::MAX,
    ensures
        forall|i: int|
            0 <= i < text_headings(content, use_newline).len() ==> stands_at(
                content,
                (#[trigger] text_headings(content, use_newline)[i]).name,
                text_headings(content, use_newline)[i].location as int,
            ),
{
    let ls = lines_of(content);
    let hs = heading_lines(ls, ls.len() as int, use_newline);
    lemma_heading_lines_are_lines(ls, chapter_marks(ls, use_newline), ls.len() as int, use_newline);
    lemma_split_pieces_occur(content, '\n');
    assert forall|i: int| 0 <= i < text_headings(content, use_newline).len() implies stands_at(
        content,
        (#[trigger] text_headings(content, use_newline)[i]).name,
        text_headings(content, use_newline)[i].location as int,
    ) by {
        let name = hs[i];
        assert(ls.contains(name));
        let j = choose|j: int| 0 <= j < ls.len() && ls[j] == name;
        assert(occurs_in(content, ls[j]));
        lemma_position_stands(content, name);
        assert(substr_position(content, name) <= byte_len(content));
    }
}

/// Byte offset of the first occurrence of `sub` in `s`, or 0 when `sub`
/// does not occur.
pub fn find_substr_position(s: &str, sub: &str) -> (r: usize)
    ensures
        r == substr_position(s@, sub@),
{
    let sv = chars_of(s);
    let subv = chars_of(sub);
    position_in(&sv, &subv)
}

fn position_in(sv: &Vec<char>, subv: &Vec<char>) -> (r: usize)
    requires
        byte_len(sv@) <= usize::MAX,
    ensures
        r == substr_position(sv@, subv@),
{
    let _len: usize = sv.len();
    match find_chars(sv, subv) {
        Some(k) => {
            proof {
                crate::text::lemma_find_from_found(sv@, subv@, 0);
                assert(k as int == first_occurrence(sv@, subv@)->0);
            }
            prefix_byte_len(sv, k)
        },
        None => 0,
    }
}

/// Finds the headings of a plain-text book and returns them with the text.
///
/// A line is a candidate when it is neither the first nor the last line and
/// both of its neighbours are empty. With `use_newline`, every candidate
/// shorter than 70 bytes is a heading. Otherwise a candidate of at most 50
/// bytes that is not yet a heading becomes one when it begins or ends with a
/// numbering mark, begins with a celestial stem, or matches a chapter
/// pattern. Each heading is placed at the byte offset of its first
/// occurrence in the text, at level 1.
pub fn parse_text(content: String, use_newline: bool) -> (r: (Vec<Heading>, String))
    ensures
        heading_views(r.0@) == text_headings(content@, use_newline),
        r.1@ == content@,
{
    let chars = chars_of(content.as_str());
    let lines = split_chars(&chars, '\n');
    let heads = detect_heading_lines(&lines, use_newline);
    let ghost hs = char_rows(heads@);
    let mut headings: Vec<Heading> = Vec::new();
    let mut i: usize = 0;
    while i < heads.len()
        invariant
            i <= heads.len(),
            hs == char_rows(heads@),
            byte_len(chars@) <= usize::MAX,
            heading_views(headings@) == hs.take(i as int).map_values(
                |h: Seq<char>| HeadingView { name: h, location: substr_position(chars@, h) as usize, level: 1 },
            ),
        decreases heads.len() - i,
    {
        let locate: usize = position_in(&chars, &heads[i]);
        let name = string_from_chars(&heads[i]);
        let ghost prev = heading_views(headings@);
        headings.push(Heading { name, location: locate, level: 1 });
        i = i + 1;
        proof {
            assert(hs[i - 1] == heads@[i - 1]@);
            assert(heading_views(headings@) =~= prev.push(headings@[i - 1]@));
            assert(heading_views(headings@) =~= hs.take(i as int).map_values(
                |h: Seq<char>| HeadingView { name: h, location: substr_position(chars@, h) as usize, level: 1 },
            ));
        }
    }
    proof {
        assert(hs.take(hs.len() as int) =~= hs);
    }
    (headings, content)
}

} // verus!
