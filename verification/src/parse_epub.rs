//! Headings of an EPUB book: its chapters and subchapters in reading order,
//! each at the byte offset where its text begins in the concatenated text.

use vstd::prelude::*;
use crate::format::{DocumentError, Heading, HeadingView, RawStructruedText, heading_views};

verus! {

/// A chapter of a book: its title, the text before its first subchapter,
/// and its subchapters.
pub struct EpubChapter {
    pub title: String,
    pub text: String,
    pub subchapters: Vec<EpubChapter>,
}

/// The mathematical value of a chapter.
pub struct ChapterView {
    pub title: Seq<char>,
    pub text: Seq<char>,
    pub subchapters: Seq<ChapterView>,
}

pub open spec fn chapter_view(c: EpubChapter) -> ChapterView
    decreases c, 1int,
{
    ChapterView { title: c.title@, text: c.text@, subchapters: chapters_view(c.subchapters@) }
}

pub open spec fn chapters_view(s: Seq<EpubChapter>) -> Seq<ChapterView>
    decreases s, 0int,
{
    if s.len() == 0 {
        Seq::<ChapterView>::empty()
    } else {
        seq![chapter_view(s[0])] + chapters_view(s.drop_first())
    }
}


pub proof fn lemma_chapters_view(s: Seq<EpubChapter>)
    ensures
        chapters_view(s).len() == s.len(),
        forall|j: int| 0 <= j < s.len() ==> #[trigger] chapters_view(s)[j] == chapter_view(s[j]),
    decreases s.len(),
{
    if s.len() > 0 {
        lemma_chapters_view(s.drop_first());
        assert forall|j: int| 0 <= j < s.len() implies #[trigger] chapters_view(s)[j] == chapter_view(s[j]) by {
            if j > 0 {
                assert(s.drop_first()[j - 1] == s[j]);
            }
        }
    }
}

/// The headings and text gathered so far, and the level counter.
pub struct EpubBuild {
    pub heads: Seq<HeadingView>,
    pub text: Seq<char>,
    pub level: u8,
}

/// The level counter after one step up; it wraps from 255 to 0.
pub open spec fn next_level(l: u8) -> u8 {
    if l == 255 {
        0
    } else {
        (l + 1) as u8
    }
}

/// Records a heading `title` at the current end of the text and then
/// appends `text`.
pub open spec fn emit(st: EpubBuild, title: Seq<char>, text: Seq<char>) -> EpubBuild {
    EpubBuild {
        heads: st.heads.push(HeadingView { name: title, location: crate::text::byte_len(st.text) as usize, level: st.level }),
        text: st.text + text,
        level: st.level,
    }
}

pub open spec fn with_level(st: EpubBuild, level: u8) -> EpubBuild {
    EpubBuild { heads: st.heads, text: st.text, level }
}

/// The fourth nesting level: each of `n` subchapters records its parent's
/// title and text once more.
pub open spec fn repeat_parent(st: EpubBuild, parent: ChapterView, n: nat) -> EpubBuild
    decreases n,
{
    if n == 0 {
        st
    } else {
        emit(repeat_parent(st, parent, (n - 1) as nat), parent.title, parent.text)
    }
}

/// A third-level chapter: records itself, then, when it has subchapters,
/// raises the level and repeats itself once per subchapter.
pub open spec fn step_third(st: EpubBuild, c: ChapterView) -> EpubBuild {
    let s1 = emit(st, c.title, c.text);
    if c.subchapters.len() == 0 {
        s1
    } else {
        repeat_parent(with_level(s1, next_level(s1.level)), c, c.subchapters.len())
    }
}

pub open spec fn fold_third(st: EpubBuild, cs: Seq<ChapterView>) -> EpubBuild
    decreases cs.len(),
{
    if cs.len() == 0 {
        st
    } else {
        step_third(fold_third(st, cs.drop_last()), cs.last())
    }
}

/// A second-level chapter: records itself, then, when it has subchapters,
/// raises the level and goes through them.
pub open spec fn step_second(st: EpubBuild, c: ChapterView) -> EpubBuild {
    let s1 = emit(st, c.title, c.text);
    if c.subchapters.len() == 0 {
        s1
    } else {
        fold_third(with_level(s1, next_level(s1.level)), c.subchapters)
    }
}

pub open spec fn fold_second(st: EpubBuild, cs: Seq<ChapterView>) -> EpubBuild
    decreases cs.len(),
{
    if cs.len() == 0 {
        st
    } else {
        step_second(fold_second(st, cs.drop_last()), cs.last())
    }
}

/// A top-level chapter: records itself at level 1, then goes through its
/// subchapters starting at level 2.
pub open spec fn step_first(st: EpubBuild, c: ChapterView) -> EpubBuild {
    let s1 = emit(with_level(st, 1), c.title, c.text);
    if c.subchapters.len() == 0 {
        s1
    } else {
        fold_second(with_level(s1, 2), c.subchapters)
    }
}

pub open spec fn fold_first(st: EpubBuild, cs: Seq<ChapterView>) -> EpubBuild
    decreases cs.len(),
{
    if cs.len() == 0 {
        st
    } else {
        step_first(fold_first(st, cs.drop_last()), cs.last())
    }
}

/// The headings and text of a book with chapters `cs`.
pub open spec fn book_build(cs: Seq<ChapterView>) -> EpubBuild {
    fold_first(EpubBuild { heads: Seq::empty(), text: Seq::empty(), level: 1 }, cs)
}

/// The headings come in reading order: their locations never decrease and
/// none lies past the end of the text.
pub open spec fn in_reading_order(st: EpubBuild) -> bool {
    &&& forall|i: int, j: int|
        0 <= i < j < st.heads.len() ==> (#[trigger] st.heads[i]).location <= (#[trigger] st.heads[j]).location
    &&& forall|i: int| 0 <= i < st.heads.len() ==> (#[trigger] st.heads[i]).location <= crate::text::byte_len(st.text)
}

/// `b` continues `a`: its text begins with `a`'s.
pub open spec fn continues(a: EpubBuild, b: EpubBuild) -> bool {
    a.text.len() <= b.text.len() && b.text.subrange(0, a.text.len() as int) == a.text
}

proof fn lemma_continues_bytes(a: EpubBuild, b: EpubBuild)
    requires
        continues(a, b),
    ensures
        crate::text::byte_len(a.text) <= crate::text::byte_len(b.text),
{
    assert(b.text.take(a.text.len() as int) =~= a.text);
    crate::text::lemma_byte_len_prefix_le(b.text, a.text.len() as int);
}

proof fn lemma_continues_trans(a: EpubBuild, b: EpubBuild, c: EpubBuild)
    requires
        continues(a, b),
        continues(b, c),
    ensures
        continues(a, c),
{
    assert(c.text.subrange(0, a.text.len() as int) =~= c.text.subrange(0, b.text.len() as int).subrange(0, a.text.len() as int));
}

proof fn lemma_emit(st: EpubBuild, title: Seq<char>, text: Seq<char>)
    ensures
        continues(st, emit(st, title, text)),
        in_reading_order(st) && crate::text::byte_len(emit(st, title, text).text) <= usize::MAX ==> in_reading_order(emit(st, title, text)),
{
    let e = emit(st, title, text);
    assert(e.text.subrange(0, st.text.len() as int) =~= st.text);
    if in_reading_order(st) && crate::text::byte_len(e.text) <= usize::MAX {
        lemma_continues_bytes(st, e);
        let n = st.heads.len() as int;
        assert(e.heads[n].location == crate::text::byte_len(st.text));
        assert forall|i: int, j: int| 0 <= i < j < e.heads.len() implies (#[trigger] e.heads[i]).location <= (#[trigger] e.heads[j]).location by {
            if j < n {
                assert(e.heads[i] == st.heads[i] && e.heads[j] == st.heads[j]);
            } else {
                assert(e.heads[i] == st.heads[i]);
            }
        }
        assert forall|i: int| 0 <= i < e.heads.len() implies (#[trigger] e.heads[i]).location <= crate::text::byte_len(e.text) by {
            if i < n {
                assert(e.heads[i] == st.heads[i]);
            }
        }
    }
}

proof fn lemma_repeat_order(st: EpubBuild, parent: ChapterView, n: nat)
    ensures
        continues(st, repeat_parent(st, parent, n)),
        in_reading_order(st) && crate::text::byte_len(repeat_parent(st, parent, n).text) <= usize::MAX ==> in_reading_order(repeat_parent(st, parent, n)),
    decreases n,
{
    if n == 0 {
        assert(st.text.subrange(0, st.text.len() as int) =~= st.text);
    } else {
        let prev = repeat_parent(st, parent, (n - 1) as nat);
        lemma_repeat_order(st, parent, (n - 1) as nat);
        lemma_emit(prev, parent.title, parent.text);
        lemma_continues_trans(st, prev, repeat_parent(st, parent, n));
        lemma_continues_bytes(prev, repeat_parent(st, parent, n));
    }
}

proof fn lemma_fold_third_order(st: EpubBuild, cs: Seq<ChapterView>)
    ensures
        continues(st, fold_third(st, cs)),
        in_reading_order(st) && crate::text::byte_len(fold_third(st, cs).text) <= usize::MAX ==> in_reading_order(fold_third(st, cs)),
    decreases cs.len(),
{
    if cs.len() == 0 {
        assert(st.text.subrange(0, st.text.len() as int) =~= st.text);
    } else {
        let prev = fold_third(st, cs.drop_last());
        lemma_fold_third_order(st, cs.drop_last());
        let c = cs.last();
        let s1 = emit(prev, c.title, c.text);
        lemma_emit(prev, c.title, c.text);
        let fin = fold_third(st, cs);
        if c.subchapters.len() != 0 {
            let s2 = with_level(s1, next_level(s1.level));
            lemma_repeat_order(s2, c, c.subchapters.len());
            lemma_continues_trans(prev, s1, fin);
        }
        assert(s1.text.subrange(0, s1.text.len() as int) =~= s1.text);
        lemma_continues_trans(st, prev, fin);
        lemma_continues_bytes(prev, fin);
        lemma_continues_bytes(s1, fin);
    }
}

proof fn lemma_fold_second_order(st: EpubBuild, cs: Seq<ChapterView>)
    ensures
        continues(st, fold_second(st, cs)),
        in_reading_order(st) && crate::text::byte_len(fold_second(st, cs).text) <= usize::MAX ==> in_reading_order(fold_second(st, cs)),
    decreases cs.len(),
{
    if cs.len() == 0 {
        assert(st.text.subrange(0, st.text.len() as int) =~= st.text);
    } else {
        let prev = fold_second(st, cs.drop_last());
        lemma_fold_second_order(st, cs.drop_last());
        let c = cs.last();
        let s1 = emit(prev, c.title, c.text);
        lemma_emit(prev, c.title, c.text);
        let fin = fold_second(st, cs);
        if c.subchapters.len() != 0 {
            let s2 = with_level(s1, next_level(s1.level));
            lemma_fold_third_order(s2, c.subchapters);
            lemma_continues_trans(prev, s1, fin);
        }
        assert(s1.text.subrange(0, s1.text.len() as int) =~= s1.text);
        lemma_continues_trans(st, prev, fin);
        lemma_continues_bytes(prev, fin);
        lemma_continues_bytes(s1, fin);
    }
}

proof fn lemma_fold_first_order(st: EpubBuild, cs: Seq<ChapterView>)
    ensures
        continues(st, fold_first(st, cs)),
        in_reading_order(st) && crate::text::byte_len(fold_first(st, cs).text) <= usize::MAX ==> in_reading_order(fold_first(st, cs)),
    decreases cs.len(),
{
    if cs.len() == 0 {
        assert(st.text.subrange(0, st.text.len() as int) =~= st.text);
    } else {
        let prev = fold_first(st, cs.drop_last());
        lemma_fold_first_order(st, cs.drop_last());
        let c = cs.last();
        let s0 = with_level(prev, 1);
        let s1 = emit(s0, c.title, c.text);
        lemma_emit(s0, c.title, c.text);
        let fin = fold_first(st, cs);
        if c.subchapters.len() != 0 {
            lemma_fold_second_order(with_level(s1, 2), c.subchapters);
            lemma_continues_trans(s0, s1, fin);
        }
        assert(s1.text.subrange(0, s1.text.len() as int) =~= s1.text);
        lemma_continues_trans(st, prev, fin);
        lemma_continues_bytes(prev, fin);
        lemma_continues_bytes(s1, fin);
    }
}

/// The headings of a book come in reading order: their locations never
/// decrease and none lies past the end of the text (for a text whose length
/// fits in `usize`).
pub proof fn law_book_headings_in_reading_order(cs: Seq<ChapterView>)
    requires
        crate::text::byte_len(book_build(cs).text) <= usize::MAX,
    ensures
        in_reading_order(book_build(cs)),
{
    lemma_fold_first_order(EpubBuild { heads: Seq::empty(), text: Seq::empty(), level: 1 }, cs);
}

/// The headings of `a` begin the headings of `b`.
pub open spec fn heads_prefix(a: EpubBuild, b: EpubBuild) -> bool {
    &&& a.heads.len() <= b.heads.len()
    &&& forall|i: int| 0 <= i < a.heads.len() ==> #[trigger] b.heads[i] == a.heads[i]
}

proof fn lemma_prefix_trans(a: EpubBuild, b: EpubBuild, c: EpubBuild)
    requires
        heads_prefix(a, b),
        heads_prefix(b, c),
    ensures
        heads_prefix(a, c),
{
    assert forall|i: int| 0 <= i < a.heads.len() implies #[trigger] c.heads[i] == a.heads[i] by {
        assert(c.heads[i] == b.heads[i]);
    }
}

proof fn lemma_repeat_prefix(st: EpubBuild, parent: ChapterView, n: nat)
    ensures
        heads_prefix(st, repeat_parent(st, parent, n)),
    decreases n,
{
    if n > 0 {
        lemma_repeat_prefix(st, parent, (n - 1) as nat);
        let prev = repeat_parent(st, parent, (n - 1) as nat);
        lemma_prefix_trans(st, prev, repeat_parent(st, parent, n));
    }
}

proof fn lemma_fold_third_prefix(st: EpubBuild, cs: Seq<ChapterView>)
    ensures
        heads_prefix(st, fold_third(st, cs)),
    decreases cs.len(),
{
    if cs.len() > 0 {
        lemma_fold_third_prefix(st, cs.drop_last());
        let prev = fold_third(st, cs.drop_last());
        let c = cs.last();
        let s1 = emit(prev, c.title, c.text);
        lemma_prefix_trans(st, prev, s1);
        if c.subchapters.len() != 0 {
            let s2 = with_level(s1, next_level(s1.level));
            lemma_repeat_prefix(s2, c, c.subchapters.len());
            lemma_prefix_trans(st, s1, fold_third(st, cs));
        }
    }
}

proof fn lemma_step_second_prefix(st: EpubBuild, c: ChapterView)
    ensures
        heads_prefix(st, step_second(st, c)),
        step_second(st, c).heads.len() > st.heads.len(),
        step_second(st, c).heads[st.heads.len() as int] == (HeadingView {
            name: c.title,
            location: crate::text::byte_len(st.text) as usize,
            level: st.level,
        }),
{
    let s1 = emit(st, c.title, c.text);
    if c.subchapters.len() != 0 {
        let s2 = with_level(s1, next_level(s1.level));
        lemma_fold_third_prefix(s2, c.subchapters);
        lemma_prefix_trans(st, s1, step_second(st, c));
        assert(step_second(st, c).heads[st.heads.len() as int] == s1.heads[st.heads.len() as int]);
    }
}

proof fn lemma_fold_second_prefix(st: EpubBuild, cs: Seq<ChapterView>, m: int)
    requires
        0 <= m <= cs.len(),
    ensures
        heads_prefix(fold_second(st, cs.take(m)), fold_second(st, cs)),
    decreases cs.len(),
{
    if m == cs.len() {
        assert(cs.take(m) =~= cs);
    } else {
        assert(cs.drop_last().take(m) =~= cs.take(m));
        lemma_fold_second_prefix(st, cs.drop_last(), m);
        let prev = fold_second(st, cs.drop_last());
        lemma_step_second_prefix(prev, cs.last());
        lemma_prefix_trans(fold_second(st, cs.take(m)), prev, fold_second(st, cs));
    }
}

/// The texts of the chapters `cs`, one after another, subchapters left out.
pub open spec fn texts_of(cs: Seq<ChapterView>) -> Seq<char>
    decreases cs.len(),
{
    if cs.len() == 0 {
        Seq::<char>::empty()
    } else {
        texts_of(cs.drop_last()) + cs.last().text
    }
}

/// Going through second-level chapters none of which has subchapters
/// records each title in turn at the level it starts with.
proof fn lemma_flat_second(st: EpubBuild, cs: Seq<ChapterView>, k: int)
    requires
        0 <= k <= cs.len(),
        forall|t: int| 0 <= t < k ==> (#[trigger] cs[t]).subchapters.len() == 0,
    ensures
        fold_second(st, cs.take(k)).heads.len() == st.heads.len() + k,
        fold_second(st, cs.take(k)).level == st.level,
        fold_second(st, cs.take(k)).text == st.text + texts_of(cs.take(k)),
        forall|t: int|
            0 <= t < k ==> (#[trigger] fold_second(st, cs.take(k)).heads[st.heads.len() + t]).name == cs[t].title
                && fold_second(st, cs.take(k)).heads[st.heads.len() + t].level == st.level
                && fold_second(st, cs.take(k)).heads[st.heads.len() + t].location == crate::text::byte_len(
                st.text + texts_of(cs.take(t)),
            ) as usize,
    decreases k,
{
    if k == 0 {
        assert(cs.take(0) =~= Seq::<ChapterView>::empty());
        assert(st.text + texts_of(cs.take(0)) =~= st.text);
    } else {
        lemma_flat_second(st, cs, k - 1);
        assert(cs.take(k).drop_last() =~= cs.take(k - 1));
        assert(cs.take(k).last() == cs[k - 1]);
        assert(texts_of(cs.take(k)) == texts_of(cs.take(k - 1)) + cs[k - 1].text);
        assert(st.text + texts_of(cs.take(k)) =~= st.text + texts_of(cs.take(k - 1)) + cs[k - 1].text);
        assert(cs.take(k).drop_last() =~= cs.take(k - 1));
        assert(cs.take(k).last() == cs[k - 1]);
        let prev = fold_second(st, cs.take(k - 1));
        let cur = fold_second(st, cs.take(k));
        assert(cur == emit(prev, cs[k - 1].title, cs[k - 1].text));
        assert forall|t: int| 0 <= t < k implies (#[trigger] cur.heads[st.heads.len() + t]).name == cs[t].title
            && cur.heads[st.heads.len() + t].level == st.level by {
            if t < k - 1 {
                assert(cur.heads[st.heads.len() + t] == prev.heads[st.heads.len() + t]);
            }
        }
    }
}

/// None of the first `j` chapters of `cs` has subchapters.
pub open spec fn leaves_before(cs: Seq<ChapterView>, j: int) -> bool {
    forall|t: int| 0 <= t < j ==> (#[trigger] cs[t]).subchapters.len() == 0
}

/// The headings a top-level chapter adds after the state `b`.
proof fn lemma_step_first_levels(b: EpubBuild, c: ChapterView)
    ensures
        ({
            let a = step_first(b, c);
            let n = b.heads.len();
            &&& a.heads.len() > n
            &&& a.heads[n as int] == (HeadingView { name: c.title, location: crate::text::byte_len(b.text) as usize, level: 1 })
            &&& forall|j: int|
                0 <= j < c.subchapters.len() && #[trigger] leaves_before(c.subchapters, j) ==> n + 1 + j < a.heads.len()
                    && c.subchapters[j].title == a.heads[n + 1 + j].name && a.heads[n + 1 + j].level == 2
                    && a.heads[n + 1 + j].location == crate::text::byte_len(
                    b.text + c.text + texts_of(c.subchapters.take(j)),
                ) as usize
        }),
{
    let a = step_first(b, c);
    let n = b.heads.len();
    let s1 = emit(with_level(b, 1), c.title, c.text);
    let subs = c.subchapters;
    if subs.len() != 0 {
        let s2 = with_level(s1, 2);
        assert(a == fold_second(s2, subs));
        lemma_fold_second_prefix(s2, subs, 0);
        assert(subs.take(0) =~= Seq::<ChapterView>::empty());
        assert(a.heads[n as int] == s2.heads[n as int]);
        assert(s2.heads.len() == n + 1);
        assert(s2.level == 2);
        assert forall|j: int|
            0 <= j < c.subchapters.len() && #[trigger] leaves_before(c.subchapters, j) implies n + 1 + j < a.heads.len()
                && c.subchapters[j].title == a.heads[n + 1 + j].name && a.heads[n + 1 + j].level == 2
                && a.heads[n + 1 + j].location == crate::text::byte_len(b.text + c.text + texts_of(c.subchapters.take(j))) as usize by {
            lemma_flat_prefix_entry(s2, subs, j);
            assert(s2.text == b.text + c.text);
        }
    }
}

/// Whatever chapters come before it, a top-level chapter records its title
/// at level 1 where its text begins, and its direct subchapters follow at
/// level 2, each right after the previous one and where its text begins,
/// up to and including the first that has subchapters of its own.
pub proof fn law_top_chapter_levels(cs: Seq<ChapterView>, c: ChapterView)
    ensures
        ({
            let b = book_build(cs);
            let a = book_build(cs.push(c));
            let n = b.heads.len();
            &&& a.heads.len() > n
            &&& a.heads[n as int] == (HeadingView { name: c.title, location: crate::text::byte_len(b.text) as usize, level: 1 })
            &&& forall|j: int|
                0 <= j < c.subchapters.len() && #[trigger] leaves_before(c.subchapters, j) ==> n + 1 + j < a.heads.len()
                    && c.subchapters[j].title == a.heads[n + 1 + j].name && a.heads[n + 1 + j].level == 2
                    && a.heads[n + 1 + j].location == crate::text::byte_len(
                    b.text + c.text + texts_of(c.subchapters.take(j)),
                ) as usize
        }),
{
    assert(cs.push(c).drop_last() =~= cs);
    assert(cs.push(c).last() == c);
    assert(book_build(cs.push(c)) == step_first(book_build(cs), c));
    lemma_step_first_levels(book_build(cs), c);
}

proof fn lemma_flat_prefix_entry(s2: EpubBuild, subs: Seq<ChapterView>, j: int)
    requires
        0 <= j < subs.len(),
        forall|t: int| 0 <= t < j ==> (#[trigger] subs[t]).subchapters.len() == 0,
    ensures
        s2.heads.len() + j < fold_second(s2, subs).heads.len(),
        fold_second(s2, subs).heads[s2.heads.len() + j].name == subs[j].title,
        fold_second(s2, subs).heads[s2.heads.len() + j].level == s2.level,
        fold_second(s2, subs).heads[s2.heads.len() + j].location == crate::text::byte_len(s2.text + texts_of(subs.take(j))) as usize,
{
    let a = fold_second(s2, subs);
    let n1 = s2.heads.len();
    lemma_flat_second(s2, subs, j);
    lemma_fold_second_prefix(s2, subs, j + 1);
    assert(subs.take(j + 1).drop_last() =~= subs.take(j));
    assert(subs.take(j + 1).last() == subs[j]);
    let pj = fold_second(s2, subs.take(j));
    assert(pj.heads.len() == n1 + j);
    assert(pj.text == s2.text + texts_of(subs.take(j)));
    lemma_step_second_prefix(pj, subs[j]);
    let qj = fold_second(s2, subs.take(j + 1));
    assert(qj == step_second(pj, subs[j]));
    assert(qj.heads.len() <= a.heads.len());
    assert(qj.heads[n1 + j] == a.heads[n1 + j]);
}

/// The exec state matches `st`.
pub open spec fn holds(heads: Seq<Heading>, text: Seq<char>, level: u8, st: EpubBuild) -> bool {
    heading_views(heads) == st.heads && text == st.text && level == st.level
}

fn record(heads: &mut Vec<Heading>, text: &mut String, level: u8, title: &String, body: &String)
    ensures
        heading_views(final(heads)@) == heading_views(old(heads)@).push(
            HeadingView { name: title@, location: crate::text::byte_len(old(text)@) as usize, level },
        ),
        final(text)@ == old(text)@ + body@,
{
    let location: usize = text.as_str().len();
    heads.push(Heading { name: title.clone(), location, level });
    text.append(body.as_str());
    assert(heading_views(heads@) =~= heading_views(old(heads)@).push(heads@[heads@.len() - 1]@));
}

fn bump(l: u8) -> (r: u8)
    ensures
        r == next_level(l),
{
    if l == 255 {
        0
    } else {
        l + 1
    }
}

fn run_repeat(heads: &mut Vec<Heading>, text: &mut String, level: u8, parent: &EpubChapter, Ghost(st): Ghost<EpubBuild>)
    requires
        holds(old(heads)@, old(text)@, level, st),
    ensures
        holds(final(heads)@, final(text)@, level, repeat_parent(st, chapter_view(*parent), parent.subchapters@.len())),
{
    let n: usize = parent.subchapters.len();
    let mut k: usize = 0;
    while k < n
        invariant
            k <= n,
            n == parent.subchapters@.len(),
            holds(heads@, text@, level, repeat_parent(st, chapter_view(*parent), k as nat)),
        decreases n - k,
    {
        record(heads, text, level, &parent.title, &parent.text);
        k = k + 1;
    }
}

fn run_third(heads: &mut Vec<Heading>, text: &mut String, level: &mut u8, cs: &Vec<EpubChapter>, Ghost(st): Ghost<EpubBuild>)
    requires
        holds(old(heads)@, old(text)@, *old(level), st),
    ensures
        holds(final(heads)@, final(text)@, *final(level), fold_third(st, chapters_view(cs@))),
{
    proof {
        lemma_chapters_view(cs@);
    }
    let ghost cv = chapters_view(cs@);
    let mut j: usize = 0;
    assert(cv.take(0) =~= Seq::<ChapterView>::empty());
    while j < cs.len()
        invariant
            j <= cs@.len(),
            cv == chapters_view(cs@),
            cv.len() == cs@.len(),
            forall|t: int| 0 <= t < cs@.len() ==> #[trigger] cv[t] == chapter_view(cs@[t]),
            holds(heads@, text@, *level, fold_third(st, cv.take(j as int))),
        decreases cs.len() - j,
    {
        let c = &cs[j];
        proof {
            assert(cv.take(j + 1).drop_last() =~= cv.take(j as int));
            assert(cv.take(j + 1).last() == chapter_view(*c));
            lemma_chapters_view(c.subchapters@);
        }
        let ghost before = fold_third(st, cv.take(j as int));
        record(heads, text, *level, &c.title, &c.text);
        if c.subchapters.len() != 0 {
            *level = bump(*level);
            run_repeat(heads, text, *level, c, Ghost(with_level(emit(before, c.title@, c.text@), *level)));
        }
        j = j + 1;
    }
    assert(cv.take(cv.len() as int) =~= cv);
}

fn run_second(heads: &mut Vec<Heading>, text: &mut String, level: &mut u8, cs: &Vec<EpubChapter>, Ghost(st): Ghost<EpubBuild>)
    requires
        holds(old(heads)@, old(text)@, *old(level), st),
    ensures
        holds(final(heads)@, final(text)@, *final(level), fold_second(st, chapters_view(cs@))),
{
    proof {
        lemma_chapters_view(cs@);
    }
    let ghost cv = chapters_view(cs@);
    let mut j: usize = 0;
    assert(cv.take(0) =~= Seq::<ChapterView>::empty());
    while j < cs.len()
        invariant
            j <= cs@.len(),
            cv == chapters_view(cs@),
            cv.len() == cs@.len(),
            forall|t: int| 0 <= t < cs@.len() ==> #[trigger] cv[t] == chapter_view(cs@[t]),
            holds(heads@, text@, *level, fold_second(st, cv.take(j as int))),
        decreases cs.len() - j,
    {
        let c = &cs[j];
        proof {
            assert(cv.take(j + 1).drop_last() =~= cv.take(j as int));
            assert(cv.take(j + 1).last() == chapter_view(*c));
            lemma_chapters_view(c.subchapters@);
        }
        let ghost before = fold_second(st, cv.take(j as int));
        record(heads, text, *level, &c.title, &c.text);
        if c.subchapters.len() != 0 {
            *level = bump(*level);
            run_third(heads, text, level, &c.subchapters, Ghost(with_level(emit(before, c.title@, c.text@), *level)));
        }
        j = j + 1;
    }
    assert(cv.take(cv.len() as int) =~= cv);
}

/// The headings and text of a book given by its chapters. Each top-level
/// chapter records its title at level 1 where its text begins in the
/// concatenated text; its subchapters follow at level 2, and each further
/// chapter that has subchapters raises the level for the chapters after it
/// (the level wraps at 256). A chapter at the fourth level records its
/// parent's title and text again, once per such chapter; deeper chapters
/// are not visited.
pub fn headings_from_chapters(chapters: &Vec<EpubChapter>) -> (r: RawStructruedText)
    ensures
        heading_views(r.heads@) == book_build(chapters_view(chapters@)).heads,
        r.raw_text@ == book_build(chapters_view(chapters@)).text,
{
    let ghost st0 = EpubBuild { heads: Seq::empty(), text: Seq::empty(), level: 1 };
    let mut heads: Vec<Heading> = Vec::new();
    let mut text = String::new();
    let mut level: u8 = 1;
    proof {
        lemma_chapters_view(chapters@);
    }
    let ghost cv = chapters_view(chapters@);
    let mut j: usize = 0;
    assert(cv.take(0) =~= Seq::<ChapterView>::empty());
    assert(heading_views(heads@) =~= Seq::<HeadingView>::empty());
    while j < chapters.len()
        invariant
            j <= chapters@.len(),
            cv == chapters_view(chapters@),
            cv.len() == chapters@.len(),
            forall|t: int| 0 <= t < chapters@.len() ==> #[trigger] cv[t] == chapter_view(chapters@[t]),
            heading_views(heads@) == fold_first(st0, cv.take(j as int)).heads,
            text@ == fold_first(st0, cv.take(j as int)).text,
        decreases chapters.len() - j,
    {
        let c = &chapters[j];
        proof {
            assert(cv.take(j + 1).drop_last() =~= cv.take(j as int));
            assert(cv.take(j + 1).last() == chapter_view(*c));
            lemma_chapters_view(c.subchapters@);
        }
        let ghost before = fold_first(st0, cv.take(j as int));
        level = 1;
        record(&mut heads, &mut text, level, &c.title, &c.text);
        if c.subchapters.len() != 0 {
            level = 2;
            run_second(&mut heads, &mut text, &mut level, &c.subchapters, Ghost(with_level(emit(with_level(before, 1), c.title@, c.text@), 2)));
        }
        j = j + 1;
    }
    assert(cv.take(cv.len() as int) =~= cv);
    RawStructruedText { heads, raw_text: text }
}


#[verifier::external_type_specification]
#[verifier::external_body]
pub struct ExEpubParseError(epubparse::errors::ParseError);

#[verifier::external_type_specification]
#[verifier::external_body]
pub struct ExEpubChapter(epubparse::types::Chapter);

/// What `epubparse::epub_to_book` does with the bytes of an EPUB file:
/// `None` where it does not return (it panics or runs forever), otherwise
/// `Some` of the chapters it finds, or `Some(None)` where it reports an
/// error.
pub uninterp spec fn epub_outcome(bytes: Seq<u8>) -> Option<Option<Seq<ChapterView>>>;

/// `epubparse::epub_to_book` returns on these bytes.
pub open spec fn epub_returns(bytes: Seq<u8>) -> bool {
    epub_outcome(bytes) is Some
}

/// The chapters that `epubparse::epub_to_book` finds in the bytes of an
/// EPUB file on which it returns, or `None` where it reports an error.
pub open spec fn epub_book_chapters(bytes: Seq<u8>) -> Option<Seq<ChapterView>> {
    epub_outcome(bytes)->0
}

/// Copies a chapter of `epubparse` into the library's chapter type, field
/// by field, subchapters included; it serves [`epub_to_book`], whose
/// contract covers the copy.
#[verifier::external_body]
fn chapter_from_epub(c: &epubparse::types::Chapter) -> EpubChapter {
    EpubChapter {
        title: c.title.clone(),
        text: c.text.clone(),
        subchapters: c.subchapters.iter().map(chapter_from_epub).collect(),
    }
}

/// `epubparse::epub_to_book`, with the book's chapters copied into the
/// library's chapter type. It is called only on bytes on which it returns:
/// it panics on a book whose table of contents lists no chapter, and runs
/// forever when a chapter's link names an anchor that its page lacks. The
/// claim: it fails exactly where [`epub_book_chapters`] is `None`, and
/// otherwise the chapters are that name's value, a function of the bytes
/// alone.
#[verifier::external_body]
fn epub_to_book(bytes: &[u8]) -> (r: Result<Vec<EpubChapter>, epubparse::errors::ParseError>)
    requires
        epub_returns(bytes@),
    ensures
        r is Ok <==> epub_outcome(bytes@)->0 is Some,
        r matches Ok(cs) ==> chapters_view(cs@) == epub_outcome(bytes@)->0->0,
{
    match epubparse::epub_to_book(bytes) {
        Ok(book) => Ok(book.chapters.iter().map(chapter_from_epub).collect()),
        Err(e) => Err(e),
    }
}

/// The headings and text of the EPUB file `bytes`, on which `epubparse`
/// returns: those of its chapters by [`headings_from_chapters`], or
/// `InvalidEpub` when `epubparse` reports that it cannot read it.
pub fn parse_epub(bytes: &[u8]) -> (r: Result<RawStructruedText, DocumentError>)
    requires
        epub_returns(bytes@),
    ensures
        r is Ok <==> epub_book_chapters(bytes@) is Some,
        r matches Ok(t) ==> heading_views(t.heads@) == book_build(epub_book_chapters(bytes@)->0).heads
            && t.raw_text@ == book_build(epub_book_chapters(bytes@)->0).text,
        r matches Err(e) ==> e == DocumentError::InvalidEpub,
{
    match epub_to_book(bytes) {
        Ok(chapters) => Ok(headings_from_chapters(&chapters)),
        Err(_) => Err(DocumentError::InvalidEpub),
    }
}

} // verus!
