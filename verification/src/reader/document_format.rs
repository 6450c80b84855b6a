//! A document with its highlights and notes, and how a new selection
//! changes them.

use vstd::prelude::*;
use vstd::utf8::{encode_utf8, is_char_boundary, valid_utf8};

verus! {

/// A highlight: first and last index of the marked range and its colour.
pub type Highlight = (usize, usize, (u8, u8, u8));

/// A note: first and last index of the marked range and the note's text.
pub type Note = (usize, usize, String);

/// A document being read, with its highlights and notes.
#[derive(Debug)]
pub struct DocLabled {
    pub raw_text: String,
    pub highlights: Vec<Highlight>,
    pub notes: Vec<Note>,
    /// Where the reader is in the document.
    pub current_index: usize,
    /// The colour of unhighlighted text, as RGBA.
    pub default_color: (u8, u8, u8, u8),
}

impl Default for DocLabled {
    fn default() -> (r: Self)
        ensures
            r.raw_text@ == Seq::<char>::empty(),
            r.highlights@ == Seq::<Highlight>::empty(),
            r.notes@.len() == 0,
            r.current_index == 0,
            r.default_color == (0u8, 0u8, 0u8, 0u8),
    {
        DocLabled {
            raw_text: String::new(),
            highlights: Vec::new(),
            notes: Vec::new(),
            current_index: 0,
            default_color: (0, 0, 0, 0),
        }
    }
}

/// The first index, from `i` on, of a highlight that contains the range
/// from `bg` to `end`.
pub open spec fn container_from(hs: Seq<Highlight>, bg: usize, end: usize, i: int) -> Option<int>
    decreases hs.len() - i,
{
    if i < 0 || i >= hs.len() {
        None
    } else if hs[i].0 <= bg && hs[i].1 >= end {
        Some(i)
    } else {
        container_from(hs, bg, end, i + 1)
    }
}

/// The first highlight that contains the range from `bg` to `end`.
pub open spec fn first_container(hs: Seq<Highlight>, bg: usize, end: usize) -> Option<int> {
    container_from(hs, bg, end, 0)
}

/// A highlight that starts after `bg` and ends before it.
pub open spec fn overridden(r: Highlight, bg: usize) -> bool {
    r.0 > bg && r.1 < bg
}

/// A highlight cut at the new range: its end moves to `bg` when `bg` lies
/// in it, and then its start moves to `end` when `end` lies in it.
pub open spec fn clipped(r: Highlight, bg: usize, end: usize) -> Highlight {
    let r1 = if bg <= r.1 && bg >= r.0 { (r.0, bg, r.2) } else { r };
    if end <= r1.1 && end >= r1.0 { (end, r1.1, r1.2) } else { r1 }
}

/// The highlights that survive a new highlight from `bg` to `end`, cut.
pub open spec fn kept_clipped(hs: Seq<Highlight>, bg: usize, end: usize) -> Seq<Highlight>
    decreases hs.len(),
{
    if hs.len() == 0 {
        Seq::<Highlight>::empty()
    } else {
        let p = kept_clipped(hs.drop_last(), bg, end);
        if overridden(hs.last(), bg) {
            p
        } else {
            p.push(clipped(hs.last(), bg, end))
        }
    }
}

/// The highlights after selecting the range from `bg` to `end` with colour
/// `color`. When a highlight contains the range, it is removed (the last
/// highlight taking its place) and its parts before `bg` and from `end` on
/// are added back in its colour, each unless it would start where the old
/// highlight started. Otherwise the other highlights are cut as
/// [`kept_clipped`] describes and the new one is added at the end.
pub open spec fn highlight_update(hs: Seq<Highlight>, bg: usize, end: usize, color: (u8, u8, u8)) -> Seq<Highlight> {
    match first_container(hs, bg, end) {
        Some(i) => {
            let r = hs[i];
            let base = hs.update(i, hs.last()).drop_last();
            let a = if r.0 != bg { base.push((r.0, bg, r.2)) } else { base };
            if r.0 != end { a.push((end, r.1, r.2)) } else { a }
        },
        None => kept_clipped(hs, bg, end).push((bg, end, color)),
    }
}

/// The stretches that updating the highlights draws at once, in order:
/// before each highlight the stretch from where the previous one ended (or
/// from 0) up to its start, unless it starts right there, then the
/// highlight itself; first and last byte, both included.
pub open spec fn drawing_stretches(hs: Seq<Highlight>) -> Seq<(usize, usize)>
    decreases hs.len(),
{
    if hs.len() == 0 {
        Seq::<(usize, usize)>::empty()
    } else {
        let p = drawing_stretches(hs.drop_last());
        let bgn: usize = if hs.len() == 1 { 0 } else { hs[hs.len() - 2].1 };
        let r = hs.last();
        let p2 = if bgn != r.0 { p.push((bgn, r.0)) } else { p };
        p2.push((r.0, r.1))
    }
}

/// The byte range from `a` to `b`, both included, can be cut out of text
/// whose UTF-8 encoding is `bytes`: it lies inside, does not run backwards,
/// and begins and ends on character boundaries.
pub open spec fn cuttable(bytes: Seq<u8>, a: usize, b: usize) -> bool {
    &&& b < bytes.len()
    &&& a <= b + 1
    &&& is_char_boundary(bytes, a as int)
    &&& is_char_boundary(bytes, b + 1)
}

/// Every stretch that drawing the highlights `hs` takes can be cut out of
/// `text`.
pub open spec fn stretches_cuttable(text: Seq<char>, hs: Seq<Highlight>) -> bool {
    forall|i: int|
        0 <= i < drawing_stretches(hs).len() ==> cuttable(
            encode_utf8(text),
            (#[trigger] drawing_stretches(hs)[i]).0,
            drawing_stretches(hs)[i].1,
        )
}

/// A piece of the rendered text: its byte range (start included, end
/// excluded) and the highlight colour behind it, if any.
#[derive(Clone, Copy, Debug, PartialEq, Eq)]
pub struct TextSpan {
    pub start: usize,
    pub end: usize,
    pub background: Option<(u8, u8, u8)>,
}

/// Where the text after the highlights `hs` begins: just past the furthest
/// byte that one of them reaches.
pub open spec fn spans_end(hs: Seq<Highlight>) -> usize
    decreases hs.len(),
{
    if hs.len() == 0 {
        0
    } else {
        let e = spans_end(hs.drop_last());
        if e < hs.last().1 + 1 {
            (hs.last().1 + 1) as usize
        } else {
            e
        }
    }
}

/// The pieces up to the furthest byte a highlight reaches: before each
/// highlight the plain text since the previous pieces, when there is any,
/// then what is left of the highlight once the bytes already drawn are
/// taken off, when anything is left, its last byte included.
pub open spec fn lead_spans(hs: Seq<Highlight>) -> Seq<TextSpan>
    decreases hs.len(),
{
    if hs.len() == 0 {
        Seq::<TextSpan>::empty()
    } else {
        let p = lead_spans(hs.drop_last());
        let bgn = spans_end(hs.drop_last());
        let r = hs.last();
        let p2 = if bgn < r.0 { p.push(TextSpan { start: bgn, end: r.0, background: None }) } else { p };
        let start = if bgn < r.0 { r.0 } else { bgn };
        if start < r.1 + 1 {
            p2.push(TextSpan { start: start, end: (r.1 + 1) as usize, background: Some(r.2) })
        } else {
            p2
        }
    }
}

/// The pieces of a text of `len` bytes with highlights `hs`: those up to the
/// last highlight, then the plain rest of the text, when there is any.
pub open spec fn text_spans(hs: Seq<Highlight>, len: usize) -> Seq<TextSpan> {
    if spans_end(hs) < len {
        lead_spans(hs).push(TextSpan { start: spans_end(hs), end: len, background: None })
    } else {
        lead_spans(hs)
    }
}

/// The highlights `hs` lie in `text`: each ends inside the text, starts at
/// most one byte past its end, and both its first byte and the byte after
/// its last are character boundaries.
pub open spec fn well_placed(text: Seq<char>, hs: Seq<Highlight>) -> bool {
    let bytes = encode_utf8(text);
    forall|i: int|
        0 <= i < hs.len() ==> {
            &&& (#[trigger] hs[i]).0 <= hs[i].1 + 1
            &&& hs[i].1 < bytes.len()
            &&& is_char_boundary(bytes, hs[i].0 as int)
            &&& is_char_boundary(bytes, hs[i].1 + 1)
        }
}

/// White, the colour of highlighted text.
pub open spec fn white() -> (u8, u8, u8, u8) {
    (255u8, 255u8, 255u8, 255u8)
}

/// A piece of drawn text: the text, its colour (RGBA), and the highlight
/// colour behind it, if any.
#[derive(Debug, PartialEq, Eq)]
pub struct TextPiece {
    pub text: String,
    pub color: (u8, u8, u8, u8),
    pub background: Option<(u8, u8, u8)>,
}

/// The piece that draws `span` of text with UTF-8 encoding `bytes`.
pub open spec fn piece_matches(p: TextPiece, span: TextSpan, bytes: Seq<u8>, default_color: (u8, u8, u8, u8)) -> bool {
    &&& encode_utf8(p.text@) == bytes.subrange(span.start as int, span.end as int)
    &&& p.background == span.background
    &&& p.color == (if span.background is Some { white() } else { default_color })
}

proof fn lemma_prefix_boundary(bytes: Seq<u8>, n: int, a: int)
    requires
        valid_utf8(bytes),
        is_char_boundary(bytes, n),
        is_char_boundary(bytes, a),
        0 <= a <= n <= bytes.len(),
    ensures
        is_char_boundary(bytes.subrange(0, n), a),
        valid_utf8(bytes.subrange(0, n)),
{
    vstd::utf8::valid_utf8_split(bytes, n);
    let head = bytes.subrange(0, n);
    if a == n {
        vstd::utf8::is_char_boundary_start_end_of_seq(head);
    } else if a == 0 {
        vstd::utf8::is_char_boundary_start_end_of_seq(head);
    } else {
        vstd::utf8::is_char_boundary_iff_not_is_continuation_byte(bytes, a);
        vstd::utf8::is_char_boundary_iff_not_is_continuation_byte(head, a);
        assert(head[a] == bytes[a]);
    }
}

/// The text of `s` from byte `a` (included) to byte `b` (excluded).
fn cut(s: &str, a: usize, b: usize) -> (r: String)
    requires
        a <= b <= encode_utf8(s@).len(),
        is_char_boundary(encode_utf8(s@), a as int),
        is_char_boundary(encode_utf8(s@), b as int),
    ensures
        encode_utf8(r@) == encode_utf8(s@).subrange(a as int, b as int),
{
    proof {
        vstd::utf8::encode_utf8_valid_utf8(s@);
        lemma_prefix_boundary(encode_utf8(s@), b as int, a as int);
    }
    let (head, _) = s.split_at(b);
    let (_, piece) = head.split_at(a);
    proof {
        assert(encode_utf8(piece@) =~= encode_utf8(s@).subrange(a as int, b as int));
    }
    piece.to_owned()
}

/// The texts of `ps`, one after another.
pub open spec fn joined(ps: Seq<TextPiece>) -> Seq<char>
    decreases ps.len(),
{
    if ps.len() == 0 {
        Seq::<char>::empty()
    } else {
        joined(ps.drop_last()) + ps.last().text@
    }
}

/// The notes whose range is not empty, in order.
pub open spec fn open_notes(ns: Seq<(usize, usize, Seq<char>)>) -> Seq<(usize, usize, Seq<char>)>
    decreases ns.len(),
{
    if ns.len() == 0 {
        ns
    } else {
        let p = open_notes(ns.drop_last());
        if ns.last().0 == ns.last().1 {
            p
        } else {
            p.push(ns.last())
        }
    }
}

/// The notes with their text as character sequences.
pub open spec fn notes_view(ns: Seq<Note>) -> Seq<(usize, usize, Seq<char>)> {
    ns.map_values(|n: Note| (n.0, n.1, n.2@))
}

/// Every highlight starts no later than it ends.
pub open spec fn ordered(hs: Seq<Highlight>) -> bool {
    forall|i: int| 0 <= i < hs.len() ==> (#[trigger] hs[i]).0 <= hs[i].1
}

proof fn lemma_kept_clipped_ordered(hs: Seq<Highlight>, bg: usize, end: usize)
    requires
        ordered(hs),
    ensures
        ordered(kept_clipped(hs, bg, end)),
    decreases hs.len(),
{
    if hs.len() > 0 {
        assert(ordered(hs.drop_last())) by {
            assert forall|i: int| 0 <= i < hs.drop_last().len() implies (#[trigger] hs.drop_last()[i]).0 <= hs.drop_last()[i].1 by {
                assert(hs.drop_last()[i] == hs[i]);
            }
        }
        lemma_kept_clipped_ordered(hs.drop_last(), bg, end);
        assert(hs.last() == hs[hs.len() - 1]);
    }
}

pub proof fn lemma_container_found(hs: Seq<Highlight>, bg: usize, end: usize, i: int)
    requires
        container_from(hs, bg, end, i) is Some,
    ensures
        i <= container_from(hs, bg, end, i)->0 < hs.len(),
        hs[container_from(hs, bg, end, i)->0].0 <= bg,
        hs[container_from(hs, bg, end, i)->0].1 >= end,
    decreases hs.len() - i,
{
    if i < 0 || i >= hs.len() {
    } else if hs[i].0 <= bg && hs[i].1 >= end {
    } else {
        lemma_container_found(hs, bg, end, i + 1);
    }
}

/// Selecting a range that starts no later than it ends keeps every
/// highlight starting no later than it ends.
pub proof fn law_update_keeps_highlights_ordered(hs: Seq<Highlight>, bg: usize, end: usize, color: (u8, u8, u8))
    requires
        ordered(hs),
        bg <= end,
    ensures
        ordered(highlight_update(hs, bg, end, color)),
{
    let r = highlight_update(hs, bg, end, color);
    match first_container(hs, bg, end) {
        Some(i) => {
            lemma_container_found(hs, bg, end, 0);
            let base = hs.update(i, hs.last()).drop_last();
            assert(ordered(base)) by {
                assert forall|j: int| 0 <= j < base.len() implies (#[trigger] base[j]).0 <= base[j].1 by {
                    if j == i {
                        assert(base[j] == hs[hs.len() - 1]);
                    } else {
                        assert(base[j] == hs[j]);
                    }
                }
            }
            assert forall|j: int| 0 <= j < r.len() implies (#[trigger] r[j]).0 <= r[j].1 by {
                if j < base.len() {
                    assert(base[j].0 <= base[j].1);
                }
            }
        },
        None => {
            lemma_kept_clipped_ordered(hs, bg, end);
            let k = kept_clipped(hs, bg, end);
            assert forall|j: int| 0 <= j < r.len() implies (#[trigger] r[j]).0 <= r[j].1 by {
                if j < k.len() {
                    assert(r[j] == k[j]);
                }
            }
        },
    }
}

/// A selection that no highlight contains becomes the last highlight, in
/// the chosen colour.
pub proof fn law_uncontained_selection_is_added_last(hs: Seq<Highlight>, bg: usize, end: usize, color: (u8, u8, u8))
    requires
        forall|i: int| 0 <= i < hs.len() ==> !((#[trigger] hs[i]).0 <= bg && hs[i].1 >= end),
    ensures
        highlight_update(hs, bg, end, color).last() == (bg, end, color),
        highlight_update(hs, bg, end, color).len() == kept_clipped(hs, bg, end).len() + 1,
{
    if first_container(hs, bg, end) is Some {
        lemma_container_found(hs, bg, end, 0);
        let i = first_container(hs, bg, end)->0;
        assert(hs[i].0 <= bg && hs[i].1 >= end);
    }
}

/// The highlighted pieces of a rendering, as highlights (last byte
/// included).
pub open spec fn highlighted_pieces(spans: Seq<TextSpan>) -> Seq<Highlight>
    decreases spans.len(),
{
    if spans.len() == 0 {
        Seq::<Highlight>::empty()
    } else {
        let p = highlighted_pieces(spans.drop_last());
        match spans.last().background {
            Some(c) => p.push((spans.last().start, (spans.last().end - 1) as usize, c)),
            None => p,
        }
    }
}

/// Highlights that each cover at least a byte and lie one after another,
/// apart, in order.
pub open spec fn apart_in_order(hs: Seq<Highlight>) -> bool {
    &&& forall|i: int| 0 <= i < hs.len() ==> (#[trigger] hs[i]).0 <= hs[i].1
    &&& forall|i: int| 0 < i < hs.len() ==> hs[i - 1].1 < (#[trigger] hs[i]).0
}

proof fn lemma_lead_highlights(hs: Seq<Highlight>)
    requires
        apart_in_order(hs),
        forall|i: int| 0 <= i < hs.len() ==> (#[trigger] hs[i]).1 < usize::MAX,
    ensures
        highlighted_pieces(lead_spans(hs)) == hs,
        hs.len() > 0 ==> spans_end(hs) == hs.last().1 + 1,
    decreases hs.len(),
{
    if hs.len() > 0 {
        let d = hs.drop_last();
        assert forall|i: int| 0 <= i < d.len() implies (#[trigger] d[i]).1 < usize::MAX && d[i].0 <= d[i].1 by {
            assert(d[i] == hs[i]);
        }
        assert forall|i: int| 0 < i < d.len() implies d[i - 1].1 < (#[trigger] d[i]).0 by {
            assert(d[i] == hs[i]);
            assert(d[i - 1] == hs[i - 1]);
        }
        lemma_lead_highlights(d);
        let p = lead_spans(d);
        let bgn = spans_end(d);
        let r = hs.last();
        assert(hs[hs.len() - 1] == r);
        assert(r.0 <= r.1);
        if d.len() > 0 {
            assert(d.last() == hs[hs.len() - 2]);
            assert(bgn <= r.0);
        }
        let last = TextSpan { start: r.0, end: (r.1 + 1) as usize, background: Some(r.2) };
        if bgn < r.0 {
            let p2 = p.push(TextSpan { start: bgn, end: r.0, background: None });
            assert(p2.drop_last() =~= p);
            assert(highlighted_pieces(p2) == highlighted_pieces(p));
            assert(p2.push(last).drop_last() =~= p2);
        } else {
            assert(p.push(last).drop_last() =~= p);
        }
        assert(d.push(r) =~= hs);
    }
}

/// Rendering draws every highlight, in order, and nothing else in a
/// highlight colour, when the highlights are apart and in order.
pub proof fn law_rendering_draws_each_highlight(text: Seq<char>, hs: Seq<Highlight>)
    requires
        well_placed(text, hs),
        apart_in_order(hs),
        encode_utf8(text).len() <= usize::MAX,
    ensures
        highlighted_pieces(text_spans(hs, encode_utf8(text).len() as usize)) == hs,
{
    lemma_lead_highlights(hs);
    let len = encode_utf8(text).len() as usize;
    if spans_end(hs) < len {
        let l = lead_spans(hs);
        assert(l.push(TextSpan { start: spans_end(hs), end: len, background: None }).drop_last() =~= l);
    }
}

/// After dropping collapsed notes, every note's range is non-empty.
pub proof fn law_open_notes_are_not_collapsed(ns: Seq<(usize, usize, Seq<char>)>)
    ensures
        forall|i: int| 0 <= i < open_notes(ns).len() ==> (#[trigger] open_notes(ns)[i]).0 != open_notes(ns)[i].1,
    decreases ns.len(),
{
    if ns.len() > 0 {
        law_open_notes_are_not_collapsed(ns.drop_last());
        let p = open_notes(ns.drop_last());
        assert forall|i: int| 0 <= i < open_notes(ns).len() implies (#[trigger] open_notes(ns)[i]).0 != open_notes(ns)[i].1 by {
            if i < p.len() {
                assert(open_notes(ns)[i] == p[i]);
            }
        }
    }
}

/// Pruning keeps exactly the notes whose start differs from their end,
/// each unchanged and in their order, whatever their text.
pub proof fn law_pruning_keeps_exactly_the_open_notes(ns: Seq<(usize, usize, Seq<char>)>)
    ensures
        open_notes(ns) == ns.filter(|n: (usize, usize, Seq<char>)| n.0 != n.1),
    decreases ns.len(),
{
    reveal(Seq::filter);
    if ns.len() > 0 {
        law_pruning_keeps_exactly_the_open_notes(ns.drop_last());
    }
}

fn find_container(hs: &Vec<Highlight>, bg: usize, end: usize) -> (r: Option<usize>)
    ensures
        r matches Some(i) ==> i < hs@.len() && first_container(hs@, bg, end) == Some(i as int),
        r is None ==> first_container(hs@, bg, end) is None,
{
    let mut i: usize = 0;
    while i < hs.len()
        invariant
            i <= hs@.len(),
            first_container(hs@, bg, end) == container_from(hs@, bg, end, i as int),
        decreases hs.len() - i,
    {
        let r = hs[i];
        if r.0 <= bg && r.1 >= end {
            return Some(i);
        }
        i = i + 1;
    }
    None
}

/// The highlights `hs` after selecting the range from `bg_idx` to
/// `end_idx` in `colors`.
fn updated_highlights(hs: &Vec<Highlight>, bg_idx: usize, end_idx: usize, colors: (u8, u8, u8)) -> (r: Vec<Highlight>)
    ensures
        r@ == highlight_update(hs@, bg_idx, end_idx, colors),
{
    match find_container(hs, bg_idx, end_idx) {
        Some(idx_found) => {
            let mut out: Vec<Highlight> = Vec::new();
            let mut j: usize = 0;
            while j < hs.len()
                invariant
                    j <= hs@.len(),
                    out@ == hs@.take(j as int),
                decreases hs.len() - j,
            {
                out.push(hs[j]);
                j = j + 1;
                assert(out@ =~= hs@.take(j as int));
            }
            assert(hs@.take(hs@.len() as int) =~= hs@);
            let record = hs[idx_found];
            out.swap_remove(idx_found);
            if record.0 != bg_idx {
                out.push((record.0, bg_idx, record.2));
            }
            if record.0 != end_idx {
                out.push((end_idx, record.1, record.2));
            }
            out
        },
        None => {
            let ghost h = hs@;
            let mut kept: Vec<Highlight> = Vec::new();
            let mut i: usize = 0;
            while i < hs.len()
                invariant
                    i <= hs@.len(),
                    h == hs@,
                    kept@ == kept_clipped(h.take(i as int), bg_idx, end_idx),
                decreases hs.len() - i,
            {
                let r = hs[i];
                proof {
                    assert(h.take(i + 1).drop_last() =~= h.take(i as int));
                    assert(h.take(i + 1).last() == r);
                }
                if !(r.0 > bg_idx && r.1 < bg_idx) {
                    let r1 = if bg_idx <= r.1 && bg_idx >= r.0 { (r.0, bg_idx, r.2) } else { r };
                    let r2 = if end_idx <= r1.1 && end_idx >= r1.0 { (end_idx, r1.1, r1.2) } else { r1 };
                    kept.push(r2);
                }
                i = i + 1;
            }
            assert(h.take(h.len() as int) =~= h);
            kept.push((bg_idx, end_idx, colors));
            kept
        },
    }
}

/// Whether every stretch that drawing `hs` takes can be cut out of `text`.
fn stretches_fit(text: &str, hs: &Vec<Highlight>) -> (r: bool)
    ensures
        r == stretches_cuttable(text@, hs@),
{
    let _nb: usize = text.as_bytes().len();
    let len: usize = text.len();
    let ghost bytes = encode_utf8(text@);
    let ghost st = drawing_stretches(hs@);
    let mut bgn: usize = 0;
    let mut i: usize = 0;
    while i < hs.len()
        invariant
            i <= hs@.len(),
            len == bytes.len(),
            bytes == encode_utf8(text@),
            st == drawing_stretches(hs@),
            bgn == (if i == 0 { 0 } else { hs@[i - 1].1 }),
            forall|k: int| 0 <= k < drawing_stretches(hs@.take(i as int)).len() ==> cuttable(
                bytes,
                (#[trigger] drawing_stretches(hs@.take(i as int))[k]).0,
                drawing_stretches(hs@.take(i as int))[k].1,
            ),
        decreases hs.len() - i,
    {
        let rec = hs[i];
        let ghost prev = drawing_stretches(hs@.take(i as int));
        proof {
            assert(hs@.take(i + 1).drop_last() =~= hs@.take(i as int));
            assert(hs@.take(i + 1).last() == rec);
            if i > 0 {
                assert(hs@.take(i + 1)[i - 1] == hs@[i - 1]);
            }
        }
        let ghost cur = drawing_stretches(hs@.take(i + 1));
        if bgn != rec.0 {
            if !cut_fits(text, len, bgn, rec.0) {
                proof {
                    assert(cur[prev.len() as int] == (bgn, rec.0));
                    lemma_stretches_prefix(hs@, i + 1, prev.len() as int);
                }
                return false;
            }
        }
        if !cut_fits(text, len, rec.0, rec.1) {
            proof {
                assert(cur[cur.len() - 1] == (rec.0, rec.1));
                lemma_stretches_prefix(hs@, i + 1, cur.len() - 1);
            }
            return false;
        }
        bgn = rec.1;
        i = i + 1;
        proof {
            assert forall|k: int| 0 <= k < cur.len() implies cuttable(bytes, (#[trigger] cur[k]).0, cur[k].1) by {
                if k < prev.len() {
                    assert(cur[k] == prev[k]);
                }
            }
        }
    }
    assert(hs@.take(hs@.len() as int) =~= hs@);
    true
}

proof fn lemma_stretches_prefix(hs: Seq<Highlight>, n: int, k: int)
    requires
        0 <= n <= hs.len(),
        0 <= k < drawing_stretches(hs.take(n)).len(),
    ensures
        exists|j: int| 0 <= j < drawing_stretches(hs).len() && #[trigger] drawing_stretches(hs)[j] == drawing_stretches(hs.take(n))[k],
    decreases hs.len() - n,
{
    if n < hs.len() {
        let t = hs.take(n + 1);
        assert(t.drop_last() =~= hs.take(n));
        let p = drawing_stretches(hs.take(n));
        let q = drawing_stretches(t);
        assert(q[k] == p[k]);
        lemma_stretches_prefix(hs, n + 1, k);
    } else {
        assert(hs.take(n) =~= hs);
        assert(drawing_stretches(hs)[k] == drawing_stretches(hs.take(n))[k]);
    }
}

/// Whether the byte range from `a` to `b`, both included, can be cut out of
/// `text`, whose UTF-8 encoding is `len` bytes long.
fn cut_fits(text: &str, len: usize, a: usize, b: usize) -> (r: bool)
    requires
        len == encode_utf8(text@).len(),
    ensures
        r == cuttable(encode_utf8(text@), a, b),
{
    if b >= len {
        return false;
    }
    if a > b + 1 {
        return false;
    }
    text.is_char_boundary(a) && text.is_char_boundary(b + 1)
}

impl DocLabled {
    /// A document with the given contents.
    pub fn new(
        raw_text: String,
        highlights: Vec<Highlight>,
        notes: Vec<Note>,
        current_index: usize,
        default_color: (u8, u8, u8, u8),
    ) -> (r: Self)
        ensures
            r.raw_text == raw_text,
            r.highlights == highlights,
            r.notes == notes,
            r.current_index == current_index,
            r.default_color == default_color,
    {
        DocLabled { raw_text, highlights, notes, current_index, default_color }
    }

    /// Selects the range from `bg_idx` to `end_idx` for highlighting in
    /// `colors`: the highlights become [`highlight_update`] of the old ones.
    /// The new highlights are then drawn at once, stretch by stretch
    /// ([`drawing_stretches`]), so each stretch must lie in the text on
    /// character boundaries.
    pub fn update_highlight(&mut self, bg_idx: usize, end_idx: usize, colors: (u8, u8, u8))
        requires
            stretches_cuttable(old(self).raw_text@, highlight_update(old(self).highlights@, bg_idx, end_idx, colors)),
        ensures
            final(self).highlights@ == highlight_update(old(self).highlights@, bg_idx, end_idx, colors),
            final(self).raw_text == old(self).raw_text,
            final(self).notes == old(self).notes,
            final(self).current_index == old(self).current_index,
            final(self).default_color == old(self).default_color,
    {
        self.highlights = updated_highlights(&self.highlights, bg_idx, end_idx, colors);
    }

    /// Adds a note on the range from `bg_idx` to `end_idx`.
    pub fn update_notes(&mut self, bg_idx: usize, end_idx: usize, note: String)
        ensures
            final(self).notes@ == old(self).notes@.push((bg_idx, end_idx, note)),
            final(self).raw_text == old(self).raw_text,
            final(self).highlights == old(self).highlights,
            final(self).current_index == old(self).current_index,
            final(self).default_color == old(self).default_color,
    {
        self.notes.push((bg_idx, end_idx, note));
    }

    /// Drops the notes whose range is empty, keeping the others in order.
    pub fn remove_collapsed_notes(&mut self)
        ensures
            notes_view(final(self).notes@) == open_notes(notes_view(old(self).notes@)),
            notes_view(final(self).notes@) == notes_view(old(self).notes@).filter(
                |n: (usize, usize, Seq<char>)| n.0 != n.1,
            ),
            final(self).raw_text == old(self).raw_text,
            final(self).highlights == old(self).highlights,
            final(self).current_index == old(self).current_index,
            final(self).default_color == old(self).default_color,
    {
        let ghost ns = notes_view(self.notes@);
        let ghost mut k: int = 0;
        let mut i: usize = 0;
        assert(notes_view(self.notes@) =~= open_notes(ns.take(0)) + ns.skip(0));
        while i < self.notes.len()
            invariant
                0 <= k <= ns.len(),
                i == open_notes(ns.take(k)).len(),
                notes_view(self.notes@) == open_notes(ns.take(k)) + ns.skip(k),
                self.raw_text == old(self).raw_text,
                self.highlights == old(self).highlights,
                self.current_index == old(self).current_index,
                self.default_color == old(self).default_color,
            decreases ns.len() - k,
        {
            let ghost before = notes_view(self.notes@);
            proof {
                assert(ns.take(k + 1).drop_last() =~= ns.take(k));
                assert(before[i as int] == ns[k]);
                assert(ns.take(k + 1).last() == ns[k]);
            }
            if self.notes[i].0 == self.notes[i].1 {
                self.notes.remove(i);
                proof {
                    assert(open_notes(ns.take(k + 1)) == open_notes(ns.take(k)));
                    assert(notes_view(self.notes@) =~= before.remove(i as int));
                    assert(notes_view(self.notes@) =~= open_notes(ns.take(k + 1)) + ns.skip(k + 1));
                    k = k + 1;
                }
            } else {
                proof {
                    assert(open_notes(ns.take(k + 1)) == open_notes(ns.take(k)).push(ns[k]));
                    assert(notes_view(self.notes@) =~= open_notes(ns.take(k + 1)) + ns.skip(k + 1));
                    k = k + 1;
                }
                i = i + 1;
            }
        }
        proof {
            assert(k == ns.len());
            assert(ns.take(k) =~= ns);
            assert(notes_view(self.notes@) =~= open_notes(ns));
            law_pruning_keeps_exactly_the_open_notes(ns);
        }
    }

    /// Empties note `i`: its range becomes 0 to 0 and its text empty, so
    /// that the next [`DocLabled::remove_collapsed_notes`] drops it.
    pub fn delete_note(&mut self, i: usize)
        requires
            i < old(self).notes@.len(),
        ensures
            notes_view(final(self).notes@) == notes_view(old(self).notes@).update(i as int, (0usize, 0usize, Seq::<char>::empty())),
            final(self).raw_text == old(self).raw_text,
            final(self).highlights == old(self).highlights,
            final(self).current_index == old(self).current_index,
            final(self).default_color == old(self).default_color,
    {
        self.notes.set(i, (0, 0, String::new()));
        assert(notes_view(self.notes@) =~= notes_view(old(self).notes@).update(i as int, (0usize, 0usize, Seq::<char>::empty())));
    }

    /// A finished selection of the range from `start` to `end`: when the
    /// range is not empty and the pointer was released, it is highlighted in
    /// `color` if highlighting is on, and a note with empty text is added on
    /// it if noting is on.
    pub fn apply_selection(
        &mut self,
        start: usize,
        end: usize,
        released: bool,
        highlight_on: bool,
        note_on: bool,
        color: (u8, u8, u8),
    )
        requires
            start != end && released && highlight_on ==> stretches_cuttable(
                old(self).raw_text@,
                highlight_update(old(self).highlights@, start, end, color),
            ),
        ensures
            final(self).highlights@ == (if start != end && released && highlight_on {
                highlight_update(old(self).highlights@, start, end, color)
            } else {
                old(self).highlights@
            }),
            notes_view(final(self).notes@) == (if start != end && released && note_on {
                notes_view(old(self).notes@).push((start, end, Seq::<char>::empty()))
            } else {
                notes_view(old(self).notes@)
            }),
            final(self).raw_text == old(self).raw_text,
            final(self).current_index == old(self).current_index,
            final(self).default_color == old(self).default_color,
    {
        if start != end && released {
            if highlight_on {
                self.update_highlight(start, end, color);
            }
            if note_on {
                let ghost before = self.notes@;
                self.update_notes(start, end, String::new());
                assert(notes_view(self.notes@) =~= notes_view(before).push((start, end, Seq::<char>::empty())));
            }
        }
    }

    /// Whether the highlights can be rendered: [`well_placed`].
    pub fn can_render(&self) -> (r: bool)
        ensures
            r == well_placed(self.raw_text@, self.highlights@),
    {
        let text = self.raw_text.as_str();
        let _nb: usize = text.as_bytes().len();
        let len: usize = text.len();
        let ghost bytes = encode_utf8(text@);
        let ghost hs = self.highlights@;
        let mut i: usize = 0;
        while i < self.highlights.len()
            invariant
                i <= hs.len(),
                hs == self.highlights@,
                text@ == self.raw_text@,
                bytes == encode_utf8(text@),
                len == bytes.len(),
                forall|k: int|
                    0 <= k < i ==> {
                        &&& (#[trigger] hs[k]).0 <= hs[k].1 + 1
                        &&& hs[k].1 < bytes.len()
                        &&& is_char_boundary(bytes, hs[k].0 as int)
                        &&& is_char_boundary(bytes, hs[k].1 + 1)
                    },
            decreases hs.len() - i,
        {
            let r = self.highlights[i];
            proof {
                assert(hs[i as int] == r);
            }
            if r.1 >= len {
                return false;
            }
            if r.0 > r.1 + 1 {
                return false;
            }
            if !(text.is_char_boundary(r.0) && text.is_char_boundary(r.1 + 1)) {
                return false;
            }
            i = i + 1;
        }
        true
    }

    /// Whether selecting the range from `start` to `end` in `color` leaves
    /// highlights that can be drawn at once: the condition that
    /// [`DocLabled::update_highlight`] needs.
    pub fn selection_fits(&self, start: usize, end: usize, color: (u8, u8, u8)) -> (r: bool)
        ensures
            r == stretches_cuttable(self.raw_text@, highlight_update(self.highlights@, start, end, color)),
    {
        let hs = updated_highlights(&self.highlights, start, end, color);
        stretches_fit(self.raw_text.as_str(), &hs)
    }

    /// Renders the text as egui's rich text: the whole text, each character
    /// once, cut into the pieces of [`text_spans`]. Each highlight is drawn
    /// in white on its colour, the rest of the text in the default colour.
    /// A highlight is drawn from where the pieces before it end, so a
    /// byte that two highlights share takes the colour of the first. The
    /// highlights must lie in the text ([`well_placed`]).
    #[verifier::rlimit(60)]
    pub fn rendering(&self) -> (r: Vec<TextPiece>)
        requires
            well_placed(self.raw_text@, self.highlights@),
        ensures
            joined(r@) == self.raw_text@,
            r@.len() == text_spans(self.highlights@, encode_utf8(self.raw_text@).len() as usize).len(),
            forall|i: int|
                0 <= i < r@.len() ==> piece_matches(
                    #[trigger] r@[i],
                    text_spans(self.highlights@, encode_utf8(self.raw_text@).len() as usize)[i],
                    encode_utf8(self.raw_text@),
                    self.default_color,
                ),
    {
        let text = self.raw_text.as_str();
        let _nb: usize = text.as_bytes().len();
        let len: usize = text.len();
        let ghost bytes = encode_utf8(text@);
        let ghost hs = self.highlights@;
        let dc = self.default_color;
        proof {
            vstd::utf8::encode_utf8_valid_utf8(text@);
            vstd::utf8::is_char_boundary_start_end_of_seq(bytes);
            assert(bytes.subrange(0, 0) =~= encode_utf8(Seq::<char>::empty()));
            assert(hs.take(0) =~= Seq::<Highlight>::empty());
        }
        let mut pieces: Vec<TextPiece> = Vec::new();
        let mut pos: usize = 0;
        let mut i: usize = 0;
        while i < self.highlights.len()
            invariant
                i <= hs.len(),
                hs == self.highlights@,
                text@ == self.raw_text@,
                bytes == encode_utf8(text@),
                valid_utf8(bytes),
                len == bytes.len(),
                dc == self.default_color,
                well_placed(self.raw_text@, hs),
                pos == spans_end(hs.take(i as int)),
                pos <= len,
                is_char_boundary(bytes, pos as int),
                pieces@.len() == lead_spans(hs.take(i as int)).len(),
                forall|j: int|
                    0 <= j < pieces@.len() ==> piece_matches(#[trigger] pieces@[j], lead_spans(hs.take(i as int))[j], bytes, dc),
                encode_utf8(joined(pieces@)) == bytes.subrange(0, pos as int),
            decreases hs.len() - i,
        {
            let r = self.highlights[i];
            let ghost prev = lead_spans(hs.take(i as int));
            proof {
                assert(hs.take(i + 1).drop_last() =~= hs.take(i as int));
                assert(hs.take(i + 1).last() == r);
                assert(hs[i as int] == r);
            }
            if pos < r.0 {
                let piece = TextPiece { text: cut(text, pos, r.0), color: dc, background: None };
                let ghost before = pieces@;
                pieces.push(piece);
                proof {
                    lemma_joined_push(before, piece);
                    crate::text::lemma_encode_utf8_concat(joined(before), piece.text@);
                    assert(bytes.subrange(0, r.0 as int) =~= bytes.subrange(0, pos as int) + bytes.subrange(pos as int, r.0 as int));
                }
                pos = r.0;
            }
            if pos < r.1 + 1 {
                let hl = TextPiece { text: cut(text, pos, r.1 + 1), color: (255u8, 255u8, 255u8, 255u8), background: Some(r.2) };
                let ghost before = pieces@;
                pieces.push(hl);
                proof {
                    lemma_joined_push(before, hl);
                    crate::text::lemma_encode_utf8_concat(joined(before), hl.text@);
                    assert(bytes.subrange(0, r.1 + 1) =~= bytes.subrange(0, pos as int) + bytes.subrange(pos as int, r.1 + 1));
                }
                pos = r.1 + 1;
            }
            i = i + 1;
            proof {
                let cur = lead_spans(hs.take(i as int));
                assert forall|j: int| 0 <= j < pieces@.len() implies piece_matches(#[trigger] pieces@[j], cur[j], bytes, dc) by {
                    if j < prev.len() {
                        assert(cur[j] == prev[j]);
                    }
                }
            }
        }
        proof {
            assert(hs.take(hs.len() as int) =~= hs);
        }
        if pos < len {
            let piece = TextPiece { text: cut(text, pos, len), color: dc, background: None };
            let ghost before = pieces@;
            pieces.push(piece);
            proof {
                lemma_joined_push(before, piece);
                crate::text::lemma_encode_utf8_concat(joined(before), piece.text@);
                assert(bytes.subrange(0, len as int) =~= bytes.subrange(0, pos as int) + bytes.subrange(pos as int, len as int));
                let l = lead_spans(hs);
                assert forall|j: int| 0 <= j < pieces@.len() implies piece_matches(
                    #[trigger] pieces@[j],
                    text_spans(hs, len)[j],
                    bytes,
                    dc,
                ) by {
                    if j < l.len() {
                        assert(text_spans(hs, len)[j] == l[j]);
                    }
                }
            }
        }
        proof {
            assert(bytes.subrange(0, len as int) =~= bytes);
            vstd::utf8::encode_utf8_decode_utf8(joined(pieces@));
            vstd::utf8::encode_utf8_decode_utf8(text@);
        }
        pieces
    }
}

proof fn lemma_joined_push(ps: Seq<TextPiece>, p: TextPiece)
    ensures
        joined(ps.push(p)) == joined(ps) + p.text@,
{
    assert(ps.push(p).drop_last() =~= ps);
}

} // verus!
