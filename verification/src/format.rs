//! The document model shared by all parsers: headings with their byte
//! positions, the raw text they were found in, and the three-level tree
//! that groups them.

use vstd::prelude::*;
use crate::heading_tree::{HeadingTree, KeyView, key_of};
use crate::text::string_from_chars;

verus! {

/// A heading: its text, the byte offset at which it stands in the raw
/// text, and its level (1 is the outermost).
#[derive(Clone, Debug)]
pub struct Heading {
    pub name: String,
    pub location: usize,
    pub level: u8,
}

/// The mathematical value of a heading.
pub struct HeadingView {
    pub name: Seq<char>,
    pub location: usize,
    pub level: u8,
}

impl View for Heading {
    type V = HeadingView;

    open spec fn view(&self) -> HeadingView {
        HeadingView { name: self.name@, location: self.location, level: self.level }
    }
}

/// The views of a sequence of headings.
pub open spec fn heading_views(s: Seq<Heading>) -> Seq<HeadingView> {
    s.map_values(|h: Heading| h@)
}

impl Default for Heading {
    fn default() -> (r: Self)
        ensures
            r.name@ == Seq::<char>::empty(),
            r.location == 0,
            r.level == 0,
    {
        Heading { name: String::new(), location: 0, level: 0 }
    }
}

/// Why a document could not be read.
#[derive(Clone, Copy, Debug, PartialEq, Eq, Structural)]
pub enum DocumentError {
    /// A text document whose bytes are not UTF-8.
    InvalidUtf8,
    /// An EPUB file that `epubparse` cannot read.
    InvalidEpub,
    /// A Word file that `docx_rust` cannot read.
    InvalidDocx,
}

/// The headings of a document together with its full text.
#[derive(Clone, Debug)]
pub struct RawStructruedText {
    pub heads: Vec<Heading>,
    pub raw_text: String,
}

impl Default for RawStructruedText {
    fn default() -> (r: Self)
        ensures
            r.heads@.len() == 0,
            r.raw_text@ == Seq::<char>::empty(),
    {
        RawStructruedText { heads: Vec::new(), raw_text: String::new() }
    }
}


/// The state of the tree construction: the tree so far, how deep the
/// current position is (0 before any section, 1 inside a section, 2 inside
/// a subsection), and the current section and subsection keys.
pub struct TreeBuild {
    pub tree: Map<KeyView, Map<KeyView, Seq<KeyView>>>,
    pub point: u8,
    pub c1: KeyView,
    pub c2: KeyView,
}

/// The key used for a section or subsection that the headings do not name.
pub open spec fn blank_key(location: usize) -> KeyView {
    (seq![' '], location)
}

/// One heading's effect on the construction. Level 1 opens a new empty
/// section (emptying one with the same key); level 2 opens a subsection of
/// the current section; any other level is listed under the current
/// subsection. A missing section or subsection is opened with a blank name
/// at the heading's position.
pub open spec fn tree_step(st: TreeBuild, h: HeadingView) -> TreeBuild {
    let k = (h.name, h.location);
    let blank = blank_key(h.location);
    if h.level == 1 {
        TreeBuild { tree: st.tree.insert(k, Map::empty()), point: 1, c1: k, c2: st.c2 }
    } else {
        let t1 = if st.point == 0 { st.tree.insert(blank, Map::empty()) } else { st.tree };
        let c1 = if st.point == 0 { blank } else { st.c1 };
        let p1: u8 = if st.point == 0 { 1 } else { st.point };
        if h.level == 2 {
            TreeBuild { tree: t1.insert(c1, t1[c1].insert(k, Seq::empty())), point: 2, c1, c2: k }
        } else {
            let t2 = if p1 == 1 { t1.insert(c1, t1[c1].insert(blank, Seq::empty())) } else { t1 };
            let c2 = if p1 == 1 { blank } else { st.c2 };
            TreeBuild { tree: t2.insert(c1, t2[c1].insert(c2, t2[c1][c2].push(k))), point: 2, c1, c2 }
        }
    }
}

/// The construction after the headings `hs`, in order.
pub open spec fn tree_build(hs: Seq<HeadingView>) -> TreeBuild
    decreases hs.len(),
{
    if hs.len() == 0 {
        TreeBuild { tree: Map::empty(), point: 0, c1: (Seq::empty(), 0), c2: (Seq::empty(), 0) }
    } else {
        tree_step(tree_build(hs.drop_last()), hs.last())
    }
}

/// The tree of the headings `hs`.
pub open spec fn heading_tree(hs: Seq<HeadingView>) -> Map<KeyView, Map<KeyView, Seq<KeyView>>> {
    tree_build(hs).tree
}

/// The construction never refers to a section or subsection it lacks.
pub open spec fn build_consistent(st: TreeBuild) -> bool {
    &&& st.point <= 2
    &&& st.point >= 1 ==> st.tree.dom().contains(st.c1)
    &&& st.point == 2 ==> st.tree[st.c1].dom().contains(st.c2)
}

pub proof fn lemma_build_consistent(hs: Seq<HeadingView>)
    ensures
        build_consistent(tree_build(hs)),
        (tree_build(hs).point == 0) == (hs.len() == 0),
    decreases hs.len(),
{
    if hs.len() > 0 {
        lemma_build_consistent(hs.drop_last());
    }
}

/// A key that names a level-1 heading of `hs`.
pub open spec fn names_section(hs: Seq<HeadingView>, k: KeyView) -> bool {
    exists|i: int| 0 <= i < hs.len() && (#[trigger] hs[i]).level == 1 && k == (hs[i].name, hs[i].location)
}

/// A key that names a heading of `hs` of a level other than 1 and 2.
pub open spec fn names_entry(hs: Seq<HeadingView>, k: KeyView) -> bool {
    exists|i: int|
        0 <= i < hs.len() && (#[trigger] hs[i]).level != 1 && hs[i].level != 2 && k == (hs[i].name, hs[i].location)
}

/// The sections of the tree are exactly the level-1 headings, plus one
/// blank section at the first heading's position when the headings do not
/// begin with a level-1 heading.
pub proof fn law_sections_are_level_one(hs: Seq<HeadingView>)
    ensures
        forall|k: KeyView|
            #[trigger] heading_tree(hs).dom().contains(k) <==> (names_section(hs, k) || (hs.len() > 0
                && hs[0].level != 1 && k == blank_key(hs[0].location))),
    decreases hs.len(),
{
    if hs.len() > 0 {
        let prev = hs.drop_last();
        law_sections_are_level_one(prev);
        lemma_build_consistent(prev);
        let h = hs.last();
        let st = tree_build(prev);
        assert(hs[hs.len() - 1] == h);
        if prev.len() == 0 {
            assert(st.tree =~= Map::<KeyView, Map<KeyView, Seq<KeyView>>>::empty());
            assert(hs[0] == h);
        } else {
            assert(prev[0] == hs[0]);
        }
        assert(tree_build(hs) == tree_step(st, h));
        if h.level == 1 {
            assert(heading_tree(hs).dom() =~= st.tree.dom().insert((h.name, h.location)));
        } else if st.point == 0 {
            assert(heading_tree(hs).dom() =~= Set::<KeyView>::empty().insert(blank_key(h.location)));
        } else {
            assert(heading_tree(hs).dom() =~= st.tree.dom());
        }
        assert forall|k: KeyView| #[trigger] heading_tree(hs).dom().contains(k) <==> (names_section(hs, k) || (hs.len() > 0
                && hs[0].level != 1 && k == blank_key(hs[0].location))) by {
            assert(heading_tree(prev).dom().contains(k) == st.tree.dom().contains(k));
            if names_section(prev, k) {
                let i = choose|i: int| 0 <= i < prev.len() && (#[trigger] prev[i]).level == 1 && k == (prev[i].name, prev[i].location);
                assert(hs[i] == prev[i]);
            }
            if names_section(hs, k) {
                let i = choose|i: int| 0 <= i < hs.len() && (#[trigger] hs[i]).level == 1 && k == (hs[i].name, hs[i].location);
                if i < prev.len() {
                    assert(prev[i] == hs[i]);
                    assert(names_section(prev, k));
                }
            }
            if h.level == 1 && k == (h.name, h.location) {
                assert(names_section(hs, k));
            }
        }
    }
}

/// Every heading listed under a subsection is a heading of `hs` whose level
/// is neither 1 nor 2.
pub proof fn law_entries_are_deeper_headings(hs: Seq<HeadingView>)
    ensures
        forall|c1: KeyView, c2: KeyView, j: int|
            heading_tree(hs).dom().contains(c1) && heading_tree(hs)[c1].dom().contains(c2) && 0 <= j
                < heading_tree(hs)[c1][c2].len() ==> names_entry(hs, #[trigger] heading_tree(hs)[c1][c2][j]),
    decreases hs.len(),
{
    if hs.len() > 0 {
        let prev = hs.drop_last();
        law_entries_are_deeper_headings(prev);
        lemma_build_consistent(prev);
        let t = heading_tree(hs);
        let tp = heading_tree(prev);
        assert forall|c1: KeyView, c2: KeyView, j: int|
            t.dom().contains(c1) && t[c1].dom().contains(c2) && 0 <= j < t[c1][c2].len() implies names_entry(
            hs,
            #[trigger] t[c1][c2][j],
        ) by {
            let n = hs.len() - 1;
            assert(hs[n] == hs.last());
            if tp.dom().contains(c1) && tp[c1].dom().contains(c2) && 0 <= j < tp[c1][c2].len() && t[c1][c2][j] == tp[c1][c2][j] {
                let x = tp[c1][c2][j];
                assert(names_entry(prev, x));
                let i = choose|i: int|
                    0 <= i < prev.len() && (#[trigger] prev[i]).level != 1 && prev[i].level != 2 && x == (prev[i].name, prev[i].location);
                assert(hs[i] == prev[i]);
            }
        }
    }
}

/// A key that names a subsection of the tree of `hs`: a level-2 heading,
/// or the blank key at the position of a heading of another level than 1
/// and 2.
pub open spec fn names_subsection(hs: Seq<HeadingView>, k: KeyView) -> bool {
    exists|i: int|
        0 <= i < hs.len() && ((#[trigger] hs[i]).level == 2 && k == (hs[i].name, hs[i].location) || hs[i].level
            != 1 && hs[i].level != 2 && k == blank_key(hs[i].location))
}

/// Every subsection key of the tree is a level-2 heading's key, or the blank
/// key at the position of a heading of another level than 1 and 2.
pub proof fn law_subsections_name_headings(hs: Seq<HeadingView>)
    ensures
        forall|c1: KeyView, c2: KeyView|
            heading_tree(hs).dom().contains(c1) && #[trigger] heading_tree(hs)[c1].dom().contains(c2)
                ==> names_subsection(hs, c2),
    decreases hs.len(),
{
    if hs.len() > 0 {
        let prev = hs.drop_last();
        law_subsections_name_headings(prev);
        lemma_build_consistent(prev);
        let t = heading_tree(hs);
        let tp = heading_tree(prev);
        let n = hs.len() - 1;
        assert(hs[n] == hs.last());
        assert forall|c1: KeyView, c2: KeyView|
            t.dom().contains(c1) && #[trigger] t[c1].dom().contains(c2) implies names_subsection(hs, c2) by {
            if tp.dom().contains(c1) && tp[c1].dom().contains(c2) && names_subsection(prev, c2) {
                let i = choose|i: int|
                    0 <= i < prev.len() && ((#[trigger] prev[i]).level == 2 && c2 == (prev[i].name, prev[i].location)
                        || prev[i].level != 1 && prev[i].level != 2 && c2 == blank_key(prev[i].location));
                assert(hs[i] == prev[i]);
            }
        }
    }
}

/// No section or subsection key is opened twice: no two level-1 headings of
/// `hs` share text and position, no two level-2 headings do, and none of
/// them is named by the single space that names blank sections and
/// subsections.
pub open spec fn opens_each_key_once(hs: Seq<HeadingView>) -> bool {
    &&& forall|i: int, j: int|
        0 <= i < j < hs.len() && (#[trigger] hs[i]).level == 1 && (#[trigger] hs[j]).level == 1 ==> (hs[i].name, hs[i].location)
            != (hs[j].name, hs[j].location)
    &&& forall|i: int, j: int|
        0 <= i < j < hs.len() && (#[trigger] hs[i]).level == 2 && (#[trigger] hs[j]).level == 2 ==> (hs[i].name, hs[i].location)
            != (hs[j].name, hs[j].location)
    &&& forall|i: int| 0 <= i < hs.len() && ((#[trigger] hs[i]).level == 1 || hs[i].level == 2) ==> hs[i].name != seq![' ']
}

/// `k` is listed under some subsection of some section of `t`.
pub open spec fn listed(t: Map<KeyView, Map<KeyView, Seq<KeyView>>>, k: KeyView) -> bool {
    exists|c1: KeyView, c2: KeyView|
        t.dom().contains(c1) && t[c1].dom().contains(c2) && #[trigger] t[c1][c2].contains(k)
}

proof fn lemma_fresh_section_is_empty(hs: Seq<HeadingView>)
    ensures
        tree_build(hs).point == 1 ==> tree_build(hs).tree[tree_build(hs).c1].dom() =~= Set::<KeyView>::empty(),
{
}

/// Every heading of a level other than 1 and 2 is listed in the tree under
/// some subsection of some section, when no section or subsection key is
/// opened twice (a reopened key starts over empty).
pub proof fn law_deeper_headings_are_listed(hs: Seq<HeadingView>)
    requires
        opens_each_key_once(hs),
    ensures
        forall|i: int|
            0 <= i < hs.len() && (#[trigger] hs[i]).level != 1 && hs[i].level != 2 ==> listed(
                heading_tree(hs),
                (hs[i].name, hs[i].location),
            ),
    decreases hs.len(),
{
    if hs.len() > 0 {
        let n = hs.len() - 1;
        let prev = hs.drop_last();
        let h = hs.last();
        assert(hs[n] == h);
        assert forall|i: int| 0 <= i < prev.len() implies #[trigger] prev[i] == hs[i] by {}
        law_deeper_headings_are_listed(prev);
        law_sections_are_level_one(prev);
        law_subsections_name_headings(prev);
        lemma_build_consistent(prev);
        lemma_fresh_section_is_empty(prev);
        let st = tree_build(prev);
        let t = st.tree;
        let t2 = heading_tree(hs);
        assert(tree_build(hs) == tree_step(st, h));
        let kh = (h.name, h.location);
        assert forall|i: int|
            0 <= i < hs.len() && (#[trigger] hs[i]).level != 1 && hs[i].level != 2 implies listed(
                t2,
                (hs[i].name, hs[i].location),
            ) by {
            let k = (hs[i].name, hs[i].location);
            if i < n {
                assert(prev[i] == hs[i]);
                assert(listed(t, k));
                let (c1, c2): (KeyView, KeyView) = choose|c1: KeyView, c2: KeyView|
                    t.dom().contains(c1) && t[c1].dom().contains(c2) && #[trigger] t[c1][c2].contains(k);
                let x = choose|x: int| 0 <= x < t[c1][c2].len() && t[c1][c2][x] == k;
                if h.level == 1 {
                    if names_section(prev, c1) {
                        let i1 = choose|i1: int| 0 <= i1 < prev.len() && (#[trigger] prev[i1]).level == 1 && c1 == (prev[i1].name, prev[i1].location);
                        assert(hs[i1] == prev[i1]);
                        assert(c1 != kh);
                    } else {
                        assert(c1.0 == seq![' ']);
                        assert(c1 != kh);
                    }
                    assert(t2[c1] == t[c1]);
                    assert(t2[c1][c2][x] == k);
                } else if h.level == 2 {
                    if c1 == st.c1 {
                        assert(names_subsection(prev, c2));
                        let i2 = choose|i2: int|
                            0 <= i2 < prev.len() && ((#[trigger] prev[i2]).level == 2 && c2 == (prev[i2].name, prev[i2].location)
                                || prev[i2].level != 1 && prev[i2].level != 2 && c2 == blank_key(prev[i2].location));
                        assert(hs[i2] == prev[i2]);
                        assert(c2 != kh);
                        assert(t2[c1][c2] == t[c1][c2]);
                    } else {
                        assert(t2[c1] == t[c1]);
                    }
                    assert(t2[c1][c2][x] == k);
                } else {
                    if st.point == 1 {
                        assert(c1 != st.c1);
                        assert(t2[c1] == t[c1]);
                    } else if c1 == st.c1 && c2 == st.c2 {
                        assert(t2[c1][c2] == t[c1][c2].push(kh));
                    } else if c1 == st.c1 {
                        assert(t2[c1][c2] == t[c1][c2]);
                    } else {
                        assert(t2[c1] == t[c1]);
                    }
                    assert(t2[c1][c2][x] == k);
                }
                assert(t2[c1][c2].contains(k));
            } else {
                let f = tree_build(hs);
                assert(f.tree.dom().contains(f.c1));
                assert(f.tree[f.c1].dom().contains(f.c2));
                let l = f.tree[f.c1][f.c2];
                assert(l[l.len() - 1] == kh);
                assert(t2[f.c1][f.c2].contains(k));
            }
        }
    }
}

/// `k` is a subsection of some section of `t`.
pub open spec fn opened_subsection(t: Map<KeyView, Map<KeyView, Seq<KeyView>>>, k: KeyView) -> bool {
    exists|c1: KeyView| t.dom().contains(c1) && #[trigger] t[c1].dom().contains(k)
}

/// Every level-2 heading is a subsection of some section of the tree, when
/// no section or subsection key is opened twice.
pub proof fn law_level_two_headings_are_subsections(hs: Seq<HeadingView>)
    requires
        opens_each_key_once(hs),
    ensures
        forall|i: int|
            0 <= i < hs.len() && (#[trigger] hs[i]).level == 2 ==> opened_subsection(
                heading_tree(hs),
                (hs[i].name, hs[i].location),
            ),
    decreases hs.len(),
{
    if hs.len() > 0 {
        let n = hs.len() - 1;
        let prev = hs.drop_last();
        let h = hs.last();
        assert(hs[n] == h);
        assert forall|i: int| 0 <= i < prev.len() implies #[trigger] prev[i] == hs[i] by {}
        law_level_two_headings_are_subsections(prev);
        law_sections_are_level_one(prev);
        law_subsections_name_headings(prev);
        lemma_build_consistent(prev);
        lemma_fresh_section_is_empty(prev);
        let st = tree_build(prev);
        let t = st.tree;
        let t2 = heading_tree(hs);
        assert(tree_build(hs) == tree_step(st, h));
        let kh = (h.name, h.location);
        assert forall|i: int| 0 <= i < hs.len() && (#[trigger] hs[i]).level == 2 implies opened_subsection(
            t2,
            (hs[i].name, hs[i].location),
        ) by {
            let k = (hs[i].name, hs[i].location);
            if i < n {
                assert(prev[i] == hs[i]);
                assert(opened_subsection(t, k));
                let c1 = choose|c1: KeyView| t.dom().contains(c1) && #[trigger] t[c1].dom().contains(k);
                if h.level == 1 {
                    if names_section(prev, c1) {
                        let i1 = choose|i1: int| 0 <= i1 < prev.len() && (#[trigger] prev[i1]).level == 1 && c1 == (prev[i1].name, prev[i1].location);
                        assert(hs[i1] == prev[i1]);
                    } else {
                        assert(c1.0 == seq![' ']);
                    }
                    assert(c1 != kh);
                    assert(t2[c1] == t[c1]);
                } else if h.level == 2 {
                    assert(k != kh);
                    if c1 == st.c1 {
                        assert(t2[c1] == t[c1].insert(kh, Seq::empty()));
                    } else {
                        assert(t2[c1] == t[c1]);
                    }
                } else {
                    if st.point == 1 {
                        assert(c1 != st.c1);
                        assert(t2[c1] == t[c1]);
                    } else if c1 == st.c1 {
                        assert(t2[c1].dom() =~= t[c1].dom());
                    } else {
                        assert(t2[c1] == t[c1]);
                    }
                }
                assert(t2[c1].dom().contains(k));
            } else {
                let f = tree_build(hs);
                assert(f.tree[f.c1].dom().contains(kh));
            }
        }
    }
}

proof fn lemma_opens_once_prefix(hs: Seq<HeadingView>, m: int)
    requires
        opens_each_key_once(hs),
        0 <= m <= hs.len(),
    ensures
        opens_each_key_once(hs.take(m)),
{
    let p = hs.take(m);
    assert forall|i: int| 0 <= i < p.len() implies #[trigger] p[i] == hs[i] by {}
}

/// One more heading keeps every entry of the tree where it was.
proof fn lemma_entry_kept_step(hs: Seq<HeadingView>, c1: KeyView, c2: KeyView, x: int)
    requires
        hs.len() > 0,
        opens_each_key_once(hs),
        heading_tree(hs.drop_last()).dom().contains(c1),
        heading_tree(hs.drop_last())[c1].dom().contains(c2),
        0 <= x < heading_tree(hs.drop_last())[c1][c2].len(),
    ensures
        heading_tree(hs).dom().contains(c1),
        heading_tree(hs)[c1].dom().contains(c2),
        x < heading_tree(hs)[c1][c2].len(),
        heading_tree(hs)[c1][c2][x] == heading_tree(hs.drop_last())[c1][c2][x],
{
    let n = hs.len() - 1;
    let prev = hs.drop_last();
    let h = hs.last();
    assert(hs[n] == h);
    assert forall|i: int| 0 <= i < prev.len() implies #[trigger] prev[i] == hs[i] by {}
    law_sections_are_level_one(prev);
    law_subsections_name_headings(prev);
    lemma_build_consistent(prev);
    lemma_fresh_section_is_empty(prev);
    let st = tree_build(prev);
    let t = st.tree;
    let t2 = heading_tree(hs);
    assert(tree_build(hs) == tree_step(st, h));
    let kh = (h.name, h.location);
    assert(prev.len() > 0);
    if h.level == 1 {
        if names_section(prev, c1) {
            let i1 = choose|i1: int| 0 <= i1 < prev.len() && (#[trigger] prev[i1]).level == 1 && c1 == (prev[i1].name, prev[i1].location);
            assert(hs[i1] == prev[i1]);
        } else {
            assert(c1.0 == seq![' ']);
        }
        assert(c1 != kh);
        assert(t2[c1] == t[c1]);
    } else if h.level == 2 {
        if c1 == st.c1 {
            assert(names_subsection(prev, c2));
            let i2 = choose|i2: int|
                0 <= i2 < prev.len() && ((#[trigger] prev[i2]).level == 2 && c2 == (prev[i2].name, prev[i2].location)
                    || prev[i2].level != 1 && prev[i2].level != 2 && c2 == blank_key(prev[i2].location));
            assert(hs[i2] == prev[i2]);
            assert(c2 != kh);
            assert(t2[c1][c2] == t[c1][c2]);
        } else {
            assert(t2[c1] == t[c1]);
        }
    } else {
        if st.point == 1 {
            assert(c1 != st.c1);
            assert(t2[c1] == t[c1]);
        } else if c1 == st.c1 && c2 == st.c2 {
            assert(t2[c1][c2] == t[c1][c2].push(kh));
        } else if c1 == st.c1 {
            assert(t2[c1][c2] == t[c1][c2]);
        } else {
            assert(t2[c1] == t[c1]);
        }
    }
}

/// The headings after the first `m` keep every entry the tree had after
/// those `m` where it was.
proof fn lemma_entry_kept(hs: Seq<HeadingView>, m: int, c1: KeyView, c2: KeyView, x: int)
    requires
        opens_each_key_once(hs),
        0 <= m <= hs.len(),
        heading_tree(hs.take(m)).dom().contains(c1),
        heading_tree(hs.take(m))[c1].dom().contains(c2),
        0 <= x < heading_tree(hs.take(m))[c1][c2].len(),
    ensures
        heading_tree(hs).dom().contains(c1),
        heading_tree(hs)[c1].dom().contains(c2),
        x < heading_tree(hs)[c1][c2].len(),
        heading_tree(hs)[c1][c2][x] == heading_tree(hs.take(m))[c1][c2][x],
    decreases hs.len() - m,
{
    if m == hs.len() {
        assert(hs.take(m) =~= hs);
    } else {
        let q = hs.take(m + 1);
        assert(q.drop_last() =~= hs.take(m));
        lemma_opens_once_prefix(hs, m + 1);
        lemma_entry_kept_step(q, c1, c2, x);
        lemma_entry_kept(hs, m + 1, c1, c2, x);
    }
}

/// No level-1 heading stands strictly between positions `s` and `i`.
pub open spec fn no_section_between(hs: Seq<HeadingView>, s: int, i: int) -> bool {
    forall|m: int| s < m < i ==> (#[trigger] hs[m]).level != 1
}

/// No level-1 or level-2 heading stands strictly between positions `j` and
/// `i`.
pub open spec fn no_opener_between(hs: Seq<HeadingView>, j: int, i: int) -> bool {
    forall|m: int| j < m < i ==> (#[trigger] hs[m]).level != 1 && hs[m].level != 2
}

proof fn lemma_current_section(hs: Seq<HeadingView>, s: int)
    requires
        0 <= s < hs.len(),
        hs[s].level == 1,
        no_section_between(hs, s, hs.len() as int),
    ensures
        tree_build(hs).c1 == (hs[s].name, hs[s].location),
        tree_build(hs).point >= 1,
    decreases hs.len(),
{
    let n = hs.len() - 1;
    let prev = hs.drop_last();
    assert(hs[n] == hs.last());
    if s < n {
        assert(prev[s] == hs[s]);
        assert forall|m: int| s < m < prev.len() implies (#[trigger] prev[m]).level != 1 by {
            assert(prev[m] == hs[m]);
        }
        lemma_current_section(prev, s);
    }
}

proof fn lemma_current_subsection(hs: Seq<HeadingView>, j: int)
    requires
        0 <= j < hs.len(),
        hs[j].level == 2,
        no_opener_between(hs, j, hs.len() as int),
    ensures
        tree_build(hs).c2 == (hs[j].name, hs[j].location),
        tree_build(hs).point == 2,
    decreases hs.len(),
{
    let n = hs.len() - 1;
    let prev = hs.drop_last();
    assert(hs[n] == hs.last());
    if j < n {
        assert(prev[j] == hs[j]);
        assert forall|m: int| j < m < prev.len() implies (#[trigger] prev[m]).level != 1 && prev[m].level != 2 by {
            assert(prev[m] == hs[m]);
        }
        lemma_current_subsection(prev, j);
    }
}

/// A heading of a level other than 1 and 2 is listed in the section of the
/// last level-1 heading before it, and in the subsection of the last
/// level-2 heading before it when no level-1 heading comes between, when no
/// section or subsection key is opened twice.
pub proof fn law_entries_sit_under_the_headings_before_them(hs: Seq<HeadingView>, i: int)
    requires
        opens_each_key_once(hs),
        0 <= i < hs.len(),
        hs[i].level != 1,
        hs[i].level != 2,
    ensures
        forall|s: int|
            0 <= s < i && (#[trigger] hs[s]).level == 1 && no_section_between(hs, s, i) ==> exists|c2: KeyView|
                heading_tree(hs)[(hs[s].name, hs[s].location)].dom().contains(c2)
                    && #[trigger] heading_tree(hs)[(hs[s].name, hs[s].location)][c2].contains((hs[i].name, hs[i].location)),
        forall|j: int|
            0 <= j < i && (#[trigger] hs[j]).level == 2 && no_opener_between(hs, j, i) ==> exists|c1: KeyView|
                heading_tree(hs).dom().contains(c1) && heading_tree(hs)[c1].dom().contains((hs[j].name, hs[j].location))
                    && #[trigger] heading_tree(hs)[c1][(hs[j].name, hs[j].location)].contains((hs[i].name, hs[i].location)),
{
    let p = hs.take(i);
    let q = hs.take(i + 1);
    assert(q.drop_last() =~= p);
    assert(q.last() == hs[i]);
    assert forall|m: int| 0 <= m < i implies #[trigger] p[m] == hs[m] by {}
    let st = tree_build(p);
    let f = tree_build(q);
    assert(f == tree_step(st, hs[i]));
    lemma_build_consistent(q);
    let k = (hs[i].name, hs[i].location);
    let l = f.tree[f.c1][f.c2];
    let x = l.len() - 1;
    assert(l[x] == k);
    lemma_entry_kept(hs, i + 1, f.c1, f.c2, x);
    let t = heading_tree(hs);
    assert(t[f.c1][f.c2][x] == k);
    assert(t[f.c1][f.c2].contains(k));
    assert forall|s: int|
        0 <= s < i && (#[trigger] hs[s]).level == 1 && no_section_between(hs, s, i) implies exists|c2: KeyView|
            t[(hs[s].name, hs[s].location)].dom().contains(c2)
                && #[trigger] t[(hs[s].name, hs[s].location)][c2].contains(k) by {
        assert forall|m: int| s < m < p.len() implies (#[trigger] p[m]).level != 1 by {}
        lemma_current_section(p, s);
        assert(f.c1 == (hs[s].name, hs[s].location));
    }
    assert forall|j: int|
        0 <= j < i && (#[trigger] hs[j]).level == 2 && no_opener_between(hs, j, i) implies exists|c1: KeyView|
            t.dom().contains(c1) && t[c1].dom().contains((hs[j].name, hs[j].location))
                && #[trigger] t[c1][(hs[j].name, hs[j].location)].contains(k) by {
        assert forall|m: int| j < m < p.len() implies (#[trigger] p[m]).level != 1 && p[m].level != 2 by {}
        lemma_current_subsection(p, j);
        assert(f.c2 == (hs[j].name, hs[j].location));
    }
}

proof fn lemma_concat_build(h1: Seq<HeadingView>, h2: Seq<HeadingView>, k: int)
    requires
        1 <= k <= h2.len(),
        h2[0].level == 1,
    ensures
        ({
            let a = tree_build(h1 + h2.take(k));
            let b = tree_build(h2.take(k));
            &&& a.tree == tree_build(h1).tree.union_prefer_right(b.tree)
            &&& a.point == b.point
            &&& a.c1 == b.c1
            &&& b.point == 2 ==> a.c2 == b.c2
        }),
    decreases k,
{
    let t1 = tree_build(h1).tree;
    let h = h2[k - 1];
    assert((h1 + h2.take(k)).drop_last() =~= h1 + h2.take(k - 1));
    assert((h1 + h2.take(k)).last() == h);
    assert(h2.take(k).drop_last() =~= h2.take(k - 1));
    assert(h2.take(k).last() == h);
    let a = tree_build(h1 + h2.take(k));
    let b = tree_build(h2.take(k));
    if k == 1 {
        assert(h1 + h2.take(0) =~= h1);
        assert(h2.take(0) =~= Seq::<HeadingView>::empty());
        assert(a == tree_step(tree_build(h1), h));
        assert(b == tree_step(tree_build(Seq::<HeadingView>::empty()), h));
        assert(b.tree =~= Map::<KeyView, Map<KeyView, Seq<KeyView>>>::empty().insert((h.name, h.location), Map::empty()));
        assert(a.tree =~= t1.union_prefer_right(b.tree));
    } else {
        lemma_concat_build(h1, h2, k - 1);
        lemma_build_consistent(h2.take(k - 1));
        let pa = tree_build(h1 + h2.take(k - 1));
        let pb = tree_build(h2.take(k - 1));
        assert(pb.point != 0);
        let key = (h.name, h.location);
        let blank = blank_key(h.location);
        if h.level == 1 {
            assert(a.tree =~= t1.union_prefer_right(b.tree));
        } else if h.level == 2 {
            assert(pa.tree[pa.c1] == pb.tree[pb.c1]);
            assert(a.tree =~= t1.union_prefer_right(b.tree));
        } else {
            if pb.point == 1 {
                let ta = pa.tree.insert(pa.c1, pa.tree[pa.c1].insert(blank, Seq::empty()));
                let tb = pb.tree.insert(pb.c1, pb.tree[pb.c1].insert(blank, Seq::empty()));
                assert(pa.tree[pa.c1] == pb.tree[pb.c1]);
                assert(ta =~= t1.union_prefer_right(tb));
                assert(ta[pa.c1] == tb[pb.c1]);
                assert(a.tree =~= t1.union_prefer_right(b.tree));
            } else {
                assert(pa.tree[pa.c1] == pb.tree[pb.c1]);
                assert(a.tree =~= t1.union_prefer_right(b.tree));
            }
        }
    }
}

/// The tree of headings whose second part begins with a level-1 heading is
/// the tree of the first part overridden by the tree of the second.
pub proof fn law_tree_of_concatenation(h1: Seq<HeadingView>, h2: Seq<HeadingView>)
    requires
        h2.len() > 0,
        h2[0].level == 1,
    ensures
        heading_tree(h1 + h2) == heading_tree(h1).union_prefer_right(heading_tree(h2)),
{
    lemma_concat_build(h1, h2, h2.len() as int);
    assert(h2.take(h2.len() as int) =~= h2);
}

fn blank_name() -> (r: String)
    ensures
        r@ == seq![' '],
{
    let r = string_from_chars(&vec![' ']);
    assert(r@ =~= seq![' ']);
    r
}

impl RawStructruedText {
    /// Groups `heads` into sections (level 1), subsections (level 2) and the
    /// headings listed under them (every other level), keyed by heading text
    /// and position, as [`tree_step`] describes.
    pub fn transfer2tree(heads: &Vec<Heading>) -> (tree: HeadingTree)
        ensures
            tree.wf(),
            tree@ == heading_tree(heading_views(heads@)),
    {
        let mut tree = HeadingTree::new();
        let mut point: u8 = 0;
        let mut clevel1: (String, usize) = (String::new(), 0);
        let mut clevel2: (String, usize) = (String::new(), 0);
        let ghost hs = heading_views(heads@);
        let mut i: usize = 0;
        assert(key_of(clevel1) =~= (Seq::<char>::empty(), 0usize));
        assert(key_of(clevel2) =~= (Seq::<char>::empty(), 0usize));
        while i < heads.len()
            invariant
                i <= heads@.len(),
                hs == heading_views(heads@),
                tree.wf(),
                tree@ == tree_build(hs.take(i as int)).tree,
                point == tree_build(hs.take(i as int)).point,
                key_of(clevel1) == tree_build(hs.take(i as int)).c1,
                key_of(clevel2) == tree_build(hs.take(i as int)).c2,
                build_consistent(tree_build(hs.take(i as int))),
            decreases heads.len() - i,
        {
            let h = &heads[i];
            proof {
                assert(hs.take(i + 1).drop_last() =~= hs.take(i as int));
                assert(hs.take(i + 1).last() == h@);
            }
            if h.level == 1 {
                let k = (h.name.clone(), h.location);
                tree.insert_section(&k);
                clevel1 = k;
                point = 1;
            } else if h.level == 2 {
                if point == 0 {
                    let b = (blank_name(), h.location);
                    tree.insert_section(&b);
                    clevel1 = b;
                    point = 1;
                }
                let k = (h.name.clone(), h.location);
                tree.insert_subsection(&clevel1, &k);
                clevel2 = k;
                point = 2;
            } else {
                if point == 0 {
                    let b = (blank_name(), h.location);
                    tree.insert_section(&b);
                    clevel1 = b;
                    point = 1;
                }
                if point == 1 {
                    clevel2 = (blank_name(), h.location);
                    tree.insert_subsection(&clevel1, &clevel2);
                    point = 2;
                }
                tree.push_entry(&clevel1, &clevel2, (h.name.clone(), h.location));
            }
            i = i + 1;
        }
        proof {
            assert(hs.take(hs.len() as int) =~= hs);
        }
        tree
    }
}

} // verus!
