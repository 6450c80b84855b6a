//! A two-level map from section headings to subsection headings to the
//! headings listed under them, kept as vectors whose keys never repeat.

use vstd::prelude::*;

verus! {

/// A heading key: its text and its byte offset.
pub type KeyView = (Seq<char>, usize);

/// The map whose keys are `keys` and whose value at `keys[i]` is `vals[i]`.
pub open spec fn keyed_map<V>(keys: Seq<KeyView>, vals: Seq<V>) -> Map<KeyView, V> {
    Map::new(|k: KeyView| keys.contains(k), |k: KeyView| vals[keys.index_of(k)])
}

pub proof fn lemma_keyed_lookup<V>(keys: Seq<KeyView>, vals: Seq<V>, i: int)
    requires
        keys.no_duplicates(),
        0 <= i < keys.len(),
    ensures
        keyed_map(keys, vals).dom().contains(keys[i]),
        keyed_map(keys, vals)[keys[i]] == vals[i],
{
    assert(keys.contains(keys[i]));
    let j = keys.index_of(keys[i]);
    assert(0 <= j < keys.len() && keys[j] == keys[i]);
}

pub proof fn lemma_keyed_update<V>(keys: Seq<KeyView>, vals: Seq<V>, i: int, v: V)
    requires
        keys.no_duplicates(),
        keys.len() == vals.len(),
        0 <= i < keys.len(),
    ensures
        keyed_map(keys, vals.update(i, v)) == keyed_map(keys, vals).insert(keys[i], v),
{
    let m1 = keyed_map(keys, vals.update(i, v));
    let m2 = keyed_map(keys, vals).insert(keys[i], v);
    assert(keys.contains(keys[i]));
    assert forall|k: KeyView| m1.dom().contains(k) implies m1[k] == m2[k] by {
        let j = keys.index_of(k);
        assert(0 <= j < keys.len() && keys[j] == k);
        if j == i {
        } else {
            assert(keys[j] != keys[i]);
        }
    }
    assert(m1 =~= m2);
}

pub proof fn lemma_keyed_push<V>(keys: Seq<KeyView>, vals: Seq<V>, k: KeyView, v: V)
    requires
        keys.no_duplicates(),
        keys.len() == vals.len(),
        !keys.contains(k),
    ensures
        keys.push(k).no_duplicates(),
        keyed_map(keys.push(k), vals.push(v)) == keyed_map(keys, vals).insert(k, v),
{
    let nk = keys.push(k);
    let nv = vals.push(v);
    assert forall|a: int, b: int| 0 <= a < nk.len() && 0 <= b < nk.len() && a != b implies nk[a] != nk[b] by {
        if a == keys.len() as int {
            assert(keys[b] == nk[b]);
        } else if b == keys.len() as int {
            assert(keys[a] == nk[a]);
        }
    }
    let m1 = keyed_map(nk, nv);
    let m2 = keyed_map(keys, vals).insert(k, v);
    assert(nk[keys.len() as int] == k);
    assert forall|x: KeyView| #[trigger] m1.dom().contains(x) <==> m2.dom().contains(x) by {
        if nk.contains(x) {
            let j = choose|j: int| 0 <= j < nk.len() && nk[j] == x;
            if j < keys.len() {
                assert(keys[j] == x);
            }
        }
        if keys.contains(x) {
            let j = choose|j: int| 0 <= j < keys.len() && keys[j] == x;
            assert(nk[j] == x);
        }
    }
    assert forall|x: KeyView| m1.dom().contains(x) implies m1[x] == m2[x] by {
        let j = nk.index_of(x);
        assert(0 <= j < nk.len() && nk[j] == x);
        if j == keys.len() as int {
        } else {
            assert(keys[j] == x);
            assert(keys.contains(x));
            let j2 = keys.index_of(x);
            assert(0 <= j2 < keys.len() && keys[j2] == x);
            assert(nk[j2] == x);
        }
    }
    assert(m1 =~= m2);
}

/// The key of a heading: its text and its byte offset.
pub open spec fn key_of(k: (String, usize)) -> KeyView {
    (k.0@, k.1)
}

/// The keys of a list of headings.
pub open spec fn entries_view(e: Seq<(String, usize)>) -> Seq<KeyView> {
    e.map_values(|x: (String, usize)| key_of(x))
}

/// A subsection heading and the headings listed under it.
pub struct Subsection {
    pub key: (String, usize),
    pub entries: Vec<(String, usize)>,
}

/// A section heading and its subsections.
pub struct Section {
    pub key: (String, usize),
    pub subsections: Vec<Subsection>,
}

/// Sections, each holding subsections, each holding a list of headings.
pub struct HeadingTree {
    pub sections: Vec<Section>,
}

pub open spec fn sub_keys(s: Seq<Subsection>) -> Seq<KeyView> {
    s.map_values(|x: Subsection| key_of(x.key))
}

pub open spec fn sub_vals(s: Seq<Subsection>) -> Seq<Seq<KeyView>> {
    s.map_values(|x: Subsection| entries_view(x.entries@))
}

/// The subsections of a section as a map.
pub open spec fn subs_map(s: Seq<Subsection>) -> Map<KeyView, Seq<KeyView>> {
    keyed_map(sub_keys(s), sub_vals(s))
}

pub open spec fn sec_keys(s: Seq<Section>) -> Seq<KeyView> {
    s.map_values(|x: Section| key_of(x.key))
}

pub open spec fn sec_vals(s: Seq<Section>) -> Seq<Map<KeyView, Seq<KeyView>>> {
    s.map_values(|x: Section| subs_map(x.subsections@))
}

impl View for HeadingTree {
    type V = Map<KeyView, Map<KeyView, Seq<KeyView>>>;

    open spec fn view(&self) -> Map<KeyView, Map<KeyView, Seq<KeyView>>> {
        keyed_map(sec_keys(self.sections@), sec_vals(self.sections@))
    }
}

fn key_eq(a: &(String, usize), b: &(String, usize)) -> (r: bool)
    ensures
        r == (key_of(*a) == key_of(*b)),
{
    a.1 == b.1 && a.0 == b.0
}

fn clone_key(k: &(String, usize)) -> (r: (String, usize))
    ensures
        key_of(r) == key_of(*k),
{
    (k.0.clone(), k.1)
}

impl Section {
    fn find_sub(&self, k: &(String, usize)) -> (r: Option<usize>)
        ensures
            match r {
                Some(i) => i < self.subsections@.len() && sub_keys(self.subsections@)[i as int] == key_of(*k),
                None => !sub_keys(self.subsections@).contains(key_of(*k)),
            },
    {
        let mut i: usize = 0;
        while i < self.subsections.len()
            invariant
                i <= self.subsections@.len(),
                forall|j: int| 0 <= j < i ==> sub_keys(self.subsections@)[j] != key_of(*k),
            decreases self.subsections.len() - i,
        {
            if key_eq(&self.subsections[i].key, k) {
                return Some(i);
            }
            i = i + 1;
        }
        None
    }

    fn insert_sub(&mut self, k: &(String, usize))
        requires
            sub_keys(old(self).subsections@).no_duplicates(),
        ensures
            sub_keys(final(self).subsections@).no_duplicates(),
            final(self).key == old(self).key,
            subs_map(final(self).subsections@) == subs_map(old(self).subsections@).insert(key_of(*k), Seq::<KeyView>::empty()),
    {
        let ghost keys = sub_keys(self.subsections@);
        let ghost vals = sub_vals(self.subsections@);
        let empty = Subsection { key: clone_key(k), entries: Vec::new() };
        assert(entries_view(empty.entries@) =~= Seq::<KeyView>::empty());
        match self.find_sub(k) {
            Some(i) => {
                self.subsections.set(i, empty);
                proof {
                    assert(sub_keys(self.subsections@) =~= keys);
                    assert(sub_vals(self.subsections@) =~= vals.update(i as int, Seq::empty()));
                    lemma_keyed_update(keys, vals, i as int, Seq::empty());
                }
            },
            None => {
                self.subsections.push(empty);
                proof {
                    assert(sub_keys(self.subsections@) =~= keys.push(key_of(*k)));
                    assert(sub_vals(self.subsections@) =~= vals.push(Seq::empty()));
                    lemma_keyed_push(keys, vals, key_of(*k), Seq::empty());
                }
            },
        }
    }

    fn push_in_sub(&mut self, c2: &(String, usize), e: (String, usize))
        requires
            sub_keys(old(self).subsections@).no_duplicates(),
            subs_map(old(self).subsections@).dom().contains(key_of(*c2)),
        ensures
            sub_keys(final(self).subsections@).no_duplicates(),
            final(self).key == old(self).key,
            subs_map(final(self).subsections@) == subs_map(old(self).subsections@).insert(
                key_of(*c2),
                subs_map(old(self).subsections@)[key_of(*c2)].push(key_of(e)),
            ),
    {
        let ghost keys = sub_keys(self.subsections@);
        let ghost vals = sub_vals(self.subsections@);
        match self.find_sub(c2) {
            Some(i) => {
                proof {
                    lemma_keyed_lookup(keys, vals, i as int);
                }
                let mut sub = self.subsections.remove(i);
                let ghost old_entries = entries_view(sub.entries@);
                sub.entries.push(e);
                assert(entries_view(sub.entries@) =~= old_entries.push(key_of(e)));
                self.subsections.insert(i, sub);
                proof {
                    assert(sub_keys(self.subsections@) =~= keys);
                    assert(sub_vals(self.subsections@) =~= vals.update(i as int, old_entries.push(key_of(e))));
                    lemma_keyed_update(keys, vals, i as int, old_entries.push(key_of(e)));
                }
            },
            None => {
                assert(false);
            },
        }
    }
}

impl HeadingTree {
    /// Section keys never repeat, nor subsection keys within a section.
    pub open spec fn wf(&self) -> bool {
        &&& sec_keys(self.sections@).no_duplicates()
        &&& forall|i: int|
            0 <= i < self.sections@.len() ==> sub_keys(#[trigger] self.sections@[i].subsections@).no_duplicates()
    }

    /// The empty tree.
    pub fn new() -> (t: Self)
        ensures
            t.wf(),
            t@ == Map::<KeyView, Map<KeyView, Seq<KeyView>>>::empty(),
    {
        let t = HeadingTree { sections: Vec::new() };
        assert(t@ =~= Map::<KeyView, Map<KeyView, Seq<KeyView>>>::empty());
        t
    }

    fn find_section(&self, k: &(String, usize)) -> (r: Option<usize>)
        ensures
            match r {
                Some(i) => i < self.sections@.len() && sec_keys(self.sections@)[i as int] == key_of(*k),
                None => !sec_keys(self.sections@).contains(key_of(*k)),
            },
    {
        let mut i: usize = 0;
        while i < self.sections.len()
            invariant
                i <= self.sections@.len(),
                forall|j: int| 0 <= j < i ==> sec_keys(self.sections@)[j] != key_of(*k),
            decreases self.sections.len() - i,
        {
            if key_eq(&self.sections[i].key, k) {
                return Some(i);
            }
            i = i + 1;
        }
        None
    }

    /// The section keyed `k` becomes empty, created if missing.
    pub fn insert_section(&mut self, k: &(String, usize))
        requires
            old(self).wf(),
        ensures
            final(self).wf(),
            final(self)@ == old(self)@.insert(key_of(*k), Map::<KeyView, Seq<KeyView>>::empty()),
    {
        let ghost keys = sec_keys(self.sections@);
        let ghost vals = sec_vals(self.sections@);
        let empty = Section { key: clone_key(k), subsections: Vec::new() };
        assert(subs_map(empty.subsections@) =~= Map::<KeyView, Seq<KeyView>>::empty());
        assert(sub_keys(empty.subsections@) =~= Seq::<KeyView>::empty());
        match self.find_section(k) {
            Some(i) => {
                self.sections.set(i, empty);
                proof {
                    assert(sec_keys(self.sections@) =~= keys);
                    assert(sec_vals(self.sections@) =~= vals.update(i as int, Map::empty()));
                    lemma_keyed_update(keys, vals, i as int, Map::empty());
                }
            },
            None => {
                self.sections.push(empty);
                proof {
                    assert(sec_keys(self.sections@) =~= keys.push(key_of(*k)));
                    assert(sec_vals(self.sections@) =~= vals.push(Map::empty()));
                    lemma_keyed_push(keys, vals, key_of(*k), Map::empty());
                }
            },
        }
    }

    /// The subsection keyed `k` of the section keyed `c1` becomes empty,
    /// created if missing.
    pub fn insert_subsection(&mut self, c1: &(String, usize), k: &(String, usize))
        requires
            old(self).wf(),
            old(self)@.dom().contains(key_of(*c1)),
        ensures
            final(self).wf(),
            final(self)@ == old(self)@.insert(key_of(*c1), old(self)@[key_of(*c1)].insert(key_of(*k), Seq::<KeyView>::empty())),
    {
        let ghost keys = sec_keys(self.sections@);
        let ghost vals = sec_vals(self.sections@);
        match self.find_section(c1) {
            Some(i) => {
                proof {
                    lemma_keyed_lookup(keys, vals, i as int);
                }
                let mut sec = self.sections.remove(i);
                let ghost old_map = subs_map(sec.subsections@);
                sec.insert_sub(k);
                self.sections.insert(i, sec);
                proof {
                    assert(sec_keys(self.sections@) =~= keys);
                    assert(sec_vals(self.sections@) =~= vals.update(i as int, old_map.insert(key_of(*k), Seq::empty())));
                    lemma_keyed_update(keys, vals, i as int, old_map.insert(key_of(*k), Seq::empty()));
                    assert forall|j: int| 0 <= j < self.sections@.len() implies sub_keys(
                        #[trigger] self.sections@[j].subsections@,
                    ).no_duplicates() by {
                        if j != i {
                            assert(self.sections@[j] == old(self).sections@[j]);
                        }
                    }
                }
            },
            None => {
                assert(false);
            },
        }
    }

    /// Appends `e` to the list under subsection `c2` of section `c1`.
    pub fn push_entry(&mut self, c1: &(String, usize), c2: &(String, usize), e: (String, usize))
        requires
            old(self).wf(),
            old(self)@.dom().contains(key_of(*c1)),
            old(self)@[key_of(*c1)].dom().contains(key_of(*c2)),
        ensures
            final(self).wf(),
            final(self)@ == old(self)@.insert(
                key_of(*c1),
                old(self)@[key_of(*c1)].insert(key_of(*c2), old(self)@[key_of(*c1)][key_of(*c2)].push(key_of(e))),
            ),
    {
        let ghost keys = sec_keys(self.sections@);
        let ghost vals = sec_vals(self.sections@);
        match self.find_section(c1) {
            Some(i) => {
                proof {
                    lemma_keyed_lookup(keys, vals, i as int);
                }
                let mut sec = self.sections.remove(i);
                let ghost old_map = subs_map(sec.subsections@);
                let ghost ek = key_of(e);
                sec.push_in_sub(c2, e);
                self.sections.insert(i, sec);
                proof {
                    let nv = old_map.insert(key_of(*c2), old_map[key_of(*c2)].push(ek));
                    assert(sec_keys(self.sections@) =~= keys);
                    assert(sec_vals(self.sections@) =~= vals.update(i as int, nv));
                    lemma_keyed_update(keys, vals, i as int, nv);
                    assert forall|j: int| 0 <= j < self.sections@.len() implies sub_keys(
                        #[trigger] self.sections@[j].subsections@,
                    ).no_duplicates() by {
                        if j != i {
                            assert(self.sections@[j] == old(self).sections@[j]);
                        }
                    }
                }
            },
            None => {
                assert(false);
            },
        }
    }
}

} // verus!
