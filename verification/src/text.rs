//! Character-level text primitives with contracts over `Seq<char>`.
//! Byte positions follow the UTF-8 encoding that `str` uses.

use vstd::prelude::*;
use vstd::utf8::*;

verus! {

/// Number of bytes of the UTF-8 encoding of `c`.
pub open spec fn utf8_width(c: char) -> nat {
    if (c as u32) <= 0x7F {
        1
    } else if (c as u32) <= 0x7FF {
        2
    } else if (c as u32) <= 0xFFFF {
        3
    } else {
        4
    }
}

/// Number of bytes of the UTF-8 encoding of `s`, the value `str::len` reports.
pub open spec fn byte_len(s: Seq<char>) -> nat {
    encode_utf8(s).len()
}

pub proof fn lemma_scalar_width(c: char)
    ensures
        encode_scalar(c as u32).len() == utf8_width(c),
{
    char_is_scalar(c);
}

pub proof fn lemma_encode_utf8_concat(a: Seq<char>, b: Seq<char>)
    ensures
        encode_utf8(a + b) == encode_utf8(a) + encode_utf8(b),
    decreases a.len(),
{
    if a.len() == 0 {
        assert(a + b =~= b);
        assert(encode_utf8(a) =~= Seq::<u8>::empty());
        assert(encode_utf8(a) + encode_utf8(b) =~= encode_utf8(b));
    } else {
        assert((a + b).drop_first() =~= a.drop_first() + b);
        lemma_encode_utf8_concat(a.drop_first(), b);
        assert((a + b)[0] == a[0]);
        assert(encode_utf8(a + b) =~= encode_scalar(a[0] as u32) + encode_utf8(a.drop_first() + b));
        assert(encode_utf8(a + b) =~= encode_utf8(a) + encode_utf8(b));
    }
}

pub proof fn lemma_byte_len_concat(a: Seq<char>, b: Seq<char>)
    ensures
        byte_len(a + b) == byte_len(a) + byte_len(b),
{
    lemma_encode_utf8_concat(a, b);
}

pub proof fn lemma_byte_len_push(a: Seq<char>, c: char)
    ensures
        byte_len(a.push(c)) == byte_len(a) + utf8_width(c),
{
    assert(a.push(c) =~= a + seq![c]);
    lemma_encode_utf8_concat(a, seq![c]);
    lemma_scalar_width(c);
    assert(seq![c].drop_first() =~= Seq::<char>::empty());
    assert(encode_utf8(seq![c]) =~= encode_scalar(c as u32) + encode_utf8(Seq::<char>::empty()));
}

/// Byte width of one character in UTF-8.
pub fn char_utf8_width(c: char) -> (w: usize)
    ensures
        w == utf8_width(c),
{
    let v: u32 = c as u32;
    if v <= 0x7F {
        1
    } else if v <= 0x7FF {
        2
    } else if v <= 0xFFFF {
        3
    } else {
        4
    }
}


/// The characters of `s`, in order; its UTF-8 encoding fits in memory.
pub fn chars_of(s: &str) -> (v: Vec<char>)
    ensures
        v@ == s@,
        byte_len(s@) <= usize::MAX,
{
    let bytes = s.as_bytes();
    let _n: usize = bytes.len();
    let mut v: Vec<char> = Vec::new();
    for c in it: s.chars()
        invariant
            it.seq() == s@,
            v@ == it.seq().take(it.index() as int),
    {
        v.push(c);
    }
    v
}


/// The pieces of `s` between occurrences of `sep`, as `str::split` yields
/// them: `n` separators give `n + 1` pieces, empty ones included.
pub open spec fn split_on(s: Seq<char>, sep: char) -> Seq<Seq<char>>
    decreases s.len(),
{
    if s.len() == 0 {
        seq![Seq::<char>::empty()]
    } else {
        let init = split_on(s.drop_last(), sep);
        if s.last() == sep {
            init.push(Seq::<char>::empty())
        } else {
            init.update(init.len() - 1, init.last().push(s.last()))
        }
    }
}

/// The lines of a text: its pieces between newline characters.
pub open spec fn lines_of(s: Seq<char>) -> Seq<Seq<char>> {
    split_on(s, '\n')
}

pub proof fn lemma_split_on_nonempty(s: Seq<char>, sep: char)
    ensures
        split_on(s, sep).len() >= 1,
    decreases s.len(),
{
    if s.len() > 0 {
        lemma_split_on_nonempty(s.drop_last(), sep);
    }
}

/// The view of each element of a vector of character vectors.
pub open spec fn char_rows(v: Seq<Vec<char>>) -> Seq<Seq<char>> {
    v.map_values(|r: Vec<char>| r@)
}

/// Splits `s` at every `sep`, as `str::split` with a one-character pattern.
pub fn split_chars(s: &Vec<char>, sep: char) -> (pieces: Vec<Vec<char>>)
    ensures
        char_rows(pieces@) == split_on(s@, sep),
{
    let mut pieces: Vec<Vec<char>> = Vec::new();
    let mut cur: Vec<char> = Vec::new();
    let mut i: usize = 0;
    while i < s.len()
        invariant
            i <= s.len(),
            char_rows(pieces@).push(cur@) == split_on(s@.take(i as int), sep),
        decreases s.len() - i,
    {
        let c = s[i];
        proof {
            assert(s@.take(i + 1).drop_last() =~= s@.take(i as int));
            assert(s@.take(i + 1).last() == c);
            lemma_split_on_nonempty(s@.take(i as int), sep);
        }
        if c == sep {
            let done = cur;
            pieces.push(done);
            cur = Vec::new();
            proof {
                assert(char_rows(pieces@) =~= split_on(s@.take(i as int), sep));
                assert(char_rows(pieces@).push(cur@) =~= split_on(s@.take(i + 1), sep));
            }
        } else {
            cur.push(c);
            proof {
                let init = split_on(s@.take(i as int), sep);
                assert(char_rows(pieces@).push(cur@) =~= init.update(init.len() - 1, init.last().push(c)));
            }
        }
        i = i + 1;
    }
    pieces.push(cur);
    proof {
        assert(s@.take(s@.len() as int) =~= s@);
        assert(char_rows(pieces@) =~= split_on(s@, sep));
    }
    pieces
}

/// True when `sub` occurs in `s` starting at index `k`.
pub open spec fn occurs_at(s: Seq<char>, sub: Seq<char>, k: int) -> bool {
    0 <= k && k + sub.len() <= s.len() && s.subrange(k, k + sub.len()) == sub
}

/// The first index, from `k` on, at which `sub` occurs in `s`.
pub open spec fn find_from(s: Seq<char>, sub: Seq<char>, k: int) -> Option<int>
    decreases s.len() + 1 - k,
{
    if k < 0 || k + sub.len() > s.len() {
        None
    } else if occurs_at(s, sub, k) {
        Some(k)
    } else {
        find_from(s, sub, k + 1)
    }
}

/// The first index at which `sub` occurs in `s`, as `str::find` locates it
/// (counted in characters here).
pub open spec fn first_occurrence(s: Seq<char>, sub: Seq<char>) -> Option<int> {
    find_from(s, sub, 0)
}

pub open spec fn contains_seq(s: Seq<char>, sub: Seq<char>) -> bool {
    first_occurrence(s, sub) is Some
}

pub open spec fn starts_with_seq(s: Seq<char>, p: Seq<char>) -> bool {
    p.len() <= s.len() && s.subrange(0, p.len() as int) == p
}

pub open spec fn ends_with_seq(s: Seq<char>, p: Seq<char>) -> bool {
    p.len() <= s.len() && s.subrange(s.len() - p.len(), s.len() as int) == p
}

pub proof fn lemma_find_from_found(s: Seq<char>, sub: Seq<char>, k: int)
    requires
        find_from(s, sub, k) is Some,
    ensures
        occurs_at(s, sub, find_from(s, sub, k)->0),
        k <= find_from(s, sub, k)->0,
        forall|j: int| k <= j < find_from(s, sub, k)->0 ==> !occurs_at(s, sub, j),
    decreases s.len() + 1 - k,
{
    if k < 0 || k + sub.len() > s.len() {
    } else if occurs_at(s, sub, k) {
    } else {
        lemma_find_from_found(s, sub, k + 1);
    }
}

pub proof fn lemma_find_from_none(s: Seq<char>, sub: Seq<char>, k: int)
    requires
        0 <= k,
        find_from(s, sub, k) is None,
    ensures
        forall|j: int| k <= j ==> !occurs_at(s, sub, j),
    decreases s.len() + 1 - k,
{
    if k + sub.len() > s.len() {
    } else {
        lemma_find_from_none(s, sub, k + 1);
    }
}

/// True when `s` holds `sub` at index `k`.
fn matches_at(s: &Vec<char>, sub: &Vec<char>, k: usize) -> (r: bool)
    requires
        k + sub.len() <= s.len(),
    ensures
        r == occurs_at(s@, sub@, k as int),
{
    let mut j: usize = 0;
    while j < sub.len()
        invariant
            k + sub.len() <= s.len(),
            j <= sub.len(),
            forall|t: int| 0 <= t < j ==> s@[k + t] == sub@[t],
        decreases sub.len() - j,
    {
        if s[k + j] != sub[j] {
            proof {
                assert(s@.subrange(k as int, k + sub.len())[j as int] != sub@[j as int]);
            }
            return false;
        }
        j = j + 1;
    }
    assert(s@.subrange(k as int, k + sub.len()) =~= sub@);
    true
}

/// First index at which `sub` occurs in `s`.
pub fn find_chars(s: &Vec<char>, sub: &Vec<char>) -> (r: Option<usize>)
    ensures
        r == (match first_occurrence(s@, sub@) {
            Some(k) => Some(k as usize),
            None => None::<usize>,
        }),
{
    if sub.len() > s.len() {
        return None;
    }
    let last: usize = s.len() - sub.len();
    let mut k: usize = 0;
    loop
        invariant
            last + sub.len() == s.len(),
            k <= last,
            find_from(s@, sub@, 0) == find_from(s@, sub@, k as int),
        decreases last - k,
    {
        if matches_at(s, sub, k) {
            return Some(k);
        }
        if k == last {
            assert(find_from(s@, sub@, k + 1) is None);
            return None;
        }
        k = k + 1;
    }
}

/// True when `s` begins with `p`.
pub fn starts_with_chars(s: &Vec<char>, p: &Vec<char>) -> (r: bool)
    ensures
        r == starts_with_seq(s@, p@),
{
    if p.len() > s.len() {
        return false;
    }
    let r = matches_at(s, p, 0);
    r
}

/// True when `s` ends with `p`.
pub fn ends_with_chars(s: &Vec<char>, p: &Vec<char>) -> (r: bool)
    ensures
        r == ends_with_seq(s@, p@),
{
    if p.len() > s.len() {
        return false;
    }
    let r = matches_at(s, p, s.len() - p.len());
    r
}

/// True when `sub` occurs somewhere in `s`.
pub fn contains_chars(s: &Vec<char>, sub: &Vec<char>) -> (r: bool)
    ensures
        r == contains_seq(s@, sub@),
{
    let f = find_chars(s, sub);
    f.is_some()
}

/// True when `a` and `b` hold the same characters.
pub fn chars_eq(a: &Vec<char>, b: &Vec<char>) -> (r: bool)
    ensures
        r == (a@ == b@),
{
    if a.len() != b.len() {
        return false;
    }
    let r = matches_at(a, b, 0);
    proof {
        if r {
            assert(a@.subrange(0, b@.len() as int) =~= a@);
        } else {
            if a@ == b@ {
                assert(a@.subrange(0, b@.len() as int) =~= b@);
            }
        }
    }
    r
}


/// `String::push`: appends one character.
#[verifier::external_body]
fn string_push(s: &mut String, c: char)
    ensures
        final(s)@ == old(s)@.push(c),
{
    s.push(c);
}

/// A `String` holding the characters of `v[from..to]`.
pub fn string_from_range(v: &Vec<char>, from: usize, to: usize) -> (r: String)
    requires
        from <= to <= v.len(),
    ensures
        r@ == v@.subrange(from as int, to as int),
{
    let mut r = String::new();
    let mut i = from;
    while i < to
        invariant
            from <= i <= to <= v.len(),
            r@ == v@.subrange(from as int, i as int),
        decreases to - i,
    {
        string_push(&mut r, v[i]);
        i = i + 1;
        assert(r@ =~= v@.subrange(from as int, i as int));
    }
    r
}

/// A `String` holding the characters of `v`.
pub fn string_from_chars(v: &Vec<char>) -> (r: String)
    ensures
        r@ == v@,
{
    let r = string_from_range(v, 0, v.len());
    assert(v@.subrange(0, v@.len() as int) =~= v@);
    r
}

/// True when the UTF-8 encoding of `v` is shorter than `bound` bytes.
pub fn byte_len_below(v: &Vec<char>, bound: usize) -> (r: bool)
    ensures
        r == (byte_len(v@) < bound),
{
    if bound == 0 {
        return false;
    }
    let mut total: usize = 0;
    let mut i: usize = 0;
    assert(v@.take(0) =~= Seq::<char>::empty());
    assert(encode_utf8(Seq::<char>::empty()) =~= Seq::<u8>::empty());
    while i < v.len()
        invariant
            i <= v.len(),
            total == byte_len(v@.take(i as int)),
            total < bound,
        decreases v.len() - i,
    {
        proof {
            assert(v@.take(i + 1) =~= v@.take(i as int).push(v@[i as int]));
            lemma_byte_len_push(v@.take(i as int), v@[i as int]);
        }
        let w: usize = char_utf8_width(v[i]);
        if w >= bound - total {
            proof {
                lemma_byte_len_prefix_le(v@, i + 1);
            }
            return false;
        }
        total = total + w;
        i = i + 1;
    }
    assert(v@.take(v@.len() as int) =~= v@);
    true
}

pub proof fn lemma_byte_len_prefix_le(s: Seq<char>, k: int)
    requires
        0 <= k <= s.len(),
    ensures
        byte_len(s.take(k)) <= byte_len(s),
{
    assert(s =~= s.take(k) + s.skip(k));
    lemma_byte_len_concat(s.take(k), s.skip(k));
}

/// Number of bytes of the UTF-8 encoding of `v[..k]`.
pub fn prefix_byte_len(v: &Vec<char>, k: usize) -> (r: usize)
    requires
        k <= v.len(),
        byte_len(v@) <= usize::MAX,
    ensures
        r == byte_len(v@.take(k as int)),
{
    let mut total: usize = 0;
    let mut i: usize = 0;
    assert(v@.take(0) =~= Seq::<char>::empty());
    assert(encode_utf8(Seq::<char>::empty()) =~= Seq::<u8>::empty());
    while i < k
        invariant
            i <= k <= v.len(),
            byte_len(v@) <= usize::MAX,
            total == byte_len(v@.take(i as int)),
        decreases k - i,
    {
        proof {
            assert(v@.take(i + 1) =~= v@.take(i as int).push(v@[i as int]));
            lemma_byte_len_push(v@.take(i as int), v@[i as int]);
            lemma_byte_len_prefix_le(v@, i + 1);
        }
        total = total + char_utf8_width(v[i]);
        i = i + 1;
    }
    total
}


pub proof fn lemma_byte_len_at_least_len(s: Seq<char>)
    ensures
        byte_len(s) >= s.len(),
    decreases s.len(),
{
    if s.len() == 0 {
        assert(encode_utf8(s) =~= Seq::<u8>::empty());
    } else {
        lemma_byte_len_at_least_len(s.drop_last());
        assert(s.drop_last().push(s.last()) =~= s);
        lemma_byte_len_push(s.drop_last(), s.last());
    }
}

/// True when every character of `v` takes one byte in UTF-8.
pub fn single_byte_chars(v: &Vec<char>) -> (r: bool)
    ensures
        r == (byte_len(v@) == v@.len()),
{
    let mut i: usize = 0;
    assert(v@.take(0) =~= Seq::<char>::empty());
    assert(encode_utf8(Seq::<char>::empty()) =~= Seq::<u8>::empty());
    while i < v.len()
        invariant
            i <= v.len(),
            byte_len(v@.take(i as int)) == i,
        decreases v.len() - i,
    {
        proof {
            assert(v@.take(i + 1) =~= v@.take(i as int).push(v@[i as int]));
            lemma_byte_len_push(v@.take(i as int), v@[i as int]);
        }
        if char_utf8_width(v[i]) != 1 {
            proof {
                assert(v@ =~= v@.take(i + 1) + v@.skip(i + 1));
                lemma_byte_len_concat(v@.take(i + 1), v@.skip(i + 1));
                lemma_byte_len_at_least_len(v@.skip(i + 1));
            }
            return false;
        }
        i = i + 1;
    }
    assert(v@.take(v@.len() as int) =~= v@);
    true
}


/// `sub` occurs somewhere in `s`.
pub open spec fn occurs_in(s: Seq<char>, sub: Seq<char>) -> bool {
    exists|k: int| occurs_at(s, sub, k)
}

/// Every piece of `split_on(s, sep)` occurs in `s`, and the last one ends
/// `s`.
pub proof fn lemma_split_pieces_occur(s: Seq<char>, sep: char)
    ensures
        forall|i: int|
            0 <= i < split_on(s, sep).len() ==> occurs_in(s, #[trigger] split_on(s, sep)[i]),
        split_on(s, sep).len() >= 1,
        split_on(s, sep).last().len() <= s.len(),
        s.subrange(s.len() - split_on(s, sep).last().len(), s.len() as int) == split_on(s, sep).last(),
    decreases s.len(),
{
    lemma_split_on_nonempty(s, sep);
    if s.len() == 0 {
        let p = split_on(s, sep);
        assert(p[0] =~= Seq::<char>::empty());
        assert(occurs_at(s, p[0], 0)) by {
            assert(s.subrange(0, 0) =~= p[0]);
        }
        assert forall|i: int| 0 <= i < p.len() implies occurs_in(s, #[trigger] p[i]) by {
            assert(i == 0);
            assert(occurs_at(s, p[i], 0));
        }
        assert(s.subrange(0, 0) =~= p.last());
    } else {
        let t = s.drop_last();
        lemma_split_pieces_occur(t, sep);
        let init = split_on(t, sep);
        let p = split_on(s, sep);
        assert forall|i: int| 0 <= i < p.len() implies occurs_in(s, #[trigger] p[i]) by {
            if s.last() == sep {
                if i < init.len() {
                    assert(p[i] == init[i]);
                    assert(occurs_in(t, init[i]));
                    let k = choose|k: int| occurs_at(t, init[i], k);
                    assert(s.subrange(k, k + init[i].len()) =~= t.subrange(k, k + init[i].len()));
                    assert(occurs_at(s, p[i], k));
                } else {
                    assert(p[i] =~= Seq::<char>::empty());
                    assert(s.subrange(0, 0) =~= p[i]);
                    assert(occurs_at(s, p[i], 0));
                }
            } else {
                if i < init.len() - 1 {
                    assert(p[i] == init[i]);
                    assert(occurs_in(t, init[i]));
                    let k = choose|k: int| occurs_at(t, init[i], k);
                    assert(s.subrange(k, k + init[i].len()) =~= t.subrange(k, k + init[i].len()));
                    assert(occurs_at(s, p[i], k));
                } else {
                    let l = init.last();
                    let k = s.len() - (l.len() + 1);
                    assert(p[i] == l.push(s.last()));
                    assert(s.subrange(k, k + l.len() + 1) =~= l.push(s.last()));
                    assert(occurs_at(s, p[i], k));
                }
            }
        }
        if s.last() == sep {
            assert(s.subrange(s.len() - p.last().len(), s.len() as int) =~= p.last());
        } else {
            let l = init.last();
            assert(s.subrange(s.len() - p.last().len(), s.len() as int) =~= l.push(s.last()));
        }
    }
}

/// A sequence that occurs in `s` has a first occurrence.
pub proof fn lemma_occurs_found(s: Seq<char>, sub: Seq<char>, k: int)
    requires
        occurs_at(s, sub, k),
    ensures
        first_occurrence(s, sub) is Some,
{
    if first_occurrence(s, sub) is None {
        lemma_find_from_none(s, sub, 0);
    }
}

/// The UTF-8 bytes of `sub` stand in those of `s` where `sub` occurs.
pub proof fn lemma_occurrence_bytes(s: Seq<char>, sub: Seq<char>, k: int)
    requires
        occurs_at(s, sub, k),
    ensures
        byte_len(s.take(k)) + byte_len(sub) <= byte_len(s),
        encode_utf8(s).subrange(byte_len(s.take(k)) as int, (byte_len(s.take(k)) + byte_len(sub)) as int) == encode_utf8(sub),
{
    let a = s.take(k);
    let rest = s.skip(k + sub.len());
    assert(s =~= a + sub + rest);
    lemma_encode_utf8_concat(a + sub, rest);
    lemma_encode_utf8_concat(a, sub);
    assert(encode_utf8(s).subrange(byte_len(a) as int, (byte_len(a) + byte_len(sub)) as int) =~= encode_utf8(sub));
}

} // verus!
