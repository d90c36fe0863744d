//! Character-level helpers shared by the rest of the crate.
//!
//! Every string is modelled as the sequence of its characters. The public
//! functions of the crate take `&str` and return `String`; in between the text
//! is held in a `Vec<char>`, so that positions are character positions and
//! indexing is constant time.

use vstd::prelude::*;

verus! {

/// `String::push` of the standard library: the string afterwards is the
/// string before with `c` added at the end. Nothing else is claimed.
pub assume_specification[ String::push ](s: &mut String, c: char)
    ensures
        final(s)@ == old(s)@.push(c),
;

/// The characters with the Unicode property `White_Space`.
pub open spec fn is_space(c: char) -> bool {
    ('\u{9}' <= c && c <= '\u{d}') || c == ' ' || c == '\u{85}' || c == '\u{a0}' || c
        == '\u{1680}' || ('\u{2000}' <= c && c <= '\u{200a}') || c == '\u{2028}' || c
        == '\u{2029}' || c == '\u{202f}' || c == '\u{205f}' || c == '\u{3000}'
}

/// The least index at or after `from` that holds no white space, or the
/// length of `s` where only white space follows.
pub open spec fn skip_spaces(s: Seq<char>, from: int) -> int
    decreases s.len() - from,
{
    if 0 <= from < s.len() && is_space(s[from]) {
        skip_spaces(s, from + 1)
    } else {
        from
    }
}

/// The least end `e` with `lo <= e <= to` such that `s[e..to]` is white
/// space only.
pub open spec fn drop_spaces(s: Seq<char>, lo: int, to: int) -> int
    decreases to,
{
    if 0 <= lo < to <= s.len() && is_space(s[to - 1]) {
        drop_spaces(s, lo, to - 1)
    } else {
        to
    }
}

/// `s` without the white space at its two ends.
pub open spec fn trim(s: Seq<char>) -> Seq<char> {
    s.subrange(skip_spaces(s, 0), drop_spaces(s, skip_spaces(s, 0), s.len() as int))
}

/// The least index at or after `from` that holds `c`, or the length of `s`
/// where `c` does not occur from there on.
pub open spec fn index_of(s: Seq<char>, c: char, from: int) -> int
    decreases s.len() - from,
{
    if 0 <= from < s.len() && s[from] != c {
        index_of(s, c, from + 1)
    } else {
        from
    }
}

/// `s` begins with `p`.
pub open spec fn starts_with(s: Seq<char>, p: Seq<char>) -> bool {
    p.len() <= s.len() && s.subrange(0, p.len() as int) == p
}

/// `s` holds `p` at position `at`.
pub open spec fn holds_at(s: Seq<char>, at: int, p: Seq<char>) -> bool {
    0 <= at && at + p.len() <= s.len() && s.subrange(at, at + p.len()) == p
}

/// `s` with every backslash turned into a forward slash.
pub open spec fn forward_slashes(s: Seq<char>) -> Seq<char> {
    Seq::new(
        s.len(),
        |i: int|
            if s[i] == '\\' {
                '/'
            } else {
                s[i]
            },
    )
}

/// `skip_spaces` goes over white space only, and stops at the first
/// character that is none.
pub proof fn lemma_skip_spaces_bounds(s: Seq<char>, from: int)
    requires
        0 <= from <= s.len(),
    ensures
        from <= skip_spaces(s, from) <= s.len(),
        forall|k: int| from <= k < skip_spaces(s, from) ==> is_space(#[trigger] s[k]),
        skip_spaces(s, from) < s.len() ==> !is_space(s[skip_spaces(s, from)]),
    decreases s.len() - from,
{
    if from < s.len() && is_space(s[from]) {
        lemma_skip_spaces_bounds(s, from + 1);
    }
}

/// `drop_spaces` goes back over white space only, and stops behind the last
/// character that is none.
pub proof fn lemma_drop_spaces_bounds(s: Seq<char>, lo: int, to: int)
    requires
        0 <= lo <= to <= s.len(),
    ensures
        lo <= drop_spaces(s, lo, to) <= to,
        forall|k: int| drop_spaces(s, lo, to) <= k < to ==> is_space(#[trigger] s[k]),
        lo < drop_spaces(s, lo, to) ==> !is_space(s[drop_spaces(s, lo, to) - 1]),
    decreases to,
{
    if lo < to && is_space(s[to - 1]) {
        lemma_drop_spaces_bounds(s, lo, to - 1);
    }
}

/// `index_of` gives the place of the first `c` from `from` on.
pub proof fn lemma_index_of_bounds(s: Seq<char>, c: char, from: int)
    requires
        0 <= from <= s.len(),
    ensures
        from <= index_of(s, c, from) <= s.len(),
        forall|k: int| from <= k < index_of(s, c, from) ==> #[trigger] s[k] != c,
        index_of(s, c, from) < s.len() ==> s[index_of(s, c, from)] == c,
    decreases s.len() - from,
{
    if from < s.len() && s[from] != c {
        lemma_index_of_bounds(s, c, from + 1);
    }
}

/// The first `c` from `from` on is where `index_of` says: at `p`, if `c`
/// stands there and nowhere between `from` and `p`.
pub proof fn lemma_index_of_is(s: Seq<char>, c: char, from: int, p: int)
    requires
        0 <= from <= p <= s.len(),
        forall|k: int| from <= k < p ==> #[trigger] s[k] != c,
        p < s.len() ==> s[p] == c,
    ensures
        index_of(s, c, from) == p,
    decreases p - from,
{
    if from < p {
        lemma_index_of_is(s, c, from + 1, p);
    }
}

/// The white space from `from` on ends where `skip_spaces` says: at `p`, if
/// there is white space only between `from` and `p`, and none at `p`.
pub proof fn lemma_skip_spaces_is(s: Seq<char>, from: int, p: int)
    requires
        0 <= from <= p <= s.len(),
        forall|k: int| from <= k < p ==> is_space(#[trigger] s[k]),
        p < s.len() ==> !is_space(s[p]),
    ensures
        skip_spaces(s, from) == p,
    decreases p - from,
{
    if from < p {
        lemma_skip_spaces_is(s, from + 1, p);
    }
}

/// The white space before `to` starts where `drop_spaces` says: at `p`, if
/// there is white space only between `p` and `to`, and none before `p`.
pub proof fn lemma_drop_spaces_is(s: Seq<char>, lo: int, to: int, p: int)
    requires
        0 <= lo <= p <= to <= s.len(),
        forall|k: int| p <= k < to ==> is_space(#[trigger] s[k]),
        lo < p ==> !is_space(s[p - 1]),
    ensures
        drop_spaces(s, lo, to) == p,
    decreases to - p,
{
    if p < to {
        lemma_drop_spaces_is(s, lo, to - 1, p);
    }
}

/// What trimming is: the piece of the text that is left when all the white
/// space at its two ends is cut off. Whatever piece has white space only
/// before it and after it, and none at its own two ends, is the trimmed
/// text.
pub proof fn lemma_trim_is(s: Seq<char>, a: int, b: int)
    requires
        0 <= a <= b <= s.len(),
        forall|k: int| 0 <= k < a ==> is_space(#[trigger] s[k]),
        forall|k: int| b <= k < s.len() ==> is_space(#[trigger] s[k]),
        a < b ==> !is_space(s[a]) && !is_space(s[b - 1]),
    ensures
        trim(s) == s.subrange(a, b),
{
    if a < b {
        lemma_skip_spaces_is(s, 0, a);
        lemma_drop_spaces_is(s, a, s.len() as int, b);
    } else {
        lemma_skip_spaces_is(s, 0, s.len() as int);
        assert(trim(s) =~= s.subrange(a, b));
    }
}

/// Trimming twice is the same as trimming once.
pub proof fn lemma_trim_is_idempotent(s: Seq<char>)
    ensures
        trim(trim(s)) == trim(s),
{
    lemma_trim_is_tight(s);
    let t = trim(s);
    lemma_trim_is(t, 0, t.len() as int);
    assert(t.subrange(0, t.len() as int) =~= t);
}

/// A trimmed text neither begins nor ends with white space, and it is a
/// piece of the text it was taken from.
pub proof fn lemma_trim_is_tight(s: Seq<char>)
    ensures
        trim(s).len() <= s.len(),
        trim(s).len() > 0 ==> !is_space(trim(s).first()) && !is_space(trim(s).last()),
{
    let a = skip_spaces(s, 0);
    lemma_skip_spaces_bounds(s, 0);
    lemma_drop_spaces_bounds(s, a, s.len() as int);
}

/// Tells whether a character is white space.
pub fn is_space_char(c: char) -> (b: bool)
    ensures
        b == is_space(c),
{
    ('\u{9}' <= c && c <= '\u{d}') || c == ' ' || c == '\u{85}' || c == '\u{a0}' || c
        == '\u{1680}' || ('\u{2000}' <= c && c <= '\u{200a}') || c == '\u{2028}' || c
        == '\u{2029}' || c == '\u{202f}' || c == '\u{205f}' || c == '\u{3000}'
}

/// The characters of a string, in order.
pub fn chars_of(s: &str) -> (v: Vec<char>)
    ensures
        v@ == s@,
{
    let mut v: Vec<char> = Vec::new();
    for c in it: s.chars()
        invariant
            it.seq() == s@,
            v@ == it.seq().take(it.index()),
    {
        v.push(c);
    }
    v
}

/// The string made of the given characters, in order.
pub fn string_of(v: &Vec<char>) -> (s: String)
    ensures
        s@ == v@,
{
    let mut s = String::new();
    let mut i: usize = 0;
    while i < v.len()
        invariant
            i <= v.len(),
            s@ == v@.take(i as int),
        decreases v.len() - i,
    {
        s.push(v[i]);
        i += 1;
    }
    s
}

/// A copy of `v[lo..hi]`.
pub(crate) fn slice_of(v: &Vec<char>, lo: usize, hi: usize) -> (r: Vec<char>)
    requires
        lo <= hi <= v.len(),
    ensures
        r@ == v@.subrange(lo as int, hi as int),
{
    let mut r: Vec<char> = Vec::new();
    let mut i: usize = lo;
    while i < hi
        invariant
            lo <= i <= hi <= v.len(),
            r@ == v@.subrange(lo as int, i as int),
        decreases hi - i,
    {
        r.push(v[i]);
        i += 1;
    }
    r
}

/// Adds the characters of `tail` at the end of `out`.
pub fn append(out: &mut Vec<char>, tail: &Vec<char>)
    ensures
        final(out)@ == old(out)@ + tail@,
{
    out.extend_from_slice(tail.as_slice());
}

pub(crate) fn skip_spaces_from(v: &Vec<char>, from: usize) -> (r: usize)
    requires
        from <= v.len(),
    ensures
        r == skip_spaces(v@, from as int),
        from <= r <= v.len(),
{
    let mut i: usize = from;
    while i < v.len() && is_space_char(v[i])
        invariant
            from <= i <= v.len(),
            skip_spaces(v@, from as int) == skip_spaces(v@, i as int),
        decreases v.len() - i,
    {
        i += 1;
    }
    i
}

/// The text without the white space at its two ends.
pub fn trimmed(v: &Vec<char>) -> (r: Vec<char>)
    ensures
        r@ == trim(v@),
{
    let a = skip_spaces_from(v, 0);
    let mut b: usize = v.len();
    while a < b && is_space_char(v[b - 1])
        invariant
            a <= b <= v.len(),
            drop_spaces(v@, a as int, v.len() as int) == drop_spaces(v@, a as int, b as int),
        decreases b,
    {
        b -= 1;
    }
    slice_of(v, a, b)
}

pub(crate) fn find_char(v: &Vec<char>, c: char, from: usize) -> (r: usize)
    requires
        from <= v.len(),
    ensures
        r == index_of(v@, c, from as int),
        from <= r <= v.len(),
{
    let mut i: usize = from;
    while i < v.len() && v[i] != c
        invariant
            from <= i <= v.len(),
            index_of(v@, c, from as int) == index_of(v@, c, i as int),
        decreases v.len() - i,
    {
        i += 1;
    }
    i
}

pub(crate) fn has_at(v: &Vec<char>, at: usize, p: &Vec<char>) -> (b: bool)
    requires
        at <= v.len(),
    ensures
        b == holds_at(v@, at as int, p@),
{
    if p.len() > v.len() - at {
        return false;
    }
    let mut i: usize = 0;
    while i < p.len()
        invariant
            i <= p.len(),
            at + p.len() <= v.len(),
            v@.subrange(at as int, at + i) == p@.take(i as int),
        decreases p.len() - i,
    {
        if v[at + i] != p[i] {
            proof {
                assert(v@.subrange(at as int, at + p.len())[i as int] == v@[at + i]);
            }
            return false;
        }
        proof {
            assert(v@.subrange(at as int, at + i + 1) =~= v@.subrange(at as int, at + i).push(
                v@[at + i],
            ));
            assert(p@.take(i + 1) =~= p@.take(i as int).push(p@[i as int]));
        }
        i += 1;
    }
    proof {
        assert(p@.take(p.len() as int) =~= p@);
    }
    true
}

/// Tells whether `v` begins with `p`.
pub fn begins_with(v: &Vec<char>, p: &Vec<char>) -> (b: bool)
    ensures
        b == starts_with(v@, p@),
{
    has_at(v, 0, p)
}

/// The text with every backslash turned into a forward slash.
pub fn with_forward_slashes(v: &Vec<char>) -> (r: Vec<char>)
    ensures
        r@ == forward_slashes(v@),
{
    let mut r: Vec<char> = Vec::new();
    let mut i: usize = 0;
    while i < v.len()
        invariant
            i <= v.len(),
            r@ == forward_slashes(v@).take(i as int),
        decreases v.len() - i,
    {
        let c = v[i];
        r.push(if c == '\\' {
            '/'
        } else {
            c
        });
        i += 1;
    }
    r
}

} // verus!
