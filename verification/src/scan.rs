//! Finding the asset references in a document.
//!
//! Three embedding syntaxes are recognised, each by a small grammar of its
//! own. The rest of the document is opaque: it is never parsed, and never
//! changed.
//!
//! * markdown image: `![alt](destination title)`
//! * HTML image tag: `<img ... src="destination" ...>`
//! * raw call: `#fig("destination"` or `#image("destination"`
//!
//! A reference is described by the span it covers and by three texts: what
//! is written back before the destination, the destination as it stands in
//! the document, and what is written back after it.

use crate::text::{
    append, find_char, has_at, holds_at, index_of, skip_spaces, skip_spaces_from, slice_of,
    string_of, trim, trimmed,
};
use vstd::prelude::*;

verus! {

/// The syntax a reference was found in.
#[derive(Clone, Copy, Debug, PartialEq, Eq, Structural)]
pub enum SyntaxKind {
    MarkdownImage,
    HtmlImg,
    RawCall,
}

impl SyntaxKind {
    /// The syntax takes angle brackets round a destination that holds a
    /// space or a parenthesis: so it is in markdown, and nowhere else.
    pub open spec fn wraps(self) -> bool {
        self == SyntaxKind::MarkdownImage
    }

    /// Tells whether the syntax takes angle brackets round a destination.
    pub fn takes_angle_brackets(self) -> (b: bool)
        ensures
            b == self.wraps(),
    {
        match self {
            SyntaxKind::MarkdownImage => true,
            SyntaxKind::HtmlImg => false,
            SyntaxKind::RawCall => false,
        }
    }
}

/// One asset reference found in a document.
#[derive(Debug)]
pub struct Reference {
    pub kind: SyntaxKind,
    /// The position of the first character of the reference.
    pub start: usize,
    /// The position after its last character.
    pub end: usize,
    /// What is written back before the destination.
    pub prefix: String,
    /// The destination as it stands in the document.
    pub raw_path: String,
    /// What is written back after the destination.
    pub suffix: String,
}

/// A reference as text.
pub struct ReferenceView {
    pub kind: SyntaxKind,
    pub start: int,
    pub end: int,
    pub prefix: Seq<char>,
    pub raw_path: Seq<char>,
    pub suffix: Seq<char>,
}

impl View for Reference {
    type V = ReferenceView;

    open spec fn view(&self) -> ReferenceView {
        ReferenceView {
            kind: self.kind,
            start: self.start as int,
            end: self.end as int,
            prefix: self.prefix@,
            raw_path: self.raw_path@,
            suffix: self.suffix@,
        }
    }
}

/// The views of a list of references.
pub open spec fn views(refs: Seq<Reference>) -> Seq<ReferenceView> {
    Seq::new(refs.len(), |i: int| refs[i]@)
}

/// The two quote characters, `"` and `'`.
pub open spec fn is_quote(c: char) -> bool {
    c == '"' || c == '\''
}

/// The least index at or after `from` that holds a quote character, or the
/// length of `s`.
pub open spec fn next_quote(s: Seq<char>, from: int) -> int
    decreases s.len() - from,
{
    if 0 <= from < s.len() && !is_quote(s[from]) {
        next_quote(s, from + 1)
    } else {
        from
    }
}

/// Where the body of a markdown image splits into destination and title: at
/// the first space or tab that is not between double quotes, looking from
/// `from` on; the length of `s` where there is none. `quoted` says whether
/// `from` lies between double quotes.
pub open spec fn split_point(s: Seq<char>, from: int, quoted: bool) -> int
    decreases s.len() - from,
{
    if from < 0 || from >= s.len() {
        s.len() as int
    } else if s[from] == '"' {
        split_point(s, from + 1, !quoted)
    } else if (s[from] == ' ' || s[from] == '\t') && !quoted {
        from
    } else {
        split_point(s, from + 1, quoted)
    }
}

/// The destination in the body of a markdown image.
pub open spec fn markdown_destination(body: Seq<char>) -> Seq<char> {
    let inside = trim(body);
    trim(inside.take(split_point(inside, 0, false)))
}

/// What follows the destination of a markdown image: the title, if there is
/// one, after a single space, and the closing parenthesis.
pub open spec fn markdown_suffix(body: Seq<char>) -> Seq<char> {
    let inside = trim(body);
    let at = split_point(inside, 0, false);
    if at < inside.len() {
        seq![' '] + trim(inside.skip(at)) + seq![')']
    } else {
        seq![')']
    }
}

/// The markdown image that starts at `i`, if there is one: `![`, an
/// alternative text without `]`, `](`, a body without `)` that is not empty,
/// and `)`.
pub open spec fn markdown_at(t: Seq<char>, i: int) -> Option<ReferenceView> {
    if 0 <= i && i + 1 < t.len() && t[i] == '!' && t[i + 1] == '[' {
        let j = index_of(t, ']', i + 2);
        if j + 1 < t.len() && t[j + 1] == '(' {
            let k = index_of(t, ')', j + 2);
            if j + 2 < k < t.len() {
                Some(
                    ReferenceView {
                        kind: SyntaxKind::MarkdownImage,
                        start: i,
                        end: k + 1,
                        prefix: seq!['!', '['] + t.subrange(i + 2, j) + seq![']', '('],
                        raw_path: markdown_destination(t.subrange(j + 2, k)),
                        suffix: markdown_suffix(t.subrange(j + 2, k)),
                    },
                )
            } else {
                None
            }
        } else {
            None
        }
    } else {
        None
    }
}

/// How an HTML image tag begins.
pub open spec fn img_open() -> Seq<char> {
    seq!['<', 'i', 'm', 'g']
}

/// The attribute name with its equals sign.
pub open spec fn src_equals() -> Seq<char> {
    seq!['s', 'r', 'c', '=']
}

/// The end of the `src` attribute that starts at `p`, if one does: white
/// space, `src=`, a quote character, a value without quote characters that
/// is not empty, a quote character, and then text without `>` up to a `>`.
/// The result is the position of that `>`.
pub open spec fn src_attribute_at(t: Seq<char>, p: int) -> Option<int> {
    let q = skip_spaces(t, p);
    if 0 <= p < q && holds_at(t, q, src_equals()) && q + 4 < t.len() && is_quote(t[q + 4]) {
        let v = next_quote(t, q + 5);
        if q + 5 < v < t.len() {
            let w = index_of(t, '>', v + 1);
            if w < t.len() {
                Some(w)
            } else {
                None
            }
        } else {
            None
        }
    } else {
        None
    }
}

/// The first position at or after `p` at which a `src` attribute starts,
/// with no `>` before it; `None` where there is none.
pub open spec fn src_attribute_from(t: Seq<char>, p: int) -> Option<int>
    decreases t.len() - p,
{
    if p < 0 || p >= t.len() {
        None
    } else if src_attribute_at(t, p).is_some() {
        Some(p)
    } else if t[p] == '>' {
        None
    } else {
        src_attribute_from(t, p + 1)
    }
}

/// The HTML image tag that starts at `i`, if there is one: `<img`, then the
/// first `src` attribute that can be read before the tag ends, and the rest
/// of the tag. The white space before `src` is written back as one space.
pub open spec fn html_at(t: Seq<char>, i: int) -> Option<ReferenceView> {
    if holds_at(t, i, img_open()) && src_attribute_from(t, i + 4).is_some() {
        let p = src_attribute_from(t, i + 4).unwrap();
        let q = skip_spaces(t, p);
        let v = next_quote(t, q + 5);
        let w = index_of(t, '>', v + 1);
        Some(
            ReferenceView {
                kind: SyntaxKind::HtmlImg,
                start: i,
                end: w + 1,
                prefix: t.subrange(i, p) + seq![' '] + src_equals() + seq![t[q + 4]],
                raw_path: t.subrange(q + 5, v),
                suffix: t.subrange(v, w + 1),
            },
        )
    } else {
        None
    }
}

/// The length of the function name that stands at `i`: 3 for `fig`, 5 for
/// `image`, 0 for anything else.
pub open spec fn call_name_len(t: Seq<char>, i: int) -> int {
    if holds_at(t, i, seq!['f', 'i', 'g']) {
        3
    } else if holds_at(t, i, seq!['i', 'm', 'a', 'g', 'e']) {
        5
    } else {
        0
    }
}

/// The raw call that starts at `i`, if there is one: `#`, the name `fig` or
/// `image`, `(`, white space, a quote character, a value without quote
/// characters that is not empty, and a quote character. The white space is
/// not written back, and the value is closed with the quote character that
/// opened it.
pub open spec fn raw_call_at(t: Seq<char>, i: int) -> Option<ReferenceView> {
    let n = call_name_len(t, i + 1);
    if 0 <= i < t.len() && t[i] == '#' && n > 0 && i + 1 + n < t.len() && t[i + 1 + n] == '(' {
        let q = skip_spaces(t, i + 2 + n);
        if q < t.len() && is_quote(t[q]) {
            let v = next_quote(t, q + 1);
            if q + 1 < v < t.len() {
                Some(
                    ReferenceView {
                        kind: SyntaxKind::RawCall,
                        start: i,
                        end: v + 1,
                        prefix: t.subrange(i, i + 2 + n) + seq![t[q]],
                        raw_path: t.subrange(q + 1, v),
                        suffix: seq![t[q]],
                    },
                )
            } else {
                None
            }
        } else {
            None
        }
    } else {
        None
    }
}

/// The reference of the given kind that starts at `i`, if there is one.
pub open spec fn reference_at(kind: SyntaxKind, t: Seq<char>, i: int) -> Option<ReferenceView> {
    match kind {
        SyntaxKind::MarkdownImage => markdown_at(t, i),
        SyntaxKind::HtmlImg => html_at(t, i),
        SyntaxKind::RawCall => raw_call_at(t, i),
    }
}

/// The references of the given kind in `t[from..]`, from left to right: the
/// first one that starts at or after `from`, then those that follow its end.
pub open spec fn references_from(kind: SyntaxKind, t: Seq<char>, from: int) -> Seq<ReferenceView>
    decreases t.len() - from,
{
    if from < 0 || from >= t.len() {
        Seq::empty()
    } else {
        match reference_at(kind, t, from) {
            Some(r) => if from < r.end <= t.len() {
                seq![r] + references_from(kind, t, r.end)
            } else {
                Seq::empty()
            },
            None => references_from(kind, t, from + 1),
        }
    }
}

/// The references of the given kind in a document.
pub open spec fn references(kind: SyntaxKind, t: Seq<char>) -> Seq<ReferenceView> {
    references_from(kind, t, 0)
}

/// The references lie in `t[from..]`, one after the other, and none is
/// empty.
pub open spec fn in_order(refs: Seq<ReferenceView>, from: int, len: int) -> bool
    decreases refs.len(),
{
    if refs.len() == 0 {
        from <= len
    } else {
        from <= refs[0].start < refs[0].end <= len && in_order(
            refs.drop_first(),
            refs[0].end,
            len,
        )
    }
}

/// `next_quote` gives the place of the first quote character from `from`
/// on.
pub proof fn lemma_next_quote_bounds(s: Seq<char>, from: int)
    requires
        0 <= from <= s.len(),
    ensures
        from <= next_quote(s, from) <= s.len(),
        forall|k: int| from <= k < next_quote(s, from) ==> !is_quote(#[trigger] s[k]),
        next_quote(s, from) < s.len() ==> is_quote(s[next_quote(s, from)]),
    decreases s.len() - from,
{
    if from < s.len() && !is_quote(s[from]) {
        lemma_next_quote_bounds(s, from + 1);
    }
}

/// Where the search finds a `src` attribute, one starts there, and no `>`
/// stands before it.
pub proof fn lemma_src_attribute_from(t: Seq<char>, p: int)
    requires
        0 <= p <= t.len(),
    ensures
        match src_attribute_from(t, p) {
            Some(a) => p <= a < t.len() && src_attribute_at(t, a).is_some() && forall|k: int|
                p <= k < a ==> #[trigger] t[k] != '>',
            None => true,
        },
    decreases t.len() - p,
{
    if p < t.len() && src_attribute_at(t, p).is_none() && t[p] != '>' {
        lemma_src_attribute_from(t, p + 1);
    }
}

/// A reference lies inside the document, starts where it was looked for and
/// is not empty.
pub proof fn lemma_reference_at(kind: SyntaxKind, t: Seq<char>, i: int)
    ensures
        match reference_at(kind, t, i) {
            Some(r) => r.kind == kind && r.start == i && 0 <= i < r.end <= t.len(),
            None => true,
        },
{
    match kind {
        SyntaxKind::MarkdownImage => {
            if 0 <= i && i + 1 < t.len() {
                crate::text::lemma_index_of_bounds(t, ']', i + 2);
                let j = index_of(t, ']', i + 2);
                if j + 1 < t.len() {
                    crate::text::lemma_index_of_bounds(t, ')', j + 2);
                }
            }
        },
        SyntaxKind::HtmlImg => {
            if holds_at(t, i, img_open()) && src_attribute_from(t, i + 4).is_some() {
                lemma_src_attribute_from(t, i + 4);
                let p = src_attribute_from(t, i + 4).unwrap();
                crate::text::lemma_skip_spaces_bounds(t, p);
                let q = skip_spaces(t, p);
                lemma_next_quote_bounds(t, q + 5);
                let v = next_quote(t, q + 5);
                crate::text::lemma_index_of_bounds(t, '>', v + 1);
            }
        },
        SyntaxKind::RawCall => {
            let n = call_name_len(t, i + 1);
            if 0 <= i < t.len() && n > 0 && i + 1 + n < t.len() {
                crate::text::lemma_skip_spaces_bounds(t, i + 2 + n);
                let q = skip_spaces(t, i + 2 + n);
                if q < t.len() {
                    lemma_next_quote_bounds(t, q + 1);
                }
            }
        },
    }
}

/// The references of a document lie inside it, from left to right, without
/// overlap, and each is of the kind that was asked for.
pub proof fn lemma_references_in_order(kind: SyntaxKind, t: Seq<char>, from: int)
    requires
        0 <= from <= t.len(),
    ensures
        in_order(references_from(kind, t, from), from, t.len() as int),
        forall|k: int|
            0 <= k < references_from(kind, t, from).len() ==> (#[trigger] references_from(
                kind,
                t,
                from,
            )[k]).kind == kind,
    decreases t.len() - from,
{
    if from < t.len() {
        lemma_reference_at(kind, t, from);
        match reference_at(kind, t, from) {
            Some(r) => {
                lemma_references_in_order(kind, t, r.end);
                let rest = references_from(kind, t, r.end);
                let all = seq![r] + rest;
                assert(all.drop_first() =~= rest);
                assert forall|k: int| 0 <= k < all.len() implies (#[trigger] all[k]).kind
                    == kind by {
                    if k > 0 {
                        assert(all[k] == rest[k - 1]);
                    }
                }
            },
            None => {
                lemma_references_in_order(kind, t, from + 1);
                lemma_in_order_from_earlier(references_from(kind, t, from + 1), from, from + 1, t.len() as int);
            },
        }
    }
}

/// References that lie in order from `b` on do so from any earlier `a` on.
pub proof fn lemma_in_order_from_earlier(refs: Seq<ReferenceView>, a: int, b: int, len: int)
    requires
        a <= b,
        in_order(refs, b, len),
    ensures
        in_order(refs, a, len),
{
}

fn quote_char(c: char) -> (b: bool)
    ensures
        b == is_quote(c),
{
    c == '"' || c == '\''
}

fn find_quote(t: &Vec<char>, from: usize) -> (r: usize)
    requires
        from <= t.len(),
    ensures
        r == next_quote(t@, from as int),
        from <= r <= t.len(),
{
    let mut i: usize = from;
    while i < t.len() && !quote_char(t[i])
        invariant
            from <= i <= t.len(),
            next_quote(t@, from as int) == next_quote(t@, i as int),
        decreases t.len() - i,
    {
        i += 1;
    }
    i
}

fn find_split(s: &Vec<char>) -> (r: usize)
    ensures
        r == split_point(s@, 0, false),
        r <= s.len(),
{
    let mut i: usize = 0;
    let mut quoted = false;
    while i < s.len()
        invariant
            i <= s.len(),
            split_point(s@, 0, false) == split_point(s@, i as int, quoted),
        decreases s.len() - i,
    {
        let c = s[i];
        if c == '"' {
            quoted = !quoted;
        } else if (c == ' ' || c == '\t') && !quoted {
            return i;
        }
        i += 1;
    }
    i
}

fn markdown_parts(body: &Vec<char>) -> (r: (Vec<char>, Vec<char>))
    ensures
        r.0@ == markdown_destination(body@),
        r.1@ == markdown_suffix(body@),
{
    let inside = trimmed(body);
    let at = find_split(&inside);
    let head = slice_of(&inside, 0, at);
    let destination = trimmed(&head);
    let mut suffix: Vec<char> = Vec::new();
    if at < inside.len() {
        let tail = slice_of(&inside, at, inside.len());
        let title = trimmed(&tail);
        suffix.push(' ');
        append(&mut suffix, &title);
        suffix.push(')');
        proof {
            assert(suffix@ =~= seq![' '] + title@ + seq![')']);
        }
    } else {
        suffix.push(')');
        proof {
            assert(suffix@ =~= seq![')']);
        }
    }
    (destination, suffix)
}

fn markdown_here(t: &Vec<char>, i: usize) -> (r: Option<Reference>)
    requires
        i < t.len(),
    ensures
        match r {
            Some(x) => markdown_at(t@, i as int) == Some(x@),
            None => markdown_at(t@, i as int).is_none(),
        },
{
    let n = t.len();
    if !(i + 1 < n && t[i] == '!' && t[i + 1] == '[') {
        return None;
    }
    let j = find_char(t, ']', i + 2);
    if !(j < n && j + 1 < n && t[j + 1] == '(') {
        return None;
    }
    let k = find_char(t, ')', j + 2);
    if !(j + 2 < k && k < n) {
        return None;
    }
    let alt = slice_of(t, i + 2, j);
    let body = slice_of(t, j + 2, k);
    let (destination, suffix) = markdown_parts(&body);
    let mut prefix: Vec<char> = Vec::new();
    prefix.push('!');
    prefix.push('[');
    append(&mut prefix, &alt);
    prefix.push(']');
    prefix.push('(');
    proof {
        assert(prefix@ =~= seq!['!', '['] + alt@ + seq![']', '(']);
    }
    Some(
        Reference {
            kind: SyntaxKind::MarkdownImage,
            start: i,
            end: k + 1,
            prefix: string_of(&prefix),
            raw_path: string_of(&destination),
            suffix: string_of(&suffix),
        },
    )
}

/// The position of the `>` that ends the `src` attribute starting at `p`, if
/// one starts there.
fn src_attribute_here(t: &Vec<char>, p: usize) -> (r: Option<usize>)
    requires
        p < t.len(),
    ensures
        match r {
            Some(w) => src_attribute_at(t@, p as int) == Some(w as int) && w < t.len(),
            None => src_attribute_at(t@, p as int).is_none(),
        },
{
    let n = t.len();
    let q = skip_spaces_from(t, p);
    if q == p {
        return None;
    }
    let word = vec!['s', 'r', 'c', '='];
    proof {
        assert(word@ =~= src_equals());
    }
    if !has_at(t, q, &word) {
        return None;
    }
    if !(q + 4 < n && quote_char(t[q + 4])) {
        return None;
    }
    let v = find_quote(t, q + 5);
    if !(q + 5 < v && v < n) {
        return None;
    }
    let w = find_char(t, '>', v + 1);
    if w < n {
        Some(w)
    } else {
        None
    }
}

fn src_attribute_after(t: &Vec<char>, from: usize) -> (r: Option<usize>)
    requires
        from <= t.len(),
    ensures
        match r {
            Some(p) => src_attribute_from(t@, from as int) == Some(p as int) && p < t.len(),
            None => src_attribute_from(t@, from as int).is_none(),
        },
{
    let mut p: usize = from;
    while p < t.len()
        invariant
            from <= p <= t.len(),
            src_attribute_from(t@, from as int) == src_attribute_from(t@, p as int),
        decreases t.len() - p,
    {
        if src_attribute_here(t, p).is_some() {
            return Some(p);
        }
        if t[p] == '>' {
            return None;
        }
        p += 1;
    }
    None
}

fn html_here(t: &Vec<char>, i: usize) -> (r: Option<Reference>)
    requires
        i < t.len(),
    ensures
        match r {
            Some(x) => html_at(t@, i as int) == Some(x@),
            None => html_at(t@, i as int).is_none(),
        },
{
    let open = vec!['<', 'i', 'm', 'g'];
    proof {
        assert(open@ =~= img_open());
    }
    if !has_at(t, i, &open) {
        return None;
    }
    let p = match src_attribute_after(t, i + 4) {
        Some(p) => p,
        None => {
            return None;
        },
    };
    proof {
        lemma_src_attribute_from(t@, i + 4);
        crate::text::lemma_skip_spaces_bounds(t@, p as int);
        lemma_next_quote_bounds(t@, skip_spaces(t@, p as int) + 5);
        crate::text::lemma_index_of_bounds(
            t@,
            '>',
            next_quote(t@, skip_spaces(t@, p as int) + 5) + 1,
        );
    }
    let q = skip_spaces_from(t, p);
    let v = find_quote(t, q + 5);
    let w = find_char(t, '>', v + 1);
    let mut prefix = slice_of(t, i, p);
    prefix.push(' ');
    prefix.push('s');
    prefix.push('r');
    prefix.push('c');
    prefix.push('=');
    prefix.push(t[q + 4]);
    proof {
        assert(prefix@ =~= t@.subrange(i as int, p as int) + seq![' '] + src_equals() + seq![
            t@[q + 4],
        ]);
    }
    let value = slice_of(t, q + 5, v);
    let suffix = slice_of(t, v, w + 1);
    Some(
        Reference {
            kind: SyntaxKind::HtmlImg,
            start: i,
            end: w + 1,
            prefix: string_of(&prefix),
            raw_path: string_of(&value),
            suffix: string_of(&suffix),
        },
    )
}

fn name_len(t: &Vec<char>, i: usize) -> (n: usize)
    requires
        i <= t.len(),
    ensures
        n == call_name_len(t@, i as int),
        n == 0 || n == 3 || n == 5,
        n > 0 ==> i + n <= t.len(),
{
    let fig = vec!['f', 'i', 'g'];
    let image = vec!['i', 'm', 'a', 'g', 'e'];
    proof {
        assert(fig@ =~= seq!['f', 'i', 'g']);
        assert(image@ =~= seq!['i', 'm', 'a', 'g', 'e']);
    }
    if has_at(t, i, &fig) {
        3
    } else if has_at(t, i, &image) {
        5
    } else {
        0
    }
}

fn raw_call_here(t: &Vec<char>, i: usize) -> (r: Option<Reference>)
    requires
        i < t.len(),
    ensures
        match r {
            Some(x) => raw_call_at(t@, i as int) == Some(x@),
            None => raw_call_at(t@, i as int).is_none(),
        },
{
    let len = t.len();
    if t[i] != '#' {
        return None;
    }
    let n = name_len(t, i + 1);
    if n == 0 {
        return None;
    }
    if !(i + 1 + n < len && t[i + 1 + n] == '(') {
        return None;
    }
    let q = skip_spaces_from(t, i + 2 + n);
    if !(q < len && quote_char(t[q])) {
        return None;
    }
    let v = find_quote(t, q + 1);
    if !(q + 1 < v && v < len) {
        return None;
    }
    let mut prefix = slice_of(t, i, i + 2 + n);
    prefix.push(t[q]);
    let value = slice_of(t, q + 1, v);
    let mut suffix: Vec<char> = Vec::new();
    suffix.push(t[q]);
    proof {
        assert(prefix@ =~= t@.subrange(i as int, i + 2 + n) + seq![t@[q as int]]);
        assert(suffix@ =~= seq![t@[q as int]]);
    }
    Some(
        Reference {
            kind: SyntaxKind::RawCall,
            start: i,
            end: v + 1,
            prefix: string_of(&prefix),
            raw_path: string_of(&value),
            suffix: string_of(&suffix),
        },
    )
}

fn reference_here(kind: SyntaxKind, t: &Vec<char>, i: usize) -> (r: Option<Reference>)
    requires
        i < t.len(),
    ensures
        match r {
            Some(x) => reference_at(kind, t@, i as int) == Some(x@),
            None => reference_at(kind, t@, i as int).is_none(),
        },
{
    match kind {
        SyntaxKind::MarkdownImage => markdown_here(t, i),
        SyntaxKind::HtmlImg => html_here(t, i),
        SyntaxKind::RawCall => raw_call_here(t, i),
    }
}

/// The references of one kind in a document, from left to right.
pub fn scan(kind: SyntaxKind, t: &Vec<char>) -> (refs: Vec<Reference>)
    ensures
        views(refs@) == references(kind, t@),
        in_order(views(refs@), 0, t.len() as int),
{
    let mut refs: Vec<Reference> = Vec::new();
    let mut i: usize = 0;
    while i < t.len()
        invariant
            i <= t.len(),
            references(kind, t@) == views(refs@) + references_from(kind, t@, i as int),
        decreases t.len() - i,
    {
        proof {
            lemma_reference_at(kind, t@, i as int);
        }
        match reference_here(kind, t, i) {
            Some(r) => {
                let ghost before = views(refs@);
                let ghost rv = r@;
                let end = r.end;
                refs.push(r);
                proof {
                    assert(views(refs@) =~= before + seq![rv]);
                    assert(before + (seq![rv] + references_from(kind, t@, end as int)) =~= (before
                        + seq![rv]) + references_from(kind, t@, end as int));
                }
                i = end;
            },
            None => {
                i += 1;
            },
        }
    }
    proof {
        assert(views(refs@) + Seq::<ReferenceView>::empty() =~= views(refs@));
        lemma_references_in_order(kind, t@, 0);
    }
    refs
}

} // verus!
