//! What the three syntaxes are, said without saying how they are found.
//!
//! The scanner reads a document from left to right and decides at each
//! position. Here each syntax is described by the shape of the text alone,
//! and the two descriptions are shown to agree.

use crate::scan::{
    call_name_len, html_at, img_open, is_quote, lemma_next_quote_bounds, lemma_reference_at,
    lemma_src_attribute_from, markdown_at, markdown_destination, markdown_suffix, next_quote,
    raw_call_at, reference_at, references_from, split_point, src_attribute_at,
    src_attribute_from, src_equals, ReferenceView, SyntaxKind,
};
use crate::text::{
    holds_at, index_of, is_space, lemma_index_of_bounds, lemma_index_of_is,
    lemma_skip_spaces_bounds, lemma_skip_spaces_is, skip_spaces,
};
use vstd::prelude::*;

verus! {

/// Every character of `s` is white space.
pub open spec fn all_spaces(s: Seq<char>) -> bool {
    forall|k: int| 0 <= k < s.len() ==> is_space(#[trigger] s[k])
}

/// No character of `s` is a quote character.
pub open spec fn no_quotes(s: Seq<char>) -> bool {
    forall|k: int| 0 <= k < s.len() ==> !is_quote(#[trigger] s[k])
}

/// The number of double quotes before position `p`.
pub open spec fn quotes_before(s: Seq<char>, p: int) -> nat
    decreases p,
{
    if p <= 0 || p > s.len() {
        0
    } else if s[p - 1] == '"' {
        quotes_before(s, p - 1) + 1
    } else {
        quotes_before(s, p - 1)
    }
}

/// The body of a markdown image can be split at `p`: a space or a tab
/// stands there, outside double quotes.
pub open spec fn splits_at(s: Seq<char>, p: int) -> bool {
    0 <= p < s.len() && (s[p] == ' ' || s[p] == '\t') && quotes_before(s, p) % 2 == 0
}

proof fn lemma_split_point_from(s: Seq<char>, from: int, quoted: bool)
    requires
        0 <= from <= s.len(),
        quoted == (quotes_before(s, from) % 2 == 1),
    ensures
        from <= split_point(s, from, quoted) <= s.len(),
        split_point(s, from, quoted) < s.len() ==> splits_at(s, split_point(s, from, quoted)),
        forall|k: int| from <= k < split_point(s, from, quoted) ==> !splits_at(s, k),
    decreases s.len() - from,
{
    if from < s.len() {
        if s[from] == '"' {
            lemma_split_point_from(s, from + 1, !quoted);
        } else if (s[from] == ' ' || s[from] == '\t') && !quoted {
        } else {
            lemma_split_point_from(s, from + 1, quoted);
        }
    }
}

/// The body of a markdown image is split at the first place where it can
/// be, or not at all where there is no such place.
pub proof fn lemma_split_point(s: Seq<char>)
    ensures
        0 <= split_point(s, 0, false) <= s.len(),
        split_point(s, 0, false) < s.len() ==> splits_at(s, split_point(s, 0, false)),
        forall|k: int| 0 <= k < split_point(s, 0, false) ==> !splits_at(s, k),
{
    lemma_split_point_from(s, 0, false);
}

/// The text of a markdown image with the given alternative text and body.
pub open spec fn markdown_image(alt: Seq<char>, body: Seq<char>) -> Seq<char> {
    seq!['!', '['] + alt + seq![']', '('] + body + seq![')']
}

/// `t` holds at `i` a markdown image: an alternative text without `]`, and a
/// body without `)` that is not empty.
pub open spec fn is_markdown_image(t: Seq<char>, i: int, alt: Seq<char>, body: Seq<char>) -> bool {
    &&& !alt.contains(']')
    &&& !body.contains(')')
    &&& body.len() > 0
    &&& holds_at(t, i, markdown_image(alt, body))
}

/// The reference that the scanner gives for a markdown image.
pub open spec fn markdown_reference(i: int, alt: Seq<char>, body: Seq<char>) -> ReferenceView {
    ReferenceView {
        kind: SyntaxKind::MarkdownImage,
        start: i,
        end: i + markdown_image(alt, body).len(),
        prefix: seq!['!', '['] + alt + seq![']', '('],
        raw_path: markdown_destination(body),
        suffix: markdown_suffix(body),
    }
}

/// The text of a raw call.
pub open spec fn raw_call(
    name: Seq<char>,
    spaces: Seq<char>,
    open: char,
    value: Seq<char>,
    close: char,
) -> Seq<char> {
    seq!['#'] + name + seq!['('] + spaces + seq![open] + value + seq![close]
}

/// `t` holds at `i` a raw call: the name `fig` or `image`, white space after
/// the parenthesis, and between two quote characters a value without quote
/// characters that is not empty.
pub open spec fn is_raw_call(
    t: Seq<char>,
    i: int,
    name: Seq<char>,
    spaces: Seq<char>,
    open: char,
    value: Seq<char>,
    close: char,
) -> bool {
    &&& name == seq!['f', 'i', 'g'] || name == seq!['i', 'm', 'a', 'g', 'e']
    &&& all_spaces(spaces)
    &&& is_quote(open)
    &&& is_quote(close)
    &&& no_quotes(value)
    &&& value.len() > 0
    &&& holds_at(t, i, raw_call(name, spaces, open, value, close))
}

/// The reference that the scanner gives for a raw call: the white space is
/// dropped, and the opening quote character closes the value.
pub open spec fn raw_call_reference(
    i: int,
    name: Seq<char>,
    spaces: Seq<char>,
    open: char,
    value: Seq<char>,
    close: char,
) -> ReferenceView {
    ReferenceView {
        kind: SyntaxKind::RawCall,
        start: i,
        end: i + raw_call(name, spaces, open, value, close).len(),
        prefix: seq!['#'] + name + seq!['('] + seq![open],
        raw_path: value,
        suffix: seq![open],
    }
}

/// The parts of an HTML image tag.
pub struct ImageTag {
    /// What stands between `<img` and the white space before `src`.
    pub before: Seq<char>,
    /// The white space before `src`.
    pub spaces: Seq<char>,
    /// The quote character that opens the value.
    pub open: char,
    /// The value of `src`.
    pub value: Seq<char>,
    /// The quote character that closes the value.
    pub close: char,
    /// What stands between the value and the `>` that ends the tag.
    pub after: Seq<char>,
}

impl ImageTag {
    /// The text of the tag.
    pub open spec fn text(self) -> Seq<char> {
        img_open() + self.before + self.spaces + src_equals() + seq![self.open] + self.value
            + seq![self.close] + self.after + seq!['>']
    }

    /// The parts are what they are said to be: no `>` before `src` or after
    /// the value, white space that is not empty and ends where `src` starts,
    /// and between two quote characters a value without quote characters
    /// that is not empty.
    pub open spec fn wf(self) -> bool {
        &&& !self.before.contains('>')
        &&& all_spaces(self.spaces)
        &&& self.spaces.len() > 0
        &&& is_quote(self.open)
        &&& is_quote(self.close)
        &&& no_quotes(self.value)
        &&& self.value.len() > 0
        &&& !self.after.contains('>')
    }

    /// The reference that the scanner gives for the tag: the white space is
    /// written back as one space.
    pub open spec fn reference(self, i: int) -> ReferenceView {
        ReferenceView {
            kind: SyntaxKind::HtmlImg,
            start: i,
            end: i + self.text().len(),
            prefix: img_open() + self.before + seq![' '] + src_equals() + seq![self.open],
            raw_path: self.value,
            suffix: seq![self.close] + self.after + seq!['>'],
        }
    }
}

/// `t` holds at `i` an HTML image tag with the given parts.
pub open spec fn is_image_tag(t: Seq<char>, i: int, tag: ImageTag) -> bool {
    tag.wf() && holds_at(t, i, tag.text())
}

proof fn lemma_next_quote_is(s: Seq<char>, from: int, p: int)
    requires
        0 <= from <= p <= s.len(),
        forall|k: int| from <= k < p ==> !is_quote(#[trigger] s[k]),
        p < s.len() ==> is_quote(s[p]),
    ensures
        next_quote(s, from) == p,
    decreases p - from,
{
    if from < p {
        lemma_next_quote_is(s, from + 1, p);
    }
}

/// A piece of a text that holds `whole` at `i`: the characters of `whole`
/// from `a` to `b` stand in `t` from `i + a` to `i + b`.
proof fn lemma_piece(t: Seq<char>, i: int, whole: Seq<char>, a: int, b: int)
    requires
        holds_at(t, i, whole),
        0 <= a <= b <= whole.len(),
    ensures
        t.subrange(i + a, i + b) == whole.subrange(a, b),
        forall|k: int| a <= k < b ==> #[trigger] t[i + k] == whole[k],
{
    let part = t.subrange(i, i + whole.len());
    assert forall|k: int| a <= k < b implies #[trigger] t[i + k] == whole[k] by {
        assert(part[k] == t[i + k]);
    }
    assert(t.subrange(i + a, i + b) =~= whole.subrange(a, b));
}

/// Where a text has the shape of a markdown image, the scanner finds it, and
/// reads alternative text and body as they are.
pub proof fn lemma_markdown_image_is_found(t: Seq<char>, i: int, alt: Seq<char>, body: Seq<char>)
    requires
        is_markdown_image(t, i, alt, body),
    ensures
        markdown_at(t, i) == Some(markdown_reference(i, alt, body)),
{
    let whole = markdown_image(alt, body);
    let a = alt.len() as int;
    let b = body.len() as int;
    let j = i + 2 + a;
    let k = j + 2 + b;
    assert(whole.len() == a + b + 5);
    lemma_piece(t, i, whole, 0, whole.len() as int);
    assert(t[i + 0] == whole[0]);
    assert(t[i + 1] == whole[1]);
    assert(t[i + (2 + a)] == whole[2 + a]);
    assert(t[i + (3 + a)] == whole[3 + a]);
    assert(t[i + (4 + a + b)] == whole[4 + a + b]);
    assert forall|x: int| i + 2 <= x < j implies #[trigger] t[x] != ']' by {
        assert(t[i + (x - i)] == whole[x - i]);
        assert(whole[x - i] == alt[x - i - 2]);
        assert(alt.contains(alt[x - i - 2]));
    }
    lemma_index_of_is(t, ']', i + 2, j);
    assert forall|x: int| j + 2 <= x < k implies #[trigger] t[x] != ')' by {
        assert(t[i + (x - i)] == whole[x - i]);
        assert(whole[x - i] == body[x - j - 2]);
        assert(body.contains(body[x - j - 2]));
    }
    lemma_index_of_is(t, ')', j + 2, k);
    lemma_piece(t, i, whole, 2, 2 + a);
    assert(whole.subrange(2, 2 + a) =~= alt);
    lemma_piece(t, i, whole, 4 + a, 4 + a + b);
    assert(whole.subrange(4 + a, 4 + a + b) =~= body);
}

/// What the scanner finds as a markdown image has the shape of one.
pub proof fn lemma_markdown_reference_is_an_image(t: Seq<char>, i: int)
    requires
        markdown_at(t, i).is_some(),
    ensures
        exists|alt: Seq<char>, body: Seq<char>|
            #![auto]
            is_markdown_image(t, i, alt, body) && markdown_at(t, i) == Some(
                markdown_reference(i, alt, body),
            ),
{
    lemma_index_of_bounds(t, ']', i + 2);
    let j = index_of(t, ']', i + 2);
    lemma_index_of_bounds(t, ')', j + 2);
    let k = index_of(t, ')', j + 2);
    let alt = t.subrange(i + 2, j);
    let body = t.subrange(j + 2, k);
    let whole = markdown_image(alt, body);
    assert(whole.len() == k + 1 - i);
    assert(t.subrange(i, i + whole.len()) =~= whole);
    if alt.contains(']') {
        let x = choose|x: int| 0 <= x < alt.len() && alt[x] == ']';
        assert(t[i + 2 + x] == ']');
    }
    if body.contains(')') {
        let x = choose|x: int| 0 <= x < body.len() && body[x] == ')';
        assert(t[j + 2 + x] == ')');
    }
    assert(is_markdown_image(t, i, alt, body));
    lemma_markdown_image_is_found(t, i, alt, body);
}

/// Where a text has the shape of a raw call, the scanner finds it.
pub proof fn lemma_raw_call_is_found(
    t: Seq<char>,
    i: int,
    name: Seq<char>,
    spaces: Seq<char>,
    open: char,
    value: Seq<char>,
    close: char,
)
    requires
        is_raw_call(t, i, name, spaces, open, value, close),
    ensures
        raw_call_at(t, i) == Some(raw_call_reference(i, name, spaces, open, value, close)),
{
    let whole = raw_call(name, spaces, open, value, close);
    let n = name.len() as int;
    let q = i + 2 + n + spaces.len();
    let v = q + 1 + value.len();
    assert(whole.len() == n + spaces.len() + value.len() + 4);
    lemma_piece(t, i, whole, 0, whole.len() as int);
    assert(t[i + 0] == whole[0]);
    lemma_piece(t, i, whole, 1, 1 + n);
    assert(whole.subrange(1, 1 + n) =~= name);
    assert(t.subrange(i + 1, i + 1 + n) == name);
    assert(holds_at(t, i + 1, name));
    if name == seq!['i', 'm', 'a', 'g', 'e'] {
        if holds_at(t, i + 1, seq!['f', 'i', 'g']) {
            assert(t.subrange(i + 1, i + 4)[0] == 'f');
            assert(t.subrange(i + 1, i + 6)[0] == 'i');
        }
    }
    assert(call_name_len(t, i + 1) == n);
    assert(t[i + (1 + n)] == whole[1 + n]);
    assert forall|x: int| i + 2 + n <= x < q implies is_space(#[trigger] t[x]) by {
        assert(t[i + (x - i)] == whole[x - i]);
        assert(whole[x - i] == spaces[x - i - 2 - n]);
    }
    assert(t[i + (q - i)] == whole[q - i]);
    assert(t[q] == open);
    lemma_skip_spaces_is(t, i + 2 + n, q);
    assert forall|x: int| q + 1 <= x < v implies !is_quote(#[trigger] t[x]) by {
        assert(t[i + (x - i)] == whole[x - i]);
        assert(whole[x - i] == value[x - q - 1]);
    }
    assert(t[i + (v - i)] == whole[v - i]);
    assert(t[v] == close);
    lemma_next_quote_is(t, q + 1, v);
    lemma_piece(t, i, whole, 0, 2 + n);
    assert(whole.subrange(0, 2 + n) =~= seq!['#'] + name + seq!['(']);
    lemma_piece(t, i, whole, q + 1 - i, v - i);
    assert(whole.subrange(q + 1 - i, v - i) =~= value);
    assert(t.subrange(i, i + 2 + n) + seq![t[q]] =~= seq!['#'] + name + seq!['('] + seq![open]);
}

/// What the scanner finds as a raw call has the shape of one.
pub proof fn lemma_raw_reference_is_a_call(t: Seq<char>, i: int)
    requires
        raw_call_at(t, i).is_some(),
    ensures
        exists|name: Seq<char>, spaces: Seq<char>, open: char, value: Seq<char>, close: char|
            #![auto]
            is_raw_call(t, i, name, spaces, open, value, close) && raw_call_at(t, i) == Some(
                raw_call_reference(i, name, spaces, open, value, close),
            ),
{
    let n = call_name_len(t, i + 1);
    lemma_skip_spaces_bounds(t, i + 2 + n);
    let q = skip_spaces(t, i + 2 + n);
    lemma_next_quote_bounds(t, q + 1);
    let v = next_quote(t, q + 1);
    let name = t.subrange(i + 1, i + 1 + n);
    let spaces = t.subrange(i + 2 + n, q);
    let value = t.subrange(q + 1, v);
    let whole = raw_call(name, spaces, t[q], value, t[v]);
    assert(whole.len() == v + 1 - i);
    assert(t.subrange(i, i + whole.len()) =~= whole);
    assert(is_raw_call(t, i, name, spaces, t[q], value, t[v]));
    lemma_raw_call_is_found(t, i, name, spaces, t[q], value, t[v]);
}

/// Where the text from `p` on reads as white space, `src=` and a quoted
/// value, up to the end of a tag, a `src` attribute starts at `p`.
proof fn lemma_src_attribute_is_found(t: Seq<char>, i: int, tag: ImageTag)
    requires
        is_image_tag(t, i, tag),
    ensures
        src_attribute_at(t, i + 4 + tag.before.len()) == Some(i + tag.text().len() - 1),
        skip_spaces(t, i + 4 + tag.before.len()) == i + 4 + tag.before.len() + tag.spaces.len(),
        next_quote(t, i + 4 + tag.before.len() + tag.spaces.len() + 5) == i + 4
            + tag.before.len() + tag.spaces.len() + 5 + tag.value.len(),
{
    let whole = tag.text();
    let p = i + 4 + tag.before.len();
    let q = p + tag.spaces.len();
    let v = q + 5 + tag.value.len();
    let w = v + 1 + tag.after.len();
    assert(whole.len() == w + 1 - i);
    lemma_piece(t, i, whole, 0, whole.len() as int);
    assert forall|x: int| p <= x < q implies is_space(#[trigger] t[x]) by {
        assert(t[i + (x - i)] == whole[x - i]);
        assert(whole[x - i] == tag.spaces[x - p]);
    }
    assert(t[i + (q - i)] == whole[q - i]);
    assert(whole[q - i] == 's');
    lemma_skip_spaces_is(t, p, q);
    lemma_piece(t, i, whole, q - i, q - i + 4);
    assert(whole.subrange(q - i, q - i + 4) =~= src_equals());
    assert(t[i + (q + 4 - i)] == whole[q + 4 - i]);
    assert(whole[q + 4 - i] == tag.open);
    assert forall|x: int| q + 5 <= x < v implies !is_quote(#[trigger] t[x]) by {
        assert(t[i + (x - i)] == whole[x - i]);
        assert(whole[x - i] == tag.value[x - q - 5]);
    }
    assert(t[i + (v - i)] == whole[v - i]);
    assert(whole[v - i] == tag.close);
    lemma_next_quote_is(t, q + 5, v);
    assert forall|x: int| v + 1 <= x < w implies #[trigger] t[x] != '>' by {
        assert(t[i + (x - i)] == whole[x - i]);
        assert(whole[x - i] == tag.after[x - v - 1]);
        assert(tag.after.contains(tag.after[x - v - 1]));
    }
    assert(t[i + (w - i)] == whole[w - i]);
    assert(whole[w - i] == '>');
    lemma_index_of_is(t, '>', v + 1, w);
}

/// Where no `src` attribute starts before `p` and no `>` stands there, the
/// search from `from` is the search from `p`.
proof fn lemma_search_goes_on(t: Seq<char>, from: int, p: int)
    requires
        0 <= from <= p <= t.len(),
        forall|x: int| from <= x < p ==> #[trigger] t[x] != '>',
        forall|x: int| from <= x < p ==> (#[trigger] src_attribute_at(t, x)).is_none(),
    ensures
        src_attribute_from(t, from) == src_attribute_from(t, p),
    decreases p - from,
{
    if from < p {
        lemma_search_goes_on(t, from + 1, p);
    }
}

/// Where a text has the shape of an HTML image tag, the scanner finds a tag
/// there; it is this one unless a `src` attribute can be read earlier in it.
pub proof fn lemma_image_tag_is_found(t: Seq<char>, i: int, tag: ImageTag)
    requires
        is_image_tag(t, i, tag),
    ensures
        html_at(t, i).is_some(),
        html_at(t, i).unwrap().start == i,
        src_attribute_from(t, i + 4).unwrap() <= i + 4 + tag.before.len(),
        src_attribute_from(t, i + 4) == Some(i + 4 + tag.before.len()) ==> html_at(t, i) == Some(
            tag.reference(i),
        ),
{
    let whole = tag.text();
    let p = i + 4 + tag.before.len();
    let q = p + tag.spaces.len();
    let v = q + 5 + tag.value.len();
    let w = v + 1 + tag.after.len();
    assert(whole.len() == w + 1 - i);
    lemma_src_attribute_is_found(t, i, tag);
    lemma_piece(t, i, whole, 0, 4);
    assert(whole.subrange(0, 4) =~= img_open());
    assert(holds_at(t, i, img_open()));
    lemma_piece(t, i, whole, 0, whole.len() as int);
    assert forall|x: int| i + 4 <= x < p implies #[trigger] t[x] != '>' by {
        assert(t[i + (x - i)] == whole[x - i]);
        assert(whole[x - i] == tag.before[x - i - 4]);
        assert(tag.before.contains(tag.before[x - i - 4]));
    }
    lemma_found_by(t, i + 4, p);
    if src_attribute_from(t, i + 4) == Some(p) {
        lemma_piece(t, i, whole, 0, p - i);
        assert(whole.subrange(0, p - i) =~= img_open() + tag.before);
        lemma_piece(t, i, whole, q + 5 - i, v - i);
        assert(whole.subrange(q + 5 - i, v - i) =~= tag.value);
        lemma_piece(t, i, whole, v - i, w + 1 - i);
        assert(whole.subrange(v - i, w + 1 - i) =~= seq![tag.close] + tag.after + seq!['>']);
        assert(t[i + (q + 4 - i)] == whole[q + 4 - i]);
        assert(whole[q + 4 - i] == tag.open);
        assert(t.subrange(i, p) + seq![' '] + src_equals() + seq![t[q + 4]] =~= img_open()
            + tag.before + seq![' '] + src_equals() + seq![tag.open]);
    }
}

/// A `src` attribute that starts at `p`, with no `>` before it, is found by
/// the search from `from`, or an earlier one is.
proof fn lemma_found_by(t: Seq<char>, from: int, p: int)
    requires
        0 <= from <= p < t.len(),
        forall|x: int| from <= x < p ==> #[trigger] t[x] != '>',
        src_attribute_at(t, p).is_some(),
    ensures
        src_attribute_from(t, from).is_some(),
        from <= src_attribute_from(t, from).unwrap() <= p,
    decreases p - from,
{
    if from < p && src_attribute_at(t, from).is_none() {
        lemma_found_by(t, from + 1, p);
    }
}

/// What the scanner finds as an HTML image tag has the shape of one, and of
/// all the ways to read a tag there it is the one with the shortest text
/// before `src`.
pub proof fn lemma_html_reference_is_an_image_tag(t: Seq<char>, i: int)
    requires
        html_at(t, i).is_some(),
    ensures
        exists|tag: ImageTag|
            #![auto]
            is_image_tag(t, i, tag) && html_at(t, i) == Some(tag.reference(i)) && forall|
                other: ImageTag,
            |
                is_image_tag(t, i, other) ==> tag.before.len() <= other.before.len(),
{
    lemma_src_attribute_from(t, i + 4);
    let p = src_attribute_from(t, i + 4).unwrap();
    lemma_skip_spaces_bounds(t, p);
    let q = skip_spaces(t, p);
    lemma_next_quote_bounds(t, q + 5);
    let v = next_quote(t, q + 5);
    lemma_index_of_bounds(t, '>', v + 1);
    let w = index_of(t, '>', v + 1);
    let tag = ImageTag {
        before: t.subrange(i + 4, p),
        spaces: t.subrange(p, q),
        open: t[q + 4],
        value: t.subrange(q + 5, v),
        close: t[v],
        after: t.subrange(v + 1, w),
    };
    let whole = tag.text();
    assert(whole.len() == w + 1 - i);
    assert(t.subrange(i, i + 4) == img_open());
    assert(t.subrange(q, q + 4) == src_equals());
    assert forall|x: int| 0 <= x < whole.len() implies t.subrange(i, i + whole.len())[x]
        == whole[x] by {
        if x < 4 {
            assert(t.subrange(i, i + 4)[x] == t[i + x]);
        } else if q - i <= x < q - i + 4 {
            assert(t.subrange(q, q + 4)[x - (q - i)] == t[i + x]);
        }
    }
    assert(t.subrange(i, i + whole.len()) =~= whole);
    if tag.before.contains('>') {
        let x = choose|x: int| 0 <= x < tag.before.len() && tag.before[x] == '>';
        assert(t[i + 4 + x] == '>');
    }
    if tag.after.contains('>') {
        let x = choose|x: int| 0 <= x < tag.after.len() && tag.after[x] == '>';
        assert(t[v + 1 + x] == '>');
    }
    assert(is_image_tag(t, i, tag));
    lemma_image_tag_is_found(t, i, tag);
    assert forall|other: ImageTag| is_image_tag(t, i, other) implies tag.before.len()
        <= other.before.len() by {
        lemma_image_tag_is_found(t, i, other);
    }
}

/// No reference of the given kind starts at a position from `a` up to `b`.
pub open spec fn none_between(kind: SyntaxKind, t: Seq<char>, a: int, b: int) -> bool {
    forall|i: int| a <= i < b ==> (#[trigger] reference_at(kind, t, i)).is_none()
}

/// The references are the leftmost ones from `from` on: each is the
/// reference that starts at its place, no reference starts between the end
/// of one and the start of the next, and none after the last.
pub open spec fn leftmost(
    kind: SyntaxKind,
    t: Seq<char>,
    refs: Seq<ReferenceView>,
    from: int,
) -> bool
    decreases refs.len(),
{
    if refs.len() == 0 {
        none_between(kind, t, from, t.len() as int)
    } else {
        &&& from <= refs[0].start < t.len()
        &&& none_between(kind, t, from, refs[0].start)
        &&& reference_at(kind, t, refs[0].start) == Some(refs[0])
        &&& leftmost(kind, t, refs.drop_first(), refs[0].end)
    }
}

/// The references that the scanner gives are the leftmost ones.
pub proof fn lemma_references_are_leftmost(kind: SyntaxKind, t: Seq<char>, from: int)
    requires
        0 <= from <= t.len(),
    ensures
        leftmost(kind, t, references_from(kind, t, from), from),
    decreases t.len() - from,
{
    if from < t.len() {
        lemma_reference_at(kind, t, from);
        match reference_at(kind, t, from) {
            Some(r) => {
                lemma_references_are_leftmost(kind, t, r.end);
                let rest = references_from(kind, t, r.end);
                assert((seq![r] + rest).drop_first() =~= rest);
            },
            None => {
                lemma_references_are_leftmost(kind, t, from + 1);
                let refs = references_from(kind, t, from + 1);
                if refs.len() == 0 {
                    assert(none_between(kind, t, from, t.len() as int));
                } else {
                    assert(none_between(kind, t, from, refs[0].start));
                }
            },
        }
    }
}

/// The leftmost references are those that the scanner gives, and no others.
pub proof fn lemma_leftmost_references_are_found(
    kind: SyntaxKind,
    t: Seq<char>,
    refs: Seq<ReferenceView>,
    from: int,
)
    requires
        0 <= from <= t.len(),
        leftmost(kind, t, refs, from),
    ensures
        refs == references_from(kind, t, from),
    decreases t.len() - from,
{
    if from < t.len() {
        if refs.len() == 0 {
            assert(reference_at(kind, t, from).is_none());
            lemma_leftmost_references_are_found(kind, t, refs, from + 1);
        } else if refs[0].start == from {
            lemma_reference_at(kind, t, from);
            lemma_leftmost_references_are_found(kind, t, refs.drop_first(), refs[0].end);
            assert(seq![refs[0]] + refs.drop_first() =~= refs);
        } else {
            assert(reference_at(kind, t, from).is_none());
            lemma_leftmost_references_are_found(kind, t, refs, from + 1);
        }
    } else {
        assert(refs.len() == 0);
        assert(refs =~= references_from(kind, t, from));
    }
}

} // verus!
