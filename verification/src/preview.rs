//! Image calls in a document that is rendered for preview.
//!
//! A preview is rendered from a directory of its own, with the images it
//! shows in a subdirectory `images`. Every call `image("path", ...)` or
//! `#image("path", ...)` in the document is made to point there: the path is
//! replaced by `images/` and the base name of the file. Which files have to
//! be copied is said beside the rewritten document; copying them is left to
//! the caller, and the document does not depend on whether it works.

use crate::paths::{base_name, base_name_of};
use crate::rewrite::{rewritten, substitute};
use crate::scan::{in_order, is_quote, Reference, ReferenceView, SyntaxKind, views};
use crate::text::{
    append, chars_of, find_char, has_at, holds_at, index_of, lemma_index_of_bounds,
    lemma_skip_spaces_bounds, skip_spaces, skip_spaces_from, slice_of, string_of,
};
use vstd::prelude::*;

verus! {

/// The least index at or after `from` that holds no quote character, or the
/// length of `s`.
pub open spec fn skip_quotes(s: Seq<char>, from: int) -> int
    decreases s.len() - from,
{
    if 0 <= from < s.len() && is_quote(s[from]) {
        skip_quotes(s, from + 1)
    } else {
        from
    }
}

/// The least end `e` with `lo <= e <= to` such that `s[e..to]` holds quote
/// characters only.
pub open spec fn drop_quotes(s: Seq<char>, lo: int, to: int) -> int
    decreases to,
{
    if 0 <= lo < to <= s.len() && is_quote(s[to - 1]) {
        drop_quotes(s, lo, to - 1)
    } else {
        to
    }
}

/// `s` without the quote characters at its two ends.
pub open spec fn unquoted(s: Seq<char>) -> Seq<char> {
    s.subrange(skip_quotes(s, 0), drop_quotes(s, skip_quotes(s, 0), s.len() as int))
}

/// The word that names the call.
pub open spec fn image_word() -> Seq<char> {
    seq!['i', 'm', 'a', 'g', 'e']
}

/// The image call that starts at `i`, if there is one: `image`, with or
/// without a `#` before it, `(`, white space, a value between two quote
/// characters of the same kind that does not hold that character and is not
/// empty, and then text without `)` up to a `)`.
///
/// The destination is the value without the quote characters at its ends.
/// The white space is not written back, and the value is put between double
/// quotes.
pub open spec fn image_call_at(t: Seq<char>, i: int) -> Option<ReferenceView> {
    let k = if 0 <= i < t.len() && t[i] == '#' {
        i + 1
    } else {
        i
    };
    if 0 <= i && holds_at(t, k, image_word()) && k + 5 < t.len() && t[k + 5] == '(' {
        let q = skip_spaces(t, k + 6);
        if q < t.len() && is_quote(t[q]) {
            let v = index_of(t, t[q], q + 1);
            let w = index_of(t, ')', v + 1);
            if q + 1 < v < t.len() && w < t.len() {
                Some(
                    ReferenceView {
                        kind: SyntaxKind::RawCall,
                        start: i,
                        end: w + 1,
                        prefix: t.subrange(i, k + 6) + seq!['"'],
                        raw_path: unquoted(t.subrange(q + 1, v)),
                        suffix: seq!['"'] + t.subrange(v + 1, w + 1),
                    },
                )
            } else {
                None
            }
        } else {
            None
        }
    } else {
        None
    }
}

/// The image calls in `t[from..]`, from left to right: the first one that
/// starts at or after `from`, then those that follow its end.
pub open spec fn image_calls_from(t: Seq<char>, from: int) -> Seq<ReferenceView>
    decreases t.len() - from,
{
    if from < 0 || from >= t.len() {
        Seq::empty()
    } else {
        match image_call_at(t, from) {
            Some(r) => if from < r.end <= t.len() {
                seq![r] + image_calls_from(t, r.end)
            } else {
                Seq::empty()
            },
            None => image_calls_from(t, from + 1),
        }
    }
}

/// The image calls in a document.
pub open spec fn image_calls(t: Seq<char>) -> Seq<ReferenceView> {
    image_calls_from(t, 0)
}

/// The name under which the file at `path` is kept for the preview: its
/// base name, or nothing where it has none.
pub open spec fn preview_name(path: Seq<char>) -> Seq<char> {
    match base_name(path) {
        Some(name) => name,
        None => Seq::empty(),
    }
}

/// The directory of the preview's images, as it is written into the
/// document.
pub open spec fn images_prefix() -> Seq<char> {
    seq!['i', 'm', 'a', 'g', 'e', 's', '/']
}

/// The destination that is written for a path.
pub open spec fn preview_destination(path: Seq<char>) -> Seq<char> {
    images_prefix() + preview_name(path)
}

/// The destinations that are written for the calls.
pub open spec fn preview_destinations(calls: Seq<ReferenceView>) -> Seq<Option<Seq<char>>> {
    Seq::new(calls.len(), |i: int| Some(preview_destination(calls[i].raw_path)))
}

/// The document as it is rendered for preview.
pub open spec fn preview_text(t: Seq<char>) -> Seq<char> {
    rewritten(t, image_calls(t), preview_destinations(image_calls(t)))
}

/// A file to copy for the preview.
#[derive(Debug)]
pub struct PreviewCopy {
    /// The path to copy from, as it stood in the document.
    pub source: String,
    /// The name of the copy in the directory of the preview's images; empty
    /// where the path names no file.
    pub file_name: String,
}

/// The copies that the calls ask for, in order.
pub open spec fn asked_for(copies: Seq<PreviewCopy>, calls: Seq<ReferenceView>) -> bool {
    &&& copies.len() == calls.len()
    &&& forall|i: int|
        0 <= i < copies.len() ==> (#[trigger] copies[i]).source@ == calls[i].raw_path
            && copies[i].file_name@ == preview_name(calls[i].raw_path)
}

/// A document for preview, and what has to be copied for it.
#[derive(Debug)]
pub struct Preview {
    /// The rewritten document.
    pub text: String,
    /// The files to copy, one for each image call, in order.
    pub copies: Vec<PreviewCopy>,
}

/// An image call lies inside the document, starts where it was looked for
/// and is not empty.
pub proof fn lemma_image_call_at(t: Seq<char>, i: int)
    ensures
        match image_call_at(t, i) {
            Some(r) => r.start == i && 0 <= i < r.end <= t.len(),
            None => true,
        },
{
    let k = if 0 <= i < t.len() && t[i] == '#' {
        i + 1
    } else {
        i
    };
    if 0 <= i && k + 5 < t.len() {
        lemma_skip_spaces_bounds(t, k + 6);
        let q = skip_spaces(t, k + 6);
        if q < t.len() {
            lemma_index_of_bounds(t, t[q], q + 1);
            let v = index_of(t, t[q], q + 1);
            if v < t.len() {
                lemma_index_of_bounds(t, ')', v + 1);
            }
        }
    }
}

/// The image calls of a document lie inside it, from left to right, without
/// overlap.
pub proof fn lemma_image_calls_in_order(t: Seq<char>, from: int)
    requires
        0 <= from <= t.len(),
    ensures
        in_order(image_calls_from(t, from), from, t.len() as int),
    decreases t.len() - from,
{
    if from < t.len() {
        lemma_image_call_at(t, from);
        match image_call_at(t, from) {
            Some(r) => {
                lemma_image_calls_in_order(t, r.end);
                assert((seq![r] + image_calls_from(t, r.end)).drop_first() =~= image_calls_from(
                    t,
                    r.end,
                ));
            },
            None => {
                lemma_image_calls_in_order(t, from + 1);
            },
        }
    }
}

fn without_quotes(s: &Vec<char>) -> (r: Vec<char>)
    ensures
        r@ == unquoted(s@),
{
    let mut a: usize = 0;
    while a < s.len() && (s[a] == '"' || s[a] == '\'')
        invariant
            a <= s.len(),
            skip_quotes(s@, 0) == skip_quotes(s@, a as int),
        decreases s.len() - a,
    {
        a += 1;
    }
    let mut b: usize = s.len();
    while a < b && (s[b - 1] == '"' || s[b - 1] == '\'')
        invariant
            a <= b <= s.len(),
            drop_quotes(s@, a as int, s.len() as int) == drop_quotes(s@, a as int, b as int),
        decreases b,
    {
        b -= 1;
    }
    slice_of(s, a, b)
}

fn image_call_here(t: &Vec<char>, i: usize) -> (r: Option<Reference>)
    requires
        i < t.len(),
    ensures
        match r {
            Some(x) => image_call_at(t@, i as int) == Some(x@),
            None => image_call_at(t@, i as int).is_none(),
        },
{
    let n = t.len();
    let k = if t[i] == '#' {
        i + 1
    } else {
        i
    };
    let word = vec!['i', 'm', 'a', 'g', 'e'];
    proof {
        assert(word@ =~= image_word());
    }
    if !has_at(t, k, &word) {
        return None;
    }
    if !(k + 5 < n && t[k + 5] == '(') {
        return None;
    }
    let q = skip_spaces_from(t, k + 6);
    if !(q < n && (t[q] == '"' || t[q] == '\'')) {
        return None;
    }
    let v = find_char(t, t[q], q + 1);
    if !(q + 1 < v && v < n) {
        return None;
    }
    let w = find_char(t, ')', v + 1);
    if w >= n {
        return None;
    }
    let mut prefix = slice_of(t, i, k + 6);
    prefix.push('"');
    let value = slice_of(t, q + 1, v);
    let path = without_quotes(&value);
    let mut suffix: Vec<char> = Vec::new();
    suffix.push('"');
    let rest = slice_of(t, v + 1, w + 1);
    append(&mut suffix, &rest);
    proof {
        assert(prefix@ =~= t@.subrange(i as int, k + 6) + seq!['"']);
        assert(suffix@ =~= seq!['"'] + t@.subrange(v + 1, w + 1));
    }
    Some(
        Reference {
            kind: SyntaxKind::RawCall,
            start: i,
            end: w + 1,
            prefix: string_of(&prefix),
            raw_path: string_of(&path),
            suffix: string_of(&suffix),
        },
    )
}

fn scan_image_calls(t: &Vec<char>) -> (calls: Vec<Reference>)
    ensures
        views(calls@) == image_calls(t@),
        in_order(views(calls@), 0, t.len() as int),
{
    let mut calls: Vec<Reference> = Vec::new();
    let mut i: usize = 0;
    while i < t.len()
        invariant
            i <= t.len(),
            image_calls(t@) == views(calls@) + image_calls_from(t@, i as int),
        decreases t.len() - i,
    {
        proof {
            lemma_image_call_at(t@, i as int);
        }
        match image_call_here(t, i) {
            Some(r) => {
                let ghost before = views(calls@);
                let ghost rv = r@;
                let end = r.end;
                calls.push(r);
                proof {
                    assert(views(calls@) =~= before + seq![rv]);
                    assert(before + (seq![rv] + image_calls_from(t@, end as int)) =~= (before
                        + seq![rv]) + image_calls_from(t@, end as int));
                }
                i = end;
            },
            None => {
                i += 1;
            },
        }
    }
    proof {
        assert(views(calls@) + Seq::<ReferenceView>::empty() =~= views(calls@));
        lemma_image_calls_in_order(t@, 0);
    }
    calls
}

/// Rewrites a document for preview: every image call is made to point into
/// `images/`, and the files that the calls name are listed for copying.
pub fn rewrite_preview_images(text: &str) -> (r: Preview)
    ensures
        r.text@ == preview_text(text@),
        asked_for(r.copies@, image_calls(text@)),
{
    let t = chars_of(text);
    let calls = scan_image_calls(&t);
    let mut outcomes: Vec<Option<String>> = Vec::new();
    let mut copies: Vec<PreviewCopy> = Vec::new();
    let mut i: usize = 0;
    while i < calls.len()
        invariant
            i <= calls.len(),
            outcomes.len() == i,
            copies.len() == i,
            forall|j: int|
                0 <= j < i ==> (#[trigger] outcomes@[j]).is_some() && outcomes@[j].unwrap()@
                    == preview_destination(views(calls@)[j].raw_path),
            forall|j: int|
                0 <= j < i ==> (#[trigger] copies@[j]).source@ == views(calls@)[j].raw_path
                    && copies@[j].file_name@ == preview_name(views(calls@)[j].raw_path),
        decreases calls.len() - i,
    {
        let call = &calls[i];
        proof {
            assert(views(calls@)[i as int] == call@);
        }
        let path = chars_of(call.raw_path.as_str());
        let name = match base_name_of(&path) {
            Some(name) => name,
            None => Vec::new(),
        };
        let mut destination = chars_of("images/");
        proof {
            reveal_strlit("images/");
            assert(destination@ =~= images_prefix());
        }
        append(&mut destination, &name);
        outcomes.push(Some(string_of(&destination)));
        copies.push(PreviewCopy { source: call.raw_path.clone(), file_name: string_of(&name) });
        i += 1;
    }
    proof {
        assert(crate::rewrite::texts(outcomes@) =~= preview_destinations(views(calls@)));
    }
    let out = substitute(&t, &calls, &outcomes);
    Preview { text: string_of(&out), copies }
}

} // verus!
