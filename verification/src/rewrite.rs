//! Writing the resolved references back into a document.
//!
//! A pass over a document finds the references of one syntax, and puts for
//! each either its rewritten form or, where the asset could not be made
//! available, the text that stood there. Everything between the references
//! is copied as it is.

use crate::scan::{in_order, references, scan, views, Reference, ReferenceView, SyntaxKind};
use crate::text::{append, chars_of, slice_of, string_of};
use vstd::prelude::*;

verus! {

/// The outcomes of a list of references as texts.
pub open spec fn texts(outcomes: Seq<Option<String>>) -> Seq<Option<Seq<char>>> {
    Seq::new(
        outcomes.len(),
        |i: int|
            match outcomes[i] {
                Some(s) => Some(s@),
                None => None,
            },
    )
}

/// What stands in place of a reference: its prefix, the resolved destination
/// and its suffix; or, without a resolved destination, the text of the
/// reference as it stood in the document.
pub open spec fn replacement(t: Seq<char>, r: ReferenceView, outcome: Option<Seq<char>>) -> Seq<
    char,
> {
    match outcome {
        Some(destination) => r.prefix + destination + r.suffix,
        None => t.subrange(r.start, r.end),
    }
}

/// Where the text between references starts before reference `k`: at the
/// end of the reference before it, or at the start of the document.
pub open spec fn gap_start(refs: Seq<ReferenceView>, k: int) -> int {
    if 0 < k <= refs.len() {
        refs[k - 1].end
    } else {
        0
    }
}

/// The rewritten document up to and with reference `k - 1`.
pub open spec fn rewritten_upto(
    t: Seq<char>,
    refs: Seq<ReferenceView>,
    outcomes: Seq<Option<Seq<char>>>,
    k: int,
) -> Seq<char>
    decreases k,
{
    if k <= 0 || k > refs.len() || k > outcomes.len() {
        Seq::empty()
    } else {
        rewritten_upto(t, refs, outcomes, k - 1) + t.subrange(
            gap_start(refs, k - 1),
            refs[k - 1].start,
        ) + replacement(t, refs[k - 1], outcomes[k - 1])
    }
}

/// The rewritten document: the text between the references as it was, and
/// each reference replaced according to its outcome.
pub open spec fn rewritten(
    t: Seq<char>,
    refs: Seq<ReferenceView>,
    outcomes: Seq<Option<Seq<char>>>,
) -> Seq<char> {
    rewritten_upto(t, refs, outcomes, refs.len() as int) + t.skip(
        gap_start(refs, refs.len() as int),
    )
}

/// No outcome holds a resolved destination.
pub open spec fn none_resolved(outcomes: Seq<Option<Seq<char>>>) -> bool {
    forall|i: int| 0 <= i < outcomes.len() ==> (#[trigger] outcomes[i]).is_none()
}

/// `in_order` read by position: each reference is not empty, starts at or
/// after the end of the one before it, and ends inside the document.
pub proof fn lemma_in_order_at(refs: Seq<ReferenceView>, from: int, len: int, k: int)
    requires
        in_order(refs, from, len),
        0 <= k < refs.len(),
    ensures
        from <= refs[k].start < refs[k].end <= len,
        k > 0 ==> refs[k - 1].end <= refs[k].start,
        0 <= from ==> 0 <= gap_start(refs, k) <= refs[k].start,
    decreases refs.len(),
{
    if k > 0 {
        let rest = refs.drop_first();
        lemma_in_order_at(rest, refs[0].end, len, k - 1);
        assert(rest[k - 1] == refs[k]);
        if k > 1 {
            assert(rest[k - 2] == refs[k - 1]);
        }
    }
}

/// The last reference ends inside the document.
pub proof fn lemma_in_order_end(refs: Seq<ReferenceView>, from: int, len: int)
    requires
        in_order(refs, from, len),
        0 <= from,
    ensures
        0 <= gap_start(refs, refs.len() as int) <= len,
        refs.len() == 0 ==> from <= len,
{
    if refs.len() > 0 {
        lemma_in_order_at(refs, from, len, refs.len() - 1);
    }
}

/// Where no reference is resolved, the part of the document that has been
/// written is the part that has been read.
pub proof fn lemma_unresolved_upto(
    t: Seq<char>,
    refs: Seq<ReferenceView>,
    outcomes: Seq<Option<Seq<char>>>,
    k: int,
)
    requires
        in_order(refs, 0, t.len() as int),
        outcomes.len() == refs.len(),
        none_resolved(outcomes),
        0 <= k <= refs.len(),
    ensures
        rewritten_upto(t, refs, outcomes, k) == t.take(gap_start(refs, k)),
    decreases k,
{
    if k > 0 {
        lemma_unresolved_upto(t, refs, outcomes, k - 1);
        lemma_in_order_at(refs, 0, t.len() as int, k - 1);
        let r = refs[k - 1];
        let g = gap_start(refs, k - 1);
        assert(outcomes[k - 1].is_none());
        assert(t.take(g) + t.subrange(g, r.start) + t.subrange(r.start, r.end) =~= t.take(r.end));
    } else {
        assert(t.take(0) =~= Seq::<char>::empty());
    }
}

/// A document in which no reference is resolved comes back as it was: so it
/// does where it holds no reference, and where every copy failed.
pub proof fn lemma_unresolved_document_is_unchanged(
    t: Seq<char>,
    refs: Seq<ReferenceView>,
    outcomes: Seq<Option<Seq<char>>>,
)
    requires
        in_order(refs, 0, t.len() as int),
        outcomes.len() == refs.len(),
        none_resolved(outcomes),
    ensures
        rewritten(t, refs, outcomes) == t,
{
    lemma_unresolved_upto(t, refs, outcomes, refs.len() as int);
    lemma_in_order_end(refs, 0, t.len() as int);
    let g = gap_start(refs, refs.len() as int);
    assert(t.take(g) + t.skip(g) =~= t);
}

/// The text before the first reference and the text after the last one are
/// in the rewritten document as they were, at its two ends.
pub proof fn lemma_ends_are_kept(
    t: Seq<char>,
    refs: Seq<ReferenceView>,
    outcomes: Seq<Option<Seq<char>>>,
)
    requires
        in_order(refs, 0, t.len() as int),
        outcomes.len() == refs.len(),
        refs.len() > 0,
    ensures
        ({
            let out = rewritten(t, refs, outcomes);
            let head = t.take(refs[0].start);
            let tail = t.skip(refs.last().end);
            &&& out.len() >= head.len() + tail.len()
            &&& out.take(head.len() as int) == head
            &&& out.skip(out.len() - tail.len()) == tail
        }),
{
    let out = rewritten(t, refs, outcomes);
    let n = refs.len() as int;
    lemma_in_order_at(refs, 0, t.len() as int, 0);
    lemma_in_order_at(refs, 0, t.len() as int, n - 1);
    lemma_head_is_kept(t, refs, outcomes, n);
    let body = rewritten_upto(t, refs, outcomes, n);
    let tail = t.skip(refs.last().end);
    let head = t.take(refs[0].start);
    assert(out == body + tail);
    assert(out.take(head.len() as int) =~= body.take(head.len() as int));
    assert(out.skip(out.len() - tail.len()) =~= tail);
}

proof fn lemma_head_is_kept(
    t: Seq<char>,
    refs: Seq<ReferenceView>,
    outcomes: Seq<Option<Seq<char>>>,
    k: int,
)
    requires
        in_order(refs, 0, t.len() as int),
        outcomes.len() == refs.len(),
        0 < k <= refs.len(),
    ensures
        rewritten_upto(t, refs, outcomes, k).len() >= refs[0].start,
        rewritten_upto(t, refs, outcomes, k).take(refs[0].start) == t.take(refs[0].start),
    decreases k,
{
    lemma_in_order_at(refs, 0, t.len() as int, 0);
    let head = t.take(refs[0].start);
    if k == 1 {
        let first = rewritten_upto(t, refs, outcomes, 0);
        assert(first =~= Seq::<char>::empty());
        assert(t.subrange(0, refs[0].start) =~= head);
        let whole = rewritten_upto(t, refs, outcomes, 1);
        assert(whole.take(refs[0].start) =~= head);
    } else {
        lemma_head_is_kept(t, refs, outcomes, k - 1);
        let before = rewritten_upto(t, refs, outcomes, k - 1);
        let whole = rewritten_upto(t, refs, outcomes, k);
        assert(whole.take(refs[0].start) =~= before.take(refs[0].start));
    }
}

/// Tells whether the references lie in a text of length `len`, one after the
/// other from `from` on, none of them empty.
pub fn fits(refs: &Vec<Reference>, len: usize) -> (b: bool)
    ensures
        b == in_order(views(refs@), 0, len as int),
{
    let mut from: usize = 0;
    let mut i: usize = 0;
    proof {
        assert(views(refs@).skip(0) =~= views(refs@));
    }
    while i < refs.len()
        invariant
            i <= refs.len(),
            from <= len,
            in_order(views(refs@), 0, len as int) == in_order(
                views(refs@).skip(i as int),
                from as int,
                len as int,
            ),
        decreases refs.len() - i,
    {
        let r = &refs[i];
        proof {
            let rest = views(refs@).skip(i as int);
            assert(rest[0] == r@);
            assert(rest.drop_first() =~= views(refs@).skip(i + 1));
        }
        if !(from <= r.start && r.start < r.end && r.end <= len) {
            return false;
        }
        from = r.end;
        i += 1;
    }
    proof {
        assert(views(refs@).skip(refs.len() as int).len() == 0);
    }
    true
}

/// The rewritten document, for references that lie in `t` in order and one
/// outcome for each.
pub(crate) fn substitute(t: &Vec<char>, refs: &Vec<Reference>, outcomes: &Vec<Option<String>>) -> (out:
    Vec<char>)
    requires
        in_order(views(refs@), 0, t.len() as int),
        outcomes.len() == refs.len(),
    ensures
        out@ == rewritten(t@, views(refs@), texts(outcomes@)),
{
    let mut out: Vec<char> = Vec::new();
    let mut from: usize = 0;
    let mut i: usize = 0;
    while i < refs.len()
        invariant
            i <= refs.len(),
            outcomes.len() == refs.len(),
            in_order(views(refs@), 0, t.len() as int),
            from == gap_start(views(refs@), i as int),
            from <= t.len(),
            out@ == rewritten_upto(t@, views(refs@), texts(outcomes@), i as int),
        decreases refs.len() - i,
    {
        let r = &refs[i];
        proof {
            lemma_in_order_at(views(refs@), 0, t.len() as int, i as int);
            assert(views(refs@)[i as int] == r@);
        }
        let gap = slice_of(t, from, r.start);
        append(&mut out, &gap);
        match &outcomes[i] {
            Some(destination) => {
                append(&mut out, &chars_of(r.prefix.as_str()));
                append(&mut out, &chars_of(destination.as_str()));
                append(&mut out, &chars_of(r.suffix.as_str()));
                proof {
                    assert(texts(outcomes@)[i as int] == Some(destination@));
                }
            },
            None => {
                let same = slice_of(t, r.start, r.end);
                append(&mut out, &same);
                proof {
                    assert(texts(outcomes@)[i as int].is_none());
                }
            },
        }
        proof {
            let before = rewritten_upto(t@, views(refs@), texts(outcomes@), i as int);
            let piece = replacement(t@, r@, texts(outcomes@)[i as int]);
            assert(out@ =~= before + gap@ + piece);
        }
        from = r.end;
        i += 1;
    }
    let rest = slice_of(t, from, t.len());
    append(&mut out, &rest);
    out
}

/// The references of one kind in a document, from left to right. Positions
/// count characters.
pub fn find_references(text: &str, kind: SyntaxKind) -> (refs: Vec<Reference>)
    ensures
        views(refs@) == references(kind, text@),
        in_order(views(refs@), 0, text@.len() as int),
{
    let t = chars_of(text);
    scan(kind, &t)
}

/// Writes the outcomes of a pass back into the document. `outcomes` holds
/// one entry for each reference, in order: the resolved destination, or
/// `None` to leave the reference as it stands.
///
/// The result is `None` where the references do not belong to the text:
/// where there are not as many outcomes as references, or the references do
/// not lie in the text one after the other.
pub fn replace_references(
    text: &str,
    refs: &Vec<Reference>,
    outcomes: &Vec<Option<String>>,
) -> (out: Option<String>)
    ensures
        match out {
            Some(s) => {
                &&& outcomes.len() == refs.len()
                &&& in_order(views(refs@), 0, text@.len() as int)
                &&& s@ == rewritten(text@, views(refs@), texts(outcomes@))
            },
            None => outcomes.len() != refs.len() || !in_order(
                views(refs@),
                0,
                text@.len() as int,
            ),
        },
{
    let t = chars_of(text);
    if outcomes.len() != refs.len() || !fits(refs, t.len()) {
        return None;
    }
    let out = substitute(&t, refs, outcomes);
    Some(string_of(&out))
}

} // verus!
