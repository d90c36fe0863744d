//! The filename sanitizer: maps any candidate file name to one that is safe
//! on every file system.

use crate::text::{chars_of, string_of};
use vstd::prelude::*;

verus! {

/// The characters a sanitized name may hold: ASCII letters, digits, `-`, `_`
/// and `.`.
pub open spec fn is_safe(c: char) -> bool {
    ('a' <= c && c <= 'z') || ('A' <= c && c <= 'Z') || ('0' <= c && c <= '9') || c == '-' || c
        == '_' || c == '.'
}

/// Every character of `s` is safe.
pub open spec fn all_safe(s: Seq<char>) -> bool {
    forall|i: int| 0 <= i < s.len() ==> is_safe(#[trigger] s[i])
}

/// `s` with each maximal run of unsafe characters replaced by one `-`.
///
/// Read from the end: a safe character is kept; an unsafe one that follows
/// another unsafe one adds nothing; an unsafe one that starts a run adds the
/// `-` that stands for the whole run.
pub open spec fn collapse(s: Seq<char>) -> Seq<char>
    decreases s.len(),
{
    if s.len() == 0 {
        Seq::<char>::empty()
    } else if is_safe(s.last()) {
        collapse(s.drop_last()).push(s.last())
    } else if s.len() >= 2 && !is_safe(s[s.len() - 2]) {
        collapse(s.drop_last())
    } else {
        collapse(s.drop_last()).push('-')
    }
}

/// The name used where nothing is left of a candidate.
pub open spec fn fallback_name() -> Seq<char> {
    "file.txt"@
}

/// The sanitized form of a candidate file name.
pub open spec fn sanitized(s: Seq<char>) -> Seq<char> {
    if collapse(s).len() == 0 {
        fallback_name()
    } else {
        collapse(s)
    }
}

/// Collapsing yields safe characters only, never more than it was given, and
/// nothing exactly when it was given nothing. Each character of the result is
/// a `-` or a character of the input.
pub proof fn lemma_collapse(s: Seq<char>)
    ensures
        all_safe(collapse(s)),
        collapse(s).len() <= s.len(),
        collapse(s).len() == 0 <==> s.len() == 0,
        forall|i: int|
            0 <= i < collapse(s).len() ==> #[trigger] collapse(s)[i] == '-' || s.contains(
                collapse(s)[i],
            ),
    decreases s.len(),
{
    if s.len() > 0 {
        let init = s.drop_last();
        lemma_collapse(init);
        assert forall|i: int| 0 <= i < collapse(s).len() implies #[trigger] collapse(s)[i] == '-'
            || s.contains(collapse(s)[i]) by {
            if i < collapse(init).len() {
                let c = collapse(init)[i];
                if c != '-' {
                    let k = choose|k: int| 0 <= k < init.len() && init[k] == c;
                    assert(s[k] == c);
                }
            } else {
                assert(s[s.len() - 1] == s.last());
            }
        }
        if !is_safe(s.last()) && s.len() >= 2 && !is_safe(s[s.len() - 2]) {
            assert(init.len() > 0);
        }
    }
}

/// A name made of safe characters only is left as it is.
pub proof fn lemma_collapse_keeps_safe_names(s: Seq<char>)
    requires
        all_safe(s),
    ensures
        collapse(s) == s,
    decreases s.len(),
{
    if s.len() > 0 {
        let init = s.drop_last();
        assert forall|i: int| 0 <= i < init.len() implies is_safe(#[trigger] init[i]) by {
            assert(init[i] == s[i]);
        }
        lemma_collapse_keeps_safe_names(init);
        assert(is_safe(s[s.len() - 1]));
        assert(init.push(s.last()) =~= s);
    } else {
        assert(collapse(s) =~= s);
    }
}

/// The fallback name has eight characters, all of them safe.
pub proof fn lemma_fallback_name()
    ensures
        fallback_name().len() == 8,
        all_safe(fallback_name()),
{
    reveal_strlit("file.txt");
}

/// What sanitizing promises of every candidate: the result is never empty, it
/// holds safe characters only, each of them a `-` or a character of the
/// candidate unless the candidate was empty, and a candidate that was safe
/// and not empty comes back unchanged.
pub proof fn lemma_sanitized(s: Seq<char>)
    ensures
        sanitized(s).len() > 0,
        all_safe(sanitized(s)),
        s.len() == 0 ==> sanitized(s) == fallback_name(),
        s.len() > 0 ==> sanitized(s) == collapse(s) && sanitized(s).len() <= s.len(),
        s.len() > 0 && all_safe(s) ==> sanitized(s) == s,
        s.len() > 0 ==> forall|i: int|
            0 <= i < sanitized(s).len() ==> #[trigger] sanitized(s)[i] == '-' || s.contains(
                sanitized(s)[i],
            ),
{
    lemma_collapse(s);
    lemma_fallback_name();
    if all_safe(s) {
        lemma_collapse_keeps_safe_names(s);
    }
}

/// Sanitizing twice is the same as sanitizing once.
pub proof fn lemma_sanitized_is_idempotent(s: Seq<char>)
    ensures
        sanitized(sanitized(s)) == sanitized(s),
{
    lemma_sanitized(s);
    lemma_sanitized(sanitized(s));
}

/// Tells whether a sanitized name may hold the character.
pub fn is_safe_char(c: char) -> (b: bool)
    ensures
        b == is_safe(c),
{
    ('a' <= c && c <= 'z') || ('A' <= c && c <= 'Z') || ('0' <= c && c <= '9') || c == '-' || c
        == '_' || c == '.'
}

/// The sanitizer on characters.
pub fn sanitize_chars(name: &Vec<char>) -> (r: Vec<char>)
    ensures
        r@ == sanitized(name@),
{
    let mut out: Vec<char> = Vec::new();
    let mut i: usize = 0;
    while i < name.len()
        invariant
            i <= name.len(),
            out@ == collapse(name@.take(i as int)),
        decreases name.len() - i,
    {
        let c = name[i];
        proof {
            let next = name@.take(i + 1);
            assert(next.drop_last() =~= name@.take(i as int));
            assert(next.last() == c);
            if i > 0 {
                assert(next[next.len() - 2] == name@[i - 1]);
            }
        }
        if is_safe_char(c) {
            out.push(c);
        } else if i == 0 || is_safe_char(name[i - 1]) {
            out.push('-');
        }
        i += 1;
    }
    proof {
        assert(name@.take(name.len() as int) =~= name@);
    }
    if out.len() == 0 {
        chars_of("file.txt")
    } else {
        out
    }
}

/// Maps a candidate file name to a safe one: each run of characters other
/// than ASCII letters, digits, `-`, `_` and `.` becomes a single `-`, and an
/// empty result is replaced by `file.txt`. No length limit is applied.
pub fn sanitize_filename(filename: &str) -> (r: String)
    ensures
        r@ == sanitized(filename@),
        r@.len() > 0,
        all_safe(r@),
{
    let name = chars_of(filename);
    let out = sanitize_chars(&name);
    proof {
        lemma_sanitized(filename@);
    }
    string_of(&out)
}

} // verus!
