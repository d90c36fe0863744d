//! Paths as text.
//!
//! The engine never touches the file system itself, so a path is a sequence
//! of characters whose components are separated by `/`. Everything here is a
//! function of that text alone and gives the same answer on every platform.

use crate::text::{append, has_at, holds_at, slice_of};
use vstd::prelude::*;

verus! {

/// The least end `e <= to` such that `p[e..to]` holds slashes only.
pub open spec fn drop_slashes(p: Seq<char>, to: int) -> int
    decreases to,
{
    if 0 < to <= p.len() && p[to - 1] == '/' {
        drop_slashes(p, to - 1)
    } else {
        to
    }
}

/// The index of the last `/` before `to`, or -1 where there is none.
pub open spec fn last_slash(p: Seq<char>, to: int) -> int
    decreases to,
{
    if to <= 0 || to > p.len() {
        -1
    } else if p[to - 1] == '/' {
        to - 1
    } else {
        last_slash(p, to - 1)
    }
}

/// The directory that holds the last component of `p`: `p` without its
/// trailing slashes, its last component and the slashes before that. `None`
/// where `p` has no component at all (it is empty, or slashes only). The
/// root directory comes out as the empty text.
pub open spec fn parent_dir(p: Seq<char>) -> Option<Seq<char>> {
    let end = drop_slashes(p, p.len() as int);
    if end <= 0 {
        None
    } else {
        Some(p.take(drop_slashes(p, last_slash(p, end) + 1)))
    }
}

/// The base name among the components of `p[..to]`: the last component that
/// is neither empty nor `.`; `None` where there is no such component or it is
/// `..`.
pub open spec fn base_name_upto(p: Seq<char>, to: int) -> Option<Seq<char>>
    decreases to,
{
    if to <= 0 || to > p.len() {
        None
    } else {
        let start = last_slash(p, to) + 1;
        let segment = p.subrange(start, to);
        if segment.len() == 0 || segment == seq!['.'] {
            if 0 < start <= to {
                base_name_upto(p, start - 1)
            } else {
                None
            }
        } else if segment == seq!['.', '.'] {
            None
        } else {
            Some(segment)
        }
    }
}

/// The base name of a path: its last component, where trailing slashes and
/// `.` components do not count. A path that ends in `..`, or has no
/// component, has none.
pub open spec fn base_name(p: Seq<char>) -> Option<Seq<char>> {
    base_name_upto(p, p.len() as int)
}

/// `path` is `root` itself or lies below it: it begins with `root`, and after
/// `root` it is at its end or goes on with a `/`. The empty root is the top
/// of the tree, and every path lies under it.
pub open spec fn lies_under(path: Seq<char>, root: Seq<char>) -> bool {
    holds_at(path, 0, root) && (root.len() == 0 || path.len() == root.len()
        || path[root.len() as int] == '/')
}

/// What is left of `path` after the first `n` characters, starting with a
/// `/`: one is put in front where the rest has none.
pub open spec fn rest_from(path: Seq<char>, n: int) -> Seq<char> {
    if 0 <= n < path.len() && path[n] == '/' {
        path.skip(n)
    } else if 0 <= n <= path.len() {
        seq!['/'] + path.skip(n)
    } else {
        seq!['/']
    }
}

/// `path` as seen from `root`, starting with a `/`.
pub open spec fn relative_to(path: Seq<char>, root: Seq<char>) -> Seq<char> {
    rest_from(path, root.len() as int)
}

/// A path that names its own starting point: it begins with `/`, or its
/// second character is `:` as in a drive letter.
pub open spec fn is_rooted(p: Seq<char>) -> bool {
    (p.len() >= 1 && p[0] == '/') || (p.len() >= 2 && p[1] == ':')
}

/// `name` inside the directory `dir`.
pub open spec fn child_of(dir: Seq<char>, name: Seq<char>) -> Seq<char> {
    if dir.len() == 0 || dir.last() == '/' {
        dir + name
    } else {
        dir + seq!['/'] + name
    }
}

/// `rel` seen from `base`: `rel` itself where it is rooted, else `rel` inside
/// `base`.
pub open spec fn join(base: Seq<char>, rel: Seq<char>) -> Seq<char> {
    if is_rooted(rel) {
        rel
    } else {
        child_of(base, rel)
    }
}

/// The verbatim marker that some platforms put before a canonical path, in
/// forward-slash form.
pub open spec fn verbatim_marker() -> Seq<char> {
    seq!['/', '/', '?', '/']
}

/// The first index at or after `from` where `p` does not go on with the
/// verbatim marker.
pub open spec fn skip_markers(p: Seq<char>, from: int) -> int
    decreases p.len() - from,
{
    if holds_at(p, from, verbatim_marker()) {
        skip_markers(p, from + 4)
    } else {
        from
    }
}

/// `p` without the verbatim markers it begins with.
pub open spec fn without_markers(p: Seq<char>) -> Seq<char> {
    p.skip(skip_markers(p, 0))
}

/// The text needs angle brackets as a markdown link destination: it holds a
/// space or a parenthesis.
pub open spec fn needs_angle(p: Seq<char>) -> bool {
    p.contains(' ') || p.contains('(') || p.contains(')')
}

/// `p` between angle brackets.
pub open spec fn in_angles(p: Seq<char>) -> Seq<char> {
    seq!['<'] + p + seq!['>']
}

/// A reference as it is written back: between angle brackets where the
/// syntax asks for that (`wrap`) and the source had them (`angle`) or the
/// text needs them; as it is otherwise.
pub open spec fn quoted(p: Seq<char>, wrap: bool, angle: bool) -> Seq<char> {
    if wrap && (angle || needs_angle(p)) {
        in_angles(p)
    } else {
        p
    }
}

/// `drop_slashes` gives an end at or before the one it was given, after a
/// character that is no slash.
pub proof fn lemma_drop_slashes_bounds(p: Seq<char>, to: int)
    requires
        0 <= to <= p.len(),
    ensures
        0 <= drop_slashes(p, to) <= to,
        drop_slashes(p, to) > 0 ==> p[drop_slashes(p, to) - 1] != '/',
    decreases to,
{
    if 0 < to && p[to - 1] == '/' {
        lemma_drop_slashes_bounds(p, to - 1);
    }
}

/// `last_slash` gives the place of a slash with no slash after it.
pub proof fn lemma_last_slash_bounds(p: Seq<char>, to: int)
    requires
        0 <= to <= p.len(),
    ensures
        -1 <= last_slash(p, to) < to,
        last_slash(p, to) >= 0 ==> p[last_slash(p, to)] == '/',
        forall|k: int| last_slash(p, to) < k < to ==> #[trigger] p[k] != '/',
    decreases to,
{
    if to > 0 && p[to - 1] != '/' {
        lemma_last_slash_bounds(p, to - 1);
    }
}

/// A base name is a piece of the path that holds no `/`, is not empty and is
/// neither `.` nor `..`.
pub proof fn lemma_base_name_upto(p: Seq<char>, to: int)
    requires
        0 <= to <= p.len(),
    ensures
        match base_name_upto(p, to) {
            Some(name) => name.len() > 0 && name.len() <= to && !name.contains('/') && name
                != seq!['.'] && name != seq!['.', '.'],
            None => true,
        },
    decreases to,
{
    if to > 0 {
        lemma_last_slash_bounds(p, to);
        let start = last_slash(p, to) + 1;
        let segment = p.subrange(start, to);
        if segment.len() == 0 || segment == seq!['.'] {
            if 0 < start {
                lemma_base_name_upto(p, start - 1);
            }
        } else if segment == seq!['.', '.'] {
        } else {
            if segment.contains('/') {
                let k = choose|k: int| 0 <= k < segment.len() && segment[k] == '/';
                assert(p[start + k] == '/');
            }
        }
    }
}

/// The relative form names the same place: it starts with a `/`, and put
/// after a root that is not empty it gives the path back, unless the path is
/// the root itself, whose relative form is `/`.
pub proof fn lemma_relative_to(path: Seq<char>, root: Seq<char>)
    requires
        lies_under(path, root),
    ensures
        relative_to(path, root).len() > 0,
        relative_to(path, root).first() == '/',
        path.len() > root.len() > 0 ==> root + relative_to(path, root) == path,
        path.len() == root.len() ==> path == root && relative_to(path, root) == seq!['/'],
        root.len() == 0 && path.len() > 0 && path[0] == '/' ==> relative_to(path, root) == path,
{
    if path.len() > root.len() {
        if path[root.len() as int] == '/' {
            assert(root + path.skip(root.len() as int) =~= path);
        }
        if root.len() == 0 {
            assert(path.skip(0) =~= path);
        }
    } else {
        assert(path.subrange(0, root.len() as int) =~= path);
        assert(seq!['/'] + path.skip(root.len() as int) =~= seq!['/']);
    }
}

/// The directory that holds `dir` holds everything that `dir` holds.
pub proof fn lemma_under_the_parent(path: Seq<char>, dir: Seq<char>)
    requires
        lies_under(path, dir.take(drop_slashes(dir, dir.len() as int))),
        parent_dir(dir).is_some(),
    ensures
        lies_under(path, parent_dir(dir).unwrap()),
{
    let end = drop_slashes(dir, dir.len() as int);
    lemma_drop_slashes_bounds(dir, dir.len() as int);
    lemma_last_slash_bounds(dir, end);
    let slash = last_slash(dir, end);
    lemma_drop_slashes_bounds(dir, slash + 1);
    let cut = drop_slashes(dir, slash + 1);
    let root = dir.take(cut);
    let whole = dir.take(end);
    assert(path.subrange(0, cut) =~= whole.subrange(0, cut));
    assert(whole.subrange(0, cut) =~= root);
    if cut > 0 {
        lemma_slashes_between(dir, slash + 1);
        assert(cut <= slash);
        assert(dir[cut] == '/');
        assert(whole[cut] == '/');
        assert(path.subrange(0, end)[cut] == path[cut]);
    }
}

/// Between the end left by `drop_slashes` and the end it was given there are
/// slashes only.
pub proof fn lemma_slashes_between(p: Seq<char>, to: int)
    requires
        0 <= to <= p.len(),
    ensures
        forall|k: int| drop_slashes(p, to) <= k < to ==> #[trigger] p[k] == '/',
    decreases to,
{
    if 0 < to && p[to - 1] == '/' {
        lemma_slashes_between(p, to - 1);
    }
}

pub(crate) fn drop_slashes_to(p: &Vec<char>, to: usize) -> (r: usize)
    requires
        to <= p.len(),
    ensures
        r == drop_slashes(p@, to as int),
        r <= to,
{
    let mut e: usize = to;
    while e > 0 && p[e - 1] == '/'
        invariant
            e <= to <= p.len(),
            drop_slashes(p@, to as int) == drop_slashes(p@, e as int),
        decreases e,
    {
        e -= 1;
    }
    e
}

/// One more than the index of the last `/` before `to`: where the last
/// segment of `p[..to]` starts.
pub(crate) fn segment_start(p: &Vec<char>, to: usize) -> (r: usize)
    requires
        to <= p.len(),
    ensures
        r == last_slash(p@, to as int) + 1,
        r <= to,
{
    let mut e: usize = to;
    while e > 0 && p[e - 1] != '/'
        invariant
            e <= to <= p.len(),
            last_slash(p@, to as int) == last_slash(p@, e as int),
        decreases e,
    {
        e -= 1;
    }
    e
}

/// The directory that holds the last component of a path.
pub fn parent_of(p: &Vec<char>) -> (r: Option<Vec<char>>)
    ensures
        match r {
            Some(d) => parent_dir(p@) == Some(d@),
            None => parent_dir(p@).is_none(),
        },
{
    let end = drop_slashes_to(p, p.len());
    if end == 0 {
        None
    } else {
        let start = segment_start(p, end);
        let cut = drop_slashes_to(p, start);
        Some(slice_of(p, 0, cut))
    }
}

/// The base name of a path.
pub fn base_name_of(p: &Vec<char>) -> (r: Option<Vec<char>>)
    ensures
        match r {
            Some(name) => base_name(p@) == Some(name@),
            None => base_name(p@).is_none(),
        },
{
    let mut to: usize = p.len();
    while to > 0
        invariant
            to <= p.len(),
            base_name(p@) == base_name_upto(p@, to as int),
        decreases to,
    {
        let start = segment_start(p, to);
        let ghost segment = p@.subrange(start as int, to as int);
        let is_dot = to - start == 1 && p[start] == '.';
        let is_dots = to - start == 2 && p[start] == '.' && p[start + 1] == '.';
        proof {
            if is_dot {
                assert(segment =~= seq!['.']);
            } else if segment == seq!['.'] {
                assert(segment[0] == '.');
            }
            if is_dots {
                assert(segment =~= seq!['.', '.']);
            } else if segment == seq!['.', '.'] {
                assert(segment[0] == '.' && segment[1] == '.');
            }
        }
        if to == start || is_dot {
            if start == 0 {
                return None;
            }
            to = start - 1;
        } else if is_dots {
            return None;
        } else {
            return Some(slice_of(p, start, to));
        }
    }
    None
}

/// Tells whether `path` is `root` or lies below it.
pub fn is_under(path: &Vec<char>, root: &Vec<char>) -> (b: bool)
    ensures
        b == lies_under(path@, root@),
{
    has_at(path, 0, root) && (root.len() == 0 || path.len() == root.len() || path[root.len()]
        == '/')
}

/// `path` as seen from `root`.
pub fn relative_of(path: &Vec<char>, root: &Vec<char>) -> (r: Vec<char>)
    ensures
        r@ == relative_to(path@, root@),
{
    let n = root.len();
    if n < path.len() && path[n] == '/' {
        slice_of(path, n, path.len())
    } else {
        let mut r: Vec<char> = Vec::new();
        r.push('/');
        if n <= path.len() {
            let rest = slice_of(path, n, path.len());
            append(&mut r, &rest);
        }
        proof {
            if n <= path.len() {
                assert(r@ =~= seq!['/'] + path@.skip(n as int));
            } else {
                assert(r@ =~= seq!['/']);
            }
        }
        r
    }
}

/// Tells whether a path names its own starting point.
pub fn rooted(p: &Vec<char>) -> (b: bool)
    ensures
        b == is_rooted(p@),
{
    (p.len() >= 1 && p[0] == '/') || (p.len() >= 2 && p[1] == ':')
}

/// `name` inside the directory `dir`.
pub fn child(dir: &Vec<char>, name: &Vec<char>) -> (r: Vec<char>)
    ensures
        r@ == child_of(dir@, name@),
{
    let mut r = dir.clone();
    if !(dir.len() == 0 || dir[dir.len() - 1] == '/') {
        r.push('/');
        proof {
            assert(r@ =~= dir@ + seq!['/']);
        }
    }
    append(&mut r, name);
    r
}

/// `rel` seen from `base`.
pub fn joined(base: &Vec<char>, rel: &Vec<char>) -> (r: Vec<char>)
    ensures
        r@ == join(base@, rel@),
{
    if rooted(rel) {
        rel.clone()
    } else {
        child(base, rel)
    }
}

/// A path without the verbatim markers it begins with.
pub fn strip_markers(p: &Vec<char>) -> (r: Vec<char>)
    ensures
        r@ == without_markers(p@),
{
    let marker = vec!['/', '/', '?', '/'];
    proof {
        assert(marker@ =~= verbatim_marker());
    }
    let mut from: usize = 0;
    while has_at(p, from, &marker)
        invariant
            from <= p.len(),
            marker@ == verbatim_marker(),
            skip_markers(p@, 0) == skip_markers(p@, from as int),
        decreases p.len() - from,
    {
        from += 4;
    }
    slice_of(p, from, p.len())
}

/// Tells whether `c` occurs in `p`.
pub fn has_char(p: &Vec<char>, c: char) -> (b: bool)
    ensures
        b == p@.contains(c),
{
    let mut i: usize = 0;
    while i < p.len()
        invariant
            i <= p.len(),
            forall|k: int| 0 <= k < i ==> p@[k] != c,
        decreases p.len() - i,
    {
        if p[i] == c {
            return true;
        }
        i += 1;
    }
    false
}

/// A reference as it is written back, between angle brackets where markdown
/// needs them.
pub fn quote(p: &Vec<char>, wrap: bool, angle: bool) -> (r: Vec<char>)
    ensures
        r@ == quoted(p@, wrap, angle),
{
    if wrap && (angle || has_char(p, ' ') || has_char(p, '(') || has_char(p, ')')) {
        let mut r: Vec<char> = Vec::new();
        r.push('<');
        append(&mut r, p);
        r.push('>');
        proof {
            assert(r@ =~= in_angles(p@));
        }
        r
    } else {
        p.clone()
    }
}

} // verus!
