//! The path resolver: what a raw reference points at, and where the asset it
//! names is to be found once the document has moved.
//!
//! Resolving is done in two steps, with one question to the file system in
//! between. [`resolve`] classifies the raw text and, for a local reference,
//! gives the path at which the file is expected. The caller asks the file
//! system for the canonical form of that path and hands the answer to
//! [`locate`], which decides whether the file is referenced in place or has
//! to be copied into the managed assets directory.

use crate::paths::{
    base_name, base_name_of, child, child_of, drop_slashes, in_angles, is_under, join, joined,
    lemma_under_the_parent, lies_under, needs_angle, parent_dir, parent_of, quote, quoted,
    relative_of, relative_to, strip_markers, without_markers,
};
use crate::relocate::{
    destination_file_name, destination_name, digest_of, lemma_names_are_safe, lemma_tag_of,
    plain_name, tag_of,
};
use crate::sanitize::{all_safe, lemma_sanitized, sanitize_chars, sanitized};
use crate::text::{
    append, begins_with, chars_of, forward_slashes, slice_of, starts_with, string_of, trim,
    trimmed, with_forward_slashes,
};
use vstd::prelude::*;

verus! {

/// `c` in lower case where it is an ASCII capital, unchanged otherwise.
pub open spec fn ascii_lower(c: char) -> char {
    if 'A' <= c && c <= 'Z' {
        ((c as u8) + 32) as char
    } else {
        c
    }
}

/// `s` with its ASCII capitals in lower case.
pub open spec fn lowered(s: Seq<char>) -> Seq<char> {
    Seq::new(s.len(), |i: int| ascii_lower(s[i]))
}

/// `s` begins with `scheme`, whatever the case of its letters. `scheme` is
/// given in lower case.
pub open spec fn has_scheme(s: Seq<char>, scheme: Seq<char>) -> bool {
    starts_with(lowered(s), scheme)
}

/// The reference, without the white space round it, begins with one of the
/// external schemes `http://`, `https://`, `data:` and `file:`.
pub open spec fn is_external(raw: Seq<char>) -> bool {
    let t = trim(raw);
    has_scheme(t, "http://"@) || has_scheme(t, "https://"@) || has_scheme(t, "data:"@)
        || has_scheme(t, "file:"@)
}

/// The text stands between angle brackets.
pub open spec fn angle_wrapped(t: Seq<char>) -> bool {
    t.len() >= 2 && t.first() == '<' && t.last() == '>'
}

/// The text without the angle brackets round it, if it has them.
pub open spec fn unwrapped(t: Seq<char>) -> Seq<char> {
    if angle_wrapped(t) {
        t.subrange(1, t.len() - 1)
    } else {
        t
    }
}

/// The path that a local reference names: the reference without the white
/// space and the angle brackets round it, with forward slashes.
pub open spec fn local_text(raw: Seq<char>) -> Seq<char> {
    forward_slashes(unwrapped(trim(raw)))
}

/// The path is `assets` or lies under it: it names a bundled asset already.
pub open spec fn is_bundled(p: Seq<char>) -> bool {
    p == "assets"@ || starts_with(p, "assets/"@)
}

/// A local reference whose file is still to be looked up.
#[derive(Debug)]
pub struct LocalPath {
    /// Where the file is expected: the path as written where it is rooted,
    /// else that path inside the base directory.
    pub joined: String,
    /// The reference stood between angle brackets.
    pub angle: bool,
    /// The syntax it was found in takes angle brackets round a destination.
    pub wrap: bool,
}

/// A local path as text.
pub struct LocalPathView {
    pub joined: Seq<char>,
    pub angle: bool,
    pub wrap: bool,
}

impl View for LocalPath {
    type V = LocalPathView;

    open spec fn view(&self) -> LocalPathView {
        LocalPathView { joined: self.joined@, angle: self.angle, wrap: self.wrap }
    }
}

/// What a raw reference turned out to be.
#[derive(Debug)]
pub enum ResolvedLocation {
    /// A reference to something outside the file system; the text is the raw
    /// reference, untouched.
    External(String),
    /// A reference into the bundled assets; the text is the reference to
    /// write back.
    Bundled(String),
    /// A reference to a local file.
    Local(LocalPath),
}

/// A resolved location as text.
pub enum ResolvedLocationView {
    External(Seq<char>),
    Bundled(Seq<char>),
    Local(LocalPathView),
}

impl View for ResolvedLocation {
    type V = ResolvedLocationView;

    open spec fn view(&self) -> ResolvedLocationView {
        match self {
            ResolvedLocation::External(s) => ResolvedLocationView::External(s@),
            ResolvedLocation::Bundled(s) => ResolvedLocationView::Bundled(s@),
            ResolvedLocation::Local(l) => ResolvedLocationView::Local(l@),
        }
    }
}

/// The outcome of [`resolve`].
pub open spec fn resolved(base_dir: Seq<char>, raw: Seq<char>, wrap: bool) -> ResolvedLocationView {
    if is_external(raw) {
        ResolvedLocationView::External(raw)
    } else if is_bundled(local_text(raw)) {
        ResolvedLocationView::Bundled(
            quoted(seq!['/'] + local_text(raw), wrap, angle_wrapped(trim(raw))),
        )
    } else {
        ResolvedLocationView::Local(
            LocalPathView {
                joined: join(base_dir, local_text(raw)),
                angle: angle_wrapped(trim(raw)),
                wrap,
            },
        )
    }
}

/// A file that has to be copied into the managed assets directory.
#[derive(Debug)]
pub struct Candidate {
    /// The path to copy from, as the file system gave it.
    pub source: String,
    /// The sanitized base name of the file.
    pub name: String,
    /// The managed assets directory.
    pub directory: String,
    /// The reference stood between angle brackets.
    pub angle: bool,
    /// The syntax it was found in takes angle brackets round a destination.
    pub wrap: bool,
}

/// A candidate as text.
pub struct CandidateView {
    pub source: Seq<char>,
    pub name: Seq<char>,
    pub directory: Seq<char>,
    pub angle: bool,
    pub wrap: bool,
}

impl View for Candidate {
    type V = CandidateView;

    open spec fn view(&self) -> CandidateView {
        CandidateView {
            source: self.source@,
            name: self.name@,
            directory: self.directory@,
            angle: self.angle,
            wrap: self.wrap,
        }
    }
}

impl CandidateView {
    /// The path whose presence decides the file's name.
    pub open spec fn probe_path(self) -> Seq<char> {
        child_of(self.directory, plain_name(self.name))
    }

    /// The name the file is kept under.
    pub open spec fn file_name(self, taken: bool) -> Seq<char> {
        destination_name(self.name, self.source, taken)
    }

    /// The path the file is copied to.
    pub open spec fn destination_path(self, taken: bool) -> Seq<char> {
        child_of(self.directory, self.file_name(taken))
    }

    /// The reference written back once the file was copied.
    pub open spec fn reference(self, taken: bool) -> Seq<char> {
        quoted("/assets/"@ + self.file_name(taken), self.wrap, self.angle)
    }
}

/// Where the asset of a local reference is found.
#[derive(Debug)]
pub enum Placement {
    /// Inside the content root already: the text is the reference to write
    /// back, and nothing is copied.
    RootRelative(String),
    /// There is no managed assets directory, or the path names no file: the
    /// text is the absolute path, and nothing is copied.
    Absolute(String),
    /// The file is to be copied into the managed assets directory.
    Relocate(Candidate),
}

/// A placement as text.
pub enum PlacementView {
    RootRelative(Seq<char>),
    Absolute(Seq<char>),
    Relocate(CandidateView),
}

impl View for Placement {
    type V = PlacementView;

    open spec fn view(&self) -> PlacementView {
        match self {
            Placement::RootRelative(s) => PlacementView::RootRelative(s@),
            Placement::Absolute(s) => PlacementView::Absolute(s@),
            Placement::Relocate(c) => PlacementView::Relocate(c@),
        }
    }
}

/// The path to copy from: the canonical path where the file system gave one,
/// else the path at which the file was expected.
pub open spec fn source_path(local: LocalPathView, canonical: Option<Seq<char>>) -> Seq<char> {
    match canonical {
        Some(c) => c,
        None => local.joined,
    }
}

/// A path as it is compared and written back: with forward slashes and
/// without verbatim markers in front.
pub open spec fn display_path(source: Seq<char>) -> Seq<char> {
    without_markers(forward_slashes(source))
}

/// The managed assets directory as text: with forward slashes, and without
/// slashes at its end.
pub open spec fn assets_dir(assets_root: Seq<char>) -> Seq<char> {
    forward_slashes(assets_root).take(
        drop_slashes(forward_slashes(assets_root), assets_root.len() as int),
    )
}

/// The content root: the directory that holds the managed assets directory.
pub open spec fn content_root(assets_root: Option<Seq<char>>) -> Option<Seq<char>> {
    match assets_root {
        Some(a) => parent_dir(forward_slashes(a)),
        None => None,
    }
}

/// The path lies in the content root.
pub open spec fn in_content_root(path: Seq<char>, assets_root: Option<Seq<char>>) -> bool {
    content_root(assets_root).is_some() && lies_under(path, content_root(assets_root).unwrap())
}

/// The outcome of [`locate`].
pub open spec fn placed(
    local: LocalPathView,
    canonical: Option<Seq<char>>,
    assets_root: Option<Seq<char>>,
) -> PlacementView {
    let source = source_path(local, canonical);
    let path = display_path(source);
    if in_content_root(path, assets_root) {
        PlacementView::RootRelative(
            quoted(relative_to(path, content_root(assets_root).unwrap()), local.wrap, local.angle),
        )
    } else if assets_root.is_some() && base_name(path).is_some() {
        PlacementView::Relocate(
            CandidateView {
                source,
                name: sanitized(base_name(path).unwrap()),
                directory: assets_root.unwrap(),
                angle: local.angle,
                wrap: local.wrap,
            },
        )
    } else {
        PlacementView::Absolute(quoted(path, local.wrap, local.angle))
    }
}

/// An external reference is handed back as it was written, whatever the base
/// directory and the syntax it was found in.
pub proof fn lemma_external_is_untouched(base_dir: Seq<char>, raw: Seq<char>, wrap: bool)
    requires
        is_external(raw),
    ensures
        resolved(base_dir, raw, wrap) == ResolvedLocationView::External(raw),
{
}

/// A file that lies under the content root is referenced in place: nothing
/// is copied, and the reference is the path as seen from the content root.
/// What lies under the managed assets directory lies under the content root.
pub proof fn lemma_inside_is_referenced_in_place(
    local: LocalPathView,
    canonical: Option<Seq<char>>,
    assets_root: Seq<char>,
)
    requires
        content_root(Some(assets_root)).is_some(),
        ({
            let path = display_path(source_path(local, canonical));
            lies_under(path, content_root(Some(assets_root)).unwrap()) || lies_under(
                path,
                assets_dir(assets_root),
            )
        }),
    ensures
        ({
            let path = display_path(source_path(local, canonical));
            let root = content_root(Some(assets_root)).unwrap();
            &&& lies_under(path, root)
            &&& placed(local, canonical, Some(assets_root)) == PlacementView::RootRelative(
                quoted(relative_to(path, root), local.wrap, local.angle),
            )
        }),
{
    let path = display_path(source_path(local, canonical));
    if lies_under(path, assets_dir(assets_root)) {
        lemma_under_the_parent(path, forward_slashes(assets_root));
    }
}

/// The file that is to be copied keeps a safe name: the candidate that
/// [`locate`] gives carries the sanitized base name of the path, which is
/// never empty.
pub proof fn lemma_candidate_name_is_safe(
    local: LocalPathView,
    canonical: Option<Seq<char>>,
    assets_root: Option<Seq<char>>,
)
    ensures
        match placed(local, canonical, assets_root) {
            PlacementView::Relocate(c) => {
                &&& assets_root == Some(c.directory)
                &&& c.source == source_path(local, canonical)
                &&& c.name.len() > 0
                &&& all_safe(c.name)
                &&& !in_content_root(display_path(c.source), assets_root)
            },
            _ => true,
        },
{
    let path = display_path(source_path(local, canonical));
    if base_name(path).is_some() {
        lemma_sanitized(base_name(path).unwrap());
    }
}

/// A copy goes into the managed assets directory and nowhere else: the path
/// to copy to is the directory with one name in it, a name of safe
/// characters only, without a separator. The reference written back is
/// `/assets/` and that name, between angle brackets only where the source
/// had them and the syntax takes them.
pub proof fn lemma_copy_stays_in_the_assets_directory(c: CandidateView, taken: bool)
    requires
        all_safe(c.name),
    ensures
        c.destination_path(taken) == child_of(c.directory, c.file_name(taken)),
        c.probe_path() == c.destination_path(false),
        all_safe(c.file_name(taken)),
        !c.file_name(taken).contains('/'),
        !c.file_name(taken).contains('\\'),
        c.reference(taken) == if c.wrap && c.angle {
            in_angles("/assets/"@ + c.file_name(taken))
        } else {
            "/assets/"@ + c.file_name(taken)
        },
{
    let tag = tag_of(digest_of(c.source));
    lemma_tag_of(digest_of(c.source));
    lemma_names_are_safe(c.name, tag);
    let name = c.file_name(taken);
    let text = "/assets/"@ + name;
    reveal_strlit("/assets/");
    assert forall|k: int| 0 <= k < text.len() implies #[trigger] text[k] != ' ' && text[k] != '('
        && text[k] != ')' by {
        if k >= 8 {
            assert(text[k] == name[k - 8]);
        }
    }
    assert(!needs_angle(text));
}

fn to_lower(c: char) -> (r: char)
    ensures
        r == ascii_lower(c),
{
    if 'A' <= c && c <= 'Z' {
        ((c as u8) + 32) as char
    } else {
        c
    }
}

fn begins_with_scheme(v: &Vec<char>, scheme: &str) -> (b: bool)
    ensures
        b == has_scheme(v@, scheme@),
{
    let p = chars_of(scheme);
    if p.len() > v.len() {
        return false;
    }
    let mut i: usize = 0;
    while i < p.len()
        invariant
            i <= p.len() <= v.len(),
            p@ == scheme@,
            forall|k: int| 0 <= k < i ==> ascii_lower(v@[k]) == p@[k],
        decreases p.len() - i,
    {
        if to_lower(v[i]) != p[i] {
            proof {
                let head = lowered(v@).subrange(0, p.len() as int);
                assert(head[i as int] == ascii_lower(v@[i as int]));
                assert(head[i as int] != p@[i as int]);
            }
            return false;
        }
        i += 1;
    }
    proof {
        assert(lowered(v@).subrange(0, p.len() as int) =~= p@);
    }
    true
}

fn external(t: &Vec<char>) -> (b: bool)
    ensures
        b == (has_scheme(t@, "http://"@) || has_scheme(t@, "https://"@) || has_scheme(
            t@,
            "data:"@,
        ) || has_scheme(t@, "file:"@)),
{
    begins_with_scheme(t, "http://") || begins_with_scheme(t, "https://") || begins_with_scheme(
        t,
        "data:",
    ) || begins_with_scheme(t, "file:")
}

fn bundled(p: &Vec<char>) -> (b: bool)
    ensures
        b == is_bundled(p@),
{
    let dir = chars_of("assets");
    let prefix = chars_of("assets/");
    let same = dir.len() == p.len() && begins_with(p, &dir);
    proof {
        if same {
            assert(p@.subrange(0, p.len() as int) =~= p@);
        }
        if p@ == dir@ {
            assert(p@.subrange(0, p.len() as int) =~= p@);
        }
    }
    same || begins_with(p, &prefix)
}

/// Tells an external reference from a local one.
pub fn is_external_reference(raw: &str) -> (b: bool)
    ensures
        b == is_external(raw@),
{
    let chars = chars_of(raw);
    let t = trimmed(&chars);
    external(&t)
}

/// Classifies a raw reference, found in a document that lies in `base_dir`.
///
/// An external reference comes back untouched. A reference that begins with
/// `assets/` is made root-relative at once. For any other reference the
/// result gives the path at which the file is expected. `wrap` says whether
/// the syntax takes angle brackets round a destination that needs them.
pub fn resolve(base_dir: &str, raw: &str, wrap: bool) -> (r: ResolvedLocation)
    ensures
        r@ == resolved(base_dir@, raw@, wrap),
        is_external(raw@) ==> r@ == ResolvedLocationView::External(raw@),
{
    let chars = chars_of(raw);
    let t = trimmed(&chars);
    if external(&t) {
        return ResolvedLocation::External(string_of(&chars));
    }
    let angle = t.len() >= 2 && t[0] == '<' && t[t.len() - 1] == '>';
    let inner = if angle {
        slice_of(&t, 1, t.len() - 1)
    } else {
        t
    };
    let path = with_forward_slashes(&inner);
    if bundled(&path) {
        let mut text: Vec<char> = Vec::new();
        text.push('/');
        append(&mut text, &path);
        proof {
            assert(text@ =~= seq!['/'] + path@);
        }
        let q = quote(&text, wrap, angle);
        return ResolvedLocation::Bundled(string_of(&q));
    }
    let base = chars_of(base_dir);
    let j = joined(&base, &path);
    ResolvedLocation::Local(LocalPath { joined: string_of(&j), angle, wrap })
}

/// Decides where the asset of a local reference is found.
///
/// `canonical` is what the file system gave as the canonical form of
/// `local.joined`, or `None` where it gave none (the file is missing, say);
/// the joined path then stands for it. `assets_root` is the managed assets
/// directory, if there is one.
pub fn locate(local: &LocalPath, canonical: Option<&str>, assets_root: Option<&str>) -> (r:
    Placement)
    ensures
        r@ == placed(local@, canonical.deep_view(), assets_root.deep_view()),
{
    let source = match canonical {
        Some(c) => chars_of(c),
        None => chars_of(local.joined.as_str()),
    };
    let slashed = with_forward_slashes(&source);
    let path = strip_markers(&slashed);
    match assets_root {
        Some(assets) => {
            let assets_chars = chars_of(assets);
            let assets_slashed = with_forward_slashes(&assets_chars);
            match parent_of(&assets_slashed) {
                Some(root) => {
                    if is_under(&path, &root) {
                        let rel = relative_of(&path, &root);
                        let q = quote(&rel, local.wrap, local.angle);
                        return Placement::RootRelative(string_of(&q));
                    }
                },
                None => {},
            }
            match base_name_of(&path) {
                Some(base) => {
                    let name = sanitize_chars(&base);
                    return Placement::Relocate(
                        Candidate {
                            source: string_of(&source),
                            name: string_of(&name),
                            directory: string_of(&assets_chars),
                            angle: local.angle,
                            wrap: local.wrap,
                        },
                    );
                },
                None => {},
            }
        },
        None => {},
    }
    let q = quote(&path, local.wrap, local.angle);
    Placement::Absolute(string_of(&q))
}

impl Candidate {
    /// The path to ask the file system about: where the file would be kept
    /// under its plain name.
    pub fn probe_path(&self) -> (r: String)
        ensures
            r@ == self@.probe_path(),
    {
        let name = destination_file_name(self.name.as_str(), self.source.as_str(), false);
        let p = child(&chars_of(self.directory.as_str()), &chars_of(name.as_str()));
        string_of(&p)
    }

    /// The name the file is kept under; `taken` says whether a file exists
    /// at the probe path.
    pub fn file_name(&self, taken: bool) -> (r: String)
        ensures
            r@ == self@.file_name(taken),
    {
        destination_file_name(self.name.as_str(), self.source.as_str(), taken)
    }

    /// The path to copy the file to.
    pub fn destination_path(&self, taken: bool) -> (r: String)
        ensures
            r@ == self@.destination_path(taken),
    {
        let name = self.file_name(taken);
        let p = child(&chars_of(self.directory.as_str()), &chars_of(name.as_str()));
        string_of(&p)
    }

    /// The reference to write back once the file was copied.
    pub fn reference(&self, taken: bool) -> (r: String)
        ensures
            r@ == self@.reference(taken),
    {
        let name = self.file_name(taken);
        let mut text = chars_of("/assets/");
        append(&mut text, &chars_of(name.as_str()));
        let q = quote(&text, self.wrap, self.angle);
        string_of(&q)
    }
}

} // verus!
