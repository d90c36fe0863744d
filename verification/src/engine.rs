//! The relocation engine as a state machine.
//!
//! The engine rewrites a document in three passes, one for each syntax, each
//! pass reading what the pass before it wrote. It never touches the file
//! system. Where it needs something from it, it stops and says what: the
//! canonical form of a path, whether a file exists, or a copy to be made. The
//! caller does that and hands the answer back, until the engine is finished:
//!
//! ```text
//! let mut engine = Rewriter::new(text, base_dir, assets_root);
//! loop {
//!     let reply = match engine.request() {
//!         Request::Canonicalize(path) => Reply::Canonical(/* ask the file system */),
//!         Request::Exists(path) => Reply::Exists(/* ask the file system */),
//!         Request::Copy { from, to } => Reply::Copied(/* copy, and say whether it worked */),
//!         Request::Finished => break,
//!     };
//!     engine = engine.reply(reply);
//! }
//! let rewritten = engine.text();
//! ```

use crate::paths::{child_of, quoted, relative_to};
use crate::resolve::{
    content_root, display_path, in_content_root, is_external, lemma_candidate_name_is_safe,
    lemma_copy_stays_in_the_assets_directory, locate, placed, resolve, resolved, source_path,
    Candidate, CandidateView, LocalPath, LocalPathView, Placement, PlacementView,
    ResolvedLocation, ResolvedLocationView,
};
use crate::sanitize::all_safe;
use crate::rewrite::{
    lemma_unresolved_document_is_unchanged, rewritten, substitute, texts,
};
use crate::scan::{in_order, references, scan, views, Reference, ReferenceView, SyntaxKind};
use crate::text::{chars_of, string_of};
use vstd::prelude::*;

verus! {

/// The number of passes over a document.
pub const PASSES: u8 = 3;

/// The syntax that a pass looks for.
pub open spec fn kind_of(stage: int) -> SyntaxKind {
    if stage <= 0 {
        SyntaxKind::MarkdownImage
    } else if stage == 1 {
        SyntaxKind::HtmlImg
    } else {
        SyntaxKind::RawCall
    }
}

/// What the engine asks of its caller.
#[derive(Debug)]
pub enum Request {
    /// The canonical form of this path, if the file system gives one.
    Canonicalize(String),
    /// Whether a file exists at this path.
    Exists(String),
    /// To copy the file at `from` to `to`, over whatever is there.
    Copy { from: String, to: String },
    /// Nothing: the document is rewritten.
    Finished,
}

/// A request as texts.
pub enum RequestView {
    Canonicalize(Seq<char>),
    Exists(Seq<char>),
    Copy { from: Seq<char>, to: Seq<char> },
    Finished,
}

impl View for Request {
    type V = RequestView;

    open spec fn view(&self) -> RequestView {
        match self {
            Request::Canonicalize(p) => RequestView::Canonicalize(p@),
            Request::Exists(p) => RequestView::Exists(p@),
            Request::Copy { from, to } => RequestView::Copy { from: from@, to: to@ },
            Request::Finished => RequestView::Finished,
        }
    }
}

/// What the caller answers.
#[derive(Debug)]
pub enum Reply {
    /// The canonical form of the path, or `None` where there is none.
    Canonical(Option<String>),
    /// Whether a file exists at the path.
    Exists(bool),
    /// Whether the copy was made.
    Copied(bool),
}

/// A reply as texts.
pub enum ReplyView {
    Canonical(Option<Seq<char>>),
    Exists(bool),
    Copied(bool),
}

/// An optional string as an optional text.
pub open spec fn text_of(o: Option<String>) -> Option<Seq<char>> {
    match o {
        Some(s) => Some(s@),
        None => None,
    }
}

impl View for Reply {
    type V = ReplyView;

    open spec fn view(&self) -> ReplyView {
        match self {
            Reply::Canonical(c) => ReplyView::Canonical(text_of(*c)),
            Reply::Exists(b) => ReplyView::Exists(*b),
            Reply::Copied(b) => ReplyView::Copied(*b),
        }
    }
}

/// What the engine is waiting for.
#[derive(Debug)]
pub enum Pending {
    /// Nothing.
    Idle,
    /// The canonical form of a local path.
    Canonical(LocalPath),
    /// Whether the plain name of a candidate is taken.
    Exists(Candidate),
    /// The copy of a candidate; the flag says whether its plain name was
    /// taken.
    Copy(Candidate, bool),
}

/// What the engine is waiting for, as texts.
pub enum PendingView {
    Idle,
    Canonical(LocalPathView),
    Exists(CandidateView),
    Copy(CandidateView, bool),
}

impl View for Pending {
    type V = PendingView;

    open spec fn view(&self) -> PendingView {
        match self {
            Pending::Idle => PendingView::Idle,
            Pending::Canonical(l) => PendingView::Canonical(l@),
            Pending::Exists(c) => PendingView::Exists(c@),
            Pending::Copy(c, taken) => PendingView::Copy(c@, *taken),
        }
    }
}

/// The state of the engine.
pub struct RewriterView {
    /// The directory that the document lies in.
    pub base_dir: Seq<char>,
    /// The managed assets directory, if there is one.
    pub assets_root: Option<Seq<char>>,
    /// The number of passes that are done.
    pub stage: int,
    /// The document as the current pass found it; once all passes are done,
    /// the rewritten document.
    pub text: Seq<char>,
    /// The outcomes of the references of the current pass that are dealt
    /// with, in order.
    pub outcomes: Seq<Option<Seq<char>>>,
    /// What the engine is waiting for, on behalf of the next reference.
    pub pending: PendingView,
    /// The destinations, as they stood in the document, of the references
    /// that were left as they were because their copy failed.
    pub failures: Seq<Seq<char>>,
}

impl RewriterView {
    /// All passes are done.
    pub open spec fn finished(self) -> bool {
        self.stage >= PASSES
    }

    /// The references of the current pass.
    pub open spec fn references(self) -> Seq<ReferenceView> {
        references(kind_of(self.stage), self.text)
    }

    /// The reference that is dealt with next.
    pub open spec fn current(self) -> ReferenceView {
        self.references()[self.outcomes.len() as int]
    }

    /// The same state, waiting for something else.
    pub open spec fn waiting_for(self, pending: PendingView) -> RewriterView {
        RewriterView {
            base_dir: self.base_dir,
            assets_root: self.assets_root,
            stage: self.stage,
            text: self.text,
            outcomes: self.outcomes,
            pending,
            failures: self.failures,
        }
    }

    /// The state after the current reference was given its outcome: a
    /// resolved destination, or none where its copy failed.
    pub open spec fn recorded(self, outcome: Option<Seq<char>>) -> RewriterView {
        RewriterView {
            base_dir: self.base_dir,
            assets_root: self.assets_root,
            stage: self.stage,
            text: self.text,
            outcomes: self.outcomes.push(outcome),
            pending: PendingView::Idle,
            failures: if outcome.is_none() {
                self.failures.push(self.current().raw_path)
            } else {
                self.failures
            },
        }
    }

    /// The state after the current pass: its outcomes are written into the
    /// document, and the next pass begins.
    pub open spec fn next_pass(self) -> RewriterView {
        RewriterView {
            base_dir: self.base_dir,
            assets_root: self.assets_root,
            stage: self.stage + 1,
            text: rewritten(self.text, self.references(), self.outcomes),
            outcomes: Seq::empty(),
            pending: PendingView::Idle,
            failures: self.failures,
        }
    }

    /// The state in which the engine next stops: it goes on through
    /// references that need nothing from the file system, and from pass to
    /// pass, until a reference needs something or all passes are done.
    pub open spec fn settled(self) -> RewriterView
        decreases PASSES - self.stage, self.references().len() - self.outcomes.len(),
    {
        if self.stage < 0 || self.stage >= PASSES {
            self
        } else if self.outcomes.len() >= self.references().len() {
            self.next_pass().settled()
        } else {
            match resolved(
                self.base_dir,
                self.current().raw_path,
                kind_of(self.stage).wraps(),
            ) {
                ResolvedLocationView::External(p) => self.recorded(Some(p)).settled(),
                ResolvedLocationView::Bundled(p) => self.recorded(Some(p)).settled(),
                ResolvedLocationView::Local(l) => self.waiting_for(PendingView::Canonical(l)),
            }
        }
    }

    /// What the engine asks for in this state.
    pub open spec fn request(self) -> RequestView {
        match self.pending {
            PendingView::Idle => RequestView::Finished,
            PendingView::Canonical(l) => RequestView::Canonicalize(l.joined),
            PendingView::Exists(c) => RequestView::Exists(c.probe_path()),
            PendingView::Copy(c, taken) => RequestView::Copy {
                from: c.source,
                to: c.destination_path(taken),
            },
        }
    }

    /// The state after a reply. A reply that does not answer what was asked
    /// changes nothing.
    pub open spec fn after(self, reply: ReplyView) -> RewriterView {
        match (self.pending, reply) {
            (PendingView::Canonical(l), ReplyView::Canonical(c)) => match placed(
                l,
                c,
                self.assets_root,
            ) {
                PlacementView::RootRelative(p) => self.recorded(Some(p)).settled(),
                PlacementView::Absolute(p) => self.recorded(Some(p)).settled(),
                PlacementView::Relocate(c) => self.waiting_for(PendingView::Exists(c)),
            },
            (PendingView::Exists(c), ReplyView::Exists(taken)) => self.waiting_for(
                PendingView::Copy(c, taken),
            ),
            (PendingView::Copy(c, taken), ReplyView::Copied(done)) => if done {
                self.recorded(Some(c.reference(taken))).settled()
            } else {
                self.recorded(None).settled()
            },
            _ => self,
        }
    }

    /// The states that the engine can be in.
    pub open spec fn wf(self) -> bool {
        &&& 0 <= self.stage <= PASSES
        &&& self.finished() ==> self.outcomes.len() == 0
        &&& self.finished() <==> self.pending is Idle
        &&& !self.finished() ==> self.outcomes.len() < self.references().len()
        &&& match self.pending {
            PendingView::Exists(c) => all_safe(c.name) && self.assets_root == Some(c.directory),
            PendingView::Copy(c, _) => all_safe(c.name) && self.assets_root == Some(c.directory),
            _ => true,
        }
    }
}

/// The state in which the engine first stops.
pub open spec fn started(
    text: Seq<char>,
    base_dir: Seq<char>,
    assets_root: Option<Seq<char>>,
) -> RewriterView {
    RewriterView {
        base_dir,
        assets_root,
        stage: 0,
        text,
        outcomes: Seq::empty(),
        pending: PendingView::Idle,
        failures: Seq::empty(),
    }.settled()
}

/// Where the engine stops it is well formed: finished and idle, or waiting
/// on behalf of a reference that is there.
pub proof fn lemma_settled_is_wf(s: RewriterView)
    requires
        0 <= s.stage <= PASSES,
        s.finished() ==> s.outcomes.len() == 0,
        s.pending is Idle,
    ensures
        s.settled().wf(),
        s.settled().base_dir == s.base_dir,
        s.settled().assets_root == s.assets_root,
        s.settled().stage >= s.stage,
    decreases PASSES - s.stage, s.references().len() - s.outcomes.len(),
{
    if s.stage < PASSES {
        if s.outcomes.len() >= s.references().len() {
            lemma_settled_is_wf(s.next_pass());
        } else {
            match resolved(s.base_dir, s.current().raw_path, kind_of(s.stage).wraps()) {
                ResolvedLocationView::External(p) => lemma_settled_is_wf(s.recorded(Some(p))),
                ResolvedLocationView::Bundled(p) => lemma_settled_is_wf(s.recorded(Some(p))),
                ResolvedLocationView::Local(l) => {},
            }
        }
    }
}

/// Every reply leaves the engine well formed.
pub proof fn lemma_after_is_wf(s: RewriterView, reply: ReplyView)
    requires
        s.wf(),
    ensures
        s.after(reply).wf(),
        s.after(reply).stage >= s.stage,
{
    match (s.pending, reply) {
        (PendingView::Canonical(l), ReplyView::Canonical(c)) => match placed(
            l,
            c,
            s.assets_root,
        ) {
            PlacementView::RootRelative(p) => lemma_settled_is_wf(s.recorded(Some(p))),
            PlacementView::Absolute(p) => lemma_settled_is_wf(s.recorded(Some(p))),
            PlacementView::Relocate(found) => lemma_candidate_name_is_safe(l, c, s.assets_root),
        },
        (PendingView::Exists(c), ReplyView::Exists(taken)) => {},
        (PendingView::Copy(c, taken), ReplyView::Copied(done)) => {
            if done {
                lemma_settled_is_wf(s.recorded(Some(c.reference(taken))));
            } else {
                lemma_settled_is_wf(s.recorded(None));
            }
        },
        _ => {},
    }
}

/// A document that holds no reference of any kind is finished at once: it is
/// handed back as it was, nothing is asked of the file system, and no
/// failure is recorded.
pub proof fn lemma_plain_document_is_unchanged(
    text: Seq<char>,
    base_dir: Seq<char>,
    assets_root: Option<Seq<char>>,
)
    requires
        references(SyntaxKind::MarkdownImage, text).len() == 0,
        references(SyntaxKind::HtmlImg, text).len() == 0,
        references(SyntaxKind::RawCall, text).len() == 0,
    ensures
        started(text, base_dir, assets_root).finished(),
        started(text, base_dir, assets_root).text == text,
        started(text, base_dir, assets_root).request() == RequestView::Finished,
        started(text, base_dir, assets_root).failures.len() == 0,
{
    let none = Seq::<Option<Seq<char>>>::empty();
    let s0 = RewriterView {
        base_dir,
        assets_root,
        stage: 0,
        text,
        outcomes: none,
        pending: PendingView::Idle,
        failures: Seq::empty(),
    };
    lemma_unresolved_document_is_unchanged(text, references(SyntaxKind::MarkdownImage, text), none);
    lemma_unresolved_document_is_unchanged(text, references(SyntaxKind::HtmlImg, text), none);
    lemma_unresolved_document_is_unchanged(text, references(SyntaxKind::RawCall, text), none);
    let s1 = s0.next_pass();
    assert(s1.text == text);
    let s2 = s1.next_pass();
    assert(s2.text == text);
    let s3 = s2.next_pass();
    assert(s3.text == text);
    assert(s3.settled() == s3);
    assert(s2.settled() == s3);
    assert(s1.settled() == s3);
    assert(s0.settled() == s3);
}

/// An external reference is written back as it stood, and nothing is asked
/// of the file system on its behalf: the engine goes on to what follows it.
pub proof fn lemma_external_reference_is_kept(s: RewriterView)
    requires
        0 <= s.stage < PASSES,
        s.outcomes.len() < s.references().len(),
        is_external(s.current().raw_path),
    ensures
        s.settled() == s.recorded(Some(s.current().raw_path)).settled(),
{
}

/// A file that lies in the content root is referenced in place: once its
/// canonical path is known, the reference gets the path as seen from the
/// content root, and the engine goes on to what follows it. It asks neither
/// whether a name is taken nor for a copy.
pub proof fn lemma_file_in_content_root_is_not_copied(
    s: RewriterView,
    local: LocalPathView,
    canonical: Option<Seq<char>>,
)
    requires
        s.pending == PendingView::Canonical(local),
        in_content_root(display_path(source_path(local, canonical)), s.assets_root),
    ensures
        s.after(ReplyView::Canonical(canonical)) == s.recorded(
            Some(
                quoted(
                    relative_to(
                        display_path(source_path(local, canonical)),
                        content_root(s.assets_root).unwrap(),
                    ),
                    local.wrap,
                    local.angle,
                ),
            ),
        ).settled(),
{
}

/// A reference whose copy failed is left as it stood in the document, and
/// its destination is added to the failures; the engine goes on to what
/// follows it.
pub proof fn lemma_failed_copy_is_recorded(s: RewriterView, c: CandidateView, taken: bool)
    requires
        s.pending == PendingView::Copy(c, taken),
    ensures
        s.after(ReplyView::Copied(false)) == s.recorded(None).settled(),
        s.recorded(None).outcomes.last().is_none(),
        s.recorded(None).failures == s.failures.push(s.current().raw_path),
{
}

/// The engine writes into the managed assets directory and nowhere else:
/// whenever it asks for a copy, the path to copy to is that directory with
/// one name in it, a name of safe characters without a separator.
pub proof fn lemma_copies_stay_in_the_assets_directory(s: RewriterView)
    requires
        s.wf(),
    ensures
        match s.request() {
            RequestView::Copy { from, to } => exists|name: Seq<char>|
                #![auto]
                s.assets_root.is_some() && to == child_of(s.assets_root.unwrap(), name)
                    && all_safe(name) && !name.contains('/') && !name.contains('\\'),
            _ => true,
        },
{
    match s.pending {
        PendingView::Copy(c, taken) => {
            lemma_copy_stays_in_the_assets_directory(c, taken);
            assert(s.request() == RequestView::Copy {
                from: c.source,
                to: child_of(s.assets_root.unwrap(), c.file_name(taken)),
            });
        },
        _ => {},
    }
}

/// How far the engine is from asking nothing more on behalf of the current
/// reference.
pub open spec fn rank(pending: PendingView) -> int {
    match pending {
        PendingView::Idle => 0,
        PendingView::Copy(_, _) => 1,
        PendingView::Exists(_) => 2,
        PendingView::Canonical(_) => 3,
    }
}

/// The reply answers what the engine is waiting for.
pub open spec fn answers(pending: PendingView, reply: ReplyView) -> bool {
    match (pending, reply) {
        (PendingView::Canonical(_), ReplyView::Canonical(_)) => true,
        (PendingView::Exists(_), ReplyView::Exists(_)) => true,
        (PendingView::Copy(_, _), ReplyView::Copied(_)) => true,
        _ => false,
    }
}

impl RewriterView {
    /// This state is further on than `earlier`: in a later pass; or in the
    /// same pass over the same document with more references dealt with; or
    /// at the same reference with less left to ask.
    pub open spec fn further_than(self, earlier: RewriterView) -> bool {
        self.stage > earlier.stage || (self.stage == earlier.stage && self.text == earlier.text
            && (self.outcomes.len() > earlier.outcomes.len() || (self.outcomes.len()
            == earlier.outcomes.len() && rank(self.pending) < rank(earlier.pending))))
    }
}

proof fn lemma_settled_goes_on(s: RewriterView)
    requires
        0 <= s.stage <= PASSES,
    ensures
        s.settled().stage > s.stage || (s.settled().stage == s.stage && s.settled().text == s.text
            && s.settled().outcomes.len() >= s.outcomes.len()),
    decreases PASSES - s.stage, s.references().len() - s.outcomes.len(),
{
    if s.stage < PASSES {
        if s.outcomes.len() >= s.references().len() {
            lemma_settled_goes_on(s.next_pass());
        } else {
            match resolved(s.base_dir, s.current().raw_path, kind_of(s.stage).wraps()) {
                ResolvedLocationView::External(p) => lemma_settled_goes_on(s.recorded(Some(p))),
                ResolvedLocationView::Bundled(p) => lemma_settled_goes_on(s.recorded(Some(p))),
                ResolvedLocationView::Local(l) => {},
            }
        }
    }
}

/// The engine comes to an end: every answer to what it asked brings it
/// further, and there is only so far to go, three passes with so many
/// references each and three questions for a reference. An answer to
/// something else leaves it where it is.
pub proof fn lemma_every_answer_brings_the_engine_further(s: RewriterView, reply: ReplyView)
    requires
        s.wf(),
    ensures
        answers(s.pending, reply) ==> s.after(reply).further_than(s),
        !answers(s.pending, reply) ==> s.after(reply) == s,
{
    match (s.pending, reply) {
        (PendingView::Canonical(l), ReplyView::Canonical(c)) => match placed(
            l,
            c,
            s.assets_root,
        ) {
            PlacementView::RootRelative(p) => lemma_settled_goes_on(s.recorded(Some(p))),
            PlacementView::Absolute(p) => lemma_settled_goes_on(s.recorded(Some(p))),
            PlacementView::Relocate(c) => {},
        },
        (PendingView::Exists(c), ReplyView::Exists(taken)) => {},
        (PendingView::Copy(c, taken), ReplyView::Copied(done)) => {
            if done {
                lemma_settled_goes_on(s.recorded(Some(c.reference(taken))));
            } else {
                lemma_settled_goes_on(s.recorded(None));
            }
        },
        _ => {},
    }
}

/// The syntax of a pass.
pub fn pass_kind(stage: u8) -> (kind: SyntaxKind)
    ensures
        kind == kind_of(stage as int),
{
    if stage == 0 {
        SyntaxKind::MarkdownImage
    } else if stage == 1 {
        SyntaxKind::HtmlImg
    } else {
        SyntaxKind::RawCall
    }
}

/// The relocation engine at work on one document.
pub struct Rewriter {
    base_dir: String,
    assets_root: Option<String>,
    stage: u8,
    text: Vec<char>,
    refs: Vec<Reference>,
    outcomes: Vec<Option<String>>,
    pending: Pending,
    failures: Vec<String>,
}

/// A list of strings as a list of texts.
pub open spec fn lines(v: Seq<String>) -> Seq<Seq<char>> {
    Seq::new(v.len(), |i: int| v[i]@)
}

impl View for Rewriter {
    type V = RewriterView;

    closed spec fn view(&self) -> RewriterView {
        RewriterView {
            base_dir: self.base_dir@,
            assets_root: text_of(self.assets_root),
            stage: self.stage as int,
            text: self.text@,
            outcomes: texts(self.outcomes@),
            pending: self.pending@,
            failures: lines(self.failures@),
        }
    }
}

fn as_text(o: &Option<String>) -> (r: Option<&str>)
    ensures
        r.deep_view() == text_of(*o),
{
    match o {
        Some(s) => Some(s.as_str()),
        None => None,
    }
}

impl Rewriter {
    #[verifier::type_invariant]
    spec fn inv(&self) -> bool {
        &&& self@.wf()
        &&& self.stage < PASSES ==> views(self.refs@) == references(
            kind_of(self.stage as int),
            self.text@,
        )
        &&& self.stage < PASSES ==> in_order(views(self.refs@), 0, self.text.len() as int)
    }

    /// Goes on from a state in which nothing is pending until the engine
    /// has to stop.
    #[verifier::loop_isolation(false)]
    fn settle(
        base_dir: String,
        assets_root: Option<String>,
        stage: u8,
        text: Vec<char>,
        refs: Vec<Reference>,
        outcomes: Vec<Option<String>>,
        failures: Vec<String>,
    ) -> (r: Rewriter)
        requires
            stage <= PASSES,
            stage == PASSES ==> outcomes.len() == 0,
            stage < PASSES ==> views(refs@) == references(kind_of(stage as int), text@),
            stage < PASSES ==> in_order(views(refs@), 0, text.len() as int),
            outcomes.len() <= refs.len() || stage == PASSES,
        ensures
            r@ == (RewriterView {
                base_dir: base_dir@,
                assets_root: text_of(assets_root),
                stage: stage as int,
                text: text@,
                outcomes: texts(outcomes@),
                pending: PendingView::Idle,
                failures: lines(failures@),
            }).settled(),
    {
        let ghost start = RewriterView {
            base_dir: base_dir@,
            assets_root: text_of(assets_root),
            stage: stage as int,
            text: text@,
            outcomes: texts(outcomes@),
            pending: PendingView::Idle,
            failures: lines(failures@),
        };
        let mut stage = stage;
        let mut text = text;
        let mut refs = refs;
        let mut outcomes = outcomes;
        proof {
            lemma_settled_is_wf(start);
        }
        while stage < PASSES
            invariant
                stage <= PASSES,
                stage == PASSES ==> outcomes.len() == 0,
                stage < PASSES ==> views(refs@) == references(kind_of(stage as int), text@),
                stage < PASSES ==> in_order(views(refs@), 0, text.len() as int),
                outcomes.len() <= refs.len() || stage == PASSES,
                start.settled().wf(),
                start.settled() == (RewriterView {
                    base_dir: base_dir@,
                    assets_root: text_of(assets_root),
                    stage: stage as int,
                    text: text@,
                    outcomes: texts(outcomes@),
                    pending: PendingView::Idle,
                    failures: lines(failures@),
                }).settled(),
            decreases PASSES - stage, refs.len() - outcomes.len(),
        {
            let ghost here = RewriterView {
                base_dir: base_dir@,
                assets_root: text_of(assets_root),
                stage: stage as int,
                text: text@,
                outcomes: texts(outcomes@),
                pending: PendingView::Idle,
                failures: lines(failures@),
            };
            if outcomes.len() >= refs.len() {
                text = substitute(&text, &refs, &outcomes);
                stage = stage + 1;
                outcomes = Vec::new();
                refs = if stage < PASSES {
                    scan(pass_kind(stage), &text)
                } else {
                    Vec::new()
                };
                proof {
                    assert(texts(outcomes@) =~= Seq::<Option<Seq<char>>>::empty());
                    assert(here.next_pass() == (RewriterView {
                        base_dir: base_dir@,
                        assets_root: text_of(assets_root),
                        stage: stage as int,
                        text: text@,
                        outcomes: texts(outcomes@),
                        pending: PendingView::Idle,
                        failures: lines(failures@),
                    }));
                }
            } else {
                let r = &refs[outcomes.len()];
                let wrap = pass_kind(stage).takes_angle_brackets();
                proof {
                    assert(views(refs@)[outcomes.len() as int] == r@);
                    assert(here.current() == r@);
                }
                let ghost before = texts(outcomes@);
                match resolve(base_dir.as_str(), r.raw_path.as_str(), wrap) {
                    ResolvedLocation::External(p) => {
                        outcomes.push(Some(p));
                        proof {
                            assert(texts(outcomes@) =~= before.push(Some(p@)));
                        }
                    },
                    ResolvedLocation::Bundled(p) => {
                        outcomes.push(Some(p));
                        proof {
                            assert(texts(outcomes@) =~= before.push(Some(p@)));
                        }
                    },
                    ResolvedLocation::Local(l) => {
                        proof {
                            assert(here.settled() == here.waiting_for(
                                PendingView::Canonical(l@),
                            ));
                        }
                        return Rewriter {
                            base_dir,
                            assets_root,
                            stage,
                            text,
                            refs,
                            outcomes,
                            pending: Pending::Canonical(l),
                            failures,
                        };
                    },
                }
            }
        }
        Rewriter {
            base_dir,
            assets_root,
            stage,
            text,
            refs: Vec::new(),
            outcomes,
            pending: Pending::Idle,
            failures,
        }
    }

    /// Takes up a document that lies in `base_dir`, with the managed assets
    /// directory `assets_root` if there is one, and goes on until the first
    /// thing is needed from the file system, or the document is done.
    pub fn new(text: &str, base_dir: &str, assets_root: Option<&str>) -> (r: Rewriter)
        ensures
            r@ == started(text@, base_dir@, assets_root.deep_view()),
            r@.wf(),
    {
        let t = chars_of(text);
        let refs = scan(SyntaxKind::MarkdownImage, &t);
        let root = match assets_root {
            Some(a) => Some(a.to_owned()),
            None => None,
        };
        let outcomes: Vec<Option<String>> = Vec::new();
        let failures: Vec<String> = Vec::new();
        proof {
            assert(texts(outcomes@) =~= Seq::<Option<Seq<char>>>::empty());
            assert(lines(failures@) =~= Seq::<Seq<char>>::empty());
        }
        let r = Rewriter::settle(base_dir.to_owned(), root, 0, t, refs, outcomes, failures);
        proof {
            use_type_invariant(&r);
        }
        r
    }

    /// What the engine needs next.
    pub fn request(&self) -> (r: Request)
        ensures
            r@ == self@.request(),
    {
        match &self.pending {
            Pending::Idle => Request::Finished,
            Pending::Canonical(l) => Request::Canonicalize(l.joined.clone()),
            Pending::Exists(c) => Request::Exists(c.probe_path()),
            Pending::Copy(c, taken) => Request::Copy {
                from: c.source.clone(),
                to: c.destination_path(*taken),
            },
        }
    }

    /// Takes the answer to the last request and goes on until the next thing
    /// is needed, or the document is done. An answer of another kind than
    /// was asked for is ignored.
    pub fn reply(self, reply: Reply) -> (r: Rewriter)
        ensures
            r@ == self@.after(reply@),
            r@.wf(),
    {
        proof {
            use_type_invariant(&self);
            lemma_after_is_wf(self@, reply@);
        }
        let Rewriter { base_dir, assets_root, stage, text, refs, outcomes, pending, failures } =
            self;
        let mut outcomes = outcomes;
        let mut failures = failures;
        let ghost before = texts(outcomes@);
        let ghost failed = lines(failures@);
        match (pending, reply) {
            (Pending::Canonical(l), Reply::Canonical(c)) => {
                match locate(&l, as_text(&c), as_text(&assets_root)) {
                    Placement::RootRelative(p) => {
                        outcomes.push(Some(p));
                        proof {
                            assert(texts(outcomes@) =~= before.push(Some(p@)));
                        }
                        Rewriter::settle(
                            base_dir,
                            assets_root,
                            stage,
                            text,
                            refs,
                            outcomes,
                            failures,
                        )
                    },
                    Placement::Absolute(p) => {
                        outcomes.push(Some(p));
                        proof {
                            assert(texts(outcomes@) =~= before.push(Some(p@)));
                        }
                        Rewriter::settle(
                            base_dir,
                            assets_root,
                            stage,
                            text,
                            refs,
                            outcomes,
                            failures,
                        )
                    },
                    Placement::Relocate(c) => Rewriter {
                        base_dir,
                        assets_root,
                        stage,
                        text,
                        refs,
                        outcomes,
                        pending: Pending::Exists(c),
                        failures,
                    },
                }
            },
            (Pending::Exists(c), Reply::Exists(taken)) => Rewriter {
                base_dir,
                assets_root,
                stage,
                text,
                refs,
                outcomes,
                pending: Pending::Copy(c, taken),
                failures,
            },
            (Pending::Copy(c, taken), Reply::Copied(done)) => {
                if done {
                    let p = c.reference(taken);
                    outcomes.push(Some(p));
                    proof {
                        assert(texts(outcomes@) =~= before.push(Some(p@)));
                    }
                } else {
                    let raw = refs[outcomes.len()].raw_path.clone();
                    proof {
                        assert(views(refs@)[outcomes.len() as int].raw_path == raw@);
                    }
                    failures.push(raw);
                    outcomes.push(None);
                    proof {
                        assert(texts(outcomes@) =~= before.push(None));
                        assert(lines(failures@) =~= failed.push(raw@));
                    }
                }
                Rewriter::settle(base_dir, assets_root, stage, text, refs, outcomes, failures)
            },
            (pending, _) => Rewriter {
                base_dir,
                assets_root,
                stage,
                text,
                refs,
                outcomes,
                pending,
                failures,
            },
        }
    }

    /// All passes are done.
    pub fn is_finished(&self) -> (b: bool)
        ensures
            b == self@.finished(),
    {
        self.stage >= PASSES
    }

    /// The document: the rewritten one once the engine is finished, before
    /// that the one that the current pass reads.
    pub fn text(&self) -> (r: String)
        ensures
            r@ == self@.text,
    {
        string_of(&self.text)
    }

    /// The destinations, as they stood in the document, of the references
    /// that were left as they were because their copy failed.
    pub fn failures(&self) -> (r: Vec<String>)
        ensures
            lines(r@) == self@.failures,
    {
        let mut r: Vec<String> = Vec::new();
        let mut i: usize = 0;
        while i < self.failures.len()
            invariant
                i <= self.failures.len(),
                lines(r@) == lines(self.failures@).take(i as int),
            decreases self.failures.len() - i,
        {
            let ghost before = lines(r@);
            let s = self.failures[i].clone();
            r.push(s);
            proof {
                assert(lines(r@) =~= before.push(s@));
                assert(lines(self.failures@).take(i + 1) =~= lines(self.failures@).take(
                    i as int,
                ).push(self.failures@[i as int]@));
            }
            i += 1;
        }
        proof {
            assert(lines(self.failures@).take(self.failures.len() as int) =~= lines(
                self.failures@,
            ));
        }
        r
    }
}

} // verus!
