//! An engine that relocates the assets a document refers to.
//!
//! A document embeds images in three syntaxes: markdown images, HTML image
//! tags and raw calls such as `#image("...")`. When the document is rendered
//! from another place than the one it was written in, those references have
//! to follow: a file outside the rendering root is copied into a managed
//! assets directory, under a safe name that does not collide with what is
//! there, and the reference is rewritten to point at it. Everything else in
//! the document stays as it is.
//!
//! The engine itself never touches the file system. [`engine::Rewriter`]
//! says what it needs, and its caller does it:
//!
//! * [`scan`] finds the references, by the grammar that [`grammar`] describes;
//! * [`resolve`] decides what a reference points at and where its asset is
//!   found;
//! * [`relocate`] and [`sanitize`] name the copy;
//! * [`rewrite`] writes the outcomes back into the document;
//! * [`paths`] and [`text`] hold what these share.
//!
//! Beside the engine stands [`preview`], which points the image calls of a
//! document into the directory that a preview is rendered from.

pub mod engine;
pub mod grammar;
pub mod paths;
pub mod preview;
pub mod relocate;
pub mod resolve;
pub mod rewrite;
pub mod sanitize;
pub mod scan;
pub mod text;

pub use engine::{Reply, Request, Rewriter};
pub use sanitize::sanitize_filename;
pub use scan::{Reference, SyntaxKind};
