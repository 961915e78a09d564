//! A source-to-source rewriting engine for bundling: it takes the text of
//! one unit, a crate root or a module file, with what is known of its
//! syntax tree, and gives the text with the changes that let the unit live
//! inside one file together with others.
//!
//! No pass prints a syntax tree. Each pass states its changes as edits
//! over spans of the text it was given, and the [`patcher`] applies them in
//! one scan, so that everything a pass does not touch stays as it was
//! written.
//!
//! The syntax tree itself stays outside: a caller parses the text and hands
//! over the items, paths, attributes and macro bodies that a pass reads, as
//! the plain values declared here. Where a pass needs no more than tokens,
//! it has the text lexed, or parsed and written out as tokens, itself.

pub mod attr;
pub mod cfg;
pub mod doc;
pub mod erase;
pub mod expand;
pub mod hygiene;
pub mod minify;
pub mod names;
pub mod patcher;
pub mod paths;
pub mod span;
pub mod text;
pub mod token;
pub mod unit;
