//! Redaction of JSON text by key path.
//!
//! A document is scanned once, as text, for the places that a set of key paths
//! selects. The scan yields ranges of code-point offsets: the punctuation,
//! keys and whitespace that hold the document together, and the values that
//! the paths select. Merged into a minimal ascending list, the ranges say what
//! to keep; everything between them is replaced by a placeholder.
//!
//! Offsets count code points. The scanner expects valid JSON and does not
//! validate: on a string that is not terminated or a bracket without partner
//! it stops and hands back the ranges found so far.
//!
//! - `scan`: the scanner, and `find_ranges`, which scans and merges.
//! - `merge`: the merger.
//! - `redact`: the redactor.
//! - `plan`: a text with its merged ranges, redacted without further ado.
//! - `pretty`: parsing and printing of the redacted text by `serde_json`.
//! - `lex`, `path`, `range`, `chars`: what the scanner is made of.
//! - `document`, `walk`: JSON documents as trees, and the proof that
//!   redaction of the text of a well-formed document writes the document
//!   with exactly the values that no target selects replaced.
//! - `cover`: the proof that the ranges of a well-formed document cover its
//!   skeleton, and a value exactly where a target selects it or a value
//!   around it.

pub mod range;
pub mod merge;
pub mod chars;
pub mod lex;
pub mod path;
pub mod scan;
pub mod redact;
pub mod plan;
pub mod pretty;
pub mod document;
pub mod walk;
pub mod cover;

pub use crate::merge::merge;
pub use crate::pretty::{pretty_print, FormatError};
pub use crate::range::{ranges_within, ByteRange};
pub use crate::plan::RedactionPlan;
pub use crate::redact::{redact, redact_json, try_redact, PLACEHOLDER};
pub use crate::scan::{find_ranges, scan};
