//! Keeps localized key/value text files in step with a reference file.
//!
//! - `text`: the line model (the ` =` marker, keys, case folding, order, trimming).
//! - `section`: a section's lines, and the edits on them.
//! - `inifile`: reading a file into sections and writing it out again.
//! - `roundtrip`: what reading and writing a file preserve.
//! - `ops`: the edits on whole files, reference against target.
//! - `pattern`: replacing in values by regular expression.
//! - `translate`, `reconcile`, `chatgpt`: requests for machine translation
//!   and merging what comes back.
//! - `answer`: reading answers typed at a prompt.

pub mod answer;
pub mod chatgpt;
pub mod inifile;
pub mod ops;
pub mod pattern;
pub mod reconcile;
pub mod roundtrip;
pub mod section;
pub mod text;
pub mod translate;
