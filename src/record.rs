//! Normalized type records, the input the registry ingests.
//!
//! These records sit between the parsed package files and the lookup
//! structures; they are what batches of type data are made of.
use vstd::prelude::*;

verus! {

/// A MIME type record from the shared MIME database.
#[derive(Clone, Debug)]
pub struct MimeTypeRecord {
    /// The full MIME type (type/subtype).
    pub name: String,
    /// The string description of this record.
    pub description: Option<String>,
    /// List of globs (with priorities) for the record.
    pub globs: Vec<GlobRule>,
    /// List of this record's immediate superclasses.
    pub superclasses: Vec<String>,
    /// Aliases for this record.
    pub aliases: Vec<String>,
}

/// A glob rule in the database.
#[derive(Clone, Debug)]
pub struct GlobRule {
    /// Glob pattern.
    pub pattern: String,
    /// Glob weight.
    pub weight: i32,
    /// Whether this rule is case-sensitive.
    pub case_sensitive: bool,
}

/// The views of a list of strings.
pub open spec fn strings_view(s: Seq<String>) -> Seq<Seq<char>> {
    s.map_values(|x: String| x@)
}

/// The view of an optional string.
pub open spec fn opt_string_view(s: Option<String>) -> Option<Seq<char>> {
    match s {
        Some(x) => Some(x@),
        None => None,
    }
}

} // verus!
