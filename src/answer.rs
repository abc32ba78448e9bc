//! Results of type lookups.
use vstd::prelude::*;

use crate::record::strings_view;

verus! {

/// The value of an [Answer]: candidate types in order and whether the
/// candidates are ambiguous.
pub struct AnswerModel {
    pub types: Seq<Seq<char>>,
    pub ambiguous: bool,
}

/// Result of looking up a MIME type.
#[derive(Debug, Clone)]
pub struct Answer {
    types: Vec<String>,
    ambiguous: bool,
}

impl View for Answer {
    type V = AnswerModel;

    closed spec fn view(&self) -> AnswerModel {
        AnswerModel { types: strings_view(self.types@), ambiguous: self.ambiguous }
    }
}

/// A definite answer naming one type.
pub open spec fn definite_answer(t: Seq<char>) -> AnswerModel {
    AnswerModel { types: seq![t], ambiguous: false }
}

impl Answer {
    /// An answer with the given candidates.
    pub fn new(types: Vec<String>, ambiguous: bool) -> (a: Answer)
        ensures
            a@ == (AnswerModel { types: strings_view(types@), ambiguous }),
    {
        Answer { types, ambiguous }
    }

    /// A definite answer naming `t`.
    pub fn definite(t: &str) -> (a: Answer)
        ensures
            a@ == definite_answer(t@),
    {
        let mut types: Vec<String> = Vec::new();
        types.push(t.to_owned());
        let a = Answer { types, ambiguous: false };
        assert(a@.types =~= seq![t@]);
        a
    }

    /// An answer with no candidates.
    pub fn unknown() -> (a: Answer)
        ensures
            a@.types.len() == 0,
            !a@.ambiguous,
    {
        Answer { types: Vec::new(), ambiguous: false }
    }

    /// Query whether this answer is definite (resolved to a single, known type).
    pub fn is_definite(&self) -> (r: bool)
        ensures
            r == (self@.types.len() >= 1 && !self@.ambiguous),
    {
        self.types.len() >= 1 && !self.ambiguous
    }

    /// Query whether this answer is unknown (no resulting types).
    pub fn is_unknown(&self) -> (r: bool)
        ensures
            r == (self@.types.len() == 0),
    {
        self.types.len() == 0
    }

    /// Query whether this answer is ambiguous (multiple matching types).
    pub fn is_ambiguous(&self) -> (r: bool)
        ensures
            r == self@.ambiguous,
    {
        self.ambiguous
    }

    /// Get the best type, if known: none when no type is found or the type
    /// is ambiguous.
    pub fn best(&self) -> (r: Option<&str>)
        ensures
            r is Some <==> (!self@.ambiguous && self@.types.len() > 0),
            r is Some ==> r->0@ == self@.types[0],
    {
        if self.ambiguous || self.types.len() == 0 {
            None
        } else {
            Some(self.types[0].as_str())
        }
    }

    /// Get all matching types.
    pub fn all_types(&self) -> (r: &[String])
        ensures
            strings_view(r@) == self@.types,
    {
        self.types.as_slice()
    }
}

} // verus!
