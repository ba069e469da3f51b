//! What can go wrong.

use vstd::prelude::*;

verus! {

/// The ways in which a fetch or the loading of a lexicon fails.
#[derive(Debug, Clone, Copy, PartialEq, Eq, Structural)]
pub enum RustySozlukError {
    /// The caller asked for zero entries.
    InvalidInput,
    /// A page could not be fetched.
    NetworkError,
    /// A lexicon source is not a table of words, tones and polarities.
    MalformedLexicon,
}

impl RustySozlukError {
    /// The text that describes the error.
    pub open spec fn message_text(&self) -> Seq<char> {
        match self {
            RustySozlukError::InvalidInput => "Limit cannot be zero"@,
            RustySozlukError::NetworkError => "Network error occurred"@,
            RustySozlukError::MalformedLexicon => "Malformed sentiment lexicon"@,
        }
    }

    /// A description of the error for people to read.
    pub fn message(&self) -> (text: String)
        ensures
            text@ == self.message_text(),
    {
        match self {
            RustySozlukError::InvalidInput => "Limit cannot be zero".to_owned(),
            RustySozlukError::NetworkError => "Network error occurred".to_owned(),
            RustySozlukError::MalformedLexicon => "Malformed sentiment lexicon".to_owned(),
        }
    }
}

} // verus!
