use vstd::prelude::*;

verus! {

/// Type of a lexicon that contains the word.
#[derive(Clone, Copy, PartialEq, Eq, Structural, Debug)]
pub enum LexType {
    /// System lexicon.
    System,
    /// User lexicon.
    User,
    /// Unknown words.
    Unknown,
}

/// Identifier of a word.
#[derive(Clone, Copy, PartialEq, Eq, Structural, Debug)]
pub struct WordIdx {
    /// Type of a lexicon that contains this word.
    pub lex_type: LexType,
    /// ID of this word.
    pub word_id: u32,
}

impl WordIdx {
    /// Creates a new instance.
    pub fn new(lex_type: LexType, word_id: u32) -> (r: Self)
        ensures
            r.lex_type == lex_type,
            r.word_id == word_id,
    {
        WordIdx { lex_type, word_id }
    }
}

} // verus!
