//! Definition of errors.
use vstd::prelude::*;

verus! {

/// The input that an error is about.
#[derive(Clone, Copy, PartialEq, Eq, Structural, Debug)]
pub enum Source {
    /// A lexicon file in the CSV format (`lex.csv` or a user lexicon).
    Lexicon,
    /// The matrix of connection costs (`matrix.def`).
    Matrix,
    /// The character definition (`char.def`).
    CharDef,
    /// The definition of unknown words (`unk.def`).
    UnkDef,
    /// A mapping of connection ids.
    Mapping,
    /// Serialized dictionary data.
    Model,
    /// Tokenizer options.
    Options,
}

/// The error type.
#[derive(Clone, Copy, PartialEq, Eq, Structural, Debug)]
pub enum VibratoError {
    /// An argument is invalid for the operation, e.g., ids that the
    /// connection matrix does not define.
    InvalidArgument(Source),
    /// An input does not follow its format.
    InvalidFormat(Source),
}

} // verus!
