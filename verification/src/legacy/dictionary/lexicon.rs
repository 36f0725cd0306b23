//! Lexicons of the earlier format.
pub mod feature;

use vstd::prelude::*;

use crate::dictionary::lexicon::WordParam;
use crate::dictionary::word_idx::LexType;
use crate::legacy::dictionary::lexicon::feature::WordFeatures;

verus! {

/// The surfaces of a lexicon, each with the ids of its words.
pub struct WordMap {
    pub(crate) entries: Vec<(String, Vec<u32>)>,
}

/// The parameters of the words of a lexicon, indexed by word id.
pub struct WordParams {
    pub(crate) params: Vec<WordParam>,
}

/// Lexicon of words.
pub struct Lexicon {
    pub(crate) map: WordMap,
    pub(crate) params: WordParams,
    pub(crate) features: WordFeatures,
    pub(crate) lex_type: LexType,
}

} // verus!
