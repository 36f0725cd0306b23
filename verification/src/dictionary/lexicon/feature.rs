use vstd::prelude::*;

verus! {

/// Feature strings of the words in a lexicon, indexed by word id.
#[derive(Clone, Debug)]
pub struct WordFeatures {
    features: Vec<String>,
}

impl View for WordFeatures {
    type V = Seq<Seq<char>>;

    closed spec fn view(&self) -> Seq<Seq<char>> {
        Seq::new(self.features@.len(), |i: int| self.features@[i]@)
    }
}

impl WordFeatures {
    /// Creates a new instance holding `features`, the `i`-th for word id `i`.
    pub fn new(features: Vec<String>) -> (r: Self)
        ensures
            r@.len() == features@.len(),
            forall|i: int| 0 <= i < features@.len() ==> #[trigger] r@[i] == features@[i]@,
    {
        WordFeatures { features }
    }

    /// Returns the number of features.
    pub fn len(&self) -> (n: usize)
        ensures
            n == self@.len(),
    {
        self.features.len()
    }

    /// Returns the feature string of word `word_id`.
    pub fn get(&self, word_id: usize) -> (s: &str)
        requires
            word_id < self@.len(),
        ensures
            s@ == self@[word_id as int],
    {
        self.features[word_id].as_str()
    }
}

impl Default for WordFeatures {
    /// No features.
    fn default() -> (r: Self)
        ensures
            r@.len() == 0,
    {
        WordFeatures { features: Vec::new() }
    }
}

impl From<crate::legacy::dictionary::lexicon::feature::WordFeatures> for WordFeatures {
    /// Takes over the features of the earlier format.
    fn from(old: crate::legacy::dictionary::lexicon::feature::WordFeatures) -> (r: Self)
        ensures
            r@ == old@,
    {
        let features = old.into_features();
        WordFeatures { features }
    }
}

impl vstd::std_specs::convert::FromSpecImpl<crate::legacy::dictionary::lexicon::feature::WordFeatures> for WordFeatures {
    open spec fn obeys_from_spec() -> bool {
        true
    }

    closed spec fn from_spec(old: crate::legacy::dictionary::lexicon::feature::WordFeatures) -> WordFeatures {
        WordFeatures { features: old.spec_features() }
    }
}

} // verus!
