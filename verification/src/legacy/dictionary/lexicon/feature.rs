//! Word features of the earlier format.
use vstd::prelude::*;

verus! {

/// Feature strings of the words, indexed by word id.
pub struct WordFeatures {
    pub(crate) features: Vec<String>,
}

impl View for WordFeatures {
    type V = Seq<Seq<char>>;

    closed spec fn view(&self) -> Seq<Seq<char>> {
        Seq::new(self.features@.len(), |i: int| self.features@[i]@)
    }
}

impl WordFeatures {
    pub closed spec fn spec_features(&self) -> Vec<String> {
        self.features
    }

    /// Takes the feature strings out.
    pub fn into_features(self) -> (r: Vec<String>)
        ensures
            r == self.spec_features(),
            r@.len() == self@.len(),
            forall|i: int| 0 <= i < r@.len() ==> #[trigger] r@[i]@ == self@[i],
    {
        self.features
    }

    /// Creates a new instance holding `features`.
    pub fn new(features: Vec<String>) -> (r: Self)
        ensures
            r@.len() == features@.len(),
            forall|i: int| 0 <= i < features@.len() ==> #[trigger] r@[i] == features@[i]@,
    {
        WordFeatures { features }
    }
}

impl Default for WordFeatures {
    /// No features.
    fn default() -> (r: Self)
        ensures
            r@.len() == 0,
    {
        WordFeatures { features: Vec::new() }
    }
}

} // verus!
