//! The connector of the earlier format that scores feature ids.
pub mod scorer;

use vstd::prelude::*;

use crate::legacy::dictionary::connector::raw_connector::scorer::{Scorer, U31x8};

verus! {

/// Connector that computes a connection cost from the features of the right
/// and left ids.
pub struct RawConnector {
    pub(crate) right_feat_ids: Vec<U31x8>,
    pub(crate) left_feat_ids: Vec<U31x8>,
    pub(crate) feat_template_size: usize,
    pub(crate) scorer: Scorer,
}

} // verus!
