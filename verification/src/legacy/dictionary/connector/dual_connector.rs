//! The connector of the earlier format that combines a matrix and a scorer.
use vstd::prelude::*;

use crate::legacy::dictionary::connector::matrix_connector::MatrixConnector;
use crate::legacy::dictionary::connector::raw_connector::scorer::{Scorer, U31x8};

verus! {

/// Connector that adds the costs of a matrix and of a scorer of features.
pub struct DualConnector {
    pub(crate) matrix_connector: MatrixConnector,
    pub(crate) right_conn_id_map: Vec<u16>,
    pub(crate) left_conn_id_map: Vec<u16>,
    pub(crate) right_feat_ids: Vec<U31x8>,
    pub(crate) left_feat_ids: Vec<U31x8>,
    pub(crate) raw_scorer: Scorer,
}

} // verus!
