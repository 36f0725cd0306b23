//! Connectors of the earlier format.
pub mod dual_connector;
pub mod matrix_connector;
pub mod raw_connector;

use vstd::prelude::*;

pub use crate::legacy::dictionary::connector::dual_connector::DualConnector;
pub use crate::legacy::dictionary::connector::matrix_connector::MatrixConnector;
pub use crate::legacy::dictionary::connector::raw_connector::RawConnector;

verus! {

/// A connector of the earlier format, of one of its three kinds.
pub enum ConnectorWrapper {
    Matrix(MatrixConnector),
    Raw(RawConnector),
    Dual(DualConnector),
}

} // verus!
