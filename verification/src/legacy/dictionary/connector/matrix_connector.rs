//! The matrix connector of the earlier format.
use vstd::prelude::*;

use crate::dictionary::connector::MatrixConnector as CurrentMatrixConnector;
use crate::errors::{Source, VibratoError};

verus! {

/// Matrix of connection costs.
pub struct MatrixConnector {
    pub(crate) data: Vec<i16>,
    pub(crate) num_right: usize,
    pub(crate) num_left: usize,
}

impl MatrixConnector {
    pub closed spec fn spec_data(&self) -> Seq<i16> {
        self.data@
    }

    pub closed spec fn spec_num_right(&self) -> usize {
        self.num_right
    }

    pub closed spec fn spec_num_left(&self) -> usize {
        self.num_left
    }

    /// Creates a matrix from its costs, by left id and then by right id.
    pub fn new(data: Vec<i16>, num_right: usize, num_left: usize) -> (r: Self)
        ensures
            r.spec_data() == data@,
            r.spec_num_right() == num_right,
            r.spec_num_left() == num_left,
    {
        MatrixConnector { data, num_right, num_left }
    }

    /// Takes the costs and the numbers of right and left ids out.
    pub fn into_parts(self) -> (r: (Vec<i16>, usize, usize))
        ensures
            r.0@ == self.spec_data(),
            r.1 == self.spec_num_right(),
            r.2 == self.spec_num_left(),
    {
        (self.data, self.num_right, self.num_left)
    }

    /// Converts the matrix into the current one, which holds the same costs.
    ///
    /// # Errors
    ///
    /// When the sizes are not those of a matrix of connection ids.
    pub fn into_current(self) -> (r: Result<CurrentMatrixConnector, VibratoError>)
        ensures
            match r {
                Ok(m) => {
                    &&& m.wf()
                    &&& m.spec_data() == self.spec_data()
                    &&& m.spec_num_right() == self.spec_num_right()
                    &&& m.spec_num_left() == self.spec_num_left()
                },
                Err(e) => {
                    &&& e == VibratoError::InvalidFormat(Source::Model)
                    &&& !(1 <= self.spec_num_right() <= u16::MAX + 1 && 1 <= self.spec_num_left()
                        <= u16::MAX + 1 && self.spec_data().len() == self.spec_num_right()
                        * self.spec_num_left())
                },
            },
    {
        let err = VibratoError::InvalidFormat(Source::Model);
        if self.num_right == 0 || self.num_right > 0x10000 || self.num_left == 0 || self.num_left
            > 0x10000 {
            return Err(err);
        }
        proof {
            assert(self.num_right * self.num_left <= 0x10000 * 0x10000) by (nonlinear_arith)
                requires
                    self.num_right <= 0x10000,
                    self.num_left <= 0x10000,
            ;
        }
        if self.data.len() as u64 != self.num_right as u64 * self.num_left as u64 {
            return Err(err);
        }
        Ok(CurrentMatrixConnector::new(self.data, self.num_right, self.num_left))
    }
}

} // verus!
