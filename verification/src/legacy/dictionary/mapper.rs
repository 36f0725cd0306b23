//! The mapper of connection ids of the earlier format.
use vstd::prelude::*;

use crate::dictionary::connector::is_id_permutation;
use crate::dictionary::mapper::{check_id_permutation, ConnIdMapper as CurrentConnIdMapper};
use crate::errors::{Source, VibratoError};

verus! {

/// Mapper for connection ids.
pub struct ConnIdMapper {
    pub(crate) left: Vec<u16>,
    pub(crate) right: Vec<u16>,
}

impl ConnIdMapper {
    pub closed spec fn spec_left(&self) -> Seq<u16> {
        self.left@
    }

    pub closed spec fn spec_right(&self) -> Seq<u16> {
        self.right@
    }

    /// Creates a mapper from the new ids of the old left and right ids.
    pub fn new(left: Vec<u16>, right: Vec<u16>) -> (r: Self)
        ensures
            r.spec_left() == left@,
            r.spec_right() == right@,
    {
        ConnIdMapper { left, right }
    }

    /// Takes the new ids of the left and right ids out.
    pub fn into_parts(self) -> (r: (Vec<u16>, Vec<u16>))
        ensures
            r.0@ == self.spec_left(),
            r.1@ == self.spec_right(),
    {
        (self.left, self.right)
    }

    /// Converts the mapper into the current one, for a connector with
    /// `num_left` left ids and `num_right` right ids.
    ///
    /// # Errors
    ///
    /// When a list does not renumber exactly the connector's ids.
    pub fn into_current(self, num_left: usize, num_right: usize) -> (r: Result<
        CurrentConnIdMapper,
        VibratoError,
    >)
        ensures
            match r {
                Ok(m) => {
                    &&& m.wf()
                    &&& m.spec_left() == self.spec_left()
                    &&& m.spec_right() == self.spec_right()
                    &&& m.spec_left().len() == num_left
                    &&& m.spec_right().len() == num_right
                },
                Err(e) => {
                    &&& e == VibratoError::InvalidFormat(Source::Mapping)
                    &&& !(is_id_permutation(self.spec_left()) && is_id_permutation(self.spec_right())
                        && self.spec_left().len() == num_left && self.spec_right().len() == num_right)
                },
            },
    {
        if self.left.len() != num_left || self.right.len() != num_right {
            return Err(VibratoError::InvalidFormat(Source::Mapping));
        }
        if !check_id_permutation(&self.left) || !check_id_permutation(&self.right) {
            return Err(VibratoError::InvalidFormat(Source::Mapping));
        }
        Ok(CurrentConnIdMapper::from_maps(self.left, self.right))
    }
}

} // verus!
