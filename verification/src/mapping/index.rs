//! A mapping that reads another field first, to find the index at which a
//! second mapping is read.
use vstd::prelude::*;

use crate::field::Field;

verus! {

/// Maps an element by the value of the field `index` at it, through `mapping`.
pub struct IndexMap<J, M, I> {
    pub index: Field<J, I>,
    pub mapping: M,
}

impl<J, M, I> IndexMap<J, M, I> {
    pub fn new(index: Field<J, I>, mapping: M) -> (r: Self)
        ensures
            r.index == index,
            r.mapping == mapping,
    {
        IndexMap { index, mapping }
    }
}

} // verus!
