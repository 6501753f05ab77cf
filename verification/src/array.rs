//! The numeric array that travels over the wire.

use crate::dtype::DType;
use crate::header::{elem_count, element_count};
use vstd::prelude::*;

verus! {

/// A row-major, contiguous array of numbers with its shape. Whatever the
/// element kind, each element is held as the bit pattern of the 64-bit
/// IEEE-754 number that stands for it on the wire. There are as many
/// elements as the shape demands.
#[derive(Debug, PartialEq, Eq)]
pub struct Array {
    dtype: DType,
    shape: Vec<usize>,
    data: Vec<u64>,
}

/// The mathematical content of an `Array`.
pub struct ArrayView {
    pub dtype: DType,
    pub shape: Seq<usize>,
    pub data: Seq<u64>,
}

impl ArrayView {
    /// Whether there are as many elements as the shape demands, and no
    /// more than memory can hold.
    pub open spec fn wf(self) -> bool {
        self.data.len() == element_count(self.shape) && self.data.len() <= usize::MAX
    }
}

impl View for Array {
    type V = ArrayView;

    closed spec fn view(&self) -> ArrayView {
        ArrayView { dtype: self.dtype, shape: self.shape@, data: self.data@ }
    }
}

impl Array {
    #[verifier::type_invariant]
    spec fn complete(self) -> bool {
        self.data@.len() == element_count(self.shape@)
    }

    /// The array of the given kind, shape and elements, where the number of
    /// elements is the one that the shape demands.
    pub fn new(dtype: DType, shape: Vec<usize>, data: Vec<u64>) -> (r: Option<Array>)
        ensures
            match r {
                Some(a) => a@ == (ArrayView { dtype, shape: shape@, data: data@ }) && a@.wf(),
                None => data@.len() != element_count(shape@),
            },
    {
        let len = data.len();
        match elem_count(shape.as_slice()) {
            Some(n) => {
                if len == n {
                    let a = Array { dtype, shape, data };
                    assert(a@ == (ArrayView { dtype, shape: shape@, data: data@ }));
                    Some(a)
                } else {
                    None
                }
            },
            None => None,
        }
    }

    /// The element kind.
    pub fn dtype(&self) -> (r: DType)
        ensures
            r == self@.dtype,
    {
        self.dtype
    }

    /// The size of each dimension, outermost first.
    pub fn shape(&self) -> (r: &[usize])
        ensures
            r@ == self@.shape,
    {
        self.shape.as_slice()
    }

    /// The elements in row-major order, as bit patterns.
    pub fn data(&self) -> (r: &[u64])
        ensures
            r@ == self@.data,
            self@.wf(),
    {
        proof {
            use_type_invariant(self);
        }
        let r = self.data.as_slice();
        assert(r@.len() == r.len());
        r
    }
}

} // verus!
