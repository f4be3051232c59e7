//! The binary quantizer: one of two codes per element, chosen by a threshold.

use crate::exceptions::VqError;
use crate::vector::{Real, Vector};
use vstd::prelude::*;

verus! {

/// Maps each element to `high` where it is at or above `threshold`, to `low`
/// where it is not.
#[derive(Debug, Clone, Copy)]
pub struct BinaryQuantizer<T> {
    /// The value at which the code changes from `low` to `high`.
    pub threshold: T,
    /// The code of the elements below the threshold.
    pub low: u8,
    /// The code of the elements at or above the threshold.
    pub high: u8,
}

impl<T: Real> BinaryQuantizer<T> {
    /// The code of one element.
    pub open spec fn code_spec(self, x: T) -> u8 {
        if self.threshold.le_spec(x) {
            self.high
        } else {
            self.low
        }
    }

    /// The codes of a sequence of elements.
    pub open spec fn quantize_spec(self, v: Seq<T>) -> Seq<u8> {
        Seq::new(v.len(), |i: int| self.code_spec(v[i]))
    }

    /// A quantizer with the given threshold and codes, or `InvalidParameter`
    /// where `low` is not below `high`.
    pub fn fit(threshold: T, low: u8, high: u8) -> (r: Result<Self, VqError>)
        ensures
            low >= high ==> (r matches Err(e) && e.is_invalid_parameter(
                "Low quantization level must be less than high quantization level"@,
            )),
            low < high ==> r == Ok::<Self, VqError>(BinaryQuantizer { threshold, low, high }),
    {
        if low >= high {
            return Err(
                VqError::invalid_parameter(
                    "Low quantization level must be less than high quantization level",
                ),
            );
        }
        Ok(Self { threshold, low, high })
    }

    /// The code of one element.
    pub fn quantize_scalar(&self, x: T) -> (code: u8)
        ensures
            code == self.code_spec(x),
    {
        if self.threshold.le(x) {
            self.high
        } else {
            self.low
        }
    }

    /// The codes of the elements of `vector`, in order.
    pub fn quantize(&self, vector: &Vector<T>) -> (codes: Vector<u8>)
        ensures
            codes@ == self.quantize_spec(vector@),
            codes@.len() == vector@.len(),
    {
        let mut out: Vec<u8> = Vec::new();
        let mut i: usize = 0;
        while i < vector.data.len()
            invariant
                i <= vector@.len(),
                out@.len() == i,
                forall|j: int| 0 <= j < i ==> out@[j] == self.code_spec(vector@[j]),
            decreases vector@.len() - i,
        {
            out.push(self.quantize_scalar(vector.data[i]));
            i = i + 1;
        }
        proof {
            assert(out@ =~= self.quantize_spec(vector@));
        }
        Vector::new(out)
    }
}

} // verus!
