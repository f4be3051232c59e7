//! The scalar quantizer: each element clamped to a range and mapped to the
//! nearest of a number of evenly spaced levels.

use crate::exceptions::VqError;
use crate::vector::{Real, Vector};
use vstd::prelude::*;

verus! {

/// A uniform quantizer over `[min, max]` with between 2 and 256 levels.
#[derive(Debug)]
pub struct ScalarQuantizer<T: Real> {
    min: T,
    max: T,
    levels: usize,
    step: T,
}

/// The distance between two neighbouring levels.
pub open spec fn step_spec<T: Real>(min: T, max: T, levels: usize) -> T {
    max.sub_spec(min).div_spec(T::from_usize_spec((levels - 1) as usize))
}

/// `x` brought into `[min, max]`.
pub open spec fn clamp_spec<T: Real>(min: T, max: T, x: T) -> T {
    if x.lt_spec(min) {
        min
    } else if max.lt_spec(x) {
        max
    } else {
        x
    }
}

/// The index of the level nearest to `x`: the clamped value's offset from
/// `min`, in steps, rounded, and capped at the last level.
pub open spec fn level_spec<T: Real>(min: T, max: T, levels: usize, x: T) -> int {
    let index = clamp_spec(min, max, x).sub_spec(min).div_spec(step_spec(min, max, levels)).round_spec();
    if index < levels - 1 {
        index as int
    } else {
        levels - 1
    }
}

impl<T: Real> ScalarQuantizer<T> {
    #[verifier::type_invariant]
    spec fn well_formed(self) -> bool {
        &&& 2 <= self.levels <= 256
        &&& self.step == step_spec(self.min, self.max, self.levels)
    }

    /// The lower end of the range.
    pub closed spec fn min_spec(self) -> T {
        self.min
    }

    /// The upper end of the range.
    pub closed spec fn max_spec(self) -> T {
        self.max
    }

    /// The number of levels.
    pub closed spec fn levels_spec(self) -> usize {
        self.levels
    }

    /// The codes of a sequence of elements.
    pub open spec fn quantize_spec(self, v: Seq<T>) -> Seq<u8> {
        Seq::new(
            v.len(),
            |i: int| level_spec(self.min_spec(), self.max_spec(), self.levels_spec(), v[i]) as u8,
        )
    }

    /// A quantizer over `[min, max]` with `levels` levels.
    ///
    /// Fails with `InvalidParameter` where `max` is at or below `min`, and
    /// otherwise where `levels` is below 2 or above 256.
    pub fn fit(min: T, max: T, levels: usize) -> (r: Result<Self, VqError>)
        ensures
            max.le_spec(min) ==> (r matches Err(e) && e.is_invalid_parameter(
                "max must be greater than min"@,
            )),
            !max.le_spec(min) && levels < 2 ==> (r matches Err(e) && e.is_invalid_parameter(
                "levels must be at least 2"@,
            )),
            !max.le_spec(min) && levels > 256 ==> (r matches Err(e) && e.is_invalid_parameter(
                "levels must be no more than 256"@,
            )),
            !max.le_spec(min) && 2 <= levels <= 256 ==> (r matches Ok(q) && q.min_spec() == min
                && q.max_spec() == max && q.levels_spec() == levels),
    {
        if max.le(min) {
            return Err(VqError::invalid_parameter("max must be greater than min"));
        }
        if levels < 2 {
            return Err(VqError::invalid_parameter("levels must be at least 2"));
        }
        if levels > 256 {
            return Err(VqError::invalid_parameter("levels must be no more than 256"));
        }
        let step = max.sub(min).div(T::from_usize(levels - 1));
        Ok(Self { min, max, levels, step })
    }

    /// The lower end of the range.
    pub fn min(&self) -> (r: T)
        ensures
            r == self.min_spec(),
    {
        self.min
    }

    /// The upper end of the range.
    pub fn max(&self) -> (r: T)
        ensures
            r == self.max_spec(),
    {
        self.max
    }

    /// The number of levels, between 2 and 256.
    pub fn levels(&self) -> (r: usize)
        ensures
            r == self.levels_spec(),
            2 <= r <= 256,
    {
        proof {
            use_type_invariant(self);
        }
        self.levels
    }

    /// The distance between two neighbouring levels.
    pub fn step(&self) -> (r: T)
        ensures
            r == step_spec(self.min_spec(), self.max_spec(), self.levels_spec()),
    {
        proof {
            use_type_invariant(self);
        }
        self.step
    }

    /// The index of the level nearest to `x`.
    pub fn quantize_scalar(&self, x: T) -> (index: usize)
        ensures
            index == level_spec(self.min_spec(), self.max_spec(), self.levels_spec(), x),
            index < self.levels_spec(),
            index < 256,
    {
        proof {
            use_type_invariant(self);
        }
        let clamped = if x.lt(self.min) {
            self.min
        } else if self.max.lt(x) {
            self.max
        } else {
            x
        };
        let index = clamped.sub(self.min).div(self.step).round();
        if index < self.levels - 1 {
            index
        } else {
            self.levels - 1
        }
    }

    /// The level indices of the elements of `vector`, in order.
    pub fn quantize(&self, vector: &Vector<T>) -> (codes: Vector<u8>)
        ensures
            codes@ == self.quantize_spec(vector@),
            codes@.len() == vector@.len(),
            forall|i: int| 0 <= i < codes@.len() ==> codes@[i] < self.levels_spec(),
    {
        let mut out: Vec<u8> = Vec::new();
        let mut i: usize = 0;
        while i < vector.data.len()
            invariant
                i <= vector@.len(),
                out@.len() == i,
                forall|j: int| 0 <= j < i ==> out@[j] < self.levels_spec(),
                forall|j: int|
                    0 <= j < i ==> out@[j] == level_spec(
                        self.min_spec(),
                        self.max_spec(),
                        self.levels_spec(),
                        vector@[j],
                    ) as u8,
            decreases vector@.len() - i,
        {
            let index = self.quantize_scalar(vector.data[i]);
            out.push(index as u8);
            i = i + 1;
        }
        proof {
            assert(out@ =~= self.quantize_spec(vector@));
        }
        Vector::new(out)
    }
}

} // verus!
