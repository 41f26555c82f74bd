use vstd::prelude::*;
use vstd::std_specs::ops::{DivSpec, SubSpec};

verus! {

/// A closed range of values given by its two ends.
#[derive(Debug, Clone, Copy)]
pub struct MinmaxBounds<T> where T: PartialOrd {
    pub min: T,
    pub max: T,
}

/// Where `num` stands relative to `bounds`: `(num - min) / (max - min)`,
/// so `min` maps to zero and `max` maps to one. For a type whose subtraction
/// is not described by a spec (such as a float), the division has to be
/// possible on every pair of values.
pub fn relative_to_bounds<T>(bounds: MinmaxBounds<T>, num: T) -> (r: T) where
    T: PartialOrd + core::ops::Sub<Output = T> + core::ops::Div<Output = T> + Copy,
    requires
        num.sub_req(bounds.min),
        bounds.max.sub_req(bounds.min),
        T::obeys_sub_spec() ==> num.sub_spec(bounds.min).div_req(bounds.max.sub_spec(bounds.min)),
        !T::obeys_sub_spec() ==> forall|a: T, b: T| #[trigger] a.div_req(b),
    ensures
        T::obeys_sub_spec() && T::obeys_div_spec() ==> r == num.sub_spec(bounds.min).div_spec(
            bounds.max.sub_spec(bounds.min),
        ),
{
    (num - bounds.min) / (bounds.max - bounds.min)
}

/// On integers, the lower bound lies at zero and the upper bound at one.
pub proof fn lemma_relative_bounds_ends(bounds: MinmaxBounds<i64>)
    requires
        bounds.min < bounds.max,
        bounds.max - bounds.min <= i64::MAX,
    ensures
        bounds.min.sub_spec(bounds.min).div_spec(bounds.max.sub_spec(bounds.min)) == 0,
        bounds.max.sub_spec(bounds.min).div_spec(bounds.max.sub_spec(bounds.min)) == 1,
{
}

} // verus!
