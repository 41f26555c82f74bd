use vstd::prelude::*;
use vstd::std_specs::ops::AddSpec;

verus! {

/// A span of time in microseconds.
#[derive(Copy, Clone, Debug, PartialEq, Eq, Structural)]
pub struct TimeDelta {
    pub micros: i128,
}

impl core::ops::Add<i128> for TimeDelta {
    type Output = Self;

    /// Lengthens the span by `rhs` microseconds.
    fn add(self, rhs: i128) -> (r: Self::Output) {
        TimeDelta { micros: self.micros + rhs }
    }
}

impl vstd::std_specs::ops::AddSpecImpl<i128> for TimeDelta {
    open spec fn obeys_add_spec() -> bool {
        true
    }

    open spec fn add_req(self, rhs: i128) -> bool {
        i128::MIN <= self.micros + rhs <= i128::MAX
    }

    open spec fn add_spec(self, rhs: i128) -> TimeDelta {
        TimeDelta { micros: (self.micros + rhs) as i128 }
    }
}

/// Adding two amounts one after the other lengthens a span as adding their sum does.
pub proof fn lemma_add_associates(t: TimeDelta, a: i128, b: i128)
    requires
        t.add_req(a),
        t.add_spec(a).add_req(b),
        i128::MIN <= a + b <= i128::MAX,
    ensures
        t.add_spec(a).add_spec(b) == t.add_spec((a + b) as i128),
{
}

} // verus!
