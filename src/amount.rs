use vstd::prelude::*;

verus! {

/// Number of `Amount` units in one whole currency unit: amounts carry four
/// fractional digits.
pub const UNITS_PER_WHOLE: i64 = 10000;

/// One cent, in `Amount` units: a leftover balance up to this size is treated
/// as rounding noise.
pub const CENT_UNITS: i64 = 100;

/// An exact monetary amount with four fractional digits, held as a whole
/// number of ten-thousandths.
#[derive(Clone, Copy, Debug, PartialEq, Eq, Structural)]
pub struct Amount {
    pub units: i64,
}

impl Amount {
    /// The amount `units / 10000`.
    pub fn from_units(units: i64) -> (r: Amount)
        ensures
            r.units == units,
    {
        Amount { units }
    }

    /// The amount zero.
    pub fn zero() -> (r: Amount)
        ensures
            r.units == 0,
    {
        Amount { units: 0 }
    }

    /// The number of ten-thousandths this amount holds.
    pub fn units(&self) -> (r: i64)
        ensures
            r == self.units,
    {
        self.units
    }
}

} // verus!
