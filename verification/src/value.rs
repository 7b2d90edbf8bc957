//! Floating-point values as the library carries them: by bit pattern. The library stores, finds
//! and lays out such values and tests them for zero; it computes none.

use vstd::prelude::*;

verus! {

/// A double, by its IEEE 754 bit pattern.
#[derive(Debug, Clone, Copy, PartialEq, Eq, Structural)]
pub struct Double {
    pub bits: u64,
}

/// A double and what a single-precision parameter makes of it: the double narrowed to single
/// precision and widened back.
#[derive(Debug, Clone, Copy, PartialEq, Eq, Structural)]
pub struct Quantity {
    pub given: Double,
    pub stored: Double,
}

/// A number in the timer's user units, as each quantity that a command may mean by it.
#[derive(Debug, Clone, Copy, PartialEq, Eq, Structural)]
pub struct Amount {
    /// As a resistance, in ohm.
    pub ohm: Quantity,
    /// As a resistance per length, in ohm per metre.
    pub ohm_per_metre: Quantity,
    /// As a capacitance per length, in farad per metre.
    pub farad_per_metre: Quantity,
}

/// A value for horizontal wires and one for vertical wires.
#[derive(Debug, Clone, Copy, PartialEq, Eq, Structural)]
pub struct HV {
    pub h: Double,
    pub v: Double,
}

impl Double {
    /// The double 0.
    #[verifier::allow_in_spec]
    pub fn zero() -> Double
        returns
            (Double { bits: 0 }),
    {
        Double { bits: 0 }
    }

    /// Whether the double is 0 or -0.
    #[verifier::allow_in_spec]
    pub fn is_zero(&self) -> bool
        returns
            self.bits == 0 || self.bits == 0x8000_0000_0000_0000,
    {
        self.bits == 0 || self.bits == 0x8000_0000_0000_0000
    }
}

impl Quantity {
    /// The quantity 0.
    #[verifier::allow_in_spec]
    pub fn zero() -> Quantity
        returns
            (Quantity { given: Double { bits: 0 }, stored: Double { bits: 0 } }),
    {
        Quantity { given: Double { bits: 0 }, stored: Double { bits: 0 } }
    }

    /// A double that single precision holds as it is.
    #[verifier::allow_in_spec]
    pub fn exactly(d: Double) -> Quantity
        returns
            (Quantity { given: d, stored: d }),
    {
        Quantity { given: d, stored: d }
    }
}

impl HV {
    /// 0 both ways.
    #[verifier::allow_in_spec]
    pub fn zero() -> HV
        returns
            (HV { h: Double { bits: 0 }, v: Double { bits: 0 } }),
    {
        HV { h: Double { bits: 0 }, v: Double { bits: 0 } }
    }
}

} // verus!
