//! The hole classes that a user can pick, by nominal maximum mass.

use vstd::prelude::*;

use crate::hole_info::{spec_max_range, HoleInfo, Mass};

verus! {

/// The hole classes by nominal maximum mass.
#[derive(Debug, Clone, PartialEq, Eq, Copy, Structural)]
pub enum HollSizes {
    M100,
    M500,
    M750,
    B1,
    B2,
    B3,
    B3_3,
    B5,
}

/// The nominal maximum mass of a hole class, in kilograms.
pub open spec fn spec_nominal_mass(size: HollSizes) -> Mass {
    match size {
        HollSizes::M100 => 100_000_000,
        HollSizes::M500 => 500_000_000,
        HollSizes::M750 => 750_000_000,
        HollSizes::B1 => 1_000_000_000,
        HollSizes::B2 => 2_000_000_000,
        HollSizes::B3 => 3_000_000_000,
        HollSizes::B3_3 => 3_300_000_000,
        HollSizes::B5 => 5_000_000_000,
    }
}

impl HollSizes {
    /// The size information of the hole class.
    pub fn hole_info(&self) -> (r: HoleInfo)
        ensures
            r.average_max_size == spec_nominal_mass(*self),
            r.max_range == spec_max_range(spec_nominal_mass(*self) as int),
    {
        match self {
            HollSizes::M100 => HoleInfo::from_kg(100_000_000),
            HollSizes::M500 => HoleInfo::from_kg(500_000_000),
            HollSizes::M750 => HoleInfo::from_kg(750_000_000),
            HollSizes::B1 => HoleInfo::from_kg(1_000_000_000),
            HollSizes::B2 => HoleInfo::from_kg(2_000_000_000),
            HollSizes::B3 => HoleInfo::from_kg(3_000_000_000),
            HollSizes::B3_3 => HoleInfo::from_kg(3_300_000_000),
            HollSizes::B5 => HoleInfo::from_kg(5_000_000_000),
        }
    }

    /// The label of the hole class, as shown to the user.
    pub fn label(&self) -> (r: &'static str)
        ensures
            r@ == (match *self {
                HollSizes::M100 => "100M"@,
                HollSizes::M500 => "500M"@,
                HollSizes::M750 => "750M"@,
                HollSizes::B1 => "1B"@,
                HollSizes::B2 => "2B"@,
                HollSizes::B3 => "3B"@,
                HollSizes::B3_3 => "3.3B"@,
                HollSizes::B5 => "5B"@,
            }),
    {
        match self {
            HollSizes::M100 => "100M",
            HollSizes::M500 => "500M",
            HollSizes::M750 => "750M",
            HollSizes::B1 => "1B",
            HollSizes::B2 => "2B",
            HollSizes::B3 => "3B",
            HollSizes::B3_3 => "3.3B",
            HollSizes::B5 => "5B",
        }
    }
}

} // verus!
