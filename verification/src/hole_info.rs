//! Masses, inclusive mass ranges and the size information of a hole.

use vstd::prelude::*;

use crate::roll_calc::roll_calc::HoleState;

verus! {

/// A mass in kilograms.
pub type Mass = i64;

/// Truncating division (rounds towards zero), as Rust's `/` does on signed integers.
pub open spec fn tdiv(a: int, b: int) -> int
    recommends
        b > 0,
{
    if a >= 0 {
        a / b
    } else {
        -((-a) / b)
    }
}

/// `true` when `x` is representable as a `Mass`.
pub open spec fn fits_mass(x: int) -> bool {
    i64::MIN <= x <= i64::MAX
}

/// An inclusive range of masses. It is empty when `most < least`.
#[derive(Debug, PartialEq, Eq, Structural, Clone, Copy, Hash, PartialOrd, Ord)]
pub struct MassRange {
    pub least: Mass,
    pub most: Mass,
}

/// The number of masses in the range: `most - least + 1`, or 0 when that is negative.
pub open spec fn range_size(r: MassRange) -> int {
    if r.most - r.least + 1 >= 0 {
        r.most - r.least + 1
    } else {
        0
    }
}

/// `true` when computing the size of `r` does not overflow a `Mass`.
pub open spec fn size_fits(r: MassRange) -> bool {
    fits_mass(r.most - r.least) && fits_mass(r.most - r.least + 1)
}

/// Whether `m` lies in the range.
pub open spec fn range_contains(r: MassRange, m: int) -> bool {
    r.least <= m <= r.most
}

impl MassRange {
    /// The number of masses in the range (0 for an empty range).
    pub fn size(&self) -> (r: Mass)
        requires
            size_fits(*self),
        ensures
            r == range_size(*self),
            r >= 0,
    {
        let s = self.most - self.least + 1;
        if s < 0 {
            0
        } else {
            s
        }
    }

    /// Whether the range holds no mass.
    pub fn is_empty(&self) -> (r: bool)
        ensures
            r == (self.most < self.least),
            r <==> range_size(*self) == 0,
            r <==> forall|m: int| !range_contains(*self, m),
    {
        proof {
            if !(self.most < self.least) {
                assert(range_contains(*self, self.least as int));
            }
        }
        self.most < self.least
    }

    /// The range shifted down by `rhs`: both bounds lose `rhs`.
    pub fn sub(self, rhs: Mass) -> (r: MassRange)
        requires
            fits_mass(self.least - rhs),
            fits_mass(self.most - rhs),
        ensures
            r.least == self.least - rhs,
            r.most == self.most - rhs,
    {
        MassRange { least: self.least - rhs, most: self.most - rhs }
    }
}

/// Builds the range `[least, most]`.
pub fn mr(least: Mass, most: Mass) -> (r: MassRange)
    ensures
        r == (MassRange { least, most }),
{
    MassRange { least, most }
}

/// The canonical empty range `[1, 0]`.
pub fn empty_mr() -> (r: MassRange)
    ensures
        r == (MassRange { least: 1, most: 0 }),
{
    MassRange { least: 1, most: 0 }
}

/// Size information of a hole class: its nominal maximum mass and the range
/// in which its actual maximum mass lies (nominal -10% .. +10%).
pub struct HoleInfo {
    pub average_max_size: Mass,
    pub max_range: MassRange,
}

/// The range of maximum masses of a hole whose nominal maximum mass is `mass`.
pub open spec fn spec_max_range(mass: int) -> MassRange {
    MassRange { least: tdiv(mass * 9, 10) as i64, most: tdiv(mass * 11, 10) as i64 }
}

/// Remaining masses at which a hole of the given maximum range is not yet shrunk.
pub open spec fn spec_full_mass_range(max_range: MassRange) -> MassRange {
    MassRange { least: tdiv(max_range.least as int, 2) as i64, most: max_range.most }
}

/// Remaining masses at which a hole of the given maximum range is shrunk.
pub open spec fn spec_shrink_mass_range(max_range: MassRange) -> MassRange {
    MassRange {
        least: tdiv(max_range.least as int, 10) as i64,
        most: (tdiv(max_range.most as int, 2) - 1) as i64,
    }
}

/// Remaining masses at which a hole of the given maximum range is critical.
pub open spec fn spec_crit_mass_range(max_range: MassRange) -> MassRange {
    MassRange { least: 1, most: (tdiv(max_range.most as int, 10) - 1) as i64 }
}

/// Remaining masses at which a hole of the given maximum range shows `state`.
pub open spec fn spec_state_mass_range(max_range: MassRange, state: HoleState) -> MassRange {
    match state {
        HoleState::Full => spec_full_mass_range(max_range),
        HoleState::Shrink => spec_shrink_mass_range(max_range),
        HoleState::Crit => spec_crit_mass_range(max_range),
    }
}

proof fn lemma_tdiv_bounds(a: int, b: int)
    requires
        b >= 1,
    ensures
        a >= 0 ==> 0 <= tdiv(a, b) <= a,
        a < 0 ==> a <= tdiv(a, b) <= 0,
{
    if a >= 0 {
        assert(a / b <= a) by (nonlinear_arith)
            requires
                a >= 0,
                b >= 1,
        ;
        assert(a / b >= 0) by (nonlinear_arith)
            requires
                a >= 0,
                b >= 1,
        ;
    } else {
        assert((-a) / b <= -a) by (nonlinear_arith)
            requires
                -a >= 0,
                b >= 1,
        ;
        assert((-a) / b >= 0) by (nonlinear_arith)
            requires
                -a >= 0,
                b >= 1,
        ;
    }
}

impl HoleInfo {
    /// The size information of a hole whose nominal maximum mass is `mass` kg.
    pub fn from_kg(mass: Mass) -> (r: HoleInfo)
        requires
            fits_mass(mass * 11),
        ensures
            r.average_max_size == mass,
            r.max_range == spec_max_range(mass as int),
    {
        let avg = kg(mass);
        assert(fits_mass(avg * 9)) by (nonlinear_arith)
            requires
                fits_mass(avg * 11),
        ;
        let up = avg * 11 / 10;
        let down = avg * 9 / 10;
        HoleInfo { average_max_size: avg, max_range: mr(down, up) }
    }

    /// The range in which the remaining mass lies when the hole shows `state`.
    pub fn mass_range(&self, state: HoleState) -> (r: MassRange)
        ensures
            r == spec_state_mass_range(self.max_range, state),
    {
        match state {
            HoleState::Full => self.full_mass_range(),
            HoleState::Shrink => self.shrink_mass_range(),
            HoleState::Crit => self.crit_mass_range(),
        }
    }

    /// Remaining masses at which the hole is still full (not shrunk).
    pub fn full_mass_range(&self) -> (r: MassRange)
        ensures
            r == spec_full_mass_range(self.max_range),
    {
        mr(self.max_range.least / 2, self.max_range.most)
    }

    /// Remaining masses at which the hole is shrunk but not critical.
    pub fn shrink_mass_range(&self) -> (r: MassRange)
        ensures
            r == spec_shrink_mass_range(self.max_range),
    {
        proof {
            lemma_tdiv_bounds(self.max_range.most as int, 2);
        }
        mr(self.max_range.least / 10, self.max_range.most / 2 - 1)
    }

    /// Remaining masses at which the hole is critical.
    pub fn crit_mass_range(&self) -> (r: MassRange)
        ensures
            r == spec_crit_mass_range(self.max_range),
    {
        proof {
            lemma_tdiv_bounds(self.max_range.most as int, 10);
        }
        mr(1, self.max_range.most / 10 - 1)
    }
}

/// The maximum range of a hole holds its nominal maximum mass.
pub proof fn lemma_max_range_holds_nominal(mass: int)
    requires
        0 <= mass,
        fits_mass(mass * 11),
    ensures
        range_contains(spec_max_range(mass), mass),
{
    assert((mass * 9) / 10 <= mass) by (nonlinear_arith)
        requires
            0 <= mass,
    ;
    assert(mass <= (mass * 11) / 10) by (nonlinear_arith)
        requires
            0 <= mass,
    ;
    assert(fits_mass(mass * 9)) by (nonlinear_arith)
        requires
            0 <= mass,
            fits_mass(mass * 11),
    ;
    lemma_tdiv_bounds(mass * 9, 10);
    lemma_tdiv_bounds(mass * 11, 10);
}

/// Shifting a range down keeps its size.
pub proof fn lemma_sub_keeps_size(r: MassRange, rhs: int)
    requires
        fits_mass(r.least - rhs),
        fits_mass(r.most - rhs),
    ensures
        range_size(MassRange { least: (r.least - rhs) as i64, most: (r.most - rhs) as i64 })
            == range_size(r),
{
}

/// A mass given in kilograms, unchanged.
pub fn kg(mass: Mass) -> (r: Mass)
    ensures
        r == mass,
{
    mass
}

/// A mass range given in kilograms, unchanged.
pub fn kgr(range: MassRange) -> (r: MassRange)
    ensures
        r == range,
{
    range
}

} // verus!
