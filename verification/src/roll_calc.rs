//! The hole-state model: which remaining masses correspond to which visible
//! hole state, and how seeing a state narrows down the hole's maximum mass.
//! The planner itself lives in [`roll_calc::roll_calc`](self::roll_calc).

use vstd::prelude::*;

use crate::hole_info::{
    fits_mass, mr, range_contains, range_size, size_fits, tdiv, spec_crit_mass_range, spec_full_mass_range,
    spec_shrink_mass_range, Mass, MassRange,
};

pub use self::roll_calc::{Direction, HoleState, Ship, ShipState};

pub mod roll_calc;

verus! {

/// A roll situation where the rollers that are out are counted per ship type.
#[derive(Debug, Hash, PartialEq, Eq)]
pub struct RollState {
    pub remaining_mass: MassRange,
    pub rollers_out: Vec<usize>,
    pub max_size_range: MassRange,
}

/// The intersection of two ranges: the larger lower bound and the smaller upper bound.
pub open spec fn spec_overlap(range1: MassRange, range2: MassRange) -> MassRange {
    MassRange {
        least: if range1.least >= range2.least { range1.least } else { range2.least },
        most: if range1.most <= range2.most { range1.most } else { range2.most },
    }
}

/// Remaining masses at which the hole is closed.
pub open spec fn spec_closed_range() -> MassRange {
    MassRange { least: i64::MIN, most: 0 }
}

/// No overflow happens when narrowing a maximum range after seeing a critical hole.
pub open spec fn crit_update_fits(possible_mass: MassRange) -> bool {
    fits_mass(possible_mass.least + 1) && fits_mass((possible_mass.least + 1) * 10)
}

/// No overflow happens when narrowing a maximum range after seeing a shrunk hole.
pub open spec fn shrink_update_fits(possible_mass: MassRange) -> bool {
    &&& fits_mass(possible_mass.least * 10)
    &&& fits_mass(possible_mass.most + 1)
    &&& fits_mass((possible_mass.most + 1) * 2)
}

/// A hole that is critical at some mass in `possible_mass` has a maximum mass
/// of at least ten times just above its least mass.
pub open spec fn spec_update_max_range_from_crit(
    possible_mass: MassRange,
    max_mass_range: MassRange,
) -> MassRange {
    spec_overlap(
        max_mass_range,
        MassRange { least: ((possible_mass.least + 1) * 10) as i64, most: max_mass_range.most },
    )
}

/// A hole that is shrunk at some mass in `possible_mass` has a maximum mass of
/// at most ten times its least mass and at least twice just above its most mass.
pub open spec fn spec_update_max_range_from_shrink(
    possible_mass: MassRange,
    max_mass_range: MassRange,
) -> MassRange {
    spec_overlap(
        max_mass_range,
        MassRange {
            least: ((possible_mass.most + 1) * 2) as i64,
            most: (possible_mass.least * 10) as i64,
        },
    )
}

/// A hole that is full at some mass in `possible_mass` has a maximum mass of at
/// most twice its least mass.
pub open spec fn spec_update_max_range_from_full(
    possible_mass: MassRange,
    max_mass_range: MassRange,
) -> MassRange {
    spec_overlap(
        max_mass_range,
        MassRange { least: max_mass_range.least, most: (possible_mass.least * 2) as i64 },
    )
}

/// The number of (remaining mass, maximum mass) pairs of a situation.
pub open spec fn spec_possible_states(mass_range: MassRange, max_mass_range: MassRange) -> int {
    range_size(mass_range) * range_size(max_mass_range)
}

/// The number of (remaining mass, maximum mass) pairs: the product of the sizes.
pub fn possible_states(mass_range: MassRange, max_mass_range: MassRange) -> (r: u128)
    requires
        size_fits(mass_range),
        size_fits(max_mass_range),
    ensures
        r == spec_possible_states(mass_range, max_mass_range),
{
    let a = mass_range.size() as u128;
    let b = max_mass_range.size() as u128;
    assert(a * b <= u128::MAX) by (nonlinear_arith)
        requires
            a <= i64::MAX,
            b <= i64::MAX,
    ;
    a * b
}

/// The maximum range narrowed by knowing that the hole went critical at a
/// remaining mass in `possible_mass`.
pub fn update_max_range_from_crit(possible_mass: &MassRange, max_mass_range: &MassRange) -> (r:
    MassRange)
    requires
        crit_update_fits(*possible_mass),
    ensures
        r == spec_update_max_range_from_crit(*possible_mass, *max_mass_range),
{
    // +1 because if its crit the threshold is ever so slightly more than it is.
    let minimum_crit_threshold = possible_mass.least + 1;
    let smallest_possible_hole = minimum_crit_threshold * 10;
    overlap(max_mass_range, &mr(smallest_possible_hole, max_mass_range.most))
}

/// The maximum range narrowed by knowing that the hole shrank at a remaining
/// mass in `possible_mass`.
pub fn update_max_range_from_shrink(possible_mass: &MassRange, max_mass_range: &MassRange) -> (r:
    MassRange)
    requires
        shrink_update_fits(*possible_mass),
    ensures
        r == spec_update_max_range_from_shrink(*possible_mass, *max_mass_range),
{
    let largest_crit_threshold = possible_mass.least;
    let largest_possible_hole = largest_crit_threshold * 10;

    // +1 because if its shrink the threshold is ever so slightly more than it is.
    let minimum_shrink_threshold = possible_mass.most + 1;
    let smallest_possible_hole = minimum_shrink_threshold * 2;
    overlap(max_mass_range, &mr(smallest_possible_hole, largest_possible_hole))
}

/// The maximum range narrowed by knowing that the hole is full at a remaining
/// mass in `possible_mass`.
pub fn update_max_range_from_full(possible_mass: &MassRange, max_mass_range: &MassRange) -> (r:
    MassRange)
    requires
        fits_mass(possible_mass.least * 2),
    ensures
        r == spec_update_max_range_from_full(*possible_mass, *max_mass_range),
{
    let largest_shrink_threshold = possible_mass.least;
    let largest_possible_hole = largest_shrink_threshold * 2;
    overlap(max_mass_range, &mr(max_mass_range.least, largest_possible_hole))
}

/// Remaining masses at which a hole with the given maximum range is full.
pub fn full_range(max_size_range: &MassRange) -> (r: MassRange)
    ensures
        r == spec_full_mass_range(*max_size_range),
{
    let smallest_non_shrink = max_size_range.least / 2;
    mr(smallest_non_shrink, max_size_range.most)
}

/// Remaining masses at which a hole with the given maximum range is shrunk.
pub fn shrink_range(max_size_range: &MassRange) -> (r: MassRange)
    ensures
        r == spec_shrink_mass_range(*max_size_range),
{
    let largest_shrink = max_size_range.most / 2 - 1;
    let smallest_non_crit = max_size_range.least / 10;
    mr(smallest_non_crit, largest_shrink)
}

/// Remaining masses at which a hole with the given maximum range is critical.
pub fn crit_range(max_size_range: &MassRange) -> (r: MassRange)
    ensures
        r == spec_crit_mass_range(*max_size_range),
{
    let largest_crit = max_size_range.most / 10 - 1;
    mr(1, largest_crit)
}

/// Remaining masses at which the hole is closed: everything up to 0.
pub fn closed_range() -> (r: MassRange)
    ensures
        r == spec_closed_range(),
{
    mr(Mass::MIN, 0)
}

/// The intersection of two ranges.
pub fn overlap(range1: &MassRange, range2: &MassRange) -> (r: MassRange)
    ensures
        r == spec_overlap(*range1, *range2),
{
    let least = if range1.least >= range2.least {
        range1.least
    } else {
        range2.least
    };
    let most = if range1.most <= range2.most {
        range1.most
    } else {
        range2.most
    };
    mr(least, most)
}

/// A mass lies in the overlap of two ranges exactly when it lies in both,
/// and the overlap does not depend on the order of the two ranges.
pub proof fn lemma_overlap_is_intersection(range1: MassRange, range2: MassRange, m: int)
    ensures
        range_contains(spec_overlap(range1, range2), m) <==> range_contains(range1, m)
            && range_contains(range2, m),
        spec_overlap(range1, range2) == spec_overlap(range2, range1),
{
}

/// The hole states leave no gap: for a maximum range of non-negative masses,
/// every remaining mass up to the largest maximum mass is closed, critical,
/// shrunk or full.
pub proof fn lemma_state_ranges_cover(max_size_range: MassRange, m: int)
    requires
        0 <= max_size_range.least <= max_size_range.most,
        i64::MIN <= m <= max_size_range.most,
    ensures
        range_contains(spec_closed_range(), m) || range_contains(
            spec_crit_mass_range(max_size_range),
            m,
        ) || range_contains(spec_shrink_mass_range(max_size_range), m) || range_contains(
            spec_full_mass_range(max_size_range),
            m,
        ),
{
    let least = max_size_range.least as int;
    let most = max_size_range.most as int;
    assert(least / 10 <= most / 10) by (nonlinear_arith)
        requires
            0 <= least <= most,
    ;
    assert(least / 2 <= most / 2) by (nonlinear_arith)
        requires
            0 <= least <= most,
    ;
    assert(most / 10 <= most / 2) by (nonlinear_arith)
        requires
            0 <= most,
    ;
    assert(most / 2 <= most) by (nonlinear_arith)
        requires
            0 <= most,
    ;
    assert(tdiv(least, 10) == least / 10);
    assert(tdiv(least, 2) == least / 2);
    assert(tdiv(most, 10) == most / 10);
    assert(tdiv(most, 2) == most / 2);
    assert(0 <= least / 10 && 0 <= least / 2 && 0 <= most / 10) by (nonlinear_arith)
        requires
            0 <= least,
            0 <= most,
    ;
}

/// Seeing the hole in some state only narrows its maximum range: each updated
/// range lies within the range it was computed from.
pub proof fn lemma_update_max_range_narrows(possible_mass: MassRange, max_mass_range: MassRange)
    ensures
        ({
            let c = spec_update_max_range_from_crit(possible_mass, max_mass_range);
            let s = spec_update_max_range_from_shrink(possible_mass, max_mass_range);
            let f = spec_update_max_range_from_full(possible_mass, max_mass_range);
            &&& max_mass_range.least <= c.least && c.most <= max_mass_range.most
            &&& max_mass_range.least <= s.least && s.most <= max_mass_range.most
            &&& max_mass_range.least <= f.least && f.most <= max_mass_range.most
        }),
        forall|m: int|
            range_contains(spec_update_max_range_from_crit(possible_mass, max_mass_range), m)
                ==> range_contains(max_mass_range, m),
        forall|m: int|
            range_contains(spec_update_max_range_from_shrink(possible_mass, max_mass_range), m)
                ==> range_contains(max_mass_range, m),
        forall|m: int|
            range_contains(spec_update_max_range_from_full(possible_mass, max_mass_range), m)
                ==> range_contains(max_mass_range, m),
{
}

} // verus!
