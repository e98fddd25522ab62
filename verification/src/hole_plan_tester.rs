//! The hole model used to simulate roll plans: the state a hole shows for a
//! remaining and a maximum mass, and the order in which the passes of one
//! chart edge are made.

use std::cmp::Ordering;

use vstd::prelude::*;

use crate::chart_gen::{spec_pass_mass, ConnectionPass, PassDecision};
use crate::hole_info::{range_contains, spec_state_mass_range, tdiv, Mass, MassRange};
use crate::roll_calc::roll_calc::{Direction, HoleState};

verus! {

/// A hole with a known remaining mass and maximum mass.
#[derive(Debug, Clone, Copy)]
pub struct HoleData {
    pub remaining_mass: Mass,
    pub max_mass: Mass,
}

/// The state a hole shows, including closed.
#[derive(Debug, Clone, Copy, PartialEq, Eq, Structural)]
pub enum SimHoleState {
    Closed,
    Crit,
    Shrink,
    Full,
}

/// The chart decision that a shown state selects.
pub open spec fn spec_decision_for(val: SimHoleState) -> PassDecision {
    match val {
        SimHoleState::Closed => PassDecision::Closed,
        SimHoleState::Crit => PassDecision::Crit,
        SimHoleState::Shrink => PassDecision::Shrink,
        SimHoleState::Full => PassDecision::Full,
    }
}

impl From<SimHoleState> for PassDecision {
    fn from(val: SimHoleState) -> (r: Self) {
        match val {
            SimHoleState::Closed => PassDecision::Closed,
            SimHoleState::Crit => PassDecision::Crit,
            SimHoleState::Shrink => PassDecision::Shrink,
            SimHoleState::Full => PassDecision::Full,
        }
    }
}

impl vstd::std_specs::convert::FromSpecImpl<SimHoleState> for PassDecision {
    open spec fn obeys_from_spec() -> bool {
        true
    }

    open spec fn from_spec(val: SimHoleState) -> PassDecision {
        spec_decision_for(val)
    }
}

/// The state a hole shows: closed when no mass remains, critical below a tenth
/// of its maximum mass, shrunk below half of it, full otherwise.
pub open spec fn spec_hole_state(hole: HoleData) -> SimHoleState {
    if hole.remaining_mass <= 0 {
        SimHoleState::Closed
    } else if tdiv(hole.max_mass as int, 10) > hole.remaining_mass {
        SimHoleState::Crit
    } else if tdiv(hole.max_mass as int, 2) > hole.remaining_mass {
        SimHoleState::Shrink
    } else {
        SimHoleState::Full
    }
}

/// The state the hole shows (the thresholds divide the maximum mass, rounding
/// towards zero).
pub fn hole_state(hole: HoleData) -> (r: SimHoleState)
    ensures
        r == spec_hole_state(hole),
{
    if hole.remaining_mass <= 0 {
        return SimHoleState::Closed;
    }
    if hole.max_mass / 10 > hole.remaining_mass {
        return SimHoleState::Crit;
    }
    if hole.max_mass / 2 > hole.remaining_mass {
        return SimHoleState::Shrink;
    }
    SimHoleState::Full
}

/// The simulated state that matches a visible hole state.
pub open spec fn shown_state(state: HoleState) -> SimHoleState {
    match state {
        HoleState::Full => SimHoleState::Full,
        HoleState::Shrink => SimHoleState::Shrink,
        HoleState::Crit => SimHoleState::Crit,
    }
}

/// A hole whose maximum mass `max_mass` lies in `max_range` can hold the
/// remaining mass `remaining` and shows `state` with it.
pub open spec fn could_show(max_range: MassRange, remaining: Mass, max_mass: Mass, state: HoleState) -> bool {
    &&& max_range.least <= max_mass <= max_range.most
    &&& 1 <= remaining <= max_mass
    &&& spec_hole_state(HoleData { remaining_mass: remaining, max_mass }) == shown_state(state)
}

/// The remaining masses that the size information gives for a visible state
/// are exactly those at which some hole with a maximum mass in the maximum
/// range holds that mass and shows that state. It needs a maximum range of
/// at least 10 kg: below that a shrunk hole's range reaches down to 0 kg, at
/// which the hole is closed.
pub proof fn lemma_mass_range_matches_hole_state(max_range: MassRange, state: HoleState, remaining: Mass)
    requires
        10 <= max_range.least <= max_range.most,
    ensures
        range_contains(spec_state_mass_range(max_range, state), remaining as int) <==> exists|
            max_mass: Mass,
        | #[trigger] could_show(max_range, remaining, max_mass, state),
{
    let lo = max_range.least;
    let hi = max_range.most;
    let m = remaining;
    if range_contains(spec_state_mass_range(max_range, state), m as int) {
        match state {
            HoleState::Full => {
                let h: Mass = if lo > m { lo } else { m };
                assert(h <= 2 * m + 1);
                assert(could_show(max_range, m, h, state));
            },
            HoleState::Shrink => {
                let h: Mass = if lo > 2 * m + 2 { lo } else { (2 * m + 2) as i64 };
                assert(hi / 2 >= m + 1);
                assert(h <= 10 * m + 9);
                assert(could_show(max_range, m, h, state));
            },
            HoleState::Crit => {
                assert(could_show(max_range, m, hi, state));
            },
        }
    }
    if exists|h: Mass| #[trigger] could_show(max_range, m, h, state) {
        let h = choose|h: Mass| #[trigger] could_show(max_range, m, h, state);
        assert(lo / 2 <= h / 2 && h / 2 <= hi / 2);
        assert(lo / 10 <= h / 10 && h / 10 <= hi / 10);
    }
}

/// The order of two passes of one edge: passes out before passes in, and
/// among passes in the same direction the heavier first.
pub open spec fn pass_order(pass: ConnectionPass, pass2: ConnectionPass) -> Ordering {
    if pass.direction == Direction::Out && pass2.direction == Direction::In {
        Ordering::Less
    } else if pass.direction == Direction::In && pass2.direction == Direction::Out {
        Ordering::Greater
    } else if spec_pass_mass(pass) > spec_pass_mass(pass2) {
        Ordering::Less
    } else if spec_pass_mass(pass) == spec_pass_mass(pass2) {
        Ordering::Equal
    } else {
        Ordering::Greater
    }
}

/// Orders passes out before passes in, then the heavier first.
pub fn order_out_then_in_then_largeest(pass: &ConnectionPass, pass2: &ConnectionPass) -> (r:
    Ordering)
    ensures
        r == pass_order(*pass, *pass2),
{
    // Prioritize Out passes over In passes
    if pass.direction == Direction::Out && pass2.direction == Direction::In {
        return Ordering::Less;
    } else if pass.direction == Direction::In && pass2.direction == Direction::Out {
        return Ordering::Greater;
    }
    // Prioritize larger mass first
    let m1 = pass.mass();
    let m2 = pass2.mass();
    if m1 > m2 {
        Ordering::Less
    } else if m1 == m2 {
        Ordering::Equal
    } else {
        Ordering::Greater
    }
}

/// The order of passes is antisymmetric: swapping the two passes reverses it.
pub proof fn lemma_pass_order_antisymmetric(pass: ConnectionPass, pass2: ConnectionPass)
    ensures
        pass_order(pass, pass2) == Ordering::Less <==> pass_order(pass2, pass) == Ordering::Greater,
        pass_order(pass, pass2) == Ordering::Equal <==> pass_order(pass2, pass) == Ordering::Equal,
{
}

/// The order of passes is transitive.
pub proof fn lemma_pass_order_transitive(a: ConnectionPass, b: ConnectionPass, c: ConnectionPass)
    requires
        pass_order(a, b) != Ordering::Greater,
        pass_order(b, c) != Ordering::Greater,
    ensures
        pass_order(a, c) != Ordering::Greater,
{
}

} // verus!
