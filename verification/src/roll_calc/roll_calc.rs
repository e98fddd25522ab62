//! The roll planner's verified core: the counts of rollers, the passes that a
//! fleet can make from a situation, and how a situation splits by hole state.

use vstd::prelude::*;

use crate::hole_info::{fits_mass, mr, size_fits, Mass, MassRange};
use smallvec::SmallVec;
use crate::hole_info::{
    empty_mr, range_contains, range_size, spec_crit_mass_range, spec_full_mass_range, spec_shrink_mass_range,
};
use crate::roll_calc::{
    crit_update_fits, possible_states, shrink_update_fits, spec_closed_range, spec_overlap,
    spec_possible_states, spec_update_max_range_from_crit, spec_update_max_range_from_shrink,
};

pub use crate::roll_calc::{
    closed_range, crit_range, full_range, overlap, shrink_range, update_max_range_from_crit,
    update_max_range_from_shrink,
};

verus! {

/// Whether a pass goes out of the home system or comes back in.
#[derive(Debug, Clone, Copy, Hash, PartialEq, Eq, Structural)]
pub enum Direction {
    In,
    Out,
}

/// Whether a ship passes with its propulsion module on (hot) or off (cold).
#[derive(Debug, Clone, Copy, Hash, PartialEq, Eq, Structural)]
pub enum ShipState {
    Hot,
    Cold,
}

/// The visible state of a hole.
#[derive(Debug, Clone, Copy, Hash, PartialEq, Eq, Structural)]
pub enum HoleState {
    Full,
    Shrink,
    Crit,
}

impl Default for HoleState {
    fn default() -> (r: Self)
        ensures
            r == HoleState::Full,
    {
        HoleState::Full
    }
}

/// The masses with which a ship passes, hot and cold.
#[derive(Debug, Clone, Copy, Hash, PartialEq, Eq, Structural)]
pub struct Ship {
    pub hot: Mass,
    pub cold: Mass,
}

impl Ship {
    /// The smaller mass the ship can pass with: its cold mass.
    pub fn minimum_mass(&self) -> (r: Mass)
        ensures
            r == self.cold,
    {
        self.cold
    }

    /// The larger mass the ship can pass with: its hot mass.
    pub fn maximum_mass(&self) -> (r: Mass)
        ensures
            r == self.hot,
    {
        self.hot
    }
}

/// The number of ship types whose counts a [`RollersUsed`] holds: one byte each in a `u64`.
pub const MAX_NUM_ROLLERS: usize = 8;

/// A count per ship type (index 0 to 7), each held in one byte of a `u64`.
#[derive(Debug, Clone, Copy, Hash, PartialEq, Eq, Structural)]
pub struct RollersUsed(u64);

/// The byte of `bits` that starts at bit `shift`.
pub open spec fn byte_at(bits: u64, shift: u64) -> u64 {
    (bits >> shift) & 0xffu64
}

/// `bits` with the byte at `shift` replaced by the low byte of `value`, where
/// bits of `value` above the byte spill into the next byte by bitwise or.
pub open spec fn with_byte(bits: u64, shift: u64, value: u64) -> u64 {
    (bits & !(0xffu64 << shift)) | (value << shift)
}

/// The sum of the first `n` counts.
pub open spec fn sum_counts(r: RollersUsed, n: int) -> int
    decreases n,
{
    if n <= 0 {
        0
    } else {
        sum_counts(r, n - 1) + r.count(n - 1)
    }
}

impl RollersUsed {
    /// The count of ship type `i` (for `0 <= i < 8`).
    pub closed spec fn count(self, i: int) -> u8 {
        byte_at(self.0, (i * 8) as u64) as u8
    }

    /// The counts after one more of ship type `i`, as `add` computes them.
    pub closed spec fn added(self, i: int) -> RollersUsed {
        let shift = (i * 8) as u64;
        RollersUsed(with_byte(self.0, shift, (byte_at(self.0, shift) + 1) as u64))
    }

    /// The counts after one fewer of ship type `i`, as `sub` computes them.
    pub closed spec fn subbed(self, i: int) -> RollersUsed {
        let shift = (i * 8) as u64;
        RollersUsed(with_byte(self.0, shift, (byte_at(self.0, shift) - 1) as u64))
    }

    /// The total number of ships counted.
    pub open spec fn total(self) -> int {
        sum_counts(self, MAX_NUM_ROLLERS as int)
    }

    /// All counts zero.
    pub fn new() -> (r: Self)
        ensures
            forall|i: int| 0 <= i < 8 ==> #[trigger] r.count(i) == 0,
    {
        proof {
            assert forall|i: int| 0 <= i < 8 implies #[trigger] RollersUsed(0).count(i) == 0 by {
                let s = (i * 8) as u64;
                assert(byte_at(0u64, s) == 0) by (bit_vector);
            }
        }
        Self(0)
    }

    /// Counts one more ship of type `ship_index`. A count of 255 wraps to 0 and
    /// its carry is or-ed into the next type's count (lost for type 7).
    pub fn add(&mut self, ship_index: usize)
        requires
            ship_index < MAX_NUM_ROLLERS,
        ensures
            *final(self) == old(self).added(ship_index as int),
            old(self).count(ship_index as int) < 255 ==> final(self).count(ship_index as int)
                == old(self).count(ship_index as int) + 1,
            old(self).count(ship_index as int) == 255 ==> final(self).count(ship_index as int)
                == 0,
            old(self).count(ship_index as int) == 255 && ship_index < 7 ==> final(self).count(
                ship_index + 1,
            ) == (old(self).count(ship_index + 1) | 1u8),
            forall|j: int|
                0 <= j < 8 && j != ship_index && !(old(self).count(ship_index as int) == 255 && j
                    == ship_index + 1) ==> #[trigger] final(self).count(j) == old(self).count(j),
            old(self).count(ship_index as int) < 255 ==> final(self).total() == old(self).total()
                + 1,
    {
        let ghost old_self = *self;
        let shift = Self::shift(ship_index);
        let bits = self.0;
        let current_count = (bits >> shift) & 0xFF;
        assert(current_count < 256) by (bit_vector)
            requires
                current_count == (bits >> shift) & 0xFF,
        ;

        // Clear the old byte and insert the new byte
        self.0 = self.0 & !(0xFFu64 << shift);
        self.0 = self.0 | ((current_count + 1) << shift);
        proof {
            Self::lemma_add_counts(old_self, ship_index as int);
        }
    }

    /// Counts one fewer ship of type `ship_index`.
    pub fn sub(&mut self, ship_index: usize)
        requires
            ship_index < MAX_NUM_ROLLERS,
            old(self).count(ship_index as int) > 0,
        ensures
            *final(self) == old(self).subbed(ship_index as int),
            final(self).count(ship_index as int) == old(self).count(ship_index as int) - 1,
            forall|j: int|
                0 <= j < 8 && j != ship_index ==> #[trigger] final(self).count(j) == old(
                    self,
                ).count(j),
            final(self).total() == old(self).total() - 1,
    {
        let ghost old_self = *self;
        let shift = Self::shift(ship_index);
        let current_count = (self.0 >> shift) & 0xFF;

        // Clear the old byte and insert the new byte
        self.0 = self.0 & !(0xFFu64 << shift);
        self.0 = self.0 | ((current_count - 1) << shift);
        proof {
            Self::lemma_sub_counts(old_self, ship_index as int);
        }
    }

    /// The count of ship type `ship_index`.
    pub fn get(&self, ship_index: usize) -> (r: u8)
        requires
            ship_index < MAX_NUM_ROLLERS,
        ensures
            r == self.count(ship_index as int),
    {
        let shift = Self::shift(ship_index);
        let bits = self.0;
        let b = (bits >> shift) & 0xFF;
        assert(b < 256) by (bit_vector)
            requires
                b == (bits >> shift) & 0xFF,
        ;
        b as u8
    }

    fn shift(ship_index: usize) -> (r: u64)
        requires
            ship_index < MAX_NUM_ROLLERS,
        ensures
            r == ship_index * 8,
            r < 64,
    {
        ship_index as u64 * 8
    }

    /// The total number of ships counted over all types.
    pub fn num_rollers_out(&self) -> (r: u16)
        ensures
            r == self.total(),
    {
        let mut num: u16 = 0;
        let mut i: usize = 0;
        while i < MAX_NUM_ROLLERS
            invariant
                i <= MAX_NUM_ROLLERS,
                num == sum_counts(*self, i as int),
                num <= 255 * i,
            decreases MAX_NUM_ROLLERS - i,
        {
            let c = self.get(i);
            num = num + c as u16;
            i = i + 1;
        }
        num
    }

    /// Whether any ship is counted.
    pub fn any_out(&self) -> (r: bool)
        ensures
            r == (self.total() > 0),
            r <==> exists|i: int| 0 <= i < 8 && #[trigger] self.count(i) > 0,
    {
        proof {
            Self::lemma_total_zero_iff(*self, 8);
        }
        self.num_rollers_out() > 0
    }

    proof fn lemma_total_zero_iff(r: RollersUsed, n: int)
        requires
            0 <= n <= 8,
        ensures
            sum_counts(r, n) >= 0,
            sum_counts(r, n) == 0 <==> forall|i: int| 0 <= i < n ==> #[trigger] r.count(i) == 0,
        decreases n,
    {
        if n > 0 {
            Self::lemma_total_zero_iff(r, n - 1);
        }
    }

    /// Two counters that agree on every type except `i` have totals that
    /// differ by the difference at `i`.
    proof fn lemma_sum_one_changed(a: RollersUsed, b: RollersUsed, i: int, n: int)
        requires
            0 <= i < 8,
            0 <= n <= 8,
            forall|j: int| 0 <= j < 8 && j != i ==> #[trigger] a.count(j) == b.count(j),
        ensures
            i < n ==> sum_counts(b, n) == sum_counts(a, n) + b.count(i) - a.count(i),
            i >= n ==> sum_counts(b, n) == sum_counts(a, n),
        decreases n,
    {
        if n > 0 {
            Self::lemma_sum_one_changed(a, b, i, n - 1);
            if n - 1 != i {
                assert(a.count(n - 1) == b.count(n - 1));
            }
        }
    }

    proof fn lemma_add_counts(r: RollersUsed, i: int)
        requires
            0 <= i < 8,
        ensures
            r.count(i) < 255 ==> r.added(i).count(i) == r.count(i) + 1,
            r.count(i) == 255 ==> r.added(i).count(i) == 0,
            r.count(i) == 255 && i < 7 ==> r.added(i).count(i + 1) == (r.count(i + 1) | 1u8),
            forall|j: int|
                0 <= j < 8 && j != i && !(r.count(i) == 255 && j == i + 1) ==> #[trigger] r.added(
                    i,
                ).count(j) == r.count(j),
            r.count(i) < 255 ==> r.added(i).total() == r.total() + 1,
    {
        let x = r.0;
        let s = (i * 8) as u64;
        let c = byte_at(x, s);
        assert(c <= 255) by (bit_vector)
            requires
                c == byte_at(x, s),
        ;
        let y = with_byte(x, s, (c + 1) as u64);
        assert(r.added(i).0 == y);
        assert(c < 255 ==> byte_at(y, s) == c + 1) by (bit_vector)
            requires
                s <= 56,
                c == byte_at(x, s),
                y == with_byte(x, s, (c + 1) as u64),
        ;
        assert(c == 255 ==> byte_at(y, s) == 0) by (bit_vector)
            requires
                s <= 56,
                c == byte_at(x, s),
                y == with_byte(x, s, (c + 1) as u64),
        ;
        if c == 255 && i < 7 {
            let t = ((i + 1) * 8) as u64;
            assert(byte_at(y, t) == byte_at(x, t) | 1) by (bit_vector)
                requires
                    s < 56,
                    t == s + 8,
                    c == 255,
                    c == byte_at(x, s),
                    y == with_byte(x, s, (c + 1) as u64),
            ;
            assert((byte_at(x, t) | 1) as u8 == ((byte_at(x, t) as u8) | 1u8)) by (bit_vector);
        }
        assert forall|j: int|
            0 <= j < 8 && j != i && !(r.count(i) == 255 && j == i + 1) implies #[trigger] r.added(
            i,
        ).count(j) == r.count(j) by {
            let t = (j * 8) as u64;
            if j < i {
                assert(byte_at(y, t) == byte_at(x, t)) by (bit_vector)
                    requires
                        s < 64,
                        t + 8 <= s,
                        c == byte_at(x, s),
                        y == with_byte(x, s, (c + 1) as u64),
                ;
            } else if c < 255 {
                assert(byte_at(y, t) == byte_at(x, t)) by (bit_vector)
                    requires
                        t < 64,
                        s + 8 <= t,
                        c < 255,
                        c == byte_at(x, s),
                        y == with_byte(x, s, (c + 1) as u64),
                ;
            } else {
                assert(j >= i + 2);
                assert(s + 16 <= t);
                assert(byte_at(y, t) == byte_at(x, t)) by (bit_vector)
                    requires
                        t < 64,
                        s + 16 <= t,
                        c == byte_at(x, s),
                        y == with_byte(x, s, (c + 1) as u64),
                ;
            }
        }
        if c < 255 {
            Self::lemma_sum_one_changed(r, r.added(i), i, 8);
        }
    }

    proof fn lemma_sub_counts(r: RollersUsed, i: int)
        requires
            0 <= i < 8,
            r.count(i) > 0,
        ensures
            r.subbed(i).count(i) == r.count(i) - 1,
            forall|j: int| 0 <= j < 8 && j != i ==> #[trigger] r.subbed(i).count(j) == r.count(j),
            r.subbed(i).total() == r.total() - 1,
    {
        let x = r.0;
        let s = (i * 8) as u64;
        let c = byte_at(x, s);
        assert(c <= 255) by (bit_vector)
            requires
                c == byte_at(x, s),
        ;
        let y = with_byte(x, s, (c - 1) as u64);
        assert(r.subbed(i).0 == y);
        assert(byte_at(y, s) == c - 1) by (bit_vector)
            requires
                s <= 56,
                c > 0,
                c == byte_at(x, s),
                y == with_byte(x, s, (c - 1) as u64),
        ;
        assert forall|j: int| 0 <= j < 8 && j != i implies #[trigger] r.subbed(i).count(j)
            == r.count(j) by {
            let t = (j * 8) as u64;
            if j < i {
                assert(byte_at(y, t) == byte_at(x, t)) by (bit_vector)
                    requires
                        s < 64,
                        t + 8 <= s,
                        c > 0,
                        c == byte_at(x, s),
                        y == with_byte(x, s, (c - 1) as u64),
                ;
            } else {
                assert(byte_at(y, t) == byte_at(x, t)) by (bit_vector)
                    requires
                        t < 64,
                        s + 8 <= t,
                        c > 0,
                        c == byte_at(x, s),
                        y == with_byte(x, s, (c - 1) as u64),
                ;
            }
        }
        Self::lemma_sum_one_changed(r, r.subbed(i), i, 8);
    }
}

/// One fewer of a type, after one more of it, gives back the same counts
/// (as long as the count did not wrap).
pub proof fn lemma_sub_undoes_add(r: RollersUsed, i: int)
    requires
        0 <= i < 8,
        r.count(i) < 255,
    ensures
        r.added(i).count(i) > 0,
        r.added(i).subbed(i) == r,
{
    RollersUsed::lemma_add_counts(r, i);
    let x = r.0;
    let s = (i * 8) as u64;
    let c = byte_at(x, s);
    assert(c <= 255) by (bit_vector)
        requires
            c == byte_at(x, s),
    ;
    let y = with_byte(x, s, (c + 1) as u64);
    let z = with_byte(y, s, (byte_at(y, s) - 1) as u64);
    assert(z == x) by (bit_vector)
        requires
            s <= 56,
            c < 255,
            c == byte_at(x, s),
            y == with_byte(x, s, (c + 1) as u64),
            z == with_byte(y, s, (byte_at(y, s) - 1) as u64),
    ;
}

/// One more of a type, after one fewer of it, gives back the same counts.
pub proof fn lemma_add_undoes_sub(r: RollersUsed, i: int)
    requires
        0 <= i < 8,
        r.count(i) > 0,
    ensures
        r.subbed(i).added(i) == r,
{
    let x = r.0;
    let s = (i * 8) as u64;
    let c = byte_at(x, s);
    assert(c <= 255) by (bit_vector)
        requires
            c == byte_at(x, s),
    ;
    let y = with_byte(x, s, (c - 1) as u64);
    let z = with_byte(y, s, (byte_at(y, s) + 1) as u64);
    assert(z == x) by (bit_vector)
        requires
            s <= 56,
            c > 0,
            c == byte_at(x, s),
            y == with_byte(x, s, (c - 1) as u64),
            z == with_byte(y, s, (byte_at(y, s) + 1) as u64),
    ;
}

/// A ship type that the fleet can roll with, with how many may be out at a time
/// and how many times it may go out in total.
pub struct AvailabileShips {
    pub ship: Ship,
    pub max_num_out: u8,
    pub max_used: u8,
}

/// A roll situation.
#[derive(Debug, Hash, PartialEq, Eq, Structural)]
pub struct RollState {
    /// The range in which the hole's remaining mass lies.
    pub remaining_mass: MassRange,
    /// How many ships of each type are on the far side.
    pub rollers_out: RollersUsed,
    /// The range in which the hole's maximum mass lies.
    pub max_size_range: MassRange,
    /// The most-massive state the hole can still show.
    pub highest_hole_state: HoleState,
    /// How many times each ship type has gone out.
    pub used_ships: RollersUsed,
}

/// One pass that the fleet can make next, with the counters after it.
#[derive(Debug, Clone, Copy, PartialEq, Eq, Structural)]
pub struct PotentialPass {
    pub new_out_rollers: RollersUsed,
    pub mass: Mass,
    pub direction: Direction,
    pub ship_state: ShipState,
    pub ship: Ship,
    pub new_used_ships: RollersUsed,
}

/// The number of passes a list of next passes holds without allocating.
pub const PREDICTED_NUM_POTENTIAL_PASSES: usize = 20;

/// The passes that the fleet can make next, in a `SmallVec` that holds the
/// usual number of them without allocating.
#[verifier::external_body]
pub struct PassList {
    passes: SmallVec<[PotentialPass; PREDICTED_NUM_POTENTIAL_PASSES]>,
}

/// The passes held by a list of next passes, in order.
pub uninterp spec fn pass_list_contents(v: PassList) -> Seq<PotentialPass>;

/// Wraps `SmallVec::new`: the new list holds no pass.
#[verifier::external_body]
fn new_pass_list() -> (r: PassList)
    ensures
        pass_list_contents(r) == Seq::<PotentialPass>::empty(),
{
    PassList { passes: SmallVec::new() }
}

/// Wraps `SmallVec::push`: the pass is appended at the end. (The list grows by
/// doubling, and `push` panics only when the new capacity in bytes exceeds
/// `isize::MAX`; below the bound in `requires` that capacity stays under
/// 2^21 passes of a few dozen bytes, within that limit on 32-bit targets too.)
#[verifier::external_body]
fn push_pass(v: &mut PassList, pass: PotentialPass)
    requires
        pass_list_contents(*old(v)).len() < 0x10_0000,
    ensures
        pass_list_contents(*final(v)) == pass_list_contents(*old(v)).push(pass),
{
    v.passes.push(pass)
}

/// Wraps `SmallVec::len`: the number of passes held.
#[verifier::external_body]
fn pass_list_len(v: &PassList) -> (r: usize)
    ensures
        r == pass_list_contents(*v).len(),
{
    v.passes.len()
}

/// Wraps indexing of a `SmallVec`: the pass at position `i`.
#[verifier::external_body]
fn pass_list_at(v: &PassList, i: usize) -> (r: PotentialPass)
    requires
        i < pass_list_contents(*v).len(),
    ensures
        r == pass_list_contents(*v)[i as int],
{
    v.passes[i]
}

impl View for PassList {
    type V = Seq<PotentialPass>;

    /// The passes held, in order.
    open spec fn view(&self) -> Seq<PotentialPass> {
        pass_list_contents(*self)
    }
}

impl PassList {
    /// The number of passes held.
    pub fn len(&self) -> (r: usize)
        ensures
            r == self@.len(),
    {
        pass_list_len(self)
    }

    /// The pass at position `i`.
    pub fn get(&self, i: usize) -> (r: PotentialPass)
        requires
            i < self@.len(),
        ensures
            r == self@[i as int],
    {
        pass_list_at(self, i)
    }
}

/// The two passes (cold, then hot) of one ship in the given direction.
pub open spec fn pass_pair(
    ship: Ship,
    direction: Direction,
    new_out_rollers: RollersUsed,
    new_used_ships: RollersUsed,
) -> Seq<PotentialPass> {
    seq![
        PotentialPass {
            new_out_rollers,
            mass: ship.cold,
            direction,
            ship_state: ShipState::Cold,
            ship,
            new_used_ships,
        },
        PotentialPass {
            new_out_rollers,
            mass: ship.hot,
            direction,
            ship_state: ShipState::Hot,
            ship,
            new_used_ships,
        },
    ]
}

/// The passes back in of the first `n` ship types: each type with a ship out
/// can bring one back cold or hot.
pub open spec fn spec_in_passes(
    available_rollers: Seq<AvailabileShips>,
    rollers_out: RollersUsed,
    used_rollers: RollersUsed,
    n: int,
) -> Seq<PotentialPass>
    decreases n,
{
    if n <= 0 {
        Seq::empty()
    } else {
        let i = n - 1;
        spec_in_passes(available_rollers, rollers_out, used_rollers, i) + if rollers_out.count(i)
            == 0 {
            Seq::empty()
        } else {
            pass_pair(available_rollers[i].ship, Direction::In, rollers_out.subbed(i), used_rollers)
        }
    }
}

/// The passes out of the first `n` ship types: each type that has not used up
/// its allowed number of trips can send one more out, cold or hot.
pub open spec fn spec_out_passes(
    available_rollers: Seq<AvailabileShips>,
    rollers_out: RollersUsed,
    used_rollers: RollersUsed,
    n: int,
) -> Seq<PotentialPass>
    decreases n,
{
    if n <= 0 {
        Seq::empty()
    } else {
        let i = n - 1;
        spec_out_passes(available_rollers, rollers_out, used_rollers, i) + if used_rollers.added(
            i,
        ).count(i) > available_rollers[i].max_used {
            Seq::empty()
        } else {
            pass_pair(
                available_rollers[i].ship,
                Direction::Out,
                rollers_out.added(i),
                used_rollers.added(i),
            )
        }
    }
}

/// Every pass the fleet can make next: first the passes back in, then the passes out.
pub open spec fn spec_steps(
    available_rollers: Seq<AvailabileShips>,
    rollers_out: RollersUsed,
    used_rollers: RollersUsed,
) -> Seq<PotentialPass> {
    spec_in_passes(available_rollers, rollers_out, used_rollers, available_rollers.len() as int)
        + spec_out_passes(
        available_rollers,
        rollers_out,
        used_rollers,
        available_rollers.len() as int,
    )
}

/// Every pass the fleet can make next from the given counters.
pub fn get_steps(
    available_rollers: &[AvailabileShips],
    rollers_out: &RollersUsed,
    used_rollers: &RollersUsed,
) -> (r: PassList)
    requires
        available_rollers.len() <= MAX_NUM_ROLLERS,
    ensures
        pass_list_contents(r) == spec_steps(available_rollers@, *rollers_out, *used_rollers),
{
    let mut potential_passes = new_pass_list();
    let mut i: usize = 0;
    while i < available_rollers.len()
        invariant
            i <= available_rollers.len() <= MAX_NUM_ROLLERS,
            pass_list_contents(potential_passes) == spec_in_passes(
                available_rollers@,
                *rollers_out,
                *used_rollers,
                i as int,
            ),
            pass_list_contents(potential_passes).len() <= 2 * i,
        decreases available_rollers.len() - i,
    {
        if rollers_out.get(i) != 0 {
            let mut new_out_rollers = *rollers_out;
            let in_ship = available_rollers[i].ship;
            new_out_rollers.sub(i);

            push_pass(
                &mut potential_passes,
                PotentialPass {
                    new_out_rollers: new_out_rollers,
                    mass: in_ship.cold,
                    direction: Direction::In,
                    ship_state: ShipState::Cold,
                    ship: in_ship,
                    new_used_ships: *used_rollers,
                },
            );
            push_pass(
                &mut potential_passes,
                PotentialPass {
                    new_out_rollers: new_out_rollers,
                    mass: in_ship.hot,
                    direction: Direction::In,
                    ship_state: ShipState::Hot,
                    ship: in_ship,
                    new_used_ships: *used_rollers,
                },
            );
        }
        proof {
            assert(pass_list_contents(potential_passes) =~= spec_in_passes(
                available_rollers@,
                *rollers_out,
                *used_rollers,
                i + 1,
            ));
        }
        i = i + 1;
    }
    let ghost in_passes = pass_list_contents(potential_passes);

    let mut i: usize = 0;
    while i < available_rollers.len()
        invariant
            i <= available_rollers.len() <= MAX_NUM_ROLLERS,
            in_passes == spec_in_passes(
                available_rollers@,
                *rollers_out,
                *used_rollers,
                available_rollers.len() as int,
            ),
            in_passes.len() <= 16,
            pass_list_contents(potential_passes) == in_passes + spec_out_passes(
                available_rollers@,
                *rollers_out,
                *used_rollers,
                i as int,
            ),
            pass_list_contents(potential_passes).len() <= 16 + 2 * i,
        decreases available_rollers.len() - i,
    {
        let out_ship = available_rollers[i].ship;
        let mut new_out_rollers = *rollers_out;
        new_out_rollers.add(i);
        let mut new_used_rollers = *used_rollers;
        new_used_rollers.add(i);
        if new_used_rollers.get(i) <= available_rollers[i].max_used {
            push_pass(
                &mut potential_passes,
                PotentialPass {
                    new_out_rollers: new_out_rollers,
                    mass: out_ship.cold,
                    direction: Direction::Out,
                    ship_state: ShipState::Cold,
                    ship: out_ship,
                    new_used_ships: new_used_rollers,
                },
            );
            push_pass(
                &mut potential_passes,
                PotentialPass {
                    new_out_rollers: new_out_rollers,
                    mass: out_ship.hot,
                    direction: Direction::Out,
                    ship_state: ShipState::Hot,
                    ship: out_ship,
                    new_used_ships: new_used_rollers,
                },
            );
        }
        proof {
            assert(pass_list_contents(potential_passes) =~= in_passes + spec_out_passes(
                available_rollers@,
                *rollers_out,
                *used_rollers,
                i + 1,
            ));
        }
        i = i + 1;
    }
    potential_passes
}

/// The number of (remaining mass, maximum mass) pairs: the product of the sizes.
pub fn calc_possible_states(mass_range: MassRange, max_mass_range: MassRange) -> (r: u128)
    requires
        size_fits(mass_range),
        size_fits(max_mass_range),
    ensures
        r == spec_possible_states(mass_range, max_mass_range),
{
    possible_states(mass_range, max_mass_range)
}

/// A hole that is full at some mass in `possible_mass` has a maximum mass of at
/// most twice the most of that range.
pub open spec fn spec_narrowed_max_range_from_full(
    possible_mass: MassRange,
    max_mass_range: MassRange,
) -> MassRange {
    MassRange {
        least: max_mass_range.least,
        most: if possible_mass.most * 2 <= max_mass_range.most {
            (possible_mass.most * 2) as i64
        } else {
            max_mass_range.most
        },
    }
}

/// The maximum range narrowed by knowing that the hole is full at a remaining
/// mass in `possible_mass`.
pub fn update_max_range_from_full(possible_mass: &MassRange, max_mass_range: &MassRange) -> (r:
    MassRange)
    requires
        fits_mass(possible_mass.most * 2),
    ensures
        r == spec_narrowed_max_range_from_full(*possible_mass, *max_mass_range),
{
    let largest_shrink_threshold = possible_mass.most;
    let largest_possible_hole = largest_shrink_threshold * 2;
    let most = if largest_possible_hole <= max_mass_range.most {
        largest_possible_hole
    } else {
        max_mass_range.most
    };
    mr(max_mass_range.least, most)
}

/// The total cold mass (`cold == true`) or hot mass of the ships out among the first `n` types.
pub open spec fn spec_out_mass_sum(
    available_rollers: Seq<AvailabileShips>,
    rollers_out: RollersUsed,
    n: int,
    cold: bool,
) -> int
    decreases n,
{
    if n <= 0 {
        0
    } else {
        let ship = available_rollers[n - 1].ship;
        spec_out_mass_sum(available_rollers, rollers_out, n - 1, cold) + (if cold {
            ship.cold
        } else {
            ship.hot
        }) * rollers_out.count(n - 1)
    }
}

/// Among the first `n` types with a ship out, the first one with the largest cold mass.
pub open spec fn spec_largest_out_ship(
    available_rollers: Seq<AvailabileShips>,
    rollers_out: RollersUsed,
    n: int,
) -> Option<Ship>
    decreases n,
{
    if n <= 0 {
        None
    } else {
        let prev = spec_largest_out_ship(available_rollers, rollers_out, n - 1);
        let ship = available_rollers[n - 1].ship;
        if rollers_out.count(n - 1) == 0 {
            prev
        } else {
            match prev {
                Some(p) => if ship.cold > p.cold {
                    Some(ship)
                } else {
                    Some(p)
                },
                None => Some(ship),
            }
        }
    }
}

/// The least mass that the ships out must put through the hole to all come
/// back without closing it: all of them cold, except the largest, which is
/// the one whose pass may close it.
pub open spec fn spec_min_mass_needed(
    available_rollers: Seq<AvailabileShips>,
    rollers_out: RollersUsed,
) -> int {
    let n = available_rollers.len() as int;
    spec_out_mass_sum(available_rollers, rollers_out, n, true) - match spec_largest_out_ship(
        available_rollers,
        rollers_out,
        n,
    ) {
        Some(s) => s.cold as int,
        None => 0,
    }
}

/// The most mass that the ships out can put through the hole on their way back: all hot.
pub open spec fn spec_max_return_mass(
    available_rollers: Seq<AvailabileShips>,
    rollers_out: RollersUsed,
) -> int {
    spec_out_mass_sum(available_rollers, rollers_out, available_rollers.len() as int, false)
}

/// What is known, at the least, of the chance that a ship ends up on the far
/// side of a closed hole.
#[derive(Debug, Clone, Copy, PartialEq, Eq, Structural)]
pub enum RolloutChance {
    /// No ship can end up outside.
    Zero,
    /// A ship ends up outside for certain.
    Certain,
    /// A ship ends up outside for at least `num_rollout_masses` of `all_masses`
    /// equally likely remaining masses.
    Partial { num_rollout_masses: Mass, all_masses: Mass },
}

/// What is known, at the least, of the number of passes still to make.
#[derive(Debug, Clone, Copy, PartialEq, Eq, Structural)]
pub enum PassesBound {
    /// At least one pass per ship out.
    RollersOut,
    /// One pass per ship out, plus enough passes of the heaviest ship to put
    /// `mass_deficit` more mass through.
    RollersOutPlusDeficit { mass_deficit: Mass },
    /// No ship out, the hole still open: at least one pass.
    One,
}

/// Bounds on the qualities of any plan from a situation.
#[derive(Debug, Clone, Copy, PartialEq, Eq, Structural)]
pub struct QualityBounds {
    pub max_num_out: u16,
    pub rollout: RolloutChance,
    pub passes: PassesBound,
}

/// The bound on the rollout chance from `path_state`.
pub open spec fn spec_rollout_chance(
    available_rollers: Seq<AvailabileShips>,
    path_state: RollState,
) -> RolloutChance {
    let needed = spec_min_mass_needed(available_rollers, path_state.rollers_out);
    let rem = path_state.remaining_mass;
    if path_state.rollers_out.total() == 0 {
        RolloutChance::Zero
    } else if needed >= rem.most {
        RolloutChance::Certain
    } else if needed >= rem.least {
        let num = (needed - rem.least) + 1;
        RolloutChance::Partial {
            num_rollout_masses: num as i64,
            all_masses: (rem.most - needed + num) as i64,
        }
    } else {
        RolloutChance::Zero
    }
}

/// The bound on the number of passes from `path_state`.
pub open spec fn spec_passes_bound(
    available_rollers: Seq<AvailabileShips>,
    path_state: RollState,
) -> PassesBound {
    let ret = spec_max_return_mass(available_rollers, path_state.rollers_out);
    let rem = path_state.remaining_mass;
    if ret < rem.least {
        PassesBound::RollersOutPlusDeficit { mass_deficit: (rem.least - ret) as i64 }
    } else if path_state.rollers_out.total() == 0 && rem.least > 0 {
        PassesBound::One
    } else {
        PassesBound::RollersOut
    }
}

/// No overflow happens in the sums over the first `n` ship types.
pub open spec fn out_mass_sums_fit(
    available_rollers: Seq<AvailabileShips>,
    rollers_out: RollersUsed,
    n: int,
) -> bool
    decreases n,
{
    n <= 0 || {
        let k = n - 1;
        &&& out_mass_sums_fit(available_rollers, rollers_out, k)
        &&& fits_mass(available_rollers[k].ship.cold * rollers_out.count(k))
        &&& fits_mass(available_rollers[k].ship.hot * rollers_out.count(k))
        &&& fits_mass(spec_out_mass_sum(available_rollers, rollers_out, n, true))
        &&& fits_mass(spec_out_mass_sum(available_rollers, rollers_out, n, false))
    }
}

/// The sums over fewer types fit when those over more do.
proof fn lemma_out_mass_sums_fit_prefix(
    available_rollers: Seq<AvailabileShips>,
    rollers_out: RollersUsed,
    n: int,
    k: int,
)
    requires
        0 <= k <= n,
        out_mass_sums_fit(available_rollers, rollers_out, n),
    ensures
        out_mass_sums_fit(available_rollers, rollers_out, k),
    decreases n - k,
{
    if k < n {
        lemma_out_mass_sums_fit_prefix(available_rollers, rollers_out, n - 1, k);
    }
}

/// No overflow happens in computing the quality bounds of `path_state`.
pub open spec fn quality_bounds_fit(
    available_rollers: Seq<AvailabileShips>,
    path_state: RollState,
) -> bool {
    let n = available_rollers.len() as int;
    let needed = spec_min_mass_needed(available_rollers, path_state.rollers_out);
    let ret = spec_max_return_mass(available_rollers, path_state.rollers_out);
    let rem = path_state.remaining_mass;
    &&& out_mass_sums_fit(available_rollers, path_state.rollers_out, n)
    &&& fits_mass(needed)
    &&& (path_state.rollers_out.total() > 0 && needed < rem.most && needed >= rem.least) ==> {
        &&& fits_mass(rem.least - needed)
        &&& fits_mass(rem.most - needed)
        &&& fits_mass(needed - rem.least + 1)
        &&& fits_mass(rem.most - needed + (needed - rem.least + 1))
    }
    &&& ret < rem.least ==> fits_mass(rem.least - ret)
}

/// Whether `minimum_quality_bounds` can bound the qualities of `path_state`
/// without any overflow (where the planner's arithmetic would overflow, it cannot).
pub fn quality_bounds_computable(available_rollers: &[AvailabileShips], path_state: &RollState) -> (r:
    bool)
    requires
        available_rollers.len() <= MAX_NUM_ROLLERS,
    ensures
        r == quality_bounds_fit(available_rollers@, *path_state),
{
    let ghost ships = available_rollers@;
    let ghost out = path_state.rollers_out;
    let min = i64::MIN as i128;
    let max = i64::MAX as i128;
    let mut cold_sum: i128 = 0;
    let mut hot_sum: i128 = 0;
    let mut largest_ship: Option<Ship> = None;
    let mut i: usize = 0;
    while i < available_rollers.len()
        invariant
            i <= available_rollers.len() <= MAX_NUM_ROLLERS,
            ships == available_rollers@,
            out == path_state.rollers_out,
            min == i64::MIN,
            max == i64::MAX,
            out_mass_sums_fit(ships, out, i as int),
            cold_sum == spec_out_mass_sum(ships, out, i as int, true),
            hot_sum == spec_out_mass_sum(ships, out, i as int, false),
            fits_mass(cold_sum as int),
            fits_mass(hot_sum as int),
            largest_ship == spec_largest_out_ship(ships, out, i as int),
        decreases available_rollers.len() - i,
    {
        let ship = available_rollers[i].ship;
        let num = path_state.rollers_out.get(i) as i128;
        assert(-0x8000_0000_0000_0000_00 <= ship.cold * num <= 0x8000_0000_0000_0000_00) by (nonlinear_arith)
            requires
                i64::MIN <= ship.cold <= i64::MAX,
                0 <= num <= 255,
        ;
        assert(-0x8000_0000_0000_0000_00 <= ship.hot * num <= 0x8000_0000_0000_0000_00) by (nonlinear_arith)
            requires
                i64::MIN <= ship.hot <= i64::MAX,
                0 <= num <= 255,
        ;
        let cold_term = ship.cold as i128 * num;
        let hot_term = ship.hot as i128 * num;
        let new_cold = cold_sum + cold_term;
        let new_hot = hot_sum + hot_term;
        if !(min <= cold_term && cold_term <= max && min <= hot_term && hot_term <= max && min
            <= new_cold && new_cold <= max && min <= new_hot && new_hot <= max) {
            proof {
                assert(!out_mass_sums_fit(ships, out, ships.len() as int)) by {
                    if out_mass_sums_fit(ships, out, ships.len() as int) {
                        lemma_out_mass_sums_fit_prefix(ships, out, ships.len() as int, i + 1);
                        assert(ships[i as int].ship.cold * out.count(i as int) == cold_term);
                        assert(ships[i as int].ship.hot * out.count(i as int) == hot_term);
                    }
                }
            }
            return false;
        }
        cold_sum = new_cold;
        hot_sum = new_hot;
        if num != 0 {
            largest_ship = match largest_ship {
                Some(prev) => if ship.cold > prev.cold {
                    Some(ship)
                } else {
                    Some(prev)
                },
                None => Some(ship),
            };
        }
        proof {
            assert(ships[i as int].ship == ship);
            assert(out.count(i as int) == num);
            assert(ships[i as int].ship.cold * out.count(i as int) == cold_term);
            assert(ships[i as int].ship.hot * out.count(i as int) == hot_term);
            assert(spec_out_mass_sum(ships, out, i + 1, true) == new_cold);
            assert(spec_out_mass_sum(ships, out, i + 1, false) == new_hot);
        }
        i = i + 1;
    }
    let needed = match largest_ship {
        Some(s) => cold_sum - s.cold as i128,
        None => cold_sum,
    };
    if !(min <= needed && needed <= max) {
        return false;
    }
    let rem = path_state.remaining_mass;
    let least = rem.least as i128;
    let most = rem.most as i128;
    if path_state.rollers_out.any_out() && needed < most && needed >= least {
        let a = least - needed;
        let b = most - needed;
        let c = needed - least + 1;
        let d = most - needed + c;
        if !(min <= a && a <= max && min <= b && b <= max && min <= c && c <= max && min <= d && d
            <= max) {
            return false;
        }
    }
    if hot_sum < least {
        let e = least - hot_sum;
        if !(min <= e && e <= max) {
            return false;
        }
    }
    true
}

/// Estimates of the qualities of the plans from `path_state`, read off the
/// ships that are out and the remaining mass: the number of ships out now,
/// what the ships out must put through before the last of them can pass
/// (its rollout estimate), and the passes still owed by the ships out (and by
/// the mass the hole still needs when all of them return hot). These are
/// estimates, not bounds that every plan keeps: a hole that is closed already
/// with a ship out gets one pass per ship out, though the plan for a closed
/// hole makes no pass.
pub fn minimum_quality_bounds(available_rollers: &[AvailabileShips], path_state: &RollState) -> (r:
    QualityBounds)
    requires
        available_rollers.len() <= MAX_NUM_ROLLERS,
        quality_bounds_fit(available_rollers@, *path_state),
    ensures
        r.max_num_out == path_state.rollers_out.total(),
        r.rollout == spec_rollout_chance(available_rollers@, *path_state),
        r.passes == spec_passes_bound(available_rollers@, *path_state),
{
    let ghost ships = available_rollers@;
    let ghost out = path_state.rollers_out;
    let mut minimum_mass_needed_to_go_though_without_closing: Mass = 0;
    let mut max_return_mass: Mass = 0;
    let mut largest_ship: Option<Ship> = None;
    let mut i: usize = 0;
    while i < available_rollers.len()
        invariant
            i <= available_rollers.len() <= MAX_NUM_ROLLERS,
            ships == available_rollers@,
            out == path_state.rollers_out,
            out_mass_sums_fit(ships, out, ships.len() as int),
            minimum_mass_needed_to_go_though_without_closing == spec_out_mass_sum(
                ships,
                out,
                i as int,
                true,
            ),
            max_return_mass == spec_out_mass_sum(ships, out, i as int, false),
            largest_ship == spec_largest_out_ship(ships, out, i as int),
        decreases available_rollers.len() - i,
    {
        let ship = available_rollers[i].ship;
        let num = path_state.rollers_out.get(i);
        proof {
            lemma_out_mass_sums_fit_prefix(ships, out, ships.len() as int, i + 1);
        }
        minimum_mass_needed_to_go_though_without_closing = minimum_mass_needed_to_go_though_without_closing
            + ship.minimum_mass() * num as Mass;
        max_return_mass = max_return_mass + ship.maximum_mass() * num as Mass;

        if num != 0 {
            largest_ship = match largest_ship {
                Some(prev) => if ship.minimum_mass() > prev.minimum_mass() {
                    Some(ship)
                } else {
                    Some(prev)
                },
                None => Some(ship),
            };
        }
        i = i + 1;
    }
    if let Some(ship) = largest_ship {
        minimum_mass_needed_to_go_though_without_closing = minimum_mass_needed_to_go_though_without_closing
            - ship.minimum_mass();
    }
    let needed = minimum_mass_needed_to_go_though_without_closing;
    let rem = path_state.remaining_mass;

    let rollout = if !path_state.rollers_out.any_out() {
        RolloutChance::Zero
    } else if needed >= rem.most {
        RolloutChance::Certain
    } else if needed >= rem.least {
        let range_after_all_in = rem.sub(needed);
        let num_rollout_masses = -range_after_all_in.least + 1;
        RolloutChance::Partial {
            num_rollout_masses,
            all_masses: range_after_all_in.most + num_rollout_masses,
        }
    } else {
        RolloutChance::Zero
    };

    let num_rollers_out = path_state.rollers_out.num_rollers_out();
    let passes = if max_return_mass < rem.least {
        // Even if everyone currently out returns hot, the hole won't close.
        PassesBound::RollersOutPlusDeficit { mass_deficit: rem.least - max_return_mass }
    } else if num_rollers_out == 0 && rem.least > 0 {
        // No ships out, no deficit, but hole is open. Must go out at least once.
        PassesBound::One
    } else {
        PassesBound::RollersOut
    };

    QualityBounds { max_num_out: num_rollers_out, rollout, passes }
}

/// The heaviest mass with which any of the ships passes (its hot mass), or
/// `None` when there are no ships.
pub fn max_single_jump_mass(available_rollers: &[AvailabileShips]) -> (r: Option<Mass>)
    ensures
        r is None <==> available_rollers@.len() == 0,
        r matches Some(m) ==> (exists|i: int|
            0 <= i < available_rollers@.len() && #[trigger] available_rollers@[i].ship.hot == m),
        r matches Some(m) ==> (forall|i: int|
            0 <= i < available_rollers@.len() ==> #[trigger] available_rollers@[i].ship.hot <= m),
{
    let mut best: Option<Mass> = None;
    let mut i: usize = 0;
    while i < available_rollers.len()
        invariant
            i <= available_rollers.len(),
            best is None <==> i == 0,
            best matches Some(m) ==> (exists|k: int|
                0 <= k < i && #[trigger] available_rollers@[k].ship.hot == m),
            best matches Some(m) ==> (forall|k: int|
                0 <= k < i ==> #[trigger] available_rollers@[k].ship.hot <= m),
        decreases available_rollers.len() - i,
    {
        let mass = available_rollers[i].ship.maximum_mass();
        best = match best {
            Some(prev) => if mass > prev {
                Some(mass)
            } else {
                Some(prev)
            },
            None => Some(mass),
        };
        i = i + 1;
    }
    best
}

/// The integer ceiling of `d / j` for `j > 0`.
pub open spec fn ceil_div(d: int, j: int) -> int {
    if d % j == 0 {
        d / j
    } else {
        d / j + 1
    }
}

/// The least number of passes of `max_single_jump_mass` that put at least
/// `mass_deficit` through: the ceiling of their quotient.
pub fn extra_jumps_needed(mass_deficit: Mass, max_single_jump_mass: Mass) -> (r: Mass)
    requires
        mass_deficit >= 0,
        max_single_jump_mass > 0,
    ensures
        r == ceil_div(mass_deficit as int, max_single_jump_mass as int),
        0 <= r <= mass_deficit,
        r * max_single_jump_mass >= mass_deficit,
        (r - 1) * max_single_jump_mass < mass_deficit,
{
    let d = mass_deficit;
    let j = max_single_jump_mass;
    let q = d / j;
    let rem = d % j;
    assert(q * j + rem == d && 0 <= rem < j) by (nonlinear_arith)
        requires
            d >= 0,
            j > 0,
            q == d / j,
            rem == d % j,
    ;
    assert(0 <= q <= d && (rem != 0 ==> q < d)) by (nonlinear_arith)
        requires
            d >= 0,
            j > 0,
            q == d / j,
            q * j + rem == d,
            0 <= rem < j,
    ;
    let r = if rem == 0 {
        q
    } else {
        q + 1
    };
    assert(r * j >= d && (r - 1) * j < d) by (nonlinear_arith)
        requires
            q * j + rem == d,
            0 <= rem < j,
            rem == 0 ==> r == q,
            rem != 0 ==> r == q + 1,
    ;
    r
}

/// The least number of passes that a passes bound gives, with `num_rollers_out`
/// ships out and `max_single_jump_mass` the heaviest pass.
pub open spec fn spec_least_passes(bound: PassesBound, num_rollers_out: int, max_single_jump_mass: int) -> int {
    match bound {
        PassesBound::RollersOut => num_rollers_out,
        PassesBound::RollersOutPlusDeficit { mass_deficit } => num_rollers_out + ceil_div(
            mass_deficit as int,
            max_single_jump_mass,
        ),
        PassesBound::One => 1,
    }
}

/// The number of passes that a passes bound stands for: one per ship out,
/// plus the heaviest passes that a mass deficit needs, or one pass.
pub fn least_number_of_passes(bound: PassesBound, num_rollers_out: u16, max_single_jump_mass: Mass) -> (r:
    Mass)
    requires
        max_single_jump_mass > 0,
        bound matches PassesBound::RollersOutPlusDeficit { mass_deficit } ==> 0 <= mass_deficit
            && mass_deficit + num_rollers_out <= Mass::MAX,
    ensures
        r == spec_least_passes(bound, num_rollers_out as int, max_single_jump_mass as int),
{
    match bound {
        PassesBound::RollersOut => num_rollers_out as Mass,
        PassesBound::RollersOutPlusDeficit { mass_deficit } => {
            let extra = extra_jumps_needed(mass_deficit, max_single_jump_mass);
            num_rollers_out as Mass + extra
        },
        PassesBound::One => 1,
    }
}

/// The largest number of ships out over a floor and the plans that follow
/// for each hole state (`None` where there is no plan).
pub fn max_num_out_over_next(min_max_num_out: u16, next: [Option<u16>; 3]) -> (r: u16)
    ensures
        r >= min_max_num_out,
        forall|i: int| 0 <= i < 3 ==> (#[trigger] next@[i] matches Some(n) ==> r >= n),
        r == min_max_num_out || exists|i: int| 0 <= i < 3 && #[trigger] next@[i] == Some(r),
{
    let mut r = min_max_num_out;
    let mut i: usize = 0;
    while i < 3
        invariant
            i <= 3,
            r >= min_max_num_out,
            forall|k: int| 0 <= k < i ==> (#[trigger] next@[k] matches Some(n) ==> r >= n),
            r == min_max_num_out || exists|k: int| 0 <= k < i && #[trigger] next@[k] == Some(r),
        decreases 3 - i,
    {
        if let Some(n) = next[i] {
            if n > r {
                r = n;
            }
        }
        i = i + 1;
    }
    r
}

/// The cached plan for a floor on the number of ships out: plan `i` of a
/// cache is the best when `i` ships are out already; the last plan serves
/// every higher floor.
pub fn get_best_plan_from_cached<T>(min_max_num_out: u16, cached_plans: &[T]) -> (r: &T)
    requires
        cached_plans@.len() > 0,
    ensures
        *r == cached_plans@[if min_max_num_out < cached_plans@.len() {
            min_max_num_out as int
        } else {
            cached_plans@.len() - 1
        }],
{
    let n = min_max_num_out as usize;
    let last = cached_plans.len() - 1;
    let i = if n < last {
        n
    } else {
        last
    };
    &cached_plans[i]
}

/// The position of a hole state in the planner's per-state arrays.
pub open spec fn state_index(state: HoleState) -> int {
    match state {
        HoleState::Crit => 0,
        HoleState::Shrink => 1,
        HoleState::Full => 2,
    }
}

/// The hole state at position `i` of the planner's per-state arrays.
pub open spec fn state_at(i: int) -> HoleState {
    if i == 0 {
        HoleState::Crit
    } else if i == 1 {
        HoleState::Shrink
    } else {
        HoleState::Full
    }
}

/// Whether the state at position `i` cannot follow: a hole never grows back
/// into a more massive state, and an assumed state excludes the others.
pub open spec fn spec_should_ignore(
    highest_hole_state: HoleState,
    assume_state: Option<HoleState>,
    i: int,
) -> bool {
    ||| highest_hole_state == HoleState::Crit && (i == 1 || i == 2)
    ||| highest_hole_state == HoleState::Shrink && i == 2
    ||| (assume_state matches Some(s) && state_index(s) != i)
}

/// The remaining masses at which a hole with the given maximum range shows the
/// state at position `i`.
pub open spec fn spec_state_range(max_size_range: MassRange, i: int) -> MassRange {
    if i == 0 {
        spec_crit_mass_range(max_size_range)
    } else if i == 1 {
        spec_shrink_mass_range(max_size_range)
    } else {
        spec_full_mass_range(max_size_range)
    }
}

/// The remaining masses of `state` at which the hole would show the state at
/// position `i` (empty when that state is ruled out).
pub open spec fn spec_partition_mass_range(
    state: RollState,
    assume_state: Option<HoleState>,
    i: int,
) -> MassRange {
    if spec_should_ignore(state.highest_hole_state, assume_state, i) {
        MassRange { least: 1, most: 0 }
    } else {
        spec_overlap(spec_state_range(state.max_size_range, i), state.remaining_mass)
    }
}

/// The maximum range narrowed by the hole showing the state at position `i`
/// at a remaining mass in `possible_mass`.
pub open spec fn spec_new_max_range(possible_mass: MassRange, max_mass_range: MassRange, i: int) -> MassRange {
    if i == 0 {
        spec_update_max_range_from_crit(possible_mass, max_mass_range)
    } else if i == 1 {
        spec_update_max_range_from_shrink(possible_mass, max_mass_range)
    } else {
        spec_narrowed_max_range_from_full(possible_mass, max_mass_range)
    }
}

/// No overflow happens in narrowing the maximum range for the state at position `i`.
pub open spec fn spec_update_fits(possible_mass: MassRange, i: int) -> bool {
    if i == 0 {
        crit_update_fits(possible_mass)
    } else if i == 1 {
        shrink_update_fits(possible_mass)
    } else {
        fits_mass(possible_mass.most * 2)
    }
}

/// The number of (remaining mass, maximum mass) pairs in which the hole shows
/// the state at position `i` (0 when the state is ruled out or its range is empty).
pub open spec fn spec_partition_count(
    state: RollState,
    assume_state: Option<HoleState>,
    i: int,
) -> int {
    let m = spec_partition_mass_range(state, assume_state, i);
    if m.most < m.least {
        0
    } else {
        spec_possible_states(m, spec_new_max_range(m, state.max_size_range, i))
    }
}

/// No overflow happens in the arithmetic of the state at position `i`.
pub open spec fn partition_state_fits(state: RollState, assume_state: Option<HoleState>, i: int) -> bool {
    let m = spec_partition_mass_range(state, assume_state, i);
    &&& spec_update_fits(m, i)
    &&& !(m.most < m.least) ==> size_fits(m) && size_fits(
        spec_new_max_range(m, state.max_size_range, i),
    )
}

/// No overflow happens anywhere in splitting `state` by hole state.
pub open spec fn partition_fits(state: RollState, assume_state: Option<HoleState>) -> bool {
    &&& size_fits(spec_overlap(spec_closed_range(), state.remaining_mass))
    &&& size_fits(state.max_size_range)
    &&& partition_state_fits(state, assume_state, 0)
    &&& partition_state_fits(state, assume_state, 1)
    &&& partition_state_fits(state, assume_state, 2)
}

/// A roll situation split by the state the hole shows after the next pass.
/// Arrays are indexed crit, shrink, full.
pub struct StatePartition {
    /// Remaining masses at which the hole is closed.
    pub mass_range_for_closed: MassRange,
    /// Remaining masses at which the hole shows each state (empty when ruled out).
    pub mass_ranges: [MassRange; 3],
    /// The maximum range narrowed by seeing each state.
    pub new_max_ranges: [MassRange; 3],
    /// Number of (remaining mass, maximum mass) pairs in which the hole is closed.
    pub possible_closed_states: u128,
    /// Number of pairs in which the hole shows each state.
    pub possible_states: [u128; 3],
    /// Number of pairs in all.
    pub all_possible_states: u128,
}

impl StatePartition {
    /// The split of `state` that `partition_state` computes.
    pub open spec fn matches(self, state: RollState, assume_state: Option<HoleState>) -> bool {
        &&& self.mass_range_for_closed == spec_overlap(spec_closed_range(), state.remaining_mass)
        &&& self.possible_closed_states == spec_possible_states(
            self.mass_range_for_closed,
            state.max_size_range,
        )
        &&& forall|i: int|
            0 <= i < 3 ==> {
                &&& #[trigger] self.mass_ranges[i] == spec_partition_mass_range(
                    state,
                    assume_state,
                    i,
                )
                &&& self.new_max_ranges[i] == spec_new_max_range(
                    self.mass_ranges[i],
                    state.max_size_range,
                    i,
                )
                &&& self.possible_states[i] == spec_partition_count(state, assume_state, i)
            }
        &&& self.all_possible_states == self.possible_closed_states + self.possible_states[0]
            + self.possible_states[1] + self.possible_states[2]
    }
}

/// The range of the state at position `i` of `state`, as the planner computes it.
fn state_mass_range(state: &RollState, ignore: bool, i: usize) -> (r: MassRange)
    requires
        i < 3,
    ensures
        ignore ==> r == (MassRange { least: 1, most: 0 }),
        !ignore ==> r == spec_overlap(spec_state_range(state.max_size_range, i as int), state.remaining_mass),
{
    if ignore {
        empty_mr()
    } else if i == 0 {
        overlap(&crit_range(&state.max_size_range), &state.remaining_mass)
    } else if i == 1 {
        overlap(&shrink_range(&state.max_size_range), &state.remaining_mass)
    } else {
        overlap(&full_range(&state.max_size_range), &state.remaining_mass)
    }
}

/// The number of pairs in which the hole shows the state with the given ranges.
fn state_count(mass_range: MassRange, new_max_range: MassRange) -> (r: u128)
    requires
        !(mass_range.most < mass_range.least) ==> size_fits(mass_range) && size_fits(new_max_range),
    ensures
        r == (if mass_range.most < mass_range.least {
            0
        } else {
            spec_possible_states(mass_range, new_max_range)
        }),
        r <= 0x4000_0000_0000_0000_0000_0000_0000_0000u128,
{
    if !mass_range.is_empty() {
        let r = calc_possible_states(mass_range, new_max_range);
        assert(r <= 0x4000_0000_0000_0000_0000_0000_0000_0000u128) by (nonlinear_arith)
            requires
                r == range_size(mass_range) * range_size(new_max_range),
                0 <= range_size(mass_range) <= i64::MAX,
                0 <= range_size(new_max_range) <= i64::MAX,
        ;
        r
    } else {
        0
    }
}

/// Whether the size of `r` can be computed without overflow.
fn size_is_computable(r: &MassRange) -> (b: bool)
    ensures
        b == size_fits(*r),
{
    let d = r.most as i128 - r.least as i128;
    d >= i64::MIN as i128 && d + 1 <= i64::MAX as i128 && d + 1 >= i64::MIN as i128
}

/// Whether the arithmetic for the state at position `i` stays within `Mass`.
fn state_is_computable(state: &RollState, m: &MassRange, i: usize) -> (b: bool)
    requires
        i < 3,
    ensures
        b == (spec_update_fits(*m, i as int) && (!(m.most < m.least) ==> size_fits(*m)
            && size_fits(spec_new_max_range(*m, state.max_size_range, i as int)))),
{
    let min = i64::MIN as i128;
    let max = i64::MAX as i128;
    let update_fits = if i == 0 {
        let a = m.least as i128 + 1;
        min <= a && a <= max && min <= a * 10 && a * 10 <= max
    } else if i == 1 {
        let a = m.least as i128 * 10;
        let b = m.most as i128 + 1;
        min <= a && a <= max && min <= b && b <= max && min <= b * 2 && b * 2 <= max
    } else {
        let a = m.most as i128 * 2;
        min <= a && a <= max
    };
    if !update_fits {
        return false;
    }
    if m.is_empty() {
        return true;
    }
    let new_max = if i == 0 {
        update_max_range_from_crit(m, &state.max_size_range)
    } else if i == 1 {
        update_max_range_from_shrink(m, &state.max_size_range)
    } else {
        update_max_range_from_full(m, &state.max_size_range)
    };
    size_is_computable(m) && size_is_computable(&new_max)
}

/// Whether `partition_state` can split `state` without any overflow
/// (where the planner's arithmetic would overflow, it cannot).
pub fn partition_is_computable(state: &RollState, assume_state: Option<HoleState>) -> (r: bool)
    ensures
        r == partition_fits(*state, assume_state),
{
    let closed = overlap(&closed_range(), &state.remaining_mass);
    let ignore = [
        ruled_out(state.highest_hole_state, assume_state, 0),
        ruled_out(state.highest_hole_state, assume_state, 1),
        ruled_out(state.highest_hole_state, assume_state, 2),
    ];
    let m0 = state_mass_range(state, ignore[0], 0);
    let m1 = state_mass_range(state, ignore[1], 1);
    let m2 = state_mass_range(state, ignore[2], 2);
    size_is_computable(&closed) && size_is_computable(&state.max_size_range) && state_is_computable(
        state,
        &m0,
        0,
    ) && state_is_computable(state, &m1, 1) && state_is_computable(state, &m2, 2)
}

/// Whether the state at position `i` is ruled out.
fn ruled_out(highest_hole_state: HoleState, assume_state: Option<HoleState>, i: usize) -> (r: bool)
    requires
        i < 3,
    ensures
        r == spec_should_ignore(highest_hole_state, assume_state, i as int),
{
    let by_highest = match highest_hole_state {
        HoleState::Crit => i == 1 || i == 2,
        HoleState::Shrink => i == 2,
        HoleState::Full => false,
    };
    let by_assumed = match assume_state {
        Some(HoleState::Crit) => i != 0,
        Some(HoleState::Shrink) => i != 1,
        Some(HoleState::Full) => i != 2,
        None => false,
    };
    by_highest || by_assumed
}

/// Splits `state` by the state the hole shows after the next pass: for each
/// state, the remaining masses at which the hole shows it, the narrowed
/// maximum range, and the number of (remaining mass, maximum mass) pairs.
pub fn partition_state(state: &RollState, assume_state: Option<HoleState>) -> (r: StatePartition)
    requires
        partition_fits(*state, assume_state),
    ensures
        r.matches(*state, assume_state),
{
    let mass_range_for_closed = overlap(&closed_range(), &state.remaining_mass);

    let mut ignore_crit = false;
    let mut ignore_shrink = false;
    let mut ignore_full = false;
    match state.highest_hole_state {
        HoleState::Crit => {
            ignore_shrink = true;
            ignore_full = true;
        },
        HoleState::Shrink => ignore_full = true,
        HoleState::Full => (),
    }
    // If we are assuming a specific state (likely because the user knows the
    // hole state) make all other possibilities not possible.
    if let Some(starting_state) = assume_state {
        match starting_state {
            HoleState::Crit => {
                ignore_shrink = true;
                ignore_full = true;
            },
            HoleState::Shrink => {
                ignore_crit = true;
                ignore_full = true;
            },
            HoleState::Full => {
                ignore_crit = true;
                ignore_shrink = true;
            },
        }
    }

    let crit_mass = state_mass_range(state, ignore_crit, 0);
    let shrink_mass = state_mass_range(state, ignore_shrink, 1);
    let full_mass = state_mass_range(state, ignore_full, 2);
    assert(crit_mass == spec_partition_mass_range(*state, assume_state, 0));
    assert(shrink_mass == spec_partition_mass_range(*state, assume_state, 1));
    assert(full_mass == spec_partition_mass_range(*state, assume_state, 2));

    let possible_closed_states = calc_possible_states(mass_range_for_closed, state.max_size_range);

    // Assuming it became that state, calculate the new max mass ranges for
    // each hole based on the possible mass range.
    let crit_max = update_max_range_from_crit(&crit_mass, &state.max_size_range);
    let shrink_max = update_max_range_from_shrink(&shrink_mass, &state.max_size_range);
    let full_max = update_max_range_from_full(&full_mass, &state.max_size_range);

    // Get the possible number of states that could result in each hole state.
    let crit_count = state_count(crit_mass, crit_max);
    let shrink_count = state_count(shrink_mass, shrink_max);
    let full_count = state_count(full_mass, full_max);
    assert(possible_closed_states <= 0x4000_0000_0000_0000_0000_0000_0000_0000u128) by (nonlinear_arith)
        requires
            possible_closed_states == range_size(mass_range_for_closed) * range_size(
                state.max_size_range,
            ),
            0 <= range_size(mass_range_for_closed) <= i64::MAX,
            0 <= range_size(state.max_size_range) <= i64::MAX,
    ;

    let all_possible_states = possible_closed_states + crit_count + shrink_count + full_count;

    let r = StatePartition {
        mass_range_for_closed,
        mass_ranges: [crit_mass, shrink_mass, full_mass],
        new_max_ranges: [crit_max, shrink_max, full_max],
        possible_closed_states,
        possible_states: [crit_count, shrink_count, full_count],
        all_possible_states,
    };
    assert(r.matches(*state, assume_state)) by {
        assert forall|i: int| 0 <= i < 3 implies {
            &&& #[trigger] r.mass_ranges[i] == spec_partition_mass_range(
                *state,
                assume_state,
                i,
            )
            &&& r.new_max_ranges[i] == spec_new_max_range(
                r.mass_ranges[i],
                state.max_size_range,
                i,
            )
            &&& r.possible_states[i] == spec_partition_count(*state, assume_state, i)
        } by {
            if i == 0 {
            } else if i == 1 {
            } else {
            }
        }
    }
    r
}

/// In the split of a situation, every state's masses lie within the
/// remaining masses and within the masses at which the hole shows that state,
/// and every narrowed maximum range lies within the situation's maximum range.
pub proof fn lemma_partition_within_state(
    state: RollState,
    assume_state: Option<HoleState>,
    i: int,
    m: int,
)
    requires
        0 <= i < 3,
        partition_state_fits(state, assume_state, i),
    ensures
        range_contains(spec_partition_mass_range(state, assume_state, i), m) ==> range_contains(
            state.remaining_mass,
            m,
        ) && range_contains(spec_state_range(state.max_size_range, i), m),
        range_contains(
            spec_new_max_range(
                spec_partition_mass_range(state, assume_state, i),
                state.max_size_range,
                i,
            ),
            m,
        ) ==> range_contains(state.max_size_range, m),
        spec_should_ignore(state.highest_hole_state, assume_state, i) ==> spec_partition_count(
            state,
            assume_state,
            i,
        ) == 0,
{
    let pm = spec_partition_mass_range(state, assume_state, i);
    crate::roll_calc::lemma_update_max_range_narrows(pm, state.max_size_range);
    let nm = spec_new_max_range(pm, state.max_size_range, i);
    assert(state.max_size_range.least <= nm.least && nm.most <= state.max_size_range.most) by {
        if i == 0 {
        } else if i == 1 {
        } else {
            assert(nm == spec_narrowed_max_range_from_full(pm, state.max_size_range));
        }
    }
}

/// A hole never grows back: in the split of a situation, a state that has
/// any possible masses is the highest state seen so far or a less massive one
/// (crit before shrink before full), and with an assumed state it is that one.
/// The plan for that state continues with it as the highest state seen.
pub proof fn lemma_hole_never_grows_back(state: RollState, assume_state: Option<HoleState>, i: int)
    requires
        0 <= i < 3,
    ensures
        spec_partition_count(state, assume_state, i) != 0 ==> i <= state_index(
            state.highest_hole_state,
        ),
        spec_partition_count(state, assume_state, i) != 0 ==> (assume_state matches Some(s) ==> i
            == state_index(s)),
{
}

/// The converse: a state no more massive than the highest seen so far (crit
/// after anything, shrink after shrink or full, full only after full), and
/// the assumed state when one is assumed, keeps every remaining mass at which
/// the hole shows it: its masses are the overlap of the remaining masses with
/// the masses of that state.
pub proof fn lemma_reachable_states_keep_their_masses(
    state: RollState,
    assume_state: Option<HoleState>,
    i: int,
)
    requires
        0 <= i < 3,
        i <= state_index(state.highest_hole_state),
        assume_state matches Some(s) ==> i == state_index(s),
    ensures
        spec_partition_mass_range(state, assume_state, i) == spec_overlap(
            spec_state_range(state.max_size_range, i),
            state.remaining_mass,
        ),
{
}

/// Each pass back in takes one ship of its type off the far side; each pass
/// out adds one (unless that type's count was already at its 255 limit) and
/// counts one more use of that type.
pub proof fn lemma_steps_move_one_ship(
    available_rollers: Seq<AvailabileShips>,
    rollers_out: RollersUsed,
    used_rollers: RollersUsed,
    n: int,
)
    requires
        0 <= n <= available_rollers.len() <= 8,
    ensures
        forall|k: int|
            0 <= k < spec_in_passes(available_rollers, rollers_out, used_rollers, n).len() ==> {
                let p = #[trigger] spec_in_passes(available_rollers, rollers_out, used_rollers, n)[k];
                &&& p.direction == Direction::In
                &&& p.new_out_rollers.total() == rollers_out.total() - 1
                &&& p.new_used_ships == used_rollers
            },
        forall|k: int|
            0 <= k < spec_out_passes(available_rollers, rollers_out, used_rollers, n).len() ==> {
                let p = #[trigger] spec_out_passes(available_rollers, rollers_out, used_rollers, n)[k];
                &&& p.direction == Direction::Out
                &&& (exists|t: int|
                    0 <= t < n && p.new_out_rollers == rollers_out.added(t) && p.new_used_ships
                        == used_rollers.added(t) && p.ship == available_rollers[t].ship
                        && p.new_used_ships.count(t) <= available_rollers[t].max_used)
            },
    decreases n,
{
    if n > 0 {
        let i = n - 1;
        lemma_steps_move_one_ship(available_rollers, rollers_out, used_rollers, i);
        let prev_in = spec_in_passes(available_rollers, rollers_out, used_rollers, i);
        let all_in = spec_in_passes(available_rollers, rollers_out, used_rollers, n);
        if rollers_out.count(i) != 0 {
            RollersUsed::lemma_sub_counts(rollers_out, i);
        }
        assert forall|k: int| 0 <= k < all_in.len() implies {
            let p = #[trigger] all_in[k];
            &&& p.direction == Direction::In
            &&& p.new_out_rollers.total() == rollers_out.total() - 1
            &&& p.new_used_ships == used_rollers
        } by {
            if k < prev_in.len() {
                assert(all_in[k] == prev_in[k]);
            }
        }
        let prev_out = spec_out_passes(available_rollers, rollers_out, used_rollers, i);
        let all_out = spec_out_passes(available_rollers, rollers_out, used_rollers, n);
        assert forall|k: int| 0 <= k < all_out.len() implies {
            let p = #[trigger] all_out[k];
            &&& p.direction == Direction::Out
            &&& (exists|t: int|
                0 <= t < n && p.new_out_rollers == rollers_out.added(t) && p.new_used_ships
                    == used_rollers.added(t) && p.ship == available_rollers[t].ship
                    && p.new_used_ships.count(t) <= available_rollers[t].max_used)
        } by {
            if k < prev_out.len() {
                assert(all_out[k] == prev_out[k]);
                let p = prev_out[k];
                let t = choose|t: int|
                    0 <= t < i && p.new_out_rollers == rollers_out.added(t) && p.new_used_ships
                        == used_rollers.added(t) && p.ship == available_rollers[t].ship
                        && p.new_used_ships.count(t) <= available_rollers[t].max_used;
                assert(0 <= t < n);
            } else {
                assert(all_out[k].new_out_rollers == rollers_out.added(i));
            }
        }
    }
}


/// The mass a pass puts through: its ship's cold mass for a cold pass, its hot
/// mass for a hot one.
pub open spec fn pass_mass_matches(p: PotentialPass) -> bool {
    p.mass == match p.ship_state {
        ShipState::Cold => p.ship.cold,
        ShipState::Hot => p.ship.hot,
    }
}

proof fn lemma_in_passes_bring_their_ship(
    available_rollers: Seq<AvailabileShips>,
    rollers_out: RollersUsed,
    used_rollers: RollersUsed,
    n: int,
)
    requires
        0 <= n <= available_rollers.len() <= 8,
    ensures
        forall|k: int|
            0 <= k < spec_in_passes(available_rollers, rollers_out, used_rollers, n).len() ==> {
                let p = #[trigger] spec_in_passes(available_rollers, rollers_out, used_rollers, n)[k];
                &&& pass_mass_matches(p)
                &&& exists|t: int|
                    0 <= t < n && rollers_out.count(t) > 0 && p.new_out_rollers == rollers_out.subbed(t)
                        && p.ship == available_rollers[t].ship
            },
    decreases n,
{
    if n > 0 {
        let i = n - 1;
        lemma_in_passes_bring_their_ship(available_rollers, rollers_out, used_rollers, i);
        let prev = spec_in_passes(available_rollers, rollers_out, used_rollers, i);
        let all = spec_in_passes(available_rollers, rollers_out, used_rollers, n);
        assert forall|k: int| 0 <= k < all.len() implies {
            let p = #[trigger] all[k];
            &&& pass_mass_matches(p)
            &&& exists|t: int|
                0 <= t < n && rollers_out.count(t) > 0 && p.new_out_rollers == rollers_out.subbed(t)
                    && p.ship == available_rollers[t].ship
        } by {
            if k < prev.len() {
                assert(all[k] == prev[k]);
                let p = prev[k];
                let t = choose|t: int|
                    0 <= t < i && rollers_out.count(t) > 0 && p.new_out_rollers == rollers_out.subbed(t)
                        && p.ship == available_rollers[t].ship;
                assert(0 <= t < n);
            } else {
                assert(all[k].new_out_rollers == rollers_out.subbed(i));
                assert(all[k].ship == available_rollers[i].ship);
            }
        }
    }
}

proof fn lemma_out_passes_mass(
    available_rollers: Seq<AvailabileShips>,
    rollers_out: RollersUsed,
    used_rollers: RollersUsed,
    n: int,
)
    requires
        0 <= n <= available_rollers.len() <= 8,
    ensures
        forall|k: int|
            0 <= k < spec_out_passes(available_rollers, rollers_out, used_rollers, n).len()
                ==> pass_mass_matches(#[trigger] spec_out_passes(available_rollers, rollers_out, used_rollers, n)[k]),
    decreases n,
{
    if n > 0 {
        let i = n - 1;
        lemma_out_passes_mass(available_rollers, rollers_out, used_rollers, i);
        let prev = spec_out_passes(available_rollers, rollers_out, used_rollers, i);
        let all = spec_out_passes(available_rollers, rollers_out, used_rollers, n);
        assert forall|k: int| 0 <= k < all.len() implies pass_mass_matches(#[trigger] all[k]) by {
            if k < prev.len() {
                assert(all[k] == prev[k]);
            }
        }
    }
}

/// Every pass the fleet can make puts through its ship's cold or hot mass, as
/// the pass is cold or hot. A pass back in brings back a ship of a type with
/// a ship out: its counts are the counts with one fewer of that type, and its
/// ship is that type's ship; whatever type's count the pass lowers, the ship
/// is of that type. A pass out sends a ship of the type whose count it raises.
pub proof fn lemma_steps_carry_their_ship(
    available_rollers: Seq<AvailabileShips>,
    rollers_out: RollersUsed,
    used_rollers: RollersUsed,
)
    requires
        available_rollers.len() <= 8,
    ensures
        forall|k: int|
            0 <= k < spec_steps(available_rollers, rollers_out, used_rollers).len() ==> {
                let p = #[trigger] spec_steps(available_rollers, rollers_out, used_rollers)[k];
                &&& pass_mass_matches(p)
                &&& p.direction == Direction::In ==> exists|t: int|
                    0 <= t < available_rollers.len() && rollers_out.count(t) > 0 && p.new_out_rollers
                        == rollers_out.subbed(t) && p.ship == available_rollers[t].ship
                &&& p.direction == Direction::In ==> forall|t: int|
                    0 <= t < available_rollers.len() && rollers_out.count(t) > 0 && p.new_out_rollers
                        == #[trigger] rollers_out.subbed(t) ==> p.ship == available_rollers[t].ship
                &&& p.direction == Direction::Out ==> exists|t: int|
                    0 <= t < available_rollers.len() && p.new_out_rollers == rollers_out.added(t)
                        && p.ship == available_rollers[t].ship
            },
{
    let n = available_rollers.len() as int;
    let ins = spec_in_passes(available_rollers, rollers_out, used_rollers, n);
    let outs = spec_out_passes(available_rollers, rollers_out, used_rollers, n);
    let all = spec_steps(available_rollers, rollers_out, used_rollers);
    lemma_in_passes_bring_their_ship(available_rollers, rollers_out, used_rollers, n);
    lemma_out_passes_mass(available_rollers, rollers_out, used_rollers, n);
    lemma_steps_move_one_ship(available_rollers, rollers_out, used_rollers, n);
    assert forall|k: int| 0 <= k < all.len() implies {
        let p = #[trigger] all[k];
        &&& pass_mass_matches(p)
        &&& p.direction == Direction::In ==> exists|t: int|
            0 <= t < n && rollers_out.count(t) > 0 && p.new_out_rollers == rollers_out.subbed(t)
                && p.ship == available_rollers[t].ship
        &&& p.direction == Direction::In ==> forall|t: int|
            0 <= t < n && rollers_out.count(t) > 0 && p.new_out_rollers == #[trigger] rollers_out.subbed(t)
                ==> p.ship == available_rollers[t].ship
        &&& p.direction == Direction::Out ==> exists|t: int|
            0 <= t < n && p.new_out_rollers == rollers_out.added(t) && p.ship == available_rollers[t].ship
    } by {
        if k < ins.len() {
            assert(all[k] == ins[k]);
            let p = ins[k];
            let t0 = choose|t: int|
                0 <= t < n && rollers_out.count(t) > 0 && p.new_out_rollers == rollers_out.subbed(t)
                    && p.ship == available_rollers[t].ship;
            assert forall|t: int|
                0 <= t < n && rollers_out.count(t) > 0 && p.new_out_rollers == #[trigger] rollers_out.subbed(t)
                implies p.ship == available_rollers[t].ship by {
                if t != t0 {
                    RollersUsed::lemma_sub_counts(rollers_out, t0);
                    RollersUsed::lemma_sub_counts(rollers_out, t);
                    assert(rollers_out.subbed(t0).count(t) == rollers_out.count(t));
                    assert(rollers_out.subbed(t).count(t) == rollers_out.count(t) - 1);
                }
            }
        } else {
            assert(all[k] == outs[k - ins.len()]);
            let p = outs[k - ins.len()];
            assert(p.direction == Direction::Out);
        }
    }
}

/// Among the first `n` ship types, the largest-ship choice is a type with a
/// ship out whose cold mass is the largest of those out, and there is none
/// exactly when no ship of these types is out.
proof fn lemma_largest_out_ship_is_out(available_rollers: Seq<AvailabileShips>, rollers_out: RollersUsed, n: int)
    requires
        0 <= n <= available_rollers.len(),
    ensures
        spec_largest_out_ship(available_rollers, rollers_out, n) is None <==> forall|k: int|
            0 <= k < n ==> #[trigger] rollers_out.count(k) == 0,
        spec_largest_out_ship(available_rollers, rollers_out, n) matches Some(s) ==> exists|k: int|
            0 <= k < n && rollers_out.count(k) > 0 && s == #[trigger] available_rollers[k].ship,
        spec_largest_out_ship(available_rollers, rollers_out, n) matches Some(s) ==> forall|k: int|
            0 <= k < n && #[trigger] rollers_out.count(k) > 0 ==> available_rollers[k].ship.cold <= s.cold,
    decreases n,
{
    if n > 0 {
        lemma_largest_out_ship_is_out(available_rollers, rollers_out, n - 1);
        let prev = spec_largest_out_ship(available_rollers, rollers_out, n - 1);
        if rollers_out.count(n - 1) != 0 {
            assert(!(forall|k: int| 0 <= k < n ==> #[trigger] rollers_out.count(k) == 0));
        }
        if let Some(p) = prev {
            let k = choose|k: int|
                0 <= k < n - 1 && rollers_out.count(k) > 0 && p == #[trigger] available_rollers[k].ship;
            assert(0 <= k < n && rollers_out.count(k) > 0 && p == available_rollers[k].ship);
        } else {
            assert forall|k: int| 0 <= k < n - 1 implies #[trigger] rollers_out.count(k) == 0 by {}
        }
    }
}

/// The mass the ships out must put through before the last of them can pass:
/// the cold masses of all ships out, less the cold mass of one ship of a type
/// that has a ship out and the largest cold mass among those (nothing less
/// when no ship is out). With `c` ships of one type out, it is `c - 1` times
/// that type's cold mass.
pub proof fn lemma_min_mass_needed_leaves_out_heaviest_out(
    available_rollers: Seq<AvailabileShips>,
    rollers_out: RollersUsed,
)
    ensures
        (forall|k: int| 0 <= k < available_rollers.len() ==> #[trigger] rollers_out.count(k) == 0)
            ==> spec_min_mass_needed(available_rollers, rollers_out) == spec_out_mass_sum(
            available_rollers,
            rollers_out,
            available_rollers.len() as int,
            true,
        ),
        !(forall|k: int| 0 <= k < available_rollers.len() ==> #[trigger] rollers_out.count(k) == 0)
            ==> exists|k: int|
            0 <= k < available_rollers.len() && rollers_out.count(k) > 0 && spec_min_mass_needed(
                available_rollers,
                rollers_out,
            ) == spec_out_mass_sum(available_rollers, rollers_out, available_rollers.len() as int, true)
                - (#[trigger] available_rollers[k]).ship.cold && (forall|j: int|
                0 <= j < available_rollers.len() && #[trigger] rollers_out.count(j) > 0
                    ==> available_rollers[j].ship.cold <= available_rollers[k].ship.cold),
{
    let n = available_rollers.len() as int;
    lemma_largest_out_ship_is_out(available_rollers, rollers_out, n);
    if let Some(s) = spec_largest_out_ship(available_rollers, rollers_out, n) {
        let k = choose|k: int| 0 <= k < n && rollers_out.count(k) > 0 && s == #[trigger] available_rollers[k].ship;
        assert(available_rollers[k].ship == s);
    }
}

/// What the rollout estimate counts: with ships out and the mass they must
/// put through (`spec_min_mass_needed`) within the remaining masses, of all
/// the remaining masses (`all_masses`, the size of the range) those at most
/// that mass (`num_rollout_masses`) leave a ship out. It is certain when that
/// mass reaches the most remaining mass, and zero when no ship is out or the
/// mass stays below every remaining mass.
pub proof fn lemma_rollout_chance_counts(available_rollers: Seq<AvailabileShips>, path_state: RollState)
    requires
        path_state.remaining_mass.least <= path_state.remaining_mass.most,
        size_fits(path_state.remaining_mass),
    ensures
        ({
            let needed = spec_min_mass_needed(available_rollers, path_state.rollers_out);
            let rem = path_state.remaining_mass;
            match spec_rollout_chance(available_rollers, path_state) {
                RolloutChance::Zero => path_state.rollers_out.total() == 0 || needed < rem.least,
                RolloutChance::Certain => path_state.rollers_out.total() != 0 && needed >= rem.most,
                RolloutChance::Partial { num_rollout_masses, all_masses } => {
                    &&& path_state.rollers_out.total() != 0
                    &&& rem.least <= needed < rem.most
                    &&& all_masses == range_size(rem)
                    &&& num_rollout_masses == range_size(MassRange { least: rem.least, most: needed as i64 })
                    &&& 0 < num_rollout_masses < all_masses
                },
            }
        }),
{
}

} // verus!
