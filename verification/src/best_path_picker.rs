//! Choosing the best next pass for each hole state, by a user's order of
//! priorities over the qualities of the plans that the passes lead to.

use vstd::prelude::*;

use crate::hole_info::Mass;
use crate::roll_calc::roll_calc::{state_index, HoleState, Ship, ShipState};

verus! {

/// A quality of a roll plan that a user can give priority to.
#[derive(Debug, Clone, Copy, PartialEq, Eq, Structural, PartialOrd, Ord)]
pub enum Quality {
    /// The most ships out on the far side at any time.
    MaxOut,
    /// The chance that a ship ends up on the far side of a closed hole.
    ROProbability,
    /// The expected number of passes.
    AvgNumPasses,
}

/// No quality occurs twice.
pub open spec fn all_distinct(qualities: Seq<Quality>) -> bool {
    forall|i: int, j: int| 0 <= i < j < qualities.len() ==> qualities[i] != qualities[j]
}

/// An order of priority over the three qualities, each named once.
pub struct Priorities {
    qualities: [Quality; 3],
}

impl View for Priorities {
    type V = Seq<Quality>;

    /// The qualities, highest priority first.
    closed spec fn view(&self) -> Seq<Quality> {
        self.qualities@
    }
}

impl Priorities {
    #[verifier::type_invariant]
    spec fn distinct_qualities(self) -> bool {
        all_distinct(self.qualities@)
    }

    /// The order of priority `qualities`, highest first, unless a quality
    /// occurs twice in it.
    pub fn new(qualities: [Quality; 3]) -> (r: Option<Self>)
        ensures
            r is Some <==> all_distinct(qualities@),
            r matches Some(p) ==> p@ == qualities@,
    {
        let mut i: usize = 0;
        while i < 3
            invariant
                i <= 3,
                forall|a: int, b: int| 0 <= a < i && a < b < 3 ==> qualities@[a] != qualities@[b],
            decreases 3 - i,
        {
            let mut j: usize = i + 1;
            while j < 3
                invariant
                    i < 3,
                    i + 1 <= j <= 3,
                    forall|a: int, b: int| 0 <= a < i && a < b < 3 ==> qualities@[a] != qualities@[b],
                    forall|b: int| i < b < j ==> qualities@[i as int] != qualities@[b],
                decreases 3 - j,
            {
                if qualities[i] == qualities[j] {
                    return None;
                }
                j = j + 1;
            }
            i = i + 1;
        }
        Some(Self { qualities })
    }

    /// The qualities, highest priority first.
    pub fn qualities(&self) -> (r: [Quality; 3])
        ensures
            r@ == self@,
            all_distinct(r@),
    {
        proof {
            use_type_invariant(self);
        }
        self.qualities
    }
}

/// The qualities of a plan as the picker compares them. The two chances are
/// given as order keys: of two plans, the one with the lower key has the lower
/// value.
#[derive(Debug, Clone, Copy, PartialEq, Eq, Structural)]
pub struct QualityKeys {
    pub max_num_out: u16,
    pub roll_out_probability: u64,
    pub average_num_passes: u64,
}

/// A candidate next pass: the caller's identifier for it, the qualities of the
/// plan that it leads to, and the ship that makes it.
#[derive(Debug, Clone, Copy, PartialEq, Eq, Structural)]
pub struct PathStep {
    pub id: usize,
    pub qualities: QualityKeys,
    pub ship: Ship,
    pub ship_state: ShipState,
}

/// The mass that a step puts through the hole.
pub open spec fn spec_step_mass(step: PathStep) -> Mass {
    match step.ship_state {
        ShipState::Cold => step.ship.cold,
        ShipState::Hot => step.ship.hot,
    }
}

/// The mass that a step puts through the hole: the ship's cold or hot mass.
pub fn step_mass(step: &PathStep) -> (r: Mass)
    ensures
        r == spec_step_mass(*step),
{
    match step.ship_state {
        ShipState::Cold => step.ship.cold,
        ShipState::Hot => step.ship.hot,
    }
}

/// The outcome of comparing a new step with the best known ones, from the
/// side of the new step.
pub enum Outcome {
    /// Equally good: it joins them.
    Equal,
    /// Better than all of them: it replaces them.
    StrictlyBetter,
    /// Worse: it is dropped.
    StrictlyWorse,
    /// Better only for some floors on the number of ships out: the best steps
    /// become `kept` with the new step inserted at `at`.
    Complex(Seq<PathStep>, int),
}

/// Comparison of two order keys where lower is better, from the side of `new`.
pub open spec fn key_compare(existing: u64, new: u64) -> Outcome {
    if existing < new {
        Outcome::StrictlyWorse
    } else if existing > new {
        Outcome::StrictlyBetter
    } else {
        Outcome::Equal
    }
}

/// Comparison by one quality other than the number of ships out.
pub open spec fn quality_compare(existing: QualityKeys, new: QualityKeys, quality: Quality) -> Outcome {
    match quality {
        Quality::ROProbability => key_compare(existing.roll_out_probability, new.roll_out_probability),
        Quality::AvgNumPasses => key_compare(existing.average_num_passes, new.average_num_passes),
        Quality::MaxOut => Outcome::Equal,
    }
}

/// Comparison in order of priority by the qualities other than the number of ships out.
pub open spec fn compare_without_max_out(
    existing: QualityKeys,
    new: QualityKeys,
    priorities: Seq<Quality>,
) -> Outcome
    decreases priorities.len(),
{
    if priorities.len() == 0 {
        Outcome::Equal
    } else {
        let c = quality_compare(existing, new, priorities[0]);
        if c is Equal {
            compare_without_max_out(existing, new, priorities.drop_first())
        } else {
            c
        }
    }
}

/// A known step `path` beats the new step for every floor: it is no worse by
/// the lower priorities and has no more ships out, and is better in one of the two.
pub open spec fn dominates(path: PathStep, new: QualityKeys, rest: Seq<Quality>) -> bool {
    let sub = compare_without_max_out(path.qualities, new, rest);
    ||| sub is StrictlyWorse && path.qualities.max_num_out <= new.max_num_out
    ||| sub is Equal && path.qualities.max_num_out < new.max_num_out
}

/// The new step beats a known step `path` for every floor.
pub open spec fn outdone(path: PathStep, new: QualityKeys, rest: Seq<Quality>) -> bool {
    let sub = compare_without_max_out(path.qualities, new, rest);
    ||| sub is StrictlyBetter && path.qualities.max_num_out >= new.max_num_out
    ||| sub is Equal && path.qualities.max_num_out > new.max_num_out
}

/// The first `n` known steps without those the new step beats for every floor.
pub open spec fn kept_paths(paths: Seq<PathStep>, new: QualityKeys, rest: Seq<Quality>, n: int) -> Seq<PathStep>
    decreases n,
{
    if n <= 0 {
        Seq::empty()
    } else if outdone(paths[n - 1], new, rest) {
        kept_paths(paths, new, rest, n - 1)
    } else {
        kept_paths(paths, new, rest, n - 1).push(paths[n - 1])
    }
}

/// One past the last of the first `n` known steps with fewer ships out than the new step.
pub open spec fn insert_position(paths: Seq<PathStep>, new: QualityKeys, n: int) -> int
    decreases n,
{
    if n <= 0 {
        0
    } else if paths[n - 1].qualities.max_num_out < new.max_num_out {
        n
    } else {
        insert_position(paths, new, n - 1)
    }
}

/// One past the last of the first `n` known steps with at most as many ships
/// out as the new step: where an equally good step joins a list in order.
pub open spec fn append_position(paths: Seq<PathStep>, new: QualityKeys, n: int) -> int
    decreases n,
{
    if n <= 0 {
        0
    } else if paths[n - 1].qualities.max_num_out <= new.max_num_out {
        n
    } else {
        append_position(paths, new, n - 1)
    }
}

/// The comparison when the number of ships out has the priority: worse if a
/// known step beats the new one for every floor, else the known steps it does
/// not beat, with the new one inserted after those with fewer ships out.
pub open spec fn max_out_outcome(paths: Seq<PathStep>, new: QualityKeys, rest: Seq<Quality>) -> Outcome {
    if exists|i: int| 0 <= i < paths.len() && dominates(#[trigger] paths[i], new, rest) {
        Outcome::StrictlyWorse
    } else {
        Outcome::Complex(
            kept_paths(paths, new, rest, paths.len() as int),
            insert_position(paths, new, paths.len() as int),
        )
    }
}

/// Comparison of the new step's qualities with those of the known best steps
/// `paths` (`existing` being one of them), in order of priority. Until every
/// state of interest has a candidate, the number of ships out counts as equal.
pub open spec fn spec_compare(
    existing: QualityKeys,
    new: QualityKeys,
    priorities: Seq<Quality>,
    paths: Seq<PathStep>,
    have_full_info: bool,
) -> Outcome
    decreases priorities.len(),
{
    if priorities.len() == 0 {
        Outcome::Equal
    } else if priorities[0] == Quality::MaxOut {
        if !have_full_info {
            Outcome::Equal
        } else {
            max_out_outcome(paths, new, priorities.drop_first())
        }
    } else {
        let c = quality_compare(existing, new, priorities[0]);
        if c is Equal {
            spec_compare(existing, new, priorities.drop_first(), paths, have_full_info)
        } else {
            c
        }
    }
}

/// Without the number of ships out among the priorities, the comparison is
/// the plain one in order of priority.
proof fn lemma_compare_without_max_out(
    existing: QualityKeys,
    new: QualityKeys,
    priorities: Seq<Quality>,
    paths: Seq<PathStep>,
    have_full_info: bool,
)
    requires
        !priorities.contains(Quality::MaxOut),
    ensures
        spec_compare(existing, new, priorities, paths, have_full_info) == compare_without_max_out(
            existing,
            new,
            priorities,
        ),
        !(compare_without_max_out(existing, new, priorities) is Complex),
    decreases priorities.len(),
{
    if priorities.len() > 0 {
        assert(priorities[0] != Quality::MaxOut) by {
            assert(priorities.contains(priorities[0]));
        }
        assert(!priorities.drop_first().contains(Quality::MaxOut)) by {
            if priorities.drop_first().contains(Quality::MaxOut) {
                let k = choose|k: int|
                    0 <= k < priorities.drop_first().len() && #[trigger] priorities.drop_first()[k]
                        == Quality::MaxOut;
                assert(priorities[k + 1] == Quality::MaxOut);
            }
        }
        lemma_compare_without_max_out(
            existing,
            new,
            priorities.drop_first(),
            paths,
            have_full_info,
        );
    }
}

/// The order key of a quality of a step (lower is better).
pub open spec fn quality_key(keys: QualityKeys, quality: Quality) -> int {
    match quality {
        Quality::ROProbability => keys.roll_out_probability as int,
        Quality::AvgNumPasses => keys.average_num_passes as int,
        Quality::MaxOut => keys.max_num_out as int,
    }
}

/// `first` and `second` have the same keys for the first `k` priorities.
pub open spec fn equal_before(
    first: QualityKeys,
    second: QualityKeys,
    priorities: Seq<Quality>,
    k: int,
) -> bool {
    forall|j: int|
        0 <= j < k ==> #[trigger] quality_key(first, priorities[j]) == quality_key(
            second,
            priorities[j],
        )
}

/// `first` has a lower key than `second` for priority `k`, and the same keys before it.
pub open spec fn lower_at(first: QualityKeys, second: QualityKeys, priorities: Seq<Quality>, k: int) -> bool {
    &&& equal_before(first, second, priorities, k)
    &&& quality_key(first, priorities[k]) < quality_key(second, priorities[k])
}

/// `first` comes before `second` in the lexicographic order of their keys
/// taken in order of priority.
pub open spec fn lexicographically_lower(
    first: QualityKeys,
    second: QualityKeys,
    priorities: Seq<Quality>,
) -> bool {
    exists|k: int| 0 <= k < priorities.len() && #[trigger] lower_at(first, second, priorities, k)
}

/// Dropping a first priority on which two steps agree changes neither their
/// lexicographic order nor their equality.
proof fn lemma_lex_drop_equal_first(first: QualityKeys, second: QualityKeys, priorities: Seq<Quality>)
    requires
        priorities.len() > 0,
        quality_key(first, priorities[0]) == quality_key(second, priorities[0]),
    ensures
        lexicographically_lower(first, second, priorities) <==> lexicographically_lower(
            first,
            second,
            priorities.drop_first(),
        ),
        equal_before(first, second, priorities, priorities.len() as int) <==> equal_before(
            first,
            second,
            priorities.drop_first(),
            priorities.len() - 1,
        ),
{
    let r = priorities.drop_first();
    if lexicographically_lower(first, second, priorities) {
        let k = choose|k: int| 0 <= k < priorities.len() && #[trigger] lower_at(first, second, priorities, k);
        assert(k >= 1);
        assert(r[k - 1] == priorities[k]);
        assert forall|j: int| 0 <= j < k - 1 implies #[trigger] quality_key(first, r[j]) == quality_key(
            second,
            r[j],
        ) by {
            assert(r[j] == priorities[j + 1]);
            assert(quality_key(first, priorities[j + 1]) == quality_key(second, priorities[j + 1]));
        }
        assert(lower_at(first, second, r, k - 1));
    }
    if lexicographically_lower(first, second, r) {
        let k = choose|k: int| 0 <= k < r.len() && #[trigger] lower_at(first, second, r, k);
        assert(r[k] == priorities[k + 1]);
        assert forall|j: int| 0 <= j < k + 1 implies #[trigger] quality_key(first, priorities[j])
            == quality_key(second, priorities[j]) by {
            if j > 0 {
                assert(priorities[j] == r[j - 1]);
                assert(quality_key(first, r[j - 1]) == quality_key(second, r[j - 1]));
            }
        }
        assert(lower_at(first, second, priorities, k + 1));
    }
    if equal_before(first, second, priorities, priorities.len() as int) {
        assert forall|j: int| 0 <= j < r.len() implies #[trigger] quality_key(first, r[j]) == quality_key(
            second,
            r[j],
        ) by {
            assert(r[j] == priorities[j + 1]);
            assert(quality_key(first, priorities[j + 1]) == quality_key(second, priorities[j + 1]));
        }
    }
    if equal_before(first, second, r, r.len() as int) {
        assert forall|j: int| 0 <= j < priorities.len() implies #[trigger] quality_key(
            first,
            priorities[j],
        ) == quality_key(second, priorities[j]) by {
            if j > 0 {
                assert(priorities[j] == r[j - 1]);
                assert(quality_key(first, r[j - 1]) == quality_key(second, r[j - 1]));
            }
        }
    }
}

/// The comparison without the number of ships out is the lexicographic order
/// of the keys in order of priority.
proof fn lemma_compare_without_max_out_lexicographic(
    existing: QualityKeys,
    new: QualityKeys,
    priorities: Seq<Quality>,
)
    requires
        !priorities.contains(Quality::MaxOut),
    ensures
        compare_without_max_out(existing, new, priorities) is StrictlyBetter <==> lexicographically_lower(
            new,
            existing,
            priorities,
        ),
        compare_without_max_out(existing, new, priorities) is StrictlyWorse <==> lexicographically_lower(
            existing,
            new,
            priorities,
        ),
        compare_without_max_out(existing, new, priorities) is Equal <==> equal_before(
            existing,
            new,
            priorities,
            priorities.len() as int,
        ),
    decreases priorities.len(),
{
    if priorities.len() > 0 {
        let q = priorities[0];
        assert(q != Quality::MaxOut) by {
            assert(priorities.contains(q));
        }
        let a = quality_key(existing, q);
        let b = quality_key(new, q);
        if a == b {
            let r = priorities.drop_first();
            assert(!r.contains(Quality::MaxOut)) by {
                if r.contains(Quality::MaxOut) {
                    let k = choose|k: int| 0 <= k < r.len() && #[trigger] r[k] == Quality::MaxOut;
                    assert(priorities[k + 1] == Quality::MaxOut);
                }
            }
            lemma_compare_without_max_out_lexicographic(existing, new, r);
            lemma_lex_drop_equal_first(new, existing, priorities);
            lemma_lex_drop_equal_first(existing, new, priorities);
        } else if a < b {
            assert(lower_at(existing, new, priorities, 0));
            if lexicographically_lower(new, existing, priorities) {
                let k = choose|k: int| 0 <= k < priorities.len() && #[trigger] lower_at(new, existing, priorities, k);
                if k > 0 {
                    assert(quality_key(new, priorities[0]) == quality_key(existing, priorities[0]));
                }
            }
            assert(quality_key(existing, priorities[0]) != quality_key(new, priorities[0]));
        } else {
            assert(lower_at(new, existing, priorities, 0));
            if lexicographically_lower(existing, new, priorities) {
                let k = choose|k: int| 0 <= k < priorities.len() && #[trigger] lower_at(existing, new, priorities, k);
                if k > 0 {
                    assert(quality_key(existing, priorities[0]) == quality_key(new, priorities[0]));
                }
            }
            assert(quality_key(existing, priorities[0]) != quality_key(new, priorities[0]));
        }
    }
}

/// Without the number of ships out among the priorities, the comparison of a
/// new step with a known one is the lexicographic order of their keys in
/// order of priority, lower being better: the new step is strictly better
/// when its keys come first, strictly worse when the known ones do, and equal
/// when all keys agree (so always for no priorities). The known steps and
/// whether every state has a candidate play no part, and it never ends in
/// `Complex`.
pub proof fn lemma_compare_lexicographic(
    existing: QualityKeys,
    new: QualityKeys,
    priorities: Seq<Quality>,
    paths: Seq<PathStep>,
    have_full_info: bool,
)
    requires
        !priorities.contains(Quality::MaxOut),
    ensures
        spec_compare(existing, new, priorities, paths, have_full_info) == compare_without_max_out(
            existing,
            new,
            priorities,
        ),
        spec_compare(existing, new, priorities, paths, have_full_info) is StrictlyBetter
            <==> lexicographically_lower(new, existing, priorities),
        spec_compare(existing, new, priorities, paths, have_full_info) is StrictlyWorse
            <==> lexicographically_lower(existing, new, priorities),
        spec_compare(existing, new, priorities, paths, have_full_info) is Equal <==> equal_before(
            existing,
            new,
            priorities,
            priorities.len() as int,
        ),
        !(spec_compare(existing, new, priorities, paths, have_full_info) is Complex),
{
    lemma_compare_without_max_out(existing, new, priorities, paths, have_full_info);
    lemma_compare_without_max_out_lexicographic(existing, new, priorities);
}

/// Without the number of ships out among the priorities, swapping the two
/// steps swaps strictly better and strictly worse and keeps equal.
pub proof fn lemma_compare_swap(
    a: QualityKeys,
    b: QualityKeys,
    priorities: Seq<Quality>,
    paths: Seq<PathStep>,
    have_full_info: bool,
)
    requires
        !priorities.contains(Quality::MaxOut),
    ensures
        spec_compare(a, b, priorities, paths, have_full_info) is StrictlyBetter <==> spec_compare(
            b,
            a,
            priorities,
            paths,
            have_full_info,
        ) is StrictlyWorse,
        spec_compare(a, b, priorities, paths, have_full_info) is StrictlyWorse <==> spec_compare(
            b,
            a,
            priorities,
            paths,
            have_full_info,
        ) is StrictlyBetter,
        spec_compare(a, b, priorities, paths, have_full_info) is Equal <==> spec_compare(
            b,
            a,
            priorities,
            paths,
            have_full_info,
        ) is Equal,
{
    lemma_compare_lexicographic(a, b, priorities, paths, have_full_info);
    lemma_compare_lexicographic(b, a, priorities, paths, have_full_info);
    let n = priorities.len() as int;
    if equal_before(a, b, priorities, n) {
        assert forall|j: int| 0 <= j < n implies #[trigger] quality_key(b, priorities[j]) == quality_key(
            a,
            priorities[j],
        ) by {
            assert(quality_key(a, priorities[j]) == quality_key(b, priorities[j]));
        }
    }
    if equal_before(b, a, priorities, n) {
        assert forall|j: int| 0 <= j < n implies #[trigger] quality_key(a, priorities[j]) == quality_key(
            b,
            priorities[j],
        ) by {
            assert(quality_key(b, priorities[j]) == quality_key(a, priorities[j]));
        }
    }
}

struct ComplexComparison {
    new_best_path: Vec<PathStep>,
    insert_new_at: usize,
}

enum Comparison {
    Equal,
    StrictlyBetter,
    StrictlyWorse,
    Complex(ComplexComparison),
}

impl View for Comparison {
    type V = Outcome;

    closed spec fn view(&self) -> Outcome {
        match self {
            Comparison::Equal => Outcome::Equal,
            Comparison::StrictlyBetter => Outcome::StrictlyBetter,
            Comparison::StrictlyWorse => Outcome::StrictlyWorse,
            Comparison::Complex(c) => Outcome::Complex(c.new_best_path@, c.insert_new_at as int),
        }
    }
}

/// Compares two order keys where lower is better, from the side of `b`.
fn key_compare_lower_better(a: u64, b: u64) -> (r: Comparison)
    ensures
        r@ == key_compare(a, b),
{
    if a < b {
        Comparison::StrictlyWorse
    } else if a > b {
        Comparison::StrictlyBetter
    } else {
        Comparison::Equal
    }
}

/// After a quality at `start` of distinct qualities, none equals it.
proof fn lemma_rest_lacks(priorities: Seq<Quality>, start: int)
    requires
        0 <= start < priorities.len(),
        all_distinct(priorities),
    ensures
        !priorities.skip(start + 1).contains(priorities[start]),
        priorities.skip(start).drop_first() == priorities.skip(start + 1),
        priorities.skip(start)[0] == priorities[start],
{
    assert(priorities.skip(start).drop_first() =~= priorities.skip(start + 1));
    if priorities.skip(start + 1).contains(priorities[start]) {
        let k = choose|k: int|
            0 <= k < priorities.skip(start + 1).len() && #[trigger] priorities.skip(start + 1)[k]
                == priorities[start];
        assert(priorities[start + 1 + k] == priorities[start]);
    }
}

// `best_paths` must be properly filtered such that all elements with higher
// priority qualities which are better are not included, and sorted to match
// the invariants of `PathPicker`.
fn compare_paths(
    existing: &QualityKeys,
    new: &QualityKeys,
    priorities: &[Quality; 3],
    start: usize,
    best_paths: &Vec<PathStep>,
    have_full_info: bool,
) -> (r: Comparison)
    requires
        start <= 3,
        all_distinct(priorities@),
    ensures
        r@ == spec_compare(*existing, *new, priorities@.skip(start as int), best_paths@, have_full_info),
    decreases 3 - start,
{
    if start >= 3 {
        return Comparison::Equal;
    }
    proof {
        lemma_rest_lacks(priorities@, start as int);
    }
    let ghost rest = priorities@.skip(start + 1);
    let comparison = match priorities[start] {
        Quality::ROProbability => key_compare_lower_better(
            existing.roll_out_probability,
            new.roll_out_probability,
        ),
        Quality::AvgNumPasses => key_compare_lower_better(
            existing.average_num_passes,
            new.average_num_passes,
        ),
        Quality::MaxOut => {
            // Forcefully return Equal if we don't have full info because in
            // the future a high max out may be fine.
            if !have_full_info {
                return Comparison::Equal;
            }
            // Either find out we are strictly worse than someone else or find
            // all paths we are strictly better than.
            let mut new_paths: Vec<PathStep> = Vec::new();
            let mut insert_at: usize = 0;
            let mut i: usize = 0;
            while i < best_paths.len()
                invariant
                    start < 3,
                    all_distinct(priorities@),
                    priorities@[start as int] == Quality::MaxOut,
                    priorities@.skip(start as int)[0] == Quality::MaxOut,
                    priorities@.skip(start as int).len() > 0,
                    priorities@.skip(start as int).drop_first() == rest,
                    have_full_info,
                    rest == priorities@.skip(start + 1),
                    !rest.contains(Quality::MaxOut),
                    i <= best_paths.len(),
                    insert_at <= i,
                    forall|k: int| 0 <= k < i ==> !dominates(#[trigger] best_paths@[k], *new, rest),
                    new_paths@ == kept_paths(best_paths@, *new, rest, i as int),
                    insert_at == insert_position(best_paths@, *new, i as int),
                decreases best_paths.len() - i,
            {
                let path = best_paths[i];
                if path.qualities.max_num_out < new.max_num_out {
                    insert_at = i + 1;
                }
                let sub = compare_paths(
                    &path.qualities,
                    new,
                    priorities,
                    start + 1,
                    best_paths,
                    have_full_info,
                );
                proof {
                    lemma_compare_without_max_out(
                        path.qualities,
                        *new,
                        rest,
                        best_paths@,
                        have_full_info,
                    );
                }
                match sub {
                    Comparison::StrictlyWorse => {
                        // Found a path with less or equal max_num_out with
                        // better other qualities: it is strictly better even
                        // if max_num_out is reduced.
                        if path.qualities.max_num_out <= new.max_num_out {
                            assert(dominates(best_paths@[i as int], *new, rest));
                            return Comparison::StrictlyWorse;
                        }
                        new_paths.push(path);
                    },
                    Comparison::StrictlyBetter => {
                        // It has an equal or better max_num_out, so if all
                        // lower priorities are strictly better, it's strictly
                        // better.
                        if path.qualities.max_num_out < new.max_num_out {
                            new_paths.push(path);
                        }
                    },
                    Comparison::Equal => {
                        // If all else is equal but our max_num_out is worse,
                        // we are strictly worse.
                        if path.qualities.max_num_out < new.max_num_out {
                            assert(dominates(best_paths@[i as int], *new, rest));
                            return Comparison::StrictlyWorse;
                        } else if path.qualities.max_num_out == new.max_num_out {
                            new_paths.push(path);
                        }
                    },
                    Comparison::Complex(_) => {
                        proof {
                            assert(false);
                        }
                    },
                }
                i = i + 1;
            }
            Comparison::Complex(ComplexComparison { new_best_path: new_paths, insert_new_at: insert_at })
        },
    };
    if let Comparison::Equal = comparison {
        compare_paths(existing, new, priorities, start + 1, best_paths, have_full_info)
    } else {
        comparison
    }
}

/// Keeps, for each hole state (crit, shrink, full), the best candidate next
/// steps seen so far: steps equally good, or better for some floors on the
/// number of ships out. Each list is in order of ships out, so that its
/// leftmost step is the best once the floor reaches its number of ships out.
pub struct PathPicker {
    crit_paths: Vec<PathStep>,
    shrink_paths: Vec<PathStep>,
    full_paths: Vec<PathStep>,
    priorities: Priorities,
    care_about_state: [bool; 3],
}

/// The best steps for a hole state after suggesting `step` to a list of best
/// steps `paths`.
pub open spec fn spec_suggested(
    paths: Seq<PathStep>,
    step: PathStep,
    priorities: Seq<Quality>,
    have_full_info: bool,
) -> Seq<PathStep> {
    if paths.len() == 0 {
        seq![step]
    } else {
        match spec_compare(paths[0].qualities, step.qualities, priorities, paths, have_full_info) {
            Outcome::Equal => paths.insert(append_position(paths, step.qualities, paths.len() as int), step),
            Outcome::StrictlyBetter => seq![step],
            Outcome::StrictlyWorse => paths,
            Outcome::Complex(kept, at) => kept.insert(at, step),
        }
    }
}

/// Suggesting `step` to `paths` does not insert it past the end of the kept steps.
pub open spec fn spec_suggest_fits(
    paths: Seq<PathStep>,
    step: PathStep,
    priorities: Seq<Quality>,
    have_full_info: bool,
) -> bool {
    paths.len() == 0 || match spec_compare(
        paths[0].qualities,
        step.qualities,
        priorities,
        paths,
        have_full_info,
    ) {
        Outcome::Complex(kept, at) => 0 <= at <= kept.len(),
        _ => true,
    }
}

impl PathPicker {
    /// Each list of best steps is in order of ships out.
    #[verifier::type_invariant]
    spec fn lists_in_order(self) -> bool {
        &&& sorted_by_max_out(self.crit_paths@)
        &&& sorted_by_max_out(self.shrink_paths@)
        &&& sorted_by_max_out(self.full_paths@)
    }

    /// The best steps kept for the state at position `i` (crit, shrink, full).
    pub closed spec fn paths(self, i: int) -> Seq<PathStep> {
        if i == 0 {
            self.crit_paths@
        } else if i == 1 {
            self.shrink_paths@
        } else {
            self.full_paths@
        }
    }

    /// The order of priority.
    pub closed spec fn priorities(self) -> Seq<Quality> {
        self.priorities@
    }

    /// Whether the state at position `i` can occur, so that a candidate for it matters.
    pub closed spec fn cares(self, i: int) -> bool {
        self.care_about_state@[i]
    }

    /// Every state that can occur has a candidate.
    pub open spec fn have_full_info(self) -> bool {
        forall|i: int| 0 <= i < 3 ==> !self.cares(i) || self.paths(i).len() > 0
    }

    /// The best steps for the state at position `i` after suggesting `step` for it.
    pub open spec fn suggested_paths(self, step: PathStep, i: int) -> Seq<PathStep> {
        spec_suggested(self.paths(i), step, self.priorities(), self.have_full_info())
    }

    /// A picker with no candidates yet.
    pub fn new(priorities: &Priorities, care_about_state: [bool; 3]) -> (r: Self)
        ensures
            forall|i: int| 0 <= i < 3 ==> #[trigger] r.paths(i).len() == 0,
            forall|i: int| 0 <= i < 3 ==> #[trigger] r.cares(i) == care_about_state@[i],
            r.priorities() == priorities@,
            all_distinct(r.priorities()),
    {
        proof {
            use_type_invariant(priorities);
        }
        Self {
            crit_paths: Vec::new(),
            shrink_paths: Vec::new(),
            full_paths: Vec::new(),
            priorities: Priorities { qualities: priorities.qualities },
            care_about_state,
        }
    }

    fn have_full_info_exec(&self) -> (r: bool)
        ensures
            r == self.have_full_info(),
    {
        let r = (!self.care_about_state[0] || self.crit_paths.len() > 0) && (
        !self.care_about_state[1] || self.shrink_paths.len() > 0) && (!self.care_about_state[2]
            || self.full_paths.len() > 0);
        assert(r == self.have_full_info()) by {
            if r {
                assert forall|i: int| 0 <= i < 3 implies !self.cares(i) || self.paths(i).len() > 0 by {
                    if i == 0 {
                    } else if i == 1 {
                    } else {
                    }
                }
            } else {
                if !(!self.care_about_state[0] || self.crit_paths.len() > 0) {
                    assert(!(!self.cares(0) || self.paths(0).len() > 0));
                } else if !(!self.care_about_state[1] || self.shrink_paths.len() > 0) {
                    assert(!(!self.cares(1) || self.paths(1).len() > 0));
                } else {
                    assert(!(!self.cares(2) || self.paths(2).len() > 0));
                }
            }
        }
        r
    }

    fn list(&self, i: usize) -> (r: &Vec<PathStep>)
        requires
            i < 3,
        ensures
            r@ == self.paths(i as int),
    {
        if i == 0 {
            &self.crit_paths
        } else if i == 1 {
            &self.shrink_paths
        } else {
            &self.full_paths
        }
    }

    fn set_list(&mut self, i: usize, v: Vec<PathStep>)
        requires
            i < 3,
            sorted_by_max_out(v@),
        ensures
            final(self).paths(i as int) == v@,
            forall|j: int| 0 <= j < 3 && j != i ==> #[trigger] final(self).paths(j) == old(self).paths(j),
            final(self).priorities() == old(self).priorities(),
            forall|j: int| 0 <= j < 3 ==> #[trigger] final(self).cares(j) == old(self).cares(j),
    {
        proof {
            use_type_invariant(&*self);
        }
        if i == 0 {
            self.crit_paths = v;
        } else if i == 1 {
            self.shrink_paths = v;
        } else {
            self.full_paths = v;
        }
    }

    /// Offers `step` as the next pass for the case that the hole shows
    /// `hole_state`; it joins, replaces or is dropped from the best steps
    /// kept for that state. Every list stays in order of ships out.
    pub fn suggest(&mut self, step: PathStep, hole_state: HoleState)
        ensures
            final(self).paths(state_index(hole_state)) == old(self).suggested_paths(
                step,
                state_index(hole_state),
            ),
            forall|j: int|
                0 <= j < 3 && j != state_index(hole_state) ==> #[trigger] final(self).paths(j)
                    == old(self).paths(j),
            final(self).priorities() == old(self).priorities(),
            forall|j: int| 0 <= j < 3 ==> #[trigger] final(self).cares(j) == old(self).cares(j),
            final(self).paths(state_index(hole_state)).len() > 0,
            forall|j: int| 0 <= j < 3 ==> sorted_by_max_out(#[trigger] final(self).paths(j)),
    {
        proof {
            use_type_invariant(&self.priorities);
            use_type_invariant(&*self);
        }
        let path_i = path_index(hole_state);
        let have_full_info = self.have_full_info_exec();
        let mut list = self.list(path_i).clone();
        proof {
            lemma_suggest_keeps_sorted(list@, step, self.priorities(), have_full_info);
        }
        if list.len() == 0 {
            list.push(step);
            assert(list@ =~= seq![step]);
        } else {
            let representative_sample = list[0];
            assert(self.priorities.qualities@.skip(0) =~= self.priorities());
            match compare_paths(
                &representative_sample.qualities,
                &step.qualities,
                &self.priorities.qualities,
                0,
                &list,
                have_full_info,
            ) {
                Comparison::Equal => {
                    let at = append_position_exec(&list, &step.qualities);
                    list.insert(at, step);
                },
                Comparison::StrictlyBetter => {
                    list = Vec::new();
                    list.push(step);
                    assert(list@ =~= seq![step]);
                },
                Comparison::StrictlyWorse => {},
                Comparison::Complex(data) => {
                    list = data.new_best_path;
                    list.insert(data.insert_new_at, step);
                },
            }
        }
        self.set_list(path_i, list);
    }
}

/// One past the last known step with at most as many ships out as `new`.
fn append_position_exec(paths: &Vec<PathStep>, new: &QualityKeys) -> (r: usize)
    ensures
        r == append_position(paths@, *new, paths@.len() as int),
        r <= paths@.len(),
{
    let mut n = paths.len();
    while n > 0 && paths[n - 1].qualities.max_num_out > new.max_num_out
        invariant
            n <= paths@.len(),
            append_position(paths@, *new, paths@.len() as int) == append_position(paths@, *new, n as int),
        decreases n,
    {
        n = n - 1;
    }
    n
}

/// The steps are in order of their number of ships out, fewest first.
pub open spec fn sorted_by_max_out(paths: Seq<PathStep>) -> bool {
    forall|i: int, j: int|
        0 <= i < j < paths.len() ==> #[trigger] paths[i].qualities.max_num_out
            <= #[trigger] paths[j].qualities.max_num_out
}

/// The steps kept by the comparison on the number of ships out, from a list
/// in order of ships out: the first `at` are the steps with fewer ships out
/// than the new one, the others have at least as many, and all stay in order.
#[verifier::spinoff_prover]
proof fn lemma_kept_paths_shape(paths: Seq<PathStep>, new: QualityKeys, rest: Seq<Quality>, n: int)
    requires
        0 <= n <= paths.len(),
        sorted_by_max_out(paths),
    ensures
        ({
            let kept = kept_paths(paths, new, rest, n);
            let at = insert_position(paths, new, n);
            &&& 0 <= at <= n
            &&& kept.len() <= n
            &&& at <= kept.len()
            &&& forall|k: int| 0 <= k < at ==> #[trigger] kept[k] == paths[k]
            &&& forall|k: int|
                at <= k < kept.len() ==> #[trigger] kept[k].qualities.max_num_out >= new.max_num_out
            &&& forall|k: int| 0 <= k < at ==> #[trigger] paths[k].qualities.max_num_out < new.max_num_out
            &&& sorted_by_max_out(kept)
            &&& n > 0 ==> forall|k: int|
                0 <= k < kept.len() ==> #[trigger] kept[k].qualities.max_num_out
                    <= paths[n - 1].qualities.max_num_out
        }),
    decreases n,
{
    if n > 0 {
        lemma_kept_paths_shape(paths, new, rest, n - 1);
        let prev = kept_paths(paths, new, rest, n - 1);
        let e = paths[n - 1];
        if n > 1 {
            assert(paths[n - 2].qualities.max_num_out <= e.qualities.max_num_out);
        }
        if e.qualities.max_num_out < new.max_num_out {
            // Every earlier step has fewer ships out too, so none was dropped.
            assert(insert_position(paths, new, n - 1) == n - 1) by {
                if n > 1 {
                    assert(paths[n - 2].qualities.max_num_out < new.max_num_out);
                }
            }
            assert(!outdone(e, new, rest));
        }
    }
}

/// Until every state of interest has a candidate, the number of ships out
/// counts as equal, so no comparison ends in `Complex`.
proof fn lemma_partial_info_not_complex(
    existing: QualityKeys,
    new: QualityKeys,
    priorities: Seq<Quality>,
    paths: Seq<PathStep>,
)
    ensures
        !(spec_compare(existing, new, priorities, paths, false) is Complex),
    decreases priorities.len(),
{
    if priorities.len() > 0 && priorities[0] != Quality::MaxOut {
        lemma_partial_info_not_complex(existing, new, priorities.drop_first(), paths);
    }
}

/// In a list in order of ships out, the steps before the append position
/// have at most as many ships out as the new step, those after it more.
proof fn lemma_append_position_shape(paths: Seq<PathStep>, new: QualityKeys, n: int)
    requires
        0 <= n <= paths.len(),
        sorted_by_max_out(paths),
    ensures
        0 <= append_position(paths, new, n) <= n,
        forall|k: int|
            0 <= k < append_position(paths, new, n) ==> (#[trigger] paths[k]).qualities.max_num_out
                <= new.max_num_out,
        forall|k: int|
            append_position(paths, new, n) <= k < n ==> new.max_num_out < (
            #[trigger] paths[k]).qualities.max_num_out,
    decreases n,
{
    if n > 0 {
        lemma_append_position_shape(paths, new, n - 1);
        if paths[n - 1].qualities.max_num_out <= new.max_num_out {
            assert forall|k: int| 0 <= k < n implies (#[trigger] paths[k]).qualities.max_num_out
                <= new.max_num_out by {
                if k < n - 1 {
                    assert(paths[k].qualities.max_num_out <= paths[n - 1].qualities.max_num_out);
                }
            }
        }
    }
}

proof fn lemma_append_position_bounds(paths: Seq<PathStep>, new: QualityKeys, n: int)
    requires
        0 <= n,
    ensures
        0 <= append_position(paths, new, n) <= n,
    decreases n,
{
    if n > 0 {
        lemma_append_position_bounds(paths, new, n - 1);
    }
}

/// While some state of interest has no candidate yet, the number of ships out
/// stops the comparison wherever it stands among the priorities: the result
/// is the plain comparison, in order, by the qualities before it (equal when
/// it comes first). Whatever follows it plays no part.
pub proof fn lemma_partial_info_stops_at_max_out(
    existing: QualityKeys,
    new: QualityKeys,
    priorities: Seq<Quality>,
    paths: Seq<PathStep>,
    k: int,
)
    requires
        0 <= k < priorities.len(),
        priorities[k] == Quality::MaxOut,
        forall|j: int| 0 <= j < k ==> #[trigger] priorities[j] != Quality::MaxOut,
    ensures
        spec_compare(existing, new, priorities, paths, false) == compare_without_max_out(
            existing,
            new,
            priorities.take(k),
        ),
    decreases k,
{
    if k > 0 {
        let r = priorities.drop_first();
        assert forall|j: int| 0 <= j < k - 1 implies #[trigger] r[j] != Quality::MaxOut by {
            assert(r[j] == priorities[j + 1]);
        }
        lemma_partial_info_stops_at_max_out(existing, new, r, paths, k - 1);
        assert(priorities.take(k).drop_first() =~= r.take(k - 1));
        assert(priorities.take(k)[0] == priorities[0]);
    } else {
        assert(priorities.take(0) =~= Seq::<Quality>::empty());
    }
}

/// While some state of interest has no candidate yet and the number of ships
/// out has the top priority, a new step compares as equal to the known ones
/// whatever its other qualities, so a suggestion neither drops nor replaces
/// any step: the list keeps every step it had and gains the new one.
pub proof fn lemma_partial_info_only_grows(
    existing: QualityKeys,
    paths: Seq<PathStep>,
    step: PathStep,
    priorities: Seq<Quality>,
)
    requires
        priorities.len() > 0,
        priorities[0] == Quality::MaxOut,
    ensures
        spec_compare(existing, step.qualities, priorities, paths, false) == Outcome::Equal,
        spec_suggested(paths, step, priorities, false).len() == paths.len() + 1,
        spec_suggested(paths, step, priorities, false).contains(step),
        forall|k: int|
            0 <= k < paths.len() ==> spec_suggested(paths, step, priorities, false).contains(
                #[trigger] paths[k],
            ),
{
    let r = spec_suggested(paths, step, priorities, false);
    if paths.len() == 0 {
        assert(r[0] == step);
    } else {
        let at = append_position(paths, step.qualities, paths.len() as int);
        lemma_append_position_bounds(paths, step.qualities, paths.len() as int);
        assert(r == paths.insert(at, step));
        assert(r[at] == step);
        assert forall|k: int| 0 <= k < paths.len() implies r.contains(#[trigger] paths[k]) by {
            if k < at {
                assert(r[k] == paths[k]);
            } else {
                assert(r[k + 1] == paths[k]);
            }
        }
    }
}

/// Suggesting a step to a list of best steps in order of ships out, whatever
/// the step, the priorities and whether every state of interest has a
/// candidate: the step fits (it is never inserted past the end of the kept
/// steps), the list is non-empty afterwards and stays in order of ships out.
#[verifier::spinoff_prover]
pub proof fn lemma_suggest_keeps_sorted(
    paths: Seq<PathStep>,
    step: PathStep,
    priorities: Seq<Quality>,
    have_full_info: bool,
)
    requires
        sorted_by_max_out(paths),
    ensures
        spec_suggest_fits(paths, step, priorities, have_full_info),
        spec_suggested(paths, step, priorities, have_full_info).len() > 0,
        sorted_by_max_out(spec_suggested(paths, step, priorities, have_full_info)),
{
    if paths.len() > 0 {
        let len = paths.len() as int;
        let new = step.qualities;
        if !have_full_info {
            lemma_partial_info_not_complex(paths[0].qualities, new, priorities, paths);
        }
        match spec_compare(paths[0].qualities, new, priorities, paths, have_full_info) {
            Outcome::Equal => {
                let at = append_position(paths, new, len);
                lemma_append_position_shape(paths, new, len);
                let ins = paths.insert(at, step);
                assert forall|a: int, b: int|
                    0 <= a < b < ins.len() implies #[trigger] ins[a].qualities.max_num_out
                    <= #[trigger] ins[b].qualities.max_num_out by {
                    if b < at {
                        assert(ins[a] == paths[a] && ins[b] == paths[b]);
                    } else if b == at {
                        assert(ins[a] == paths[a] && ins[b] == step);
                    } else if a < at {
                        assert(ins[a] == paths[a] && ins[b] == paths[b - 1]);
                    } else if a == at {
                        assert(ins[a] == step && ins[b] == paths[b - 1]);
                    } else {
                        assert(ins[a] == paths[a - 1] && ins[b] == paths[b - 1]);
                    }
                }
            },
            Outcome::Complex(kept, at) => {
                lemma_complex_from_max_out(paths[0].qualities, new, priorities, paths);
                let rest = choose|rest: Seq<Quality>|
                    kept == kept_paths(paths, new, rest, len) && at == insert_position(paths, new, len);
                lemma_kept_paths_shape(paths, new, rest, len);
                let ins = kept.insert(at, step);
                assert forall|a: int, b: int|
                    0 <= a < b < ins.len() implies #[trigger] ins[a].qualities.max_num_out
                    <= #[trigger] ins[b].qualities.max_num_out by {
                    if a < at && b == at {
                        assert(kept[a] == paths[a]);
                    } else if a < at && b > at {
                        assert(kept[a] == paths[a]);
                    }
                }
            },
            _ => {},
        }
    }
}

/// A comparison that ends in `Complex` comes from the number of ships out:
/// its kept steps and insert position are those of `max_out_outcome`.
proof fn lemma_complex_from_max_out(
    existing: QualityKeys,
    new: QualityKeys,
    priorities: Seq<Quality>,
    paths: Seq<PathStep>,
)
    ensures
        spec_compare(existing, new, priorities, paths, true) matches Outcome::Complex(kept, at)
            ==> exists|rest: Seq<Quality>|
            kept == kept_paths(paths, new, rest, paths.len() as int) && at == insert_position(
                paths,
                new,
                paths.len() as int,
            ),
    decreases priorities.len(),
{
    if priorities.len() > 0 {
        if priorities[0] == Quality::MaxOut {
            let rest = priorities.drop_first();
            let len = paths.len() as int;
            if spec_compare(existing, new, priorities, paths, true) is Complex {
                // The comparison is the one on the number of ships out, with `rest` as witness.
                assert(spec_compare(existing, new, priorities, paths, true) == Outcome::Complex(
                    kept_paths(paths, new, rest, len),
                    insert_position(paths, new, len),
                ));
            }
        } else {
            lemma_complex_from_max_out(existing, new, priorities.drop_first(), paths);
        }
    }
}

/// The best steps for each floor on the number of ships out. `best_paths[0]`
/// holds the best step for each state (crit, shrink, full) with no floor;
/// `best_paths[k + 1]` is the best from floor `splits[k]` on.
pub struct BestOptions {
    pub best_paths: Vec<[Option<PathStep>; 3]>,
    pub splits: Vec<usize>,
}

/// Option `a` of a list of options split at the floors `splits` covers floor
/// `f`: option 0 the floors below the first split, option `a` those from
/// split `a - 1` up to below the next split (or every higher floor for the last).
pub open spec fn option_covers_floor(splits: Seq<usize>, a: int, f: int) -> bool {
    &&& 0 <= a <= splits.len()
    &&& (a == 0 || splits[a - 1] <= f)
    &&& (a < splits.len() ==> f < splits[a])
}

/// For each floor from 0 up to the last split (just floor 0 without splits),
/// the index of the option that covers it; a cache of plans built from it
/// holds, at each floor, that floor's plan, and the last entry serves every
/// higher floor.
pub fn option_per_floor(splits: &Vec<usize>) -> (r: Vec<usize>)
    requires
        forall|a: int, b: int| 0 <= a < b < splits@.len() ==> #[trigger] splits@[a] < #[trigger] splits@[b],
        splits@.len() > 0 ==> splits@.last() < usize::MAX,
    ensures
        r@.len() == (if splits@.len() == 0 {
            1
        } else {
            splits@.last() + 1
        }),
        forall|f: int| 0 <= f < r@.len() ==> option_covers_floor(splits@, #[trigger] r@[f] as int, f),
{
    let mut out: Vec<usize> = Vec::new();
    let mut k: usize = 0;
    while k < splits.len()
        invariant
            k <= splits@.len(),
            forall|a: int, b: int| 0 <= a < b < splits@.len() ==> #[trigger] splits@[a] < #[trigger] splits@[b],
            out@.len() == (if k == 0 {
                0
            } else {
                splits@[k - 1] as int
            }),
            forall|f: int| 0 <= f < out@.len() ==> option_covers_floor(splits@, #[trigger] out@[f] as int, f),
        decreases splits@.len() - k,
    {
        let end = splits[k];
        if k > 0 {
            assert(splits@[k - 1] < splits@[k as int]);
        }
        while out.len() < end
            invariant
                k < splits@.len(),
                forall|a: int, b: int|
                    0 <= a < b < splits@.len() ==> #[trigger] splits@[a] < #[trigger] splits@[b],
                end == splits@[k as int],
                (if k == 0 {
                    0
                } else {
                    splits@[k - 1] as int
                }) <= out@.len() <= end,
                forall|f: int| 0 <= f < out@.len() ==> option_covers_floor(splits@, #[trigger] out@[f] as int, f),
            decreases end - out@.len(),
        {
            out.push(k);
        }
        k = k + 1;
    }
    out.push(splits.len());
    out
}

/// From position `i` on, of neighbouring steps with the same number of ships
/// out only the one with the higher mass stays (the earlier one on a tie).
pub open spec fn dedup_from(l: Seq<PathStep>, i: int) -> Seq<PathStep>
    decreases 2 * l.len() - i,
{
    if i < 1 || i >= l.len() {
        l
    } else if l[i - 1].qualities.max_num_out == l[i].qualities.max_num_out {
        if spec_step_mass(l[i - 1]) >= spec_step_mass(l[i]) {
            dedup_from(l.remove(i), i)
        } else {
            dedup_from(l.remove(i - 1), i)
        }
    } else {
        dedup_from(l, i + 1)
    }
}

/// A list with a single step per run of equal numbers of ships out, keeping
/// the highest mass passed to improve path similarity.
pub open spec fn dedup_by_max_out(l: Seq<PathStep>) -> Seq<PathStep> {
    dedup_from(l, 1)
}

/// The largest number of ships out among `prev` and the first `n` steps of `l`.
pub open spec fn running_max(prev: Option<int>, l: Seq<PathStep>, n: int) -> Option<int>
    decreases n,
{
    if n <= 0 {
        prev
    } else {
        let m = l[n - 1].qualities.max_num_out as int;
        match running_max(prev, l, n - 1) {
            None => Some(m),
            Some(p) => Some(
                if p >= m {
                    p
                } else {
                    m
                },
            ),
        }
    }
}

/// The largest number of ships out over the three lists, if they hold any step.
pub open spec fn highest_max_out(lists: Seq<Seq<PathStep>>) -> Option<int> {
    running_max(
        running_max(running_max(None, lists[0], lists[0].len() as int), lists[1], lists[1].len() as int),
        lists[2],
        lists[2].len() as int,
    )
}

/// The step at position `k` of `l`, if there is one.
pub open spec fn step_at(l: Seq<PathStep>, k: int) -> Option<PathStep> {
    if 0 <= k < l.len() {
        Some(l[k])
    } else {
        None
    }
}

/// The steps at positions `h` of the three lists.
pub open spec fn combo(lists: Seq<Seq<PathStep>>, h: Seq<int>) -> Seq<Option<PathStep>> {
    seq![step_at(lists[0], h[0]), step_at(lists[1], h[1]), step_at(lists[2], h[2])]
}

/// Position `h[j]` of list `j`, moved on by one if the next step there has at
/// most `i` ships out.
pub open spec fn advanced(lists: Seq<Seq<PathStep>>, i: int, h: Seq<int>, j: int) -> int {
    if h[j] + 1 < lists[j].len() && lists[j][h[j] + 1].qualities.max_num_out <= i {
        h[j] + 1
    } else {
        h[j]
    }
}

/// The positions in the three lists for floor `i`, from those for the floor below.
pub open spec fn next_positions(lists: Seq<Seq<PathStep>>, i: int, h: Seq<int>) -> Seq<int> {
    seq![advanced(lists, i, h, 0), advanced(lists, i, h, 1), advanced(lists, i, h, 2)]
}

/// The best steps for each floor from `i` up to `highest` at which the best
/// step of some state changes, starting from positions `h`.
pub open spec fn combos_from(lists: Seq<Seq<PathStep>>, highest: int, i: int, h: Seq<int>) -> Seq<
    Seq<Option<PathStep>>,
>
    decreases highest + 1 - i,
{
    if i > highest {
        Seq::empty()
    } else {
        let h2 = next_positions(lists, i, h);
        let rest = combos_from(lists, highest, i + 1, h2);
        if h2 != h {
            seq![combo(lists, h2)] + rest
        } else {
            rest
        }
    }
}

/// The floors from `i` up to `highest` at which the best step of some state changes.
pub open spec fn splits_from(lists: Seq<Seq<PathStep>>, highest: int, i: int, h: Seq<int>) -> Seq<
    usize,
>
    decreases highest + 1 - i,
{
    if i > highest {
        Seq::empty()
    } else {
        let h2 = next_positions(lists, i, h);
        let rest = splits_from(lists, highest, i + 1, h2);
        if h2 != h {
            seq![i as usize] + rest
        } else {
            rest
        }
    }
}

/// The contents of a list of combinations.
pub open spec fn combos_view(v: Seq<[Option<PathStep>; 3]>) -> Seq<Seq<Option<PathStep>>> {
    v.map_values(|a: [Option<PathStep>; 3]| a@)
}

/// Removes, of neighbouring steps with equal numbers of ships out, all but
/// the one with the highest mass.
fn dedup_list(path: &mut Vec<PathStep>)
    ensures
        final(path)@ == dedup_by_max_out(old(path)@),
{
    let ghost target = dedup_by_max_out(path@);
    let mut i: usize = 1;
    while i < path.len()
        invariant
            1 <= i,
            dedup_from(path@, i as int) == target,
        decreases 2 * path.len() - i,
    {
        if path[i - 1].qualities.max_num_out == path[i].qualities.max_num_out {
            if step_mass(&path[i - 1]) >= step_mass(&path[i]) {
                path.remove(i);
            } else {
                path.remove(i - 1);
            }
        } else {
            i = i + 1;
        }
    }
}

/// The largest number of ships out among `prev` and the steps of `l`.
fn list_max(prev: Option<u16>, l: &Vec<PathStep>) -> (r: Option<u16>)
    ensures
        running_max(
            match prev {
                Some(p) => Some(p as int),
                None => None,
            },
            l@,
            l@.len() as int,
        ) == match r {
            Some(p) => Some(p as int),
            None => None::<int>,
        },
{
    let ghost prev_int = match prev {
        Some(p) => Some(p as int),
        None => None::<int>,
    };
    let mut r = prev;
    let mut k: usize = 0;
    while k < l.len()
        invariant
            k <= l.len(),
            running_max(prev_int, l@, k as int) == match r {
                Some(p) => Some(p as int),
                None => None::<int>,
            },
        decreases l.len() - k,
    {
        let m = l[k].qualities.max_num_out;
        r = match r {
            None => Some(m),
            Some(p) => Some(
                if p >= m {
                    p
                } else {
                    m
                },
            ),
        };
        k = k + 1;
    }
    r
}

/// Position `h` of `l`, moved on by one if the next step has at most `i`
/// ships out, and whether it moved.
fn advance(l: &Vec<PathStep>, h: usize, i: u32) -> (r: (usize, bool))
    requires
        h < l@.len() || h == 0,
    ensures
        r.0 == (if h + 1 < l@.len() && l@[h + 1].qualities.max_num_out <= i {
            h + 1
        } else {
            h as int
        }),
        r.1 == (r.0 != h),
        r.0 < l@.len() || r.0 == 0,
{
    let n = l.len();
    if h < n && h + 1 < n && l[h + 1].qualities.max_num_out as u32 <= i {
        (h + 1, true)
    } else {
        (h, false)
    }
}

/// The step at position `k` of `l`, if there is one.
fn get_step(l: &Vec<PathStep>, k: usize) -> (r: Option<PathStep>)
    ensures
        r == step_at(l@, k as int),
{
    if k < l.len() {
        Some(l[k])
    } else {
        None
    }
}

impl PathPicker {
    /// The best steps for every floor on the number of ships out. Each list
    /// first keeps one step per number of ships out (the one passing the
    /// highest mass); then, floor by floor up to the highest number of ships
    /// out, the lists move on to their next step once its number of ships out
    /// is within the floor, and each floor at which one of them moves is a split.
    #[verifier::spinoff_prover]
    pub fn best(self) -> (r: BestOptions)
        ensures
            ({
                let lists = seq![
                    dedup_by_max_out(self.paths(0)),
                    dedup_by_max_out(self.paths(1)),
                    dedup_by_max_out(self.paths(2)),
                ];
                match highest_max_out(lists) {
                    None => r.best_paths@.len() == 0 && r.splits@.len() == 0,
                    Some(highest) => {
                        &&& combos_view(r.best_paths@) == seq![combo(lists, seq![0int, 0int, 0int])]
                            + combos_from(lists, highest, 0, seq![0int, 0int, 0int])
                        &&& r.splits@ == splits_from(lists, highest, 0, seq![0int, 0int, 0int])
                        &&& highest <= 0xffff
                        &&& r.best_paths@.len() == r.splits@.len() + 1
                        &&& forall|a: int| 0 <= a < r.splits@.len() ==> #[trigger] r.splits@[a] <= highest
                        &&& forall|a: int, b: int|
                            0 <= a < b < r.splits@.len() ==> #[trigger] r.splits@[a] < #[trigger] r.splits@[b]
                        // Per floor: each state's last step within the floor (or its first).
                        &&& forall|a: int, f: int, p: Seq<int>|
                            #![trigger floor_in_option(r.splits@, 0, highest, a, f), positions_for_floor(lists, f, p)]
                            floor_in_option(r.splits@, 0, highest, a, f) && positions_for_floor(lists, f, p)
                                ==> combos_view(r.best_paths@)[a] == combo(lists, p)
                    },
                }
            }),
            // Every step of each reduced list (crit, shrink and full) is the step
            // for its state in the option that covers its number of ships out.
            ({
                let lists = seq![
                    dedup_by_max_out(self.paths(0)),
                    dedup_by_max_out(self.paths(1)),
                    dedup_by_max_out(self.paths(2)),
                ];
                forall|j: int, k: int|
                    0 <= j < 3 && 0 <= k < lists[j].len() ==> exists|a: int|
                        0 <= a < r.best_paths@.len() && option_covers_floor(
                            r.splits@,
                            a,
                            (#[trigger] lists[j][k]).qualities.max_num_out as int,
                        ) && r.best_paths@[a]@[j] == Some(lists[j][k])
            }),
    {
        proof {
            use_type_invariant(&self);
            lemma_picker_best_per_floor(self);
        }
        let mut crit = self.crit_paths;
        let mut shrink = self.shrink_paths;
        let mut full = self.full_paths;
        // Get it to a single plan per max_num_out value, keeping the highest
        // mass being passed to try to improve path similarity.
        dedup_list(&mut crit);
        dedup_list(&mut shrink);
        dedup_list(&mut full);
        let ghost lists = seq![crit@, shrink@, full@];

        // The highest floor that would actually change the best is the
        // highest max_num_out in the best paths.
        let highest = list_max(list_max(list_max(None, &crit), &shrink), &full);
        let highest = match highest {
            None => {
                proof {
                    lemma_highest_covers_all_lists(lists);
                }
                return BestOptions { best_paths: Vec::new(), splits: Vec::new() };
            },
            Some(h) => h,
        };

        let mut possible_combos: Vec<[Option<PathStep>; 3]> = Vec::new();
        let mut splits: Vec<usize> = Vec::new();

        // Push the starting best combo.
        possible_combos.push([get_step(&crit, 0), get_step(&shrink, 0), get_step(&full, 0)]);
        assert(combos_view(possible_combos@) =~= seq![combo(lists, seq![0int, 0int, 0int])]);
        let ghost target_combos = seq![combo(lists, seq![0int, 0int, 0int])] + combos_from(
            lists,
            highest as int,
            0,
            seq![0int, 0int, 0int],
        );
        let ghost target_splits = splits_from(lists, highest as int, 0, seq![0int, 0int, 0int]);

        let mut h0: usize = 0;
        let mut h1: usize = 0;
        let mut h2: usize = 0;
        let mut i: u32 = 0;
        while i <= highest as u32
            invariant
                lists == seq![crit@, shrink@, full@],
                i <= highest + 1,
                h0 < crit@.len() || h0 == 0,
                h1 < shrink@.len() || h1 == 0,
                h2 < full@.len() || h2 == 0,
                combos_view(possible_combos@) + combos_from(
                    lists,
                    highest as int,
                    i as int,
                    seq![h0 as int, h1 as int, h2 as int],
                ) == target_combos,
                splits@ + splits_from(
                    lists,
                    highest as int,
                    i as int,
                    seq![h0 as int, h1 as int, h2 as int],
                ) == target_splits,
            decreases highest + 1 - i,
        {
            let ghost h = seq![h0 as int, h1 as int, h2 as int];
            let ghost hn = next_positions(lists, i as int, h);
            let (n0, a0) = advance(&crit, h0, i);
            let (n1, a1) = advance(&shrink, h1, i);
            let (n2, a2) = advance(&full, h2, i);
            h0 = n0;
            h1 = n1;
            h2 = n2;
            let found_split = a0 || a1 || a2;
            assert(hn =~= seq![h0 as int, h1 as int, h2 as int]);
            assert(found_split == (hn != h)) by {
                if !found_split {
                    assert(hn =~= h);
                } else {
                    assert(hn[0] != h[0] || hn[1] != h[1] || hn[2] != h[2]);
                }
            }
            if found_split {
                splits.push(i as usize);
                let c = [get_step(&crit, h0), get_step(&shrink, h1), get_step(&full, h2)];
                let ghost before = possible_combos@;
                possible_combos.push(c);
                assert(combos_view(possible_combos@) =~= combos_view(before) + seq![combo(lists, hn)]);
                assert(splits@ + splits_from(lists, highest as int, i + 1, hn) =~= target_splits);
                assert(combos_view(possible_combos@) + combos_from(lists, highest as int, i + 1, hn)
                    =~= target_combos);
            }
            i = i + 1;
        }
        proof {
            lemma_highest_covers_all_lists(lists);
            assert(combos_view(possible_combos@) == target_combos);
            assert(splits@ == target_splits);
            let options = combos_view(possible_combos@);
            lemma_every_step_has_its_floor(lists, highest as int, options, splits@);
            assert forall|j: int, k: int| 0 <= j < 3 && 0 <= k < lists[j].len() implies exists|a: int|
                0 <= a < possible_combos@.len() && option_covers_floor(
                    splits@,
                    a,
                    (#[trigger] lists[j][k]).qualities.max_num_out as int,
                ) && possible_combos@[a]@[j] == Some(lists[j][k]) by {
                let a = choose|a: int|
                    0 <= a < options.len() && option_covers_floor(
                        splits@,
                        a,
                        lists[j][k].qualities.max_num_out as int,
                    ) && options[a][j] == Some(lists[j][k]);
                assert(options[a] == possible_combos@[a]@);
            }
        }
        BestOptions { best_paths: possible_combos, splits }
    }
}

/// No two neighbouring steps among the first `upto` have the same number of ships out.
pub open spec fn distinct_neighbours(l: Seq<PathStep>, upto: int) -> bool {
    forall|k: int|
        1 <= k < upto && k < l.len() ==> #[trigger] l[k].qualities.max_num_out != l[k
            - 1].qualities.max_num_out
}

#[verifier::spinoff_prover]
proof fn lemma_dedup_from_distinct(l: Seq<PathStep>, i: int)
    requires
        1 <= i,
        distinct_neighbours(l, i),
    ensures
        distinct_neighbours(dedup_from(l, i), dedup_from(l, i).len() as int),
    decreases 2 * l.len() - i,
{
    if i < l.len() {
        if l[i - 1].qualities.max_num_out == l[i].qualities.max_num_out {
            if spec_step_mass(l[i - 1]) >= spec_step_mass(l[i]) {
                let l2 = l.remove(i);
                assert forall|k: int| 1 <= k < i && k < l2.len() implies #[trigger] l2[k].qualities.max_num_out
                    != l2[k - 1].qualities.max_num_out by {
                    assert(l2[k] == l[k] && l2[k - 1] == l[k - 1]);
                }
                lemma_dedup_from_distinct(l2, i);
            } else {
                let l2 = l.remove(i - 1);
                assert forall|k: int| 1 <= k < i && k < l2.len() implies #[trigger] l2[k].qualities.max_num_out
                    != l2[k - 1].qualities.max_num_out by {
                    if k < i - 1 {
                        assert(l2[k] == l[k] && l2[k - 1] == l[k - 1]);
                    } else {
                        assert(l2[k] == l[i] && l2[k - 1] == l[k - 1]);
                        assert(l[k].qualities.max_num_out != l[k - 1].qualities.max_num_out);
                    }
                }
                lemma_dedup_from_distinct(l2, i);
            }
        } else {
            lemma_dedup_from_distinct(l, i + 1);
        }
    }
}

/// After `best` reduces a list of best steps, neighbouring steps always
/// differ in their number of ships out.
pub proof fn lemma_dedup_distinct_neighbours(l: Seq<PathStep>)
    ensures
        distinct_neighbours(dedup_by_max_out(l), dedup_by_max_out(l).len() as int),
{
    lemma_dedup_from_distinct(l, 1);
}

/// `r` holds a step with the same number of ships out as `s` and at least its mass.
pub open spec fn has_heavier_same_floor(r: Seq<PathStep>, s: PathStep) -> bool {
    exists|k: int|
        0 <= k < r.len() && (#[trigger] r[k]).qualities.max_num_out == s.qualities.max_num_out
            && spec_step_mass(r[k]) >= spec_step_mass(s)
}

/// Removing a step keeps a list in order of ships out.
proof fn lemma_remove_keeps_sorted(l: Seq<PathStep>, gone: int)
    requires
        0 <= gone < l.len(),
        sorted_by_max_out(l),
    ensures
        sorted_by_max_out(l.remove(gone)),
{
    let l2 = l.remove(gone);
    assert forall|a: int, b: int|
        0 <= a < b < l2.len() implies #[trigger] l2[a].qualities.max_num_out
        <= #[trigger] l2[b].qualities.max_num_out by {
        let a0 = if a < gone { a } else { a + 1 };
        let b0 = if b < gone { b } else { b + 1 };
        assert(l2[a] == l[a0] && l2[b] == l[b0]);
    }
}

/// Where the step at position `j` (other than `gone`) lands once the step at
/// position `gone` is removed.
pub open spec fn index_after_remove(j: int, gone: int) -> int {
    if j < gone {
        j
    } else {
        j - 1
    }
}

#[verifier::spinoff_prover]
proof fn lemma_dedup_from_sorted(l: Seq<PathStep>, i: int)
    requires
        1 <= i,
        sorted_by_max_out(l),
    ensures
        sorted_by_max_out(dedup_from(l, i)),
    decreases 2 * l.len() - i,
{
    if 1 <= i < l.len() {
        if l[i - 1].qualities.max_num_out == l[i].qualities.max_num_out {
            let gone = if spec_step_mass(l[i - 1]) >= spec_step_mass(l[i]) { i } else { i - 1 };
            lemma_remove_keeps_sorted(l, gone);
            lemma_dedup_from_sorted(l.remove(gone), i);
        } else {
            lemma_dedup_from_sorted(l, i + 1);
        }
    }
}

#[verifier::spinoff_prover]
proof fn lemma_dedup_from_members(l: Seq<PathStep>, i: int)
    requires
        1 <= i,
    ensures
        forall|k: int| 0 <= k < dedup_from(l, i).len() ==> l.contains(#[trigger] dedup_from(l, i)[k]),
    decreases 2 * l.len() - i,
{
    let r = dedup_from(l, i);
    if 1 <= i < l.len() {
        if l[i - 1].qualities.max_num_out == l[i].qualities.max_num_out {
            let gone = if spec_step_mass(l[i - 1]) >= spec_step_mass(l[i]) { i } else { i - 1 };
            let l2 = l.remove(gone);
            assert(r == dedup_from(l2, i));
            lemma_dedup_from_members(l2, i);
            assert forall|k: int| 0 <= k < r.len() implies l.contains(#[trigger] r[k]) by {
                assert(l2.contains(r[k]));
                let j = choose|j: int| 0 <= j < l2.len() && l2[j] == r[k];
                let j0 = if j < gone { j } else { j + 1 };
                assert(l[j0] == l2[j]);
            }
        } else {
            assert(r == dedup_from(l, i + 1));
            lemma_dedup_from_members(l, i + 1);
        }
    } else {
        assert(r == l);
        assert forall|k: int| 0 <= k < r.len() implies l.contains(#[trigger] r[k]) by {
            assert(r[k] == l[k]);
        }
    }
}

#[verifier::spinoff_prover]
proof fn lemma_dedup_from_covers(l: Seq<PathStep>, i: int)
    requires
        1 <= i,
    ensures
        forall|j: int| 0 <= j < l.len() ==> has_heavier_same_floor(dedup_from(l, i), #[trigger] l[j]),
    decreases 2 * l.len() - i,
{
    let r = dedup_from(l, i);
    if 1 <= i < l.len() {
        if l[i - 1].qualities.max_num_out == l[i].qualities.max_num_out {
            // The lighter of the two neighbours goes; the other stands for it.
            let heavier_first = spec_step_mass(l[i - 1]) >= spec_step_mass(l[i]);
            let gone = if heavier_first { i } else { i - 1 };
            let keeper = if heavier_first { i - 1 } else { i };
            let l2 = l.remove(gone);
            assert(r == dedup_from(l2, i));
            lemma_dedup_from_covers(l2, i);
            let kept_at = index_after_remove(keeper, gone);
            assert(l2[kept_at] == l[keeper]);
            assert forall|j: int| 0 <= j < l.len() implies has_heavier_same_floor(r, #[trigger] l[j]) by {
                if j == gone {
                    assert(has_heavier_same_floor(r, l2[kept_at]));
                } else {
                    let j2 = index_after_remove(j, gone);
                    assert(l2[j2] == l[j]);
                    assert(has_heavier_same_floor(r, l2[j2]));
                }
            }
        } else {
            lemma_dedup_from_covers(l, i + 1);
        }
    } else {
        assert forall|j: int| 0 <= j < l.len() implies has_heavier_same_floor(r, #[trigger] l[j]) by {
            assert(r[j] == l[j]);
        }
    }
}

/// Of a list in order of ships out, the reduction `best` makes keeps, for
/// each number of ships out in the list, one step: one of the list's steps,
/// with that number of ships out and the highest mass among them; the steps
/// kept have strictly increasing numbers of ships out.
pub proof fn lemma_dedup_one_heaviest_per_floor(l: Seq<PathStep>)
    requires
        sorted_by_max_out(l),
    ensures
        forall|a: int, b: int|
            0 <= a < b < dedup_by_max_out(l).len() ==> #[trigger] dedup_by_max_out(l)[a].qualities.max_num_out
                < #[trigger] dedup_by_max_out(l)[b].qualities.max_num_out,
        forall|k: int| 0 <= k < dedup_by_max_out(l).len() ==> l.contains(#[trigger] dedup_by_max_out(l)[k]),
        forall|j: int| 0 <= j < l.len() ==> has_heavier_same_floor(dedup_by_max_out(l), #[trigger] l[j]),
{
    lemma_dedup_from_sorted(l, 1);
    lemma_dedup_from_members(l, 1);
    lemma_dedup_from_covers(l, 1);
    lemma_dedup_from_distinct(l, 1);
    lemma_sorted_distinct_strict(dedup_by_max_out(l));
}

/// In order of ships out with no two neighbours equal, the numbers of ships
/// out strictly increase.
proof fn lemma_sorted_distinct_strict(r: Seq<PathStep>)
    requires
        sorted_by_max_out(r),
        distinct_neighbours(r, r.len() as int),
    ensures
        forall|a: int, b: int|
            0 <= a < b < r.len() ==> #[trigger] r[a].qualities.max_num_out
                < #[trigger] r[b].qualities.max_num_out,
{
    assert forall|a: int, b: int|
        0 <= a < b < r.len() implies #[trigger] r[a].qualities.max_num_out < #[trigger] r[
        b].qualities.max_num_out by {
        assert(r[b].qualities.max_num_out != r[b - 1].qualities.max_num_out);
        if a < b - 1 {
            assert(r[a].qualities.max_num_out <= r[b - 1].qualities.max_num_out);
        }
        assert(r[b - 1].qualities.max_num_out <= r[b].qualities.max_num_out);
    }
}

proof fn lemma_combos_splits_from(lists: Seq<Seq<PathStep>>, highest: int, i: int, h: Seq<int>)
    requires
        0 <= i,
        highest <= 0xffff,
    ensures
        combos_from(lists, highest, i, h).len() == splits_from(lists, highest, i, h).len(),
        forall|a: int|
            0 <= a < splits_from(lists, highest, i, h).len() ==> i <= #[trigger] splits_from(
                lists,
                highest,
                i,
                h,
            )[a] <= highest,
        forall|a: int, b: int|
            0 <= a < b < splits_from(lists, highest, i, h).len() ==> #[trigger] splits_from(
                lists,
                highest,
                i,
                h,
            )[a] < #[trigger] splits_from(lists, highest, i, h)[b],
    decreases highest + 1 - i,
{
    if i <= highest {
        let h2 = next_positions(lists, i, h);
        lemma_combos_splits_from(lists, highest, i + 1, h2);
        let rest = splits_from(lists, highest, i + 1, h2);
        if h2 != h {
            let all = seq![i as usize] + rest;
            assert(splits_from(lists, highest, i, h) == all);
            assert forall|a: int| 0 <= a < all.len() implies i <= #[trigger] all[a] <= highest by {
                if a > 0 {
                    assert(all[a] == rest[a - 1]);
                }
            }
            assert forall|a: int, b: int| 0 <= a < b < all.len() implies #[trigger] all[a] < #[trigger] all[b] by {
                assert(all[b] == rest[b - 1]);
                if a > 0 {
                    assert(all[a] == rest[a - 1]);
                }
            }
        }
    }
}

/// The numbers of ships out strictly increase along `l`.
pub open spec fn strictly_increasing(l: Seq<PathStep>) -> bool {
    forall|a: int, b: int|
        0 <= a < b < l.len() ==> #[trigger] l[a].qualities.max_num_out < #[trigger] l[b].qualities.max_num_out
}

/// Position `p` of `l` is the step for floor `f`: the last step with at most
/// `f` ships out, or the first step when none has (0 for an empty list).
pub open spec fn position_for_floor(l: Seq<PathStep>, f: int, p: int) -> bool {
    &&& (if l.len() == 0 { p == 0 } else { 0 <= p < l.len() })
    &&& (p == 0 || l[p].qualities.max_num_out <= f)
    &&& forall|k: int| p < k < l.len() ==> f < #[trigger] l[k].qualities.max_num_out
}

/// `p` holds the positions for floor `f` in each of the three lists.
pub open spec fn positions_for_floor(lists: Seq<Seq<PathStep>>, f: int, p: Seq<int>) -> bool {
    &&& p.len() == 3
    &&& position_for_floor(lists[0], f, p[0])
    &&& position_for_floor(lists[1], f, p[1])
    &&& position_for_floor(lists[2], f, p[2])
}

/// Floor `f` falls to option `a` of a list of options split at `splits`:
/// at least the split before it (or `start` for the first option) and below
/// the split after it (or at most `highest` for the last option).
pub open spec fn floor_in_option(splits: Seq<usize>, start: int, highest: int, a: int, f: int) -> bool {
    &&& 0 <= a <= splits.len()
    &&& (if a == 0 {
        start <= f
    } else {
        splits[a - 1] <= f
    })
    &&& (if a < splits.len() {
        f < splits[a]
    } else {
        f <= highest
    })
}

/// A floor has one position per list.
proof fn lemma_position_for_floor_unique(l: Seq<PathStep>, f: int, p: int, q: int)
    requires
        position_for_floor(l, f, p),
        position_for_floor(l, f, q),
    ensures
        p == q,
{
    if p < q {
        assert(f < l[q].qualities.max_num_out);
    } else if q < p {
        assert(f < l[p].qualities.max_num_out);
    }
}

/// Moving on to the next floor moves each position at most one step, as
/// `advanced` does, in a list whose numbers of ships out strictly increase.
proof fn lemma_advanced_for_floor(lists: Seq<Seq<PathStep>>, i: int, h: Seq<int>, j: int)
    requires
        0 <= j < 3,
        h.len() == 3,
        strictly_increasing(lists[j]),
        position_for_floor(lists[j], i - 1, h[j]),
    ensures
        position_for_floor(lists[j], i, advanced(lists, i, h, j)),
{
    let l = lists[j];
    let p = h[j];
    if p + 1 < l.len() && l[p + 1].qualities.max_num_out <= i {
        assert(i - 1 < l[p + 1].qualities.max_num_out);
        assert forall|k: int| p + 1 < k < l.len() implies i < #[trigger] l[k].qualities.max_num_out by {
            assert(l[p + 1].qualities.max_num_out < l[k].qualities.max_num_out);
        }
    } else {
        assert forall|k: int| p < k < l.len() implies i < #[trigger] l[k].qualities.max_num_out by {
            if k > p + 1 {
                assert(l[p + 1].qualities.max_num_out < l[k].qualities.max_num_out);
            }
        }
    }
}

#[verifier::spinoff_prover]
proof fn lemma_combos_by_floor(lists: Seq<Seq<PathStep>>, highest: int, i: int, h: Seq<int>, prev: int)
    requires
        lists.len() == 3,
        0 <= i,
        prev == i - 1,
        highest <= 0xffff,
        strictly_increasing(lists[0]),
        strictly_increasing(lists[1]),
        strictly_increasing(lists[2]),
        positions_for_floor(lists, prev, h),
    ensures
        ({
            let options = seq![combo(lists, h)] + combos_from(lists, highest, i, h);
            let splits = splits_from(lists, highest, i, h);
            forall|a: int, f: int, p: Seq<int>|
                #![trigger floor_in_option(splits, prev, highest, a, f), positions_for_floor(lists, f, p)]
                floor_in_option(splits, prev, highest, a, f) && positions_for_floor(lists, f, p)
                    ==> options[a] == combo(lists, p)
        }),
    decreases highest + 1 - i,
{
    let options = seq![combo(lists, h)] + combos_from(lists, highest, i, h);
    let splits = splits_from(lists, highest, i, h);
    lemma_combos_splits_from(lists, highest, i, h);
    if i > highest {
        assert forall|a: int, f: int, p: Seq<int>|
            floor_in_option(splits, prev, highest, a, f) && positions_for_floor(lists, f, p)
            implies options[a] == combo(lists, p) by {
            assert(f == i - 1);
            lemma_position_for_floor_unique(lists[0], f, p[0], h[0]);
            lemma_position_for_floor_unique(lists[1], f, p[1], h[1]);
            lemma_position_for_floor_unique(lists[2], f, p[2], h[2]);
            assert(p =~= h);
        }
    } else {
        let h2 = next_positions(lists, i, h);
        lemma_advanced_for_floor(lists, i, h, 0);
        lemma_advanced_for_floor(lists, i, h, 1);
        lemma_advanced_for_floor(lists, i, h, 2);
        assert(positions_for_floor(lists, i, h2));
        lemma_combos_by_floor(lists, highest, i + 1, h2, i);
        lemma_combos_splits_from(lists, highest, i + 1, h2);
        let options2 = seq![combo(lists, h2)] + combos_from(lists, highest, i + 1, h2);
        let splits2 = splits_from(lists, highest, i + 1, h2);
        assert forall|a: int, f: int, p: Seq<int>|
            floor_in_option(splits, prev, highest, a, f) && positions_for_floor(lists, f, p)
            implies options[a] == combo(lists, p) by {
            if f == i - 1 {
                lemma_position_for_floor_unique(lists[0], f, p[0], h[0]);
                lemma_position_for_floor_unique(lists[1], f, p[1], h[1]);
                lemma_position_for_floor_unique(lists[2], f, p[2], h[2]);
                assert(p =~= h);
                if a > 0 {
                    assert(splits[a - 1] >= i);
                }
            } else if h2 == h {
                assert(splits == splits2);
                assert(options == options2);
                assert(floor_in_option(splits2, i, highest, a, f));
            } else {
                assert(splits == seq![i as usize] + splits2);
                assert(options == seq![combo(lists, h)] + options2);
                if a == 0 {
                    assert(splits[0] == i);
                } else {
                    assert(options[a] == options2[a - 1]);
                    if a > 1 {
                        assert(splits[a - 1] == splits2[a - 2]);
                    }
                    if a < splits.len() {
                        assert(splits[a] == splits2[a - 1]);
                    }
                    assert(floor_in_option(splits2, i, highest, a - 1, f));
                }
            }
        }
    }
}

/// Each option of `best` is, for every floor it covers, the combination of
/// the last step within the floor of each list (or its first step when none
/// is within it), for lists whose numbers of ships out strictly increase (as
/// `best`'s reduced lists do when the picker's lists are in order of ships
/// out): option 0 covers the floors below the first split, option `a` those
/// from split `a - 1` to below the next split, or up to `highest`.
pub proof fn lemma_best_option_per_floor(lists: Seq<Seq<PathStep>>, highest: int)
    requires
        lists.len() == 3,
        highest <= 0xffff,
        strictly_increasing(lists[0]),
        strictly_increasing(lists[1]),
        strictly_increasing(lists[2]),
    ensures
        ({
            let options = seq![combo(lists, seq![0int, 0int, 0int])] + combos_from(
                lists,
                highest,
                0,
                seq![0int, 0int, 0int],
            );
            let splits = splits_from(lists, highest, 0, seq![0int, 0int, 0int]);
            forall|a: int, f: int, p: Seq<int>|
                #![trigger floor_in_option(splits, 0, highest, a, f), positions_for_floor(lists, f, p)]
                floor_in_option(splits, 0, highest, a, f) && positions_for_floor(lists, f, p)
                    ==> options[a] == combo(lists, p)
        }),
{
    let h = seq![0int, 0int, 0int];
    assert(positions_for_floor(lists, -1, h));
    lemma_combos_by_floor(lists, highest, 0, h, -1);
    let splits = splits_from(lists, highest, 0, h);
    assert forall|a: int, f: int, p: Seq<int>|
        floor_in_option(splits, 0, highest, a, f) && positions_for_floor(lists, f, p)
        implies floor_in_option(splits, -1, highest, a, f) by {}
}

/// A running maximum of numbers of ships out fits in a `u16`.
proof fn lemma_running_max_bound(prev: Option<int>, l: Seq<PathStep>, n: int)
    requires
        prev matches Some(p) ==> p <= 0xffff,
        n <= l.len(),
    ensures
        running_max(prev, l, n) matches Some(m) ==> m <= 0xffff,
    decreases n,
{
    if n > 0 {
        lemma_running_max_bound(prev, l, n - 1);
    }
}

/// For a picker whose lists are in order of ships out (as `new` and
/// `suggest` keep them), the options that `best` returns are, floor by
/// floor, for each state the last step of its reduced list within the floor
/// (or its first step when none is): option 0 for the floors below the first
/// split, option `a` from split `a - 1` to below the next split, or up to the
/// highest number of ships out.
#[verifier::spinoff_prover]
pub proof fn lemma_picker_best_per_floor(picker: PathPicker)
    requires
        sorted_by_max_out(picker.paths(0)),
        sorted_by_max_out(picker.paths(1)),
        sorted_by_max_out(picker.paths(2)),
    ensures
        ({
            let lists = seq![
                dedup_by_max_out(picker.paths(0)),
                dedup_by_max_out(picker.paths(1)),
                dedup_by_max_out(picker.paths(2)),
            ];
            &&& strictly_increasing(lists[0])
            &&& strictly_increasing(lists[1])
            &&& strictly_increasing(lists[2])
            &&& highest_max_out(lists) matches Some(highest) ==> {
                let options = seq![combo(lists, seq![0int, 0int, 0int])] + combos_from(
                    lists,
                    highest,
                    0,
                    seq![0int, 0int, 0int],
                );
                let splits = splits_from(lists, highest, 0, seq![0int, 0int, 0int]);
                &&& highest <= 0xffff
                &&& options.len() == splits.len() + 1
                &&& forall|a: int| 0 <= a < splits.len() ==> 0 <= #[trigger] splits[a] <= highest
                &&& forall|a: int, b: int|
                    0 <= a < b < splits.len() ==> #[trigger] splits[a] < #[trigger] splits[b]
                &&& forall|a: int, f: int, p: Seq<int>|
                    #![trigger floor_in_option(splits, 0, highest, a, f), positions_for_floor(lists, f, p)]
                    floor_in_option(splits, 0, highest, a, f) && positions_for_floor(lists, f, p)
                        ==> options[a] == combo(lists, p)
            }
        }),
{
    let lists = seq![
        dedup_by_max_out(picker.paths(0)),
        dedup_by_max_out(picker.paths(1)),
        dedup_by_max_out(picker.paths(2)),
    ];
    lemma_dedup_one_heaviest_per_floor(picker.paths(0));
    lemma_dedup_one_heaviest_per_floor(picker.paths(1));
    lemma_dedup_one_heaviest_per_floor(picker.paths(2));
    assert(strictly_increasing(lists[0]));
    assert(strictly_increasing(lists[1]));
    assert(strictly_increasing(lists[2]));
    lemma_running_max_bound(None, lists[0], lists[0].len() as int);
    let m0 = running_max(None, lists[0], lists[0].len() as int);
    lemma_running_max_bound(m0, lists[1], lists[1].len() as int);
    let m1 = running_max(m0, lists[1], lists[1].len() as int);
    lemma_running_max_bound(m1, lists[2], lists[2].len() as int);
    if let Some(highest) = highest_max_out(lists) {
        lemma_best_option_per_floor(lists, highest);
        lemma_best_options_shape(lists, highest);
    }
}

/// A running maximum of numbers of ships out is at least every number it has
/// seen, and there is one exactly when it has seen any.
proof fn lemma_running_max_covers(prev: Option<int>, l: Seq<PathStep>, n: int)
    requires
        0 <= n <= l.len(),
    ensures
        running_max(prev, l, n) is None <==> (prev is None && n == 0),
        running_max(prev, l, n) matches Some(m) ==> (forall|k: int|
            0 <= k < n ==> (#[trigger] l[k]).qualities.max_num_out <= m),
        running_max(prev, l, n) matches Some(m) ==> (prev matches Some(q) ==> q <= m),
    decreases n,
{
    if n > 0 {
        lemma_running_max_covers(prev, l, n - 1);
    }
}

/// The highest floor of the three lists is at least the number of ships out
/// of every step of each of them (crit, shrink and full), and there is one
/// exactly when some list holds a step.
pub proof fn lemma_highest_covers_all_lists(lists: Seq<Seq<PathStep>>)
    requires
        lists.len() == 3,
    ensures
        highest_max_out(lists) is None <==> (lists[0].len() == 0 && lists[1].len() == 0 && lists[2].len()
            == 0),
        highest_max_out(lists) matches Some(h) ==> (forall|j: int, k: int|
            0 <= j < 3 && 0 <= k < lists[j].len() ==> (#[trigger] lists[j][k]).qualities.max_num_out <= h),
{
    let m0 = running_max(None, lists[0], lists[0].len() as int);
    let m1 = running_max(m0, lists[1], lists[1].len() as int);
    lemma_running_max_covers(None, lists[0], lists[0].len() as int);
    lemma_running_max_covers(m0, lists[1], lists[1].len() as int);
    lemma_running_max_covers(m1, lists[2], lists[2].len() as int);
    if let Some(h) = highest_max_out(lists) {
        assert forall|j: int, k: int| 0 <= j < 3 && 0 <= k < lists[j].len() implies (
        #[trigger] lists[j][k]).qualities.max_num_out <= h by {
            if j == 0 {
                assert(lists[0][k].qualities.max_num_out <= m0->0);
            } else if j == 1 {
                assert(lists[1][k].qualities.max_num_out <= m1->0);
            }
        }
    }
}

/// One past the last of the first `n` splits at or below floor `f`.
pub open spec fn splits_up_to(splits: Seq<usize>, f: int, n: int) -> int
    decreases n,
{
    if n <= 0 {
        0
    } else if splits[n - 1] <= f {
        n
    } else {
        splits_up_to(splits, f, n - 1)
    }
}

proof fn lemma_splits_up_to_shape(splits: Seq<usize>, f: int, n: int)
    requires
        0 <= n <= splits.len(),
        forall|a: int, b: int| 0 <= a < b < splits.len() ==> #[trigger] splits[a] < #[trigger] splits[b],
    ensures
        0 <= splits_up_to(splits, f, n) <= n,
        forall|k: int| 0 <= k < splits_up_to(splits, f, n) ==> #[trigger] splits[k] <= f,
        forall|k: int| splits_up_to(splits, f, n) <= k < n ==> f < #[trigger] splits[k],
    decreases n,
{
    if n > 0 {
        lemma_splits_up_to_shape(splits, f, n - 1);
        if splits[n - 1] <= f {
            assert forall|k: int| 0 <= k < n implies #[trigger] splits[k] <= f by {
                if k < n - 1 {
                    assert(splits[k] < splits[n - 1]);
                }
            }
        }
    }
}

/// In a list whose numbers of ships out strictly increase, every floor has a position.
proof fn lemma_position_exists(l: Seq<PathStep>, f: int) -> (p: int)
    requires
        strictly_increasing(l),
        0 <= f <= 0xffff,
    ensures
        position_for_floor(l, f, p),
{
    let keys = QualityKeys { max_num_out: f as u16, roll_out_probability: 0, average_num_passes: 0 };
    assert(keys.max_num_out == f);
    assert(sorted_by_max_out(l)) by {
        assert forall|a: int, b: int| 0 <= a < b < l.len() implies #[trigger] l[a].qualities.max_num_out
            <= #[trigger] l[b].qualities.max_num_out by {}
    }
    let n = l.len() as int;
    lemma_append_position_shape(l, keys, n);
    let ap = append_position(l, keys, n);
    let p = if ap > 0 { ap - 1 } else { 0 };
    assert forall|k: int| p < k < l.len() implies f < #[trigger] l[k].qualities.max_num_out by {
        assert(ap <= k);
    }
    p
}

/// Given options per floor as `best` makes them, every step of each list has
/// an option at its own number of ships out, in which it is the step for its
/// state.
pub proof fn lemma_every_step_has_its_floor(
    lists: Seq<Seq<PathStep>>,
    highest: int,
    options: Seq<Seq<Option<PathStep>>>,
    splits: Seq<usize>,
)
    requires
        lists.len() == 3,
        strictly_increasing(lists[0]),
        strictly_increasing(lists[1]),
        strictly_increasing(lists[2]),
        highest <= 0xffff,
        forall|j: int, k: int|
            0 <= j < 3 && 0 <= k < lists[j].len() ==> (#[trigger] lists[j][k]).qualities.max_num_out <= highest,
        options.len() == splits.len() + 1,
        forall|a: int, b: int| 0 <= a < b < splits.len() ==> #[trigger] splits[a] < #[trigger] splits[b],
        forall|a: int, f: int, p: Seq<int>|
            #![trigger floor_in_option(splits, 0, highest, a, f), positions_for_floor(lists, f, p)]
            floor_in_option(splits, 0, highest, a, f) && positions_for_floor(lists, f, p) ==> options[a]
                == combo(lists, p),
    ensures
        forall|j: int, k: int|
            0 <= j < 3 && 0 <= k < lists[j].len() ==> exists|a: int|
                0 <= a < options.len() && option_covers_floor(
                    splits,
                    a,
                    (#[trigger] lists[j][k]).qualities.max_num_out as int,
                ) && options[a][j] == Some(lists[j][k]),
{
    assert forall|j: int, k: int| 0 <= j < 3 && 0 <= k < lists[j].len() implies exists|a: int|
        0 <= a < options.len() && option_covers_floor(
            splits,
            a,
            (#[trigger] lists[j][k]).qualities.max_num_out as int,
        ) && options[a][j] == Some(lists[j][k]) by {
        let step = lists[j][k];
        let f = step.qualities.max_num_out as int;
        let l = lists[j];
        assert forall|k2: int| k < k2 < l.len() implies f < #[trigger] l[k2].qualities.max_num_out by {
            assert(l[k].qualities.max_num_out < l[k2].qualities.max_num_out);
        }
        assert(position_for_floor(l, f, k));
        let q0 = lemma_position_exists(lists[0], f);
        let q1 = lemma_position_exists(lists[1], f);
        let q2 = lemma_position_exists(lists[2], f);
        let p = seq![
            if j == 0 { k } else { q0 },
            if j == 1 { k } else { q1 },
            if j == 2 { k } else { q2 },
        ];
        assert(positions_for_floor(lists, f, p));
        lemma_splits_up_to_shape(splits, f, splits.len() as int);
        let a = splits_up_to(splits, f, splits.len() as int);
        if a > 0 {
            assert(splits[a - 1] <= f);
        }
        if a < splits.len() {
            assert(f < splits[a]);
        }
        assert(floor_in_option(splits, 0, highest, a, f));
        assert(options[a] == combo(lists, p));
        assert(combo(lists, p)[j] == step_at(lists[j], p[j]));
        assert(option_covers_floor(splits, a, f));
    }
}

/// The options of `best` come one per floor: one more combination of steps
/// than splits, and the splits are increasing floors, each at most the
/// highest number of ships out.
pub proof fn lemma_best_options_shape(lists: Seq<Seq<PathStep>>, highest: int)
    requires
        highest <= 0xffff,
    ensures
        ({
            let combos = seq![combo(lists, seq![0int, 0int, 0int])] + combos_from(
                lists,
                highest,
                0,
                seq![0int, 0int, 0int],
            );
            let splits = splits_from(lists, highest, 0, seq![0int, 0int, 0int]);
            &&& combos.len() == splits.len() + 1
            &&& forall|a: int| 0 <= a < splits.len() ==> 0 <= #[trigger] splits[a] <= highest
            &&& forall|a: int, b: int|
                0 <= a < b < splits.len() ==> #[trigger] splits[a] < #[trigger] splits[b]
        }),
{
    lemma_combos_splits_from(lists, highest, 0, seq![0int, 0int, 0int]);
}

proof fn lemma_advanced_within_floor(lists: Seq<Seq<PathStep>>, i: int, h: Seq<int>, j: int)
    requires
        0 <= j < 3,
        h[j] == 0 || (0 < h[j] < lists[j].len() && lists[j][h[j]].qualities.max_num_out < i),
    ensures
        ({
            let a = advanced(lists, i, h, j);
            a == 0 || (0 < a < lists[j].len() && lists[j][a].qualities.max_num_out < i + 1)
        }),
{
}

proof fn lemma_combos_within_floor(lists: Seq<Seq<PathStep>>, highest: int, i: int, h: Seq<int>)
    requires
        0 <= i,
        highest <= 0xffff,
        lists.len() == 3,
        h.len() == 3,
        forall|j: int|
            0 <= j < 3 ==> #[trigger] h[j] == 0 || (0 < h[j] < lists[j].len()
                && lists[j][h[j]].qualities.max_num_out < i),
    ensures
        ({
            let combos = combos_from(lists, highest, i, h);
            let splits = splits_from(lists, highest, i, h);
            forall|a: int, j: int|
                0 <= a < combos.len() && 0 <= j < 3 ==> (#[trigger] combos[a][j] matches Some(s)
                    ==> s == lists[j][0] || s.qualities.max_num_out <= splits[a])
        }),
    decreases highest + 1 - i,
{
    if i <= highest {
        let h2 = next_positions(lists, i, h);
        assert forall|j: int|
            0 <= j < 3 implies #[trigger] h2[j] == 0 || (0 < h2[j] < lists[j].len()
                && lists[j][h2[j]].qualities.max_num_out < i + 1) by {
            lemma_advanced_within_floor(lists, i, h, j);
            if j == 0 {
                assert(h2[0] == advanced(lists, i, h, 0));
            } else if j == 1 {
                assert(h2[1] == advanced(lists, i, h, 1));
            } else {
                assert(h2[2] == advanced(lists, i, h, 2));
            }
        }
        lemma_combos_within_floor(lists, highest, i + 1, h2);
        lemma_combos_splits_from(lists, highest, i + 1, h2);
        let combos = combos_from(lists, highest, i, h);
        let splits = splits_from(lists, highest, i, h);
        let rc = combos_from(lists, highest, i + 1, h2);
        let rs = splits_from(lists, highest, i + 1, h2);
        if h2 != h {
            assert(combos == seq![combo(lists, h2)] + rc);
            assert(splits == seq![i as usize] + rs);
            assert forall|a: int, j: int|
                0 <= a < combos.len() && 0 <= j < 3 implies (#[trigger] combos[a][j] matches Some(s)
                ==> s == lists[j][0] || s.qualities.max_num_out <= splits[a]) by {
                if a == 0 {
                    assert(h2[j] == advanced(lists, i, h, j));
                    if combos[a][j] is Some && h2[j] != 0 {
                        assert(combos[a][j] == step_at(lists[j], h2[j]));
                        assert(splits[a] == i);
                    }
                } else {
                    assert(combos[a] == rc[a - 1]);
                    assert(splits[a] == rs[a - 1]);
                }
            }
        }
    }
}

/// Each option of `best` only uses, for its floor, steps within that floor:
/// the step kept for a state is the first of its list or has at most as many
/// ships out as the floor at which the option starts.
pub proof fn lemma_best_options_within_floor(lists: Seq<Seq<PathStep>>, highest: int)
    requires
        lists.len() == 3,
        highest <= 0xffff,
    ensures
        ({
            let combos = combos_from(lists, highest, 0, seq![0int, 0int, 0int]);
            let splits = splits_from(lists, highest, 0, seq![0int, 0int, 0int]);
            forall|a: int, j: int|
                0 <= a < combos.len() && 0 <= j < 3 ==> (#[trigger] combos[a][j] matches Some(s)
                    ==> s == lists[j][0] || s.qualities.max_num_out <= splits[a])
        }),
{
    lemma_combos_within_floor(lists, highest, 0, seq![0int, 0int, 0int]);
}

/// The position of a hole state in the per-state arrays.
fn path_index(hole_state: HoleState) -> (r: usize)
    ensures
        r == state_index(hole_state),
        r < 3,
{
    match hole_state {
        HoleState::Crit => 0,
        HoleState::Shrink => 1,
        HoleState::Full => 2,
    }
}

} // verus!
