use std::cmp::Ordering;

use did_you_go_hot::best_path_picker::{option_per_floor, PathPicker, PathStep, Priorities, Quality, QualityKeys, step_mass};
use did_you_go_hot::chart_gen::{edge_addition, ConnectionPass, EdgeAddition, PassDecision};
use did_you_go_hot::hole_info::{empty_mr, kg, kgr, mr, HoleInfo, MassRange};
use did_you_go_hot::hole_plan_tester::{hole_state, order_out_then_in_then_largeest, HoleData, SimHoleState};
use did_you_go_hot::hole_sizes::HollSizes;
use did_you_go_hot::roll_calc::{
    crit_range, full_range, possible_states, shrink_range, update_max_range_from_crit,
    update_max_range_from_full, update_max_range_from_shrink,
};
use did_you_go_hot::roll_calc::roll_calc::{
    calc_possible_states, closed_range, extra_jumps_needed, get_best_plan_from_cached, get_steps,
    least_number_of_passes, max_num_out_over_next, max_single_jump_mass, minimum_quality_bounds, partition_is_computable, partition_state, quality_bounds_computable,
    AvailabileShips, Direction, HoleState, PassesBound, RollState, RollersUsed, RolloutChance,
    Ship, ShipState,
};

fn ships() -> Vec<AvailabileShips> {
    vec![
        AvailabileShips {
            ship: Ship { hot: 300, cold: 200 },
            max_num_out: 99,
            max_used: 3,
        },
        AvailabileShips {
            ship: Ship { hot: 126, cold: 26 },
            max_num_out: 99,
            max_used: 1,
        },
    ]
}

#[test]
fn rollers_used_counts_per_type() {
    let mut r = RollersUsed::new();
    for i in 0..8 {
        assert_eq!(r.get(i), 0);
    }
    assert!(!r.any_out());
    r.add(0);
    r.add(3);
    r.add(3);
    r.add(7);
    assert_eq!(r.get(0), 1);
    assert_eq!(r.get(3), 2);
    assert_eq!(r.get(7), 1);
    assert_eq!(r.get(1), 0);
    assert_eq!(r.num_rollers_out(), 4);
    assert!(r.any_out());
    r.sub(3);
    assert_eq!(r.get(3), 1);
    assert_eq!(r.num_rollers_out(), 3);
}

#[test]
fn rollers_used_sub_undoes_add() {
    let mut r = RollersUsed::new();
    r.add(2);
    let before = r;
    r.add(5);
    r.sub(5);
    assert_eq!(r, before);
}

#[test]
fn rollers_used_wraps_into_next_type() {
    let mut r = RollersUsed::new();
    for _ in 0..255 {
        r.add(1);
    }
    assert_eq!(r.get(1), 255);
    assert_eq!(r.num_rollers_out(), 255);
    r.add(1);
    assert_eq!(r.get(1), 0);
    assert_eq!(r.get(2), 1);
}

#[test]
fn mass_range_size_and_emptiness() {
    assert_eq!(mr(3, 7).size(), 5);
    assert_eq!(mr(4, 4).size(), 1);
    assert_eq!(mr(5, 4).size(), 0);
    assert_eq!(mr(9, 2).size(), 0);
    assert!(mr(1, 0).is_empty());
    assert!(!mr(0, 0).is_empty());
    assert_eq!(empty_mr(), MassRange { least: 1, most: 0 });
    assert!(empty_mr().is_empty());
    assert_eq!(mr(10, 20).sub(15), mr(-5, 5));
    assert_eq!(kg(42), 42);
    assert_eq!(kgr(mr(1, 2)), mr(1, 2));
}

#[test]
fn hole_info_ranges() {
    let hole = HoleInfo::from_kg(2_000_000_000);
    assert_eq!(hole.average_max_size, 2_000_000_000);
    assert_eq!(hole.max_range, mr(1_800_000_000, 2_200_000_000));
    assert_eq!(hole.full_mass_range(), mr(900_000_000, 2_200_000_000));
    assert_eq!(hole.shrink_mass_range(), mr(180_000_000, 1_099_999_999));
    assert_eq!(hole.crit_mass_range(), mr(1, 219_999_999));
    assert_eq!(hole.mass_range(HoleState::Full), hole.full_mass_range());
    assert_eq!(hole.mass_range(HoleState::Shrink), hole.shrink_mass_range());
    assert_eq!(hole.mass_range(HoleState::Crit), hole.crit_mass_range());
    let hole = HoleInfo::from_kg(3_300_000_000);
    assert_eq!(hole.max_range, mr(2_970_000_000, 3_630_000_000));
    // Division rounds towards zero, also for negative masses.
    let hole = HoleInfo::from_kg(-15);
    assert_eq!(hole.max_range, mr(-13, -16));
}

#[test]
fn possible_states_multiply_sizes() {
    assert_eq!(possible_states(mr(1, 10), mr(5, 6)), 20);
    assert_eq!(possible_states(mr(1, 0), mr(5, 6)), 0);
    assert_eq!(calc_possible_states(mr(0, 2), mr(0, 3)), 12);
    assert_eq!(closed_range(), mr(i64::MIN, 0));
}

#[test]
fn steps_from_one_ship_out() {
    let rollers = ships();
    let mut out = RollersUsed::new();
    out.add(0);
    let mut used = RollersUsed::new();
    used.add(0);
    let steps = get_steps(&rollers, &out, &used);
    assert_eq!(steps.len(), 6);

    let p = steps.get(0);
    assert_eq!((p.mass, p.direction, p.ship_state), (200, Direction::In, ShipState::Cold));
    assert_eq!(p.new_out_rollers, RollersUsed::new());
    assert_eq!(p.new_used_ships, used);
    let p = steps.get(1);
    assert_eq!((p.mass, p.direction, p.ship_state), (300, Direction::In, ShipState::Hot));

    let p = steps.get(2);
    assert_eq!((p.mass, p.direction, p.ship_state), (200, Direction::Out, ShipState::Cold));
    assert_eq!(p.new_out_rollers.get(0), 2);
    assert_eq!(p.new_used_ships.get(0), 2);
    let p = steps.get(3);
    assert_eq!((p.mass, p.direction, p.ship_state), (300, Direction::Out, ShipState::Hot));

    let p = steps.get(4);
    assert_eq!((p.mass, p.direction, p.ship_state), (26, Direction::Out, ShipState::Cold));
    assert_eq!(p.ship, Ship { hot: 126, cold: 26 });
    assert_eq!(p.new_out_rollers.get(0), 1);
    assert_eq!(p.new_out_rollers.get(1), 1);
    assert_eq!(p.new_used_ships.get(1), 1);
    let p = steps.get(5);
    assert_eq!((p.mass, p.direction, p.ship_state), (126, Direction::Out, ShipState::Hot));
}

#[test]
fn steps_respect_max_used() {
    let rollers = ships();
    let out = RollersUsed::new();
    let mut used = RollersUsed::new();
    used.add(1);
    let steps = get_steps(&rollers, &out, &used);
    // No ship is out to come back, and the second type is used up.
    assert_eq!(steps.len(), 2);
    assert_eq!(steps.get(0).ship, Ship { hot: 300, cold: 200 });
    assert_eq!(steps.get(1).ship, Ship { hot: 300, cold: 200 });
}

#[test]
fn partition_of_a_full_hole() {
    let hole = HoleInfo::from_kg(2_000_000_000);
    let state = RollState {
        remaining_mass: hole.full_mass_range(),
        rollers_out: RollersUsed::new(),
        max_size_range: hole.max_range,
        highest_hole_state: HoleState::Full,
        used_ships: RollersUsed::new(),
    };
    assert!(partition_is_computable(&state, None));
    let p = partition_state(&state, None);
    assert_eq!(p.mass_range_for_closed, mr(900_000_000, 0));
    assert_eq!(p.possible_closed_states, 0);
    assert!(p.mass_ranges[0].is_empty());
    assert_eq!(p.possible_states[0], 0);
    assert_eq!(p.mass_ranges[1], mr(900_000_000, 1_099_999_999));
    assert_eq!(p.new_max_ranges[1], mr(2_200_000_000, 2_200_000_000));
    assert_eq!(p.possible_states[1], 200_000_000);
    assert_eq!(p.mass_ranges[2], mr(900_000_000, 2_200_000_000));
    assert_eq!(p.new_max_ranges[2], mr(1_800_000_000, 2_200_000_000));
    assert_eq!(p.possible_states[2], 520_000_001_700_000_001);
    assert_eq!(p.all_possible_states, 520_000_001_900_000_001);
}

#[test]
fn partition_with_assumed_state() {
    let hole = HoleInfo::from_kg(2_000_000_000);
    let state = RollState {
        remaining_mass: hole.full_mass_range(),
        rollers_out: RollersUsed::new(),
        max_size_range: hole.max_range,
        highest_hole_state: HoleState::Full,
        used_ships: RollersUsed::new(),
    };
    let p = partition_state(&state, Some(HoleState::Full));
    assert!(p.mass_ranges[0].is_empty());
    assert!(p.mass_ranges[1].is_empty());
    assert_eq!(p.possible_states[1], 0);
    assert_eq!(p.all_possible_states, 520_000_001_700_000_001);

    // A hole that is already critical cannot show a shrunk or full state.
    let crit = RollState {
        remaining_mass: hole.full_mass_range(),
        rollers_out: RollersUsed::new(),
        max_size_range: hole.max_range,
        highest_hole_state: HoleState::Crit,
        used_ships: RollersUsed::new(),
    };
    let p = partition_state(&crit, None);
    assert_eq!(p.all_possible_states, 0);
}

#[test]
fn partition_refuses_overflow() {
    let state = RollState {
        remaining_mass: mr(i64::MIN, 5),
        rollers_out: RollersUsed::new(),
        max_size_range: mr(10, 20),
        highest_hole_state: HoleState::Full,
        used_ships: RollersUsed::new(),
    };
    assert!(!partition_is_computable(&state, None));
}

#[test]
fn quality_bounds_of_ships_out() {
    let rollers = ships();
    let mut out = RollersUsed::new();
    out.add(0);
    out.add(1);
    let state = RollState {
        remaining_mass: mr(100, 1_000),
        rollers_out: out,
        max_size_range: mr(2_000, 2_200),
        highest_hole_state: HoleState::Full,
        used_ships: out,
    };
    assert!(quality_bounds_computable(&rollers, &state));
    let b = minimum_quality_bounds(&rollers, &state);
    assert_eq!(b.max_num_out, 2);
    // The heaviest ship out (cold 200) may close the hole; the other needs 26.
    // 26 < 100 so no rollout is forced.
    assert_eq!(b.rollout, RolloutChance::Zero);
    // All back hot puts 426 through: not below 100.
    assert_eq!(b.passes, PassesBound::RollersOut);

    let state = RollState {
        remaining_mass: mr(10, 50),
        rollers_out: out,
        max_size_range: mr(2_000, 2_200),
        highest_hole_state: HoleState::Full,
        used_ships: out,
    };
    let b = minimum_quality_bounds(&rollers, &state);
    // 26 must pass and lies in [10, 50]: masses 10..=26 roll out.
    assert_eq!(
        b.rollout,
        RolloutChance::Partial {
            num_rollout_masses: 17,
            all_masses: 41
        }
    );

    let state = RollState {
        remaining_mass: mr(1, 20),
        rollers_out: out,
        max_size_range: mr(2_000, 2_200),
        highest_hole_state: HoleState::Full,
        used_ships: out,
    };
    assert_eq!(minimum_quality_bounds(&rollers, &state).rollout, RolloutChance::Certain);

    let state = RollState {
        remaining_mass: mr(1_000, 2_000),
        rollers_out: out,
        max_size_range: mr(2_000, 2_200),
        highest_hole_state: HoleState::Full,
        used_ships: out,
    };
    assert_eq!(
        minimum_quality_bounds(&rollers, &state).passes,
        PassesBound::RollersOutPlusDeficit { mass_deficit: 574 }
    );

    let none_out = RollState {
        remaining_mass: mr(0, 20),
        rollers_out: RollersUsed::new(),
        max_size_range: mr(2_000, 2_200),
        highest_hole_state: HoleState::Full,
        used_ships: RollersUsed::new(),
    };
    let b = minimum_quality_bounds(&rollers, &none_out);
    assert_eq!(b.max_num_out, 0);
    assert_eq!(b.rollout, RolloutChance::Zero);
    assert_eq!(b.passes, PassesBound::RollersOut);

    let open_none_out = RollState {
        remaining_mass: mr(5, 20),
        rollers_out: RollersUsed::new(),
        max_size_range: mr(2_000, 2_200),
        highest_hole_state: HoleState::Full,
        used_ships: RollersUsed::new(),
    };
    let b = minimum_quality_bounds(&rollers, &open_none_out);
    assert_eq!(b.passes, PassesBound::RollersOutPlusDeficit { mass_deficit: 5 });
}

#[test]
fn quality_bounds_refuse_overflow() {
    let rollers = vec![AvailabileShips {
        ship: Ship {
            hot: i64::MAX,
            cold: 1,
        },
        max_num_out: 99,
        max_used: 99,
    }];
    let mut out = RollersUsed::new();
    out.add(0);
    out.add(0);
    let state = RollState {
        remaining_mass: mr(1, 2),
        rollers_out: out,
        max_size_range: mr(2_000, 2_200),
        highest_hole_state: HoleState::Full,
        used_ships: out,
    };
    assert!(!quality_bounds_computable(&rollers, &state));
}

#[test]
fn best_cached_plan_by_floor() {
    let plans = ["a", "b", "c"];
    assert_eq!(*get_best_plan_from_cached(0, &plans), "a");
    assert_eq!(*get_best_plan_from_cached(1, &plans), "b");
    assert_eq!(*get_best_plan_from_cached(2, &plans), "c");
    assert_eq!(*get_best_plan_from_cached(9, &plans), "c");
}

#[test]
fn priorities_must_be_distinct() {
    assert!(Priorities::new([Quality::MaxOut, Quality::MaxOut, Quality::AvgNumPasses]).is_none());
    assert!(Priorities::new([Quality::MaxOut, Quality::ROProbability, Quality::MaxOut]).is_none());
    let p = Priorities::new([Quality::ROProbability, Quality::AvgNumPasses, Quality::MaxOut]).unwrap();
    assert_eq!(
        p.qualities(),
        [Quality::ROProbability, Quality::AvgNumPasses, Quality::MaxOut]
    );
}

fn step(id: usize, max_num_out: u16, ro: u64, passes: u64, cold: i64) -> PathStep {
    PathStep {
        id,
        qualities: QualityKeys {
            max_num_out,
            roll_out_probability: ro,
            average_num_passes: passes,
        },
        ship: Ship { hot: cold + 100, cold },
        ship_state: ShipState::Cold,
    }
}

#[test]
fn picker_keeps_the_best_by_priority() {
    let prios = Priorities::new([Quality::ROProbability, Quality::AvgNumPasses, Quality::MaxOut]).unwrap();
    let mut picker = PathPicker::new(&prios, [true, false, false]);
    picker.suggest(step(0, 1, 10, 5, 1), HoleState::Crit);
    // Equal chances, fewer ships out: replaces the first.
    picker.suggest(step(1, 0, 10, 5, 1), HoleState::Crit);
    // Lower rollout chance: strictly better.
    picker.suggest(step(2, 2, 5, 5, 1), HoleState::Crit);
    // Higher rollout chance: strictly worse, dropped.
    picker.suggest(step(3, 0, 6, 1, 1), HoleState::Crit);
    let best = picker.best();
    assert_eq!(best.splits, Vec::<usize>::new());
    assert_eq!(best.best_paths.len(), 1);
    assert_eq!(best.best_paths[0][0].unwrap().id, 2);
    assert!(best.best_paths[0][1].is_none());
    assert!(best.best_paths[0][2].is_none());
}

#[test]
fn picker_keeps_options_per_floor() {
    let prios = Priorities::new([Quality::MaxOut, Quality::ROProbability, Quality::AvgNumPasses]).unwrap();
    let mut picker = PathPicker::new(&prios, [true, false, false]);
    picker.suggest(step(0, 3, 1, 1, 1), HoleState::Crit);
    // Fewer ships out but a higher rollout chance: kept beside the first.
    picker.suggest(step(1, 1, 5, 1, 1), HoleState::Crit);
    let best = picker.best();
    assert_eq!(best.splits, vec![3]);
    assert_eq!(best.best_paths.len(), 2);
    assert_eq!(best.best_paths[0][0].unwrap().id, 1);
    assert_eq!(best.best_paths[1][0].unwrap().id, 0);
}

#[test]
fn picker_keeps_heaviest_of_equal_floor() {
    let prios = Priorities::new([Quality::ROProbability, Quality::AvgNumPasses, Quality::MaxOut]).unwrap();
    // The shrink state matters but has no candidate: no full information yet.
    let mut picker = PathPicker::new(&prios, [true, true, false]);
    picker.suggest(step(0, 2, 5, 5, 100), HoleState::Crit);
    picker.suggest(step(1, 2, 5, 5, 200), HoleState::Crit);
    let best = picker.best();
    assert_eq!(best.best_paths.len(), 1);
    assert_eq!(best.best_paths[0][0].unwrap().id, 1);
    assert_eq!(step_mass(&best.best_paths[0][0].unwrap()), 200);
}

#[test]
fn picker_with_no_candidates() {
    let prios = Priorities::new([Quality::ROProbability, Quality::AvgNumPasses, Quality::MaxOut]).unwrap();
    let picker = PathPicker::new(&prios, [true, true, true]);
    let best = picker.best();
    assert!(best.best_paths.is_empty());
    assert!(best.splits.is_empty());
}

#[test]
fn picker_keeps_lists_in_order_before_full_information() {
    let prios = Priorities::new([Quality::MaxOut, Quality::ROProbability, Quality::AvgNumPasses]).unwrap();
    // The shrink state matters and has no candidate yet: ships out count as
    // equal, and the step with fewer ships out goes before the other.
    let mut picker = PathPicker::new(&prios, [true, true, false]);
    picker.suggest(step(0, 5, 10, 1, 1), HoleState::Crit);
    picker.suggest(step(1, 1, 10, 1, 1), HoleState::Crit);
    picker.suggest(step(2, 0, 1, 1, 1), HoleState::Shrink);
    // With full information: lower rollout chance, 5 ships out; it outdoes
    // the step with 5 and keeps the one with 1 before it.
    picker.suggest(step(3, 5, 5, 1, 1), HoleState::Crit);
    let best = picker.best();
    assert_eq!(best.splits, vec![5]);
    assert_eq!(best.best_paths.len(), 2);
    assert_eq!(best.best_paths[0][0].unwrap().id, 1);
    assert_eq!(best.best_paths[0][1].unwrap().id, 2);
    assert_eq!(best.best_paths[1][0].unwrap().id, 3);
}

#[test]
fn picker_equal_steps_join_in_order_of_ships_out() {
    let prios = Priorities::new([Quality::MaxOut, Quality::ROProbability, Quality::AvgNumPasses]).unwrap();
    let mut picker = PathPicker::new(&prios, [true, true, false]);
    picker.suggest(step(0, 5, 10, 1, 1), HoleState::Crit);
    picker.suggest(step(1, 1, 10, 1, 1), HoleState::Crit);
    picker.suggest(step(2, 3, 10, 1, 1), HoleState::Crit);
    let best = picker.best();
    // Crit list [1, 3, 5] ships out: options at floors 0, 3 and 5.
    let order: Vec<usize> = best.best_paths.iter().map(|c| c[0].unwrap().id).collect();
    assert_eq!(order, vec![1, 2, 0]);
    assert_eq!(best.splits, vec![3, 5]);
}

#[test]
fn hole_state_thresholds() {
    let h = |remaining_mass, max_mass| hole_state(HoleData { remaining_mass, max_mass });
    assert_eq!(h(0, 2_000), SimHoleState::Closed);
    assert_eq!(h(-5, 2_000), SimHoleState::Closed);
    assert_eq!(h(199, 2_000), SimHoleState::Crit);
    assert_eq!(h(200, 2_000), SimHoleState::Shrink);
    assert_eq!(h(999, 2_000), SimHoleState::Shrink);
    assert_eq!(h(1_000, 2_000), SimHoleState::Full);
    assert_eq!(h(1, -30), SimHoleState::Full);
    assert_eq!(PassDecision::from(SimHoleState::Crit), PassDecision::Crit);
    assert_eq!(PassDecision::from(SimHoleState::Closed), PassDecision::Closed);
    assert_eq!(PassDecision::from(SimHoleState::Shrink), PassDecision::Shrink);
    assert_eq!(PassDecision::from(SimHoleState::Full), PassDecision::Full);
}

#[test]
fn passes_out_first_then_heaviest() {
    let ship = Ship { hot: 300, cold: 200 };
    let out_cold = ConnectionPass { ship, state: ShipState::Cold, direction: Direction::Out };
    let out_hot = ConnectionPass { ship, state: ShipState::Hot, direction: Direction::Out };
    let in_hot = ConnectionPass { ship, state: ShipState::Hot, direction: Direction::In };
    assert_eq!(out_cold.mass(), 200);
    assert_eq!(in_hot.mass(), 300);
    assert_eq!(order_out_then_in_then_largeest(&out_cold, &in_hot), Ordering::Less);
    assert_eq!(order_out_then_in_then_largeest(&in_hot, &out_cold), Ordering::Greater);
    assert_eq!(order_out_then_in_then_largeest(&out_hot, &out_cold), Ordering::Less);
    assert_eq!(order_out_then_in_then_largeest(&out_cold, &out_hot), Ordering::Greater);
    assert_eq!(order_out_then_in_then_largeest(&out_cold, &out_cold), Ordering::Equal);
}

#[test]
fn hole_sizes_by_class() {
    assert_eq!(HollSizes::B2.hole_info().max_range, mr(1_800_000_000, 2_200_000_000));
    assert_eq!(HollSizes::M100.hole_info().average_max_size, 100_000_000);
    assert_eq!(HollSizes::B3_3.hole_info().average_max_size, 3_300_000_000);
    assert_eq!(HollSizes::B3_3.label(), "3.3B");
    assert_eq!(HollSizes::M750.label(), "750M");
}

#[test]
fn add_undoes_sub() {
    let mut r = RollersUsed::new();
    r.add(4);
    r.add(4);
    let before = r;
    r.sub(4);
    r.add(4);
    assert_eq!(r, before);
}

#[test]
fn overlap_is_symmetric_intersection() {
    let a = mr(0, 10);
    let b = mr(3, 14);
    assert_eq!(overlap_of(&a, &b), overlap_of(&b, &a));
    let o = overlap_of(&a, &b);
    for m in -2..17 {
        let in_both = a.least <= m && m <= a.most && b.least <= m && m <= b.most;
        assert_eq!(o.least <= m && m <= o.most, in_both);
    }
}

fn overlap_of(a: &MassRange, b: &MassRange) -> MassRange {
    did_you_go_hot::roll_calc::overlap(a, b)
}

#[test]
fn narrowed_max_ranges_stay_within() {
    let max = mr(1_800_000_000, 2_200_000_000);
    for seen in [mr(100_000_000, 200_000_000), mr(150_000_000, 210_000_000), mr(1_000_000_000, 1_100_000_000)] {
        for r in [
            update_max_range_from_crit(&seen, &max),
            update_max_range_from_shrink(&seen, &max),
            update_max_range_from_full(&seen, &max),
            did_you_go_hot::roll_calc::roll_calc::update_max_range_from_full(&seen, &max),
        ] {
            assert!(r.least >= max.least && r.most <= max.most);
        }
    }
}

#[test]
fn hole_states_cover_every_mass() {
    let max = HoleInfo::from_kg(2_000_000_000).max_range;
    let ranges = [closed_range(), crit_range(&max), shrink_range(&max), full_range(&max)];
    for m in [-5, 0, 1, 219_999_999, 220_000_000, 1_099_999_999, 1_100_000_000, 2_200_000_000] {
        assert!(ranges.iter().any(|r| r.least <= m && m <= r.most));
    }
}

#[test]
fn max_range_holds_nominal_mass() {
    for mass in [0, 7, 100_000_000, 3_300_000_000] {
        let hole = HoleInfo::from_kg(mass);
        assert!(hole.max_range.least <= mass && mass <= hole.max_range.most);
    }
}

#[test]
fn shifting_keeps_size() {
    let r = mr(-4, 9);
    assert_eq!(r.sub(100).size(), r.size());
    assert_eq!(r.sub(-100).size(), r.size());
}

#[test]
fn picker_lists_stay_ordered_by_ships_out() {
    let prios = Priorities::new([Quality::MaxOut, Quality::ROProbability, Quality::AvgNumPasses]).unwrap();
    let mut picker = PathPicker::new(&prios, [true, false, false]);
    // Each new step trades more ships out for a lower rollout chance.
    picker.suggest(step(0, 4, 1, 1, 1), HoleState::Crit);
    picker.suggest(step(1, 1, 9, 1, 1), HoleState::Crit);
    picker.suggest(step(2, 2, 5, 1, 1), HoleState::Crit);
    picker.suggest(step(3, 3, 3, 1, 1), HoleState::Crit);
    let best = picker.best();
    let order: Vec<usize> = best.best_paths.iter().map(|c| c[0].unwrap().id).collect();
    assert_eq!(order, vec![1, 2, 3, 0]);
    assert_eq!(best.splits, vec![2, 3, 4]);
    assert_eq!(best.best_paths.len(), best.splits.len() + 1);
}

#[test]
fn largest_ships_out_over_next_plans() {
    assert_eq!(max_num_out_over_next(3, [Some(5), None, Some(2)]), 5);
    assert_eq!(max_num_out_over_next(7, [Some(5), None, None]), 7);
    assert_eq!(max_num_out_over_next(0, [None, None, None]), 0);
    assert_eq!(max_num_out_over_next(1, [None, Some(1), Some(4)]), 4);
}

#[test]
fn heaviest_single_jump() {
    assert_eq!(max_single_jump_mass(&[]), None);
    assert_eq!(max_single_jump_mass(&ships()), Some(ships().iter().map(|s| s.ship.hot).max().unwrap()));
    let one = [AvailabileShips { ship: Ship { hot: 7, cold: 3 }, max_num_out: 1, max_used: 1 }];
    assert_eq!(max_single_jump_mass(&one), Some(7));
}

#[test]
fn extra_jumps_round_up() {
    assert_eq!(extra_jumps_needed(10, 3), 4);
    assert_eq!(extra_jumps_needed(9, 3), 3);
    assert_eq!(extra_jumps_needed(0, 5), 0);
    assert_eq!(extra_jumps_needed(1, 1000), 1);
    assert_eq!(extra_jumps_needed(300_000_000, 200_000_000), 2);
}

#[test]
fn least_passes_of_each_bound() {
    assert_eq!(least_number_of_passes(PassesBound::RollersOut, 3, 10), 3);
    assert_eq!(least_number_of_passes(PassesBound::One, 0, 10), 1);
    assert_eq!(
        least_number_of_passes(PassesBound::RollersOutPlusDeficit { mass_deficit: 10 }, 2, 3),
        6
    );
    assert_eq!(
        least_number_of_passes(PassesBound::RollersOutPlusDeficit { mass_deficit: 9 }, 0, 3),
        3
    );
}

#[test]
fn picker_orders_lexicographically_before_ships_out() {
    let prios = Priorities::new([Quality::ROProbability, Quality::AvgNumPasses, Quality::MaxOut]).unwrap();
    let mut picker = PathPicker::new(&prios, [true, false, false]);
    picker.suggest(step(0, 1, 5, 3, 1), HoleState::Crit);
    // A lower rollout chance wins whatever the passes: strictly better.
    picker.suggest(step(1, 1, 4, 9, 1), HoleState::Crit);
    // Same rollout chance, more passes: strictly worse.
    picker.suggest(step(2, 0, 4, 10, 1), HoleState::Crit);
    // Same rollout chance, fewer passes: strictly better.
    picker.suggest(step(3, 1, 4, 2, 1), HoleState::Crit);
    let best = picker.best();
    assert_eq!(best.best_paths.len(), 1);
    assert_eq!(best.best_paths[0][0].unwrap().id, 3);
}

#[test]
fn mass_ranges_match_shown_states() {
    let info = HoleInfo::from_kg(2_000_000_000);
    let lo = info.max_range.least;
    let hi = info.max_range.most;
    for (state, shown) in [
        (HoleState::Full, SimHoleState::Full),
        (HoleState::Shrink, SimHoleState::Shrink),
        (HoleState::Crit, SimHoleState::Crit),
    ] {
        let r = info.mass_range(state);
        for m in [r.least, r.most] {
            // Some maximum mass in the maximum range shows this state at `m`.
            let found = [lo, hi, 2 * m + 1, 2 * m + 2, 10 * m + 9]
                .into_iter()
                .filter(|h| lo <= *h && *h <= hi && m <= *h)
                .any(|h| hole_state(HoleData { remaining_mass: m, max_mass: h }) == shown);
            assert!(found, "{:?} at {}", state, m);
        }
        // Just outside the range no maximum mass in the range shows it.
        for m in [r.least - 1, r.most + 1] {
            for h in [lo, (lo + hi) / 2, hi] {
                if m >= 1 && m <= h {
                    assert_ne!(hole_state(HoleData { remaining_mass: m, max_mass: h }), shown);
                }
            }
        }
    }
}

#[test]
fn chart_edges_are_added_by_rule() {
    let a = ConnectionPass { ship: Ship { hot: 300, cold: 200 }, state: ShipState::Hot, direction: Direction::Out };
    let b = ConnectionPass { ship: Ship { hot: 300, cold: 200 }, state: ShipState::Cold, direction: Direction::Out };
    assert_eq!(edge_addition(None, Some(a)), EdgeAddition::Add);
    assert_eq!(edge_addition(None, None), EdgeAddition::Add);
    assert_eq!(edge_addition(Some(None), None), EdgeAddition::Skip);
    assert_eq!(edge_addition(Some(Some(a)), None), EdgeAddition::Skip);
    assert_eq!(edge_addition(Some(Some(a)), Some(a)), EdgeAddition::Add);
    assert_eq!(edge_addition(Some(Some(a)), Some(b)), EdgeAddition::Refuse);
}

#[test]
fn best_options_per_floor_of_ships_out() {
    let prios = Priorities::new([Quality::MaxOut, Quality::ROProbability, Quality::AvgNumPasses]).unwrap();
    let mut picker = PathPicker::new(&prios, [true, true, false]);
    picker.suggest(step(0, 1, 5, 1, 1), HoleState::Shrink);
    picker.suggest(step(1, 2, 1, 1, 1), HoleState::Crit);
    // Fewer ships out, higher rollout chance: kept before the first.
    picker.suggest(step(2, 0, 9, 1, 1), HoleState::Crit);
    let best = picker.best();
    // Floors 0 and 1: the crit step with no ship out; from floor 2 on the other.
    assert_eq!(best.splits, vec![2]);
    assert_eq!(best.best_paths.len(), 2);
    assert_eq!(best.best_paths[0][0].unwrap().id, 2);
    assert_eq!(best.best_paths[0][1].unwrap().id, 0);
    assert!(best.best_paths[0][2].is_none());
    assert_eq!(best.best_paths[1][0].unwrap().id, 1);
    assert_eq!(best.best_paths[1][1].unwrap().id, 0);
    assert!(best.best_paths[1][2].is_none());
}

#[test]
fn option_for_each_floor() {
    assert_eq!(option_per_floor(&vec![]), vec![0]);
    assert_eq!(option_per_floor(&vec![2]), vec![0, 0, 1]);
    assert_eq!(option_per_floor(&vec![0, 3]), vec![1, 1, 1, 2]);
    assert_eq!(option_per_floor(&vec![1, 2, 4]), vec![0, 1, 2, 2, 3]);
}

#[test]
fn shrunk_hole_never_shows_full_again() {
    let hole = HoleInfo::from_kg(2_000_000_000);
    let state = |highest| RollState {
        remaining_mass: hole.full_mass_range(),
        rollers_out: RollersUsed::new(),
        max_size_range: hole.max_range,
        highest_hole_state: highest,
        used_ships: RollersUsed::new(),
    };
    let full = state(HoleState::Full);
    assert!(partition_is_computable(&full, None));
    assert!(partition_state(&full, None).possible_states[2] > 0);
    // Once seen shrunk, the same masses no longer count as full.
    let shrunk = state(HoleState::Shrink);
    assert!(partition_is_computable(&shrunk, None));
    let p = partition_state(&shrunk, None);
    assert!(p.possible_states[1] > 0);
    assert_eq!(p.possible_states[2], 0);
    assert!(p.mass_ranges[2].is_empty());
}
