//! Planning of wormhole rolls: mass bookkeeping for a hole, the hole-state
//! model used to narrow down its unknown size, the enumeration of the passes
//! a rolling fleet can make, and the selection of the best passes.

pub mod hole_info;
pub mod roll_calc;
pub mod chart_gen;
pub mod hole_plan_tester;
pub mod hole_sizes;
pub mod best_path_picker;
