# did_you_go_hot

Planning of wormhole rolls: which passes (in or out, hot or cold) a fleet
should make to close a wormhole without leaving a ship on the far side.

## Layout

- `src/` — the verified library.
  - `hole_info`: masses, inclusive mass ranges and the size classes of holes.
  - `roll_calc`: the hole-state model (which remaining masses show as full,
    shrunk, critical or closed, and how an observed state narrows the hole's
    maximum mass); `roll_calc::roll_calc` holds the planner's verified core:
    per-type counts of ships (`RollersUsed`), the passes a fleet can make next
    (`get_steps`), the split of a situation by hole state (`partition_state`),
    and estimates of a plan's qualities from the ships out and the remaining
    mass (`minimum_quality_bounds`).
  - `best_path_picker`: the choice of the best next passes by a user's order
    of priorities, for every floor on the number of ships out.
  - `chart_gen`, `hole_plan_tester`, `hole_sizes`: chart data and the rule
    for adding a chart edge, the hole model used to simulate plans, and the
    hole classes a user can pick.
- `app/` — the program: the search over plans (its qualities are floating
  point), the roll chart built on `petgraph`, and `main`.
- `tests/` — tests of the library.
