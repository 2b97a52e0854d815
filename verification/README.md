# pulz_schedule

The scheduling core of a game-engine runtime, written in Verus: every function in `src/`
carries a contract that Verus proves, but for the few trusted wrappers that make the calls
into `bit_set` and into std's atomics.

- `src/schedule/`: the layered scheduler. A dependency graph of system sets is sorted into
  layers (`graph`), exclusive systems are split out of layers they share with others,
  resource accesses are tracked from layer to layer (`resource_tracker`), and the schedule
  ties it together (`schedule_impl`), including the plan by which a run walks the layers.
  The sort, the split, the conflict resolution and the final move of systems bound to the
  schedule's thread are each stated step by step (`ordered_round`, `split_step`,
  `resolve_step`, `unsend_walk`), so a build's layers are pinned down by the graph and the
  accesses; beside that, the contracts state the plainer facts: every layer after the split
  is all-exclusive or exclusive-free, no non-exclusive system is lost, and when no system
  asks for exclusive access to a resource the build succeeds exactly when the graph can be
  sorted. Each system's dependent layer is the first layer with a system that must wait for
  it (`waited_for` in the graph: its dependencies, those of its parents, and the members of
  the sets it waits for; or a conflicting access in a later layer); the runner joins a
  spawned system there at the latest.
- `src/phase_schedule/`: the phase scheduler. Systems are filed into phases of a dependency
  graph (`graph`), the graph is sorted into groups (`sort`), resource accesses are tracked
  from group to group (`tracker`), and the groups become task groups (`planner`), which a
  run walks one step at a time (`execution`) and which can be drawn (`dot`).
- `src/event.rs`, `src/interned.rs`, `src/resource.rs`, `src/util.rs`, `src/atom.rs`,
  `src/label.rs`: double-buffered events, interned strings, resource ids and accesses,
  dirty versions and ticks.
- `src/bitset.rs`: the bit sets of the `bit_set` crate, behind trusted wrappers.
- Each layer of the layered sort holds the nodes of one round of the sort in the order in
  which they became ready, and each group of the phase sort the nodes of one round in the
  order in which they were completed; the move of systems between phase groups is stated
  step by step too (`moved_groups`).
- `app/`: what Verus does not check: threads and the pool, globals, the environment,
  panics with their messages, error types with `thiserror`, and the runners that drive
  systems through the verified plans.
- `tests/`: tests of the library on concrete values.
