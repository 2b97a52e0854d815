//! Walking the task groups of a phase schedule one system at a time.
//!
//! The cursor decides what the next step of a run is; the caller performs it (runs the
//! system, on the current thread or on a pool, or waits for the tasks of the group that has
//! ended) and asks again, until the cursor reports that the iteration is over and starts
//! afresh.

use vstd::prelude::*;
use crate::phase_schedule::planner::TaskGroup;

verus! {

/// What the caller does for one step of a run.
#[derive(Debug, PartialEq, Eq, Structural)]
pub enum ExecutionStep {
    /// Run the system alone.
    RunExclusive(usize),
    /// Run the system of a concurrent group. Before it, the list of wait groups is grown to
    /// `wait_groups` entries, the last one is taken as the one to wait on before running,
    /// and the entry at `signal_index` of the rest is the one to signal when done.
    RunConcurrent { system: usize, wait_groups: usize, signal_index: usize },
    /// The concurrent group ended: wait for all of its tasks.
    JoinGroup,
    /// There are no task groups.
    Idle,
}

/// The position of a run in the task groups: the current group, and the current entry of a
/// concurrent group.
#[derive(Debug, PartialEq, Eq, Structural)]
pub struct ExecutionCursor {
    pub current_task_group: usize,
    pub current_sub_entry: usize,
}

/// The step at the position `(group, entry)` of `groups`, and the position after it.
pub open spec fn step_at(groups: Seq<TaskGroup>, group: usize, entry: usize) -> (
    ExecutionStep,
    usize,
    usize,
) {
    if group < groups.len() {
        match groups[group as int] {
            TaskGroup::Exclusive(s) => (ExecutionStep::RunExclusive(s), (group + 1) as usize, entry),
            TaskGroup::Concurrent(entries) => if entry < entries@.len() {
                (
                    ExecutionStep::RunConcurrent {
                        system: entries@[entry as int].0,
                        wait_groups: (entries@.len() + 1 - entry) as usize,
                        signal_index: (entries@.len() - entry - 1) as usize,
                    },
                    group,
                    (entry + 1) as usize,
                )
            } else {
                (ExecutionStep::JoinGroup, (group + 1) as usize, 0)
            },
        }
    } else {
        (ExecutionStep::Idle, group, entry)
    }
}

/// Every concurrent group has fewer than `usize::MAX` entries.
pub open spec fn groups_bounded(groups: Seq<TaskGroup>) -> bool {
    &&& groups.len() < usize::MAX
    &&& forall|i: int|
        0 <= i < groups.len() ==> match #[trigger] groups[i] {
            TaskGroup::Concurrent(entries) => entries@.len() < usize::MAX,
            TaskGroup::Exclusive(_) => true,
        }
}

impl ExecutionCursor {
    /// The cursor stands at a group of `groups` or just past the last one, at an entry of a
    /// concurrent group or just past its last one, and at entry 0 of an exclusive group.
    pub open spec fn at_valid_position(&self, groups: Seq<TaskGroup>) -> bool {
        &&& groups_bounded(groups)
        &&& self.current_task_group <= groups.len()
        &&& self.current_task_group < groups.len() ==> match groups[self.current_task_group as int] {
            TaskGroup::Concurrent(entries) => self.current_sub_entry <= entries@.len(),
            TaskGroup::Exclusive(_) => self.current_sub_entry == 0,
        }
    }

    /// A cursor at the start of an iteration.
    pub fn new() -> (r: Self)
        ensures
            r.current_task_group == 0,
            r.current_sub_entry == 0,
    {
        ExecutionCursor { current_task_group: 0, current_sub_entry: 0 }
    }

    /// Whether the iteration goes on; at its end, the cursor goes back to the start.
    fn check_end_and_reset(&mut self, groups_len: usize) -> (r: bool)
        ensures
            r == (old(self).current_task_group < groups_len),
            r ==> *final(self) == *old(self),
            !r ==> final(self).current_task_group == 0 && final(self).current_sub_entry == 0,
    {
        if self.current_task_group < groups_len {
            true
        } else {
            self.current_task_group = 0;
            self.current_sub_entry = 0;
            false
        }
    }

    /// The next step of the run, and whether the iteration goes on after it. The cursor
    /// moves past the step; when the iteration is over it goes back to the start, so that
    /// the next call begins a new iteration.
    pub fn next_step(&mut self, groups: &Vec<TaskGroup>) -> (r: (ExecutionStep, bool))
        requires
            old(self).at_valid_position(groups@),
        ensures
            ({
                let (step, group, entry) = step_at(
                    groups@,
                    old(self).current_task_group,
                    old(self).current_sub_entry,
                );
                &&& r.0 == step
                &&& r.1 == (group < groups@.len())
                &&& r.1 ==> final(self).current_task_group == group && final(self).current_sub_entry
                    == entry
                &&& !r.1 ==> final(self).current_task_group == 0 && final(self).current_sub_entry
                    == 0
            }),
            final(self).at_valid_position(groups@),
            r.0 matches ExecutionStep::RunConcurrent { wait_groups, signal_index, .. }
                ==> signal_index + 2 == wait_groups,
    {
        let step = if self.current_task_group < groups.len() {
            match &groups[self.current_task_group] {
                TaskGroup::Exclusive(system_index) => {
                    self.current_task_group = self.current_task_group + 1;
                    ExecutionStep::RunExclusive(*system_index)
                },
                TaskGroup::Concurrent(entries) => {
                    if self.current_sub_entry < entries.len() {
                        let system = entries[self.current_sub_entry].0;
                        let wait_groups = entries.len() + 1 - self.current_sub_entry;
                        let signal_index = entries.len() - self.current_sub_entry - 1;
                        self.current_sub_entry = self.current_sub_entry + 1;
                        ExecutionStep::RunConcurrent { system, wait_groups, signal_index }
                    } else {
                        self.current_task_group = self.current_task_group + 1;
                        self.current_sub_entry = 0;
                        ExecutionStep::JoinGroup
                    }
                },
            }
        } else {
            ExecutionStep::Idle
        };
        let more = self.check_end_and_reset(groups.len());
        (step, more)
    }
}

/// The tasks of a concurrent group of `n` entries are chained by their wait groups. Before
/// entry `k` runs, the list of wait groups is grown to `wait_groups` entries and the last
/// one is taken to wait on; the entry then signals the one at `signal_index` of the rest.
/// The first entry grows the list to one group per entry and one more. The signalled group
/// is the last one left in the list, and it is exactly the one that entry `k + 1` takes and
/// waits on, so each entry runs after the one before it; the last entry signals the group
/// at the bottom of the list, which the join waits on.
pub proof fn lemma_concurrent_tasks_chain(groups: Seq<TaskGroup>, group: usize, k: usize)
    requires
        groups_bounded(groups),
        group < groups.len(),
        groups[group as int] is Concurrent,
        k < groups[group as int]->Concurrent_0@.len(),
    ensures
        ({
            let entries = groups[group as int]->Concurrent_0@;
            let n = entries.len();
            let (step, g2, e2) = step_at(groups, group, k);
            &&& step matches ExecutionStep::RunConcurrent { system, wait_groups, signal_index }
                &&& system == entries[k as int].0
                &&& signal_index + 2 == wait_groups
                &&& k == 0 ==> wait_groups == n + 1
                &&& k + 1 == n ==> signal_index == 0
                &&& k + 1 < n ==> (step_at(groups, g2, e2).0 matches ExecutionStep::RunConcurrent {
                    wait_groups: next_wait_groups,
                    ..
                } && next_wait_groups - 1 == signal_index && next_wait_groups + 1 == wait_groups)
            &&& (g2, e2) == (group, (k + 1) as usize)
        }),
{
}

/// A whole iteration from the start visits every task group in order: the steps of
/// `groups` from position `(group, entry)`, `fuel` of them at most.
pub open spec fn steps_from(groups: Seq<TaskGroup>, group: usize, entry: usize, fuel: nat) -> Seq<
    ExecutionStep,
>
    decreases fuel,
{
    if fuel == 0 || group >= groups.len() {
        Seq::empty()
    } else {
        let (step, g2, e2) = step_at(groups, group, entry);
        seq![step] + steps_from(groups, g2, e2, (fuel - 1) as nat)
    }
}

/// An iteration from the start runs each exclusive group's system, and each concurrent
/// group's systems in order followed by a join: one step per exclusive group and one more
/// than its entries per concurrent group.
pub open spec fn group_steps(t: TaskGroup) -> Seq<ExecutionStep> {
    match t {
        TaskGroup::Exclusive(s) => seq![ExecutionStep::RunExclusive(s)],
        TaskGroup::Concurrent(entries) => Seq::new(
            entries@.len(),
            |k: int|
                ExecutionStep::RunConcurrent {
                    system: entries@[k].0,
                    wait_groups: (entries@.len() + 1 - k) as usize,
                    signal_index: (entries@.len() - k - 1) as usize,
                },
        ).push(ExecutionStep::JoinGroup),
    }
}

/// The steps of the groups from `group` on.
pub open spec fn iteration_steps(groups: Seq<TaskGroup>, group: int) -> Seq<ExecutionStep>
    decreases groups.len() - group,
{
    if group < 0 || group >= groups.len() {
        Seq::empty()
    } else {
        group_steps(groups[group]) + iteration_steps(groups, group + 1)
    }
}

/// The number of steps of a task group.
pub open spec fn group_len(t: TaskGroup) -> nat {
    match t {
        TaskGroup::Exclusive(_) => 1,
        TaskGroup::Concurrent(entries) => entries@.len() + 1,
    }
}

/// Walking from entry `entry` of group `group` takes the rest of that group's steps, then
/// the steps of the groups after it.
proof fn lemma_steps_walk(groups: Seq<TaskGroup>, group: usize, entry: usize, fuel: nat)
    requires
        group < groups.len(),
        groups_bounded(groups),
        match groups[group as int] {
            TaskGroup::Concurrent(entries) => entry <= entries@.len(),
            TaskGroup::Exclusive(_) => entry == 0,
        },
        fuel >= group_len(groups[group as int]) - entry + rest_len(groups, group + 1),
    ensures
        steps_from(groups, group, entry, fuel) == group_steps(groups[group as int]).skip(
            entry as int,
        ) + iteration_steps(groups, group + 1),
    decreases groups.len() - group, group_len(groups[group as int]) - entry,
{
    let (step, g2, e2) = step_at(groups, group, entry);
    match groups[group as int] {
        TaskGroup::Exclusive(s) => {
            assert(g2 == group + 1);
            lemma_steps_next(groups, (group + 1) as usize, (fuel - 1) as nat);
            assert(group_steps(groups[group as int]).skip(0) == seq![step]);
        },
        TaskGroup::Concurrent(entries) => {
            let gs = group_steps(groups[group as int]);
            if entry < entries@.len() {
                lemma_steps_walk(groups, group, (entry + 1) as usize, (fuel - 1) as nat);
                assert(gs.skip(entry as int) =~= seq![gs[entry as int]] + gs.skip(entry + 1));
            } else {
                lemma_steps_next(groups, (group + 1) as usize, (fuel - 1) as nat);
                assert(gs.skip(entry as int) =~= seq![ExecutionStep::JoinGroup]);
            }
        },
    }
}

/// The steps of the groups from `group` on, counted.
pub open spec fn rest_len(groups: Seq<TaskGroup>, group: int) -> nat
    decreases groups.len() - group,
{
    if group < 0 || group >= groups.len() {
        0
    } else {
        group_len(groups[group]) + rest_len(groups, group + 1)
    }
}

/// Walking from the start of group `group` takes the steps of the groups from there on.
proof fn lemma_steps_next(groups: Seq<TaskGroup>, group: usize, fuel: nat)
    requires
        group <= groups.len(),
        groups_bounded(groups),
        fuel >= rest_len(groups, group as int),
    ensures
        steps_from(groups, group, 0, fuel) == iteration_steps(groups, group as int),
    decreases groups.len() - group, 1 + (if group < groups.len() {
            group_len(groups[group as int])
        } else {
            0
        }),
{
    if group < groups.len() {
        let _ = groups[group as int];
        lemma_steps_walk(groups, group, 0, fuel);
        assert(group_steps(groups[group as int]).skip(0) == group_steps(groups[group as int]));
    }
}

/// An iteration of a run from the start, one step after the other, runs the system of each
/// exclusive group and each entry of each concurrent group, in order, with a join after the
/// entries of each concurrent group; then it is over.
pub proof fn lemma_iteration_steps(groups: Seq<TaskGroup>)
    requires
        groups_bounded(groups),
    ensures
        steps_from(groups, 0, 0, rest_len(groups, 0)) == iteration_steps(groups, 0),
        iteration_steps(groups, 0).len() == rest_len(groups, 0),
{
    lemma_steps_next(groups, 0, rest_len(groups, 0));
    lemma_iteration_len(groups, 0);
}

/// The steps of the groups from `group` on number `rest_len`.
proof fn lemma_iteration_len(groups: Seq<TaskGroup>, group: int)
    ensures
        iteration_steps(groups, group).len() == rest_len(groups, group),
    decreases groups.len() - group,
{
    if 0 <= group < groups.len() {
        lemma_iteration_len(groups, group + 1);
    }
}

} // verus!
