//! The drawing of a phase schedule as a Graphviz graph: which nodes, clusters and edges it
//! holds. Writing them out, with the systems' names, a title and a legend, is up to the
//! caller.

use vstd::prelude::*;
use crate::phase_schedule::planner::{Schedule, TaskGroup};

verus! {

/// One element of the drawing. Systems are drawn as nodes `s0`, `s1`, ...; one more node,
/// numbered after the last system, marks the end, and a node `start` the start.
#[derive(Debug, PartialEq, Eq, Structural)]
pub enum DotItem {
    /// A system drawn as a box.
    BoxNode(usize),
    /// A dashed edge from the start to the system.
    StartEdge(usize),
    /// The opening of the cluster of the concurrent group at this position.
    ClusterStart(usize),
    /// A system drawn inside the current cluster.
    ClusterNode(usize),
    /// The closing of the current cluster.
    ClusterEnd,
    /// A dashed edge from the start into the cluster, to its first system.
    StartToCluster { to: usize, cluster: usize },
    /// A dashed edge from an exclusive system into the cluster, to its first system.
    IntoCluster { from: usize, to: usize, cluster: usize },
    /// A dashed edge: `to` runs after `from`, which nothing of its group waits for.
    DashedEdge { from: usize, to: usize },
    /// An edge: `to` waits for `from`.
    Edge { from: usize, to: usize },
    /// The end node.
    EndNode(usize),
}

/// The first system of a concurrent group, or the system of an exclusive one.
pub open spec fn first_system(t: TaskGroup) -> usize {
    match t {
        TaskGroup::Exclusive(s) => s,
        TaskGroup::Concurrent(entries) => entries@[0].0,
    }
}

/// The system that follows group `i`: the first system of the next group, or the end node.
pub open spec fn next_after(groups: Seq<TaskGroup>, i: int, n: nat) -> usize {
    if i + 1 < groups.len() {
        first_system(groups[i + 1])
    } else {
        n as usize
    }
}

/// The edge that leaves an entry of a concurrent group.
pub open spec fn entry_edge(entries: Seq<(usize, usize)>, k: int, next: usize) -> DotItem {
    let (s, e) = entries[k];
    if e >= entries.len() {
        DotItem::DashedEdge { from: s, to: next }
    } else {
        DotItem::Edge { from: s, to: entries[e as int].0 }
    }
}

/// The edge that leads into the cluster of the concurrent group `i`.
pub open spec fn head_edge(groups: Seq<TaskGroup>, i: int, first: usize) -> Seq<DotItem> {
    if i == 0 {
        seq![DotItem::StartToCluster { to: first, cluster: i as usize }]
    } else {
        match groups[i - 1] {
            TaskGroup::Exclusive(prev) => seq![
                DotItem::IntoCluster { from: prev, to: first, cluster: i as usize },
            ],
            TaskGroup::Concurrent(_) => Seq::empty(),
        }
    }
}

/// The drawing of group `i`: an exclusive system as a box (with an edge from the start when
/// it is the first group); a concurrent group as a cluster of its systems, the edge into
/// it, and the edge out of each entry.
pub open spec fn group_dot(groups: Seq<TaskGroup>, i: int, n: nat) -> Seq<DotItem> {
    match groups[i] {
        TaskGroup::Exclusive(s) => if i == 0 {
            seq![DotItem::BoxNode(s), DotItem::StartEdge(s)]
        } else {
            seq![DotItem::BoxNode(s)]
        },
        TaskGroup::Concurrent(entries) => seq![DotItem::ClusterStart(i as usize)] + Seq::new(
            entries@.len(),
            |k: int| DotItem::ClusterNode(entries@[k].0),
        ) + seq![DotItem::ClusterEnd] + head_edge(groups, i, entries@[0].0) + Seq::new(
            entries@.len(),
            |k: int| entry_edge(entries@, k, next_after(groups, i, n)),
        ),
    }
}

/// The drawings of the first `k` groups, one after the other.
pub open spec fn groups_dot(groups: Seq<TaskGroup>, k: int, n: nat) -> Seq<DotItem>
    decreases k,
{
    if k <= 0 {
        Seq::empty()
    } else {
        groups_dot(groups, k - 1, n) + group_dot(groups, k - 1, n)
    }
}

/// The whole drawing of a schedule with `n` systems: while it is dirty, every system as a
/// box and a dashed edge from the start to the end; otherwise the drawing of each task
/// group, and a dashed edge to the end from an exclusive last group.
pub open spec fn dot_of(dirty: bool, n: nat, groups: Seq<TaskGroup>) -> Seq<DotItem> {
    if dirty {
        Seq::new(n, |s: int| DotItem::BoxNode(s as usize)) + seq![
            DotItem::EndNode(n as usize),
            DotItem::StartEdge(n as usize),
        ]
    } else {
        groups_dot(groups, groups.len() as int, n) + seq![DotItem::EndNode(n as usize)] + (
        if groups.len() > 0 && groups.last() is Exclusive {
            seq![DotItem::DashedEdge { from: first_system(groups.last()), to: n as usize }]
        } else {
            Seq::empty()
        })
    }
}

impl Schedule {
    /// The drawing of the schedule.
    pub fn dot_items(&self) -> (r: Vec<DotItem>)
        requires
            self.wf(),
        ensures
            r@ == dot_of(self.dirty(), self.systems().len(), self.task_groups()),
    {
        let n = self.systems_len();
        let groups = self.ordered_task_groups();
        let mut items: Vec<DotItem> = Vec::new();
        if self.is_dirty() {
            let mut s: usize = 0;
            while s < n
                invariant
                    0 <= s <= n,
                    items@ == Seq::new(s as nat, |t: int| DotItem::BoxNode(t as usize)),
                decreases n - s,
            {
                items.push(DotItem::BoxNode(s));
                s += 1;
                proof {
                    assert(items@ =~= Seq::new(s as nat, |t: int| DotItem::BoxNode(t as usize)));
                }
            }
            items.push(DotItem::EndNode(n));
            items.push(DotItem::StartEdge(n));
            return items;
        }
        let mut i: usize = 0;
        while i < groups.len()
            invariant
                0 <= i <= groups@.len(),
                groups@ == self.task_groups(),
                n == self.systems().len(),
                self.wf(),
                !self.dirty(),
                items@ == groups_dot(groups@, i as int, n as nat),
            decreases groups@.len() - i,
        {
            let ghost before = items@;
            self.push_group_dot(groups, i, &mut items);
            proof {
                assert(items@ == before + group_dot(groups@, i as int, n as nat));
            }
            i += 1;
        }
        items.push(DotItem::EndNode(n));
        if groups.len() > 0 {
            match &groups[groups.len() - 1] {
                TaskGroup::Exclusive(prev) => {
                    items.push(DotItem::DashedEdge { from: *prev, to: n });
                },
                TaskGroup::Concurrent(_) => {},
            }
        }
        proof {
            let tail = if groups@.len() > 0 && groups@.last() is Exclusive {
                seq![DotItem::DashedEdge { from: first_system(groups@.last()), to: n }]
            } else {
                Seq::<DotItem>::empty()
            };
            assert(items@ =~= groups_dot(groups@, groups@.len() as int, n as nat) + seq![
                DotItem::EndNode(n),
            ] + tail);
        }
        items
    }

    /// Appends the drawing of group `i` to `items`.
    fn push_group_dot(&self, groups: &Vec<TaskGroup>, i: usize, items: &mut Vec<DotItem>)
        requires
            self.wf(),
            groups@ == self.task_groups(),
            i < groups@.len(),
        ensures
            final(items)@ == old(items)@ + group_dot(groups@, i as int, self.systems().len()),
    {
        let n = self.systems_len();
        proof {
            self.lemma_task_groups_wf();
        }
        match &groups[i] {
            TaskGroup::Exclusive(s) => {
                items.push(DotItem::BoxNode(*s));
                if i == 0 {
                    items.push(DotItem::StartEdge(*s));
                }
            },
            TaskGroup::Concurrent(entries) => {
                let ghost base = items@;
                items.push(DotItem::ClusterStart(i));
                let mut k: usize = 0;
                while k < entries.len()
                    invariant
                        0 <= k <= entries@.len(),
                        items@ == base + seq![DotItem::ClusterStart(i)] + Seq::new(
                            k as nat,
                            |j: int| DotItem::ClusterNode(entries@[j].0),
                        ),
                    decreases entries@.len() - k,
                {
                    items.push(DotItem::ClusterNode(entries[k].0));
                    k += 1;
                    proof {
                        assert(items@ =~= base + seq![DotItem::ClusterStart(i)] + Seq::new(
                            k as nat,
                            |j: int| DotItem::ClusterNode(entries@[j].0),
                        ));
                    }
                }
                items.push(DotItem::ClusterEnd);
                let first_in_group = entries[0].0;
                if i == 0 {
                    items.push(DotItem::StartToCluster { to: first_in_group, cluster: i });
                } else {
                    match &groups[i - 1] {
                        TaskGroup::Exclusive(prev) => {
                            items.push(
                                DotItem::IntoCluster { from: *prev, to: first_in_group, cluster: i },
                            );
                        },
                        TaskGroup::Concurrent(_) => {},
                    }
                }
                let next = if i < groups.len() - 1 {

                    match &groups[i + 1] {
                        TaskGroup::Exclusive(next) => *next,
                        TaskGroup::Concurrent(next_entries) => next_entries[0].0,
                    }
                } else {
                    n
                };
                let ghost mid = items@;
                let mut k: usize = 0;
                while k < entries.len()
                    invariant
                        0 <= k <= entries@.len(),
                        next == next_after(groups@, i as int, n as nat),
                        items@ == mid + Seq::new(
                            k as nat,
                            |j: int| entry_edge(entries@, j, next),
                        ),
                    decreases entries@.len() - k,
                {
                    let (s, e) = entries[k];
                    if e >= entries.len() {
                        items.push(DotItem::DashedEdge { from: s, to: next });
                    } else {
                        items.push(DotItem::Edge { from: s, to: entries[e].0 });
                    }
                    k += 1;
                    proof {
                        assert(items@ =~= mid + Seq::new(
                            k as nat,
                            |j: int| entry_edge(entries@, j, next),
                        ));
                    }
                }
                proof {
                    assert(items@ =~= base + group_dot(groups@, i as int, n as nat));
                }
            },
        }
    }
}

} // verus!
