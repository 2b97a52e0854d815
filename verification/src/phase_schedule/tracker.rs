//! Tracking of resource accesses from group to group of a phase schedule.
//!
//! For every resource the tracker remembers the group of the last exclusive and of the last
//! shared access, and the systems of the last access. Two accesses to a resource in one group
//! conflict unless both are shared. An access whose resource was last accessed exclusively
//! in an earlier group reports that earlier group.

use vstd::prelude::*;
use crate::resource::ResourceAccess;
use crate::schedule::resource_tracker::{access_ops, ascending_of, lemma_ascending_unique, sorted_items};

verus! {

/// What the tracker records of one resource: the group of the last exclusive access, the
/// group of the last shared access (`usize::MAX` for none), and the systems of the last
/// access.
pub type EntryView = (usize, usize, Seq<usize>);

/// The record of a resource that was never accessed.
pub open spec fn none_entry() -> EntryView {
    (usize::MAX, usize::MAX, Seq::empty())
}

/// The record of resource `r`.
pub open spec fn entry_at(entries: Seq<EntryView>, r: int) -> EntryView {
    if 0 <= r < entries.len() {
        entries[r]
    } else {
        none_entry()
    }
}

/// The records, grown with records of unused resources up to resource `r`.
pub open spec fn padded(entries: Seq<EntryView>, r: int) -> Seq<EntryView> {
    if r < entries.len() {
        entries
    } else {
        entries + Seq::new((r + 1 - entries.len()) as nat, |i: int| none_entry())
    }
}

/// A record with an access has systems.
pub open spec fn entries_wf(entries: Seq<EntryView>) -> bool {
    forall|r: int|
        0 <= r < entries.len() && ((#[trigger] entries[r]).0 != usize::MAX || entries[r].1
            != usize::MAX) ==> entries[r].2.len() > 0
}

/// A conflict, as values.
pub enum ConflictView {
    ExclusiveExclusive(usize, usize, usize),
    SharedExclusive(usize, Seq<usize>, usize),
}

/// Two accesses to a resource in one group that cannot both be granted.
#[derive(Debug, PartialEq, Eq)]
pub enum ResourceConflict {
    /// Systems `system_a` and `system_b` both ask for exclusive access to `resource`.
    ExclusiveExclusive { resource: usize, system_a: usize, system_b: usize },
    /// The systems `system_shared` ask for shared access to `resource`, and the system
    /// `system_exclusive` for exclusive access.
    SharedExclusive { resource: usize, system_shared: Vec<usize>, system_exclusive: usize },
}

impl ResourceConflict {
    /// The conflict as values.
    pub open spec fn view(&self) -> ConflictView {
        match self {
            ResourceConflict::ExclusiveExclusive { resource, system_a, system_b } => ConflictView::ExclusiveExclusive(
                *resource,
                *system_a,
                *system_b,
            ),
            ResourceConflict::SharedExclusive { resource, system_shared, system_exclusive } => ConflictView::SharedExclusive(
                *resource,
                system_shared@,
                *system_exclusive,
            ),
        }
    }
}

/// One access `op` (exclusive or not, resource) of system `sys` in group `g`: the conflict,
/// or the records afterwards and the group that the access reports (the group of the last
/// exclusive access before it, or `g` itself for a second shared access within `g`).
pub open spec fn access_step(entries: Seq<EntryView>, op: (bool, usize), sys: usize, g: usize) -> Result<
    (Seq<EntryView>, usize),
    ConflictView,
> {
    let r = op.1;
    let p = padded(entries, r as int);
    let e = p[r as int];
    if op.0 {
        if e.0 == g {
            Err(ConflictView::ExclusiveExclusive(r, e.2[0], sys))
        } else if e.1 == g {
            Err(ConflictView::SharedExclusive(r, e.2, sys))
        } else {
            Ok((p.update(r as int, (g, e.1, seq![sys])), e.0))
        }
    } else {
        if e.0 == g {
            Err(ConflictView::SharedExclusive(r, seq![sys], e.2[0]))
        } else if e.1 == g {
            Ok((p.update(r as int, (e.0, e.1, e.2.push(sys))), g))
        } else {
            Ok((p.update(r as int, (e.0, g, seq![sys])), e.0))
        }
    }
}

/// The first `k` accesses of `ops`, one after the other: the conflict of the first one that
/// conflicts, or the records afterwards and whether any of them reported an earlier group.
pub open spec fn accesses_fold(
    entries: Seq<EntryView>,
    ops: Seq<(bool, usize)>,
    sys: usize,
    g: usize,
    k: int,
) -> Result<(Seq<EntryView>, bool), ConflictView>
    decreases k,
{
    if k <= 0 {
        Ok((entries, false))
    } else {
        match accesses_fold(entries, ops, sys, g, k - 1) {
            Err(c) => Err(c),
            Ok((es, low)) => match access_step(es, ops[k - 1], sys, g) {
                Err(c) => Err(c),
                Ok((es2, old)) => Ok((es2, low || old < g)),
            },
        }
    }
}

/// The accesses of `access`: the exclusive ones, then the shared ones, each in ascending
/// order of the resource.
pub open spec fn ops_of(access: ResourceAccess) -> Seq<(bool, usize)> {
    access_ops(sorted_items(access.exclusive@), sorted_items(access.shared@))
}

/// `result` with the entry of `sys` lowered to `g` when `lowered` says so.
pub open spec fn lowered_to(result: Seq<usize>, sys: usize, g: usize, lowered: bool) -> Seq<usize> {
    if lowered && result[sys as int] > g {
        result.update(sys as int, g)
    } else {
        result
    }
}

/// A record of the tracker.
pub struct ResourceMutTrackerEntry {
    last_exclusive: usize,
    last_shared: usize,
    systems: Vec<usize>,
}

impl ResourceMutTrackerEntry {
    /// The record as values.
    pub closed spec fn view(&self) -> EntryView {
        (self.last_exclusive, self.last_shared, self.systems@)
    }

    /// The record of a resource that was never accessed.
    pub fn new() -> (r: Self)
        ensures
            r.view() == none_entry(),
    {
        ResourceMutTrackerEntry {
            last_exclusive: usize::MAX,
            last_shared: usize::MAX,
            systems: Vec::new(),
        }
    }
}

/// The records of all resources accessed so far.
pub struct ResourceMutTracker(Vec<ResourceMutTrackerEntry>);

impl ResourceMutTracker {
    /// The records, by resource.
    pub closed spec fn entries(&self) -> Seq<EntryView> {
        self.0@.map_values(|e: ResourceMutTrackerEntry| e.view())
    }

    /// A tracker with no records.
    pub fn new() -> (r: Self)
        ensures
            r.entries() == Seq::<EntryView>::empty(),
    {
        let r = ResourceMutTracker(Vec::new());
        assert(r.entries() =~= Seq::<EntryView>::empty());
        r
    }

    /// Grows the records up to resource `resource`.
    fn grow_to(&mut self, resource: usize)
        requires
            resource < usize::MAX,
        ensures
            final(self).entries() == padded(old(self).entries(), resource as int),
            final(self).0@.len() > resource,
    {
        let ghost e0 = self.entries();
        if self.0.len() <= resource {
            while self.0.len() <= resource
                invariant
                    e0.len() <= self.0@.len() <= resource + 1,
                    resource < usize::MAX,
                    self.entries() == e0 + Seq::new(
                        (self.0@.len() - e0.len()) as nat,
                        |i: int| none_entry(),
                    ),
                decreases resource + 1 - self.0@.len(),
            {
                let ghost before = self.entries();
                let fresh = ResourceMutTrackerEntry::new();
                let ghost fv = fresh.view();
                self.0.push(fresh);
                proof {
                    assert(self.entries() =~= before.push(fv));
                    assert(self.entries() =~= e0 + Seq::new(
                        (self.0@.len() - e0.len()) as nat,
                        |i: int| none_entry(),
                    ));
                }
            }
        }
    }

    /// Records an exclusive access of `system` to `resource` in `current_group`: the
    /// conflict, or the group of the last exclusive access before it.
    fn mark_exclusive(&mut self, resource: usize, current_group: usize, system: usize) -> (r:
        Result<usize, ResourceConflict>)
        requires
            entries_wf(old(self).entries()),
            resource < usize::MAX,
            current_group < usize::MAX,
        ensures
            match access_step(old(self).entries(), (true, resource), system, current_group) {
                Ok((es, old_group)) => r == Ok::<usize, ResourceConflict>(old_group)
                    && final(self).entries() == es,
                Err(c) => r is Err && r->Err_0.view() == c,
            },
            entries_wf(final(self).entries()),
    {
        self.grow_to(resource);
        let ghost p = self.entries();
        assert(p.len() == self.0@.len());
        let e = &self.0[resource];
        proof {
            assert(p[resource as int] == e.view());
        }
        if e.last_exclusive == current_group {
            Err(ResourceConflict::ExclusiveExclusive {
                resource,
                system_a: e.systems[0],
                system_b: system,
            })
        } else if e.last_shared == current_group {
            let mut shared: Vec<usize> = Vec::new();
            let mut k: usize = 0;
            while k < e.systems.len()
                invariant
                    0 <= k <= e.systems@.len(),
                    shared@ == e.systems@.take(k as int),
                decreases e.systems@.len() - k,
            {
                shared.push(e.systems[k]);
                k += 1;
                proof {
                    assert(shared@ =~= e.systems@.take(k as int));
                }
            }
            proof {
                assert(shared@ =~= e.systems@);
            }
            Err(ResourceConflict::SharedExclusive {
                resource,
                system_shared: shared,
                system_exclusive: system,
            })
        } else {
            let old = e.last_exclusive;
            let last_shared = e.last_shared;
            let mut systems: Vec<usize> = Vec::new();
            systems.push(system);
            self.0.set(
                resource,
                ResourceMutTrackerEntry { last_exclusive: current_group, last_shared, systems },
            );
            proof {
                assert(self.entries() =~= p.update(
                    resource as int,
                    (current_group, last_shared, seq![system]),
                ));
            }
            Ok(old)
        }
    }

    /// Records a shared access of `system` to `resource` in `current_group`: the conflict,
    /// or the group that the access reports.
    fn mark_shared(&mut self, resource: usize, current_group: usize, system: usize) -> (r: Result<
        usize,
        ResourceConflict,
    >)
        requires
            entries_wf(old(self).entries()),
            resource < usize::MAX,
            current_group < usize::MAX,
        ensures
            match access_step(old(self).entries(), (false, resource), system, current_group) {
                Ok((es, old_group)) => r == Ok::<usize, ResourceConflict>(old_group)
                    && final(self).entries() == es,
                Err(c) => r is Err && r->Err_0.view() == c,
            },
            entries_wf(final(self).entries()),
    {
        self.grow_to(resource);
        let ghost p = self.entries();
        assert(p.len() == self.0@.len());
        let e = &self.0[resource];
        proof {
            assert(p[resource as int] == e.view());
        }
        if e.last_exclusive == current_group {
            let mut shared: Vec<usize> = Vec::new();
            shared.push(system);
            Err(ResourceConflict::SharedExclusive {
                resource,
                system_exclusive: e.systems[0],
                system_shared: shared,
            })
        } else if e.last_shared == current_group {
            let last_exclusive = e.last_exclusive;
            let last_shared = e.last_shared;
            let mut systems: Vec<usize> = Vec::new();
            let mut k: usize = 0;
            while k < e.systems.len()
                invariant
                    0 <= k <= e.systems@.len(),
                    systems@ == e.systems@.take(k as int),
                decreases e.systems@.len() - k,
            {
                systems.push(e.systems[k]);
                k += 1;
                proof {
                    assert(systems@ =~= e.systems@.take(k as int));
                }
            }
            proof {
                assert(systems@ =~= e.systems@);
            }
            systems.push(system);
            self.0.set(resource, ResourceMutTrackerEntry { last_exclusive, last_shared, systems });
            proof {
                assert(self.entries() =~= p.update(
                    resource as int,
                    (last_exclusive, last_shared, p[resource as int].2.push(system)),
                ));
            }
            Ok(current_group)
        } else {
            let old = e.last_exclusive;
            let mut systems: Vec<usize> = Vec::new();
            systems.push(system);
            self.0.set(
                resource,
                ResourceMutTrackerEntry { last_exclusive: old, last_shared: current_group, systems },
            );
            proof {
                assert(self.entries() =~= p.update(
                    resource as int,
                    (old, current_group, seq![system]),
                ));
            }
            Ok(old)
        }
    }

    /// Records the accesses of `system` in `current_group`: the exclusive ones, then the
    /// shared ones, each in ascending order of the resource. Stops at the first conflict.
    /// When an access reports an earlier group, the entry of `system` in `result` is lowered
    /// to `current_group`.
    pub fn mark_access(
        &mut self,
        access: &ResourceAccess,
        current_group: usize,
        system: usize,
        result: &mut Vec<usize>,
    ) -> (r: Result<(), ResourceConflict>)
        requires
            entries_wf(old(self).entries()),
            current_group < usize::MAX,
            system < old(result)@.len(),
        ensures
            final(result)@.len() == old(result)@.len(),
            match accesses_fold(
                old(self).entries(),
                ops_of(*access),
                system,
                current_group,
                ops_of(*access).len() as int,
            ) {
                Ok((es, low)) => {
                    &&& r is Ok
                    &&& final(self).entries() == es
                    &&& entries_wf(final(self).entries())
                    &&& final(result)@ == lowered_to(old(result)@, system, current_group, low)
                },
                Err(c) => r is Err && r->Err_0.view() == c,
            },
    {
        let exclusive = access.exclusive.items();
        let shared = access.shared.items();
        let ghost ops = ops_of(*access);
        let ghost e0 = self.entries();
        let ghost r0 = result@;
        proof {
            assert(ascending_of(exclusive@, access.exclusive@));
            assert(ascending_of(shared@, access.shared@));
            lemma_ascending_unique(sorted_items(access.exclusive@), exclusive@, access.exclusive@);
            lemma_ascending_unique(sorted_items(access.shared@), shared@, access.shared@);
            assert(ops == access_ops(exclusive@, shared@));
            assert(ops.len() == exclusive@.len() + shared@.len());
        }
        let ghost mut low = false;
        let mut i: usize = 0;
        while i < exclusive.len()
            invariant
                0 <= i <= exclusive@.len(),
                ops == access_ops(exclusive@, shared@),
                ops == ops_of(*access),
                r0 == old(result)@,
                e0 == old(self).entries(),
                ops.len() == exclusive@.len() + shared@.len(),
                forall|j: int| 0 <= j < exclusive@.len() ==> exclusive@[j] < usize::MAX,
                current_group < usize::MAX,
                system < r0.len(),
                entries_wf(self.entries()),
                accesses_fold(e0, ops, system, current_group, i as int) == Ok::<
                    (Seq<EntryView>, bool),
                    ConflictView,
                >((self.entries(), low)),
                result@ == lowered_to(r0, system, current_group, low),
                result@.len() == r0.len(),
            decreases exclusive@.len() - i,
        {
            let resource = exclusive[i];
            let ghost es = self.entries();
            proof {
                assert(ops[i as int] == (true, resource));
            }
            let m = self.mark_exclusive(resource, current_group, system);
            match m {
                Err(c) => {
                    proof {
                        assert(accesses_fold(e0, ops, system, current_group, i + 1) == Err::<
                            (Seq<EntryView>, bool),
                            ConflictView,
                        >(c.view()));
                        lemma_fold_err(e0, ops, system, current_group, i + 1, ops.len() as int);
                    }
                    return Err(c);
                },
                Ok(old_group) => {
                    if old_group < current_group {
                        if result[system] > current_group {
                            result.set(system, current_group);
                        }
                    }
                    proof {
                        low = low || old_group < current_group;
                        assert(result@ =~= lowered_to(r0, system, current_group, low));
                    }
                },
            }
            i += 1;
        }
        let mut j: usize = 0;
        while j < shared.len()
            invariant
                0 <= j <= shared@.len(),
                ops == access_ops(exclusive@, shared@),
                ops == ops_of(*access),
                r0 == old(result)@,
                e0 == old(self).entries(),
                ops.len() == exclusive@.len() + shared@.len(),
                forall|q: int| 0 <= q < shared@.len() ==> shared@[q] < usize::MAX,
                current_group < usize::MAX,
                system < r0.len(),
                entries_wf(self.entries()),
                accesses_fold(e0, ops, system, current_group, exclusive@.len() + j) == Ok::<
                    (Seq<EntryView>, bool),
                    ConflictView,
                >((self.entries(), low)),
                result@ == lowered_to(r0, system, current_group, low),
                result@.len() == r0.len(),
            decreases shared@.len() - j,
        {
            let resource = shared[j];
            proof {
                assert(ops[exclusive@.len() + j] == (false, resource));
            }
            let m = self.mark_shared(resource, current_group, system);
            match m {
                Err(c) => {
                    proof {
                        let k = exclusive@.len() + j + 1;
                        assert(accesses_fold(e0, ops, system, current_group, k) == Err::<
                            (Seq<EntryView>, bool),
                            ConflictView,
                        >(c.view()));
                        lemma_fold_err(e0, ops, system, current_group, k, ops.len() as int);
                    }
                    return Err(c);
                },
                Ok(old_group) => {
                    if old_group < current_group {
                        if result[system] > current_group {
                            result.set(system, current_group);
                        }
                    }
                    proof {
                        low = low || old_group < current_group;
                        assert(result@ =~= lowered_to(r0, system, current_group, low));
                    }
                },
            }
            j += 1;
        }
        Ok(())
    }
}

/// Once the accesses fail, later prefixes fail with the same conflict.
proof fn lemma_fold_err(
    entries: Seq<EntryView>,
    ops: Seq<(bool, usize)>,
    sys: usize,
    g: usize,
    k: int,
    m: int,
)
    requires
        0 <= k <= m,
        accesses_fold(entries, ops, sys, g, k) is Err,
    ensures
        accesses_fold(entries, ops, sys, g, m) == accesses_fold(entries, ops, sys, g, k),
    decreases m - k,
{
    if k < m {
        lemma_fold_err(entries, ops, sys, g, k, m - 1);
    }
}

/// Every record names groups before `g`, or none.
pub open spec fn recorded_before(entries: Seq<EntryView>, g: usize) -> bool {
    forall|r: int|
        0 <= r < entries.len() ==> ((#[trigger] entries[r]).0 == usize::MAX || entries[r].0 < g)
            && (entries[r].1 == usize::MAX || entries[r].1 < g)
}

/// An access in a group after all recorded accesses never conflicts.
pub proof fn lemma_no_conflict_in_new_group(
    entries: Seq<EntryView>,
    op: (bool, usize),
    sys: usize,
    g: usize,
)
    requires
        recorded_before(entries, g),
        g < usize::MAX,
    ensures
        access_step(entries, op, sys, g) is Ok,
{
    let p = padded(entries, op.1 as int);
    if (op.1 as int) < entries.len() {
        assert(p[op.1 as int] == entries[op.1 as int]);
    } else {
        assert(p[op.1 as int] == none_entry());
    }
}

/// Two exclusive accesses to one resource within one group conflict, and the conflict
/// names both systems.
pub proof fn lemma_exclusive_twice_conflicts(
    entries: Seq<EntryView>,
    r: usize,
    sys_a: usize,
    sys_b: usize,
    g: usize,
)
    requires
        access_step(entries, (true, r), sys_a, g) is Ok,
    ensures
        access_step(access_step(entries, (true, r), sys_a, g)->Ok_0.0, (true, r), sys_b, g)
            == Err::<(Seq<EntryView>, usize), ConflictView>(
            ConflictView::ExclusiveExclusive(r, sys_a, sys_b),
        ),
{
    let es = access_step(entries, (true, r), sys_a, g)->Ok_0.0;
    let p = padded(entries, r as int);
    assert(es == p.update(r as int, (g, p[r as int].1, seq![sys_a])));
    assert(padded(es, r as int) == es);
}

/// Shared accesses within one group never conflict with each other, and the record keeps
/// every one of their systems.
pub proof fn lemma_shared_twice_kept(
    entries: Seq<EntryView>,
    r: usize,
    sys_a: usize,
    sys_b: usize,
    g: usize,
)
    requires
        access_step(entries, (false, r), sys_a, g) is Ok,
    ensures
        ({
            let es = access_step(entries, (false, r), sys_a, g)->Ok_0.0;
            &&& access_step(es, (false, r), sys_b, g) is Ok
            &&& access_step(es, (false, r), sys_b, g)->Ok_0.0[r as int].2 == es[r as int].2.push(
                sys_b,
            )
            &&& es[r as int].2.last() == sys_a
        }),
{
    let es = access_step(entries, (false, r), sys_a, g)->Ok_0.0;
    let p = padded(entries, r as int);
    let e = p[r as int];
    assert(padded(es, r as int) == es);
    if e.1 == g {
        assert(es == p.update(r as int, (e.0, e.1, e.2.push(sys_a))));
    } else {
        assert(es == p.update(r as int, (e.0, g, seq![sys_a])));
    }
}

} // verus!
