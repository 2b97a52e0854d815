//! Tracking of resource accesses from layer to layer.
//!
//! The tracker walks the layers of a schedule in order. For every resource it remembers the
//! layer of the last exclusive and of the last shared access, and the systems of those
//! accesses. Two accesses to a resource in one layer conflict unless both are shared; an
//! access in a later layer lowers the dependent layer of the earlier systems, the layer by
//! which they must have run.

use vstd::prelude::*;
use crate::resource::ResourceAccess;
use crate::schedule::{Layer, SystemId};

verus! {

/// What the tracker records of one resource: the layer of the last exclusive access, the
/// layer of the last shared access, and the systems of the last access.
pub type EntryView = (Layer, Layer, Seq<SystemId>);

/// The record of a resource that was never accessed.
pub open spec fn undefined_entry() -> EntryView {
    (Layer(usize::MAX), Layer(usize::MAX), Seq::empty())
}

/// The record of resource `r`.
pub open spec fn entry_at(entries: Seq<EntryView>, r: int) -> EntryView {
    if 0 <= r < entries.len() {
        entries[r]
    } else {
        undefined_entry()
    }
}

/// The records, grown with records of unused resources up to resource `r`.
pub open spec fn padded(entries: Seq<EntryView>, r: int) -> Seq<EntryView> {
    if r < entries.len() {
        entries
    } else {
        entries + Seq::new((r + 1 - entries.len()) as nat, |i: int| undefined_entry())
    }
}

/// The dependent layers after an access in layer `cur` that follows the accesses of
/// `systems`: each of them must have run by `cur`.
pub open spec fn lower_to(dl: Seq<Layer>, systems: Seq<SystemId>, cur: Layer) -> Seq<Layer> {
    Seq::new(
        dl.len(),
        |t: int|
            if systems.contains(SystemId(t as usize)) && (dl[t].0 == usize::MAX || cur.0
                < dl[t].0) {
                cur
            } else {
                dl[t]
            },
    )
}

/// An exclusive access in layer `cur` conflicts with the record `e`.
pub open spec fn exclusive_fails(e: EntryView, cur: Layer) -> bool {
    e.0 == cur || e.1 == cur
}

/// A shared access in layer `cur` conflicts with the record `e`.
pub open spec fn shared_fails(e: EntryView, cur: Layer) -> bool {
    e.0 == cur
}

/// Records and dependent layers after system `sys` asked for exclusive access to `r` in
/// layer `cur`.
pub open spec fn after_exclusive(
    entries: Seq<EntryView>,
    dl: Seq<Layer>,
    r: usize,
    sys: SystemId,
    cur: Layer,
) -> (Seq<EntryView>, Seq<Layer>) {
    let p = padded(entries, r as int);
    let e = p[r as int];
    if e.0 == cur {
        (p, dl)
    } else if e.1 == cur {
        (p.update(r as int, (e.0, e.1, Seq::empty())), dl)
    } else {
        (p.update(r as int, (cur, e.1, seq![sys])), lower_to(dl, e.2, cur))
    }
}

/// Records and dependent layers after system `sys` asked for shared access to `r` in layer
/// `cur`. After an exclusive access that came after the last shared one, the shared systems
/// start anew.
pub open spec fn after_shared(
    entries: Seq<EntryView>,
    dl: Seq<Layer>,
    r: usize,
    sys: SystemId,
    cur: Layer,
) -> (Seq<EntryView>, Seq<Layer>) {
    let p = padded(entries, r as int);
    let e = p[r as int];
    if e.0 == cur {
        (p, dl)
    } else if e.0.0 != usize::MAX && e.0.0 > e.1.0 {
        (p.update(r as int, (e.0, cur, seq![sys])), dl)
    } else {
        (p.update(r as int, (e.0, cur, e.2.push(sys))), lower_to(dl, e.2, cur))
    }
}

/// The conflict that an exclusive access of `sys` to `r` in layer `cur` reports against the
/// record `e`.
pub open spec fn exclusive_conflict(
    c: ResourceConflict,
    e: EntryView,
    r: usize,
    sys: SystemId,
    cur: Layer,
) -> bool {
    if e.0 == cur {
        c matches ResourceConflict::ExclusiveExclusive { resource, system_a, system_b, layer }
            && resource == r && system_a == e.2[0] && system_b == sys && layer == cur.0
    } else {
        c matches ResourceConflict::SharedExclusive {
            resource,
            system_shared,
            system_exclusive,
            layer,
        } && resource == r && system_shared@ == e.2 && system_exclusive == sys && layer == cur.0
    }
}

/// The conflict that a shared access of `sys` to `r` in layer `cur` reports against the
/// record `e`.
pub open spec fn shared_conflict(
    c: ResourceConflict,
    e: EntryView,
    r: usize,
    sys: SystemId,
    cur: Layer,
) -> bool {
    c matches ResourceConflict::SharedExclusive {
        resource,
        system_shared,
        system_exclusive,
        layer,
    } && resource == r && system_shared@ == seq![sys] && system_exclusive == e.2[0] && layer
        == cur.0
}

/// A record as the tracker keeps it: the two layers differ when both are defined, and an
/// exclusive access that is the latest one has its system recorded.
pub open spec fn entry_wf(e: EntryView) -> bool {
    &&& (e.0.0 != usize::MAX && e.1.0 != usize::MAX ==> e.0 != e.1)
    &&& (e.0.0 != usize::MAX && (e.1.0 == usize::MAX || e.0.0 > e.1.0) ==> e.2.len() > 0)
}

/// The layers of the record are not after `cur`.
pub open spec fn entry_layers_bounded(e: EntryView, cur: Layer) -> bool {
    &&& (e.0.0 == usize::MAX || e.0.0 <= cur.0)
    &&& (e.1.0 == usize::MAX || e.1.0 <= cur.0)
}

/// The layers of the record are not after `cur`, and its systems are below `n`.
pub open spec fn entry_bounded(e: EntryView, cur: Layer, n: nat) -> bool {
    &&& entry_layers_bounded(e, cur)
    &&& forall|k: int| 0 <= k < e.2.len() ==> (#[trigger] e.2[k]).0 < n
}

/// Every record is well formed, with no layer after `cur`.
pub open spec fn tracker_layered(entries: Seq<EntryView>, cur: Layer) -> bool {
    forall|r: int|
        0 <= r < entries.len() ==> entry_wf(#[trigger] entries[r]) && entry_layers_bounded(
            entries[r],
            cur,
        )
}

/// Every record is well formed and bounded by layer `cur` and `n` systems: accesses in layer
/// `cur` and later can be marked.
pub open spec fn tracker_ready(entries: Seq<EntryView>, cur: Layer, n: nat) -> bool {
    forall|r: int|
        0 <= r < entries.len() ==> entry_wf(#[trigger] entries[r]) && entry_bounded(
            entries[r],
            cur,
            n,
        )
}

/// `xs` lists the indices of `s` in ascending order.
pub open spec fn ascending_of(xs: Seq<usize>, s: Set<usize>) -> bool {
    &&& xs.to_set() == s
    &&& forall|i: int, j: int| 0 <= i < j < xs.len() ==> xs[i] < xs[j]
}

/// The indices of a finite set of indices, in ascending order.
pub open spec fn sorted_items(s: Set<usize>) -> Seq<usize> {
    choose|xs: Seq<usize>| ascending_of(xs, s)
}

/// A set has at most one ascending listing.
pub proof fn lemma_ascending_unique(xs: Seq<usize>, ys: Seq<usize>, s: Set<usize>)
    requires
        ascending_of(xs, s),
        ascending_of(ys, s),
    ensures
        xs == ys,
    decreases xs.len(),
{
    if xs.len() == 0 {
        if ys.len() > 0 {
            assert(ys.to_set().contains(ys[0]));
            assert(!xs.contains(ys[0]));
        }
        assert(xs =~= ys);
    } else if ys.len() == 0 {
        assert(xs.to_set().contains(xs[0]));
        assert(!ys.contains(xs[0]));
    } else {
        assert(xs.to_set().contains(xs[0]));
        assert(ys.contains(xs[0]));
        assert(ys.to_set().contains(ys[0]));
        assert(xs.contains(ys[0]));
        let a = choose|a: int| 0 <= a < ys.len() && ys[a] == xs[0];
        let b = choose|b: int| 0 <= b < xs.len() && xs[b] == ys[0];
        assert(xs[0] == ys[0]) by {
            if a > 0 {
                assert(ys[0] < ys[a]);
            }
            if b > 0 {
                assert(xs[0] < xs[b]);
            }
        }
        let s1 = s.remove(xs[0]);
        assert(ascending_of(xs.drop_first(), s1)) by {
            assert forall|x: usize| xs.drop_first().contains(x) <==> s1.contains(x) by {
                if xs.drop_first().contains(x) {
                    let i = choose|i: int| 0 <= i < xs.drop_first().len() && xs.drop_first()[i] == x;
                    assert(xs[i + 1] == x);
                    assert(xs.contains(x));
                    assert(xs[0] < xs[i + 1]);
                }
                if s1.contains(x) {
                    assert(xs.to_set().contains(x));
                    let i = choose|i: int| 0 <= i < xs.len() && xs[i] == x;
                    assert(i != 0);
                    assert(xs.drop_first()[i - 1] == x);
                }
            }
            assert(xs.drop_first().to_set() =~= s1);
        }
        assert(ascending_of(ys.drop_first(), s1)) by {
            assert forall|x: usize| ys.drop_first().contains(x) <==> s1.contains(x) by {
                if ys.drop_first().contains(x) {
                    let i = choose|i: int| 0 <= i < ys.drop_first().len() && ys.drop_first()[i] == x;
                    assert(ys[i + 1] == x);
                    assert(ys.contains(x));
                    assert(ys[0] < ys[i + 1]);
                }
                if s1.contains(x) {
                    assert(ys.to_set().contains(x));
                    let i = choose|i: int| 0 <= i < ys.len() && ys[i] == x;
                    assert(i != 0);
                    assert(ys.drop_first()[i - 1] == x);
                }
            }
            assert(ys.drop_first().to_set() =~= s1);
        }
        lemma_ascending_unique(xs.drop_first(), ys.drop_first(), s1);
        assert(xs =~= ys) by {
            assert forall|i: int| 0 <= i < xs.len() implies xs[i] == ys[i] by {
                if i > 0 {
                    assert(xs[i] == xs.drop_first()[i - 1]);
                    assert(ys[i] == ys.drop_first()[i - 1]);
                }
            }
        }
    }
}

/// The state of the marking: the records and the dependent layers.
pub type TrackState = (Seq<EntryView>, Seq<Layer>);

/// The accesses of one call of `mark_access`: the exclusive ones, then the shared ones,
/// each as (exclusive, resource).
pub open spec fn access_ops(exclusive: Seq<usize>, shared: Seq<usize>) -> Seq<(bool, usize)> {
    exclusive.map_values(|x: usize| (true, x)) + shared.map_values(|x: usize| (false, x))
}

/// The access `op` conflicts in state `st`.
pub open spec fn op_fails(st: TrackState, op: (bool, usize), cur: Layer) -> bool {
    let e = entry_at(st.0, op.1 as int);
    if op.0 {
        exclusive_fails(e, cur)
    } else {
        shared_fails(e, cur)
    }
}

/// The state after the access `op` of `sys` in layer `cur`.
pub open spec fn after_op(st: TrackState, op: (bool, usize), sys: SystemId, cur: Layer) -> TrackState {
    if op.0 {
        after_exclusive(st.0, st.1, op.1, sys, cur)
    } else {
        after_shared(st.0, st.1, op.1, sys, cur)
    }
}

/// `c` is the conflict that the access `op` reports in state `st`.
pub open spec fn op_conflict(
    c: ResourceConflict,
    st: TrackState,
    op: (bool, usize),
    sys: SystemId,
    cur: Layer,
) -> bool {
    let e = entry_at(st.0, op.1 as int);
    if op.0 {
        exclusive_conflict(c, e, op.1, sys, cur)
    } else {
        shared_conflict(c, e, op.1, sys, cur)
    }
}

/// The state after the first `k` accesses of `ops`.
pub open spec fn state_after(
    st: TrackState,
    ops: Seq<(bool, usize)>,
    sys: SystemId,
    cur: Layer,
    k: int,
) -> TrackState
    decreases k,
{
    if k <= 0 {
        st
    } else {
        after_op(state_after(st, ops, sys, cur, k - 1), ops[k - 1], sys, cur)
    }
}

/// The systems that the conflict names are below `n`.
pub open spec fn conflict_ids_below(c: ResourceConflict, n: nat) -> bool {
    match c {
        ResourceConflict::ExclusiveExclusive { system_a, system_b, .. } => system_a.0 < n
            && system_b.0 < n,
        ResourceConflict::SharedExclusive { system_shared, system_exclusive, .. } => {
            &&& system_exclusive.0 < n
            &&& forall|k: int| 0 <= k < system_shared@.len() ==> (#[trigger] system_shared@[k]).0 < n
        },
    }
}

/// Marking `ops` from state `st` returns `r` and ends in state `fin`: the accesses are
/// marked in order up to the first that conflicts, whose conflict is returned.
pub open spec fn marked(
    st: TrackState,
    ops: Seq<(bool, usize)>,
    sys: SystemId,
    cur: Layer,
    r: Result<(), ResourceConflict>,
    fin: TrackState,
) -> bool {
    match r {
        Ok(()) => {
            &&& forall|k: int|
                0 <= k < ops.len() ==> !op_fails(
                    #[trigger] state_after(st, ops, sys, cur, k),
                    ops[k],
                    cur,
                )
            &&& fin == state_after(st, ops, sys, cur, ops.len() as int)
        },
        Err(c) => exists|k: int|
            0 <= k < ops.len() && (forall|j: int|
                0 <= j < k ==> !op_fails(#[trigger] state_after(st, ops, sys, cur, j), ops[j], cur))
                && op_fails(#[trigger] state_after(st, ops, sys, cur, k), ops[k], cur)
                && op_conflict(c, state_after(st, ops, sys, cur, k), ops[k], sys, cur) && fin
                == state_after(st, ops, sys, cur, k + 1),
    }
}

/// Every record whose last shared access is in layer `cur`, and that still holds systems,
/// holds one of `m`.
pub open spec fn recent_shared_in(entries: Seq<EntryView>, cur: Layer, m: Set<SystemId>) -> bool {
    forall|r: int|
        0 <= r < entries.len() && (#[trigger] entries[r]).1 == cur && entries[r].2.len() > 0
            ==> exists|k: int| 0 <= k < entries[r].2.len() && m.contains(entries[r].2[k])
}

proof fn lemma_recent_step(st: TrackState, op: (bool, usize), sys: SystemId, cur: Layer, m: Set<SystemId>)
    requires
        cur.0 != usize::MAX,
        recent_shared_in(st.0, cur, m),
    ensures
        recent_shared_in(after_op(st, op, sys, cur).0, cur, m.insert(sys)),
{
    let p = padded(st.0, op.1 as int);
    let e = p[op.1 as int];
    let fin = after_op(st, op, sys, cur).0;
    assert forall|r: int|
        0 <= r < fin.len() && (#[trigger] fin[r]).1 == cur && fin[r].2.len() > 0 implies exists|
        k: int,
    | 0 <= k < fin[r].2.len() && m.insert(sys).contains(fin[r].2[k]) by {
        if r == op.1 {
            if op.0 {
                if e.0 == cur {
                } else if e.1 == cur {
                } else {
                    assert(fin[r].2[0] == sys);
                }
            } else {
                if e.0 == cur {
                } else if e.0.0 != usize::MAX && e.0.0 > e.1.0 {
                    assert(fin[r].2[0] == sys);
                } else {
                    assert(fin[r].2[e.2.len() as int] == sys);
                }
            }
            if e.1 == cur && e.2.len() > 0 && fin[r].2 == e.2 {
                assert(r < st.0.len()) by {
                    if r >= st.0.len() {
                        assert(p[r] == undefined_entry());
                    }
                }
                assert(st.0[r] == e);
                let k = choose|k: int| 0 <= k < e.2.len() && m.contains(e.2[k]);
                assert(m.insert(sys).contains(fin[r].2[k]));
            }
        } else {
            assert(r < st.0.len()) by {
                if r >= st.0.len() {
                    assert(fin[r] == p[r]);
                    assert(p[r] == undefined_entry());
                }
            }
            assert(fin[r] == st.0[r]);
            let k = choose|k: int| 0 <= k < st.0[r].2.len() && m.contains(st.0[r].2[k]);
            assert(m.insert(sys).contains(fin[r].2[k]));
        }
    }
}

proof fn lemma_recent_after(
    st: TrackState,
    ops: Seq<(bool, usize)>,
    sys: SystemId,
    cur: Layer,
    m: Set<SystemId>,
    k: int,
)
    requires
        cur.0 != usize::MAX,
        recent_shared_in(st.0, cur, m),
        0 <= k,
    ensures
        recent_shared_in(state_after(st, ops, sys, cur, k).0, cur, m.insert(sys)),
    decreases k,
{
    if k == 0 {
        assert forall|r: int|
            0 <= r < st.0.len() && (#[trigger] st.0[r]).1 == cur && st.0[r].2.len() > 0 implies exists|
            j: int,
        | 0 <= j < st.0[r].2.len() && m.insert(sys).contains(st.0[r].2[j]) by {
            let j = choose|j: int| 0 <= j < st.0[r].2.len() && m.contains(st.0[r].2[j]);
            assert(m.insert(sys).contains(st.0[r].2[j]));
        }
    } else {
        lemma_recent_after(st, ops, sys, cur, m, k - 1);
        lemma_recent_step(state_after(st, ops, sys, cur, k - 1), ops[k - 1], sys, cur, m.insert(sys));
        assert(m.insert(sys).insert(sys) =~= m.insert(sys));
    }
}

/// Marking keeps the recent shared systems among `m` and the marked system; a conflict
/// between shared and exclusive access names no shared system, or one of them.
pub proof fn lemma_recent_marked(
    st: TrackState,
    ops: Seq<(bool, usize)>,
    sys: SystemId,
    cur: Layer,
    r: Result<(), ResourceConflict>,
    fin: TrackState,
    m: Set<SystemId>,
)
    requires
        cur.0 != usize::MAX,
        marked(st, ops, sys, cur, r, fin),
        recent_shared_in(st.0, cur, m),
    ensures
        recent_shared_in(fin.0, cur, m.insert(sys)),
        r matches Err(ResourceConflict::SharedExclusive { system_shared, .. }) ==> (
        system_shared@.len() == 0 || exists|k: int|
            0 <= k < system_shared@.len() && m.insert(sys).contains(system_shared@[k])),
{
    match r {
        Ok(()) => {
            lemma_recent_after(st, ops, sys, cur, m, ops.len() as int);
        },
        Err(c) => {
            let k = choose|k: int|
                0 <= k < ops.len() && (forall|j: int|
                    0 <= j < k ==> !op_fails(#[trigger] state_after(st, ops, sys, cur, j), ops[j], cur))
                    && op_fails(#[trigger] state_after(st, ops, sys, cur, k), ops[k], cur)
                    && op_conflict(c, state_after(st, ops, sys, cur, k), ops[k], sys, cur) && fin
                    == state_after(st, ops, sys, cur, k + 1);
            lemma_recent_after(st, ops, sys, cur, m, k + 1);
            lemma_recent_after(st, ops, sys, cur, m, k);
            let sk = state_after(st, ops, sys, cur, k);
            let e = entry_at(sk.0, ops[k].1 as int);
            match c {
                ResourceConflict::SharedExclusive { system_shared, .. } => {
                if system_shared@.len() > 0 {
                    if ops[k].0 {
                        assert(e.1 == cur && system_shared@ == e.2);
                        let q = ops[k].1 as int;
                        assert(0 <= q < sk.0.len());
                        assert(sk.0[q] == e);
                        let j = choose|j: int|
                            0 <= j < e.2.len() && m.insert(sys).contains(e.2[j]);
                        assert(m.insert(sys).contains(system_shared@[j]));
                    } else {
                        assert(system_shared@[0] == sys);
                    }
                }
                },
                _ => {},
            }
        },
    }
}

/// An access to a resource that was not accessed in layer `cur` does not conflict: accesses
/// in different layers never do.
pub proof fn lemma_no_conflict_across_layers(e: EntryView, cur: Layer)
    requires
        e.0 != cur,
        e.1 != cur,
    ensures
        !exclusive_fails(e, cur),
        !shared_fails(e, cur),
{
}

/// Two exclusive accesses to a resource in one layer conflict.
pub proof fn lemma_exclusive_twice_conflicts(
    entries: Seq<EntryView>,
    dl: Seq<Layer>,
    r: usize,
    a: SystemId,
    cur: Layer,
)
    requires
        !exclusive_fails(entry_at(entries, r as int), cur),
    ensures
        exclusive_fails(entry_at(after_exclusive(entries, dl, r, a, cur).0, r as int), cur),
{
    assert(padded(entries, r as int)[r as int] == entry_at(entries, r as int)) by {
        if r >= entries.len() {
            assert(padded(entries, r as int)[r as int] == undefined_entry());
        }
    }
}

/// Two shared accesses to a resource in one layer do not conflict, while an exclusive access
/// after a shared one in the same layer does.
pub proof fn lemma_shared_then_access(
    entries: Seq<EntryView>,
    dl: Seq<Layer>,
    r: usize,
    a: SystemId,
    cur: Layer,
)
    requires
        !shared_fails(entry_at(entries, r as int), cur),
    ensures
        !shared_fails(entry_at(after_shared(entries, dl, r, a, cur).0, r as int), cur),
        exclusive_fails(entry_at(after_shared(entries, dl, r, a, cur).0, r as int), cur),
{
    assert(padded(entries, r as int)[r as int] == entry_at(entries, r as int)) by {
        if r >= entries.len() {
            assert(padded(entries, r as int)[r as int] == undefined_entry());
        }
    }
}

/// What the tracker records of one resource.
struct ResourceMutTrackerEntry {
    last_exclusive: Layer,
    last_shared: Layer,
    systems: Vec<SystemId>,
}

impl ResourceMutTrackerEntry {
    spec fn view_entry(&self) -> EntryView {
        (self.last_exclusive, self.last_shared, self.systems@)
    }

    fn undefined() -> (r: Self)
        ensures
            r.view_entry() == undefined_entry(),
    {
        ResourceMutTrackerEntry {
            last_exclusive: Layer::undefined(),
            last_shared: Layer::undefined(),
            systems: Vec::new(),
        }
    }
}

/// The accesses to each resource, as far as the layers walked so far have them.
pub struct ResourceMutTracker(Vec<ResourceMutTrackerEntry>);

/// Two accesses to one resource in one layer that cannot run side by side.
#[derive(Clone, Debug)]
pub enum ResourceConflict {
    /// Systems `system_a` and `system_b` both ask for exclusive access to `resource` in
    /// `layer`.
    ExclusiveExclusive { resource: usize, system_a: SystemId, system_b: SystemId, layer: usize },
    /// The systems `system_shared` ask for shared access to `resource` and the system
    /// `system_exclusive` for exclusive access, in `layer`.
    SharedExclusive {
        resource: usize,
        system_shared: Vec<SystemId>,
        system_exclusive: SystemId,
        layer: usize,
    },
}

/// Growing the records keeps them ready, and the grown records hold the record of `r` at `r`.
proof fn lemma_padded_ready(entries: Seq<EntryView>, r: int, cur: Layer, n: nat)
    requires
        0 <= r,
        tracker_ready(entries, cur, n),
    ensures
        tracker_ready(padded(entries, r), cur, n),
        padded(entries, r).len() > r,
        padded(entries, r)[r] == entry_at(entries, r),
        entry_wf(entry_at(entries, r)),
        entry_bounded(entry_at(entries, r), cur, n),
        forall|q: int| #![all_triggers] 0 <= q < entries.len() ==> padded(entries, r)[q] == entries[q],
{
    let p = padded(entries, r);
    assert forall|q: int| 0 <= q < p.len() implies entry_wf(#[trigger] p[q]) && entry_bounded(
        p[q],
        cur,
        n,
    ) by {
        if q >= entries.len() {
            assert(p[q] == undefined_entry());
        }
    }
    if r >= entries.len() {
        assert(p[r] == undefined_entry());
    }
}

/// Growing the records keeps them well formed, and the grown records hold the record of `r`
/// at `r`.
proof fn lemma_padded_layered(entries: Seq<EntryView>, r: int, cur: Layer)
    requires
        0 <= r,
        tracker_layered(entries, cur),
    ensures
        tracker_layered(padded(entries, r), cur),
        padded(entries, r).len() > r,
        padded(entries, r)[r] == entry_at(entries, r),
        entry_wf(entry_at(entries, r)),
        entry_layers_bounded(entry_at(entries, r), cur),
        forall|q: int| 0 <= q ==> #[trigger] entry_at(padded(entries, r), q) == entry_at(entries, q),
{
    let p = padded(entries, r);
    assert forall|q: int| 0 <= q < p.len() implies entry_wf(#[trigger] p[q])
        && entry_layers_bounded(p[q], cur) by {
        if q >= entries.len() {
            assert(p[q] == undefined_entry());
        }
    }
    if r >= entries.len() {
        assert(p[r] == undefined_entry());
    }
    assert forall|q: int| 0 <= q implies #[trigger] entry_at(p, q) == entry_at(entries, q) by {
        if entries.len() <= q < p.len() {
            assert(p[q] == undefined_entry());
        }
    }
}

/// Replacing a record by a well-formed one keeps the records ready.
proof fn lemma_update_ready(p: Seq<EntryView>, r: int, e1: EntryView, cur: Layer, m: nat)
    requires
        0 <= r < p.len(),
        tracker_ready(p, cur, m),
        entry_wf(e1),
        entry_bounded(e1, cur, m),
    ensures
        tracker_ready(p.update(r, e1), cur, m),
{
    assert forall|q: int| 0 <= q < p.len() implies entry_wf(#[trigger] p.update(r, e1)[q])
        && entry_bounded(p.update(r, e1)[q], cur, m) by {
        assert(entry_wf(p[q]) && entry_bounded(p[q], cur, m));
    }
}

/// Replacing a record by a well-formed one keeps the records well formed.
proof fn lemma_update_layered(p: Seq<EntryView>, r: int, e1: EntryView, cur: Layer)
    requires
        0 <= r < p.len(),
        tracker_layered(p, cur),
        entry_wf(e1),
        entry_layers_bounded(e1, cur),
    ensures
        tracker_layered(p.update(r, e1), cur),
        forall|q: int| 0 <= q && q != r ==> #[trigger] entry_at(p.update(r, e1), q) == entry_at(p, q),
        entry_at(p.update(r, e1), r) == e1,
{
    assert forall|q: int| 0 <= q < p.len() implies entry_wf(#[trigger] p.update(r, e1)[q])
        && entry_layers_bounded(p.update(r, e1)[q], cur) by {
        assert(entry_wf(p[q]) && entry_layers_bounded(p[q], cur));
    }
}

/// The dependent layers lowered for the systems of `systems`: each of them must have run by
/// `cur`.
fn lower_dependent_layers(systems: &Vec<SystemId>, cur: Layer, dl: &mut Vec<Layer>)
    requires
        cur.0 < usize::MAX,
        forall|k: int| 0 <= k < systems@.len() ==> (#[trigger] systems@[k]).0 < old(dl)@.len(),
    ensures
        final(dl)@ == lower_to(old(dl)@, systems@, cur),
{
    let ghost dl0 = dl@;
    let _n = dl.len();
    let mut k: usize = 0;
    while k < systems.len()
        invariant
            0 <= k <= systems@.len(),
            dl0.len() <= usize::MAX,
            cur.0 < usize::MAX,
            dl@.len() == dl0.len(),
            forall|j: int| 0 <= j < systems@.len() ==> (#[trigger] systems@[j]).0 < dl0.len(),
            dl@ == lower_to(dl0, systems@.take(k as int), cur),
        decreases systems@.len() - k,
    {
        let s = systems[k].0;
        let old_layer = dl[s];
        let ghost before = dl@;
        if old_layer.0 == usize::MAX || cur.0 < old_layer.0 {
            dl.set(s, cur);
        }
        proof {
            assert forall|t: int| 0 <= t < dl0.len() implies #[trigger] dl@[t] == lower_to(
                dl0,
                systems@.take(k + 1),
                cur,
            )[t] by {
                let a = systems@.take(k as int);
                let b = systems@.take(k + 1);
                assert(b =~= a.push(systems@[k as int]));
                vstd::seq_lib::lemma_seq_contains_after_push(
                    a,
                    systems@[k as int],
                    SystemId(t as usize),
                );
                assert(before[t] == lower_to(dl0, a, cur)[t]);
                if t == s {
                    assert(systems@[k as int] == SystemId(t as usize));
                    assert(b.contains(SystemId(t as usize)));
                } else {
                    assert(systems@[k as int] != SystemId(t as usize));
                    assert(dl@[t] == before[t]);
                }
            }
            assert(dl@ =~= lower_to(dl0, systems@.take(k + 1), cur));
        }
        k += 1;
    }
    assert(systems@.take(systems@.len() as int) =~= systems@);
}

impl ResourceMutTracker {
    /// The records, indexed by resource.
    pub closed spec fn entries(&self) -> Seq<EntryView> {
        self.0@.map_values(|e: ResourceMutTrackerEntry| e.view_entry())
    }

    /// A tracker that has seen no access.
    pub fn new() -> (r: Self)
        ensures
            r.entries() == Seq::<EntryView>::empty(),
    {
        let r = ResourceMutTracker(Vec::new());
        assert(r.entries() =~= Seq::<EntryView>::empty());
        r
    }

    /// The record of `resource`, for changing; records of unused resources are added up to
    /// it.
    fn get_entry_mut(&mut self, resource: usize) -> (r: &mut ResourceMutTrackerEntry)
        requires
            resource < usize::MAX,
        ensures
            r.view_entry() == entry_at(old(self).entries(), resource as int),
            final(self).entries() == padded(old(self).entries(), resource as int).update(
                resource as int,
                final(r).view_entry(),
            ),
    {
        let ghost old_entries = self.entries();
        if self.0.len() <= resource {
            while self.0.len() <= resource
                invariant
                    resource < usize::MAX,
                    old_entries.len() <= resource,
                    old_entries.len() <= self.0@.len() <= resource + 1,
                    self.entries() =~= old_entries + Seq::new(
                        (self.0@.len() - old_entries.len()) as nat,
                        |i: int| undefined_entry(),
                    ),
                decreases resource + 1 - self.0@.len(),
            {
                let e = ResourceMutTrackerEntry::undefined();
                let ghost before = self.entries();
                self.0.push(e);
                assert(self.entries() =~= before.push(undefined_entry()));
            }
            assert(self.entries() =~= padded(old_entries, resource as int));
        }
        assert(self.entries() == padded(old_entries, resource as int));
        assert(self.entries()[resource as int] == self.0@[resource as int].view_entry());
        let r = &mut self.0[resource];
        r
    }

    /// Marks an exclusive access of `current_system` to `current_resource` in
    /// `current_layer`: a conflict when the resource was accessed in that layer already;
    /// otherwise the systems of the last access must have run by this layer.
    fn mark_exclusive(
        &mut self,
        current_resource: usize,
        current_system: SystemId,
        current_layer: Layer,
        system_dependent_layers: &mut Vec<Layer>,
    ) -> (r: Result<(), ResourceConflict>)
        requires
            current_resource < usize::MAX,
            current_layer.0 < usize::MAX,
            tracker_layered(old(self).entries(), current_layer),
            !exclusive_fails(entry_at(old(self).entries(), current_resource as int), current_layer)
                ==> forall|k: int|
                0 <= k < entry_at(old(self).entries(), current_resource as int).2.len() ==> (
                #[trigger] entry_at(old(self).entries(), current_resource as int).2[k]).0 < old(
                system_dependent_layers,
            )@.len(),
        ensures
            (r is Ok) == !exclusive_fails(
                entry_at(old(self).entries(), current_resource as int),
                current_layer,
            ),
            r matches Err(c) ==> exclusive_conflict(
                c,
                entry_at(old(self).entries(), current_resource as int),
                current_resource,
                current_system,
                current_layer,
            ),
            (final(self).entries(), final(system_dependent_layers)@) == after_exclusive(
                old(self).entries(),
                old(system_dependent_layers)@,
                current_resource,
                current_system,
                current_layer,
            ),
            tracker_layered(final(self).entries(), current_layer),
            forall|m: nat|
                tracker_ready(old(self).entries(), current_layer, m) && current_system.0 < m
                    ==> #[trigger] tracker_ready(final(self).entries(), current_layer, m),
    {
        let ghost entries0 = self.entries();
        let ghost e0 = entry_at(entries0, current_resource as int);
        let ghost p = padded(entries0, current_resource as int);
        let ghost r0 = current_resource as int;
        proof {
            lemma_padded_layered(entries0, r0, current_layer);
        }
        let entry = self.get_entry_mut(current_resource);
        if entry.last_exclusive == current_layer {
            let system_a = entry.systems[0];
            proof {
                assert(p.update(r0, e0) =~= p);
                assert forall|m: nat|
                    tracker_ready(entries0, current_layer, m) && current_system.0
                        < m implies #[trigger] tracker_ready(p, current_layer, m) by {
                    lemma_padded_ready(entries0, r0, current_layer, m);
                }
            }
            Err(
                ResourceConflict::ExclusiveExclusive {
                    resource: current_resource,
                    system_a,
                    system_b: current_system,
                    layer: current_layer.0,
                },
            )
        } else if entry.last_shared == current_layer {
            let mut taken: Vec<SystemId> = Vec::new();
            std::mem::swap(&mut taken, &mut entry.systems);
            proof {
                let e1: EntryView = (e0.0, e0.1, Seq::empty());
                lemma_update_layered(p, r0, e1, current_layer);
                assert forall|m: nat|
                    tracker_ready(entries0, current_layer, m) && current_system.0
                        < m implies #[trigger] tracker_ready(p.update(r0, e1), current_layer, m) by {
                    lemma_padded_ready(entries0, r0, current_layer, m);
                    lemma_update_ready(p, r0, e1, current_layer, m);
                }
            }
            Err(
                ResourceConflict::SharedExclusive {
                    resource: current_resource,
                    system_shared: taken,
                    system_exclusive: current_system,
                    layer: current_layer.0,
                },
            )
        } else {
            proof {
                assert(entry.view_entry() == e0);
                assert forall|k: int| 0 <= k < entry.systems@.len() implies (
                #[trigger] entry.systems@[k]).0 < system_dependent_layers@.len() by {
                    assert(e0.2[k] == entry.systems@[k]);
                }
            }
            lower_dependent_layers(&entry.systems, current_layer, system_dependent_layers);
            entry.last_exclusive = current_layer;
            entry.systems.clear();
            entry.systems.push(current_system);
            proof {
                let e1: EntryView = (current_layer, e0.1, seq![current_system]);
                assert(entry.systems@ =~= seq![current_system]);
                lemma_update_layered(p, r0, e1, current_layer);
                assert forall|m: nat|
                    tracker_ready(entries0, current_layer, m) && current_system.0
                        < m implies #[trigger] tracker_ready(p.update(r0, e1), current_layer, m) by {
                    lemma_padded_ready(entries0, r0, current_layer, m);
                    lemma_update_ready(p, r0, e1, current_layer, m);
                }
            }
            Ok(())
        }
    }

    /// Marks a shared access of `current_system` to `current_resource` in `current_layer`:
    /// a conflict when the resource was accessed exclusively in that layer; otherwise the
    /// system joins the shared systems, which start anew after a later exclusive access.
    fn mark_shared(
        &mut self,
        current_resource: usize,
        current_system: SystemId,
        current_layer: Layer,
        system_dependent_layers: &mut Vec<Layer>,
    ) -> (r: Result<(), ResourceConflict>)
        requires
            current_resource < usize::MAX,
            current_layer.0 < usize::MAX,
            tracker_layered(old(self).entries(), current_layer),
            !shared_fails(entry_at(old(self).entries(), current_resource as int), current_layer)
                ==> forall|k: int|
                0 <= k < entry_at(old(self).entries(), current_resource as int).2.len() ==> (
                #[trigger] entry_at(old(self).entries(), current_resource as int).2[k]).0 < old(
                system_dependent_layers,
            )@.len(),
        ensures
            (r is Ok) == !shared_fails(
                entry_at(old(self).entries(), current_resource as int),
                current_layer,
            ),
            r matches Err(c) ==> shared_conflict(
                c,
                entry_at(old(self).entries(), current_resource as int),
                current_resource,
                current_system,
                current_layer,
            ),
            (final(self).entries(), final(system_dependent_layers)@) == after_shared(
                old(self).entries(),
                old(system_dependent_layers)@,
                current_resource,
                current_system,
                current_layer,
            ),
            tracker_layered(final(self).entries(), current_layer),
            forall|m: nat|
                tracker_ready(old(self).entries(), current_layer, m) && current_system.0 < m
                    ==> #[trigger] tracker_ready(final(self).entries(), current_layer, m),
    {
        let ghost entries0 = self.entries();
        let ghost e0 = entry_at(entries0, current_resource as int);
        let ghost p = padded(entries0, current_resource as int);
        let ghost r0 = current_resource as int;
        proof {
            lemma_padded_layered(entries0, r0, current_layer);
        }
        let entry = self.get_entry_mut(current_resource);
        if entry.last_exclusive == current_layer {
            let system_exclusive = entry.systems[0];
            let mut system_shared: Vec<SystemId> = Vec::new();
            system_shared.push(current_system);
            proof {
                assert(p.update(r0, e0) =~= p);
                assert(system_shared@ =~= seq![current_system]);
                assert forall|m: nat|
                    tracker_ready(entries0, current_layer, m) && current_system.0
                        < m implies #[trigger] tracker_ready(p, current_layer, m) by {
                    lemma_padded_ready(entries0, r0, current_layer, m);
                }
            }
            Err(
                ResourceConflict::SharedExclusive {
                    resource: current_resource,
                    system_exclusive,
                    system_shared,
                    layer: current_layer.0,
                },
            )
        } else if entry.last_exclusive.0 != usize::MAX && entry.last_exclusive.0
            > entry.last_shared.0 {
            entry.last_shared = current_layer;
            entry.systems.clear();
            entry.systems.push(current_system);
            proof {
                let e1: EntryView = (e0.0, current_layer, seq![current_system]);
                assert(entry.systems@ =~= seq![current_system]);
                lemma_update_layered(p, r0, e1, current_layer);
                assert forall|m: nat|
                    tracker_ready(entries0, current_layer, m) && current_system.0
                        < m implies #[trigger] tracker_ready(p.update(r0, e1), current_layer, m) by {
                    lemma_padded_ready(entries0, r0, current_layer, m);
                    lemma_update_ready(p, r0, e1, current_layer, m);
                }
            }
            Ok(())
        } else {
            proof {
                assert(entry.view_entry() == e0);
                assert forall|k: int| 0 <= k < entry.systems@.len() implies (
                #[trigger] entry.systems@[k]).0 < system_dependent_layers@.len() by {
                    assert(e0.2[k] == entry.systems@[k]);
                }
            }
            lower_dependent_layers(&entry.systems, current_layer, system_dependent_layers);
            entry.last_shared = current_layer;
            entry.systems.push(current_system);
            proof {
                let e1: EntryView = (e0.0, current_layer, e0.2.push(current_system));
                lemma_update_layered(p, r0, e1, current_layer);
                assert forall|m: nat|
                    tracker_ready(entries0, current_layer, m) && current_system.0
                        < m implies #[trigger] tracker_ready(p.update(r0, e1), current_layer, m) by {
                    lemma_padded_ready(entries0, r0, current_layer, m);
                    assert(entry_bounded(e1, current_layer, m)) by {
                        assert forall|k: int| 0 <= k < e1.2.len() implies (#[trigger] e1.2[k]).0
                            < m by {
                            if k < e0.2.len() {
                                assert(e1.2[k] == e0.2[k]);
                            }
                        }
                    }
                    lemma_update_ready(p, r0, e1, current_layer, m);
                }
            }
            Ok(())
        }
    }

    /// Marks the accesses of `current_system` in `current_layer`: first the exclusive ones,
    /// then the shared ones, each in ascending order of the resource, up to the first
    /// conflict, which is returned.
    pub fn mark_access(
        &mut self,
        access: &ResourceAccess,
        current_layer: Layer,
        current_system: SystemId,
        system_dependent_layers: &mut Vec<Layer>,
    ) -> (r: Result<(), ResourceConflict>)
        requires
            current_layer.0 < usize::MAX,
            tracker_ready(
                old(self).entries(),
                current_layer,
                old(system_dependent_layers)@.len() as nat,
            ),
        ensures
            marked(
                (old(self).entries(), old(system_dependent_layers)@),
                access_ops(sorted_items(access.exclusive@), sorted_items(access.shared@)),
                current_system,
                current_layer,
                r,
                (final(self).entries(), final(system_dependent_layers)@),
            ),
            final(system_dependent_layers)@.len() == old(system_dependent_layers)@.len(),
            tracker_layered(final(self).entries(), current_layer),
            current_system.0 < old(system_dependent_layers)@.len() ==> tracker_ready(
                final(self).entries(),
                current_layer,
                old(system_dependent_layers)@.len() as nat,
            ),
            r matches Err(c) ==> (current_system.0 < old(system_dependent_layers)@.len()
                ==> conflict_ids_below(c, old(system_dependent_layers)@.len() as nat)),
            access.exclusive@.finite(),
            access.shared@.finite(),
    {
        let exclusive = access.exclusive.items();
        let shared = access.shared.items();
        proof {
            vstd::seq_lib::seq_to_set_is_finite(exclusive@);
            vstd::seq_lib::seq_to_set_is_finite(shared@);
        }
        let ghost n = system_dependent_layers@.len() as nat;
        let ghost ops = access_ops(exclusive@, shared@);
        let ghost st0: TrackState = (self.entries(), system_dependent_layers@);
        proof {
            assert(ascending_of(exclusive@, access.exclusive@));
            assert(ascending_of(shared@, access.shared@));
            lemma_ascending_unique(
                sorted_items(access.exclusive@),
                exclusive@,
                access.exclusive@,
            );
            lemma_ascending_unique(sorted_items(access.shared@), shared@, access.shared@);
            assert(ops.len() == exclusive@.len() + shared@.len());
            assert(tracker_layered(st0.0, current_layer));
            assert forall|q: usize|
                !exclusive@.take(0).contains(q) implies #[trigger] entry_at(self.entries(), q as int)
                == entry_at(st0.0, q as int) by {}
        }
        let mut i: usize = 0;
        while i < exclusive.len()
            invariant
                access.exclusive@.finite(),
                access.shared@.finite(),
                0 <= i <= exclusive@.len(),
                ops == access_ops(exclusive@, shared@),
                ops.len() == exclusive@.len() + shared@.len(),
                sorted_items(access.exclusive@) == exclusive@,
                sorted_items(access.shared@) == shared@,
                st0 == (old(self).entries(), old(system_dependent_layers)@),
                n == old(system_dependent_layers)@.len(),
                forall|k: int| 0 <= k < exclusive@.len() ==> #[trigger] exclusive@[k] < usize::MAX,
                forall|a: int, b: int|
                    0 <= a < b < exclusive@.len() ==> exclusive@[a] < exclusive@[b],
                current_layer.0 < usize::MAX,
                system_dependent_layers@.len() == n,
                tracker_ready(st0.0, current_layer, n),
                tracker_layered(self.entries(), current_layer),
                current_system.0 < n ==> tracker_ready(self.entries(), current_layer, n),
                forall|q: usize|
                    !exclusive@.take(i as int).contains(q) ==> #[trigger] entry_at(
                        self.entries(),
                        q as int,
                    ) == entry_at(st0.0, q as int),
                forall|j: int|
                    0 <= j < i ==> (#[trigger] entry_at(self.entries(), exclusive@[j] as int)).0
                        == current_layer,
                (self.entries(), system_dependent_layers@) == state_after(
                    st0,
                    ops,
                    current_system,
                    current_layer,
                    i as int,
                ),
                forall|j: int|
                    0 <= j < i ==> !op_fails(
                        #[trigger] state_after(st0, ops, current_system, current_layer, j),
                        ops[j],
                        current_layer,
                    ),
            decreases exclusive@.len() - i,
        {
            let ghost st = (self.entries(), system_dependent_layers@);
            let x = exclusive[i];
            proof {
                assert(ops[i as int] == (true, exclusive@[i as int]));
                assert(!exclusive@.take(i as int).contains(x)) by {
                    if exclusive@.take(i as int).contains(x) {
                        let j = choose|j: int| 0 <= j < i && exclusive@.take(i as int)[j] == x;
                        assert(exclusive@[j] < exclusive@[i as int]);
                    }
                }
                assert(entry_at(st.0, x as int) == entry_at(st0.0, x as int));
                lemma_padded_ready(st0.0, x as int, current_layer, n);
            }
            let res = self.mark_exclusive(x, current_system, current_layer, system_dependent_layers);
            match res {
                Ok(()) => {},
                Err(c) => {
                    proof {
                        assert(op_fails(
                            state_after(st0, ops, current_system, current_layer, i as int),
                            ops[i as int],
                            current_layer,
                        ));
                        assert(state_after(st0, ops, current_system, current_layer, i + 1) == (
                        self.entries(), system_dependent_layers@));
                        if current_system.0 < n {
                            lemma_padded_ready(st.0, x as int, current_layer, n);
                        }
                    }
                    return Err(c);
                },
            }
            proof {
                let e1: EntryView = (current_layer, entry_at(st.0, x as int).1, seq![current_system]);
                let p = padded(st.0, x as int);
                lemma_padded_layered(st.0, x as int, current_layer);
                assert(self.entries() == p.update(x as int, e1));
                lemma_update_layered(p, x as int, e1, current_layer);
                assert forall|q: usize|
                    !exclusive@.take(i + 1).contains(q) implies #[trigger] entry_at(
                    self.entries(),
                    q as int,
                ) == entry_at(st0.0, q as int) by {
                    assert(exclusive@.take(i + 1) =~= exclusive@.take(i as int).push(x));
                    vstd::seq_lib::lemma_seq_contains_after_push(exclusive@.take(i as int), x, q);
                    assert(entry_at(self.entries(), q as int) == entry_at(p, q as int));
                }
                assert forall|j: int| 0 <= j < i + 1 implies (#[trigger] entry_at(
                    self.entries(),
                    exclusive@[j] as int,
                )).0 == current_layer by {
                    if j < i {
                        assert(exclusive@[j] < exclusive@[i as int]);
                        assert(entry_at(self.entries(), exclusive@[j] as int) == entry_at(
                            p,
                            exclusive@[j] as int,
                        ));
                    }
                }
            }
            i += 1;
        }
        let mut k: usize = 0;
        while k < shared.len()
            invariant
                access.exclusive@.finite(),
                access.shared@.finite(),
                0 <= k <= shared@.len(),
                i == exclusive@.len(),
                ops == access_ops(exclusive@, shared@),
                ops.len() == exclusive@.len() + shared@.len(),
                sorted_items(access.exclusive@) == exclusive@,
                sorted_items(access.shared@) == shared@,
                st0 == (old(self).entries(), old(system_dependent_layers)@),
                n == old(system_dependent_layers)@.len(),
                forall|q: int| 0 <= q < shared@.len() ==> #[trigger] shared@[q] < usize::MAX,
                forall|a: int, b: int| 0 <= a < b < shared@.len() ==> shared@[a] < shared@[b],
                current_layer.0 < usize::MAX,
                system_dependent_layers@.len() == n,
                tracker_ready(st0.0, current_layer, n),
                tracker_layered(self.entries(), current_layer),
                current_system.0 < n ==> tracker_ready(self.entries(), current_layer, n),
                forall|q: usize|
                    !exclusive@.contains(q) && !shared@.take(k as int).contains(q)
                        ==> #[trigger] entry_at(self.entries(), q as int) == entry_at(
                        st0.0,
                        q as int,
                    ),
                forall|j: int|
                    0 <= j < exclusive@.len() ==> (#[trigger] entry_at(
                        self.entries(),
                        exclusive@[j] as int,
                    )).0 == current_layer,
                (self.entries(), system_dependent_layers@) == state_after(
                    st0,
                    ops,
                    current_system,
                    current_layer,
                    i + k,
                ),
                forall|j: int|
                    0 <= j < i + k ==> !op_fails(
                        #[trigger] state_after(st0, ops, current_system, current_layer, j),
                        ops[j],
                        current_layer,
                    ),
            decreases shared@.len() - k,
        {
            let y = shared[k];
            let ghost st = (self.entries(), system_dependent_layers@);
            proof {
                assert(ops[i + k] == (false, shared@[k as int]));
                assert(exclusive@.take(exclusive@.len() as int) =~= exclusive@);
                if exclusive@.contains(y) {
                    let j = choose|j: int| 0 <= j < exclusive@.len() && exclusive@[j] == y;
                    assert(entry_at(st.0, exclusive@[j] as int).0 == current_layer);
                } else {
                    assert(!shared@.take(k as int).contains(y)) by {
                        if shared@.take(k as int).contains(y) {
                            let j = choose|j: int| 0 <= j < k && shared@.take(k as int)[j] == y;
                            assert(shared@[j] < shared@[k as int]);
                        }
                    }
                    assert(entry_at(st.0, y as int) == entry_at(st0.0, y as int));
                    lemma_padded_ready(st0.0, y as int, current_layer, n);
                }
            }
            let res = self.mark_shared(y, current_system, current_layer, system_dependent_layers);
            match res {
                Ok(()) => {},
                Err(c) => {
                    proof {
                        assert(op_fails(
                            state_after(st0, ops, current_system, current_layer, i + k),
                            ops[i + k],
                            current_layer,
                        ));
                        assert(state_after(st0, ops, current_system, current_layer, i + k + 1)
                            == (self.entries(), system_dependent_layers@));
                        if current_system.0 < n {
                            lemma_padded_ready(st.0, y as int, current_layer, n);
                        }
                    }
                    return Err(c);
                },
            }
            proof {
                let e0 = entry_at(st.0, y as int);
                let p = padded(st.0, y as int);
                lemma_padded_layered(st.0, y as int, current_layer);
                let e1: EntryView = if e0.0.0 != usize::MAX && e0.0.0 > e0.1.0 {
                    (e0.0, current_layer, seq![current_system])
                } else {
                    (e0.0, current_layer, e0.2.push(current_system))
                };
                assert(self.entries() == p.update(y as int, e1));
                lemma_update_layered(p, y as int, e1, current_layer);
                assert forall|q: usize|
                    !exclusive@.contains(q) && !shared@.take(k + 1).contains(q) implies #[trigger] entry_at(
                    self.entries(),
                    q as int,
                ) == entry_at(st0.0, q as int) by {
                    assert(shared@.take(k + 1) =~= shared@.take(k as int).push(y));
                    vstd::seq_lib::lemma_seq_contains_after_push(shared@.take(k as int), y, q);
                    assert(entry_at(self.entries(), q as int) == entry_at(p, q as int));
                }
                assert forall|j: int| 0 <= j < exclusive@.len() implies (#[trigger] entry_at(
                    self.entries(),
                    exclusive@[j] as int,
                )).0 == current_layer by {
                    if exclusive@[j] == y {
                        assert(e0.0 == current_layer);
                    } else {
                        assert(entry_at(self.entries(), exclusive@[j] as int) == entry_at(
                            p,
                            exclusive@[j] as int,
                        ));
                    }
                }
            }
            k += 1;
        }
        Ok(())
    }
}


/// Every finite set of indices has an ascending listing.
proof fn lemma_ascending_listing(s: Set<usize>) -> (xs: Seq<usize>)
    requires
        s.finite(),
    ensures
        ascending_of(xs, s),
    decreases s.len(),
{
    if s.len() == 0 {
        assert(s =~= Set::<usize>::empty());
        assert(Seq::<usize>::empty().to_set() =~= s);
        Seq::empty()
    } else {
        let leq = |a: usize, b: usize| a <= b;
        assert(vstd::relations::total_ordering(leq)) by {
            assert(vstd::relations::reflexive(leq));
            assert(vstd::relations::antisymmetric(leq));
            assert(vstd::relations::transitive(leq));
            assert(vstd::relations::strongly_connected(leq));
        }
        s.find_unique_maximal_ensures(leq);
        let m = s.find_unique_maximal(leq);
        let ys = lemma_ascending_listing(s.remove(m));
        let xs = ys.push(m);
        assert forall|x: usize| xs.to_set().contains(x) <==> s.contains(x) by {
            if s.contains(x) && x != m {
                assert(ys.to_set().contains(x));
                let i = choose|i: int| 0 <= i < ys.len() && ys[i] == x;
                assert(xs[i] == x);
            }
            if s.contains(x) && x == m {
                assert(xs[ys.len() as int] == x);
            }
            if xs.to_set().contains(x) {
                let i = choose|i: int| 0 <= i < xs.len() && xs[i] == x;
                if i < ys.len() {
                    assert(ys.contains(x));
                    assert(ys.to_set().contains(x));
                }
            }
        }
        assert(xs.to_set() =~= s);
        assert forall|i: int, j: int| 0 <= i < j < xs.len() implies xs[i] < xs[j] by {
            if j < ys.len() {
                assert(xs[i] == ys[i] && xs[j] == ys[j]);
            } else {
                assert(ys.contains(ys[i]));
                assert(ys.to_set().contains(ys[i]));
                assert(s.contains(ys[i]));
                assert(leq(m, ys[i]) ==> leq(ys[i], m));
                assert(ys[i] != m);
            }
        }
        xs
    }
}

/// The ascending listing of a finite set is what `sorted_items` gives.
pub proof fn lemma_sorted_items(s: Set<usize>)
    requires
        s.finite(),
    ensures
        ascending_of(sorted_items(s), s),
{
    let xs = lemma_ascending_listing(s);
}

/// The record of every resource after growing the records is the record before.
proof fn lemma_padded_entry(entries: Seq<EntryView>, r: int, q: int)
    requires
        0 <= r,
    ensures
        entry_at(padded(entries, r), q) == entry_at(entries, q),
        padded(entries, r).len() > r,
{
}

/// What marking a run of calls in layer `cur` leaves: a resource was last accessed
/// exclusively in `cur` exactly when one of the first `n` calls in `cur` asked for it
/// exclusively, and last accessed shared in `cur` exactly when one of them asked for it
/// shared.
pub open spec fn run_marks(
    entries: Seq<EntryView>,
    accesses: Seq<ResourceAccess>,
    layers: Seq<Layer>,
    n: int,
    cur: Layer,
) -> bool {
    forall|r: usize|
        {
            &&& #[trigger] entry_at(entries, r as int).0 == cur <==> exists|j: int|
                0 <= j < n && layers[j] == cur && #[trigger] accesses[j].exclusive@.contains(r)
            &&& entry_at(entries, r as int).1 == cur <==> exists|j: int|
                0 <= j < n && layers[j] == cur && #[trigger] accesses[j].shared@.contains(r)
        }
}

/// One of the first `t` accesses of `ops` is of kind `exclusive` to resource `r`.
pub open spec fn op_among(ops: Seq<(bool, usize)>, t: int, exclusive: bool, r: usize) -> bool {
    exists|u: int| 0 <= u < t && #[trigger] ops[u] == (exclusive, r)
}

proof fn lemma_op_among_step(ops: Seq<(bool, usize)>, t: int, exclusive: bool, r: usize)
    requires
        0 < t <= ops.len(),
    ensures
        op_among(ops, t, exclusive, r) <==> (op_among(ops, t - 1, exclusive, r) || ops[t - 1] == (
            exclusive,
            r,
        )),
{
    if op_among(ops, t, exclusive, r) {
        let u = choose|u: int| 0 <= u < t && #[trigger] ops[u] == (exclusive, r);
        if u < t - 1 {
            assert(0 <= u < t - 1 && ops[u] == (exclusive, r));
        }
    }
    if op_among(ops, t - 1, exclusive, r) {
        let u = choose|u: int| 0 <= u < t - 1 && #[trigger] ops[u] == (exclusive, r);
        assert(0 <= u < t && ops[u] == (exclusive, r));
    }
    if ops[t - 1] == (exclusive, r) {
        assert(0 <= t - 1 < t && ops[t - 1] == (exclusive, r));
    }
}

/// An access that meets no conflict changes the record of its resource only: an exclusive
/// access sets its last exclusive layer, a shared access its last shared layer.
proof fn lemma_op_entry(prev: TrackState, op: (bool, usize), sys: SystemId, layer: Layer, r: usize)
    requires
        !op_fails(prev, op, layer),
    ensures
        r != op.1 ==> entry_at(after_op(prev, op, sys, layer).0, r as int) == entry_at(
            prev.0,
            r as int,
        ),
        r == op.1 && op.0 ==> entry_at(after_op(prev, op, sys, layer).0, r as int).0 == layer
            && entry_at(after_op(prev, op, sys, layer).0, r as int).1 == entry_at(
            prev.0,
            r as int,
        ).1,
        r == op.1 && !op.0 ==> entry_at(after_op(prev, op, sys, layer).0, r as int).0
            == entry_at(prev.0, r as int).0 && entry_at(
            after_op(prev, op, sys, layer).0,
            r as int,
        ).1 == layer,
{
    lemma_padded_entry(prev.0, op.1 as int, r as int);
    lemma_padded_entry(prev.0, op.1 as int, op.1 as int);
    let p = padded(prev.0, op.1 as int);
    assert(entry_at(p, op.1 as int) == p[op.1 as int]);
}

/// The state after the first `t` accesses of a call in `layer` that met no conflict: a
/// record changes only for the accesses marked, the layer of the kind of access marked
/// becoming `layer`. Before a call in an earlier layer than `cur`, no record names `cur`.
proof fn lemma_ops_marks(
    st: TrackState,
    ops: Seq<(bool, usize)>,
    sys: SystemId,
    layer: Layer,
    cur: Layer,
    t: int,
)
    requires
        0 <= t <= ops.len(),
        layer != cur ==> forall|r: usize|
            #[trigger] entry_at(st.0, r as int).0 != cur && entry_at(st.0, r as int).1 != cur,
        forall|u: int| 0 <= u < t ==> !op_fails(#[trigger] state_after(st, ops, sys, layer, u), ops[u], layer),
    ensures
        forall|r: usize|
            {
                &&& #[trigger] entry_at(state_after(st, ops, sys, layer, t).0, r as int).0 == cur
                    <==> (entry_at(st.0, r as int).0 == cur || (layer == cur && op_among(
                    ops,
                    t,
                    true,
                    r,
                )))
                &&& entry_at(state_after(st, ops, sys, layer, t).0, r as int).1 == cur <==> (
                entry_at(st.0, r as int).1 == cur || (layer == cur && op_among(ops, t, false, r)))
            },
    decreases t,
{
    if t > 0 {
        lemma_ops_marks(st, ops, sys, layer, cur, t - 1);
        let prev = state_after(st, ops, sys, layer, t - 1);
        let op = ops[t - 1];
        let next = state_after(st, ops, sys, layer, t);
        assert(!op_fails(prev, op, layer));
        assert(next == after_op(prev, op, sys, layer));
        assert forall|r: usize|
            {
                &&& #[trigger] entry_at(next.0, r as int).0 == cur <==> (entry_at(st.0, r as int).0
                    == cur || (layer == cur && op_among(ops, t, true, r)))
                &&& entry_at(next.0, r as int).1 == cur <==> (entry_at(st.0, r as int).1 == cur
                    || (layer == cur && op_among(ops, t, false, r)))
            } by {
            lemma_op_entry(prev, op, sys, layer, r);
            lemma_op_among_step(ops, t, true, r);
            lemma_op_among_step(ops, t, false, r);
            assert(entry_at(prev.0, r as int).0 == cur <==> (entry_at(st.0, r as int).0 == cur || (
            layer == cur && op_among(ops, t - 1, true, r))));
            assert(entry_at(prev.0, r as int).1 == cur <==> (entry_at(st.0, r as int).1 == cur || (
            layer == cur && op_among(ops, t - 1, false, r))));
        }
    }
}

/// The accesses that a call of `mark_access` marks for `access`: the exclusive ones, then
/// the shared ones, each in ascending order of the resource.
pub open spec fn call_ops(access: ResourceAccess) -> Seq<(bool, usize)> {
    access_ops(sorted_items(access.exclusive@), sorted_items(access.shared@))
}

/// The accesses of a call name each resource of the access once, as exclusive or shared
/// as the access asks for it.
proof fn lemma_call_ops(access: ResourceAccess)
    requires
        access.exclusive@.finite(),
        access.shared@.finite(),
        access.exclusive@.disjoint(access.shared@),
    ensures
        forall|r: usize|
            #[trigger] op_among(call_ops(access), call_ops(access).len() as int, true, r)
                <==> access.exclusive@.contains(r),
        forall|r: usize|
            #[trigger] op_among(call_ops(access), call_ops(access).len() as int, false, r)
                <==> access.shared@.contains(r),
        forall|u: int, v: int|
            0 <= u < v < call_ops(access).len() ==> (#[trigger] call_ops(access)[u]).1 != (
            #[trigger] call_ops(access)[v]).1,
        forall|u: int|
            0 <= u < call_ops(access).len() ==> if (#[trigger] call_ops(access)[u]).0 {
                access.exclusive@.contains(call_ops(access)[u].1)
            } else {
                access.shared@.contains(call_ops(access)[u].1)
            },
{
    let xs = sorted_items(access.exclusive@);
    let ys = sorted_items(access.shared@);
    lemma_sorted_items(access.exclusive@);
    lemma_sorted_items(access.shared@);
    let ops = call_ops(access);
    assert(ops.len() == xs.len() + ys.len());
    assert forall|u: int| 0 <= u < ops.len() implies #[trigger] ops[u] == (if u < xs.len() {
        (true, xs[u])
    } else {
        (false, ys[u - xs.len()])
    }) by {}
    assert forall|u: int| 0 <= u < ops.len() implies if (#[trigger] ops[u]).0 {
        access.exclusive@.contains(ops[u].1)
    } else {
        access.shared@.contains(ops[u].1)
    } by {
        if u < xs.len() {
            assert(xs.contains(xs[u]));
            assert(xs.to_set().contains(xs[u]));
        } else {
            assert(ys.contains(ys[u - xs.len()]));
            assert(ys.to_set().contains(ys[u - xs.len()]));
        }
    }
    assert forall|r: usize|
        #[trigger] op_among(ops, ops.len() as int, true, r) <==> access.exclusive@.contains(r) by {
        if access.exclusive@.contains(r) {
            assert(xs.to_set().contains(r));
            let i = choose|i: int| 0 <= i < xs.len() && xs[i] == r;
            assert(ops[i] == (true, r));
        }
    }
    assert forall|r: usize|
        #[trigger] op_among(ops, ops.len() as int, false, r) <==> access.shared@.contains(r) by {
        if access.shared@.contains(r) {
            assert(ys.to_set().contains(r));
            let i = choose|i: int| 0 <= i < ys.len() && ys[i] == r;
            assert(ops[i + xs.len()] == (false, r));
        }
    }
    assert forall|u: int, v: int|
        0 <= u < v < ops.len() implies (#[trigger] ops[u]).1 != (#[trigger] ops[v]).1 by {
        if u < xs.len() && v >= xs.len() {
            assert(access.exclusive@.contains(ops[u].1));
            assert(access.shared@.contains(ops[v].1));
        }
    }
}

/// The calls `0 .. n` of a run of `mark_access` calls, the `i`-th for `accesses[i]` by
/// `systems[i]` in `layers[i]` from state `states[i]` to `states[i + 1]` with result
/// `results[i]`: the run starts from a new tracker, its layers are defined and never go
/// back, each access asks for finitely many resources (as every call of `mark_access`
/// ensures of its access) and for none both shared and exclusively, and every call but the
/// last succeeded.
pub open spec fn marking_run(
    accesses: Seq<ResourceAccess>,
    systems: Seq<SystemId>,
    layers: Seq<Layer>,
    states: Seq<TrackState>,
    results: Seq<Result<(), ResourceConflict>>,
) -> bool {
    &&& accesses.len() > 0
    &&& systems.len() == accesses.len()
    &&& layers.len() == accesses.len()
    &&& results.len() == accesses.len()
    &&& states.len() == accesses.len() + 1
    &&& states[0].0 == Seq::<EntryView>::empty()
    &&& forall|i: int| 0 <= i < layers.len() ==> (#[trigger] layers[i]).0 != usize::MAX
    &&& forall|i: int, j: int|
        0 <= i <= j < layers.len() ==> (#[trigger] layers[i]).0 <= (#[trigger] layers[j]).0
    &&& forall|i: int|
        0 <= i < accesses.len() ==> {
            &&& (#[trigger] accesses[i]).exclusive@.finite()
            &&& accesses[i].shared@.finite()
            &&& accesses[i].exclusive@.disjoint(accesses[i].shared@)
        }
    &&& forall|i: int|
        0 <= i < accesses.len() ==> marked(
            #[trigger] states[i],
            call_ops(accesses[i]),
            systems[i],
            layers[i],
            results[i],
            states[i + 1],
        )
    &&& forall|i: int| 0 <= i < accesses.len() - 1 ==> (#[trigger] results[i]) is Ok
}

/// An earlier call of the run, in the layer of call `k`, asked for exclusive access to a
/// resource that call `k` accesses, or for shared access to a resource that call `k` asks
/// exclusive access to.
pub open spec fn run_conflicts(accesses: Seq<ResourceAccess>, layers: Seq<Layer>, k: int) -> bool {
    exists|j: int, r: usize|
        0 <= j < k && layers[j] == layers[k] && ((#[trigger] accesses[j].exclusive@.contains(r)
            && (accesses[k].exclusive@.contains(r) || accesses[k].shared@.contains(r)))
            || (accesses[j].shared@.contains(r) && accesses[k].exclusive@.contains(r)))
}

/// After the first `n` calls of a run, all successful, the records name the layer `cur` of
/// the last call as the calls in it asked.
proof fn lemma_run_marks(
    accesses: Seq<ResourceAccess>,
    systems: Seq<SystemId>,
    layers: Seq<Layer>,
    states: Seq<TrackState>,
    results: Seq<Result<(), ResourceConflict>>,
    n: int,
)
    requires
        marking_run(accesses, systems, layers, states, results),
        0 <= n < accesses.len(),
    ensures
        run_marks(states[n].0, accesses, layers, n, layers[accesses.len() - 1]),
    decreases n,
{
    let cur = layers[accesses.len() - 1];
    if n == 0 {
        assert forall|r: usize| #[trigger] entry_at(states[0].0, r as int) == undefined_entry() by {}
    } else {
        lemma_run_marks(accesses, systems, layers, states, results, n - 1);
        let i = n - 1;
        let st = states[i];
        let ops = call_ops(accesses[i]);
        let layer = layers[i];
        assert(results[i] is Ok);
        assert(marked(st, ops, systems[i], layer, results[i], states[n]));
        assert(layer.0 <= cur.0);
        if layer != cur {
            assert forall|r: usize|
                #[trigger] entry_at(st.0, r as int).0 != cur && entry_at(st.0, r as int).1 != cur by {
                if entry_at(st.0, r as int).0 == cur {
                    let j = choose|j: int|
                        0 <= j < i && layers[j] == cur && #[trigger] accesses[j].exclusive@.contains(r);
                    assert(layers[j].0 <= layers[i].0);
                }
                if entry_at(st.0, r as int).1 == cur {
                    let j = choose|j: int|
                        0 <= j < i && layers[j] == cur && #[trigger] accesses[j].shared@.contains(r);
                    assert(layers[j].0 <= layers[i].0);
                }
            }
        }
        lemma_ops_marks(st, ops, systems[i], layer, cur, ops.len() as int);
        lemma_call_ops(accesses[i]);
        assert forall|r: usize|
            {
                &&& #[trigger] entry_at(states[n].0, r as int).0 == cur <==> exists|j: int|
                    0 <= j < n && layers[j] == cur && #[trigger] accesses[j].exclusive@.contains(r)
                &&& entry_at(states[n].0, r as int).1 == cur <==> exists|j: int|
                    0 <= j < n && layers[j] == cur && #[trigger] accesses[j].shared@.contains(r)
            } by {
            assert(states[n] == state_after(st, ops, systems[i], layer, ops.len() as int));
            assert(entry_at(st.0, r as int).0 == cur <==> exists|j: int|
                0 <= j < i && layers[j] == cur && #[trigger] accesses[j].exclusive@.contains(r));
            assert(entry_at(st.0, r as int).1 == cur <==> exists|j: int|
                0 <= j < i && layers[j] == cur && #[trigger] accesses[j].shared@.contains(r));
            assert(entry_at(states[n].0, r as int).0 == cur <==> (entry_at(st.0, r as int).0 == cur
                || (layer == cur && op_among(ops, ops.len() as int, true, r))));
            assert(entry_at(states[n].0, r as int).1 == cur <==> (entry_at(st.0, r as int).1 == cur
                || (layer == cur && op_among(ops, ops.len() as int, false, r))));
            assert(op_among(ops, ops.len() as int, true, r) <==> accesses[i].exclusive@.contains(r));
            assert(op_among(ops, ops.len() as int, false, r) <==> accesses[i].shared@.contains(r));
            if exists|j: int|
                0 <= j < n && layers[j] == cur && #[trigger] accesses[j].exclusive@.contains(r) {
                let j = choose|j: int|
                    0 <= j < n && layers[j] == cur && #[trigger] accesses[j].exclusive@.contains(r);
                if j < i {
                    assert(0 <= j < i && layers[j] == cur && accesses[j].exclusive@.contains(r));
                }
            }
            if exists|j: int|
                0 <= j < n && layers[j] == cur && #[trigger] accesses[j].shared@.contains(r) {
                let j = choose|j: int|
                    0 <= j < n && layers[j] == cur && #[trigger] accesses[j].shared@.contains(r);
                if j < i {
                    assert(0 <= j < i && layers[j] == cur && accesses[j].shared@.contains(r));
                }
            }
            if exists|j: int|
                0 <= j < i && layers[j] == cur && #[trigger] accesses[j].exclusive@.contains(r) {
                let j = choose|j: int|
                    0 <= j < i && layers[j] == cur && #[trigger] accesses[j].exclusive@.contains(r);
                assert(0 <= j < n && layers[j] == cur && accesses[j].exclusive@.contains(r));
            }
            if exists|j: int|
                0 <= j < i && layers[j] == cur && #[trigger] accesses[j].shared@.contains(r) {
                let j = choose|j: int|
                    0 <= j < i && layers[j] == cur && #[trigger] accesses[j].shared@.contains(r);
                assert(0 <= j < n && layers[j] == cur && accesses[j].shared@.contains(r));
            }
            if layer == cur && accesses[i].exclusive@.contains(r) {
                assert(0 <= i < n && layers[i] == cur && accesses[i].exclusive@.contains(r));
            }
            if layer == cur && accesses[i].shared@.contains(r) {
                assert(0 <= i < n && layers[i] == cur && accesses[i].shared@.contains(r));
            }
        }
    }
}

/// Marking a run of calls in layers that never go back, from a new tracker: while every call
/// succeeded, the next one fails exactly when an earlier call in its layer asked for
/// exclusive access to a resource it accesses, or for shared access to a resource it asks
/// exclusive access to. Two shared accesses in one layer never conflict, nor do accesses in
/// different layers; a conflict between two exclusive accesses names a resource that both
/// asked exclusive access to.
pub proof fn lemma_marking_run(
    accesses: Seq<ResourceAccess>,
    systems: Seq<SystemId>,
    layers: Seq<Layer>,
    states: Seq<TrackState>,
    results: Seq<Result<(), ResourceConflict>>,
)
    requires
        marking_run(accesses, systems, layers, states, results),
    ensures
        results.last() is Err <==> run_conflicts(accesses, layers, accesses.len() - 1),
        results.last() matches Err(ResourceConflict::ExclusiveExclusive { resource, .. }) ==> exists|
            j: int,
        |
            0 <= j < accesses.len() - 1 && layers[j] == layers[accesses.len() - 1]
                && #[trigger] accesses[j].exclusive@.contains(resource) && accesses[accesses.len()
                - 1].exclusive@.contains(resource),
{
    let k = accesses.len() - 1;
    let cur = layers[k];
    let st = states[k];
    let ops = call_ops(accesses[k]);
    let sys = systems[k];
    lemma_run_marks(accesses, systems, layers, states, results, k);
    lemma_call_ops(accesses[k]);
    assert(marked(st, ops, sys, cur, results[k], states[k + 1]));
    assert(cur.0 != usize::MAX);
    match results[k] {
        Ok(()) => {
            if run_conflicts(accesses, layers, k) {
                let (j, r) = choose|j: int, r: usize|
                    0 <= j < k && layers[j] == layers[k] && ((
                    #[trigger] accesses[j].exclusive@.contains(r) && (accesses[k].exclusive@.contains(
                        r,
                    ) || accesses[k].shared@.contains(r))) || (accesses[j].shared@.contains(r)
                        && accesses[k].exclusive@.contains(r)));
                let b = accesses[k].exclusive@.contains(r);
                assert(op_among(ops, ops.len() as int, b, r));
                let u = choose|u: int| 0 <= u < ops.len() && #[trigger] ops[u] == (b, r);
                lemma_ops_marks(st, ops, sys, cur, cur, u);
                assert(!op_fails(state_after(st, ops, sys, cur, u), ops[u], cur));
                if accesses[j].exclusive@.contains(r) {
                    assert(entry_at(st.0, r as int).0 == cur);
                } else {
                    assert(entry_at(st.0, r as int).1 == cur);
                }
            }
        },
        Err(c) => {
            let t = choose|t: int|
                0 <= t < ops.len() && (forall|j: int|
                    0 <= j < t ==> !op_fails(#[trigger] state_after(st, ops, sys, cur, j), ops[j], cur))
                    && op_fails(#[trigger] state_after(st, ops, sys, cur, t), ops[t], cur)
                    && op_conflict(c, state_after(st, ops, sys, cur, t), ops[t], sys, cur) && states[k
                    + 1] == state_after(st, ops, sys, cur, t + 1);
            lemma_ops_marks(st, ops, sys, cur, cur, t);
            let (b, r) = ops[t];
            let e = entry_at(state_after(st, ops, sys, cur, t).0, r as int);
            assert(!op_among(ops, t, true, r)) by {
                if op_among(ops, t, true, r) {
                    let u = choose|u: int| 0 <= u < t && #[trigger] ops[u] == (true, r);
                    assert(ops[u].1 == ops[t].1);
                }
            }
            assert(!op_among(ops, t, false, r)) by {
                if op_among(ops, t, false, r) {
                    let u = choose|u: int| 0 <= u < t && #[trigger] ops[u] == (false, r);
                    assert(ops[u].1 == ops[t].1);
                }
            }
            if b {
                assert(accesses[k].exclusive@.contains(r));
            } else {
                assert(accesses[k].shared@.contains(r));
            }
            if e.0 == cur {
                assert(entry_at(st.0, r as int).0 == cur);
                let j = choose|j: int|
                    0 <= j < k && layers[j] == cur && #[trigger] accesses[j].exclusive@.contains(r);
                assert(run_conflicts(accesses, layers, k));
            } else {
                assert(b && e.1 == cur);
                assert(entry_at(st.0, r as int).1 == cur);
                let j = choose|j: int|
                    0 <= j < k && layers[j] == cur && #[trigger] accesses[j].shared@.contains(r);
                assert(run_conflicts(accesses, layers, k));
            }
            match c {
                ResourceConflict::ExclusiveExclusive { resource, .. } => {
                    assert(b && e.0 == cur && resource == r);
                    let j = choose|j: int|
                        0 <= j < k && layers[j] == cur
                            && #[trigger] accesses[j].exclusive@.contains(r);
                    assert(0 <= j < k && layers[j] == layers[k] && accesses[j].exclusive@.contains(
                        resource,
                    ));
                },
                _ => {},
            }
        },
    }
}

} // verus!
