//! Sorting the dependency graph into groups of nodes.
//!
//! A node *starts* when its parent (if any) has started and all its dependencies are
//! completed; it is *completed* when it has started and all its sub-nodes are completed. The
//! first and the last phase count as started and completed from the outset. Rounds of
//! starting and completing nodes follow each other; each round's newly completed nodes form
//! a group, in the order in which they completed.

use vstd::prelude::*;
use crate::bitset::BitSet;
use crate::phase_schedule::graph::{nodes_wf, DependencyGraph, DependencyNode};
use crate::phase_schedule::{FIRST_NODE_INDEX, LAST_NODE_INDEX};

verus! {

/// Node `n` may start once `ready` have started and `completed` are completed.
pub open spec fn may_start(
    nodes: Seq<DependencyNode>,
    n: int,
    ready: Set<usize>,
    completed: Set<usize>,
) -> bool {
    &&& nodes[n].parent == usize::MAX || ready.contains(nodes[n].parent)
    &&& nodes[n].dependencies@.subset_of(completed)
}

/// Node `n` may be completed once `ready` have started and `completed` are completed.
pub open spec fn may_complete(
    nodes: Seq<DependencyNode>,
    n: int,
    ready: Set<usize>,
    completed: Set<usize>,
) -> bool {
    &&& ready.contains(n as usize)
    &&& nodes[n].sub_nodes@.subset_of(completed)
}

/// `ready` and `completed` hold the first and the last phase, and are closed under the two
/// rules: a node that may start is started, a node that may be completed is completed.
pub open spec fn closed_under_rules(
    nodes: Seq<DependencyNode>,
    ready: Set<usize>,
    completed: Set<usize>,
) -> bool {
    &&& ready.contains(FIRST_NODE_INDEX) && ready.contains(LAST_NODE_INDEX)
    &&& completed.contains(FIRST_NODE_INDEX) && completed.contains(LAST_NODE_INDEX)
    &&& forall|n: int|
        0 <= n < nodes.len() && #[trigger] may_start(nodes, n, ready, completed) ==> ready.contains(
            n as usize,
        )
    &&& forall|n: int|
        0 <= n < nodes.len() && #[trigger] may_complete(nodes, n, ready, completed)
            ==> completed.contains(n as usize)
}

/// The nodes that the rules complete: those that every closed pair of sets holds as
/// completed.
pub open spec fn rule_completed(nodes: Seq<DependencyNode>) -> Set<usize> {
    Set::new(
        |n: usize|
            n < nodes.len() && forall|r: Set<usize>, c: Set<usize>|
                #[trigger] closed_under_rules(nodes, r, c) ==> c.contains(n),
    )
}

/// The rules complete every node: the graph can be sorted into groups.
pub open spec fn sortable(nodes: Seq<DependencyNode>) -> bool {
    forall|n: usize| n < nodes.len() ==> #[trigger] rule_completed(nodes).contains(n)
}

/// Node `n` stands in `groups` at group `g`, position `k`.
pub open spec fn stands_at(groups: Seq<Seq<usize>>, g: int, k: int, n: usize) -> bool {
    0 <= g < groups.len() && 0 <= k < groups[g].len() && groups[g][k] == n
}

/// Node `n` stands somewhere in `groups`.
pub open spec fn placed(groups: Seq<Seq<usize>>, n: usize) -> bool {
    exists|g: int, k: int| #[trigger] stands_at(groups, g, k, n)
}

/// `groups` begins with the group of the first phase, no group is empty, each entry is a
/// node and stands once, and for every entry after the first group: its dependencies and the
/// dependencies of its parent (other than the first and the last phase) stand in earlier
/// groups, and its sub-nodes stand before it, all but the last phase.
pub open spec fn groups_ordered(nodes: Seq<DependencyNode>, groups: Seq<Seq<usize>>) -> bool {
    &&& groups.len() >= 1
    &&& groups[0] == seq![FIRST_NODE_INDEX]
    &&& forall|g: int| 0 <= g < groups.len() ==> #[trigger] groups[g].len() > 0
    &&& forall|g: int, k: int|
        0 <= g < groups.len() && 0 <= k < groups[g].len() ==> #[trigger] groups[g][k] < nodes.len()
    &&& forall|g: int, k: int, h: int, l: int|
        stands_at(groups, g, k, #[trigger] groups[g][k]) && stands_at(
            groups,
            h,
            l,
            #[trigger] groups[h][l],
        ) && groups[g][k] == groups[h][l] ==> g == h && k == l
    &&& forall|g: int, k: int, h: int, l: int|
        1 <= g && stands_at(groups, g, k, #[trigger] groups[g][k]) && stands_at(
            groups,
            h,
            l,
            #[trigger] groups[h][l],
        ) && groups[h][l] != LAST_NODE_INDEX && nodes[groups[g][k] as int].dependencies@.contains(
            groups[h][l],
        ) ==> h < g
    &&& forall|g: int, k: int, h: int, l: int|
        1 <= g && stands_at(groups, g, k, #[trigger] groups[g][k]) && stands_at(
            groups,
            h,
            l,
            #[trigger] groups[h][l],
        ) && groups[h][l] != LAST_NODE_INDEX && nodes[groups[g][k] as int].sub_nodes@.contains(
            groups[h][l],
        ) ==> h < g || (h == g && l < k)
    &&& forall|g: int, k: int, h: int, l: int|
        1 <= g && stands_at(groups, g, k, #[trigger] groups[g][k]) && stands_at(
            groups,
            h,
            l,
            #[trigger] groups[h][l],
        ) && groups[h][l] != LAST_NODE_INDEX && nodes[groups[g][k] as int].parent != usize::MAX
            && !special(nodes[groups[g][k] as int].parent) && nodes[nodes[groups[g][k] as int].parent as int].dependencies@.contains(
            groups[h][l],
        ) ==> h < g
}

/// `n` is the first or the last phase.
pub open spec fn special(n: usize) -> bool {
    n == FIRST_NODE_INDEX || n == LAST_NODE_INDEX
}

/// `s` holds `ready` and every node that may start once `s` have started and `completed`
/// are completed.
pub open spec fn start_closed(
    nodes: Seq<DependencyNode>,
    ready: Set<usize>,
    completed: Set<usize>,
    s: Set<usize>,
) -> bool {
    &&& ready.subset_of(s)
    &&& forall|n: int|
        0 <= n < nodes.len() && #[trigger] may_start(nodes, n, s, completed) ==> s.contains(
            n as usize,
        )
}

/// The nodes started when, from the started `ready` and the completed `completed`, nodes
/// start until none can: the least set closed under starting.
pub open spec fn started_from(
    nodes: Seq<DependencyNode>,
    ready: Set<usize>,
    completed: Set<usize>,
) -> Set<usize> {
    Set::new(
        |n: usize|
            forall|s: Set<usize>| #[trigger] start_closed(nodes, ready, completed, s) ==> s.contains(
                n,
            ),
    )
}

/// `s` holds `completed` and every node that may be completed once `ready` have started
/// and `s` are completed.
pub open spec fn complete_closed(
    nodes: Seq<DependencyNode>,
    ready: Set<usize>,
    completed: Set<usize>,
    s: Set<usize>,
) -> bool {
    &&& completed.subset_of(s)
    &&& forall|n: int|
        0 <= n < nodes.len() && #[trigger] may_complete(nodes, n, ready, s) ==> s.contains(
            n as usize,
        )
}

/// The nodes completed when, with `ready` started, nodes are completed from `completed`
/// until none can be: the least set closed under completing.
pub open spec fn completed_from(
    nodes: Seq<DependencyNode>,
    ready: Set<usize>,
    completed: Set<usize>,
) -> Set<usize> {
    Set::new(
        |n: usize|
            forall|s: Set<usize>| #[trigger] complete_closed(nodes, ready, completed, s)
                ==> s.contains(n),
    )
}

/// The started and the completed nodes after `k` rounds. Before the first round, the first
/// and the last phase are both; a round starts nodes until none can start, then completes
/// nodes until none can be completed.
pub open spec fn round_state(nodes: Seq<DependencyNode>, k: nat) -> (Set<usize>, Set<usize>)
    decreases k,
{
    if k == 0 {
        (set![FIRST_NODE_INDEX, LAST_NODE_INDEX], set![FIRST_NODE_INDEX, LAST_NODE_INDEX])
    } else {
        let (r, c) = round_state(nodes, (k - 1) as nat);
        let r2 = started_from(nodes, r, c);
        (r2, completed_from(nodes, r2, c))
    }
}

/// The nodes that round `k` (from 1) completes.
pub open spec fn round_group(nodes: Seq<DependencyNode>, k: int) -> Set<usize> {
    round_state(nodes, k as nat).1.difference(round_state(nodes, (k - 1) as nat).1)
}

/// Each group from the second up to (not including) `end` holds exactly the nodes that its
/// round completes.
pub open spec fn groups_by_round(
    nodes: Seq<DependencyNode>,
    groups: Seq<Seq<usize>>,
    end: int,
) -> bool {
    forall|g: int, n: usize|
        #![trigger groups[g].contains(n), round_group(nodes, g)]
        1 <= g < end ==> (groups[g].contains(n) <==> round_group(nodes, g).contains(n))
}

/// The outcome of sorting `nodes`. When the rules complete every node: groups as ordered
/// above, ending with the group of the last phase, in which every node stands; each group
/// between the first and the last holds the nodes completed in its round. Otherwise: the
/// groups built until a round completed no node, each after the first holding its round's
/// nodes; in them stand exactly the nodes that the rules complete, but the last phase.
pub open spec fn grouped_outcome(
    nodes: Seq<DependencyNode>,
    r: Result<Seq<Seq<usize>>, Seq<Seq<usize>>>,
) -> bool {
    match r {
        Ok(groups) => {
            &&& sortable(nodes)
            &&& groups_ordered(nodes, groups)
            &&& groups.len() >= 2
            &&& groups.last() == seq![LAST_NODE_INDEX]
            &&& forall|n: usize| n < nodes.len() ==> #[trigger] placed(groups, n)
            &&& groups_by_round(nodes, groups, groups.len() - 1)
        },
        Err(groups) => {
            &&& !sortable(nodes)
            &&& groups_ordered(nodes, groups)
            &&& groups_by_round(nodes, groups, groups.len() as int)
            &&& round_group(nodes, groups.len() as int).is_empty()
            &&& forall|n: usize|
                n < nodes.len() ==> (#[trigger] placed(groups, n) <==> (rule_completed(
                    nodes,
                ).contains(n) && n != LAST_NODE_INDEX))
        },
    }
}

/// Visiting node `i` in a pass of the completing part of a round, with the started nodes
/// `ready`, the completed nodes `st.0` and the group `st.1` built so far: a node not yet
/// completed that may be completed is, and joins the group.
pub open spec fn complete_visit(
    nodes: Seq<DependencyNode>,
    ready: Set<usize>,
    st: (Set<usize>, Seq<usize>),
    i: int,
) -> (Set<usize>, Seq<usize>) {
    if !st.0.contains(i as usize) && may_complete(nodes, i, ready, st.0) {
        (st.0.insert(i as usize), st.1.push(i as usize))
    } else {
        st
    }
}

/// A completing pass over the first `k` nodes, in index order.
pub open spec fn complete_pass_upto(
    nodes: Seq<DependencyNode>,
    ready: Set<usize>,
    st: (Set<usize>, Seq<usize>),
    k: nat,
) -> (Set<usize>, Seq<usize>)
    decreases k,
{
    if k == 0 {
        st
    } else {
        complete_visit(nodes, ready, complete_pass_upto(nodes, ready, st, (k - 1) as nat), k - 1)
    }
}

/// Completing passes over all nodes until one completes nothing (at most `fuel` more after
/// the first).
pub open spec fn complete_passes(
    nodes: Seq<DependencyNode>,
    ready: Set<usize>,
    st: (Set<usize>, Seq<usize>),
    fuel: nat,
) -> (Set<usize>, Seq<usize>)
    decreases fuel,
{
    let st2 = complete_pass_upto(nodes, ready, st, nodes.len());
    if fuel == 0 || st2.0 == st.0 {
        st2
    } else {
        complete_passes(nodes, ready, st2, (fuel - 1) as nat)
    }
}

/// The group of round `k` (from 1) in the order in which its nodes were completed: the
/// round's completing passes from the nodes completed before it, with the nodes it started.
pub open spec fn group_in_order(nodes: Seq<DependencyNode>, k: int) -> Seq<usize> {
    let (r, c) = round_state(nodes, (k - 1) as nat);
    complete_passes(
        nodes,
        started_from(nodes, r, c),
        (c, Seq::empty()),
        (nodes.len() + 1) as nat,
    ).1
}

/// Each group from the second up to (not including) `end` lists the nodes of its round in
/// the order in which they were completed.
pub open spec fn groups_in_order(nodes: Seq<DependencyNode>, groups: Seq<Seq<usize>>, end: int) -> bool {
    forall|g: int| 1 <= g < end ==> #[trigger] groups[g] == group_in_order(nodes, g)
}

/// The groups of a vector of groups.
pub open spec fn groups_view(groups: Seq<Vec<usize>>) -> Seq<Seq<usize>> {
    groups.map_values(|g: Vec<usize>| g@)
}

/// The outcome of a sort, with its groups as sequences.
pub open spec fn groups_outcome_view(r: Result<Vec<Vec<usize>>, Vec<Vec<usize>>>) -> Result<
    Seq<Seq<usize>>,
    Seq<Seq<usize>>,
> {
    match r {
        Ok(groups) => Ok(groups_view(groups@)),
        Err(groups) => Err(groups_view(groups@)),
    }
}

/// Every index in `s` is a node of `nodes`.
spec fn within(nodes: Seq<DependencyNode>, s: Set<usize>) -> bool {
    forall|x: usize| s.contains(x) ==> x < nodes.len()
}

/// The indices below `n`.
spec fn below(n: int) -> Set<usize> {
    Set::new(|x: usize| x < n)
}

proof fn lemma_below(n: int)
    requires
        0 <= n <= usize::MAX + 1,
    ensures
        below(n).finite(),
        below(n).len() == n,
    decreases n,
{
    if n == 0 {
        assert(below(n) =~= Set::<usize>::empty());
    } else {
        lemma_below(n - 1);
        assert(below(n) =~= below(n - 1).insert((n - 1) as usize));
    }
}

/// A set of indices of `nodes` is finite and no larger than the graph.
proof fn lemma_within_finite(nodes: Seq<DependencyNode>, s: Set<usize>)
    requires
        within(nodes, s),
        nodes.len() <= usize::MAX,
    ensures
        s.finite(),
        s.len() <= nodes.len(),
{
    lemma_below(nodes.len() as int);
    assert(s.subset_of(below(nodes.len() as int)));
    vstd::set_lib::lemma_len_subset(s, below(nodes.len() as int));
}

/// `ready` and `completed` lie inside every pair of sets closed under the rules.
spec fn below_closed(nodes: Seq<DependencyNode>, ready: Set<usize>, completed: Set<usize>) -> bool {
    forall|r: Set<usize>, c: Set<usize>|
        #[trigger] closed_under_rules(nodes, r, c) ==> ready.subset_of(r) && completed.subset_of(c)
}

/// What holds throughout the sort of the started (`ready`) and the completed nodes.
spec fn core_inv(nodes: Seq<DependencyNode>, ready: Set<usize>, completed: Set<usize>) -> bool {
    &&& nodes_wf(nodes)
    &&& nodes.len() > 2
    &&& within(nodes, ready)
    &&& completed.subset_of(ready)
    &&& completed.contains(FIRST_NODE_INDEX) && completed.contains(LAST_NODE_INDEX)
    &&& below_closed(nodes, ready, completed)
    &&& forall|n: usize|
        #[trigger] ready.contains(n) && !special(n) ==> nodes[n as int].dependencies@.subset_of(
            completed,
        )
    &&& forall|n: usize|
        #[trigger] ready.contains(n) && !special(n) && nodes[n as int].parent != usize::MAX
            ==> ready.contains(nodes[n as int].parent)
}

/// What holds of the groups built so far (`res`) and of the group under construction
/// (`cur`): `slot` places each completed node but the last phase.
spec fn group_inv(
    nodes: Seq<DependencyNode>,
    ready: Set<usize>,
    completed: Set<usize>,
    slot: Map<usize, (int, int)>,
    res: Seq<Seq<usize>>,
    cur: Seq<usize>,
) -> bool {
    &&& res.len() >= 1
    &&& res[0] == seq![FIRST_NODE_INDEX]
    &&& forall|g: int| 0 <= g < res.len() ==> #[trigger] res[g].len() > 0
    &&& forall|g: int, k: int|
        0 <= g < res.len() && 0 <= k < res[g].len() ==> slot.contains_key(#[trigger] res[g][k])
            && slot[res[g][k]] == (g, k)
    &&& forall|k: int|
        0 <= k < cur.len() ==> slot.contains_key(#[trigger] cur[k]) && slot[cur[k]] == (
            res.len() as int,
            k,
        )
    &&& forall|n: usize|
        #[trigger] slot.contains_key(n) <==> (completed.contains(n) && n != LAST_NODE_INDEX)
    &&& forall|n: usize| #[trigger]
        slot.contains_key(n) ==> {
            let g = slot[n].0;
            let k = slot[n].1;
            &&& 0 <= g <= res.len()
            &&& g < res.len() ==> 0 <= k < res[g].len() && res[g][k] == n
            &&& g == res.len() ==> 0 <= k < cur.len() && cur[k] == n
            &&& g >= 1 ==> !special(n)
        }
    &&& forall|n: usize, d: usize|
        #![trigger slot.contains_key(n), nodes[n as int].dependencies@.contains(d)]
        slot.contains_key(n) && slot[n].0 >= 1 && nodes[n as int].dependencies@.contains(d) && d
            != LAST_NODE_INDEX ==> slot.contains_key(d) && slot[d].0 < slot[n].0
    &&& forall|n: usize, s: usize|
        #![trigger slot.contains_key(n), nodes[n as int].sub_nodes@.contains(s)]
        slot.contains_key(n) && slot[n].0 >= 1 && nodes[n as int].sub_nodes@.contains(s) && s
            != LAST_NODE_INDEX ==> slot.contains_key(s) && (slot[s].0 < slot[n].0 || (slot[s].0
            == slot[n].0 && slot[s].1 < slot[n].1))
    &&& forall|n: usize, d: usize|
        #![trigger slot.contains_key(n), nodes[nodes[n as int].parent as int].dependencies@.contains(d)]
        slot.contains_key(n) && slot[n].0 >= 1 && nodes[n as int].parent != usize::MAX
            && !special(nodes[n as int].parent) && nodes[nodes[n as int].parent as int].dependencies@.contains(
            d,
        ) && d != LAST_NODE_INDEX ==> slot.contains_key(d) && slot[d].0 < slot[n].0
    &&& forall|n: usize, d: usize|
        #![trigger ready.contains(n), nodes[n as int].dependencies@.contains(d)]
        ready.contains(n) && !special(n) && nodes[n as int].dependencies@.contains(d) && d
            != LAST_NODE_INDEX ==> slot.contains_key(d) && slot[d].0 < res.len()
}

/// No node that has not started may start.
spec fn start_stuck(nodes: Seq<DependencyNode>, ready: Set<usize>, completed: Set<usize>) -> bool {
    forall|n: int|
        0 <= n < nodes.len() && #[trigger] may_start(nodes, n, ready, completed) ==> ready.contains(
            n as usize,
        )
}

/// No node that is not completed may be completed.
spec fn complete_stuck(
    nodes: Seq<DependencyNode>,
    ready: Set<usize>,
    completed: Set<usize>,
) -> bool {
    forall|n: int|
        0 <= n < nodes.len() && #[trigger] may_complete(nodes, n, ready, completed)
            ==> completed.contains(n as usize)
}

/// A node that may start from nodes reached by starting from `base` is reached too.
proof fn lemma_start_reached(
    nodes: Seq<DependencyNode>,
    base: Set<usize>,
    ready: Set<usize>,
    completed: Set<usize>,
    n: usize,
)
    requires
        base.subset_of(ready),
        ready.subset_of(started_from(nodes, base, completed)),
        n < nodes.len(),
        may_start(nodes, n as int, ready, completed),
    ensures
        ready.insert(n).subset_of(started_from(nodes, base, completed)),
{
    assert forall|s: Set<usize>| #[trigger] start_closed(nodes, base, completed, s) implies s.contains(
        n,
    ) by {
        assert forall|x: usize| ready.contains(x) implies s.contains(x) by {
            assert(started_from(nodes, base, completed).contains(x));
        }
        assert(may_start(nodes, n as int, s, completed));
    }
    assert(started_from(nodes, base, completed).contains(n));
}

/// Nodes reached by starting from `base`, from which no further node may start, are all
/// that starting from `base` reaches.
proof fn lemma_start_closure(
    nodes: Seq<DependencyNode>,
    base: Set<usize>,
    ready: Set<usize>,
    completed: Set<usize>,
)
    requires
        base.subset_of(ready),
        ready.subset_of(started_from(nodes, base, completed)),
        start_stuck(nodes, ready, completed),
    ensures
        ready == started_from(nodes, base, completed),
{
    assert(start_closed(nodes, base, completed, ready));
    assert(ready =~= started_from(nodes, base, completed));
}

/// Starting from `base` reaches `base`.
proof fn lemma_start_base(nodes: Seq<DependencyNode>, base: Set<usize>, completed: Set<usize>)
    ensures
        base.subset_of(started_from(nodes, base, completed)),
{
    assert forall|x: usize| base.contains(x) implies started_from(nodes, base, completed).contains(
        x,
    ) by {
        assert forall|s: Set<usize>| #[trigger] start_closed(nodes, base, completed, s) implies s.contains(
            x,
        ) by {}
    }
}

/// A node that may be completed from nodes reached by completing from `base` is reached
/// too.
proof fn lemma_complete_reached(
    nodes: Seq<DependencyNode>,
    ready: Set<usize>,
    base: Set<usize>,
    completed: Set<usize>,
    n: usize,
)
    requires
        base.subset_of(completed),
        completed.subset_of(completed_from(nodes, ready, base)),
        n < nodes.len(),
        may_complete(nodes, n as int, ready, completed),
    ensures
        completed.insert(n).subset_of(completed_from(nodes, ready, base)),
{
    assert forall|s: Set<usize>| #[trigger] complete_closed(nodes, ready, base, s) implies s.contains(
        n,
    ) by {
        assert forall|x: usize| completed.contains(x) implies s.contains(x) by {
            assert(completed_from(nodes, ready, base).contains(x));
        }
        assert(may_complete(nodes, n as int, ready, s));
    }
    assert(completed_from(nodes, ready, base).contains(n));
}

/// Nodes reached by completing from `base`, from which no further node may be completed,
/// are all that completing from `base` reaches.
proof fn lemma_complete_closure(
    nodes: Seq<DependencyNode>,
    ready: Set<usize>,
    base: Set<usize>,
    completed: Set<usize>,
)
    requires
        base.subset_of(completed),
        completed.subset_of(completed_from(nodes, ready, base)),
        complete_stuck(nodes, ready, completed),
    ensures
        completed == completed_from(nodes, ready, base),
{
    assert(complete_closed(nodes, ready, base, completed));
    assert(completed =~= completed_from(nodes, ready, base));
}

/// Completing from `base` reaches `base`.
proof fn lemma_complete_base(nodes: Seq<DependencyNode>, ready: Set<usize>, base: Set<usize>)
    ensures
        base.subset_of(completed_from(nodes, ready, base)),
{
    assert forall|x: usize| base.contains(x) implies completed_from(nodes, ready, base).contains(
        x,
    ) by {
        assert forall|s: Set<usize>| #[trigger] complete_closed(nodes, ready, base, s) implies s.contains(
            x,
        ) by {}
    }
}

/// Starting a node that may start keeps the invariants.
proof fn lemma_start(
    nodes: Seq<DependencyNode>,
    ready: Set<usize>,
    completed: Set<usize>,
    slot: Map<usize, (int, int)>,
    res: Seq<Seq<usize>>,
    n: usize,
)
    requires
        core_inv(nodes, ready, completed),
        group_inv(nodes, ready, completed, slot, res, Seq::<usize>::empty()),
        n < nodes.len(),
        !ready.contains(n),
        may_start(nodes, n as int, ready, completed),
    ensures
        core_inv(nodes, ready.insert(n), completed),
        group_inv(nodes, ready.insert(n), completed, slot, res, Seq::<usize>::empty()),
{
    let r2 = ready.insert(n);
    assert(!special(n));
    assert forall|r: Set<usize>, c: Set<usize>| #[trigger]
        closed_under_rules(nodes, r, c) implies r2.subset_of(r) && completed.subset_of(c) by {
        assert(ready.subset_of(r) && completed.subset_of(c));
        assert(may_start(nodes, n as int, r, c));
    }
    assert forall|m: usize|
        #[trigger] r2.contains(m) && !special(m) implies nodes[m as int].dependencies@.subset_of(
        completed,
    ) by {
        if m != n {
            assert(ready.contains(m));
        }
    }
    assert forall|m: usize|
        #[trigger] r2.contains(m) && !special(m) && nodes[m as int].parent != usize::MAX implies r2.contains(
        nodes[m as int].parent,
    ) by {
        if m != n {
            assert(ready.contains(m));
        }
    }
    assert forall|m: usize, d: usize|
        #![trigger r2.contains(m), nodes[m as int].dependencies@.contains(d)]
        r2.contains(m) && !special(m) && nodes[m as int].dependencies@.contains(d) && d
            != LAST_NODE_INDEX implies slot.contains_key(d) && slot[d].0 < res.len() by {
        if m == n {
            assert(completed.contains(d));
            assert(slot.contains_key(d));
            if slot[d].0 == res.len() {
                assert(0 <= slot[d].1 < 0);
            }
        } else {
            assert(ready.contains(m));
        }
    }
}

/// Completing a started node whose sub-nodes are completed keeps the invariants; it takes
/// the next place of the group under construction.
proof fn lemma_complete(
    nodes: Seq<DependencyNode>,
    ready: Set<usize>,
    completed: Set<usize>,
    slot: Map<usize, (int, int)>,
    res: Seq<Seq<usize>>,
    cur: Seq<usize>,
    n: usize,
)
    requires
        core_inv(nodes, ready, completed),
        group_inv(nodes, ready, completed, slot, res, cur),
        n < nodes.len(),
        !completed.contains(n),
        may_complete(nodes, n as int, ready, completed),
    ensures
        core_inv(nodes, ready, completed.insert(n)),
        group_inv(
            nodes,
            ready,
            completed.insert(n),
            slot.insert(n, (res.len() as int, cur.len() as int)),
            res,
            cur.push(n),
        ),
{
    let c2 = completed.insert(n);
    let s2 = slot.insert(n, (res.len() as int, cur.len() as int));
    let cur2 = cur.push(n);
    assert(!special(n));
    assert(!slot.contains_key(n));
    assert forall|r: Set<usize>, c: Set<usize>| #[trigger]
        closed_under_rules(nodes, r, c) implies ready.subset_of(r) && c2.subset_of(c) by {
        assert(ready.subset_of(r) && completed.subset_of(c));
        assert(may_complete(nodes, n as int, r, c));
    }
    assert forall|m: usize|
        #[trigger] ready.contains(m) && !special(m) implies nodes[m as int].dependencies@.subset_of(
        c2,
    ) by {
        assert(nodes[m as int].dependencies@.subset_of(completed));
    }
    assert forall|g: int, k: int|
        0 <= g < res.len() && 0 <= k < res[g].len() implies s2.contains_key(
        #[trigger] res[g][k],
    ) && s2[res[g][k]] == (g, k) by {
        assert(slot.contains_key(res[g][k]));
    }
    assert forall|k: int| 0 <= k < cur2.len() implies s2.contains_key(#[trigger] cur2[k])
        && s2[cur2[k]] == (res.len() as int, k) by {
        if k < cur.len() {
            assert(cur2[k] == cur[k]);
            assert(slot.contains_key(cur[k]));
        }
    }
    assert forall|m: usize| #[trigger]
        s2.contains_key(m) implies {
        let g = s2[m].0;
        let k = s2[m].1;
        &&& 0 <= g <= res.len()
        &&& g < res.len() ==> 0 <= k < res[g].len() && res[g][k] == m
        &&& g == res.len() ==> 0 <= k < cur2.len() && cur2[k] == m
        &&& g >= 1 ==> !special(m)
    } by {
        if m != n {
            assert(slot.contains_key(m));
            if slot[m].0 == res.len() {
                assert(cur2[slot[m].1] == cur[slot[m].1]);
            }
        }
    }
    assert forall|m: usize, d: usize|
        #![trigger s2.contains_key(m), nodes[m as int].dependencies@.contains(d)]
        s2.contains_key(m) && s2[m].0 >= 1 && nodes[m as int].dependencies@.contains(d) && d
            != LAST_NODE_INDEX implies s2.contains_key(d) && s2[d].0 < s2[m].0 by {
        if m == n {
            assert(ready.contains(n));
            assert(slot.contains_key(d) && slot[d].0 < res.len());
        } else {
            assert(slot.contains_key(m));
            assert(slot.contains_key(d) && slot[d].0 < slot[m].0);
        }
    }
    assert forall|m: usize, s: usize|
        #![trigger s2.contains_key(m), nodes[m as int].sub_nodes@.contains(s)]
        s2.contains_key(m) && s2[m].0 >= 1 && nodes[m as int].sub_nodes@.contains(s) && s
            != LAST_NODE_INDEX implies s2.contains_key(s) && (s2[s].0 < s2[m].0 || (s2[s].0
        == s2[m].0 && s2[s].1 < s2[m].1)) by {
        if m == n {
            assert(completed.contains(s));
            assert(slot.contains_key(s));
            if slot[s].0 == res.len() {
                assert(slot[s].1 < cur.len());
            }
        } else {
            assert(slot.contains_key(m));
            assert(slot.contains_key(s));
        }
    }
    assert forall|m: usize, d: usize|
        #![trigger s2.contains_key(m), nodes[nodes[m as int].parent as int].dependencies@.contains(d)]
        s2.contains_key(m) && s2[m].0 >= 1 && nodes[m as int].parent != usize::MAX && !special(
            nodes[m as int].parent,
        ) && nodes[nodes[m as int].parent as int].dependencies@.contains(d) && d
            != LAST_NODE_INDEX implies s2.contains_key(d) && s2[d].0 < s2[m].0 by {
        if m == n {
            let p = nodes[n as int].parent;
            assert(ready.contains(p));
            assert(slot.contains_key(d) && slot[d].0 < res.len());
        } else {
            assert(slot.contains_key(m));
            assert(slot.contains_key(d) && slot[d].0 < slot[m].0);
        }
    }
    assert forall|m: usize, d: usize|
        #![trigger ready.contains(m), nodes[m as int].dependencies@.contains(d)]
        ready.contains(m) && !special(m) && nodes[m as int].dependencies@.contains(d) && d
            != LAST_NODE_INDEX implies s2.contains_key(d) && s2[d].0 < res.len() by {
        assert(slot.contains_key(d));
    }
}

/// Closing the group under construction: it becomes the last of the built groups.
proof fn lemma_push_group(
    nodes: Seq<DependencyNode>,
    ready: Set<usize>,
    completed: Set<usize>,
    slot: Map<usize, (int, int)>,
    res: Seq<Seq<usize>>,
    cur: Seq<usize>,
)
    requires
        group_inv(nodes, ready, completed, slot, res, cur),
        cur.len() > 0,
    ensures
        group_inv(nodes, ready, completed, slot, res.push(cur), Seq::<usize>::empty()),
{
    let res2 = res.push(cur);
    assert forall|g: int| 0 <= g < res2.len() implies #[trigger] res2[g].len() > 0 by {
        if g < res.len() {
            assert(res2[g] == res[g]);
        }
    }
    assert forall|g: int, k: int|
        0 <= g < res2.len() && 0 <= k < res2[g].len() implies slot.contains_key(
        #[trigger] res2[g][k],
    ) && slot[res2[g][k]] == (g, k) by {
        if g < res.len() {
            assert(res2[g] == res[g]);
        } else {
            assert(res2[g] == cur);
        }
    }
    assert forall|m: usize| #[trigger]
        slot.contains_key(m) implies {
        let g = slot[m].0;
        let k = slot[m].1;
        &&& 0 <= g <= res2.len()
        &&& g < res2.len() ==> 0 <= k < res2[g].len() && res2[g][k] == m
        &&& g == res2.len() ==> 0 <= k < 0 && Seq::<usize>::empty()[k] == m
        &&& g >= 1 ==> !special(m)
    } by {
        if slot[m].0 < res.len() {
            assert(res2[slot[m].0] == res[slot[m].0]);
        } else {
            assert(res2[slot[m].0] == cur);
        }
    }
}

/// With no node left to start or to complete, the started and completed nodes are closed
/// under the rules, and the completed ones are exactly those that the rules complete.
proof fn lemma_stuck(nodes: Seq<DependencyNode>, ready: Set<usize>, completed: Set<usize>)
    requires
        core_inv(nodes, ready, completed),
        start_stuck(nodes, ready, completed),
        complete_stuck(nodes, ready, completed),
    ensures
        closed_under_rules(nodes, ready, completed),
        rule_completed(nodes) == completed,
{
    assert(closed_under_rules(nodes, ready, completed));
    assert forall|x: usize| rule_completed(nodes).contains(x) == completed.contains(x) by {
        if completed.contains(x) {
            assert(ready.contains(x));
            assert forall|r: Set<usize>, c: Set<usize>| #[trigger]
                closed_under_rules(nodes, r, c) implies c.contains(x) by {
                assert(completed.subset_of(c));
            }
        }
    }
    assert(rule_completed(nodes) =~= completed);
}

/// With every node completed, the graph is sortable.
proof fn lemma_all_completed(nodes: Seq<DependencyNode>, ready: Set<usize>, completed: Set<usize>)
    requires
        core_inv(nodes, ready, completed),
        completed.finite(),
        completed.len() == nodes.len(),
    ensures
        completed == below(nodes.len() as int),
        sortable(nodes),
{
    lemma_below(nodes.len() as int);
    assert(completed.subset_of(below(nodes.len() as int)));
    vstd::set_lib::lemma_subset_equality(completed, below(nodes.len() as int));
    assert forall|n: usize| n < nodes.len() implies #[trigger] rule_completed(nodes).contains(n) by {
        assert(completed.contains(n));
        assert forall|r: Set<usize>, c: Set<usize>| #[trigger]
            closed_under_rules(nodes, r, c) implies c.contains(n) by {
            assert(completed.subset_of(c));
        }
    }
}

/// The groups built, with the slots of their nodes, are ordered; the nodes that stand in
/// them are those that `slot` places.
proof fn lemma_ordered(
    nodes: Seq<DependencyNode>,
    ready: Set<usize>,
    completed: Set<usize>,
    slot: Map<usize, (int, int)>,
    res: Seq<Seq<usize>>,
)
    requires
        core_inv(nodes, ready, completed),
        group_inv(nodes, ready, completed, slot, res, Seq::<usize>::empty()),
    ensures
        groups_ordered(nodes, res),
        forall|n: usize| #[trigger] placed(res, n) <==> slot.contains_key(n),
{
    assert forall|g: int, k: int| 0 <= g < res.len() && 0 <= k < res[g].len() implies #[trigger] res[g][k]
        < nodes.len() by {
        assert(slot.contains_key(res[g][k]));
        assert(completed.contains(res[g][k]));
    }
    assert forall|n: usize| #[trigger] placed(res, n) <==> slot.contains_key(n) by {
        if slot.contains_key(n) {
            if slot[n].0 == res.len() {
                assert(0 <= slot[n].1 < 0);
            }
            assert(stands_at(res, slot[n].0, slot[n].1, n));
        }
        if placed(res, n) {
            let (g, k) = choose|g: int, k: int| #[trigger] stands_at(res, g, k, n);
            assert(slot.contains_key(res[g][k]));
        }
    }
    assert forall|g: int, k: int, h: int, l: int|
        stands_at(res, g, k, #[trigger] res[g][k]) && stands_at(res, h, l, #[trigger] res[h][l])
            && res[g][k] == res[h][l] implies g == h && k == l by {
        assert(slot[res[g][k]] == (g, k));
        assert(slot[res[h][l]] == (h, l));
    }
    assert forall|g: int, k: int, h: int, l: int|
        1 <= g && stands_at(res, g, k, #[trigger] res[g][k]) && stands_at(
            res,
            h,
            l,
            #[trigger] res[h][l],
        ) && res[h][l] != LAST_NODE_INDEX && nodes[res[g][k] as int].dependencies@.contains(
            res[h][l],
        ) implies h < g by {
        let n = res[g][k];
        let d = res[h][l];
        assert(slot.contains_key(n) && slot[n] == (g, k));
        assert(slot.contains_key(d) && slot[d] == (h, l));
        assert(nodes[n as int].dependencies@.contains(d));
    }
    assert forall|g: int, k: int, h: int, l: int|
        1 <= g && stands_at(res, g, k, #[trigger] res[g][k]) && stands_at(
            res,
            h,
            l,
            #[trigger] res[h][l],
        ) && res[h][l] != LAST_NODE_INDEX && nodes[res[g][k] as int].sub_nodes@.contains(
            res[h][l],
        ) implies h < g || (h == g && l < k) by {
        let n = res[g][k];
        let s = res[h][l];
        assert(slot.contains_key(n) && slot[n] == (g, k));
        assert(slot.contains_key(s) && slot[s] == (h, l));
        assert(nodes[n as int].sub_nodes@.contains(s));
    }
    assert forall|g: int, k: int, h: int, l: int|
        1 <= g && stands_at(res, g, k, #[trigger] res[g][k]) && stands_at(
            res,
            h,
            l,
            #[trigger] res[h][l],
        ) && res[h][l] != LAST_NODE_INDEX && nodes[res[g][k] as int].parent != usize::MAX
            && !special(nodes[res[g][k] as int].parent) && nodes[nodes[res[g][k] as int].parent as int].dependencies@.contains(
            res[h][l],
        ) implies h < g by {
        let n = res[g][k];
        let d = res[h][l];
        assert(slot.contains_key(n) && slot[n] == (g, k));
        assert(slot.contains_key(d) && slot[d] == (h, l));
        assert(nodes[nodes[n as int].parent as int].dependencies@.contains(d));
    }
}

/// Appending the group of the last phase to ordered groups in which every other node stands
/// keeps them ordered, and then every node stands in them.
proof fn lemma_ordered_last(nodes: Seq<DependencyNode>, res: Seq<Seq<usize>>)
    requires
        groups_ordered(nodes, res),
        nodes.len() > 2,
        forall|n: usize| n < nodes.len() ==> (#[trigger] placed(res, n) <==> n != LAST_NODE_INDEX),
    ensures
        groups_ordered(nodes, res.push(seq![LAST_NODE_INDEX])),
        forall|n: usize| n < nodes.len() ==> #[trigger] placed(res.push(seq![LAST_NODE_INDEX]), n),
{
    let all = res.push(seq![LAST_NODE_INDEX]);
    let last = res.len() as int;
    assert(all[0] == res[0]);
    assert forall|g: int, k: int| 0 <= g < last && 0 <= k < all[g].len() implies #[trigger] all[g][k] == res[g][k]
        && stands_at(res, g, k, res[g][k]) by {
        assert(all[g] == res[g]);
    }
    assert forall|g: int, k: int| 0 <= g < all.len() && 0 <= k < all[g].len() implies #[trigger] all[g][k]
        != LAST_NODE_INDEX <==> g < last by {
        if g < last {
            assert(all[g][k] == res[g][k]);
            assert(placed(res, res[g][k]));
            assert(res[g][k] < nodes.len());
        } else {
            assert(all[g] == seq![LAST_NODE_INDEX]);
        }
    }
    assert forall|g: int| 0 <= g < all.len() implies #[trigger] all[g].len() > 0 by {
        if g < last {
            assert(all[g] == res[g]);
        }
    }
    assert forall|g: int, k: int| 0 <= g < all.len() && 0 <= k < all[g].len() implies #[trigger] all[g][k]
        < nodes.len() by {
        if g < last {
            assert(all[g][k] == res[g][k]);
        }
    }
    assert forall|g: int, k: int, h: int, l: int|
        stands_at(all, g, k, #[trigger] all[g][k]) && stands_at(all, h, l, #[trigger] all[h][l])
            && all[g][k] == all[h][l] implies g == h && k == l by {
        if g < last && h < last {
            assert(all[g][k] == res[g][k] && all[h][l] == res[h][l]);
        } else if g == last && h == last {
            assert(all[g] == seq![LAST_NODE_INDEX]);
        } else if g == last {
            assert(all[g] == seq![LAST_NODE_INDEX]);
            assert(all[h][l] != LAST_NODE_INDEX);
        } else {
            assert(all[h] == seq![LAST_NODE_INDEX]);
            assert(all[g][k] != LAST_NODE_INDEX);
        }
    }
    assert forall|g: int, k: int, h: int, l: int|
        1 <= g && stands_at(all, g, k, #[trigger] all[g][k]) && stands_at(
            all,
            h,
            l,
            #[trigger] all[h][l],
        ) && all[h][l] != LAST_NODE_INDEX && nodes[all[g][k] as int].dependencies@.contains(
            all[h][l],
        ) implies h < g by {
        assert(h < last);
        if g < last {
            assert(all[g][k] == res[g][k] && all[h][l] == res[h][l]);
            assert(stands_at(res, g, k, res[g][k]) && stands_at(res, h, l, res[h][l]));
        }
    }
    assert forall|g: int, k: int, h: int, l: int|
        1 <= g && stands_at(all, g, k, #[trigger] all[g][k]) && stands_at(
            all,
            h,
            l,
            #[trigger] all[h][l],
        ) && all[h][l] != LAST_NODE_INDEX && nodes[all[g][k] as int].sub_nodes@.contains(
            all[h][l],
        ) implies h < g || (h == g && l < k) by {
        assert(h < last);
        if g < last {
            assert(all[g][k] == res[g][k] && all[h][l] == res[h][l]);
            assert(stands_at(res, g, k, res[g][k]) && stands_at(res, h, l, res[h][l]));
        }
    }
    assert forall|g: int, k: int, h: int, l: int|
        1 <= g && stands_at(all, g, k, #[trigger] all[g][k]) && stands_at(
            all,
            h,
            l,
            #[trigger] all[h][l],
        ) && all[h][l] != LAST_NODE_INDEX && nodes[all[g][k] as int].parent != usize::MAX
            && !special(nodes[all[g][k] as int].parent) && nodes[nodes[all[g][k] as int].parent as int].dependencies@.contains(
            all[h][l],
        ) implies h < g by {
        assert(h < last);
        if g < last {
            assert(all[g][k] == res[g][k] && all[h][l] == res[h][l]);
            assert(stands_at(res, g, k, res[g][k]) && stands_at(res, h, l, res[h][l]));
        }
    }
    assert forall|n: usize| n < nodes.len() implies #[trigger] placed(all, n) by {
        if n == LAST_NODE_INDEX {
            assert(stands_at(all, last, 0, n));
        } else {
            assert(placed(res, n));
            let (g, k) = choose|g: int, k: int| #[trigger] stands_at(res, g, k, n);
            assert(all[g] == res[g]);
            assert(stands_at(all, g, k, n));
        }
    }
}

/// The group built in a round holds exactly the nodes completed in it.
proof fn lemma_round_group(
    nodes: Seq<DependencyNode>,
    ready: Set<usize>,
    completed_round: Set<usize>,
    completed: Set<usize>,
    slot_round: Map<usize, (int, int)>,
    slot: Map<usize, (int, int)>,
    res: Seq<Seq<usize>>,
    cur: Seq<usize>,
)
    requires
        group_inv(nodes, ready, completed_round, slot_round, res, Seq::<usize>::empty()),
        group_inv(nodes, ready, completed, slot, res, cur),
        completed_round.contains(LAST_NODE_INDEX),
        forall|m: usize| #[trigger]
            slot_round.contains_key(m) ==> slot.contains_key(m) && slot[m] == slot_round[m],
    ensures
        forall|n: usize|
            #[trigger] cur.contains(n) <==> completed.contains(n) && !completed_round.contains(n),
{
    assert forall|n: usize|
        #[trigger] cur.contains(n) <==> completed.contains(n) && !completed_round.contains(n) by {
        if cur.contains(n) {
            let k = choose|k: int| 0 <= k < cur.len() && cur[k] == n;
            assert(slot.contains_key(cur[k]) && slot[cur[k]] == (res.len() as int, k));
            if completed_round.contains(n) {
                assert(slot_round.contains_key(n));
                assert(slot_round[n].0 < res.len()) by {
                    if slot_round[n].0 == res.len() {
                        assert(0 <= slot_round[n].1 < 0);
                    }
                }
            }
        }
        if completed.contains(n) && !completed_round.contains(n) {
            assert(slot.contains_key(n));
            let g = slot[n].0;
            let k = slot[n].1;
            if g < res.len() {
                assert(res[g][k] == n);
                assert(slot_round.contains_key(res[g][k]));
            }
            assert(cur[k] == n);
        }
    }
}

impl DependencyGraph {
    /// One pass over the nodes in index order: each node that may start is started.
    /// Returns whether any node started.
    fn start_pass(
        &self,
        ready: &mut BitSet,
        completed: &BitSet,
        Ghost(slot): Ghost<Map<usize, (int, int)>>,
        Ghost(res): Ghost<Seq<Seq<usize>>>,
        Ghost(base): Ghost<Set<usize>>,
    ) -> (changed: bool)
        requires
            self.wf(),
            core_inv(self.nodes(), old(ready)@, completed@),
            group_inv(self.nodes(), old(ready)@, completed@, slot, res, Seq::<usize>::empty()),
            base.subset_of(old(ready)@),
            old(ready)@.subset_of(started_from(self.nodes(), base, completed@)),
        ensures
            final(ready)@.subset_of(started_from(self.nodes(), base, completed@)),
            core_inv(self.nodes(), final(ready)@, completed@),
            group_inv(self.nodes(), final(ready)@, completed@, slot, res, Seq::<usize>::empty()),
            old(ready)@.subset_of(final(ready)@),
            final(ready)@.finite(),
            final(ready)@.len() <= self.nodes().len(),
            changed ==> final(ready)@.len() > old(ready)@.len(),
            !changed ==> final(ready)@ == old(ready)@ && start_stuck(
                self.nodes(),
                final(ready)@,
                completed@,
            ),
    {
        let ghost nodes = self.nodes();
        let ghost ready0 = ready@;
        let len = self.len();
        let mut changed = false;
        let mut i: usize = 0;
        proof {
            lemma_within_finite(nodes, ready0);
        }
        while i < len
            invariant
                0 <= i <= len,
                len == nodes.len(),
                nodes == self.nodes(),
                self.wf(),
                core_inv(nodes, ready@, completed@),
                group_inv(nodes, ready@, completed@, slot, res, Seq::<usize>::empty()),
                ready0.subset_of(ready@),
                base.subset_of(ready0),
                ready@.subset_of(started_from(nodes, base, completed@)),
                ready0.finite(),
                ready@.finite(),
                ready@.len() <= len,
                changed ==> ready@.len() > ready0.len(),
                !changed ==> ready@ == ready0,
                !changed ==> forall|j: int|
                    0 <= j < i && #[trigger] may_start(nodes, j, ready@, completed@)
                        ==> ready@.contains(j as usize),
            decreases len - i,
        {
            let node = self.node(i);
            proof {
                assert(nodes[i as int] == *node);
                assert(node.index == i);
            }
            let starts = !ready.contains(node.index) && (node.parent == usize::MAX
                || ready.contains(node.parent)) && completed.is_superset(&node.dependencies);
            if starts {
                proof {
                    assert(may_start(nodes, i as int, ready@, completed@));
                    lemma_start(nodes, ready@, completed@, slot, res, i);
                    lemma_start_reached(nodes, base, ready@, completed@, i);
                    lemma_within_finite(nodes, ready@.insert(i));
                }
                ready.insert(node.index);
                changed = true;
            }
            i += 1;
        }
        changed
    }

    /// One pass over the nodes in index order: each started node whose sub-nodes are all
    /// completed is completed and joins `new_group`. Returns whether any node was completed,
    /// and the places of the completed nodes.
    fn complete_pass(
        &self,
        ready: &BitSet,
        completed: &mut BitSet,
        new_group: &mut Vec<usize>,
        todo: &mut usize,
        Ghost(slot): Ghost<Map<usize, (int, int)>>,
        Ghost(res): Ghost<Seq<Seq<usize>>>,
        Ghost(base): Ghost<Set<usize>>,
    ) -> (r: (bool, Ghost<Map<usize, (int, int)>>))
        requires
            self.wf(),
            core_inv(self.nodes(), ready@, old(completed)@),
            group_inv(self.nodes(), ready@, old(completed)@, slot, res, old(new_group)@),
            old(completed)@.finite(),
            *old(todo) == self.nodes().len() - old(completed)@.len(),
            base.subset_of(old(completed)@),
            old(completed)@.subset_of(completed_from(self.nodes(), ready@, base)),
        ensures
            final(completed)@.subset_of(completed_from(self.nodes(), ready@, base)),
            forall|m: usize| #[trigger]
                slot.contains_key(m) ==> r.1@.contains_key(m) && r.1@[m] == slot[m],
            core_inv(self.nodes(), ready@, final(completed)@),
            group_inv(self.nodes(), ready@, final(completed)@, r.1@, res, final(new_group)@),
            final(completed)@.finite(),
            *final(todo) == self.nodes().len() - final(completed)@.len(),
            old(completed)@.subset_of(final(completed)@),
            r.0 ==> final(completed)@.len() > old(completed)@.len() && final(new_group)@.len()
                > 0,
            !r.0 ==> {
                &&& final(completed)@ == old(completed)@
                &&& final(new_group)@ == old(new_group)@
                &&& r.1@ == slot
                &&& complete_stuck(self.nodes(), ready@, final(completed)@)
            },
            (final(completed)@, final(new_group)@) == complete_pass_upto(
                self.nodes(),
                ready@,
                (old(completed)@, old(new_group)@),
                self.nodes().len(),
            ),
    {
        let ghost nodes = self.nodes();
        let ghost completed0 = completed@;
        let ghost cur0 = new_group@;
        let ghost mut sl = slot;
        let len = self.len();
        let mut changed = false;
        let mut i: usize = 0;
        while i < len
            invariant
                0 <= i <= len,
                len == nodes.len(),
                nodes == self.nodes(),
                self.wf(),
                core_inv(nodes, ready@, completed@),
                group_inv(nodes, ready@, completed@, sl, res, new_group@),
                completed0.subset_of(completed@),
                base.subset_of(completed0),
                completed@.subset_of(completed_from(nodes, ready@, base)),
                forall|m: usize| #[trigger]
                    slot.contains_key(m) ==> sl.contains_key(m) && sl[m] == slot[m],
                completed0.finite(),
                completed@.finite(),
                *todo == len - completed@.len(),
                changed ==> completed@.len() > completed0.len() && new_group@.len() > 0,
                !changed ==> completed@ == completed0 && new_group@ == cur0 && sl == slot,
                !changed ==> forall|j: int|
                    0 <= j < i && #[trigger] may_complete(nodes, j, ready@, completed@)
                        ==> completed@.contains(j as usize),
                (completed@, new_group@) == complete_pass_upto(
                    nodes,
                    ready@,
                    (completed0, cur0),
                    i as nat,
                ),
            decreases len - i,
        {
            let ghost before = (completed@, new_group@);
            let node = self.node(i);
            proof {
                assert(nodes[i as int] == *node);
                assert(node.index == i);
            }
            let completes = !completed.contains(node.index) && ready.contains(node.index)
                && completed.is_superset(&node.sub_nodes);
            if completes {
                proof {
                    assert(may_complete(nodes, i as int, ready@, completed@));
                    lemma_complete(nodes, ready@, completed@, sl, res, new_group@, i);
                    lemma_complete_reached(nodes, ready@, base, completed@, i);
                    assert(completed@.subset_of(ready@));
                    lemma_within_finite(nodes, completed@.insert(i));
                    sl = sl.insert(i, (res.len() as int, new_group@.len() as int));
                }
                completed.insert(node.index);
                new_group.push(node.index);
                *todo = *todo - 1;
                changed = true;
            }
            proof {
                assert((completed@, new_group@) == complete_visit(nodes, ready@, before, i as int));
            }
            i += 1;
        }
        (changed, Ghost(sl))
    }

    /// Sorts the nodes into groups: the first group holds the first phase; each further
    /// group holds the nodes completed in one round of starting and completing nodes, in the
    /// order in which they were completed; the last group holds the last phase. When a round
    /// completes no node, the groups built so far are the error.
    pub fn build_topological_groups(&self) -> (r: Result<Vec<Vec<usize>>, Vec<Vec<usize>>>)
        requires
            self.wf(),
            self.nodes().len() > 2,
        ensures
            grouped_outcome(self.nodes(), groups_outcome_view(r)),
            r matches Ok(gs) ==> groups_in_order(
                self.nodes(),
                groups_view(gs@),
                gs@.len() - 1,
            ),
            r matches Err(gs) ==> groups_in_order(self.nodes(), groups_view(gs@), gs@.len() as int),
    {
        let ghost nodes = self.nodes();
        let len = self.len();
        let mut groups: Vec<Vec<usize>> = Vec::new();
        let mut completed = BitSet::with_capacity(len);
        let mut ready = BitSet::with_capacity(len);
        let mut todo = len;
        groups.push(vec![FIRST_NODE_INDEX]);
        ready.insert(FIRST_NODE_INDEX);
        completed.insert(FIRST_NODE_INDEX);
        ready.insert(LAST_NODE_INDEX);
        completed.insert(LAST_NODE_INDEX);
        todo = todo - 2;
        let ghost mut slot: Map<usize, (int, int)> = map![FIRST_NODE_INDEX => (0int, 0int)];
        proof {
            let r0 = ready@;
            let c0 = completed@;
            assert(c0 =~= set![FIRST_NODE_INDEX, LAST_NODE_INDEX]);
            assert(r0 =~= c0);
            assert(c0.len() == 2) by {
                assert(set![FIRST_NODE_INDEX].len() == 1);
            }
            assert(groups_view(groups@)[0] == groups@[0]@);
            assert(groups@[0]@ == seq![FIRST_NODE_INDEX]);
            assert(groups_view(groups@) =~= seq![seq![FIRST_NODE_INDEX]]);
            assert forall|n: usize, d: usize|
                #![trigger r0.contains(n), nodes[n as int].dependencies@.contains(d)]
                r0.contains(n) && !special(n) && nodes[n as int].dependencies@.contains(d) && d
                    != LAST_NODE_INDEX implies slot.contains_key(d) && slot[d].0 < 1 by {
            }
            assert(group_inv(
                nodes,
                r0,
                c0,
                slot,
                groups_view(groups@),
                Seq::<usize>::empty(),
            ));
            assert(round_state(nodes, 0) == (r0, c0));
        }
        while todo > 0
            invariant
                nodes == self.nodes(),
                len == nodes.len(),
                self.wf(),
                core_inv(nodes, ready@, completed@),
                group_inv(
                    nodes,
                    ready@,
                    completed@,
                    slot,
                    groups_view(groups@),
                    Seq::<usize>::empty(),
                ),
                completed@.finite(),
                todo == len - completed@.len(),
                groups@.len() >= 1,
                ready@ == round_state(nodes, (groups@.len() - 1) as nat).0,
                completed@ == round_state(nodes, (groups@.len() - 1) as nat).1,
                groups_by_round(nodes, groups_view(groups@), groups@.len() as int),
                groups_in_order(nodes, groups_view(groups@), groups@.len() as int),
            decreases todo,
        {
            let ghost res = groups_view(groups@);
            let ghost ready_round = ready@;
            proof {
                lemma_within_finite(nodes, ready@);
                lemma_start_base(nodes, ready_round, completed@);
            }
            loop
                invariant
                    nodes == self.nodes(),
                    self.wf(),
                    core_inv(nodes, ready@, completed@),
                    group_inv(nodes, ready@, completed@, slot, res, Seq::<usize>::empty()),
                    ready@.finite(),
                    ready@.len() <= len,
                    len == nodes.len(),
                    ready_round.subset_of(ready@),
                    ready@.subset_of(started_from(nodes, ready_round, completed@)),
                ensures
                    core_inv(nodes, ready@, completed@),
                    group_inv(nodes, ready@, completed@, slot, res, Seq::<usize>::empty()),
                    start_stuck(nodes, ready@, completed@),
                    ready@ == started_from(nodes, ready_round, completed@),
                decreases len - ready@.len(),
            {
                let changed = self.start_pass(
                    &mut ready,
                    &completed,
                    Ghost(slot),
                    Ghost(res),
                    Ghost(ready_round),
                );
                if !changed {
                    proof {
                        lemma_start_closure(nodes, ready_round, ready@, completed@);
                    }
                    break ;
                }
            }
            let ghost completed_round = completed@;
            let ghost slot_round = slot;
            proof {
                lemma_complete_base(nodes, ready@, completed_round);
            }
            let mut new_group: Vec<usize> = Vec::new();
            let ghost ready_started = ready@;
            let ghost mut pfuel: nat = (len + 1) as nat;
            proof {
                assert(new_group@ =~= Seq::<usize>::empty());
            }
            loop
                invariant
                    ready@ == ready_started,
                    complete_passes(
                        nodes,
                        ready_started,
                        (completed_round, Seq::<usize>::empty()),
                        (len + 1) as nat,
                    ) == complete_passes(nodes, ready_started, (completed@, new_group@), pfuel),
                    pfuel + completed@.len() >= len + 1,
                    nodes == self.nodes(),
                    self.wf(),
                    len == nodes.len(),
                    core_inv(nodes, ready@, completed@),
                    group_inv(nodes, ready@, completed@, slot, res, new_group@),
                    completed@.finite(),
                    todo == len - completed@.len(),
                    completed_round.subset_of(completed@),
                    new_group@.len() == 0 ==> completed@ == completed_round && slot == slot_round,
                    new_group@.len() == 0 ==> start_stuck(nodes, ready@, completed@),
                    completed_round.finite(),
                    new_group@.len() > 0 ==> completed@.len() > completed_round.len(),
                    completed@.subset_of(completed_from(nodes, ready@, completed_round)),
                    forall|m: usize| #[trigger]
                        slot_round.contains_key(m) ==> slot.contains_key(m) && slot[m]
                            == slot_round[m],
                ensures
                    new_group@.len() > 0 ==> completed@.len() > completed_round.len(),
                    completed@ == completed_from(nodes, ready@, completed_round),
                    forall|m: usize| #[trigger]
                        slot_round.contains_key(m) ==> slot.contains_key(m) && slot[m]
                            == slot_round[m],
                    core_inv(nodes, ready@, completed@),
                    group_inv(nodes, ready@, completed@, slot, res, new_group@),
                    completed@.finite(),
                    todo == len - completed@.len(),
                    new_group@.len() == 0 ==> completed@ == completed_round && slot == slot_round
                        && complete_stuck(nodes, ready@, completed@) && start_stuck(
                        nodes,
                        ready@,
                        completed@,
                    ),
                    complete_passes(
                        nodes,
                        ready_started,
                        (completed_round, Seq::<usize>::empty()),
                        (len + 1) as nat,
                    ) == (completed@, new_group@),
                decreases len - completed@.len(),
            {
                let ghost before = (completed@, new_group@);
                proof {
                    lemma_within_finite(nodes, completed@);
                }
                let (changed, Ghost(s2)) = self.complete_pass(
                    &ready,
                    &mut completed,
                    &mut new_group,
                    &mut todo,
                    Ghost(slot),
                    Ghost(res),
                    Ghost(completed_round),
                );
                proof {
                    slot = s2;
                    lemma_within_finite(nodes, completed@);
                    let after = (completed@, new_group@);
                    if changed {
                        assert(after.0 != before.0);
                        assert(pfuel > 0);
                        assert(complete_passes(nodes, ready_started, before, pfuel)
                            == complete_passes(nodes, ready_started, after, (pfuel - 1) as nat));
                        pfuel = (pfuel - 1) as nat;
                    } else {
                        assert(complete_passes(nodes, ready_started, before, pfuel) == after);
                    }
                }
                if !changed {
                    proof {
                        lemma_complete_closure(nodes, ready@, completed_round, completed@);
                    }
                    break ;
                }
            }
            proof {
                lemma_round_group(
                    nodes,
                    ready@,
                    completed_round,
                    completed@,
                    slot_round,
                    slot,
                    res,
                    new_group@,
                );
            }
            if new_group.len() == 0 {
                proof {
                    assert(new_group@ =~= Seq::<usize>::empty());
                    lemma_stuck(nodes, ready@, completed@);
                    lemma_ordered(nodes, ready@, completed@, slot, res);
                    lemma_within_finite(nodes, completed@);
                    assert(completed@.len() < len);
                    assert(!sortable(nodes)) by {
                        if sortable(nodes) {
                            assert forall|x: usize| #[trigger] below(len as int).contains(x) implies completed@.contains(x) by {
                                assert(rule_completed(nodes).contains(x));
                            }
                            lemma_below(len as int);
                            assert(below(len as int).subset_of(completed@));
                            vstd::set_lib::lemma_len_subset(below(len as int), completed@);
                        }
                    }
                    assert(groups_outcome_view(Err(groups)) == Err::<Seq<Seq<usize>>, Seq<Seq<usize>>>(res));
                    assert(round_state(nodes, res.len() as nat).1 == completed@);
                    assert(round_group(nodes, res.len() as int) =~= Set::<usize>::empty());
                }
                return Err(groups);
            }
            proof {
                lemma_push_group(nodes, ready@, completed@, slot, res, new_group@);
            }
            let ghost cur = new_group@;
            groups.push(new_group);
            proof {
                let all = res.push(cur);
                assert(groups_view(groups@) =~= all);
                assert(cur == group_in_order(nodes, res.len() as int));
                assert forall|g: int| 1 <= g < all.len() implies #[trigger] all[g]
                    == group_in_order(nodes, g) by {
                    if g < res.len() {
                        assert(all[g] == res[g]);
                    }
                }
                assert(round_state(nodes, res.len() as nat) == (ready@, completed@));
                assert forall|g: int, n: usize|
                    #![trigger all[g].contains(n), round_group(nodes, g)]
                    1 <= g < all.len() implies (all[g].contains(n) <==> round_group(
                        nodes,
                        g,
                    ).contains(n)) by {
                    if g < res.len() {
                        assert(all[g] == res[g]);
                        assert(res[g].contains(n) <==> round_group(nodes, g).contains(n));
                    } else {
                        assert(all[g] == cur);
                    }
                }
            }
        }
        let ghost res = groups_view(groups@);
        proof {
            lemma_within_finite(nodes, completed@);
            lemma_all_completed(nodes, ready@, completed@);
            lemma_ordered(nodes, ready@, completed@, slot, res);
            assert forall|n: usize| n < nodes.len() implies (#[trigger] placed(res, n) <==> n
                != LAST_NODE_INDEX) by {
                assert(below(len as int).contains(n));
            }
            lemma_ordered_last(nodes, res);
        }
        groups.push(vec![LAST_NODE_INDEX]);
        proof {
            let all = res.push(seq![LAST_NODE_INDEX]);
            assert(groups@.last()@ == seq![LAST_NODE_INDEX]);
            assert(groups_view(groups@) =~= all);
            assert forall|g: int, n: usize|
                #![trigger all[g].contains(n), round_group(nodes, g)]
                1 <= g < all.len() - 1 implies (all[g].contains(n) <==> round_group(
                    nodes,
                    g,
                ).contains(n)) by {
                assert(all[g] == res[g]);
                assert(res[g].contains(n) <==> round_group(nodes, g).contains(n));
            }
            assert forall|g: int| 1 <= g < all.len() - 1 implies #[trigger] all[g]
                == group_in_order(nodes, g) by {
                assert(all[g] == res[g]);
            }
        }
        Ok(groups)
    }
}

} // verus!
