//! Cluster-wide placement of requests on nodes.
//!
//! The scheduler keeps the latest resource snapshot of every node, in the
//! order in which the nodes first appeared in the snapshot, and the resources
//! held by every granted request.

use vstd::prelude::*;

use crate::resources::{
    add_clamped, clamp_i64, has_capacity, has_capacity_spec, matches_label_selector,
    selector_matches, sub_clamped,
};
use crate::scheduling_ffi::{
    NodeResourceView, NodeResourceViewModel, NodeResourcesModel, ResourceRequestModel,
    SchedulingDecision, SchedulingRequest, SchedulingRequestModel,
};
use crate::str_map::{
    amount_of, keys_distinct, lemma_map_of_dom, lemma_map_of_push, lemma_map_of_remove,
    lemma_map_of_update, lemma_map_of_value, map_of, ResourceSet,
};

verus! {

// ---------------------------------------------------------------------------
// The abstract state
// ---------------------------------------------------------------------------

/// A node as the scheduler knows it.
pub struct NodeEntry {
    pub node_id: i64,
    pub resources: NodeResourcesModel,
    pub last_selected_tick: u64,
}

/// The resources that a granted request holds on a node.
pub struct AllocationModel {
    pub node_id: i64,
    pub resources: Map<Seq<char>, i64>,
}

/// The abstract state of the scheduler.
pub struct SchedulerModel {
    pub nodes: Seq<NodeEntry>,
    pub allocations: Map<i64, AllocationModel>,
    pub tick: u64,
}

/// No two nodes share an id.
pub open spec fn node_ids_distinct(nodes: Seq<NodeEntry>) -> bool {
    forall|i: int, j: int|
        0 <= i < nodes.len() && 0 <= j < nodes.len() && i != j ==> #[trigger] nodes[i].node_id
            != #[trigger] nodes[j].node_id
}

/// Some node has the id.
pub open spec fn has_node(nodes: Seq<NodeEntry>, id: i64) -> bool {
    exists|i: int| 0 <= i < nodes.len() && #[trigger] nodes[i].node_id == id
}

/// The position of the last node with the id, or -1.
pub open spec fn index_of_node(nodes: Seq<NodeEntry>, id: i64) -> int
    decreases nodes.len(),
{
    if nodes.len() == 0 {
        -1
    } else if nodes.last().node_id == id {
        nodes.len() - 1
    } else {
        index_of_node(nodes.drop_last(), id)
    }
}

/// The last-selected tick of the node with the id, or 0 for an unknown node.
pub open spec fn tick_of(nodes: Seq<NodeEntry>, id: i64) -> u64 {
    let i = index_of_node(nodes, id);
    if i >= 0 {
        nodes[i].last_selected_tick
    } else {
        0
    }
}

impl SchedulerModel {
    /// Node ids are distinct, every granted request holds resources on a
    /// node of the current view, and no node was selected after the
    /// scheduler's current tick.
    pub open spec fn wf(self) -> bool {
        &&& node_ids_distinct(self.nodes)
        &&& forall|i: int| 0 <= i < self.nodes.len() ==> #[trigger] self.nodes[i].last_selected_tick <= self.tick
        &&& forall|r: i64| #[trigger] self.allocations.contains_key(r) ==> has_node(
            self.nodes,
            self.allocations[r].node_id,
        )
    }
}

// ---------------------------------------------------------------------------
// Placement rules
// ---------------------------------------------------------------------------

/// The node takes work and its labels meet the request's selector.
pub open spec fn eligible(n: NodeResourcesModel, r: ResourceRequestModel) -> bool {
    !n.is_draining && selector_matches(n.labels, r.label_selector)
}

/// The request could run on the node once the node is free.
pub open spec fn fits_total(n: NodeResourcesModel, r: ResourceRequestModel) -> bool {
    eligible(n, r) && has_capacity_spec(n.total, r.resources)
}

/// The request can run on the node with what the node has available now.
pub open spec fn fits_now(n: NodeResourcesModel, r: ResourceRequestModel) -> bool {
    eligible(n, r) && has_capacity_spec(n.available, r.resources)
}

/// The positions of the nodes that satisfy `p`, in order.
pub open spec fn indices_where(nodes: Seq<NodeEntry>, p: spec_fn(NodeEntry) -> bool) -> Seq<int>
    decreases nodes.len(),
{
    if nodes.len() == 0 {
        Seq::empty()
    } else {
        let prev = indices_where(nodes.drop_last(), p);
        if p(nodes.last()) {
            prev.push(nodes.len() - 1)
        } else {
            prev
        }
    }
}

/// Positions of the nodes on which the request could run once they are free.
pub open spec fn feasible_indices(nodes: Seq<NodeEntry>, r: ResourceRequestModel) -> Seq<int> {
    indices_where(nodes, |n: NodeEntry| fits_total(n.resources, r))
}

/// Positions of the nodes on which the request can run now.
pub open spec fn available_indices(nodes: Seq<NodeEntry>, r: ResourceRequestModel) -> Seq<int> {
    indices_where(nodes, |n: NodeEntry| fits_now(n.resources, r))
}

/// Among the candidate positions, the first one whose node was selected
/// least recently.
pub open spec fn fair_pick(nodes: Seq<NodeEntry>, cands: Seq<int>) -> int
    decreases cands.len(),
{
    if cands.len() <= 1 {
        cands[0]
    } else {
        let best = fair_pick(nodes, cands.drop_last());
        let c = cands.last();
        if nodes[c].last_selected_tick < nodes[best].last_selected_tick {
            c
        } else {
            best
        }
    }
}

/// A quantity after taking `amount` from it, never below zero.
pub open spec fn take_floor(have: i64, amount: i64) -> i64 {
    let r = clamp_i64(have - amount);
    if r < 0 {
        0
    } else {
        r
    }
}

/// What is available after `required` is taken; a resource that was absent
/// counts as zero, and no quantity goes below zero.
pub open spec fn consumed(available: Map<Seq<char>, i64>, required: Map<Seq<char>, i64>) -> Map<Seq<char>, i64> {
    Map::new(
        |k: Seq<char>| available.contains_key(k) || required.contains_key(k),
        |k: Seq<char>|
            if required.contains_key(k) {
                take_floor(amount_of(available, k), required[k])
            } else {
                available[k]
            },
    )
}

/// A quantity after `amount` is given back, never above the node's total for
/// that resource where the node reports one.
pub open spec fn give_back(have: i64, amount: i64, total: Map<Seq<char>, i64>, k: Seq<char>) -> i64 {
    let r = clamp_i64(have + amount);
    if total.contains_key(k) && r > total[k] {
        total[k]
    } else {
        r
    }
}

/// What is available after `released` is given back.
pub open spec fn released(
    available: Map<Seq<char>, i64>,
    total: Map<Seq<char>, i64>,
    released: Map<Seq<char>, i64>,
) -> Map<Seq<char>, i64> {
    Map::new(
        |k: Seq<char>| available.contains_key(k) || released.contains_key(k),
        |k: Seq<char>|
            if released.contains_key(k) {
                give_back(amount_of(available, k), released[k], total, k)
            } else {
                available[k]
            },
    )
}

/// The node entry with a new availability and selection tick.
pub open spec fn with_available(n: NodeEntry, available: Map<Seq<char>, i64>, tick: u64) -> NodeEntry {
    NodeEntry {
        resources: NodeResourcesModel { available, ..n.resources },
        last_selected_tick: tick,
        ..n
    }
}

/// Whether the request names a preferred node that can run it now.
pub open spec fn preference_usable(nodes: Seq<NodeEntry>, q: SchedulingRequestModel) -> bool {
    let avail = available_indices(nodes, q.resource_request);
    q.preferred_node_id != 0 && exists|j: int|
        0 <= j < avail.len() && #[trigger] nodes[avail[j]].node_id == q.preferred_node_id
}

/// The position of the node that a request is placed on, when some node can
/// run it now.
pub open spec fn chosen_index(nodes: Seq<NodeEntry>, q: SchedulingRequestModel) -> int {
    if preference_usable(nodes, q) {
        index_of_node(nodes, q.preferred_node_id)
    } else {
        fair_pick(nodes, available_indices(nodes, q.resource_request))
    }
}

/// The new state and the decision for a request.
///
/// With no node that can run the request now, the state is unchanged and the
/// decision names the first node that could run it once free (a spillback),
/// or none at all. Otherwise the request goes to its preferred node where that
/// node can run it, else to the node selected least recently; the node's
/// resources are taken, the node is stamped with the next tick, and the
/// allocation is recorded under the request's id.
pub open spec fn allocate_spec(s: SchedulerModel, q: SchedulingRequestModel) -> (SchedulerModel, SchedulingDecision) {
    let r = q.resource_request;
    let avail = available_indices(s.nodes, r);
    let feas = feasible_indices(s.nodes, r);
    if avail.len() == 0 {
        if feas.len() == 0 {
            (
                s,
                SchedulingDecision {
                    request_id: q.request_id,
                    selected_node_id: -1i64,
                    is_feasible: false,
                    is_spillback: false,
                },
            )
        } else {
            (
                s,
                SchedulingDecision {
                    request_id: q.request_id,
                    selected_node_id: s.nodes[feas[0]].node_id,
                    is_feasible: true,
                    is_spillback: true,
                },
            )
        }
    } else {
        let idx = chosen_index(s.nodes, q);
        let n = s.nodes[idx];
        let tick = if s.tick == u64::MAX { u64::MAX } else { (s.tick + 1) as u64 };
        let entry = with_available(n, consumed(n.resources.available, r.resources), tick);
        (
            SchedulerModel {
                nodes: s.nodes.update(idx, entry),
                allocations: s.allocations.insert(
                    q.request_id,
                    AllocationModel { node_id: n.node_id, resources: r.resources },
                ),
                tick,
            },
            SchedulingDecision {
                request_id: q.request_id,
                selected_node_id: n.node_id,
                is_feasible: true,
                is_spillback: q.preferred_node_id != 0 && q.preferred_node_id != n.node_id,
            },
        )
    }
}

/// The state after the allocation of `request_id` is released: the
/// allocation is forgotten and its resources are given back to its node.
pub open spec fn release_spec(s: SchedulerModel, request_id: i64) -> SchedulerModel {
    if !s.allocations.contains_key(request_id) {
        s
    } else {
        let a = s.allocations[request_id];
        let rest = SchedulerModel { allocations: s.allocations.remove(request_id), ..s };
        let idx = index_of_node(s.nodes, a.node_id);
        if idx < 0 {
            rest
        } else {
            let n = s.nodes[idx];
            let entry = with_available(
                n,
                released(n.resources.available, n.resources.total, a.resources),
                n.last_selected_tick,
            );
            SchedulerModel { nodes: s.nodes.update(idx, entry), ..rest }
        }
    }
}

/// The node list after a snapshot: one entry per node id, in the order of the
/// id's first appearance, with the id's last snapshot, keeping the node's
/// last-selected tick from before.
pub open spec fn snapshot_nodes(old: Seq<NodeEntry>, views: Seq<NodeResourceViewModel>) -> Seq<NodeEntry>
    decreases views.len(),
{
    if views.len() == 0 {
        Seq::empty()
    } else {
        let prev = snapshot_nodes(old, views.drop_last());
        let v = views.last();
        let entry = NodeEntry {
            node_id: v.node_id,
            resources: v.resources,
            last_selected_tick: tick_of(old, v.node_id),
        };
        let i = index_of_node(prev, v.node_id);
        if i >= 0 {
            prev.update(i, entry)
        } else {
            prev.push(entry)
        }
    }
}

/// The state after a snapshot: allocations on nodes that are gone are dropped.
pub open spec fn update_spec(s: SchedulerModel, views: Seq<NodeResourceViewModel>) -> SchedulerModel {
    let nodes = snapshot_nodes(s.nodes, views);
    SchedulerModel {
        nodes,
        allocations: Map::new(
            |r: i64| s.allocations.contains_key(r) && has_node(nodes, s.allocations[r].node_id),
            |r: i64| s.allocations[r],
        ),
        tick: s.tick,
    }
}

// ---------------------------------------------------------------------------
// Lemmas on the rules
// ---------------------------------------------------------------------------

/// The last node with an id is found exactly when some node has it.
pub proof fn lemma_index_of_node(nodes: Seq<NodeEntry>, id: i64)
    ensures
        has_node(nodes, id) <==> index_of_node(nodes, id) >= 0,
        index_of_node(nodes, id) >= 0 ==> index_of_node(nodes, id) < nodes.len()
            && nodes[index_of_node(nodes, id)].node_id == id,
        index_of_node(nodes, id) < nodes.len(),
    decreases nodes.len(),
{
    if nodes.len() > 0 {
        let t = nodes.drop_last();
        lemma_index_of_node(t, id);
        if has_node(nodes, id) && nodes.last().node_id != id {
            let i = choose|i: int| 0 <= i < nodes.len() && #[trigger] nodes[i].node_id == id;
            assert(t[i].node_id == id);
        }
        if has_node(t, id) {
            let i = choose|i: int| 0 <= i < t.len() && #[trigger] t[i].node_id == id;
            assert(nodes[i].node_id == id);
        }
        if nodes.last().node_id == id {
            assert(nodes[nodes.len() - 1].node_id == id);
        }
    }
}

/// With distinct ids, the node found for an id is the only one with it.
pub proof fn lemma_index_of_node_unique(nodes: Seq<NodeEntry>, i: int)
    requires
        node_ids_distinct(nodes),
        0 <= i < nodes.len(),
    ensures
        index_of_node(nodes, nodes[i].node_id) == i,
{
    lemma_index_of_node(nodes, nodes[i].node_id);
    assert(has_node(nodes, nodes[i].node_id));
}

/// What the positions selected by a predicate are.
pub proof fn lemma_indices_where(nodes: Seq<NodeEntry>, p: spec_fn(NodeEntry) -> bool)
    ensures
        forall|j: int|
            0 <= j < indices_where(nodes, p).len() ==> 0 <= #[trigger] indices_where(nodes, p)[j]
                < nodes.len() && p(nodes[indices_where(nodes, p)[j]]),
        forall|i: int| 0 <= i < nodes.len() && p(#[trigger] nodes[i]) ==> indices_where(nodes, p).contains(i),
        forall|a: int, b: int|
            0 <= a < b < indices_where(nodes, p).len() ==> #[trigger] indices_where(nodes, p)[a]
                < #[trigger] indices_where(nodes, p)[b],
    decreases nodes.len(),
{
    if nodes.len() > 0 {
        let t = nodes.drop_last();
        lemma_indices_where(t, p);
        let prev = indices_where(t, p);
        let res = indices_where(nodes, p);
        assert forall|j: int| 0 <= j < res.len() implies 0 <= #[trigger] res[j] < nodes.len() && p(nodes[res[j]]) by {
            if j < prev.len() {
                assert(res[j] == prev[j]);
                assert(nodes[prev[j]] == t[prev[j]]);
            }
        }
        assert forall|i: int| 0 <= i < nodes.len() && p(#[trigger] nodes[i]) implies res.contains(i) by {
            if i < nodes.len() - 1 {
                assert(t[i] == nodes[i]);
                assert(prev.contains(i));
                let j = choose|j: int| 0 <= j < prev.len() && prev[j] == i;
                assert(res[j] == i);
            } else {
                assert(res[res.len() - 1] == i);
            }
        }
    }
}

/// The position selected fairly is a candidate, and no candidate's node was
/// selected less recently.
pub proof fn lemma_fair_pick(nodes: Seq<NodeEntry>, cands: Seq<int>)
    requires
        cands.len() > 0,
        forall|j: int| 0 <= j < cands.len() ==> 0 <= #[trigger] cands[j] < nodes.len(),
    ensures
        cands.contains(fair_pick(nodes, cands)),
        forall|j: int|
            0 <= j < cands.len() ==> nodes[fair_pick(nodes, cands)].last_selected_tick
                <= #[trigger] nodes[cands[j]].last_selected_tick,
    decreases cands.len(),
{
    if cands.len() == 1 {
        assert(cands[0] == fair_pick(nodes, cands));
    } else {
        let t = cands.drop_last();
        lemma_fair_pick(nodes, t);
        let b = fair_pick(nodes, t);
        let j0 = choose|j: int| 0 <= j < t.len() && t[j] == b;
        assert(cands[j0] == b);
        if nodes[cands.last()].last_selected_tick < nodes[b].last_selected_tick {
            assert(cands[cands.len() - 1] == cands.last());
        }
        assert forall|j: int| 0 <= j < cands.len() implies nodes[fair_pick(nodes, cands)].last_selected_tick
            <= #[trigger] nodes[cands[j]].last_selected_tick by {
            if j < t.len() {
                assert(cands[j] == t[j]);
            }
        }
    }
}

// ---------------------------------------------------------------------------
// The executable scheduler
// ---------------------------------------------------------------------------

struct NodeState {
    view: NodeResourceView,
    last_selected_tick: u64,
}

impl NodeState {
    spec fn model(&self) -> NodeEntry {
        NodeEntry {
            node_id: self.view.node_id,
            resources: self.view.resources@,
            last_selected_tick: self.last_selected_tick,
        }
    }
}

struct AllocationRecord {
    node_id: i64,
    resources: ResourceSet,
}

impl AllocationRecord {
    spec fn model(&self) -> AllocationModel {
        AllocationModel { node_id: self.node_id, resources: self.resources@ }
    }
}

spec fn nodes_model(v: Seq<NodeState>) -> Seq<NodeEntry> {
    v.map_values(|n: NodeState| n.model())
}

spec fn alloc_entries(v: Seq<(i64, AllocationRecord)>) -> Seq<(i64, AllocationModel)> {
    v.map_values(|e: (i64, AllocationRecord)| (e.0, e.1.model()))
}

/// Places requests on nodes and tracks the resources each granted request
/// holds.
pub struct ClusterResourceScheduler {
    nodes: Vec<NodeState>,
    allocations: Vec<(i64, AllocationRecord)>,
    tick: u64,
}

impl ClusterResourceScheduler {
    #[verifier::type_invariant]
    spec fn inv(&self) -> bool {
        keys_distinct(alloc_entries(self.allocations@)) && self@.wf()
    }
}

/// The abstract values of a sequence of node snapshots.
pub open spec fn views_model(views: Seq<NodeResourceView>) -> Seq<NodeResourceViewModel> {
    views.map_values(|v: NodeResourceView| v@)
}

/// Positions as integers.
pub open spec fn positions(v: Seq<usize>) -> Seq<int> {
    v.map_values(|x: usize| x as int)
}

impl View for ClusterResourceScheduler {
    type V = SchedulerModel;

    closed spec fn view(&self) -> SchedulerModel {
        SchedulerModel {
            nodes: nodes_model(self.nodes@),
            allocations: map_of(alloc_entries(self.allocations@)),
            tick: self.tick,
        }
    }
}

impl Default for ClusterResourceScheduler {
    fn default() -> (s: Self)
        ensures
            s@.nodes.len() == 0,
            s@.allocations == Map::<i64, AllocationModel>::empty(),
            s@.tick == 0,
            s@.wf(),
    {
        let s = ClusterResourceScheduler { nodes: Vec::new(), allocations: Vec::new(), tick: 0 };
        assert(nodes_model(s.nodes@) =~= Seq::empty());
        assert(alloc_entries(s.allocations@) =~= Seq::empty());
        assert(map_of(alloc_entries(s.allocations@)) =~= Map::empty());
        s
    }
}

/// The position of the node with the id, if any.
fn find_node(nodes: &Vec<NodeState>, id: i64) -> (r: Option<usize>)
    requires
        node_ids_distinct(nodes_model(nodes@)),
    ensures
        match r {
            Some(i) => i < nodes@.len() && i as int == index_of_node(nodes_model(nodes@), id),
            None => !has_node(nodes_model(nodes@), id) && index_of_node(nodes_model(nodes@), id) < 0,
        },
{
    let ghost m = nodes_model(nodes@);
    let mut i: usize = 0;
    while i < nodes.len()
        invariant
            i <= nodes@.len(),
            m == nodes_model(nodes@),
            node_ids_distinct(m),
            forall|j: int| 0 <= j < i ==> m[j].node_id != id,
        decreases nodes@.len() - i,
    {
        if nodes[i].view.node_id == id {
            proof {
                assert(m[i as int].node_id == id);
                lemma_index_of_node_unique(m, i as int);
            }
            return Some(i);
        }
        i = i + 1;
    }
    proof {
        lemma_index_of_node(m, id);
        if has_node(m, id) {
            let j = choose|j: int| 0 <= j < m.len() && #[trigger] m[j].node_id == id;
            assert(m[j].node_id != id);
        }
    }
    None
}

/// The position of the allocation of a request, if any.
fn find_allocation(allocations: &Vec<(i64, AllocationRecord)>, id: i64) -> (r: Option<usize>)
    ensures
        match r {
            Some(i) => i < allocations@.len() && allocations@[i as int].0 == id
                && map_of(alloc_entries(allocations@)).contains_key(id),
            None => !map_of(alloc_entries(allocations@)).contains_key(id),
        },
{
    let ghost m = alloc_entries(allocations@);
    let mut i: usize = 0;
    while i < allocations.len()
        invariant
            i <= allocations@.len(),
            m == alloc_entries(allocations@),
            forall|j: int| 0 <= j < i ==> m[j].0 != id,
        decreases allocations@.len() - i,
    {
        if allocations[i].0 == id {
            proof {
                assert(m[i as int].0 == id);
                lemma_map_of_dom(m, id);
            }
            return Some(i);
        }
        i = i + 1;
    }
    proof {
        lemma_map_of_dom(m, id);
        if map_of(m).contains_key(id) {
            let j = choose|j: int| 0 <= j < m.len() && m[j].0 == id;
            assert(m[j].0 != id);
        }
    }
    None
}

/// Takes `required` from `available`, never going below zero.
fn consume_resources(available: &mut ResourceSet, required: &ResourceSet)
    ensures
        final(available)@ == consumed(old(available)@, required@),
{
    let ghost a0 = available@;
    let n = required.len();
    let ghost keys = required.key_seq();
    proof {
        required.lemma_keys();
    }
    let mut i: usize = 0;
    while i < n
        invariant
            n == keys.len(),
            keys == required.key_seq(),
            keys.no_duplicates(),
            i <= n,
            forall|j: int| 0 <= j < n ==> required@.contains_key(#[trigger] keys[j]),
            forall|k: Seq<char>|
                #[trigger] available@.contains_key(k) <==> (a0.contains_key(k) || keys.take(
                    i as int,
                ).contains(k)),
            forall|k: Seq<char>|
                keys.take(i as int).contains(k) ==> #[trigger] available@[k] == take_floor(
                    amount_of(a0, k),
                    required@[k],
                ),
            forall|k: Seq<char>|
                !keys.take(i as int).contains(k) && a0.contains_key(k) ==> #[trigger] available@[k]
                    == a0[k],
        decreases n - i,
    {
        proof {
            required.lemma_keys();
        }
        let name = required.key_at(i);
        let amount = *required.value_at(i);
        let have = available.get_or_zero(name.as_str());
        proof {
            let k = keys[i as int];
            assert(!keys.take(i as int).contains(k)) by {
                if keys.take(i as int).contains(k) {
                    let j = choose|j: int| 0 <= j < i && keys.take(i as int)[j] == k;
                    assert(keys[j] == keys[i as int]);
                }
            }
            assert(have == amount_of(a0, k));
        }
        let left = sub_clamped(have, amount);
        let left = if left < 0 {
            0
        } else {
            left
        };
        available.insert(name.clone(), left);
        proof {
            let k = keys[i as int];
            let t = keys.take(i as int);
            let t1 = keys.take(i as int + 1);
            assert(t1 =~= t.push(k));
            assert forall|k2: Seq<char>| #[trigger] t1.contains(k2) == (t.contains(k2) || k2 == k) by {
                if t.contains(k2) {
                    let j = choose|j: int| 0 <= j < t.len() && t[j] == k2;
                    assert(t1[j] == k2);
                }
                if k2 == k {
                    assert(t1[i as int] == k2);
                }
                if t1.contains(k2) {
                    let j = choose|j: int| 0 <= j < t1.len() && t1[j] == k2;
                    if j < i {
                        assert(t[j] == k2);
                    }
                }
            }
        }
        i = i + 1;
    }
    proof {
        required.lemma_keys();
        assert(keys.take(n as int) =~= keys);
        assert forall|k: Seq<char>| #[trigger] required@.contains_key(k) <==> keys.contains(k) by {
            if required@.contains_key(k) {
                let j = choose|j: int| 0 <= j < keys.len() && keys[j] == k;
                assert(keys[j] == k);
            }
        }
        assert(available@ =~= consumed(a0, required@));
    }
}

/// Gives `amounts` back to `available`, never above the node's total for a
/// resource where the node reports one.
fn give_back_resources(available: &mut ResourceSet, total: &ResourceSet, amounts: &ResourceSet)
    ensures
        final(available)@ == released(old(available)@, total@, amounts@),
{
    let ghost a0 = available@;
    let n = amounts.len();
    let ghost keys = amounts.key_seq();
    proof {
        amounts.lemma_keys();
    }
    let mut i: usize = 0;
    while i < n
        invariant
            n == keys.len(),
            keys == amounts.key_seq(),
            keys.no_duplicates(),
            i <= n,
            forall|j: int| 0 <= j < n ==> amounts@.contains_key(#[trigger] keys[j]),
            forall|k: Seq<char>|
                #[trigger] available@.contains_key(k) <==> (a0.contains_key(k) || keys.take(
                    i as int,
                ).contains(k)),
            forall|k: Seq<char>|
                keys.take(i as int).contains(k) ==> #[trigger] available@[k] == give_back(
                    amount_of(a0, k),
                    amounts@[k],
                    total@,
                    k,
                ),
            forall|k: Seq<char>|
                !keys.take(i as int).contains(k) && a0.contains_key(k) ==> #[trigger] available@[k]
                    == a0[k],
        decreases n - i,
    {
        let name = amounts.key_at(i);
        let amount = *amounts.value_at(i);
        let have = available.get_or_zero(name.as_str());
        proof {
            let k = keys[i as int];
            assert(!keys.take(i as int).contains(k)) by {
                if keys.take(i as int).contains(k) {
                    let j = choose|j: int| 0 <= j < i && keys.take(i as int)[j] == k;
                    assert(keys[j] == keys[i as int]);
                }
            }
            assert(have == amount_of(a0, k));
        }
        let mut now = add_clamped(have, amount);
        match total.get(name.as_str()) {
            Some(t) => {
                if now > *t {
                    now = *t;
                }
            },
            None => {},
        }
        available.insert(name.clone(), now);
        proof {
            let k = keys[i as int];
            let t = keys.take(i as int);
            let t1 = keys.take(i as int + 1);
            assert(t1 =~= t.push(k));
            assert forall|k2: Seq<char>| #[trigger] t1.contains(k2) == (t.contains(k2) || k2 == k) by {
                if t.contains(k2) {
                    let j = choose|j: int| 0 <= j < t.len() && t[j] == k2;
                    assert(t1[j] == k2);
                }
                if k2 == k {
                    assert(t1[i as int] == k2);
                }
                if t1.contains(k2) {
                    let j = choose|j: int| 0 <= j < t1.len() && t1[j] == k2;
                    if j < i {
                        assert(t[j] == k2);
                    }
                }
            }
        }
        i = i + 1;
    }
    proof {
        assert(keys.take(n as int) =~= keys);
        assert forall|k: Seq<char>| #[trigger] amounts@.contains_key(k) <==> keys.contains(k) by {
            if amounts@.contains_key(k) {
                let j = choose|j: int| 0 <= j < keys.len() && keys[j] == k;
                assert(keys[j] == k);
            }
        }
        assert(available@ =~= released(a0, total@, amounts@));
    }
}

/// The first candidate whose node is the preferred one, if any.
fn find_preferred(nodes: &Vec<NodeState>, cands: &Vec<usize>, preferred: i64) -> (r: Option<usize>)
    requires
        forall|j: int| 0 <= j < cands@.len() ==> #[trigger] cands@[j] < nodes@.len(),
    ensures
        match r {
            Some(x) => exists|j: int| 0 <= j < cands@.len() && cands@[j] == x
                && #[trigger] nodes_model(nodes@)[cands@[j] as int].node_id == preferred,
            None => forall|j: int|
                0 <= j < cands@.len() ==> #[trigger] nodes_model(nodes@)[cands@[j] as int].node_id
                    != preferred,
        },
{
    let mut j: usize = 0;
    while j < cands.len()
        invariant
            j <= cands@.len(),
            forall|jj: int| 0 <= jj < cands@.len() ==> #[trigger] cands@[jj] < nodes@.len(),
            forall|jj: int|
                0 <= jj < j ==> #[trigger] nodes_model(nodes@)[cands@[jj] as int].node_id != preferred,
        decreases cands@.len() - j,
    {
        let c = cands[j];
        if nodes[c].view.node_id == preferred {
            assert(nodes_model(nodes@)[cands@[j as int] as int].node_id == preferred);
            return Some(c);
        }
        j = j + 1;
    }
    None
}

/// Among the candidates, the first whose node was selected least recently.
fn choose_fair_node(nodes: &Vec<NodeState>, cands: &Vec<usize>) -> (r: usize)
    requires
        cands@.len() > 0,
        forall|j: int| 0 <= j < cands@.len() ==> #[trigger] cands@[j] < nodes@.len(),
    ensures
        r as int == fair_pick(nodes_model(nodes@), positions(cands@)),
        r < nodes@.len(),
{
    let ghost m = nodes_model(nodes@);
    let ghost pc = positions(cands@);
    let mut best = cands[0];
    let mut j: usize = 1;
    proof {
        assert(pc.take(1).len() == 1);
        assert(pc.take(1)[0] == pc[0]);
    }
    while j < cands.len()
        invariant
            1 <= j <= cands@.len(),
            m == nodes_model(nodes@),
            pc == positions(cands@),
            forall|jj: int| 0 <= jj < cands@.len() ==> #[trigger] cands@[jj] < nodes@.len(),
            best as int == fair_pick(m, pc.take(j as int)),
            best < nodes@.len(),
        decreases cands@.len() - j,
    {
        let c = cands[j];
        proof {
            let t = pc.take(j as int + 1);
            assert(t.drop_last() =~= pc.take(j as int));
            assert(t.last() == c as int);
        }
        if nodes[c].last_selected_tick < nodes[best].last_selected_tick {
            best = c;
        }
        j = j + 1;
    }
    proof {
        assert(pc.take(cands@.len() as int) =~= pc);
    }
    best
}

impl ClusterResourceScheduler {
    /// Replaces the cluster view with a new set of node snapshots.
    ///
    /// A node keeps its last-selected tick when it stays in the view; a node
    /// that appears twice takes its last snapshot; the allocations held on
    /// nodes that left the view are dropped.
    pub fn update_cluster_view(&mut self, views: &[NodeResourceView])
        ensures
            final(self)@ == update_spec(old(self)@, views_model(views@)),
            final(self)@.wf(),
    {
        proof {
            use_type_invariant(&*self);
            assert(self@.wf());
        }
        let ghost s0 = self@;
        let ghost vm = views_model(views@);
        let mut next: Vec<NodeState> = Vec::new();
        let mut i: usize = 0;
        proof {
            assert(nodes_model(next@) =~= Seq::empty());
            assert(vm.take(0) =~= Seq::empty());
        }
        while i < views.len()
            invariant
                i <= views@.len(),
                vm == views_model(views@),
                s0 == self@,
                node_ids_distinct(s0.nodes),
                s0.nodes == nodes_model(self.nodes@),
                nodes_model(next@) == snapshot_nodes(s0.nodes, vm.take(i as int)),
                node_ids_distinct(nodes_model(next@)),
                s0.wf(),
                forall|a: int|
                    0 <= a < nodes_model(next@).len() ==> #[trigger] nodes_model(next@)[a].last_selected_tick
                        <= s0.tick,
            decreases views@.len() - i,
        {
            let v = &views[i];
            let last = match find_node(&self.nodes, v.node_id) {
                Some(j) => self.nodes[j].last_selected_tick,
                None => 0,
            };
            let state = NodeState {
                view: NodeResourceView { node_id: v.node_id, resources: v.resources.duplicate() },
                last_selected_tick: last,
            };
            let ghost prev = nodes_model(next@);
            proof {
                lemma_index_of_node(s0.nodes, v@.node_id);
                let t = vm.take(i as int + 1);
                assert(t.drop_last() =~= vm.take(i as int));
                assert(t.last() == v@);
                assert(state.model() == (NodeEntry {
                    node_id: v@.node_id,
                    resources: v@.resources,
                    last_selected_tick: tick_of(s0.nodes, v@.node_id),
                }));
            }
            match find_node(&next, v.node_id) {
                Some(j) => {
                    next.set(j, state);
                    proof {
                        lemma_index_of_node(prev, v.node_id);
                        assert(nodes_model(next@) =~= prev.update(j as int, state.model()));
                        assert forall|a: int, b: int|
                            0 <= a < next@.len() && 0 <= b < next@.len() && a != b implies
                            #[trigger] nodes_model(next@)[a].node_id
                            != #[trigger] nodes_model(next@)[b].node_id by {
                            assert(prev[j as int].node_id == v.node_id);
                        }
                    }
                },
                None => {
                    next.push(state);
                    proof {
                        assert(nodes_model(next@) =~= prev.push(state.model()));
                        assert forall|a: int, b: int|
                            0 <= a < next@.len() && 0 <= b < next@.len() && a != b implies
                            #[trigger] nodes_model(next@)[a].node_id
                            != #[trigger] nodes_model(next@)[b].node_id by {
                            if a == prev.len() {
                                assert(prev[b].node_id != v.node_id);
                            } else if b == prev.len() {
                                assert(prev[a].node_id != v.node_id);
                            }
                        }
                    }
                },
            }
            i = i + 1;
        }
        proof {
            assert(vm.take(views@.len() as int) =~= vm);
        }
        let ghost new_nodes = nodes_model(next@);
        let mut taken = ClusterResourceScheduler { nodes: Vec::new(), allocations: Vec::new(), tick: 0 };
        proof {
            assert(nodes_model(taken.nodes@) =~= Seq::empty());
            assert(alloc_entries(taken.allocations@) =~= Seq::empty());
            assert(map_of(alloc_entries(taken.allocations@)) =~= Map::empty());
        }
        std::mem::swap(&mut taken, self);
        proof {
            use_type_invariant(&taken);
        }
        let ClusterResourceScheduler { nodes: _, mut allocations, tick } = taken;
        let ghost orig = map_of(alloc_entries(allocations@));
        let mut k: usize = 0;
        while k < allocations.len()
            invariant
                k <= allocations@.len(),
                new_nodes == nodes_model(next@),
                orig == s0.allocations,
                keys_distinct(alloc_entries(allocations@)),
                forall|r: i64|
                    #[trigger] map_of(alloc_entries(allocations@)).contains_key(r) ==> orig.contains_key(r)
                        && map_of(alloc_entries(allocations@))[r] == orig[r],
                forall|r: i64|
                    orig.contains_key(r) && has_node(new_nodes, orig[r].node_id) ==> #[trigger] map_of(
                        alloc_entries(allocations@),
                    ).contains_key(r),
                forall|j: int| 0 <= j < k ==> has_node(new_nodes, #[trigger] allocations@[j].1.node_id),
                node_ids_distinct(new_nodes),
                tick == s0.tick,
                forall|a: int| 0 <= a < new_nodes.len() ==> #[trigger] new_nodes[a].last_selected_tick <= tick,
            decreases allocations@.len() - k,
        {
            let ghost cur = alloc_entries(allocations@);
            proof {
                lemma_map_of_value(cur, k as int);
            }
            match find_node(&next, allocations[k].1.node_id) {
                Some(_) => {
                    proof {
                        lemma_index_of_node(new_nodes, allocations@[k as int].1.node_id);
                    }
                    k = k + 1;
                },
                None => {
                    let ghost before = allocations@;
                    let _ = allocations.remove(k);
                    proof {
                        lemma_map_of_remove(cur, k as int);
                        assert(alloc_entries(allocations@) =~= cur.remove(k as int));
                        assert forall|j: int| 0 <= j < k implies has_node(new_nodes, #[trigger] allocations@[j].1.node_id) by {
                            assert(allocations@[j] == before[j]);
                        }
                    }
                },
            }
        }
        proof {
            let cur = alloc_entries(allocations@);
            let expect = Map::new(
                |r: i64| s0.allocations.contains_key(r) && has_node(new_nodes, s0.allocations[r].node_id),
                |r: i64| s0.allocations[r],
            );
            assert forall|r: i64| #[trigger] map_of(cur).contains_key(r) implies has_node(new_nodes, map_of(cur)[r].node_id) by {
                lemma_map_of_dom(cur, r);
                let j = choose|j: int| 0 <= j < cur.len() && cur[j].0 == r;
                lemma_map_of_value(cur, j);
                assert(cur[j].1.node_id == allocations@[j].1.node_id);
            }
            assert(map_of(cur) =~= expect);
        }
        *self = ClusterResourceScheduler { nodes: next, allocations, tick };
    }
}

impl ClusterResourceScheduler {
    /// Places a request and reports the decision.
    ///
    /// The request is considered only on nodes that are not draining and whose
    /// labels meet its selector. It goes to its preferred node where that node
    /// can run it now, else to the node that can run it now and was selected
    /// least recently; that node's resources are taken and the allocation is
    /// recorded. Where no node can run it now, nothing changes and the
    /// decision names a node that could run it once free, or none.
    pub fn allocate(&mut self, request: &SchedulingRequest) -> (decision: SchedulingDecision)
        ensures
            (final(self)@, decision) == allocate_spec(old(self)@, request@),
            final(self)@.wf(),
            available_indices(old(self)@.nodes, request@.resource_request).len() > 0 ==> forall|j: int|
                0 <= j < final(self)@.nodes.len() ==> #[trigger] final(self)@.nodes[j].last_selected_tick
                    <= final(self)@.nodes[chosen_index(old(self)@.nodes, request@)].last_selected_tick,
    {
        proof {
            use_type_invariant(&*self);
            assert(self@.wf());
        }
        let ghost s0 = self@;
        let ghost r = request@.resource_request;
        let mut feasible: Vec<usize> = Vec::new();
        let mut available: Vec<usize> = Vec::new();
        let mut i: usize = 0;
        proof {
            assert(positions(feasible@) =~= Seq::empty());
            assert(positions(available@) =~= Seq::empty());
            assert(s0.nodes.take(0) =~= Seq::<NodeEntry>::empty());
        }
        while i < self.nodes.len()
            invariant
                i <= self.nodes@.len(),
                s0 == self@,
                r == request@.resource_request,
                positions(feasible@) == feasible_indices(s0.nodes.take(i as int), r),
                positions(available@) == available_indices(s0.nodes.take(i as int), r),
                forall|j: int| 0 <= j < feasible@.len() ==> #[trigger] feasible@[j] < i,
                forall|j: int| 0 <= j < available@.len() ==> #[trigger] available@[j] < i,
            decreases self.nodes@.len() - i,
        {
            let res = &self.nodes[i].view.resources;
            let eligible = !res.is_draining && matches_label_selector(
                &res.labels,
                &request.resource_request.label_selector,
            );
            let fits_total_now = eligible && has_capacity(&res.total, &request.resource_request.resources);
            let fits_now_now = eligible && has_capacity(&res.available, &request.resource_request.resources);
            let ghost f0 = feasible@;
            let ghost a0 = available@;
            if fits_total_now {
                feasible.push(i);
            }
            if fits_now_now {
                available.push(i);
            }
            proof {
                let t = s0.nodes.take(i as int + 1);
                assert(t.drop_last() =~= s0.nodes.take(i as int));
                assert(t.last() == s0.nodes[i as int]);
                assert(s0.nodes[i as int].resources == res@);
                if fits_total_now {
                    assert(positions(feasible@) =~= positions(f0).push(i as int));
                } else {
                    assert(feasible@ == f0);
                }
                if fits_now_now {
                    assert(positions(available@) =~= positions(a0).push(i as int));
                } else {
                    assert(available@ == a0);
                }
            }
            i = i + 1;
        }
        proof {
            assert(s0.nodes.take(s0.nodes.len() as int) =~= s0.nodes);
            lemma_indices_where(s0.nodes, |n: NodeEntry| fits_total(n.resources, r));
            lemma_indices_where(s0.nodes, |n: NodeEntry| fits_now(n.resources, r));
        }
        if available.len() == 0 {
            if feasible.len() == 0 {
                return SchedulingDecision {
                    request_id: request.request_id,
                    selected_node_id: -1,
                    is_feasible: false,
                    is_spillback: false,
                };
            }
            let first = feasible[0];
            return SchedulingDecision {
                request_id: request.request_id,
                selected_node_id: self.nodes[first].view.node_id,
                is_feasible: true,
                is_spillback: true,
            };
        }
        let preferred = request.preferred_node_id;
        let mut chosen: Option<usize> = None;
        if preferred != 0 {
            chosen = find_preferred(&self.nodes, &available, preferred);
        }
        let idx = match chosen {
            Some(x) => {
                proof {
                    let j = choose|j: int| 0 <= j < available@.len() && available@[j] == x
                        && #[trigger] nodes_model(self.nodes@)[available@[j] as int].node_id == preferred;
                    assert(positions(available@)[j] == x as int);
                    assert(preference_usable(s0.nodes, request@));
                    lemma_index_of_node_unique(s0.nodes, x as int);
                }
                x
            },
            None => {
                proof {
                    if preferred != 0 {
                        assert forall|j: int| 0 <= j < positions(available@).len() implies
                            #[trigger] s0.nodes[positions(available@)[j]].node_id != preferred by {
                            assert(positions(available@)[j] == available@[j] as int);
                        }
                    }
                    assert(!preference_usable(s0.nodes, request@));
                }
                choose_fair_node(&self.nodes, &available)
            },
        };
        proof {
            assert(idx as int == chosen_index(s0.nodes, request@));
        }
        let selected_node_id = self.nodes[idx].view.node_id;
        let record_resources = request.resource_request.resources.duplicate();
        let mut taken = ClusterResourceScheduler { nodes: Vec::new(), allocations: Vec::new(), tick: 0 };
        proof {
            assert(nodes_model(taken.nodes@) =~= Seq::empty());
            assert(alloc_entries(taken.allocations@) =~= Seq::empty());
            assert(map_of(alloc_entries(taken.allocations@)) =~= Map::empty());
        }
        std::mem::swap(&mut taken, self);
        proof {
            use_type_invariant(&taken);
        }
        let ClusterResourceScheduler { mut nodes, mut allocations, tick } = taken;
        let tick = tick.saturating_add(1);
        let ghost nodes0 = nodes@;
        let mut node = nodes.remove(idx);
        consume_resources(&mut node.view.resources.available, &request.resource_request.resources);
        node.last_selected_tick = tick;
        nodes.insert(idx, node);
        proof {
            assert(nodes@ =~= nodes0.update(idx as int, node));
            assert(nodes_model(nodes@) =~= s0.nodes.update(
                idx as int,
                with_available(
                    s0.nodes[idx as int],
                    consumed(s0.nodes[idx as int].resources.available, r.resources),
                    tick,
                ),
            ));
        }
        let ghost m0 = alloc_entries(allocations@);
        let rec = AllocationRecord { node_id: selected_node_id, resources: record_resources };
        let ghost rec_model = rec.model();
        match find_allocation(&allocations, request.request_id) {
            Some(j) => {
                allocations.set(j, (request.request_id, rec));
                proof {
                    lemma_map_of_update(m0, j as int, rec_model);
                    assert(alloc_entries(allocations@) =~= m0.update(j as int, (m0[j as int].0, rec_model)));
                }
            },
            None => {
                allocations.push((request.request_id, rec));
                proof {
                    lemma_map_of_push(m0, request.request_id, rec_model);
                    assert(alloc_entries(allocations@) =~= m0.push((request.request_id, rec_model)));
                }
            },
        }
        proof {
            let nm = nodes_model(nodes@);
            assert forall|a: int, b: int| 0 <= a < nm.len() && 0 <= b < nm.len() && a != b implies
                #[trigger] nm[a].node_id != #[trigger] nm[b].node_id by {
                assert(nm[a].node_id == s0.nodes[a].node_id);
                assert(nm[b].node_id == s0.nodes[b].node_id);
            }
            assert forall|rid: i64| #[trigger] map_of(alloc_entries(allocations@)).contains_key(rid)
                implies has_node(nm, map_of(alloc_entries(allocations@))[rid].node_id) by {
                if rid == request.request_id {
                    assert(nm[idx as int].node_id == selected_node_id);
                } else {
                    let a = s0.allocations[rid].node_id;
                    assert(has_node(s0.nodes, a));
                    let w = choose|w: int| 0 <= w < s0.nodes.len() && #[trigger] s0.nodes[w].node_id == a;
                    assert(nm[w].node_id == a);
                }
            }
            assert forall|j: int| 0 <= j < nm.len() implies #[trigger] nm[j].last_selected_tick
                <= nm[idx as int].last_selected_tick by {
                if j != idx {
                    assert(nm[j] == s0.nodes[j]);
                }
            }
        }
        *self = ClusterResourceScheduler { nodes, allocations, tick };
        SchedulingDecision {
            request_id: request.request_id,
            selected_node_id,
            is_feasible: true,
            is_spillback: preferred != 0 && preferred != selected_node_id,
        }
    }

    /// Releases the resources held by a request, giving them back to its node,
    /// never above the node's total where the node reports one. A request
    /// that holds nothing is ignored.
    pub fn release(&mut self, request_id: i64)
        ensures
            final(self)@ == release_spec(old(self)@, request_id),
            final(self)@.wf(),
    {
        proof {
            use_type_invariant(&*self);
            assert(self@.wf());
        }
        let ghost s0 = self@;
        let j = match find_allocation(&self.allocations, request_id) {
            Some(j) => j,
            None => {
                return;
            },
        };
        let mut taken = ClusterResourceScheduler { nodes: Vec::new(), allocations: Vec::new(), tick: 0 };
        proof {
            assert(nodes_model(taken.nodes@) =~= Seq::empty());
            assert(alloc_entries(taken.allocations@) =~= Seq::empty());
            assert(map_of(alloc_entries(taken.allocations@)) =~= Map::empty());
        }
        std::mem::swap(&mut taken, self);
        proof {
            use_type_invariant(&taken);
        }
        let ClusterResourceScheduler { mut nodes, mut allocations, tick } = taken;
        let ghost m0 = alloc_entries(allocations@);
        proof {
            lemma_map_of_value(m0, j as int);
            lemma_map_of_remove(m0, j as int);
        }
        let (_, record) = allocations.remove(j);
        proof {
            assert(alloc_entries(allocations@) =~= m0.remove(j as int));
            assert(record.model() == s0.allocations[request_id]);
        }
        match find_node(&nodes, record.node_id) {
            Some(ni) => {
                let ghost nodes0 = nodes@;
                let mut node = nodes.remove(ni);
                give_back_resources(
                    &mut node.view.resources.available,
                    &node.view.resources.total,
                    &record.resources,
                );
                nodes.insert(ni, node);
                proof {
                    assert(nodes@ =~= nodes0.update(ni as int, node));
                    let n = s0.nodes[ni as int];
                    assert(nodes_model(nodes@) =~= s0.nodes.update(
                        ni as int,
                        with_available(
                            n,
                            released(n.resources.available, n.resources.total, record.resources@),
                            n.last_selected_tick,
                        ),
                    ));
                }
            },
            None => {},
        }
        proof {
            let nm = nodes_model(nodes@);
            assert forall|a: int, b: int| 0 <= a < nm.len() && 0 <= b < nm.len() && a != b implies
                #[trigger] nm[a].node_id != #[trigger] nm[b].node_id by {
                assert(nm[a].node_id == s0.nodes[a].node_id);
                assert(nm[b].node_id == s0.nodes[b].node_id);
            }
            assert forall|rid: i64| #[trigger] map_of(alloc_entries(allocations@)).contains_key(rid)
                implies has_node(nm, map_of(alloc_entries(allocations@))[rid].node_id) by {
                let a = s0.allocations[rid].node_id;
                assert(has_node(s0.nodes, a));
                let w = choose|w: int| 0 <= w < s0.nodes.len() && #[trigger] s0.nodes[w].node_id == a;
                assert(nm[w].node_id == a);
            }
        }
        *self = ClusterResourceScheduler { nodes, allocations, tick };
    }
}

// ---------------------------------------------------------------------------
// Laws
// ---------------------------------------------------------------------------

/// A request is reported infeasible exactly when no eligible node could run
/// it, now or once free; the state is then unchanged.
pub proof fn law_infeasible_iff_no_node_fits(s: SchedulerModel, q: SchedulingRequestModel)
    ensures
        !allocate_spec(s, q).1.is_feasible <==> forall|i: int|
            0 <= i < s.nodes.len() ==> !fits_total(#[trigger] s.nodes[i].resources, q.resource_request)
                && !fits_now(s.nodes[i].resources, q.resource_request),
        !allocate_spec(s, q).1.is_feasible ==> allocate_spec(s, q).0 == s
            && allocate_spec(s, q).1.selected_node_id == -1,
{
    let r = q.resource_request;
    lemma_indices_where(s.nodes, |n: NodeEntry| fits_total(n.resources, r));
    lemma_indices_where(s.nodes, |n: NodeEntry| fits_now(n.resources, r));
    let avail = available_indices(s.nodes, r);
    let feas = feasible_indices(s.nodes, r);
    if exists|i: int| 0 <= i < s.nodes.len() && (fits_total(#[trigger] s.nodes[i].resources, r) || fits_now(s.nodes[i].resources, r)) {
        let i = choose|i: int| 0 <= i < s.nodes.len() && (fits_total(#[trigger] s.nodes[i].resources, r) || fits_now(s.nodes[i].resources, r));
        if fits_total(s.nodes[i].resources, r) {
            assert(feas.contains(i));
        } else {
            assert(avail.contains(i));
        }
    }
}

/// When no node can run the request now, nothing changes; where some node
/// could run it once free, the decision is a spillback to such a node.
pub proof fn law_spillback_targets_a_node_that_fits(s: SchedulerModel, q: SchedulingRequestModel)
    requires
        forall|i: int| 0 <= i < s.nodes.len() ==> !fits_now(#[trigger] s.nodes[i].resources, q.resource_request),
        exists|i: int| 0 <= i < s.nodes.len() && fits_total(#[trigger] s.nodes[i].resources, q.resource_request),
    ensures
        allocate_spec(s, q).0 == s,
        allocate_spec(s, q).1.is_feasible,
        allocate_spec(s, q).1.is_spillback,
        exists|i: int|
            0 <= i < s.nodes.len() && #[trigger] s.nodes[i].node_id == allocate_spec(s, q).1.selected_node_id
                && fits_total(s.nodes[i].resources, q.resource_request),
{
    let r = q.resource_request;
    lemma_indices_where(s.nodes, |n: NodeEntry| fits_total(n.resources, r));
    lemma_indices_where(s.nodes, |n: NodeEntry| fits_now(n.resources, r));
    let avail = available_indices(s.nodes, r);
    let feas = feasible_indices(s.nodes, r);
    if avail.len() > 0 {
        assert(fits_now(s.nodes[avail[0]].resources, r));
    }
    let i = choose|i: int| 0 <= i < s.nodes.len() && fits_total(#[trigger] s.nodes[i].resources, r);
    assert(feas.contains(i));
    let f0 = feas[0];
    assert(fits_total(s.nodes[f0].resources, r));
    assert(s.nodes[f0].node_id == allocate_spec(s, q).1.selected_node_id);
}

/// A request that some node can run now is placed on a node that can run it
/// now; that node's resources are taken, it is stamped with the next tick so
/// that no node was selected more recently, and the allocation is recorded
/// under the request's id.
pub proof fn law_placement_takes_resources(s: SchedulerModel, q: SchedulingRequestModel)
    requires
        s.wf(),
        exists|i: int| 0 <= i < s.nodes.len() && fits_now(#[trigger] s.nodes[i].resources, q.resource_request),
    ensures
        ({
            let (t, d) = allocate_spec(s, q);
            let idx = chosen_index(s.nodes, q);
            &&& d.is_feasible
            &&& 0 <= idx < s.nodes.len()
            &&& d.selected_node_id == s.nodes[idx].node_id
            &&& fits_now(s.nodes[idx].resources, q.resource_request)
            &&& t.nodes[idx].resources.available == consumed(
                s.nodes[idx].resources.available,
                q.resource_request.resources,
            )
            &&& t.nodes[idx].last_selected_tick == t.tick
            &&& forall|j: int| 0 <= j < t.nodes.len() ==> #[trigger] t.nodes[j].last_selected_tick
                <= t.nodes[idx].last_selected_tick
            &&& t.allocations == s.allocations.insert(
                q.request_id,
                AllocationModel { node_id: d.selected_node_id, resources: q.resource_request.resources },
            )
            &&& t.nodes.len() == s.nodes.len()
            &&& forall|j: int| 0 <= j < s.nodes.len() && j != idx ==> t.nodes[j] == #[trigger] s.nodes[j]
        }),
{
    let r = q.resource_request;
    lemma_indices_where(s.nodes, |n: NodeEntry| fits_now(n.resources, r));
    let avail = available_indices(s.nodes, r);
    let i = choose|i: int| 0 <= i < s.nodes.len() && fits_now(#[trigger] s.nodes[i].resources, r);
    assert(avail.contains(i));
    if preference_usable(s.nodes, q) {
        let j = choose|j: int| 0 <= j < avail.len() && #[trigger] s.nodes[avail[j]].node_id == q.preferred_node_id;
        lemma_index_of_node_unique(s.nodes, avail[j]);
    } else {
        lemma_fair_pick(s.nodes, avail);
    }
}

/// A preferred node that can run the request now gets it, and the decision is
/// no spillback.
pub proof fn law_preferred_node_is_honored(s: SchedulerModel, q: SchedulingRequestModel, i: int)
    requires
        s.wf(),
        q.preferred_node_id != 0,
        0 <= i < s.nodes.len(),
        s.nodes[i].node_id == q.preferred_node_id,
        fits_now(s.nodes[i].resources, q.resource_request),
    ensures
        allocate_spec(s, q).1.selected_node_id == q.preferred_node_id,
        allocate_spec(s, q).1.is_feasible,
        !allocate_spec(s, q).1.is_spillback,
{
    let r = q.resource_request;
    lemma_indices_where(s.nodes, |n: NodeEntry| fits_now(n.resources, r));
    let avail = available_indices(s.nodes, r);
    assert(avail.contains(i));
    let j = choose|j: int| 0 <= j < avail.len() && avail[j] == i;
    assert(s.nodes[avail[j]].node_id == q.preferred_node_id);
    assert(preference_usable(s.nodes, q));
    lemma_index_of_node_unique(s.nodes, i);
}

/// Without a usable preference, the request goes to a node selected no more
/// recently than any other node that can run it now.
pub proof fn law_fair_choice_is_least_recent(s: SchedulerModel, q: SchedulingRequestModel, j: int)
    requires
        s.wf(),
        !preference_usable(s.nodes, q),
        0 <= j < s.nodes.len(),
        fits_now(s.nodes[j].resources, q.resource_request),
    ensures
        s.nodes[chosen_index(s.nodes, q)].last_selected_tick <= s.nodes[j].last_selected_tick,
        s.nodes[chosen_index(s.nodes, q)].node_id == allocate_spec(s, q).1.selected_node_id,
{
    let r = q.resource_request;
    lemma_indices_where(s.nodes, |n: NodeEntry| fits_now(n.resources, r));
    let avail = available_indices(s.nodes, r);
    assert(avail.contains(j));
    lemma_fair_pick(s.nodes, avail);
    let k = choose|k: int| 0 <= k < avail.len() && avail[k] == j;
    assert(s.nodes[avail[k]].last_selected_tick == s.nodes[j].last_selected_tick);
}

/// Releasing a request right after it was placed gives its node back exactly
/// what was taken, where every requested resource is present on the node,
/// within the node's total, and taking it stays within the range of `i64`
/// (a negative quantity adds to the node); the allocation is forgotten.
pub proof fn law_release_undoes_allocate(s: SchedulerModel, q: SchedulingRequestModel)
    requires
        s.wf(),
        exists|i: int| 0 <= i < s.nodes.len() && fits_now(#[trigger] s.nodes[i].resources, q.resource_request),
        forall|k: Seq<char>| #[trigger] q.resource_request.resources.contains_key(k) ==> {
            let n = s.nodes[chosen_index(s.nodes, q)].resources;
            &&& n.available[k] - q.resource_request.resources[k] <= i64::MAX
            &&& n.available.contains_key(k)
            &&& (n.total.contains_key(k) ==> n.available[k] <= n.total[k])
        },
    ensures
        ({
            let idx = chosen_index(s.nodes, q);
            let t = release_spec(allocate_spec(s, q).0, q.request_id);
            &&& t.nodes.len() == s.nodes.len()
            &&& t.nodes[idx].resources == s.nodes[idx].resources
            &&& forall|j: int| 0 <= j < s.nodes.len() && j != idx ==> t.nodes[j] == #[trigger] s.nodes[j]
            &&& t.allocations == s.allocations.remove(q.request_id)
        }),
{
    law_placement_takes_resources(s, q);
    let idx = chosen_index(s.nodes, q);
    let (s1, d) = allocate_spec(s, q);
    let n = s.nodes[idx];
    let r = q.resource_request;
    assert(s1.allocations.contains_key(q.request_id));
    let a = s1.allocations[q.request_id];
    assert(node_ids_distinct(s1.nodes)) by {
        assert forall|x: int, y: int| 0 <= x < s1.nodes.len() && 0 <= y < s1.nodes.len() && x != y implies
            #[trigger] s1.nodes[x].node_id != #[trigger] s1.nodes[y].node_id by {
            assert(s1.nodes[x].node_id == s.nodes[x].node_id);
            assert(s1.nodes[y].node_id == s.nodes[y].node_id);
        }
    }
    assert(s1.nodes[idx].node_id == a.node_id);
    lemma_index_of_node_unique(s1.nodes, idx);
    let after = consumed(n.resources.available, r.resources);
    let back = released(after, n.resources.total, r.resources);
    assert forall|k: Seq<char>| #[trigger] r.resources.contains_key(k) implies back[k] == n.resources.available[k] by {
        assert(has_capacity_spec(n.resources.available, r.resources));
        assert(amount_of(n.resources.available, k) >= r.resources[k]);
    }
    assert(back =~= n.resources.available);
    let t = release_spec(s1, q.request_id);
    assert(t.nodes[idx].resources =~= n.resources);
    assert(t.allocations =~= s.allocations.remove(q.request_id));
}

/// A node is in the view after a snapshot exactly when some snapshot names it.
proof fn lemma_snapshot_has_node(old: Seq<NodeEntry>, views: Seq<NodeResourceViewModel>, id: i64)
    ensures
        has_node(snapshot_nodes(old, views), id) <==> exists|j: int|
            0 <= j < views.len() && (#[trigger] views[j]).node_id == id,
    decreases views.len(),
{
    if views.len() > 0 {
        let front = views.drop_last();
        let prev = snapshot_nodes(old, front);
        let v = views.last();
        lemma_snapshot_has_node(old, front, id);
        lemma_index_of_node(prev, v.node_id);
        let cur = snapshot_nodes(old, views);
        let i = index_of_node(prev, v.node_id);
        if has_node(prev, id) {
            let w = choose|w: int| 0 <= w < prev.len() && #[trigger] prev[w].node_id == id;
            assert(cur[w].node_id == id);
        }
        if has_node(cur, id) {
            let w = choose|w: int| 0 <= w < cur.len() && #[trigger] cur[w].node_id == id;
            if w < prev.len() && !(i >= 0 && w == i) {
                assert(prev[w].node_id == id);
            } else {
                assert(views[views.len() - 1].node_id == id);
            }
        }
        if exists|j: int| 0 <= j < views.len() && (#[trigger] views[j]).node_id == id {
            let j = choose|j: int| 0 <= j < views.len() && (#[trigger] views[j]).node_id == id;
            if j < front.len() {
                assert(front[j].node_id == id);
            } else {
                if i >= 0 {
                    assert(cur[i].node_id == id);
                } else {
                    assert(cur[prev.len() as int].node_id == id);
                }
            }
        }
        if exists|j: int| 0 <= j < front.len() && (#[trigger] front[j]).node_id == id {
            let j = choose|j: int| 0 <= j < front.len() && (#[trigger] front[j]).node_id == id;
            assert(views[j].node_id == id);
        }
    }
}

/// A refresh of the cluster view keeps, unchanged, exactly the allocations
/// held on nodes that some snapshot of the new view names, and adds none.
pub proof fn law_update_keeps_allocations_on_surviving_nodes(
    s: SchedulerModel,
    views: Seq<NodeResourceViewModel>,
)
    ensures
        forall|r: i64|
            #[trigger] s.allocations.contains_key(r) ==> (update_spec(s, views).allocations.contains_key(r)
                <==> exists|j: int|
                0 <= j < views.len() && (#[trigger] views[j]).node_id == s.allocations[r].node_id),
        forall|r: i64|
            #[trigger] update_spec(s, views).allocations.contains_key(r) ==> s.allocations.contains_key(r)
                && update_spec(s, views).allocations[r] == s.allocations[r],
{
    assert forall|r: i64| #[trigger] s.allocations.contains_key(r) implies (update_spec(
        s,
        views,
    ).allocations.contains_key(r) <==> exists|j: int|
        0 <= j < views.len() && (#[trigger] views[j]).node_id == s.allocations[r].node_id) by {
        lemma_snapshot_has_node(s.nodes, views, s.allocations[r].node_id);
    }
}

/// Releasing a request never raises a resource above its node's reported
/// total, where it was not above it before; totals never change.
pub proof fn law_release_never_exceeds_total(s: SchedulerModel, request_id: i64)
    ensures
        release_spec(s, request_id).nodes.len() == s.nodes.len(),
        forall|i: int|
            0 <= i < s.nodes.len() ==> (#[trigger] release_spec(s, request_id).nodes[i]).resources.total
                == s.nodes[i].resources.total,
        forall|i: int, k: Seq<char>|
            0 <= i < s.nodes.len() && #[trigger] s.nodes[i].resources.total.contains_key(k) && (
            s.nodes[i].resources.available.contains_key(k) ==> s.nodes[i].resources.available[k]
                <= s.nodes[i].resources.total[k]) && (#[trigger] release_spec(
                s,
                request_id,
            ).nodes[i]).resources.available.contains_key(k) ==> release_spec(
                s,
                request_id,
            ).nodes[i].resources.available[k] <= s.nodes[i].resources.total[k],
{
    if s.allocations.contains_key(request_id) {
        lemma_index_of_node(s.nodes, s.allocations[request_id].node_id);
    }
}

} // verus!
