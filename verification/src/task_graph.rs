//! The directed-acyclic task graph engine.
//!
//! Nodes are either task nodes (passes) or synthesized barrier nodes; edges
//! are labeled with the virtual resource whose value flows along them.
//! Nodes live in an index-stable arena: a removed node leaves an empty slot
//! behind, so indices held elsewhere are never invalidated.
//!
//! [`TaskGraph::add_task`] matches the new task's inputs to the most recent
//! producer of each resource identity, matches its outputs to existing
//! consumers, and rejects the insertion if the new edges would close a
//! cycle — the graph is a DAG at every step, and that is a proved invariant.
//! [`TaskGraph::create_barrier_nodes`] splits every producer/consumer edge
//! whose endpoint states differ by inserting a barrier node.

use vstd::prelude::*;

use crate::pass::{
    res_views, spec_new_barrier, PassNode, PassNodeView, PassResource, PassResourceBarrier,
    PassResourceBarrierView, PassResourceView,
};
use crate::resource::{spec_access, VirtualResource, VirtualResourceView};
use crate::Error;

verus! {

/// A directed edge: the value of `resource` flows from node `src` to node
/// `dst`.
#[derive(Debug)]
pub struct Edge {
    /// Producer node index.
    pub src: usize,
    /// Consumer node index.
    pub dst: usize,
    /// The resource whose value flows along this edge.
    pub resource: VirtualResource,
}

/// Abstract value of an [`Edge`].
pub ghost struct EdgeView {
    /// Producer node index.
    pub src: usize,
    /// Consumer node index.
    pub dst: usize,
    /// The resource whose value flows along this edge.
    pub resource: VirtualResourceView,
}

impl View for Edge {
    type V = EdgeView;

    open spec fn view(&self) -> EdgeView {
        EdgeView { src: self.src, dst: self.dst, resource: self.resource@ }
    }
}

impl Clone for Edge {
    fn clone(&self) -> (r: Self)
        ensures
            r@ == self@,
    {
        Edge { src: self.src, dst: self.dst, resource: self.resource.clone() }
    }
}

/// The abstract values of a sequence of edges.
pub open spec fn edge_views(s: Seq<Edge>) -> Seq<EdgeView> {
    s.map_values(|e: Edge| e@)
}

/// A node in the task graph: a pass, or a synthesized barrier.
#[derive(Debug)]
pub enum Node {
    /// A pass authored by the caller (or the synthetic source task).
    Task(PassNode),
    /// A synchronization barrier synthesized during the build.
    Barrier(PassResourceBarrier),
}

/// Abstract value of a [`Node`].
pub ghost enum NodeView {
    /// A pass authored by the caller (or the synthetic source task).
    Task(PassNodeView),
    /// A synchronization barrier synthesized during the build.
    Barrier(PassResourceBarrierView),
}

impl View for Node {
    type V = NodeView;

    open spec fn view(&self) -> NodeView {
        match self {
            Node::Task(t) => NodeView::Task(t@),
            Node::Barrier(b) => NodeView::Barrier(b@),
        }
    }
}

/// The abstract values of the node arena (a removed node is `None`).
pub open spec fn node_views(s: Seq<Option<Node>>) -> Seq<Option<NodeView>> {
    s.map_values(
        |o: Option<Node>|
            match o {
                Option::Some(n) => Option::Some(n@),
                Option::None => Option::None,
            },
    )
}

/// Abstract value of a [`TaskGraph`].
pub ghost struct TaskGraphView {
    /// The node arena; a removed node leaves `None` behind.
    pub nodes: Seq<Option<NodeView>>,
    /// The edge list, in insertion order.
    pub edges: Seq<EdgeView>,
}

/// The task graph: an index-stable arena of nodes plus an ordered edge list.
#[derive(Debug)]
pub struct TaskGraph {
    /// The node arena; a removed node leaves `None` behind.
    pub nodes: Vec<Option<Node>>,
    /// The edge list, in insertion order.
    pub edges: Vec<Edge>,
}

impl View for TaskGraph {
    type V = TaskGraphView;

    open spec fn view(&self) -> TaskGraphView {
        TaskGraphView { nodes: node_views(self.nodes@), edges: edge_views(self.edges@) }
    }
}

// ------------------------------------------------------------------------
// Reachability and acyclicity.
// ------------------------------------------------------------------------

/// There is an edge from `a` to `b`.
pub open spec fn edge_in(edges: Seq<EdgeView>, a: usize, b: usize) -> bool {
    exists|k: int| 0 <= k < edges.len() && edges[k].src == a && edges[k].dst == b
}

/// `p` is a walk through the graph: at least one step, each consecutive pair
/// connected by an edge.
pub open spec fn is_path(edges: Seq<EdgeView>, p: Seq<usize>) -> bool {
    p.len() >= 2 && forall|i: int| 0 <= i < p.len() - 1 ==> edge_in(edges, #[trigger] p[i], p[i + 1])
}

/// `b` can be reached from `a` along at least one edge.
pub open spec fn reaches(edges: Seq<EdgeView>, a: usize, b: usize) -> bool {
    exists|p: Seq<usize>| is_path(edges, p) && p.first() == a && p.last() == b
}

/// No node lies on a cycle.
pub open spec fn acyclic(edges: Seq<EdgeView>) -> bool {
    forall|a: usize| !reaches(edges, a, a)
}

/// A single edge is a path.
proof fn lemma_edge_reaches(edges: Seq<EdgeView>, a: usize, b: usize)
    requires
        edge_in(edges, a, b),
    ensures
        reaches(edges, a, b),
{
    let p = seq![a, b];
    assert(p.first() == a && p.last() == b);
    assert(is_path(edges, p));
}

/// A path followed by one more edge is a path.
proof fn lemma_reaches_step(edges: Seq<EdgeView>, a: usize, b: usize, c: usize)
    requires
        reaches(edges, a, b),
        edge_in(edges, b, c),
    ensures
        reaches(edges, a, c),
{
    let p = choose|p: Seq<usize>| is_path(edges, p) && p.first() == a && p.last() == b;
    let q = p.push(c);
    assert forall|i: int| 0 <= i < q.len() - 1 implies #[trigger] edge_in(
        edges,
        q[i],
        q[i + 1],
    ) by {
        if i < p.len() - 1 {
            assert(q[i] == p[i] && q[i + 1] == p[i + 1]);
        } else {
            assert(q[i] == p[p.len() - 1] && q[i + 1] == c);
        }
    }
    assert(is_path(edges, q) && q.first() == a && q.last() == c);
}

/// The set `visited` is closed under following edges.
pub open spec fn closed_under_edges(edges: Seq<EdgeView>, visited: Seq<bool>) -> bool {
    forall|k: int|
        0 <= k < edges.len() && (#[trigger] edges[k]).src < visited.len() && visited[edges[k].src as int]
            ==> edges[k].dst < visited.len() && visited[edges[k].dst as int]
}

/// Walking from a visited node through an edge-closed set never leaves it.
proof fn lemma_path_stays_in_closed(edges: Seq<EdgeView>, visited: Seq<bool>, p: Seq<usize>)
    requires
        is_path(edges, p),
        closed_under_edges(edges, visited),
        p.first() < visited.len(),
        visited[p.first() as int],
    ensures
        p.last() < visited.len() && visited[p.last() as int],
    decreases p.len(),
{
    assert(edge_in(edges, p[0], p[1]));
    let k = choose|k: int| 0 <= k < edges.len() && edges[k].src == p[0] && edges[k].dst == p[1];
    assert(p[1] < visited.len() && visited[p[1] as int]);
    if p.len() > 2 {
        let q = p.subrange(1, p.len() as int);
        assert forall|i: int| 0 <= i < q.len() - 1 implies #[trigger] edge_in(
            edges,
            q[i],
            q[i + 1],
        ) by {
            assert(q[i] == p[i + 1] && q[i + 1] == p[i + 2]);
            assert(edge_in(edges, p[i + 1], p[i + 2]));
        }
        assert(is_path(edges, q));
        lemma_path_stays_in_closed(edges, visited, q);
    }
}

/// A cycle can be rotated to start at any of its nodes.
proof fn lemma_rotate_cycle(edges: Seq<EdgeView>, p: Seq<usize>, k: int)
    requires
        is_path(edges, p),
        p.first() == p.last(),
        0 <= k < p.len(),
    ensures
        reaches(edges, p[k], p[k]),
{
    if k == 0 {
        assert(reaches(edges, p[0], p[0]));
    } else if k == p.len() - 1 {
        assert(p[k] == p.first());
        assert(reaches(edges, p[k], p[k]));
    } else {
        let q = p.subrange(k, p.len() as int) + p.subrange(1, k + 1);
        let n = p.len() as int;
        assert(q.len() == n);
        assert(q.first() == p[k]);
        assert(q.last() == p.subrange(1, k + 1)[k - 1]);
        assert(q.last() == p[k]);
        assert forall|i: int| 0 <= i < q.len() - 1 implies #[trigger] edge_in(
            edges,
            q[i],
            q[i + 1],
        ) by {
            if i < n - k - 1 {
                assert(q[i] == p[k + i] && q[i + 1] == p[k + i + 1]);
                assert(edge_in(edges, p[k + i], p[k + i + 1]));
            } else if i == n - k - 1 {
                assert(q[i] == p[n - 1]);
                assert(q[i + 1] == p[1]);
                assert(p[n - 1] == p[0]);
                assert(edge_in(edges, p[0], p[1]));
            } else {
                let j = i - (n - k);
                assert(q[i] == p.subrange(1, k + 1)[j] && q[i + 1] == p.subrange(1, k + 1)[j + 1]);
                assert(q[i] == p[1 + j] && q[i + 1] == p[2 + j]);
                assert(edge_in(edges, p[1 + j], p[2 + j]));
            }
        }
        assert(is_path(edges, q));
    }
}

/// Every edge of `ne` either already occurs in `base` or touches `new`.
pub open spec fn edges_localized(base: Seq<EdgeView>, ne: Seq<EdgeView>, new: usize) -> bool {
    forall|k: int|
        0 <= k < ne.len() ==> edge_in(base, (#[trigger] ne[k]).src, ne[k].dst) || ne[k].src == new
            || ne[k].dst == new
}

/// If the old graph was acyclic, no old edge touches `new`, and every new
/// edge is incident to `new`, then any cycle in the extended graph must pass
/// through `new`.
proof fn lemma_cycle_through_new(base: Seq<EdgeView>, ne: Seq<EdgeView>, new: usize)
    requires
        acyclic(base),
        edges_localized(base, ne, new),
        forall|k: int|
            0 <= k < base.len() ==> (#[trigger] base[k]).src != new && base[k].dst != new,
        !reaches(ne, new, new),
    ensures
        acyclic(ne),
{
    assert forall|a: usize| !reaches(ne, a, a) by {
        if reaches(ne, a, a) {
            let p = choose|p: Seq<usize>| is_path(ne, p) && p.first() == a && p.last() == a;
            if exists|i: int| 0 <= i < p.len() && p[i] == new {
                let i = choose|i: int| 0 <= i < p.len() && p[i] == new;
                lemma_rotate_cycle(ne, p, i);
                assert(false);
            } else {
                assert forall|i: int| 0 <= i < p.len() - 1 implies #[trigger] edge_in(
                    base,
                    p[i],
                    p[i + 1],
                ) by {
                    assert(edge_in(ne, p[i], p[i + 1]));
                    let k = choose|k: int|
                        0 <= k < ne.len() && ne[k].src == p[i] && ne[k].dst == p[i + 1];
                    assert(p[i] != new && p[i + 1] != new);
                }
                assert(is_path(base, p));
                assert(reaches(base, a, a));
                assert(false);
            }
        }
    }
}

/// Pushing onto the right part of a concatenation pushes onto the whole.
proof fn lemma_concat_push<T>(a: Seq<T>, b: Seq<T>, e: T)
    ensures
        a + b.push(e) == (a + b).push(e),
{
    assert(a + b.push(e) =~= (a + b).push(e));
}

/// The number of `false` entries in a boolean sequence.
pub open spec fn count_false(s: Seq<bool>) -> nat
    decreases s.len(),
{
    if s.len() == 0 {
        0
    } else {
        count_false(s.drop_last()) + if s.last() {
            0nat
        } else {
            1nat
        }
    }
}

/// Marking a `false` entry `true` lowers the count by one.
proof fn lemma_count_false_update(s: Seq<bool>, i: int)
    requires
        0 <= i < s.len(),
        !s[i],
    ensures
        count_false(s.update(i, true)) + 1 == count_false(s),
    decreases s.len(),
{
    let t = s.update(i, true);
    if i == s.len() - 1 {
        assert(t.drop_last() =~= s.drop_last());
    } else {
        assert(t.drop_last() =~= s.drop_last().update(i, true));
        lemma_count_false_update(s.drop_last(), i);
    }
}

/// Whether node `start` lies on a cycle: reachable from itself along at
/// least one edge. Every edge endpoint must lie below `n_nodes`.
#[verifier::rlimit(60)]
fn reaches_self(edges: &Vec<Edge>, n_nodes: usize, start: usize) -> (b: bool)
    requires
        start < n_nodes,
        forall|k: int|
            0 <= k < edges@.len() ==> (#[trigger] edges@[k]).src < n_nodes && edges@[k].dst
                < n_nodes,
    ensures
        b == reaches(edge_views(edges@), start, start),
{
    let ghost ev = edge_views(edges@);
    let mut visited: Vec<bool> = Vec::new();
    let mut i: usize = 0;
    while i < n_nodes
        invariant
            i <= n_nodes,
            visited@.len() == i as int,
            forall|v: int| 0 <= v < i ==> !visited@[v],
        decreases n_nodes - i,
    {
        visited.push(false);
        i = i + 1;
    }
    let mut stack: Vec<usize> = Vec::new();

    // Seed the worklist with the direct successors of `start`.
    let mut k: usize = 0;
    while k < edges.len()
        invariant
            ev == edge_views(edges@),
            visited@.len() == n_nodes,
            start < n_nodes,
            k <= edges@.len(),
            forall|j: int|
                0 <= j < edges@.len() ==> (#[trigger] edges@[j]).src < n_nodes && edges@[j].dst
                    < n_nodes,
            // every seeded node is a direct successor already visited
            forall|j: int|
                0 <= j < k && (#[trigger] edges@[j]).src == start ==> visited@[edges@[j].dst as int],
            // soundness: visited nodes are reachable from start
            forall|v: int| 0 <= v < n_nodes && visited@[v] ==> reaches(ev, start, v as usize),
            // stack contents: visited, in range, distinct, and exactly the visited set
            forall|s: int| 0 <= s < stack@.len() ==> (#[trigger] stack@[s]) < n_nodes,
            forall|s: int| 0 <= s < stack@.len() ==> visited@[(#[trigger] stack@[s]) as int],
            forall|s: int, t: int| 0 <= s < t < stack@.len() ==> stack@[s] != stack@[t],
            forall|v: int| 0 <= v < n_nodes && visited@[v] ==> stack@.contains(v as usize),
        decreases edges@.len() - k,
    {
        let e_src = edges[k].src;
        let e_dst = edges[k].dst;
        if e_src == start {
            if !visited[e_dst] {
                let ghost vis0 = visited@;
                let ghost stk0 = stack@;
                visited.set(e_dst, true);
                stack.push(e_dst);
                proof {
                    assert(ev[k as int] == edges@[k as int]@);
                    assert(edge_in(ev, start, e_dst));
                    lemma_edge_reaches(ev, start, e_dst);
                    assert(stack@[stk0.len() as int] == e_dst);
                    assert forall|s: int, t: int|
                        0 <= s < t < stack@.len() implies stack@[s] != stack@[t] by {
                        if t == stk0.len() as int {
                            assert(stack@[s] == stk0[s]);
                            assert(vis0[stk0[s] as int]);
                        }
                    }
                    assert forall|v: int|
                        0 <= v < n_nodes && visited@[v] implies stack@.contains(v as usize) by {
                        if v == e_dst as int {
                            assert(stack@[stk0.len() as int] == v as usize);
                        } else {
                            assert(vis0[v]);
                            assert(stk0.contains(v as usize));
                            let s = choose|s: int| 0 <= s < stk0.len() && stk0[s] == v as usize;
                            assert(stack@[s] == v as usize);
                        }
                    }
                }
            }
        }
        k = k + 1;
    }

    while stack.len() > 0
        invariant
            ev == edge_views(edges@),
            visited@.len() == n_nodes,
            start < n_nodes,
            forall|j: int|
                0 <= j < edges@.len() ==> (#[trigger] edges@[j]).src < n_nodes && edges@[j].dst
                    < n_nodes,
            forall|j: int|
                0 <= j < edges@.len() && (#[trigger] edges@[j]).src == start
                    ==> visited@[edges@[j].dst as int],
            forall|v: int| 0 <= v < n_nodes && visited@[v] ==> reaches(ev, start, v as usize),
            forall|s: int| 0 <= s < stack@.len() ==> (#[trigger] stack@[s]) < n_nodes,
            forall|s: int| 0 <= s < stack@.len() ==> visited@[(#[trigger] stack@[s]) as int],
            forall|s: int, t: int| 0 <= s < t < stack@.len() ==> stack@[s] != stack@[t],
            // a visited node off the worklist has all successors visited
            forall|j: int|
                0 <= j < edges@.len() && visited@[(#[trigger] edges@[j]).src as int]
                    && !stack@.contains(edges@[j].src) ==> visited@[edges@[j].dst as int],
        decreases 2 * count_false(visited@) + stack@.len(),
    {
        let ghost stack0 = stack@;
        let ghost visited_pop = visited@;
        let u = stack.pop().unwrap();
        proof {
            assert(stack@ =~= stack0.drop_last());
            assert(u == stack0[stack0.len() - 1]);
            if stack@.contains(u) {
                let s = choose|s: int| 0 <= s < stack@.len() && stack@[s] == u;
                assert(stack0[s] == stack0[stack0.len() - 1]);
                assert(false);
            }
            assert forall|j: int|
                0 <= j < edges@.len() && visited@[(#[trigger] edges@[j]).src as int]
                    && edges@[j].src != u && !stack@.contains(edges@[j].src) implies visited@[edges@[j].dst as int] by {
                let src = edges@[j].src;
                if stack0.contains(src) {
                    let s = choose|s: int| 0 <= s < stack0.len() && stack0[s] == src;
                    assert(s < stack0.len() - 1);
                    assert(stack@[s] == src);
                    assert(stack@.contains(src));
                    assert(false);
                }
            }
        }
        let mut k: usize = 0;
        while k < edges.len()
            invariant
                ev == edge_views(edges@),
                visited@.len() == n_nodes,
                start < n_nodes,
                u < n_nodes,
                visited@[u as int],
                reaches(ev, start, u),
                k <= edges@.len(),
                forall|j: int|
                    0 <= j < edges@.len() ==> (#[trigger] edges@[j]).src < n_nodes && edges@[j].dst
                        < n_nodes,
                forall|j: int|
                    0 <= j < edges@.len() && (#[trigger] edges@[j]).src == start
                        ==> visited@[edges@[j].dst as int],
                forall|v: int| 0 <= v < n_nodes && visited@[v] ==> reaches(ev, start, v as usize),
                forall|s: int| 0 <= s < stack@.len() ==> (#[trigger] stack@[s]) < n_nodes,
                forall|s: int| 0 <= s < stack@.len() ==> visited@[(#[trigger] stack@[s]) as int],
                forall|s: int, t: int| 0 <= s < t < stack@.len() ==> stack@[s] != stack@[t],
                !stack@.contains(u),
                forall|j: int|
                    0 <= j < edges@.len() && visited@[(#[trigger] edges@[j]).src as int]
                        && edges@[j].src != u && !stack@.contains(edges@[j].src)
                        ==> visited@[edges@[j].dst as int],
                // successors of u handled so far
                forall|j: int|
                    0 <= j < k && (#[trigger] edges@[j]).src == u ==> visited@[edges@[j].dst as int],
                // progress accounting
                2 * count_false(visited@) + stack@.len() < 2 * count_false(visited_pop)
                    + stack0.len(),
            decreases edges@.len() - k,
        {
            let e_src = edges[k].src;
            let e_dst = edges[k].dst;
            if e_src == u {
                if !visited[e_dst] {
                    let ghost vis0 = visited@;
                    let ghost stk0 = stack@;
                    proof {
                        lemma_count_false_update(visited@, e_dst as int);
                    }
                    visited.set(e_dst, true);
                    stack.push(e_dst);
                    proof {
                        assert(ev[k as int] == edges@[k as int]@);
                        assert(edge_in(ev, u, e_dst));
                        lemma_reaches_step(ev, start, u, e_dst);
                        assert(stack@[stk0.len() as int] == e_dst);
                        assert forall|s: int, t: int|
                            0 <= s < t < stack@.len() implies stack@[s] != stack@[t] by {
                            if t == stk0.len() as int {
                                assert(stack@[s] == stk0[s]);
                                assert(vis0[stk0[s] as int]);
                            }
                        }
                        assert(e_dst != u);
                        assert(!stack@.contains(u)) by {
                            if stack@.contains(u) {
                                let s = choose|s: int|
                                    0 <= s < stack@.len() && stack@[s] == u;
                                if s < stk0.len() as int {
                                    assert(stk0[s] == u);
                                    assert(stk0.contains(u));
                                } else {
                                    assert(stack@[s] == e_dst);
                                }
                                assert(false);
                            }
                        }
                        assert forall|j: int|
                            0 <= j < edges@.len() && visited@[(#[trigger] edges@[j]).src as int]
                                && edges@[j].src != u && !stack@.contains(edges@[j].src) implies visited@[edges@[j].dst as int] by {
                            let src = edges@[j].src;
                            if src == e_dst {
                                assert(stack@[stk0.len() as int] == src);
                                assert(stack@.contains(src));
                                assert(false);
                            } else {
                                assert(vis0[src as int]);
                                if stk0.contains(src) {
                                    let s = choose|s: int|
                                        0 <= s < stk0.len() && stk0[s] == src;
                                    assert(stack@[s] == src);
                                    assert(stack@.contains(src));
                                    assert(false);
                                }
                                assert(vis0[edges@[j].dst as int]);
                            }
                        }
                    }
                }
            }
            k = k + 1;
        }
    }

    // The worklist is empty: the visited set is closed under edges.
    proof {
        assert(stack@.len() == 0);
        assert forall|j: int|
            0 <= j < ev.len() && ev[j].src < visited@.len() && visited@[ev[j].src as int] implies ev[j].dst
            < visited@.len() && visited@[#[trigger] ev[j].dst as int] by {
            assert(ev[j].src == edges@[j].src && ev[j].dst == edges@[j].dst);
            if edges@[j].src == start {
            } else {
                assert(!stack@.contains(edges@[j].src));
            }
        }
        assert(closed_under_edges(ev, visited@));
    }
    let result = visited[start];
    proof {
        if result {
            assert(reaches(ev, start, start));
        } else {
            if reaches(ev, start, start) {
                let p = choose|p: Seq<usize>|
                    is_path(ev, p) && p.first() == start && p.last() == start;
                assert(edge_in(ev, p[0], p[1]));
                let k = choose|k: int|
                    0 <= k < ev.len() && ev[k].src == p[0] && ev[k].dst == p[1];
                assert(ev[k].src == edges@[k].src && ev[k].dst == edges@[k].dst);
                assert(visited@[p[1] as int]);
                if p.len() == 2 {
                    assert(p[1] == start);
                    assert(false);
                } else {
                    let q = p.subrange(1, p.len() as int);
                    assert forall|i: int| 0 <= i < q.len() - 1 implies #[trigger] edge_in(
                        ev,
                        q[i],
                        q[i + 1],
                    ) by {
                        assert(q[i] == p[i + 1] && q[i + 1] == p[i + 2]);
                        assert(edge_in(ev, p[i + 1], p[i + 2]));
                    }
                    assert(is_path(ev, q));
                    lemma_path_stays_in_closed(ev, visited@, q);
                    assert(false);
                }
            }
        }
    }
    result
}

// ------------------------------------------------------------------------
// Dependency matching.
// ------------------------------------------------------------------------

/// The abstract value of one arena slot.
pub open spec fn slot_view(s: Option<Node>) -> Option<NodeView> {
    match s {
        Option::Some(n) => Option::Some(n@),
        Option::None => Option::None,
    }
}

/// The resources a node makes available to nodes after it.
pub open spec fn node_outputs(n: NodeView) -> Seq<PassResourceView> {
    match n {
        NodeView::Task(t) => t.outputs,
        NodeView::Barrier(b) => seq![b.resource],
    }
}

/// The resources a node consumes.
pub open spec fn node_inputs(n: NodeView) -> Seq<PassResourceView> {
    match n {
        NodeView::Task(t) => t.inputs,
        NodeView::Barrier(b) => seq![b.resource],
    }
}

/// The slot holds a live node with an output of the given identity.
pub open spec fn slot_produces(s: Option<NodeView>, uid: (Seq<char>, u64)) -> bool {
    match s {
        Option::Some(n) => exists|k: int|
            0 <= k < node_outputs(n).len() && (#[trigger] node_outputs(n)[k]).resource.uid()
                == uid,
        Option::None => false,
    }
}

/// The slot holds a live node with an input of the given identity.
pub open spec fn slot_consumes(s: Option<NodeView>, uid: (Seq<char>, u64)) -> bool {
    match s {
        Option::Some(n) => exists|k: int|
            0 <= k < node_inputs(n).len() && (#[trigger] node_inputs(n)[k]).resource.uid() == uid,
        Option::None => false,
    }
}

/// The most recent node (highest index) producing the given identity.
pub open spec fn latest_producer(nodes: Seq<Option<NodeView>>, uid: (Seq<char>, u64)) -> Option<
    int,
>
    decreases nodes.len(),
{
    if nodes.len() == 0 {
        Option::None
    } else if slot_produces(nodes.last(), uid) {
        Option::Some(nodes.len() - 1)
    } else {
        latest_producer(nodes.drop_last(), uid)
    }
}

/// A found producer is in range and produces the identity.
proof fn lemma_latest_producer_props(nodes: Seq<Option<NodeView>>, uid: (Seq<char>, u64))
    ensures
        match latest_producer(nodes, uid) {
            Option::Some(j) => 0 <= j < nodes.len() && slot_produces(nodes[j], uid),
            Option::None => true,
        },
    decreases nodes.len(),
{
    if nodes.len() > 0 && !slot_produces(nodes.last(), uid) {
        lemma_latest_producer_props(nodes.drop_last(), uid);
    }
}

/// The edges that attach a new task's inputs to their most recent producers,
/// one per input in declaration order.
pub open spec fn in_edges_rec(
    nodes: Seq<Option<NodeView>>,
    inputs: Seq<PassResourceView>,
    new: usize,
) -> Seq<EdgeView>
    decreases inputs.len(),
{
    if inputs.len() == 0 {
        Seq::empty()
    } else {
        let rest = in_edges_rec(nodes, inputs.drop_last(), new);
        match latest_producer(nodes, inputs.last().resource.uid()) {
            Option::Some(j) => rest.push(
                EdgeView { src: j as usize, dst: new, resource: inputs.last().resource },
            ),
            Option::None => rest,
        }
    }
}

/// The edges from a new task's output `o` to every existing consumer of its
/// identity among the first `n` slots, in index order.
pub open spec fn out_edges_to(
    nodes: Seq<Option<NodeView>>,
    n: int,
    o: PassResourceView,
    new: usize,
) -> Seq<EdgeView>
    decreases n,
{
    if n <= 0 {
        Seq::empty()
    } else {
        let rest = out_edges_to(nodes, n - 1, o, new);
        if slot_consumes(nodes[n - 1], o.resource.uid()) {
            rest.push(EdgeView { src: new, dst: (n - 1) as usize, resource: o.resource })
        } else {
            rest
        }
    }
}

/// The edges from a new task's outputs to existing consumers, grouped by
/// output in declaration order.
pub open spec fn out_edges_rec(
    nodes: Seq<Option<NodeView>>,
    outputs: Seq<PassResourceView>,
    new: usize,
) -> Seq<EdgeView>
    decreases outputs.len(),
{
    if outputs.len() == 0 {
        Seq::empty()
    } else {
        out_edges_rec(nodes, outputs.drop_last(), new) + out_edges_to(
            nodes,
            nodes.len() as int,
            outputs.last(),
            new,
        )
    }
}

/// All edges created by inserting task `t` as node `new`: input edges first,
/// then output edges.
pub open spec fn new_task_edges(
    nodes: Seq<Option<NodeView>>,
    t: PassNodeView,
    new: usize,
) -> Seq<EdgeView> {
    in_edges_rec(nodes, t.inputs, new) + out_edges_rec(nodes, t.outputs, new)
}

/// What [`TaskGraph::add_task`] does: insert the node, connect it, and fail
/// without changing anything if the new edges would close a cycle.
pub open spec fn spec_add_task(g: TaskGraphView, t: PassNodeView) -> Result<TaskGraphView, Error> {
    let new = g.nodes.len() as usize;
    let ne = g.edges + new_task_edges(g.nodes, t, new);
    if acyclic(ne) {
        Result::Ok(
            TaskGraphView { nodes: g.nodes.push(Option::Some(NodeView::Task(t))), edges: ne },
        )
    } else {
        Result::Err(Error::CyclicDependency)
    }
}

/// An edge points at live nodes that really produce and consume its
/// resource.
pub open spec fn edge_endpoints_ok(nodes: Seq<Option<NodeView>>, e: EdgeView) -> bool {
    e.src < nodes.len() && e.dst < nodes.len() && slot_produces(nodes[e.src as int], e.resource.uid())
        && slot_consumes(nodes[e.dst as int], e.resource.uid())
}

/// All edges point at live producing/consuming nodes.
pub open spec fn edges_wf(g: TaskGraphView) -> bool {
    forall|k: int| 0 <= k < g.edges.len() ==> edge_endpoints_ok(g.nodes, #[trigger] g.edges[k])
}

/// The task graph invariant during construction: consistent edges and no
/// cycle.
pub open spec fn graph_wf(g: TaskGraphView) -> bool {
    edges_wf(g) && acyclic(g.edges)
}

/// What every input-matching edge satisfies.
pub open spec fn in_edge_prop(
    nodes: Seq<Option<NodeView>>,
    inputs: Seq<PassResourceView>,
    new: usize,
    e: EdgeView,
) -> bool {
    e.dst == new && e.src < nodes.len() && slot_produces(nodes[e.src as int], e.resource.uid())
        && exists|i: int| 0 <= i < inputs.len() && (#[trigger] inputs[i]).resource == e.resource
}

proof fn lemma_in_edges_props(
    nodes: Seq<Option<NodeView>>,
    inputs: Seq<PassResourceView>,
    new: usize,
)
    requires
        nodes.len() <= usize::MAX,
    ensures
        forall|k: int|
            0 <= k < in_edges_rec(nodes, inputs, new).len() ==> in_edge_prop(
                nodes,
                inputs,
                new,
                #[trigger] in_edges_rec(nodes, inputs, new)[k],
            ),
    decreases inputs.len(),
{
    if inputs.len() > 0 {
        lemma_in_edges_props(nodes, inputs.drop_last(), new);
        lemma_latest_producer_props(nodes, inputs.last().resource.uid());
        let r = in_edges_rec(nodes, inputs, new);
        let rest = in_edges_rec(nodes, inputs.drop_last(), new);
        assert forall|k: int| 0 <= k < r.len() implies in_edge_prop(
            nodes,
            inputs,
            new,
            #[trigger] r[k],
        ) by {
            if k < rest.len() {
                assert(r[k] == rest[k]);
                assert(in_edge_prop(nodes, inputs.drop_last(), new, rest[k]));
                let i = choose|i: int|
                    0 <= i < inputs.drop_last().len() && (#[trigger] inputs.drop_last()[i]).resource
                        == rest[k].resource;
                assert(inputs[i].resource == r[k].resource);
            } else {
                assert(inputs[inputs.len() - 1].resource == r[k].resource);
            }
        }
    }
}

/// What every output-matching edge satisfies.
pub open spec fn out_edge_prop(
    nodes: Seq<Option<NodeView>>,
    outputs: Seq<PassResourceView>,
    new: usize,
    e: EdgeView,
) -> bool {
    e.src == new && e.dst < nodes.len() && slot_consumes(nodes[e.dst as int], e.resource.uid())
        && exists|i: int| 0 <= i < outputs.len() && (#[trigger] outputs[i]).resource == e.resource
}

proof fn lemma_out_edges_to_props(
    nodes: Seq<Option<NodeView>>,
    n: int,
    o: PassResourceView,
    new: usize,
)
    requires
        0 <= n <= nodes.len(),
        nodes.len() <= usize::MAX,
    ensures
        forall|k: int|
            0 <= k < out_edges_to(nodes, n, o, new).len() ==> {
                let e = #[trigger] out_edges_to(nodes, n, o, new)[k];
                e.src == new && e.dst < n && slot_consumes(nodes[e.dst as int], e.resource.uid())
                    && e.resource == o.resource
            },
    decreases n,
{
    if n > 0 {
        lemma_out_edges_to_props(nodes, n - 1, o, new);
        let r = out_edges_to(nodes, n, o, new);
        let rest = out_edges_to(nodes, n - 1, o, new);
        assert forall|k: int| 0 <= k < r.len() implies {
            let e = #[trigger] r[k];
            e.src == new && e.dst < n && slot_consumes(nodes[e.dst as int], e.resource.uid())
                && e.resource == o.resource
        } by {
            if k < rest.len() {
                assert(r[k] == rest[k]);
            } else {
                assert(slot_consumes(nodes[n - 1], o.resource.uid()));
                assert(r[k] == (EdgeView { src: new, dst: (n - 1) as usize, resource: o.resource }));
            }
        }
    }
}

proof fn lemma_out_edges_props(
    nodes: Seq<Option<NodeView>>,
    outputs: Seq<PassResourceView>,
    new: usize,
)
    requires
        nodes.len() <= usize::MAX,
    ensures
        forall|k: int|
            0 <= k < out_edges_rec(nodes, outputs, new).len() ==> out_edge_prop(
                nodes,
                outputs,
                new,
                #[trigger] out_edges_rec(nodes, outputs, new)[k],
            ),
    decreases outputs.len(),
{
    if outputs.len() > 0 {
        lemma_out_edges_props(nodes, outputs.drop_last(), new);
        lemma_out_edges_to_props(nodes, nodes.len() as int, outputs.last(), new);
        let r = out_edges_rec(nodes, outputs, new);
        let rest = out_edges_rec(nodes, outputs.drop_last(), new);
        let tail = out_edges_to(nodes, nodes.len() as int, outputs.last(), new);
        assert forall|k: int| 0 <= k < r.len() implies out_edge_prop(
            nodes,
            outputs,
            new,
            #[trigger] r[k],
        ) by {
            if k < rest.len() {
                assert(r[k] == rest[k]);
                assert(out_edge_prop(nodes, outputs.drop_last(), new, rest[k]));
                let i = choose|i: int|
                    0 <= i < outputs.drop_last().len() && (#[trigger] outputs.drop_last()[i]).resource
                        == rest[k].resource;
                assert(outputs[i].resource == r[k].resource);
            } else {
                assert(r[k] == tail[k - rest.len()]);
                assert(outputs[outputs.len() - 1].resource == r[k].resource);
            }
        }
    }
}

// ------------------------------------------------------------------------
// Executable matching helpers.
// ------------------------------------------------------------------------

/// Whether the node in `slot` outputs a resource with `r`'s identity.
fn slot_produces_exec(slot: &Option<Node>, r: &VirtualResource) -> (b: bool)
    ensures
        b == slot_produces(slot_view(*slot), r@.uid()),
{
    match slot {
        Option::None => false,
        Option::Some(Node::Barrier(br)) => {
            let res = br.resource.resource.same_uid(r);
            proof {
                let n = slot_view(*slot)->Some_0;
                assert(node_outputs(n) =~= seq![br@.resource]);
                assert(node_outputs(n)[0] == br@.resource);
            }
            res
        },
        Option::Some(Node::Task(t)) => {
            let ghost n = slot_view(*slot)->Some_0;
            proof {
                assert(node_outputs(n) =~= res_views(t.outputs@));
            }
            let mut i: usize = 0;
            let mut found = false;
            while i < t.outputs.len()
                invariant
                    i <= t.outputs@.len(),
                    node_outputs(n) =~= res_views(t.outputs@),
                    found == exists|k: int|
                        0 <= k < i && (#[trigger] node_outputs(n)[k]).resource.uid() == r@.uid(),
                decreases t.outputs@.len() - i,
            {
                if t.outputs[i].resource.same_uid(r) {
                    found = true;
                    proof {
                        assert(node_outputs(n)[i as int].resource.uid() == r@.uid());
                    }
                }
                i = i + 1;
            }
            found
        },
    }
}

/// Whether the node in `slot` consumes a resource with `r`'s identity.
fn slot_consumes_exec(slot: &Option<Node>, r: &VirtualResource) -> (b: bool)
    ensures
        b == slot_consumes(slot_view(*slot), r@.uid()),
{
    match slot {
        Option::None => false,
        Option::Some(Node::Barrier(br)) => {
            let res = br.resource.resource.same_uid(r);
            proof {
                let n = slot_view(*slot)->Some_0;
                assert(node_inputs(n) =~= seq![br@.resource]);
                assert(node_inputs(n)[0] == br@.resource);
            }
            res
        },
        Option::Some(Node::Task(t)) => {
            let ghost n = slot_view(*slot)->Some_0;
            proof {
                assert(node_inputs(n) =~= res_views(t.inputs@));
            }
            let mut i: usize = 0;
            let mut found = false;
            while i < t.inputs.len()
                invariant
                    i <= t.inputs@.len(),
                    node_inputs(n) =~= res_views(t.inputs@),
                    found == exists|k: int|
                        0 <= k < i && (#[trigger] node_inputs(n)[k]).resource.uid() == r@.uid(),
                decreases t.inputs@.len() - i,
            {
                if t.inputs[i].resource.same_uid(r) {
                    found = true;
                    proof {
                        assert(node_inputs(n)[i as int].resource.uid() == r@.uid());
                    }
                }
                i = i + 1;
            }
            found
        },
    }
}

/// The most recent producer of `r`'s identity, scanning from the newest
/// node backwards.
fn find_latest_producer(nodes: &Vec<Option<Node>>, r: &VirtualResource) -> (res: Option<usize>)
    ensures
        match res {
            Option::Some(j) => latest_producer(node_views(nodes@), r@.uid()) == Option::Some(
                j as int,
            ),
            Option::None => latest_producer(node_views(nodes@), r@.uid()) is None,
        },
{
    let ghost nv = node_views(nodes@);
    let mut i: usize = nodes.len();
    proof {
        assert(nv.take(i as int) =~= nv);
    }
    while i > 0
        invariant
            nv == node_views(nodes@),
            i <= nodes@.len(),
            latest_producer(nv, r@.uid()) == latest_producer(nv.take(i as int), r@.uid()),
        decreases i,
    {
        let ghost pre = nv.take(i as int);
        i = i - 1;
        if slot_produces_exec(&nodes[i], r) {
            proof {
                assert(slot_view(nodes@[i as int]) == nv[i as int]);
                assert(pre.last() == nv[i as int]);
                assert(latest_producer(pre, r@.uid()) == Option::Some(i as int));
            }
            return Option::Some(i);
        }
        proof {
            assert(slot_view(nodes@[i as int]) == nv[i as int]);
            assert(pre.last() == nv[i as int]);
            assert(pre.drop_last() =~= nv.take(i as int));
        }
    }
    proof {
        assert(nv.take(0) =~= Seq::<Option<NodeView>>::empty());
    }
    Option::None
}

// ------------------------------------------------------------------------
// Barrier creation.
// ------------------------------------------------------------------------

/// The first resource in `rs` with the given identity.
pub open spec fn find_first_res(rs: Seq<PassResourceView>, uid: (Seq<char>, u64)) -> Option<
    PassResourceView,
>
    decreases rs.len(),
{
    if rs.len() == 0 {
        Option::None
    } else if rs.first().resource.uid() == uid {
        Option::Some(rs.first())
    } else {
        find_first_res(rs.drop_first(), uid)
    }
}

/// The producer endpoint of an edge: the output of the source task that
/// carries the edge's resource identity.
pub open spec fn producer_res(nodes: Seq<Option<NodeView>>, e: EdgeView) -> Option<
    PassResourceView,
> {
    match nodes[e.src as int] {
        Option::Some(NodeView::Task(t)) => find_first_res(t.outputs, e.resource.uid()),
        _ => Option::None,
    }
}

/// The consumer endpoint of an edge: the input of the destination task that
/// carries the edge's resource identity.
pub open spec fn consumer_res(nodes: Seq<Option<NodeView>>, e: EdgeView) -> Option<
    PassResourceView,
> {
    match nodes[e.dst as int] {
        Option::Some(NodeView::Task(t)) => find_first_res(t.inputs, e.resource.uid()),
        _ => Option::None,
    }
}

/// Whether the two endpoint declarations of an edge differ in access flags,
/// pipeline stage or image layout — exactly then a barrier must guard the
/// edge.
pub open spec fn barrier_needed(nodes: Seq<Option<NodeView>>, e: EdgeView) -> bool {
    &&& e.src < nodes.len()
    &&& e.dst < nodes.len()
    &&& nodes[e.src as int] matches Option::Some(NodeView::Task(_))
    &&& nodes[e.dst as int] matches Option::Some(NodeView::Task(_))
    &&& match (producer_res(nodes, e), consumer_res(nodes, e)) {
        (Option::Some(p), Option::Some(c)) => spec_access(p.usage) != spec_access(c.usage)
            || p.stage != c.stage || p.layout != c.layout,
        _ => false,
    }
}

/// The barrier nodes and rewritten edge list that barrier creation yields
/// for a prefix of the edge list: a split edge becomes two edges through a
/// fresh barrier appended after slot `base`; any other edge is kept.
pub open spec fn cb_rec(
    nodes0: Seq<Option<NodeView>>,
    edges: Seq<EdgeView>,
    base: int,
) -> (Seq<Option<NodeView>>, Seq<EdgeView>)
    decreases edges.len(),
{
    if edges.len() == 0 {
        (Seq::empty(), Seq::empty())
    } else {
        let r = cb_rec(nodes0, edges.drop_last(), base);
        let e = edges.last();
        if barrier_needed(nodes0, e) {
            let p = producer_res(nodes0, e)->Some_0;
            let bidx = (base + r.0.len()) as usize;
            (
                r.0.push(Option::Some(NodeView::Barrier(spec_new_barrier(p)))),
                r.1 + seq![
                    EdgeView { src: e.src, dst: bidx, resource: e.resource },
                    EdgeView { src: bidx, dst: e.dst, resource: e.resource },
                ],
            )
        } else {
            (r.0, r.1.push(e))
        }
    }
}

/// What [`TaskGraph::create_barrier_nodes`] does.
pub open spec fn spec_create_barriers(g: TaskGraphView) -> TaskGraphView {
    let r = cb_rec(g.nodes, g.edges, g.nodes.len() as int);
    TaskGraphView { nodes: g.nodes + r.0, edges: r.1 }
}

/// Barrier creation adds at most one node per edge.
proof fn lemma_cb_rec_len(nodes0: Seq<Option<NodeView>>, edges: Seq<EdgeView>, base: int)
    ensures
        cb_rec(nodes0, edges, base).0.len() <= edges.len(),
    decreases edges.len(),
{
    if edges.len() > 0 {
        lemma_cb_rec_len(nodes0, edges.drop_last(), base);
    }
}

/// The first entry of `rs` carrying `r`'s identity, as an index.
pub(crate) fn find_first_match(rs: &Vec<PassResource>, r: &VirtualResource) -> (res: Option<usize>)
    ensures
        match res {
            Option::Some(i) => i < rs@.len() && find_first_res(res_views(rs@), r@.uid())
                == Option::Some(res_views(rs@)[i as int]),
            Option::None => find_first_res(res_views(rs@), r@.uid()) is None,
        },
{
    let ghost rv = res_views(rs@);
    let mut i: usize = 0;
    proof {
        assert(rv.skip(0) =~= rv);
    }
    while i < rs.len()
        invariant
            rv == res_views(rs@),
            i <= rs@.len(),
            find_first_res(rv, r@.uid()) == find_first_res(rv.skip(i as int), r@.uid()),
        decreases rs@.len() - i,
    {
        let ghost suf = rv.skip(i as int);
        proof {
            assert(suf.len() > 0);
            assert(suf.first() == rv[i as int]);
        }
        if rs[i].resource.same_uid(r) {
            proof {
                assert(rv[i as int].resource.uid() == r@.uid());
                assert(find_first_res(suf, r@.uid()) == Option::Some(rv[i as int]));
            }
            return Option::Some(i);
        }
        proof {
            assert(rv[i as int].resource.uid() != r@.uid());
            assert(suf.drop_first() =~= rv.skip(i + 1));
        }
        i = i + 1;
    }
    proof {
        assert(rv.skip(rs@.len() as int).len() == 0);
    }
    Option::None
}

/// An edge-list clone whose abstract value is unchanged.
pub(crate) fn clone_edges(v: &Vec<Edge>) -> (r: Vec<Edge>)
    ensures
        edge_views(r@) == edge_views(v@),
{
    let mut r: Vec<Edge> = Vec::new();
    let mut k: usize = 0;
    proof {
        assert(edge_views(r@) =~= edge_views(v@).take(0));
    }
    while k < v.len()
        invariant
            k <= v@.len(),
            edge_views(r@) == edge_views(v@).take(k as int),
        decreases v@.len() - k,
    {
        let ghost prev = r@;
        proof {
            assert(edge_views(prev).len() == prev.len());
            assert(edge_views(v@).take(k as int).len() == k as int);
        }
        r.push(v[k].clone());
        proof {
            assert(r@ == prev.push(r@[prev.len() as int]));
            assert(r@[prev.len() as int]@ == edge_views(v@)[k as int]);
            assert forall|i: int| 0 <= i < prev.len() implies edge_views(r@)[i] == edge_views(
                prev,
            )[i] by {
                assert(r@[i] == prev[i]);
            }
            assert(edge_views(r@) =~= edge_views(v@).take(k + 1));
        }
        k = k + 1;
    }
    proof {
        assert(edge_views(v@).take(v@.len() as int) =~= edge_views(v@));
    }
    r
}

impl TaskGraph {
    /// An empty graph.
    pub fn new() -> (r: Self)
        ensures
            r@.nodes =~= Seq::<Option<NodeView>>::empty(),
            r@.edges =~= Seq::<EdgeView>::empty(),
            graph_wf(r@),
    {
        let r = TaskGraph { nodes: Vec::new(), edges: Vec::new() };
        proof {
            assert(r@.nodes =~= Seq::<Option<NodeView>>::empty());
            assert(r@.edges =~= Seq::<EdgeView>::empty());
            assert forall|a: usize| !reaches(r@.edges, a, a) by {
                if reaches(r@.edges, a, a) {
                    let p = choose|p: Seq<usize>|
                        is_path(r@.edges, p) && p.first() == a && p.last() == a;
                    assert(edge_in(r@.edges, p[0], p[1]));
                    assert(false);
                }
            }
        }
        r
    }

    /// Number of arena slots (live nodes plus removed slots).
    pub fn node_count(&self) -> (r: usize)
        ensures
            r == self@.nodes.len(),
    {
        self.nodes.len()
    }

    /// The node in slot `i`, or `None` if it was removed.
    pub fn node_at(&self, i: usize) -> (r: &Option<Node>)
        requires
            i < self@.nodes.len(),
        ensures
            slot_view(*r) == self@.nodes[i as int],
    {
        &self.nodes[i]
    }

    /// Number of edges.
    pub fn edge_count(&self) -> (r: usize)
        ensures
            r == self@.edges.len(),
    {
        self.edges.len()
    }

    /// The edge at position `i`.
    pub fn edge_at(&self, i: usize) -> (r: &Edge)
        requires
            i < self@.edges.len(),
        ensures
            r@ == self@.edges[i as int],
    {
        &self.edges[i]
    }

    /// Insert a task node. Each of its inputs is connected to the most
    /// recent producer of the same resource identity; each of its outputs is
    /// connected to every existing consumer of the same identity. Fails with
    /// [`Error::CyclicDependency`], leaving the graph unchanged, exactly
    /// when the new edges would close a cycle.
    pub fn add_task(&mut self, task: PassNode) -> (res: Result<(), Error>)
        requires
            graph_wf(old(self)@),
            old(self)@.nodes.len() < usize::MAX,
        ensures
            match spec_add_task(old(self)@, task@) {
                Result::Ok(gv) => res is Ok && final(self)@ == gv && graph_wf(final(self)@),
                Result::Err(e) => res == Result::Err::<(), Error>(e) && final(self)@ == old(self)@
                    && graph_wf(final(self)@),
            },
    {
        let ghost g0 = self@;
        let ghost tv = task@;
        let new_idx = self.nodes.len();

        // Collect the matching edges for the new task.
        let mut cand: Vec<Edge> = Vec::new();
        let mut i: usize = 0;
        while i < task.inputs.len()
            invariant
                g0 == self@,
                new_idx == g0.nodes.len(),
                tv == task@,
                i <= task.inputs@.len(),
                edge_views(cand@) =~= in_edges_rec(g0.nodes, tv.inputs.take(i as int), new_idx),
            decreases task.inputs@.len() - i,
        {
            let ghost pre = tv.inputs.take(i as int);
            let found = find_latest_producer(&self.nodes, &task.inputs[i].resource);
            proof {
                assert(tv.inputs.take(i + 1).drop_last() =~= pre);
                assert(tv.inputs.take(i + 1).last() == tv.inputs[i as int]);
                assert(tv.inputs[i as int] == task.inputs@[i as int]@);
            }
            match found {
                Option::Some(j) => {
                    proof {
                        lemma_latest_producer_props(g0.nodes, tv.inputs[i as int].resource.uid());
                    }
                    cand.push(
                        Edge { src: j, dst: new_idx, resource: task.inputs[i].resource.clone() },
                    );
                    proof {
                        assert(edge_views(cand@) =~= in_edges_rec(
                            g0.nodes,
                            tv.inputs.take(i + 1),
                            new_idx,
                        ));
                    }
                },
                Option::None => {
                    proof {
                        assert(edge_views(cand@) =~= in_edges_rec(
                            g0.nodes,
                            tv.inputs.take(i + 1),
                            new_idx,
                        ));
                    }
                },
            }
            i = i + 1;
        }
        proof {
            assert(tv.inputs.take(tv.inputs.len() as int) =~= tv.inputs);
        }

        let ghost in_part = edge_views(cand@);
        let mut o: usize = 0;
        while o < task.outputs.len()
            invariant
                g0 == self@,
                new_idx == g0.nodes.len(),
                tv == task@,
                o <= task.outputs@.len(),
                edge_views(cand@) =~= in_part + out_edges_rec(
                    g0.nodes,
                    tv.outputs.take(o as int),
                    new_idx,
                ),
            decreases task.outputs@.len() - o,
        {
            let ghost opre = tv.outputs.take(o as int);
            let ghost ov = tv.outputs[o as int];
            proof {
                assert(tv.outputs.take(o + 1).drop_last() =~= opre);
                assert(tv.outputs.take(o + 1).last() == ov);
                assert(tv.outputs[o as int] == task.outputs@[o as int]@);
            }
            let mut j: usize = 0;
            while j < self.nodes.len()
                invariant
                    g0 == self@,
                    new_idx == g0.nodes.len(),
                    tv == task@,
                    o < task.outputs@.len(),
                    ov == tv.outputs[o as int],
                    j <= self.nodes@.len(),
                    ov == task.outputs@[o as int]@,
                    edge_views(cand@) =~= in_part + out_edges_rec(g0.nodes, opre, new_idx)
                        + out_edges_to(g0.nodes, j as int, ov, new_idx),
                decreases self.nodes@.len() - j,
            {
                let consumes = slot_consumes_exec(&self.nodes[j], &task.outputs[o].resource);
                proof {
                    assert(slot_view(self.nodes@[j as int]) == g0.nodes[j as int]);
                }
                if consumes {
                    let ghost prev = cand@;
                    cand.push(
                        Edge { src: new_idx, dst: j, resource: task.outputs[o].resource.clone() },
                    );
                    proof {
                        let ghost enew = EdgeView { src: new_idx, dst: j, resource: ov.resource };
                        let ghost rec = out_edges_rec(g0.nodes, opre, new_idx);
                        let ghost toj = out_edges_to(g0.nodes, j as int, ov, new_idx);
                        assert(slot_consumes(g0.nodes[j as int], ov.resource.uid()));
                        assert(out_edges_to(g0.nodes, j + 1, ov, new_idx) == toj.push(enew));
                        assert(cand@ == prev.push(cand@[prev.len() as int]));
                        assert(ov.resource == task.outputs@[o as int]@.resource);
                        assert(cand@[prev.len() as int]@ == enew);
                        assert(edge_views(prev).len() == prev.len());
                        assert forall|i: int|
                            0 <= i < prev.len() implies edge_views(cand@)[i] == edge_views(
                            prev,
                        )[i] by {
                            assert(cand@[i] == prev[i]);
                        }
                        assert(edge_views(cand@)[prev.len() as int] == enew);
                        assert(edge_views(prev) =~= in_part + rec + toj);
                        assert(edge_views(cand@) =~= edge_views(prev).push(enew));
                        lemma_concat_push(in_part + rec, toj, enew);
                        assert(edge_views(cand@) == in_part + rec + toj.push(enew));
                        assert(edge_views(cand@) =~= in_part + out_edges_rec(
                            g0.nodes,
                            opre,
                            new_idx,
                        ) + out_edges_to(g0.nodes, j + 1, ov, new_idx));
                    }
                } else {
                    proof {
                        assert(out_edges_to(g0.nodes, j + 1, ov, new_idx) =~= out_edges_to(
                            g0.nodes,
                            j as int,
                            ov,
                            new_idx,
                        ));
                    }
                }
                j = j + 1;
            }
            proof {
                assert(out_edges_rec(g0.nodes, tv.outputs.take(o + 1), new_idx) =~= out_edges_rec(
                    g0.nodes,
                    opre,
                    new_idx,
                ) + out_edges_to(g0.nodes, g0.nodes.len() as int, ov, new_idx));
                assert(edge_views(cand@) =~= in_part + out_edges_rec(
                    g0.nodes,
                    tv.outputs.take(o + 1),
                    new_idx,
                ));
            }
            o = o + 1;
        }
        proof {
            assert(tv.outputs.take(tv.outputs.len() as int) =~= tv.outputs);
            assert(edge_views(cand@) =~= new_task_edges(g0.nodes, tv, new_idx));
        }

        // Assemble the extended edge list and check for a cycle through the
        // new node.
        let mut all_edges: Vec<Edge> = Vec::new();
        let mut k: usize = 0;
        while k < self.edges.len()
            invariant
                g0 == self@,
                k <= self.edges@.len(),
                edge_views(all_edges@) =~= g0.edges.take(k as int),
            decreases self.edges@.len() - k,
        {
            let ghost prev = all_edges@;
            proof {
                assert(g0.edges == edge_views(self.edges@));
                assert(g0.edges.len() == self.edges@.len());
                assert(edge_views(prev).len() == prev.len());
                assert(g0.edges.take(k as int).len() == k as int);
                assert(prev.len() == k);
            }
            all_edges.push(self.edges[k].clone());
            proof {
                assert(all_edges@ == prev.push(all_edges@[prev.len() as int]));
                assert(all_edges@[prev.len() as int]@ == self@.edges[k as int]);
                assert(edge_views(all_edges@).len() == prev.len() + 1);
                assert forall|i: int|
                    0 <= i < prev.len() implies edge_views(all_edges@)[i] == edge_views(prev)[i] by {
                    assert(all_edges@[i] == prev[i]);
                }
                assert(edge_views(all_edges@)[prev.len() as int] == g0.edges[k as int]);
                assert(edge_views(all_edges@).len() == k + 1);
                assert(g0.edges.take(k + 1).len() == k + 1);
                assert forall|i: int|
                    0 <= i < k + 1 implies edge_views(all_edges@)[i] == g0.edges.take(k + 1)[i] by {
                    assert(g0.edges.take(k + 1)[i] == g0.edges[i]);
                    if i < k {
                        assert(edge_views(all_edges@)[i] == edge_views(prev)[i]);
                        assert(edge_views(prev)[i] == g0.edges.take(k as int)[i]);
                        assert(g0.edges.take(k as int)[i] == g0.edges[i]);
                    }
                }
                assert(edge_views(all_edges@) =~= g0.edges.take(k + 1));
            }
            k = k + 1;
        }
        proof {
            assert(g0.edges.take(g0.edges.len() as int) =~= g0.edges);
        }
        let mut k2: usize = 0;
        while k2 < cand.len()
            invariant
                g0 == self@,
                k2 <= cand@.len(),
                edge_views(cand@) =~= new_task_edges(g0.nodes, tv, new_idx),
                edge_views(all_edges@) =~= g0.edges + edge_views(cand@).take(k2 as int),
            decreases cand@.len() - k2,
        {
            let ghost prev = all_edges@;
            proof {
                assert(edge_views(cand@).len() == cand@.len());
                assert(edge_views(prev).len() == prev.len());
                assert(edge_views(cand@).take(k2 as int).len() == k2 as int);
                assert(prev.len() == g0.edges.len() + k2);
            }
            all_edges.push(cand[k2].clone());
            proof {
                let ghost x = edge_views(cand@)[k2 as int];
                assert(all_edges@ == prev.push(all_edges@[prev.len() as int]));
                assert(all_edges@[prev.len() as int]@ == x);
                assert forall|i: int|
                    0 <= i < prev.len() implies edge_views(all_edges@)[i] == edge_views(prev)[i] by {
                    assert(all_edges@[i] == prev[i]);
                }
                assert(edge_views(all_edges@)[prev.len() as int] == x);
                assert(edge_views(prev) =~= g0.edges + edge_views(cand@).take(k2 as int));
                assert(edge_views(all_edges@) =~= edge_views(prev).push(x));
                assert(edge_views(cand@).take(k2 + 1) =~= edge_views(cand@).take(k2 as int).push(
                    x,
                ));
                lemma_concat_push(g0.edges, edge_views(cand@).take(k2 as int), x);
                assert(edge_views(all_edges@) == g0.edges + edge_views(cand@).take(k2 as int).push(
                    x,
                ));
                assert(edge_views(all_edges@) =~= g0.edges + edge_views(cand@).take(k2 + 1));
            }
            k2 = k2 + 1;
        }
        proof {
            assert(edge_views(cand@).take(cand@.len() as int) =~= edge_views(cand@));
        }
        let ghost ne = g0.edges + new_task_edges(g0.nodes, tv, new_idx);
        proof {
            assert(edge_views(all_edges@) =~= ne);
        }

        // Every edge endpoint lies below `new_idx + 1`.
        proof {
            lemma_in_edges_props(g0.nodes, tv.inputs, new_idx);
            lemma_out_edges_props(g0.nodes, tv.outputs, new_idx);
            assert forall|k: int|
                0 <= k < all_edges@.len() implies (#[trigger] all_edges@[k]).src < new_idx + 1
                && all_edges@[k].dst < new_idx + 1 by {
                assert(all_edges@[k]@ == ne[k]);
                if k < g0.edges.len() {
                    assert(edge_endpoints_ok(g0.nodes, g0.edges[k]));
                } else {
                    let ce = ne[k];
                    let ic = in_edges_rec(g0.nodes, tv.inputs, new_idx);
                    if k - g0.edges.len() < ic.len() {
                        assert(ce == ic[k - g0.edges.len()]);
                        assert(in_edge_prop(g0.nodes, tv.inputs, new_idx, ce));
                    } else {
                        let oc = out_edges_rec(g0.nodes, tv.outputs, new_idx);
                        assert(ce == oc[k - g0.edges.len() - ic.len()]);
                        assert(out_edge_prop(g0.nodes, tv.outputs, new_idx, ce));
                    }
                }
            }
        }

        let cyclic = reaches_self(&all_edges, new_idx + 1, new_idx);

        proof {
            // Localize any cycle to the new node.
            assert forall|k: int|
                0 <= k < ne.len() implies edge_in(g0.edges, (#[trigger] ne[k]).src, ne[k].dst)
                || ne[k].src == new_idx || ne[k].dst == new_idx by {
                if k < g0.edges.len() {
                    assert(ne[k] == g0.edges[k]);
                    assert(edge_in(g0.edges, ne[k].src, ne[k].dst));
                } else {
                    let ce = ne[k];
                    let ic = in_edges_rec(g0.nodes, tv.inputs, new_idx);
                    if k - g0.edges.len() < ic.len() {
                        assert(ce == ic[k - g0.edges.len()]);
                        assert(in_edge_prop(g0.nodes, tv.inputs, new_idx, ce));
                    } else {
                        let oc = out_edges_rec(g0.nodes, tv.outputs, new_idx);
                        assert(ce == oc[k - g0.edges.len() - ic.len()]);
                        assert(out_edge_prop(g0.nodes, tv.outputs, new_idx, ce));
                    }
                }
            }
            assert(edges_localized(g0.edges, ne, new_idx));
            assert forall|k: int|
                0 <= k < g0.edges.len() implies (#[trigger] g0.edges[k]).src != new_idx
                && g0.edges[k].dst != new_idx by {
                assert(edge_endpoints_ok(g0.nodes, g0.edges[k]));
            }
            if !cyclic {
                lemma_cycle_through_new(g0.edges, ne, new_idx);
            }
        }

        if cyclic {
            proof {
                assert(!acyclic(ne));
            }
            return Result::Err(Error::CyclicDependency);
        }

        self.nodes.push(Option::Some(Node::Task(task)));
        self.edges = all_edges;

        proof {
            assert(self@.nodes =~= g0.nodes.push(Option::Some(NodeView::Task(tv))));
            assert(self@.edges =~= ne);
            let gv = spec_add_task(g0, tv)->Ok_0;
            assert(self@.nodes =~= gv.nodes);
            assert(self@.edges =~= gv.edges);
            assert(self@ == gv);
            // The new graph is well-formed.
            assert forall|k: int|
                0 <= k < self@.edges.len() implies edge_endpoints_ok(
                self@.nodes,
                #[trigger] self@.edges[k],
            ) by {
                let e = self@.edges[k];
                if k < g0.edges.len() {
                    assert(e == g0.edges[k]);
                    assert(edge_endpoints_ok(g0.nodes, e));
                    assert(self@.nodes[e.src as int] == g0.nodes[e.src as int]);
                    assert(self@.nodes[e.dst as int] == g0.nodes[e.dst as int]);
                } else {
                    let ic = in_edges_rec(g0.nodes, tv.inputs, new_idx);
                    if k - g0.edges.len() < ic.len() {
                        assert(e == ic[k - g0.edges.len()]);
                        assert(in_edge_prop(g0.nodes, tv.inputs, new_idx, e));
                        assert(self@.nodes[e.src as int] == g0.nodes[e.src as int]);
                        assert(self@.nodes[e.dst as int] == Option::Some(NodeView::Task(tv)));
                        let i = choose|i: int|
                            0 <= i < tv.inputs.len() && (#[trigger] tv.inputs[i]).resource
                                == e.resource;
                        assert(node_inputs(NodeView::Task(tv))[i].resource.uid()
                            == e.resource.uid());
                    } else {
                        let oc = out_edges_rec(g0.nodes, tv.outputs, new_idx);
                        let e2 = oc[k - g0.edges.len() - ic.len()];
                        assert(e == e2);
                        assert(out_edge_prop(g0.nodes, tv.outputs, new_idx, e));
                        assert(self@.nodes[e.dst as int] == g0.nodes[e.dst as int]);
                        assert(self@.nodes[e.src as int] == Option::Some(NodeView::Task(tv)));
                        let i = choose|i: int|
                            0 <= i < tv.outputs.len() && (#[trigger] tv.outputs[i]).resource
                                == e.resource;
                        assert(node_outputs(NodeView::Task(tv))[i].resource.uid()
                            == e.resource.uid());
                    }
                }
            }
        }
        Result::Ok(())
    }

    /// For every edge between two task nodes whose endpoint resources have
    /// differing access flags, pipeline stage or image layout, split the
    /// edge by inserting a barrier node carrying the producer's usage as
    /// its source side, with the destination side left empty for the merge
    /// step. Edges whose endpoints agree are kept as they are, in order.
    pub fn create_barrier_nodes(&mut self)
        requires
            edges_wf(old(self)@),
            old(self)@.nodes.len() + old(self)@.edges.len() <= usize::MAX,
        ensures
            final(self)@ == spec_create_barriers(old(self)@),
    {
        let ghost g0 = self@;
        let ghost base = g0.nodes.len() as int;
        let old_edges = clone_edges(&self.edges);
        let mut new_edges: Vec<Edge> = Vec::new();
        let mut k: usize = 0;
        proof {
            assert(g0.edges.take(0) =~= Seq::<EdgeView>::empty());
            assert(node_views(self.nodes@) =~= g0.nodes + cb_rec(g0.nodes, g0.edges.take(0), base).0);
            assert(edge_views(new_edges@) =~= cb_rec(g0.nodes, g0.edges.take(0), base).1);
        }
        while k < old_edges.len()
            invariant
                edge_views(old_edges@) == g0.edges,
                k <= old_edges@.len(),
                old_edges@.len() == g0.edges.len(),
                edges_wf(g0),
                g0.nodes.len() + g0.edges.len() <= usize::MAX,
                base == g0.nodes.len() as int,
                node_views(self.nodes@) == g0.nodes + cb_rec(g0.nodes, g0.edges.take(k as int), base).0,
                edge_views(new_edges@) == cb_rec(g0.nodes, g0.edges.take(k as int), base).1,
                self.nodes@.len() <= g0.nodes.len() + k,
            decreases old_edges@.len() - k,
        {
            let ghost r_pre = cb_rec(g0.nodes, g0.edges.take(k as int), base);
            let ghost ev = g0.edges[k as int];
            proof {
                assert(old_edges@[k as int]@ == g0.edges[k as int]);
                assert(g0.edges.take(k + 1).drop_last() =~= g0.edges.take(k as int));
                assert(g0.edges.take(k + 1).last() == ev);
                assert(edge_endpoints_ok(g0.nodes, ev));
                lemma_cb_rec_len(g0.nodes, g0.edges.take(k as int), base);
                assert(node_views(self.nodes@).len() == self.nodes@.len());
                assert(self.nodes@.len() == g0.nodes.len() + r_pre.0.len());
            }
            let e_src = old_edges[k].src;
            let e_dst = old_edges[k].dst;
            proof {
                assert(e_src == ev.src && e_dst == ev.dst);
                assert(e_src < g0.nodes.len() && e_dst < g0.nodes.len());
                assert(node_views(self.nodes@)[e_src as int] == g0.nodes[e_src as int]);
                assert(node_views(self.nodes@)[e_dst as int] == g0.nodes[e_dst as int]);
                assert(slot_view(self.nodes@[e_src as int]) == g0.nodes[e_src as int]);
                assert(slot_view(self.nodes@[e_dst as int]) == g0.nodes[e_dst as int]);
            }
            // Decide whether this edge needs a barrier; if so, capture the
            // producer's declaration for it.
            let needs: Option<PassResource> = {
                let a = &self.nodes[e_src];
                let b = &self.nodes[e_dst];
                match a {
                    Option::Some(Node::Task(tp)) => match b {
                        Option::Some(Node::Task(tc)) => {
                            proof {
                                assert(res_views(tp.outputs@) == (tp@).outputs);
                                assert(res_views(tc.inputs@) == (tc@).inputs);
                            }
                            let pr = find_first_match(&tp.outputs, &old_edges[k].resource);
                            let cr = find_first_match(&tc.inputs, &old_edges[k].resource);
                            match pr {
                                Option::Some(pi) => match cr {
                                    Option::Some(ci) => {
                                        let p = &tp.outputs[pi];
                                        let c = &tc.inputs[ci];
                                        proof {
                                            assert(producer_res(g0.nodes, ev) == Option::Some(
                                                p@,
                                            ));
                                            assert(consumer_res(g0.nodes, ev) == Option::Some(
                                                c@,
                                            ));
                                        }
                                        if p.usage.access() != c.usage.access() || p.stage
                                            != c.stage || p.layout != c.layout {
                                            Option::Some(p.clone())
                                        } else {
                                            Option::None
                                        }
                                    },
                                    Option::None => Option::None,
                                },
                                Option::None => Option::None,
                            }
                        },
                        _ => Option::None,
                    },
                    _ => Option::None,
                }
            };
            proof {
                match &needs {
                    Option::Some(p) => {
                        assert(barrier_needed(g0.nodes, ev));
                        assert(p@ == producer_res(g0.nodes, ev)->Some_0);
                    },
                    Option::None => {
                        assert(!barrier_needed(g0.nodes, ev));
                    },
                }
            }
            match needs {
                Option::Some(p) => {
                    let bidx = self.nodes.len();
                    let ghost nprev = self.nodes@;
                    let ghost eprev = new_edges@;
                    let ghost pp = producer_res(g0.nodes, ev)->Some_0;
                    let ghost bview = Option::Some(
                        NodeView::Barrier(spec_new_barrier(pp)),
                    );
                    let ghost e1 = EdgeView { src: ev.src, dst: bidx, resource: ev.resource };
                    let ghost e2 = EdgeView { src: bidx, dst: ev.dst, resource: ev.resource };
                    self.nodes.push(Option::Some(Node::Barrier(PassResourceBarrier::new(p))));
                    new_edges.push(
                        Edge { src: e_src, dst: bidx, resource: old_edges[k].resource.clone() },
                    );
                    new_edges.push(
                        Edge { src: bidx, dst: e_dst, resource: old_edges[k].resource.clone() },
                    );
                    proof {
                        // The fresh barrier slot.
                        assert(bidx as int == base + r_pre.0.len());
                        assert(self.nodes@ == nprev.push(self.nodes@[nprev.len() as int]));
                        assert(slot_view(self.nodes@[nprev.len() as int]) == bview);
                        assert(node_views(nprev).len() == nprev.len());
                        assert forall|i: int|
                            0 <= i < nprev.len() implies node_views(self.nodes@)[i] == node_views(
                            nprev,
                        )[i] by {
                            assert(self.nodes@[i] == nprev[i]);
                        }
                        assert(node_views(self.nodes@)[nprev.len() as int] == bview);
                        assert(node_views(self.nodes@) =~= node_views(nprev).push(bview));
                        lemma_concat_push(g0.nodes, r_pre.0, bview);
                        assert(node_views(self.nodes@) == g0.nodes + r_pre.0.push(bview));
                        // The two replacement edges.
                        assert(new_edges@.len() == eprev.len() + 2);
                        assert(new_edges@[eprev.len() as int]@ == e1);
                        assert(new_edges@[eprev.len() as int + 1]@ == e2);
                        assert(edge_views(eprev).len() == eprev.len());
                        assert forall|i: int|
                            0 <= i < eprev.len() implies edge_views(new_edges@)[i] == edge_views(
                            eprev,
                        )[i] by {
                            assert(new_edges@[i] == eprev[i]);
                        }
                        assert(edge_views(new_edges@)[eprev.len() as int] == e1);
                        assert(edge_views(new_edges@)[eprev.len() as int + 1] == e2);
                        assert(edge_views(new_edges@) =~= r_pre.1 + seq![e1, e2]);
                        // This matches the specification step.
                        assert(cb_rec(g0.nodes, g0.edges.take(k + 1), base).0 == r_pre.0.push(
                            bview,
                        ));
                        assert(cb_rec(g0.nodes, g0.edges.take(k + 1), base).1 == r_pre.1 + seq![
                            e1,
                            e2,
                        ]);
                    }
                },
                Option::None => {
                    let ghost eprev = new_edges@;
                    new_edges.push(old_edges[k].clone());
                    proof {
                        assert(new_edges@ == eprev.push(new_edges@[eprev.len() as int]));
                        assert(new_edges@[eprev.len() as int]@ == ev);
                        assert(edge_views(eprev).len() == eprev.len());
                        assert forall|i: int|
                            0 <= i < eprev.len() implies edge_views(new_edges@)[i] == edge_views(
                            eprev,
                        )[i] by {
                            assert(new_edges@[i] == eprev[i]);
                        }
                        assert(edge_views(new_edges@) =~= r_pre.1.push(ev));
                        assert(cb_rec(g0.nodes, g0.edges.take(k + 1), base).0 == r_pre.0);
                        assert(cb_rec(g0.nodes, g0.edges.take(k + 1), base).1 == r_pre.1.push(ev));
                    }
                },
            }
            k = k + 1;
        }
        self.edges = new_edges;
        proof {
            assert(g0.edges.take(g0.edges.len() as int) =~= g0.edges);
            assert(self@.nodes == spec_create_barriers(g0).nodes);
            assert(self@.edges == spec_create_barriers(g0).edges);
        }
    }
}

} // verus!
