//! The library's global guarantees, stated and proved over the
//! specifications of graph build and submission batching.
//!
//! Each lemma here is a public statement of record: cycles are rejected
//! and never silently dropped, merged barrier flags accumulate by a
//! commutative OR so pass insertion order cannot change them, conflicting
//! writes abort the build, and a source resource inherits the stage of its
//! name's last use for cross-frame synchronization.

use vstd::prelude::*;

use crate::pass::{spec_new_barrier, PassResourceView, PassView};
use crate::pass_graph::{
    barrier_at, barrier_dst_res, barrier_of, barrier_uid, conflict_pair, first_barrier_from,
    has_conflict, is_removed, lu_find, merged_node, pg_wf, rep_of, source_task, spec_add_pass,
    spec_assign_stage, spec_merge, spec_set_source_stages, PassGraphView,
};
use crate::resource::{
    spec_access, spec_is_read, spec_usage_eq, ACCESS_NONE, STAGE_COLOR_ATTACHMENT_OUTPUT,
    STAGE_NONE,
};
use crate::task_graph::{
    acyclic, barrier_needed, cb_rec, edge_in, in_edges_rec, is_path, latest_producer,
    new_task_edges, node_inputs, node_outputs, out_edges_rec, out_edges_to, producer_res, reaches,
    slot_consumes, slot_produces, spec_add_task, spec_create_barriers, EdgeView, NodeView,
    TaskGraphView,
};
use crate::Error;

verus! {

// ------------------------------------------------------------------------
// Cycle rejection.
// ------------------------------------------------------------------------

/// A matched input edge really occurs among the edges created for a task.
proof fn lemma_in_edges_contains(
    nodes: Seq<Option<NodeView>>,
    inputs: Seq<PassResourceView>,
    new: usize,
    i: int,
)
    requires
        0 <= i < inputs.len(),
        latest_producer(nodes, inputs[i].resource.uid()) is Some,
        0 <= latest_producer(nodes, inputs[i].resource.uid())->Some_0 <= usize::MAX,
    ensures
        edge_in(
            in_edges_rec(nodes, inputs, new),
            latest_producer(nodes, inputs[i].resource.uid())->Some_0 as usize,
            new,
        ),
    decreases inputs.len(),
{
    let r = in_edges_rec(nodes, inputs, new);
    let rest = in_edges_rec(nodes, inputs.drop_last(), new);
    if i == inputs.len() - 1 {
        assert(inputs.last() == inputs[i]);
        assert(r[rest.len() as int] == (EdgeView {
            src: latest_producer(nodes, inputs[i].resource.uid())->Some_0 as usize,
            dst: new,
            resource: inputs[i].resource,
        }));
    } else {
        assert(inputs.drop_last()[i] == inputs[i]);
        lemma_in_edges_contains(nodes, inputs.drop_last(), new, i);
        let k = choose|k: int|
            0 <= k < rest.len() && (#[trigger] rest[k]).src == latest_producer(
                nodes,
                inputs[i].resource.uid(),
            )->Some_0 as usize && rest[k].dst == new;
        assert(r[k] == rest[k]);
    }
}

/// A matched consumer edge really occurs among the edges created for one
/// output.
proof fn lemma_out_edges_to_contains(
    nodes: Seq<Option<NodeView>>,
    n: int,
    o: PassResourceView,
    new: usize,
    q: int,
)
    requires
        0 <= q < n <= nodes.len(),
        nodes.len() <= usize::MAX,
        slot_consumes(nodes[q], o.resource.uid()),
    ensures
        edge_in(out_edges_to(nodes, n, o, new), new, q as usize),
    decreases n,
{
    let r = out_edges_to(nodes, n, o, new);
    let rest = out_edges_to(nodes, n - 1, o, new);
    if q == n - 1 {
        assert(r[rest.len() as int] == (EdgeView { src: new, dst: q as usize, resource: o.resource }));
    } else {
        lemma_out_edges_to_contains(nodes, n - 1, o, new, q);
        let k = choose|k: int|
            0 <= k < rest.len() && (#[trigger] rest[k]).src == new && rest[k].dst == q as usize;
        if slot_consumes(nodes[n - 1], o.resource.uid()) {
            assert(r[k] == rest[k]);
        }
    }
}

/// A matched consumer edge survives into the full set of output edges.
proof fn lemma_out_edges_rec_contains(
    nodes: Seq<Option<NodeView>>,
    outputs: Seq<PassResourceView>,
    new: usize,
    w: int,
    q: int,
)
    requires
        0 <= w < outputs.len(),
        0 <= q < nodes.len(),
        nodes.len() <= usize::MAX,
        slot_consumes(nodes[q], outputs[w].resource.uid()),
    ensures
        edge_in(out_edges_rec(nodes, outputs, new), new, q as usize),
    decreases outputs.len(),
{
    let r = out_edges_rec(nodes, outputs, new);
    let rest = out_edges_rec(nodes, outputs.drop_last(), new);
    let tail = out_edges_to(nodes, nodes.len() as int, outputs.last(), new);
    if w == outputs.len() - 1 {
        assert(outputs.last() == outputs[w]);
        lemma_out_edges_to_contains(nodes, nodes.len() as int, outputs[w], new, q);
        let k = choose|k: int|
            0 <= k < tail.len() && (#[trigger] tail[k]).src == new && tail[k].dst == q as usize;
        assert(r[rest.len() + k] == tail[k]);
    } else {
        assert(outputs.drop_last()[w] == outputs[w]);
        lemma_out_edges_rec_contains(nodes, outputs.drop_last(), new, w, q);
        let k = choose|k: int|
            0 <= k < rest.len() && (#[trigger] rest[k]).src == new && rest[k].dst == q as usize;
        assert(r[k] == rest[k]);
    }
}

/// An edge of either part occurs in a concatenation.
proof fn lemma_edge_in_concat(a: Seq<EdgeView>, b: Seq<EdgeView>, x: usize, y: usize)
    requires
        edge_in(a, x, y) || edge_in(b, x, y),
    ensures
        edge_in(a + b, x, y),
{
    if edge_in(a, x, y) {
        let k = choose|k: int| 0 <= k < a.len() && (#[trigger] a[k]).src == x && a[k].dst == y;
        assert((a + b)[k] == a[k]);
    } else {
        let k = choose|k: int| 0 <= k < b.len() && (#[trigger] b[k]).src == x && b[k].dst == y;
        assert((a + b)[a.len() + k] == b[k]);
    }
}

/// Law: cyclic dependencies are rejected, never silently dropped. If pass
/// `a` was accepted and pass `b` reads one of `a`'s outputs while `a`
/// reads one of `b`'s outputs — the same resource versions, in the same
/// frame — then adding `b` fails with [`Error::CyclicDependency`].
pub proof fn lemma_cycle_rejected(
    pg: PassGraphView,
    a: PassView,
    b: PassView,
    oa: int,
    ib: int,
    ob: int,
    ia: int,
)
    requires
        pg_wf(pg),
        pg.graph.nodes.len() + 1 <= usize::MAX,
        spec_add_pass(pg, a) is Ok,
        // b reads what a writes
        0 <= oa < a.outputs.len(),
        0 <= ib < b.inputs.len(),
        a.outputs[oa].resource.uid() == b.inputs[ib].resource.uid(),
        // a reads what b writes
        0 <= ob < b.outputs.len(),
        0 <= ia < a.inputs.len(),
        b.outputs[ob].resource.uid() == a.inputs[ia].resource.uid(),
    ensures
        spec_add_pass(spec_add_pass(pg, a)->Ok_0, b) == Result::<PassGraphView, Error>::Err(
            Error::CyclicDependency,
        ),
{
    let pg1 = spec_add_pass(pg, a)->Ok_0;
    let na = pg.graph.nodes.len() as int;
    let node_a = crate::pass::spec_node_of_pass(a);
    // The accepted pass sits in the last slot.
    assert(pg1.graph.nodes.len() == na + 1);
    assert(pg1.graph.nodes[na] == Option::Some(NodeView::Task(node_a)));

    // Adding b first widens the source node (slot 0, distinct from a's
    // slot because the source always exists), then matches b's resources.
    let src1 = source_task(pg1);
    let src2 = crate::pass::PassNodeView {
        outputs: src1.outputs + crate::pass_graph::source_outputs_of(b.inputs),
        ..src1
    };
    let nodes3 = pg1.graph.nodes.update(0, Option::Some(NodeView::Task(src2)));
    let node_b = crate::pass::spec_node_of_pass(b);
    let nb = nodes3.len() as usize;
    assert(na >= 1);
    assert(nodes3[na] == Option::Some(NodeView::Task(node_a)));

    // b's input finds a as its most recent producer.
    let uid_in = b.inputs[ib].resource.uid();
    assert(nodes3.last() == nodes3[na]);
    assert(node_outputs(NodeView::Task(node_a))[oa].resource.uid() == uid_in);
    assert(slot_produces(nodes3[na], uid_in));
    assert(latest_producer(nodes3, uid_in) == Option::Some(na));
    lemma_in_edges_contains(nodes3, node_b.inputs, nb, ib);
    let in_part = in_edges_rec(nodes3, node_b.inputs, nb);
    assert(edge_in(in_part, na as usize, nb));

    // b's output finds a among its consumers.
    let uid_out = b.outputs[ob].resource.uid();
    assert(node_inputs(NodeView::Task(node_a))[ia].resource.uid() == uid_out);
    assert(slot_consumes(nodes3[na], uid_out));
    lemma_out_edges_rec_contains(nodes3, node_b.outputs, nb, ob, na);
    let out_part = out_edges_rec(nodes3, node_b.outputs, nb);
    assert(edge_in(out_part, nb, na as usize));

    // Together they close a cycle through b's slot.
    let g2 = TaskGraphView { nodes: nodes3, edges: pg1.graph.edges };
    let ne = g2.edges + new_task_edges(g2.nodes, node_b, nb);
    lemma_edge_in_concat(in_part, out_part, na as usize, nb);
    lemma_edge_in_concat(g2.edges, new_task_edges(g2.nodes, node_b, nb), na as usize, nb);
    lemma_edge_in_concat(in_part, out_part, nb, na as usize);
    lemma_edge_in_concat(g2.edges, new_task_edges(g2.nodes, node_b, nb), nb, na as usize);
    let p = seq![nb, na as usize, nb];
    assert(is_path(ne, p)) by {
        assert(p[0] == nb && p[1] == na as usize && p[2] == nb);
        assert(edge_in(ne, p[0], p[1]));
        assert(edge_in(ne, p[1], p[2]));
    }
    assert(p.first() == nb && p.last() == nb);
    assert(reaches(ne, nb, nb));
    assert(!acyclic(ne));
    assert(spec_add_task(g2, node_b) == Result::<TaskGraphView, Error>::Err(
        Error::CyclicDependency,
    ));
}

// ------------------------------------------------------------------------
// Merge commutativity and conflict rejection.
// ------------------------------------------------------------------------

/// Bitwise OR of stage and access masks is commutative, so the merged
/// destination flags of a barrier group cannot depend on the order in
/// which its members were added.
pub proof fn lemma_or_commutes(x: u64, y: u64)
    ensures
        x | y == y | x,
        0u64 | x == x,
{
    assert(x | y == y | x) by (bit_vector);
    assert(0u64 | x == x) by (bit_vector);
}

/// The accumulated flags of a group whose only members are `i` and `j`.
proof fn lemma_group_flags_two(g: TaskGraphView, u: (Seq<char>, u64), i: int, j: int, n: int)
    requires
        0 <= i < j,
        barrier_at(g.nodes, i),
        barrier_at(g.nodes, j),
        barrier_uid(g.nodes, i) == u,
        barrier_uid(g.nodes, j) == u,
        forall|q: int|
            #[trigger] barrier_at(g.nodes, q) && barrier_uid(g.nodes, q) == u ==> q == i || q
                == j,
        barrier_dst_res(g, i) is Some,
        barrier_dst_res(g, j) is Some,
    ensures
        ({
            let ci = barrier_dst_res(g, i)->Some_0;
            let cj = barrier_dst_res(g, j)->Some_0;
            crate::pass_graph::group_flags(g, u, n) == (if n <= i {
                (STAGE_NONE, ACCESS_NONE)
            } else if n <= j {
                (STAGE_NONE | ci.stage, ACCESS_NONE | spec_access(ci.usage))
            } else {
                (
                    (STAGE_NONE | ci.stage) | cj.stage,
                    (ACCESS_NONE | spec_access(ci.usage)) | spec_access(cj.usage),
                )
            })
        }),
    decreases n,
{
    if n > 0 {
        lemma_group_flags_two(g, u, i, j, n - 1);
        if barrier_at(g.nodes, n - 1) && barrier_uid(g.nodes, n - 1) == u {
            assert(n - 1 == i || n - 1 == j);
        }
    }
}

/// The first barrier of a group is its lowest-index member.
proof fn lemma_first_barrier_minimal(
    nodes: Seq<Option<NodeView>>,
    u: (Seq<char>, u64),
    j: int,
)
    requires
        0 <= j,
    ensures
        match first_barrier_from(nodes, u, j) {
            Option::Some(q) => j <= q < nodes.len() && barrier_at(nodes, q) && barrier_uid(
                nodes,
                q,
            ) == u && forall|p: int|
                j <= p < q ==> !(#[trigger] barrier_at(nodes, p) && barrier_uid(nodes, p) == u),
            Option::None => forall|p: int|
                j <= p < nodes.len() ==> !(#[trigger] barrier_at(nodes, p) && barrier_uid(
                    nodes,
                    p,
                ) == u),
        },
    decreases nodes.len() - j,
{
    if 0 <= j < nodes.len() && !(barrier_at(nodes, j) && barrier_uid(nodes, j) == u) {
        lemma_first_barrier_minimal(nodes, u, j + 1);
    }
}

/// Law: merge correctness for a pair of compatible consumers. If exactly
/// the barriers `i` and `j` guard a resource and the whole graph holds no
/// conflicting writes, the merge keeps exactly one barrier for that
/// resource — the representative `i` — and its destination stage and
/// access are the bitwise OR of both consumers' stages and accesses. OR
/// commutes, so swapping the two consumers (adding their passes in the
/// other order) yields the same flags.
pub proof fn lemma_merge_two_consumers(g: TaskGraphView, i: int, j: int)
    requires
        crate::pass_graph::merge_pre(g),
        !has_conflict(g),
        0 <= i < j,
        barrier_at(g.nodes, i),
        barrier_at(g.nodes, j),
        barrier_uid(g.nodes, i) == barrier_uid(g.nodes, j),
        forall|q: int|
            #[trigger] barrier_at(g.nodes, q) && barrier_uid(g.nodes, q) == barrier_uid(
                g.nodes,
                i,
            ) ==> q == i || q == j,
    ensures
        spec_merge(g) is Ok,
        ({
            let u = barrier_uid(g.nodes, i);
            let ci = barrier_dst_res(g, i)->Some_0;
            let cj = barrier_dst_res(g, j)->Some_0;
            let gv = spec_merge(g)->Ok_0;
            &&& barrier_at(gv.nodes, i)
            &&& gv.nodes[j] is None
            &&& forall|q: int|
                #[trigger] barrier_at(gv.nodes, q) && barrier_uid(gv.nodes, q) == u ==> q == i
            &&& barrier_of(gv.nodes, i).dst_stage == ci.stage | cj.stage
            &&& barrier_of(gv.nodes, i).dst_stage == cj.stage | ci.stage
            &&& barrier_of(gv.nodes, i).dst_access == spec_access(ci.usage) | spec_access(
                cj.usage,
            )
            &&& barrier_of(gv.nodes, i).dst_access == spec_access(cj.usage) | spec_access(
                ci.usage,
            )
        }),
{
    let u = barrier_uid(g.nodes, i);
    let ci = barrier_dst_res(g, i)->Some_0;
    let cj = barrier_dst_res(g, j)->Some_0;
    let gv = spec_merge(g)->Ok_0;
    let n = g.nodes.len() as int;

    lemma_first_barrier_minimal(g.nodes, u, 0);
    match rep_of(g.nodes, u) {
        Option::Some(q0) => {
            assert(q0 == i || q0 == j);
            if q0 == j {
                assert(!(barrier_at(g.nodes, i) && barrier_uid(g.nodes, i) == u));
                assert(false);
            }
            assert(q0 == i);
        },
        Option::None => {
            assert(!(barrier_at(g.nodes, i) && barrier_uid(g.nodes, i) == u));
            assert(false);
        },
    }
    assert(rep_of(g.nodes, u) == Option::Some(i));
    assert(!is_removed(g.nodes, i));
    assert(is_removed(g.nodes, j));
    assert(gv.nodes[i] == merged_node(g, i));
    assert(gv.nodes[j] == merged_node(g, j));
    lemma_group_flags_two(g, u, i, j, n);
    let fl = crate::pass_graph::group_flags(g, u, n);
    assert(fl.0 == (STAGE_NONE | ci.stage) | cj.stage);
    lemma_or_commutes(ci.stage, cj.stage);
    lemma_or_commutes(cj.stage, ci.stage);
    lemma_or_commutes(spec_access(ci.usage), spec_access(cj.usage));
    lemma_or_commutes(spec_access(cj.usage), spec_access(ci.usage));
    assert(fl.0 == ci.stage | cj.stage);
    assert(fl.1 == spec_access(ci.usage) | spec_access(cj.usage));
    assert(barrier_at(gv.nodes, i));
    assert forall|q: int|
        #[trigger] barrier_at(gv.nodes, q) && barrier_uid(gv.nodes, q) == u implies q == i by {
        assert(gv.nodes[q] == merged_node(g, q));
        assert(barrier_at(g.nodes, q));
        assert(barrier_uid(g.nodes, q) == u);
        assert(q == i || q == j);
        if q == j {
            assert(gv.nodes[j] is None);
            assert(false);
        }
    }
}

/// Law: merge conflict rejection. Two barriers guarding the same resource
/// whose consumers both write, with different usages, make the build fail
/// with [`Error::IllegalTaskGraph`].
pub proof fn lemma_merge_conflict_rejected(g: TaskGraphView, i: int, j: int)
    requires
        i < j,
        barrier_at(g.nodes, i),
        barrier_at(g.nodes, j),
        barrier_uid(g.nodes, i) == barrier_uid(g.nodes, j),
        barrier_dst_res(g, i) is Some,
        barrier_dst_res(g, j) is Some,
        !spec_is_read(barrier_dst_res(g, i)->Some_0.usage),
        !spec_is_read(barrier_dst_res(g, j)->Some_0.usage),
        !spec_usage_eq(
            barrier_dst_res(g, i)->Some_0.usage,
            barrier_dst_res(g, j)->Some_0.usage,
        ),
    ensures
        spec_merge(g) == Result::<TaskGraphView, Error>::Err(Error::IllegalTaskGraph),
{
    assert(conflict_pair(g, i, j));
    assert(has_conflict(g));
}

// ------------------------------------------------------------------------
// Cross-frame stage assignment.
// ------------------------------------------------------------------------

/// Law: source stage from last usage. A source output whose resource is
/// not the designated swapchain resource receives, at build time, the
/// stage recorded for its name's last use anywhere in the graph — this
/// frame's first use of the resource waits for the previous frame's last
/// one.
pub proof fn lemma_source_stage_from_last_usage(pg: PassGraphView, k: int)
    requires
        pg_wf(pg),
        0 <= k < source_task(pg).outputs.len(),
        match pg.swapchain {
            Option::Some(sc) => source_task(pg).outputs[k].resource.name != sc.name,
            Option::None => true,
        },
    ensures
        ({
            let o = source_task(pg).outputs[k];
            let li = lu_find(pg.last_usages, o.resource.name)->Some_0;
            &&& lu_find(pg.last_usages, o.resource.name) is Some
            &&& source_task(spec_set_source_stages(pg)).outputs[k] == (PassResourceView {
                stage: pg.last_usages[li].stage,
                ..o
            })
        }),
{
    let o = source_task(pg).outputs[k];
    let pg1 = spec_set_source_stages(pg);
    assert(source_task(pg1).outputs[k] == spec_assign_stage(pg, o));
}

/// Law: the designated swapchain resource's source output is forced to
/// the color-attachment-output stage, modeling the implicit
/// acquire-to-render handoff.
pub proof fn lemma_source_stage_swapchain(pg: PassGraphView, k: int)
    requires
        pg_wf(pg),
        0 <= k < source_task(pg).outputs.len(),
        pg.swapchain is Some,
        source_task(pg).outputs[k].resource.name == pg.swapchain->0.name,
    ensures
        ({
            let o = source_task(pg).outputs[k];
            source_task(spec_set_source_stages(pg)).outputs[k] == (PassResourceView {
                stage: STAGE_COLOR_ATTACHMENT_OUTPUT,
                ..o
            })
        }),
{
    let o = source_task(pg).outputs[k];
    let pg1 = spec_set_source_stages(pg);
    assert(source_task(pg1).outputs[k] == spec_assign_stage(pg, o));
}

// ------------------------------------------------------------------------
// Barrier completeness.
// ------------------------------------------------------------------------

/// How many of the edges need a barrier.
pub open spec fn count_differing(nodes: Seq<Option<NodeView>>, edges: Seq<EdgeView>) -> int
    decreases edges.len(),
{
    if edges.len() == 0 {
        0
    } else {
        count_differing(nodes, edges.drop_last()) + if barrier_needed(nodes, edges.last()) {
            1int
        } else {
            0int
        }
    }
}

/// The count is bounded by the number of edges.
proof fn lemma_count_differing_bounds(nodes: Seq<Option<NodeView>>, edges: Seq<EdgeView>)
    ensures
        0 <= count_differing(nodes, edges) <= edges.len(),
    decreases edges.len(),
{
    if edges.len() > 0 {
        lemma_count_differing_bounds(nodes, edges.drop_last());
    }
}

/// Counting over a longer prefix never shrinks.
proof fn lemma_count_differing_mono(nodes: Seq<Option<NodeView>>, edges: Seq<EdgeView>, k1: int, k2: int)
    requires
        0 <= k1 <= k2 <= edges.len(),
    ensures
        count_differing(nodes, edges.take(k1)) <= count_differing(nodes, edges.take(k2)),
    decreases k2 - k1,
{
    if k1 < k2 {
        lemma_count_differing_mono(nodes, edges, k1, k2 - 1);
        assert(edges.take(k2).drop_last() =~= edges.take(k2 - 1));
    }
}

/// Counting one more edge adds one exactly when it needs a barrier.
proof fn lemma_count_differing_step(nodes: Seq<Option<NodeView>>, edges: Seq<EdgeView>, k: int)
    requires
        0 <= k < edges.len(),
    ensures
        count_differing(nodes, edges.take(k + 1)) == count_differing(nodes, edges.take(k)) + (
        if barrier_needed(nodes, edges[k]) {
            1int
        } else {
            0int
        }),
{
    assert(edges.take(k + 1).drop_last() =~= edges.take(k));
    assert(edges.take(k + 1).last() == edges[k]);
}

/// Barrier creation makes one barrier per differing edge.
proof fn lemma_cb_count(nodes0: Seq<Option<NodeView>>, edges: Seq<EdgeView>, base: int)
    ensures
        cb_rec(nodes0, edges, base).0.len() == count_differing(nodes0, edges),
    decreases edges.len(),
{
    if edges.len() > 0 {
        lemma_cb_count(nodes0, edges.drop_last(), base);
    }
}

/// A differing edge gets the barrier slot numbered by the differing edges
/// before it, together with its two replacement edges.
proof fn lemma_cb_structure_at(nodes0: Seq<Option<NodeView>>, edges: Seq<EdgeView>, base: int, k: int)
    requires
        base == nodes0.len(),
        nodes0.len() + edges.len() <= usize::MAX,
        0 <= k < edges.len(),
        barrier_needed(nodes0, edges[k]),
    ensures
        ({
            let r = cb_rec(nodes0, edges, base);
            let m = count_differing(nodes0, edges.take(k));
            &&& 0 <= m < r.0.len()
            &&& r.0[m] == Option::Some(
                NodeView::Barrier(spec_new_barrier(producer_res(nodes0, edges[k])->Some_0)),
            )
            &&& edge_in(r.1, edges[k].src, (base + m) as usize)
            &&& edge_in(r.1, (base + m) as usize, edges[k].dst)
        }),
    decreases edges.len(),
{
    let r = cb_rec(nodes0, edges, base);
    let rp = cb_rec(nodes0, edges.drop_last(), base);
    let e = edges.last();
    let m = count_differing(nodes0, edges.take(k));
    lemma_cb_count(nodes0, edges, base);
    lemma_cb_count(nodes0, edges.drop_last(), base);
    lemma_count_differing_bounds(nodes0, edges.take(k));
    if k == edges.len() - 1 {
        assert(edges.take(k) =~= edges.drop_last());
        assert(m == rp.0.len());
        assert(r.0[m] == Option::Some(
            NodeView::Barrier(spec_new_barrier(producer_res(nodes0, e)->Some_0)),
        ));
        assert(r.1[rp.1.len() as int] == (EdgeView {
            src: e.src,
            dst: (base + m) as usize,
            resource: e.resource,
        }));
        assert(r.1[rp.1.len() as int + 1] == (EdgeView {
            src: (base + m) as usize,
            dst: e.dst,
            resource: e.resource,
        }));
    } else {
        assert(edges.drop_last()[k] == edges[k]);
        assert(edges.drop_last().take(k) =~= edges.take(k));
        lemma_cb_structure_at(nodes0, edges.drop_last(), base, k);
        assert(m < rp.0.len());
        if barrier_needed(nodes0, e) {
            assert(r.0[m] == rp.0[m]);
        } else {
            assert(r.0 == rp.0);
        }
        let k1 = choose|k1: int|
            0 <= k1 < rp.1.len() && (#[trigger] rp.1[k1]).src == edges[k].src && rp.1[k1].dst == (
            base + m) as usize;
        assert(r.1[k1] == rp.1[k1]);
        let k2 = choose|k2: int|
            0 <= k2 < rp.1.len() && (#[trigger] rp.1[k2]).src == (base + m) as usize
                && rp.1[k2].dst == edges[k].dst;
        assert(r.1[k2] == rp.1[k2]);
    }
}

/// An edge whose endpoint declarations agree is kept unchanged.
proof fn lemma_cb_keeps_at(nodes0: Seq<Option<NodeView>>, edges: Seq<EdgeView>, base: int, k: int)
    requires
        0 <= k < edges.len(),
        !barrier_needed(nodes0, edges[k]),
    ensures
        cb_rec(nodes0, edges, base).1.contains(edges[k]),
    decreases edges.len(),
{
    let r = cb_rec(nodes0, edges, base);
    let rp = cb_rec(nodes0, edges.drop_last(), base);
    if k == edges.len() - 1 {
        assert(r.1[rp.1.len() as int] == edges[k]);
    } else {
        assert(edges.drop_last()[k] == edges[k]);
        lemma_cb_keeps_at(nodes0, edges.drop_last(), base, k);
        let k1 = choose|k1: int| 0 <= k1 < rp.1.len() && rp.1[k1] == edges[k];
        assert(r.1[k1] == rp.1[k1]);
    }
}

/// Law: barrier completeness. After barrier creation, every
/// producer/consumer edge whose endpoint declarations differ in access,
/// stage or layout passes through its own barrier — the barrier count
/// equals the count of differing edges, each differing edge has a barrier
/// with its two replacement edges, distinct differing edges get distinct
/// barriers — and every edge with identical endpoint state is kept as it
/// was, with no barrier inserted for it.
pub proof fn lemma_barrier_completeness(g: TaskGraphView)
    requires
        g.nodes.len() + g.edges.len() <= usize::MAX,
    ensures
        ({
            let gv = spec_create_barriers(g);
            &&& gv.nodes.len() == g.nodes.len() + count_differing(g.nodes, g.edges)
            &&& forall|k: int|
                0 <= k < g.edges.len() && barrier_needed(g.nodes, #[trigger] g.edges[k]) ==> {
                    let b = g.nodes.len() + count_differing(g.nodes, g.edges.take(k));
                    &&& barrier_at(gv.nodes, b)
                    &&& barrier_of(gv.nodes, b) == spec_new_barrier(
                        producer_res(g.nodes, g.edges[k])->Some_0,
                    )
                    &&& edge_in(gv.edges, g.edges[k].src, b as usize)
                    &&& edge_in(gv.edges, b as usize, g.edges[k].dst)
                }
            &&& forall|k: int|
                0 <= k < g.edges.len() && !barrier_needed(g.nodes, #[trigger] g.edges[k])
                    ==> gv.edges.contains(g.edges[k])
            &&& forall|k1: int, k2: int|
                0 <= k1 < k2 < g.edges.len() && barrier_needed(g.nodes, #[trigger] g.edges[k1])
                    && barrier_needed(g.nodes, #[trigger] g.edges[k2]) ==> count_differing(
                    g.nodes,
                    g.edges.take(k1),
                ) != count_differing(g.nodes, g.edges.take(k2))
        }),
{
    let base = g.nodes.len() as int;
    lemma_cb_count(g.nodes, g.edges, base);
    let r = cb_rec(g.nodes, g.edges, base);
    let gv = spec_create_barriers(g);
    assert(gv.nodes.len() == g.nodes.len() + r.0.len());
    assert forall|k: int|
        0 <= k < g.edges.len() && barrier_needed(g.nodes, #[trigger] g.edges[k]) implies {
        let b = g.nodes.len() + count_differing(g.nodes, g.edges.take(k));
        &&& barrier_at(gv.nodes, b)
        &&& barrier_of(gv.nodes, b) == spec_new_barrier(
            producer_res(g.nodes, g.edges[k])->Some_0,
        )
        &&& edge_in(gv.edges, g.edges[k].src, b as usize)
        &&& edge_in(gv.edges, b as usize, g.edges[k].dst)
    } by {
        lemma_cb_structure_at(g.nodes, g.edges, base, k);
        let m = count_differing(g.nodes, g.edges.take(k));
        assert(gv.nodes[base + m] == r.0[m]);
    }
    assert forall|k: int|
        0 <= k < g.edges.len() && !barrier_needed(g.nodes, #[trigger] g.edges[k]) implies gv.edges.contains(
        g.edges[k],
    ) by {
        lemma_cb_keeps_at(g.nodes, g.edges, base, k);
    }
    assert forall|k1: int, k2: int|
        0 <= k1 < k2 < g.edges.len() && barrier_needed(g.nodes, #[trigger] g.edges[k1])
            && barrier_needed(g.nodes, #[trigger] g.edges[k2]) implies count_differing(
        g.nodes,
        g.edges.take(k1),
    ) != count_differing(g.nodes, g.edges.take(k2)) by {
        lemma_count_differing_step(g.nodes, g.edges, k1);
        lemma_count_differing_mono(g.nodes, g.edges, k1 + 1, k2);
    }
}

// ------------------------------------------------------------------------
// Built graphs resolve their barriers.
// ------------------------------------------------------------------------

/// Law: in a successfully built graph, every remaining barrier's consumer
/// can be looked up — its first outgoing edge reaches a task that holds
/// an input with the barrier's resource identity. The recording layer may
/// rely on this lookup never failing.
pub proof fn lemma_build_resolves_barriers(pg: PassGraphView)
    requires
        pg_wf(pg),
        pg.graph.nodes.len() + pg.graph.edges.len() <= usize::MAX,
    ensures
        match crate::pass_graph::spec_build(pg) {
            Result::Ok(pgv) => forall|i: int|
                #[trigger] barrier_at(pgv.graph.nodes, i) ==> barrier_dst_res(
                    pgv.graph,
                    i,
                ) is Some,
            Result::Err(_) => true,
        },
{
    let pg1 = spec_set_source_stages(pg);
    crate::pass_graph::lemma_set_source_stages_wf(pg);
    crate::pass_graph::lemma_create_barriers_merge_pre(pg1.graph);
    let g2 = spec_create_barriers(pg1.graph);
    lemma_cb_count(pg1.graph.nodes, pg1.graph.edges, pg1.graph.nodes.len() as int);
    lemma_count_differing_bounds(pg1.graph.nodes, pg1.graph.edges);
    assert(g2.nodes.len() <= pg.graph.nodes.len() + pg.graph.edges.len());
    match crate::pass_graph::spec_merge(g2) {
        Result::Ok(gv) => {
            crate::pass_graph::lemma_merge_resolves_barriers(g2);
        },
        Result::Err(_) => {},
    }
}

} // verus!
