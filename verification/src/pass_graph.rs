//! The pass graph: the domain specialization of the task graph for GPU
//! passes.
//!
//! A pass graph starts with one synthetic *source* task (node 0, never
//! removed) that produces every resource whose prior state comes from
//! outside the graph — the previous frame, or the caller. Adding a pass
//! registers source outputs for its version-0 inputs, records per-name
//! last-usage information, and inserts the pass as a task node.
//! [`PassGraph::build`] assigns cross-frame stages to the source outputs,
//! synthesizes barrier nodes, merges barriers that guard the same resource,
//! and yields an immutable [`BuiltPassGraph`].

use vstd::prelude::*;

use crate::pass::{
    clone_resources, res_views, spec_new_barrier, spec_node_of_pass, Pass, PassNode, PassNodeView,
    PassResource, PassResourceBarrier, PassResourceBarrierView, PassResourceView, PassView,
};
use crate::resource::{
    spec_access, spec_is_read, spec_usage_eq, ResourceUsage, ResourceUsageView, VirtualResource,
    VirtualResourceView, ACCESS_NONE, LAYOUT_UNDEFINED, STAGE_COLOR_ATTACHMENT_OUTPUT, STAGE_NONE,
};
use crate::task_graph::{
    acyclic, barrier_needed, cb_rec, edge_endpoints_ok, edge_in, edge_views, edges_wf,
    find_first_res, graph_wf, in_edges_rec, is_path, new_task_edges, node_inputs, node_outputs,
    node_views, out_edges_rec, producer_res, reaches, slot_consumes, slot_produces, slot_view,
    spec_add_task, spec_create_barriers, Edge, EdgeView, Node, NodeView, TaskGraph, TaskGraphView,
};
use crate::Error;
use vstd::pervasive::unreached;

verus! {

// ------------------------------------------------------------------------
// The per-name last-usage table.
// ------------------------------------------------------------------------

/// One entry of the last-usage table: the highest version of a resource
/// name seen so far, together with the pipeline stage of that use.
#[derive(Debug)]
pub struct LastUsage {
    /// Resource name.
    pub name: String,
    /// Highest version seen.
    pub version: u64,
    /// Stage of the use that set `version`.
    pub stage: u64,
}

/// Abstract value of a [`LastUsage`].
pub ghost struct LastUsageView {
    /// Resource name.
    pub name: Seq<char>,
    /// Highest version seen.
    pub version: u64,
    /// Stage of the use that set `version`.
    pub stage: u64,
}

impl View for LastUsage {
    type V = LastUsageView;

    open spec fn view(&self) -> LastUsageView {
        LastUsageView { name: self.name@, version: self.version, stage: self.stage }
    }
}

/// The abstract values of the last-usage table.
pub open spec fn lu_views(s: Seq<LastUsage>) -> Seq<LastUsageView> {
    s.map_values(|e: LastUsage| e@)
}

/// The first entry index at or after `i` whose name is `n`.
pub open spec fn lu_find_from(lu: Seq<LastUsageView>, n: Seq<char>, i: int) -> Option<int>
    decreases lu.len() - i,
{
    if i < 0 || i >= lu.len() {
        Option::None
    } else if lu[i].name == n {
        Option::Some(i)
    } else {
        lu_find_from(lu, n, i + 1)
    }
}

/// The entry index for name `n`, if the table has one.
pub open spec fn lu_find(lu: Seq<LastUsageView>, n: Seq<char>) -> Option<int> {
    lu_find_from(lu, n, 0)
}

/// One last-writer-wins update: a strictly larger version replaces the
/// entry, a new name is appended, anything else leaves the table unchanged.
pub open spec fn spec_update_last_usage(
    lu: Seq<LastUsageView>,
    r: VirtualResourceView,
    stage: u64,
) -> Seq<LastUsageView> {
    match lu_find(lu, r.name) {
        Option::Some(i) => if r.version > lu[i].version {
            lu.update(i, LastUsageView { name: r.name, version: r.version, stage })
        } else {
            lu
        },
        Option::None => lu.push(LastUsageView { name: r.name, version: r.version, stage }),
    }
}

/// The table after recording every resource of `rs` in order.
pub open spec fn lu_update_all(
    lu: Seq<LastUsageView>,
    rs: Seq<PassResourceView>,
) -> Seq<LastUsageView>
    decreases rs.len(),
{
    if rs.len() == 0 {
        lu
    } else {
        spec_update_last_usage(
            lu_update_all(lu, rs.drop_last()),
            rs.last().resource,
            rs.last().stage,
        )
    }
}

/// No two entries share a name.
pub open spec fn lu_distinct(lu: Seq<LastUsageView>) -> bool {
    forall|i: int, j: int| 0 <= i < j < lu.len() ==> lu[i].name != lu[j].name
}

/// What a found index means, and what `None` rules out.
proof fn lemma_lu_find_from_props(lu: Seq<LastUsageView>, n: Seq<char>, i: int)
    requires
        0 <= i,
    ensures
        match lu_find_from(lu, n, i) {
            Option::Some(j) => i <= j < lu.len() && lu[j].name == n,
            Option::None => forall|k: int| i <= k < lu.len() ==> (#[trigger] lu[k]).name != n,
        },
    decreases lu.len() - i,
{
    if 0 <= i < lu.len() && lu[i].name != n {
        lemma_lu_find_from_props(lu, n, i + 1);
    }
}

/// Tables with pointwise-equal names are searched identically.
proof fn lemma_lu_find_from_names_eq(
    a: Seq<LastUsageView>,
    b: Seq<LastUsageView>,
    n: Seq<char>,
    i: int,
)
    requires
        a.len() == b.len(),
        forall|k: int| 0 <= k < a.len() ==> (#[trigger] a[k]).name == b[k].name,
    ensures
        lu_find_from(a, n, i) == lu_find_from(b, n, i),
    decreases a.len() - i,
{
    if 0 <= i < a.len() && a[i].name != n {
        lemma_lu_find_from_names_eq(a, b, n, i + 1);
    }
}

/// Searching an extended table: an existing hit wins, otherwise the new
/// entry is found exactly when its name matches.
proof fn lemma_lu_find_from_push(lu: Seq<LastUsageView>, x: LastUsageView, n: Seq<char>, i: int)
    requires
        0 <= i <= lu.len(),
    ensures
        lu_find_from(lu.push(x), n, i) == (match lu_find_from(lu, n, i) {
            Option::Some(j) => Option::Some(j),
            Option::None => if x.name == n {
                Option::Some(lu.len() as int)
            } else {
                Option::None
            },
        }),
    decreases lu.len() - i,
{
    let p = lu.push(x);
    if i == lu.len() {
        assert(p[i] == x);
    } else {
        assert(p[i] == lu[i]);
        if lu[i].name != n {
            lemma_lu_find_from_push(lu, x, n, i + 1);
        }
    }
}

/// One update keeps names distinct, records `r`'s name, and loses no name.
proof fn lemma_lu_update_props(lu: Seq<LastUsageView>, r: VirtualResourceView, stage: u64)
    requires
        lu_distinct(lu),
    ensures
        lu_distinct(spec_update_last_usage(lu, r, stage)),
        lu_find(spec_update_last_usage(lu, r, stage), r.name) is Some,
        forall|n: Seq<char>|
            #[trigger] lu_find(lu, n) is Some ==> lu_find(
                spec_update_last_usage(lu, r, stage),
                n,
            ) is Some,
{
    let res = spec_update_last_usage(lu, r, stage);
    lemma_lu_find_from_props(lu, r.name, 0);
    match lu_find(lu, r.name) {
        Option::Some(i) => {
            if r.version > lu[i].version {
                let e = LastUsageView { name: r.name, version: r.version, stage };
                assert(lu[i].name == r.name);
                assert forall|k: int| 0 <= k < lu.len() implies (#[trigger] res[k]).name
                    == lu[k].name by {}
                assert forall|n: Seq<char>| #[trigger] lu_find(lu, n) is Some implies lu_find(
                    res,
                    n,
                ) is Some by {
                    lemma_lu_find_from_names_eq(lu, res, n, 0);
                }
                lemma_lu_find_from_names_eq(lu, res, r.name, 0);
            }
        },
        Option::None => {
            let e = LastUsageView { name: r.name, version: r.version, stage };
            lemma_lu_find_from_push(lu, e, r.name, 0);
            assert forall|n: Seq<char>| #[trigger] lu_find(lu, n) is Some implies lu_find(
                res,
                n,
            ) is Some by {
                lemma_lu_find_from_push(lu, e, n, 0);
            }
            assert forall|i: int, j: int| 0 <= i < j < res.len() implies res[i].name
                != res[j].name by {
                if j == lu.len() as int {
                    assert(res[i] == lu[i]);
                }
            }
        },
    }
}

/// Recording a whole resource list keeps names distinct, loses no name,
/// and records every listed name.
proof fn lemma_lu_update_all_props(lu: Seq<LastUsageView>, rs: Seq<PassResourceView>)
    requires
        lu_distinct(lu),
    ensures
        lu_distinct(lu_update_all(lu, rs)),
        forall|n: Seq<char>|
            #[trigger] lu_find(lu, n) is Some ==> lu_find(lu_update_all(lu, rs), n) is Some,
        forall|k: int|
            0 <= k < rs.len() ==> lu_find(
                lu_update_all(lu, rs),
                (#[trigger] rs[k]).resource.name,
            ) is Some,
    decreases rs.len(),
{
    if rs.len() > 0 {
        lemma_lu_update_all_props(lu, rs.drop_last());
        let mid = lu_update_all(lu, rs.drop_last());
        lemma_lu_update_props(mid, rs.last().resource, rs.last().stage);
        let res = lu_update_all(lu, rs);
        assert forall|k: int| 0 <= k < rs.len() implies lu_find(
            res,
            (#[trigger] rs[k]).resource.name,
        ) is Some by {
            if k < rs.len() - 1 {
                assert(rs.drop_last()[k] == rs[k]);
                assert(lu_find(mid, rs[k].resource.name) is Some);
            }
        }
    }
}

/// Record one use of a resource: a strictly larger version replaces the
/// entry for its name (last writer wins); a new name is appended.
fn update_last_usage(lu: &mut Vec<LastUsage>, resource: &VirtualResource, stage: u64)
    ensures
        lu_views(final(lu)@) == spec_update_last_usage(lu_views(old(lu)@), resource@, stage),
{
    let ghost lv = lu_views(lu@);
    let mut i: usize = 0;
    while i < lu.len()
        invariant
            lu@ == old(lu)@,
            lv == lu_views(lu@),
            i <= lu@.len(),
            lu_find(lv, resource@.name) == lu_find_from(lv, resource@.name, i as int),
        decreases lu@.len() - i,
    {
        if lu[i].name == resource.name {
            proof {
                assert(lv[i as int] == lu@[i as int]@);
                assert(lv[i as int].name == resource@.name);
                assert(lu_find(lv, resource@.name) == Option::Some(i as int));
            }
            if resource.version > lu[i].version {
                let ghost prev = lu@;
                lu.set(
                    i,
                    LastUsage {
                        name: resource.name.clone(),
                        version: resource.version,
                        stage,
                    },
                );
                proof {
                    let e = LastUsageView {
                        name: resource@.name,
                        version: resource@.version,
                        stage,
                    };
                    assert(lu@[i as int]@ == e);
                    assert forall|k: int|
                        0 <= k < lu@.len() implies lu_views(lu@)[k] == lv.update(i as int, e)[k] by {
                        if k != i as int {
                            assert(lu@[k] == prev[k]);
                        }
                    }
                    assert(lu_views(lu@) =~= lv.update(i as int, e));
                }
            }
            return ;
        }
        proof {
            assert(lv[i as int].name != resource@.name);
        }
        i = i + 1;
    }
    proof {
        assert(lu_find(lv, resource@.name) is None);
    }
    lu.push(LastUsage { name: resource.name.clone(), version: resource.version, stage });
    proof {
        let e = LastUsageView { name: resource@.name, version: resource@.version, stage };
        assert(lu_views(lu@) =~= lv.push(e));
    }
}

// ------------------------------------------------------------------------
// The pass graph.
// ------------------------------------------------------------------------

/// Pass graph, used for synchronizing resources over a single queue.
#[derive(Debug)]
pub struct PassGraph {
    /// The underlying task/barrier graph.
    pub graph: TaskGraph,
    /// Index of the synthetic source node. Always 0: node removal later in
    /// the build never touches the first slot.
    pub source: usize,
    /// The designated swapchain resource, if rendering to a swapchain.
    pub swapchain: Option<VirtualResource>,
    /// Per-name last-usage table, for cross-frame stage assignment.
    pub last_usages: Vec<LastUsage>,
}

/// Abstract value of a [`PassGraph`].
pub ghost struct PassGraphView {
    /// The underlying task/barrier graph.
    pub graph: TaskGraphView,
    /// Index of the synthetic source node.
    pub source: usize,
    /// The designated swapchain resource, if any.
    pub swapchain: Option<VirtualResourceView>,
    /// Per-name last-usage table.
    pub last_usages: Seq<LastUsageView>,
}

impl View for PassGraph {
    type V = PassGraphView;

    open spec fn view(&self) -> PassGraphView {
        PassGraphView {
            graph: self.graph@,
            source: self.source,
            swapchain: match self.swapchain {
                Option::Some(sc) => Option::Some(sc@),
                Option::None => Option::None,
            },
            last_usages: lu_views(self.last_usages@),
        }
    }
}

/// Every arena slot holds a live task (true until barriers are created).
pub open spec fn all_tasks(nodes: Seq<Option<NodeView>>) -> bool {
    forall|i: int|
        0 <= i < nodes.len() ==> (#[trigger] nodes[i]) matches Option::Some(NodeView::Task(_))
}

/// The synthetic source task of a pass graph.
pub open spec fn source_task(pg: PassGraphView) -> PassNodeView {
    pg.graph.nodes[0]->Some_0->Task_0
}

/// The pass graph invariant while passes are being added: a well-formed
/// graph of tasks whose first node is the input-free source task, and a
/// duplicate-free last-usage table covering every source output.
pub open spec fn pg_wf(pg: PassGraphView) -> bool {
    &&& graph_wf(pg.graph)
    &&& pg.source == 0
    &&& pg.graph.nodes.len() >= 1
    &&& all_tasks(pg.graph.nodes)
    &&& pg.graph.nodes[0] matches Option::Some(NodeView::Task(t)) && t.inputs.len() == 0
    &&& lu_distinct(pg.last_usages)
    &&& forall|k: int|
        0 <= k < source_task(pg).outputs.len() ==> lu_find(
            pg.last_usages,
            (#[trigger] source_task(pg).outputs[k]).resource.name,
        ) is Some
}

/// The source output registered for a version-0 input: prior state supplied
/// from outside the graph, usage `Nothing`, stage still unassigned, layout
/// undefined.
pub open spec fn source_output_for(r: VirtualResourceView) -> PassResourceView {
    PassResourceView {
        usage: ResourceUsageView::Nothing,
        resource: r,
        stage: STAGE_NONE,
        layout: LAYOUT_UNDEFINED,
        clear_value: Option::None,
        load_op: Option::None,
    }
}

/// The source outputs a pass's inputs give rise to: one per version-0
/// input, in declaration order.
pub open spec fn source_outputs_of(inputs: Seq<PassResourceView>) -> Seq<PassResourceView>
    decreases inputs.len(),
{
    if inputs.len() == 0 {
        Seq::empty()
    } else {
        let rest = source_outputs_of(inputs.drop_last());
        if inputs.last().resource.version == 0 {
            rest.push(source_output_for(inputs.last().resource))
        } else {
            rest
        }
    }
}

/// What [`PassGraph::add_pass`] does: register source outputs for the
/// pass's version-0 inputs, record last usage of every input and output,
/// then insert the pass as a task node.
pub open spec fn spec_add_pass(pg: PassGraphView, p: PassView) -> Result<PassGraphView, Error> {
    let src = source_task(pg);
    let src2 = PassNodeView { outputs: src.outputs + source_outputs_of(p.inputs), ..src };
    let g2 = TaskGraphView {
        nodes: pg.graph.nodes.update(0, Option::Some(NodeView::Task(src2))),
        edges: pg.graph.edges,
    };
    let lu2 = lu_update_all(lu_update_all(pg.last_usages, p.inputs), p.outputs);
    match spec_add_task(g2, spec_node_of_pass(p)) {
        Result::Ok(g3) => Result::Ok(
            PassGraphView { graph: g3, source: pg.source, swapchain: pg.swapchain, last_usages: lu2 },
        ),
        Result::Err(e) => Result::Err(e),
    }
}

impl PassGraph {
    /// Create a new pass graph. If rendering to a swapchain, give the
    /// virtual resource that will stand for it: its source output is forced
    /// to the color-attachment-output stage at build time, modeling the
    /// implicit acquire-to-render handoff.
    pub fn new(swapchain: Option<&VirtualResource>) -> (r: Self)
        ensures
            pg_wf(r@),
            r@.source == 0,
            r@.graph.nodes.len() == 1,
            r@.graph.nodes[0] == Option::Some(
                NodeView::Task(
                    PassNodeView {
                        identifier: "_source"@,
                        inputs: Seq::empty(),
                        outputs: Seq::empty(),
                        is_renderpass: false,
                    },
                ),
            ),
            r@.graph.edges == Seq::<EdgeView>::empty(),
            r@.last_usages == Seq::<LastUsageView>::empty(),
            r@.swapchain == (match swapchain {
                Option::Some(sc) => Option::Some(sc@),
                Option::None => Option::None::<VirtualResourceView>,
            }),
    {
        let mut graph = TaskGraph::new();
        let source_node = PassNode {
            identifier: "_source".to_owned(),
            inputs: Vec::new(),
            outputs: Vec::new(),
            is_renderpass: false,
        };
        let ghost sv = source_node@;
        let ghost g0 = graph@;
        proof {
            // Inserting into the empty graph creates no edges and no cycle.
            assert(sv.inputs =~= Seq::<PassResourceView>::empty());
            assert(sv.outputs =~= Seq::<PassResourceView>::empty());
            assert(in_edges_rec(g0.nodes, sv.inputs, 0) =~= Seq::<EdgeView>::empty());
            assert(out_edges_rec(g0.nodes, sv.outputs, 0) =~= Seq::<EdgeView>::empty());
            assert(new_task_edges(g0.nodes, sv, 0) =~= Seq::<EdgeView>::empty());
            assert(g0.edges + new_task_edges(g0.nodes, sv, 0) =~= Seq::<EdgeView>::empty());
            assert forall|a: usize| !reaches(Seq::<EdgeView>::empty(), a, a) by {
                if reaches(Seq::<EdgeView>::empty(), a, a) {
                    let p = choose|p: Seq<usize>|
                        is_path(Seq::<EdgeView>::empty(), p) && p.first() == a && p.last() == a;
                    assert(edge_in(Seq::<EdgeView>::empty(), p[0], p[1]));
                    assert(false);
                }
            }
            assert(acyclic(g0.edges + new_task_edges(g0.nodes, sv, 0)));
        }
        let res = graph.add_task(source_node);
        proof {
            assert(res is Ok);
        }
        let r = PassGraph {
            graph,
            source: 0,
            swapchain: match swapchain {
                Option::Some(sc) => Option::Some(sc.clone()),
                Option::None => Option::None,
            },
            last_usages: Vec::new(),
        };
        proof {
            assert(r@.graph.nodes =~= seq![Option::Some(NodeView::Task(sv))]);
            assert(r@.last_usages =~= Seq::<LastUsageView>::empty());
            assert(sv.inputs =~= Seq::<PassResourceView>::empty());
            assert(sv.outputs =~= Seq::<PassResourceView>::empty());
            assert(sv == (PassNodeView {
                identifier: "_source"@,
                inputs: Seq::empty(),
                outputs: Seq::empty(),
                is_renderpass: false,
            }));
        }
        r
    }

    /// The index of the synthetic source node.
    pub fn source(&self) -> (r: usize)
        ensures
            r == self@.source,
    {
        self.source
    }

    /// Returns the underlying task graph, useful for diagnostics and for
    /// walking the built graph.
    pub fn task_graph(&self) -> (r: &TaskGraph)
        ensures
            r@ == self@.graph,
    {
        &self.graph
    }

    /// Returns the total amount of nodes in the graph.
    pub fn num_nodes(&self) -> (r: usize)
        ensures
            r == self@.graph.nodes.len(),
    {
        self.graph.node_count()
    }

    /// Add a pass to the graph.
    ///
    /// For every version-0 input, a matching output is registered on the
    /// source node, modeling state supplied from outside the graph. The
    /// last-usage table records every input and output. The pass is then
    /// inserted as a task node; this fails with
    /// [`Error::CyclicDependency`] exactly when its resource dependencies
    /// would close a cycle.
    pub fn add_pass(self, pass: Pass) -> (res: Result<PassGraph, Error>)
        requires
            pg_wf(self@),
            self@.graph.nodes.len() < usize::MAX,
        ensures
            match spec_add_pass(self@, pass@) {
                Result::Ok(pgv) => res matches Result::Ok(r2) && r2@ == pgv && pg_wf(pgv),
                Result::Err(e) => res matches Result::Err(e2) && e2 == e,
            },
    {
        let mut s = self;
        let ghost pg0 = s@;
        let ghost pv = pass@;
        let ghost src0 = source_task(pg0);

        // Register a source output for every version-0 input.
        let new_source: PassNode = {
            let t = match &s.graph.nodes[0] {
                Option::Some(Node::Task(t)) => t,
                _ => {
                    proof {
                        assert(false);
                    }
                    unreached()
                },
            };
            proof {
                assert(slot_view(s.graph.nodes@[0]) == pg0.graph.nodes[0]);
                assert(t@ == src0);
                assert(res_views(t.outputs@) == src0.outputs);
            }
            let mut outs = clone_resources(&t.outputs);
            let mut i: usize = 0;
            proof {
                assert(pv.inputs.take(0) =~= Seq::<PassResourceView>::empty());
                assert(res_views(outs@) =~= src0.outputs + source_outputs_of(pv.inputs.take(0)));
            }
            while i < pass.inputs.len()
                invariant
                    pv == pass@,
                    i <= pass.inputs@.len(),
                    res_views(outs@) == src0.outputs + source_outputs_of(pv.inputs.take(i as int)),
                decreases pass.inputs@.len() - i,
            {
                let ghost prefix = pv.inputs.take(i as int);
                proof {
                    assert(pv.inputs.take(i + 1).drop_last() =~= prefix);
                    assert(pv.inputs.take(i + 1).last() == pv.inputs[i as int]);
                    assert(pv.inputs[i as int] == pass.inputs@[i as int]@);
                }
                if pass.inputs[i].resource.is_source() {
                    let ghost prev = outs@;
                    outs.push(
                        PassResource {
                            usage: ResourceUsage::Nothing,
                            resource: pass.inputs[i].resource.clone(),
                            stage: STAGE_NONE,
                            layout: LAYOUT_UNDEFINED,
                            clear_value: Option::None,
                            load_op: Option::None,
                        },
                    );
                    proof {
                        let e = source_output_for(pv.inputs[i as int].resource);
                        assert(outs@ == prev.push(outs@[prev.len() as int]));
                        assert(outs@[prev.len() as int]@ == e);
                        assert(res_views(prev).len() == prev.len());
                        assert forall|q: int|
                            0 <= q < prev.len() implies res_views(outs@)[q] == res_views(
                            prev,
                        )[q] by {
                            assert(outs@[q] == prev[q]);
                        }
                        assert(res_views(outs@)[prev.len() as int] == e);
                        assert(res_views(outs@) =~= res_views(prev).push(e));
                        lemma_concat_push_res(src0.outputs, source_outputs_of(prefix), e);
                        assert(res_views(outs@) =~= src0.outputs + source_outputs_of(
                            pv.inputs.take(i + 1),
                        ));
                    }
                } else {
                    proof {
                        assert(source_outputs_of(pv.inputs.take(i + 1)) =~= source_outputs_of(
                            prefix,
                        ));
                    }
                }
                i = i + 1;
            }
            proof {
                assert(pv.inputs.take(pv.inputs.len() as int) =~= pv.inputs);
            }
            let empty_inputs: Vec<PassResource> = Vec::new();
            proof {
                assert(res_views(empty_inputs@) =~= Seq::<PassResourceView>::empty());
                assert(src0.inputs =~= Seq::<PassResourceView>::empty());
                assert(res_views(empty_inputs@) == src0.inputs);
            }
            PassNode {
                identifier: t.identifier.clone(),
                inputs: empty_inputs,
                outputs: outs,
                is_renderpass: t.is_renderpass,
            }
        };
        let ghost src2 = PassNodeView {
            outputs: src0.outputs + source_outputs_of(pv.inputs),
            ..src0
        };
        proof {
            assert(src0.inputs =~= Seq::<PassResourceView>::empty());
            assert(new_source@ == src2);
        }
        let ghost nodes0 = s.graph.nodes@;
        s.graph.nodes.set(0, Option::Some(Node::Task(new_source)));
        let ghost g2 = TaskGraphView {
            nodes: pg0.graph.nodes.update(0, Option::Some(NodeView::Task(src2))),
            edges: pg0.graph.edges,
        };
        proof {
            assert forall|q: int|
                0 <= q < s.graph.nodes@.len() implies node_views(s.graph.nodes@)[q] == g2.nodes[q] by {
                if q != 0 {
                    assert(s.graph.nodes@[q] == nodes0[q]);
                    assert(node_views(nodes0)[q] == pg0.graph.nodes[q]);
                }
            }
            assert(node_views(s.graph.nodes@) =~= g2.nodes);
            assert(s.graph@ == g2);
            // The widened source node preserves well-formedness: its inputs
            // are unchanged and its outputs only grew.
            lemma_graph_wf_outputs_grow(pg0.graph, g2, src0, src2);
        }

        // Record last usage of every input and output.
        let mut i: usize = 0;
        proof {
            assert(pv.inputs.take(0) =~= Seq::<PassResourceView>::empty());
        }
        while i < pass.inputs.len()
            invariant
                pv == pass@,
                i <= pass.inputs@.len(),
                s.graph@ == g2,
                s@.source == pg0.source,
                s@.swapchain == pg0.swapchain,
                lu_views(s.last_usages@) == lu_update_all(pg0.last_usages, pv.inputs.take(i as int)),
            decreases pass.inputs@.len() - i,
        {
            proof {
                assert(pv.inputs.take(i + 1).drop_last() =~= pv.inputs.take(i as int));
                assert(pv.inputs.take(i + 1).last() == pv.inputs[i as int]);
                assert(pv.inputs[i as int] == pass.inputs@[i as int]@);
            }
            update_last_usage(&mut s.last_usages, &pass.inputs[i].resource, pass.inputs[i].stage);
            i = i + 1;
        }
        proof {
            assert(pv.inputs.take(pv.inputs.len() as int) =~= pv.inputs);
            assert(pv.outputs.take(0) =~= Seq::<PassResourceView>::empty());
        }
        let ghost lu_mid = lu_update_all(pg0.last_usages, pv.inputs);
        let mut o: usize = 0;
        while o < pass.outputs.len()
            invariant
                pv == pass@,
                o <= pass.outputs@.len(),
                s.graph@ == g2,
                s@.source == pg0.source,
                s@.swapchain == pg0.swapchain,
                lu_views(s.last_usages@) == lu_update_all(lu_mid, pv.outputs.take(o as int)),
            decreases pass.outputs@.len() - o,
        {
            proof {
                assert(pv.outputs.take(o + 1).drop_last() =~= pv.outputs.take(o as int));
                assert(pv.outputs.take(o + 1).last() == pv.outputs[o as int]);
                assert(pv.outputs[o as int] == pass.outputs@[o as int]@);
            }
            update_last_usage(&mut s.last_usages, &pass.outputs[o].resource, pass.outputs[o].stage);
            o = o + 1;
        }
        proof {
            assert(pv.outputs.take(pv.outputs.len() as int) =~= pv.outputs);
        }
        let ghost lu2 = lu_update_all(lu_mid, pv.outputs);

        // Insert the pass itself.
        let node = PassNode {
            identifier: pass.name,
            inputs: pass.inputs,
            outputs: pass.outputs,
            is_renderpass: pass.is_renderpass,
        };
        proof {
            assert(node@ == spec_node_of_pass(pv));
        }
        match s.graph.add_task(node) {
            Result::Ok(()) => {
                proof {
                    let g3 = spec_add_task(g2, spec_node_of_pass(pv))->Ok_0;
                    assert(s@.graph == g3);
                    let pgv = spec_add_pass(pg0, pv)->Ok_0;
                    assert(pv.outputs.take(pv.outputs.len() as int) == pv.outputs);
                    assert(lu_views(s.last_usages@) == lu2);
                    assert(s@.graph == pgv.graph);
                    assert(s@.source == pgv.source);
                    assert(s@.swapchain == pgv.swapchain);
                    assert(s@.last_usages == pgv.last_usages);
                    assert(s@ == pgv);
                    // Re-establish the pass-graph invariant.
                    lemma_lu_update_all_props(pg0.last_usages, pv.inputs);
                    lemma_lu_update_all_props(lu_mid, pv.outputs);
                    assert(lu_distinct(lu2));
                    assert(g3.nodes[0] == g2.nodes[0]);
                    assert(source_task(pgv) == src2);
                    assert forall|q: int|
                        0 <= q < g3.nodes.len() implies (#[trigger] g3.nodes[q]) matches Option::Some(
                        NodeView::Task(_),
                    ) by {
                        if q < g2.nodes.len() {
                            assert(g2.nodes[q] == if q == 0 {
                                Option::Some(NodeView::Task(src2))
                            } else {
                                pg0.graph.nodes[q]
                            });
                        } else {
                            assert(g3.nodes[q] == Option::Some(
                                NodeView::Task(spec_node_of_pass(pv)),
                            ));
                        }
                    }
                    // Every source-output name is recorded.
                    assert forall|k: int|
                        0 <= k < src2.outputs.len() implies lu_find(
                        lu2,
                        (#[trigger] src2.outputs[k]).resource.name,
                    ) is Some by {
                        if k < src0.outputs.len() {
                            assert(src2.outputs[k] == src0.outputs[k]);
                            assert(lu_find(pg0.last_usages, src0.outputs[k].resource.name) is Some);
                        } else {
                            let q = k - src0.outputs.len();
                            assert(src2.outputs[k] == source_outputs_of(pv.inputs)[q]);
                            lemma_source_outputs_from_inputs(pv.inputs, q);
                            let w = choose|w: int|
                                0 <= w < pv.inputs.len() && pv.inputs[w].resource
                                    == source_outputs_of(pv.inputs)[q].resource;
                            assert(lu_find(lu_mid, pv.inputs[w].resource.name) is Some);
                        }
                    }
                    assert(pg_wf(pgv));
                }
                Result::Ok(s)
            },
            Result::Err(e) => {
                proof {
                    assert(spec_add_pass(pg0, pv) == Result::<PassGraphView, Error>::Err(e));
                }
                Result::Err(e)
            },
        }
    }
}

/// The concatenation fact used when a source output is appended.
proof fn lemma_concat_push_res(a: Seq<PassResourceView>, b: Seq<PassResourceView>, e: PassResourceView)
    ensures
        a + b.push(e) == (a + b).push(e),
{
    assert(a + b.push(e) =~= (a + b).push(e));
}

// ------------------------------------------------------------------------
// Source stage assignment.
// ------------------------------------------------------------------------

/// The stage a source output receives at build time: the swapchain
/// resource is forced to color-attachment-output (the acquire-to-render
/// handoff); any other resource gets the stage of its name's last recorded
/// use, so that this frame's first use waits for the previous frame's last
/// one.
pub open spec fn spec_assign_stage(pg: PassGraphView, o: PassResourceView) -> PassResourceView {
    if pg.swapchain matches Option::Some(sc) && o.resource.name == sc.name {
        PassResourceView { stage: STAGE_COLOR_ATTACHMENT_OUTPUT, ..o }
    } else {
        match lu_find(pg.last_usages, o.resource.name) {
            Option::Some(i) => PassResourceView { stage: pg.last_usages[i].stage, ..o },
            Option::None => o,
        }
    }
}

/// What the stage-assignment step of [`PassGraph::build`] does.
pub open spec fn spec_set_source_stages(pg: PassGraphView) -> PassGraphView {
    let src = source_task(pg);
    let src2 = PassNodeView {
        outputs: src.outputs.map_values(|o: PassResourceView| spec_assign_stage(pg, o)),
        ..src
    };
    PassGraphView {
        graph: TaskGraphView {
            nodes: pg.graph.nodes.update(0, Option::Some(NodeView::Task(src2))),
            edges: pg.graph.edges,
        },
        ..pg
    }
}

/// The stage recorded for `name`, if the table has an entry.
fn lu_lookup_stage(lu: &Vec<LastUsage>, name: &String) -> (res: Option<u64>)
    ensures
        match lu_find(lu_views(lu@), name@) {
            Option::Some(i) => res == Option::Some(lu_views(lu@)[i].stage),
            Option::None => res is None,
        },
{
    let ghost lv = lu_views(lu@);
    let mut i: usize = 0;
    while i < lu.len()
        invariant
            lv == lu_views(lu@),
            i <= lu@.len(),
            lu_find(lv, name@) == lu_find_from(lv, name@, i as int),
        decreases lu@.len() - i,
    {
        if lu[i].name == *name {
            proof {
                assert(lv[i as int] == lu@[i as int]@);
                assert(lu_find(lv, name@) == Option::Some(i as int));
            }
            return Option::Some(lu[i].stage);
        }
        proof {
            assert(lv[i as int].name != name@);
        }
        i = i + 1;
    }
    Option::None
}

/// Replacing a task's outputs by others with the same resources preserves
/// graph well-formedness.
proof fn lemma_graph_wf_outputs_same_resources(
    g: TaskGraphView,
    g2: TaskGraphView,
    src0: PassNodeView,
    src2: PassNodeView,
)
    requires
        graph_wf(g),
        g.nodes.len() >= 1,
        g.nodes[0] == Option::Some(NodeView::Task(src0)),
        src2.inputs == src0.inputs,
        src2.outputs.len() == src0.outputs.len(),
        forall|k: int|
            0 <= k < src0.outputs.len() ==> (#[trigger] src2.outputs[k]).resource
                == src0.outputs[k].resource,
        g2.nodes == g.nodes.update(0, Option::Some(NodeView::Task(src2))),
        g2.edges == g.edges,
    ensures
        graph_wf(g2),
{
    assert forall|k: int|
        0 <= k < g2.edges.len() implies edge_endpoints_ok(g2.nodes, #[trigger] g2.edges[k]) by {
        let e = g2.edges[k];
        assert(edge_endpoints_ok(g.nodes, e));
        if e.src == 0 {
            assert(slot_produces(g.nodes[0], e.resource.uid()));
            let w = choose|w: int|
                0 <= w < node_outputs(NodeView::Task(src0)).len() && (#[trigger] node_outputs(
                    NodeView::Task(src0),
                )[w]).resource.uid() == e.resource.uid();
            assert(node_outputs(NodeView::Task(src2))[w].resource.uid() == e.resource.uid());
            assert(slot_produces(g2.nodes[e.src as int], e.resource.uid()));
        }
        if e.dst == 0 {
            assert(slot_consumes(g.nodes[0], e.resource.uid()));
            let w = choose|w: int|
                0 <= w < node_inputs(NodeView::Task(src0)).len() && (#[trigger] node_inputs(
                    NodeView::Task(src0),
                )[w]).resource.uid() == e.resource.uid();
            assert(node_inputs(NodeView::Task(src2))[w].resource.uid() == e.resource.uid());
            assert(slot_consumes(g2.nodes[e.dst as int], e.resource.uid()));
        }
    }
}

impl PassGraph {
    /// Set each source output's pipeline stage for cross-frame
    /// synchronization: the swapchain resource gets the
    /// color-attachment-output stage, every other resource the stage of its
    /// name's last use in the frame.
    fn set_source_stages(&mut self)
        requires
            pg_wf(old(self)@),
        ensures
            final(self)@ == spec_set_source_stages(old(self)@),
            pg_wf(final(self)@),
    {
        let ghost pg0 = self@;
        let ghost src0 = source_task(pg0);
        let new_source: PassNode = {
            let t = match &self.graph.nodes[0] {
                Option::Some(Node::Task(t)) => t,
                _ => {
                    proof {
                        assert(false);
                    }
                    unreached()
                },
            };
            proof {
                assert(slot_view(self.graph.nodes@[0]) == pg0.graph.nodes[0]);
                assert(t@ == src0);
                assert(res_views(t.outputs@) == src0.outputs);
            }
            let ghost mapped = src0.outputs.map_values(
                |o: PassResourceView| spec_assign_stage(pg0, o),
            );
            let mut outs: Vec<PassResource> = Vec::new();
            let mut i: usize = 0;
            proof {
                assert(res_views(outs@) =~= mapped.take(0));
            }
            while i < t.outputs.len()
                invariant
                    res_views(t.outputs@) == src0.outputs,
                    mapped == src0.outputs.map_values(
                        |o: PassResourceView| spec_assign_stage(pg0, o),
                    ),
                    pg0 == self@,
                    src0 == source_task(pg0),
                    i <= t.outputs@.len(),
                    res_views(outs@) == mapped.take(i as int),
                decreases t.outputs@.len() - i,
            {
                let ghost ov = src0.outputs[i as int];
                proof {
                    assert(ov == t.outputs@[i as int]@);
                    assert(mapped[i as int] == spec_assign_stage(pg0, ov));
                }
                let mut o = t.outputs[i].clone();
                let is_swap: bool = match &self.swapchain {
                    Option::Some(sc) => o.resource.is_associated_with(sc),
                    Option::None => false,
                };
                if is_swap {
                    o.stage = STAGE_COLOR_ATTACHMENT_OUTPUT;
                } else {
                    match lu_lookup_stage(&self.last_usages, &o.resource.name) {
                        Option::Some(stage) => {
                            o.stage = stage;
                        },
                        Option::None => {},
                    }
                }
                proof {
                    assert(o@ == spec_assign_stage(pg0, ov));
                }
                let ghost prev = outs@;
                proof {
                    assert(res_views(prev).len() == prev.len());
                    assert(mapped.take(i as int).len() == i as int);
                }
                outs.push(o);
                proof {
                    assert(outs@ == prev.push(outs@[prev.len() as int]));
                    assert(outs@[prev.len() as int]@ == mapped[i as int]);
                    assert forall|q: int|
                        0 <= q < prev.len() implies res_views(outs@)[q] == res_views(prev)[q] by {
                        assert(outs@[q] == prev[q]);
                    }
                    assert(res_views(outs@) =~= mapped.take(i + 1));
                }
                i = i + 1;
            }
            proof {
                assert(mapped.take(mapped.len() as int) =~= mapped);
            }
            let empty_inputs: Vec<PassResource> = Vec::new();
            proof {
                assert(res_views(empty_inputs@) =~= Seq::<PassResourceView>::empty());
                assert(src0.inputs =~= Seq::<PassResourceView>::empty());
                assert(res_views(empty_inputs@) == src0.inputs);
            }
            PassNode {
                identifier: t.identifier.clone(),
                inputs: empty_inputs,
                outputs: outs,
                is_renderpass: t.is_renderpass,
            }
        };
        let ghost src2 = PassNodeView {
            outputs: src0.outputs.map_values(|o: PassResourceView| spec_assign_stage(pg0, o)),
            ..src0
        };
        proof {
            assert(new_source@ == src2);
        }
        let ghost nodes0 = self.graph.nodes@;
        self.graph.nodes.set(0, Option::Some(Node::Task(new_source)));
        proof {
            let g2 = spec_set_source_stages(pg0).graph;
            assert forall|q: int|
                0 <= q < self.graph.nodes@.len() implies node_views(self.graph.nodes@)[q]
                == g2.nodes[q] by {
                if q != 0 {
                    assert(self.graph.nodes@[q] == nodes0[q]);
                    assert(node_views(nodes0)[q] == pg0.graph.nodes[q]);
                }
            }
            assert(node_views(self.graph.nodes@) =~= g2.nodes);
            assert(self@.graph == g2);
            assert(self@ == spec_set_source_stages(pg0));
            // Well-formedness: resources and inputs are unchanged.
            assert forall|k: int|
                0 <= k < src0.outputs.len() implies (#[trigger] src2.outputs[k]).resource
                == src0.outputs[k].resource by {
                assert(src2.outputs[k] == spec_assign_stage(pg0, src0.outputs[k]));
            }
            lemma_graph_wf_outputs_same_resources(pg0.graph, g2, src0, src2);
            assert forall|q: int|
                0 <= q < g2.nodes.len() implies (#[trigger] g2.nodes[q]) matches Option::Some(
                NodeView::Task(_),
            ) by {
                if q != 0 {
                    assert(g2.nodes[q] == pg0.graph.nodes[q]);
                }
            }
            assert forall|k: int|
                0 <= k < source_task(self@).outputs.len() implies lu_find(
                self@.last_usages,
                (#[trigger] source_task(self@).outputs[k]).resource.name,
            ) is Some by {
                assert(source_task(self@).outputs[k].resource == src0.outputs[k].resource);
                assert(lu_find(pg0.last_usages, src0.outputs[k].resource.name) is Some);
            }
            assert(pg_wf(self@));
        }
    }
}

/// Widening one task's outputs (inputs unchanged) preserves graph
/// well-formedness.
proof fn lemma_graph_wf_outputs_grow(
    g: TaskGraphView,
    g2: TaskGraphView,
    src0: PassNodeView,
    src2: PassNodeView,
)
    requires
        graph_wf(g),
        g.nodes.len() >= 1,
        g.nodes[0] == Option::Some(NodeView::Task(src0)),
        src2.inputs == src0.inputs,
        src2.outputs.len() >= src0.outputs.len(),
        forall|k: int| 0 <= k < src0.outputs.len() ==> src2.outputs[k] == src0.outputs[k],
        g2.nodes == g.nodes.update(0, Option::Some(NodeView::Task(src2))),
        g2.edges == g.edges,
    ensures
        graph_wf(g2),
{
    assert forall|k: int|
        0 <= k < g2.edges.len() implies edge_endpoints_ok(g2.nodes, #[trigger] g2.edges[k]) by {
        let e = g2.edges[k];
        assert(edge_endpoints_ok(g.nodes, e));
        if e.src == 0 {
            assert(slot_produces(g.nodes[0], e.resource.uid()));
            let w = choose|w: int|
                0 <= w < node_outputs(NodeView::Task(src0)).len() && (#[trigger] node_outputs(
                    NodeView::Task(src0),
                )[w]).resource.uid() == e.resource.uid();
            assert(node_outputs(NodeView::Task(src2))[w].resource.uid() == e.resource.uid());
            assert(slot_produces(g2.nodes[e.src as int], e.resource.uid()));
        }
        if e.dst == 0 {
            assert(slot_consumes(g.nodes[0], e.resource.uid()));
            let w = choose|w: int|
                0 <= w < node_inputs(NodeView::Task(src0)).len() && (#[trigger] node_inputs(
                    NodeView::Task(src0),
                )[w]).resource.uid() == e.resource.uid();
            assert(node_inputs(NodeView::Task(src2))[w].resource.uid() == e.resource.uid());
            assert(slot_consumes(g2.nodes[e.dst as int], e.resource.uid()));
        }
    }
}

/// Every registered source output carries the resource of some version-0
/// input.
proof fn lemma_source_outputs_from_inputs(inputs: Seq<PassResourceView>, q: int)
    requires
        0 <= q < source_outputs_of(inputs).len(),
    ensures
        exists|w: int|
            0 <= w < inputs.len() && (#[trigger] inputs[w]).resource == source_outputs_of(
                inputs,
            )[q].resource,
    decreases inputs.len(),
{
    let r = source_outputs_of(inputs);
    let rest = source_outputs_of(inputs.drop_last());
    if q < rest.len() {
        lemma_source_outputs_from_inputs(inputs.drop_last(), q);
        let w = choose|w: int|
            0 <= w < inputs.drop_last().len() && (#[trigger] inputs.drop_last()[w]).resource
                == rest[q].resource;
        assert(inputs[w].resource == r[q].resource);
    } else {
        assert(inputs.last().resource == r[q].resource);
        assert(inputs[inputs.len() - 1].resource == r[q].resource);
    }
}

// ------------------------------------------------------------------------
// Barrier merging: specifications.
// ------------------------------------------------------------------------

/// Slot `i` holds a live barrier node.
pub open spec fn barrier_at(nodes: Seq<Option<NodeView>>, i: int) -> bool {
    0 <= i < nodes.len() && nodes[i] matches Option::Some(NodeView::Barrier(_))
}

/// The barrier in slot `i`.
pub open spec fn barrier_of(nodes: Seq<Option<NodeView>>, i: int) -> PassResourceBarrierView {
    nodes[i]->Some_0->Barrier_0
}

/// The identity of the resource guarded by the barrier in slot `i`.
pub open spec fn barrier_uid(nodes: Seq<Option<NodeView>>, i: int) -> (Seq<char>, u64) {
    barrier_of(nodes, i).resource.resource.uid()
}

/// The first barrier slot at or after `j` guarding identity `u`.
pub open spec fn first_barrier_from(
    nodes: Seq<Option<NodeView>>,
    u: (Seq<char>, u64),
    j: int,
) -> Option<int>
    decreases nodes.len() - j,
{
    if j < 0 || j >= nodes.len() {
        Option::None
    } else if barrier_at(nodes, j) && barrier_uid(nodes, j) == u {
        Option::Some(j)
    } else {
        first_barrier_from(nodes, u, j + 1)
    }
}

/// The representative of a barrier group: the lowest barrier slot guarding
/// the identity.
pub open spec fn rep_of(nodes: Seq<Option<NodeView>>, u: (Seq<char>, u64)) -> Option<int> {
    first_barrier_from(nodes, u, 0)
}

/// A barrier that is merged away: it is not its group's representative.
pub open spec fn is_removed(nodes: Seq<Option<NodeView>>, i: int) -> bool {
    barrier_at(nodes, i) && rep_of(nodes, barrier_uid(nodes, i)) != Option::Some(i)
}

/// The first edge at or after position `k` leaving node `node`.
pub open spec fn first_out_edge_from(edges: Seq<EdgeView>, node: int, k: int) -> Option<int>
    decreases edges.len() - k,
{
    if k < 0 || k >= edges.len() {
        Option::None
    } else if edges[k].src as int == node {
        Option::Some(k)
    } else {
        first_out_edge_from(edges, node, k + 1)
    }
}

/// The first edge leaving node `node`.
pub open spec fn first_out_edge(edges: Seq<EdgeView>, node: int) -> Option<int> {
    first_out_edge_from(edges, node, 0)
}

/// The consumer declaration guarded by the barrier in slot `node`: the
/// input, carrying the barrier's resource identity, of the task its first
/// outgoing edge reaches. Before the merge every barrier has exactly one
/// outgoing edge; after it, every outgoing edge shares one consumer state,
/// so the first edge suffices.
pub open spec fn barrier_dst_res(g: TaskGraphView, node: int) -> Option<PassResourceView> {
    if !barrier_at(g.nodes, node) {
        Option::None
    } else {
        match first_out_edge(g.edges, node) {
            Option::Some(k) => {
                let e = g.edges[k];
                if e.dst < g.nodes.len() {
                    match g.nodes[e.dst as int] {
                        Option::Some(NodeView::Task(t)) => find_first_res(
                            t.inputs,
                            barrier_uid(g.nodes, node),
                        ),
                        _ => Option::None,
                    }
                } else {
                    Option::None
                }
            },
            Option::None => Option::None,
        }
    }
}

/// Two barriers of one group whose consumers could not share a merged
/// barrier: both write, with different usages.
pub open spec fn conflict_pair(g: TaskGraphView, i: int, j: int) -> bool {
    &&& barrier_at(g.nodes, i)
    &&& barrier_at(g.nodes, j)
    &&& i < j
    &&& barrier_uid(g.nodes, i) == barrier_uid(g.nodes, j)
    &&& match (barrier_dst_res(g, i), barrier_dst_res(g, j)) {
        (Option::Some(a), Option::Some(b)) => !spec_is_read(a.usage) && !spec_is_read(b.usage)
            && !spec_usage_eq(a.usage, b.usage),
        _ => false,
    }
}

/// The graph holds two conflicting writes that could not share a barrier.
pub open spec fn has_conflict(g: TaskGraphView) -> bool {
    exists|i: int, j: int| conflict_pair(g, i, j)
}

/// The destination stage and access masks of a barrier group: the bitwise
/// OR of every member's consumer stage and access, accumulated over the
/// slots below `n` in index order. OR is associative and commutative, so
/// the result does not depend on the order in which members were added.
pub open spec fn group_flags(g: TaskGraphView, u: (Seq<char>, u64), n: int) -> (u64, u64)
    decreases n,
{
    if n <= 0 {
        (STAGE_NONE, ACCESS_NONE)
    } else {
        let r = group_flags(g, u, n - 1);
        if barrier_at(g.nodes, n - 1) && barrier_uid(g.nodes, n - 1) == u {
            match barrier_dst_res(g, n - 1) {
                Option::Some(c) => (r.0 | c.stage, r.1 | spec_access(c.usage)),
                Option::None => r,
            }
        } else {
            r
        }
    }
}

/// What slot `i` holds after the merge: removed barriers leave empty
/// slots, each representative carries its group's accumulated destination
/// flags, tasks are untouched.
pub open spec fn merged_node(g: TaskGraphView, i: int) -> Option<NodeView> {
    if is_removed(g.nodes, i) {
        Option::None
    } else if barrier_at(g.nodes, i) {
        let b = barrier_of(g.nodes, i);
        let f = group_flags(g, barrier_uid(g.nodes, i), g.nodes.len() as int);
        Option::Some(
            NodeView::Barrier(PassResourceBarrierView { dst_stage: f.0, dst_access: f.1, ..b }),
        )
    } else {
        g.nodes[i]
    }
}

/// The edge list after the merge: an edge into a removed barrier is
/// dropped, an edge out of a removed barrier now leaves the
/// representative, everything else is kept in order.
pub open spec fn merge_edges_rec(g: TaskGraphView, edges: Seq<EdgeView>) -> Seq<EdgeView>
    decreases edges.len(),
{
    if edges.len() == 0 {
        Seq::empty()
    } else {
        let rest = merge_edges_rec(g, edges.drop_last());
        let e = edges.last();
        if is_removed(g.nodes, e.dst as int) {
            rest
        } else if is_removed(g.nodes, e.src as int) {
            rest.push(
                EdgeView {
                    src: rep_of(g.nodes, barrier_uid(g.nodes, e.src as int))->Some_0 as usize,
                    dst: e.dst,
                    resource: e.resource,
                },
            )
        } else {
            rest.push(e)
        }
    }
}

/// What the merge step of [`PassGraph::build`] does: reject a graph with
/// conflicting writes, otherwise collapse every barrier group onto its
/// representative, accumulating destination flags by bitwise OR.
pub open spec fn spec_merge(g: TaskGraphView) -> Result<TaskGraphView, Error> {
    if has_conflict(g) {
        Result::Err(Error::IllegalTaskGraph)
    } else {
        Result::Ok(
            TaskGraphView {
                nodes: Seq::new(g.nodes.len(), |i: int| merged_node(g, i)),
                edges: merge_edges_rec(g, g.edges),
            },
        )
    }
}

/// What the merge step needs of its input: edges stay inside the arena and
/// every barrier has a resolvable consumer. Barrier creation establishes
/// this.
pub open spec fn merge_pre(g: TaskGraphView) -> bool {
    &&& forall|k: int|
        0 <= k < g.edges.len() ==> (#[trigger] g.edges[k]).src < g.nodes.len() && g.edges[k].dst
            < g.nodes.len()
    &&& forall|i: int| #[trigger] barrier_at(g.nodes, i) ==> barrier_dst_res(g, i) is Some
}

/// What [`PassGraph::build`] does, in order: source stage assignment,
/// barrier creation, barrier merging.
pub open spec fn spec_build(pg: PassGraphView) -> Result<PassGraphView, Error> {
    let pg1 = spec_set_source_stages(pg);
    let g2 = spec_create_barriers(pg1.graph);
    match spec_merge(g2) {
        Result::Ok(g3) => Result::Ok(PassGraphView { graph: g3, ..pg1 }),
        Result::Err(e) => Result::Err(e),
    }
}

/// What a found first match in a resource list means.
proof fn lemma_find_first_res_props(rs: Seq<PassResourceView>, uid: (Seq<char>, u64))
    ensures
        match find_first_res(rs, uid) {
            Option::Some(p) => p.resource.uid() == uid && exists|w: int|
                0 <= w < rs.len() && (#[trigger] rs[w]) == p,
            Option::None => forall|w: int|
                0 <= w < rs.len() ==> (#[trigger] rs[w]).resource.uid() != uid,
        },
    decreases rs.len(),
{
    if rs.len() > 0 {
        if rs.first().resource.uid() == uid {
            assert(rs[0] == rs.first());
        } else {
            lemma_find_first_res_props(rs.drop_first(), uid);
            match find_first_res(rs.drop_first(), uid) {
                Option::Some(p) => {
                    let w = choose|w: int|
                        0 <= w < rs.drop_first().len() && (#[trigger] rs.drop_first()[w]) == p;
                    assert(rs[w + 1] == p);
                },
                Option::None => {
                    assert forall|w: int|
                        0 <= w < rs.len() implies (#[trigger] rs[w]).resource.uid() != uid by {
                        if w > 0 {
                            assert(rs.drop_first()[w - 1] == rs[w]);
                        }
                    }
                },
            }
        }
    }
}

/// A matching entry guarantees that the first match exists.
pub proof fn lemma_find_first_res_some(rs: Seq<PassResourceView>, uid: (Seq<char>, u64))
    requires
        exists|w: int| 0 <= w < rs.len() && (#[trigger] rs[w]).resource.uid() == uid,
    ensures
        find_first_res(rs, uid) is Some,
{
    lemma_find_first_res_props(rs, uid);
    if find_first_res(rs, uid) is None {
        let w = choose|w: int| 0 <= w < rs.len() && (#[trigger] rs[w]).resource.uid() == uid;
        assert(false);
    }
}

/// What a found first outgoing edge means.
pub proof fn lemma_first_out_edge_from_props(edges: Seq<EdgeView>, node: int, k: int)
    requires
        0 <= k,
    ensures
        match first_out_edge_from(edges, node, k) {
            Option::Some(j) => k <= j < edges.len() && edges[j].src as int == node,
            Option::None => forall|q: int|
                k <= q < edges.len() ==> (#[trigger] edges[q]).src as int != node,
        },
    decreases edges.len() - k,
{
    if 0 <= k < edges.len() && edges[k].src as int != node {
        lemma_first_out_edge_from_props(edges, node, k + 1);
    }
}

impl PassGraph {
    /// The consumer declaration guarded by a barrier node: the input of
    /// its first outgoing edge\'s target task that carries the barrier\'s
    /// resource identity. Fails with [`Error::NodeNotFound`] when `node`
    /// is not a barrier or the lookup cannot be resolved; in a graph
    /// produced by the build this never happens.
    pub fn barrier_dst_resource(graph: &TaskGraph, node: usize) -> (res: Result<
        PassResource,
        Error,
    >)
        ensures
            match barrier_dst_res(graph@, node as int) {
                Option::Some(c) => res matches Result::Ok(p) && p@ == c,
                Option::None => res == Result::Err::<PassResource, Error>(Error::NodeNotFound),
            },
    {
        let ghost g = graph@;
        if node >= graph.nodes.len() {
            return Result::Err(Error::NodeNotFound);
        }
        let b_res: VirtualResource = {
            match &graph.nodes[node] {
                Option::Some(Node::Barrier(b)) => b.resource.resource.clone(),
                _ => {
                    proof {
                        assert(slot_view(graph.nodes@[node as int]) == g.nodes[node as int]);
                        assert(!barrier_at(g.nodes, node as int));
                    }
                    return Result::Err(Error::NodeNotFound);
                },
            }
        };
        proof {
            assert(slot_view(graph.nodes@[node as int]) == g.nodes[node as int]);
            assert(barrier_at(g.nodes, node as int));
            assert(b_res@.uid() == barrier_uid(g.nodes, node as int));
        }
        let mut k: usize = 0;
        while k < graph.edges.len()
            invariant
                g == graph@,
                node < g.nodes.len(),
                barrier_at(g.nodes, node as int),
                b_res@.uid() == barrier_uid(g.nodes, node as int),
                k <= g.edges.len(),
                first_out_edge(g.edges, node as int) == first_out_edge_from(
                    g.edges,
                    node as int,
                    k as int,
                ),
            decreases g.edges.len() - k,
        {
            proof {
                assert(graph.edges@[k as int]@ == g.edges[k as int]);
            }
            if graph.edges[k].src == node {
                proof {
                    assert(first_out_edge(g.edges, node as int) == Option::Some(k as int));
                }
                let dst = graph.edges[k].dst;
                if dst >= graph.nodes.len() {
                    return Result::Err(Error::NodeNotFound);
                }
                proof {
                    assert(slot_view(graph.nodes@[dst as int]) == g.nodes[dst as int]);
                }
                match &graph.nodes[dst] {
                    Option::Some(Node::Task(t)) => {
                        proof {
                            assert(res_views(t.inputs@) == (t@).inputs);
                        }
                        match crate::task_graph::find_first_match(&t.inputs, &b_res) {
                            Option::Some(ci) => {
                                let p = t.inputs[ci].clone();
                                return Result::Ok(p);
                            },
                            Option::None => {
                                return Result::Err(Error::NodeNotFound);
                            },
                        }
                    },
                    _ => {
                        return Result::Err(Error::NodeNotFound);
                    },
                }
            }
            k = k + 1;
        }
        Result::Err(Error::NodeNotFound)
    }

    /// The producer declaration guarding a barrier node: the output of its
    /// first incoming edge\'s source task that carries the barrier\'s
    /// resource identity. Fails with [`Error::NodeNotFound`] when `node`
    /// is not a barrier or the lookup cannot be resolved.
    pub fn barrier_src_resource(graph: &TaskGraph, node: usize) -> (res: Result<
        PassResource,
        Error,
    >)
        ensures
            match barrier_src_res(graph@, node as int) {
                Option::Some(c) => res matches Result::Ok(p) && p@ == c,
                Option::None => res == Result::Err::<PassResource, Error>(Error::NodeNotFound),
            },
    {
        let ghost g = graph@;
        if node >= graph.nodes.len() {
            return Result::Err(Error::NodeNotFound);
        }
        let b_res: VirtualResource = {
            match &graph.nodes[node] {
                Option::Some(Node::Barrier(b)) => b.resource.resource.clone(),
                _ => {
                    proof {
                        assert(slot_view(graph.nodes@[node as int]) == g.nodes[node as int]);
                        assert(!barrier_at(g.nodes, node as int));
                    }
                    return Result::Err(Error::NodeNotFound);
                },
            }
        };
        proof {
            assert(slot_view(graph.nodes@[node as int]) == g.nodes[node as int]);
            assert(barrier_at(g.nodes, node as int));
            assert(b_res@.uid() == barrier_uid(g.nodes, node as int));
        }
        let mut k: usize = 0;
        while k < graph.edges.len()
            invariant
                g == graph@,
                node < g.nodes.len(),
                barrier_at(g.nodes, node as int),
                b_res@.uid() == barrier_uid(g.nodes, node as int),
                k <= g.edges.len(),
                first_in_edge(g.edges, node as int) == first_in_edge_from(
                    g.edges,
                    node as int,
                    k as int,
                ),
            decreases g.edges.len() - k,
        {
            proof {
                assert(graph.edges@[k as int]@ == g.edges[k as int]);
            }
            if graph.edges[k].dst == node {
                proof {
                    assert(first_in_edge(g.edges, node as int) == Option::Some(k as int));
                }
                let src = graph.edges[k].src;
                if src >= graph.nodes.len() {
                    return Result::Err(Error::NodeNotFound);
                }
                proof {
                    assert(slot_view(graph.nodes@[src as int]) == g.nodes[src as int]);
                }
                match &graph.nodes[src] {
                    Option::Some(Node::Task(t)) => {
                        proof {
                            assert(res_views(t.outputs@) == (t@).outputs);
                        }
                        match crate::task_graph::find_first_match(&t.outputs, &b_res) {
                            Option::Some(ci) => {
                                let p = t.outputs[ci].clone();
                                return Result::Ok(p);
                            },
                            Option::None => {
                                return Result::Err(Error::NodeNotFound);
                            },
                        }
                    },
                    _ => {
                        return Result::Err(Error::NodeNotFound);
                    },
                }
            }
            k = k + 1;
        }
        Result::Err(Error::NodeNotFound)
    }
}

/// The first edge at or after position `k` entering node `node`.
pub open spec fn first_in_edge_from(edges: Seq<EdgeView>, node: int, k: int) -> Option<int>
    decreases edges.len() - k,
{
    if k < 0 || k >= edges.len() {
        Option::None
    } else if edges[k].dst as int == node {
        Option::Some(k)
    } else {
        first_in_edge_from(edges, node, k + 1)
    }
}

/// The first edge entering node `node`.
pub open spec fn first_in_edge(edges: Seq<EdgeView>, node: int) -> Option<int> {
    first_in_edge_from(edges, node, 0)
}

/// The producer declaration guarding a barrier node, by its first incoming
/// edge.
pub open spec fn barrier_src_res(g: TaskGraphView, node: int) -> Option<PassResourceView> {
    if !barrier_at(g.nodes, node) {
        Option::None
    } else {
        match first_in_edge(g.edges, node) {
            Option::Some(k) => {
                let e = g.edges[k];
                if e.src < g.nodes.len() {
                    match g.nodes[e.src as int] {
                        Option::Some(NodeView::Task(t)) => find_first_res(
                            t.outputs,
                            barrier_uid(g.nodes, node),
                        ),
                        _ => Option::None,
                    }
                } else {
                    Option::None
                }
            },
            Option::None => Option::None,
        }
    }
}

// ------------------------------------------------------------------------
// Barrier merging: implementation.
// ------------------------------------------------------------------------

/// Slot `q` is its own group's representative.
pub open spec fn is_rep(g: TaskGraphView, q: int) -> bool {
    barrier_at(g.nodes, q) && rep_of(g.nodes, barrier_uid(g.nodes, q)) == Option::Some(q)
}

/// Consumer data collected for one barrier: the guarded resource identity
/// and the consumer's usage, stage and access flags.
struct BarrierInfo {
    resource: VirtualResource,
    usage: ResourceUsage,
    stage: u64,
    access: u64,
}

/// What one collected entry means relative to the graph.
spec fn info_ok(g: TaskGraphView, q: int, inf: Option<BarrierInfo>) -> bool {
    match inf {
        Option::Some(bi) => barrier_at(g.nodes, q) && bi.resource@.uid() == barrier_uid(g.nodes, q)
            && (barrier_dst_res(g, q) matches Option::Some(c) && bi.usage@ == c.usage && bi.stage
            == c.stage && bi.access == spec_access(c.usage)),
        Option::None => !barrier_at(g.nodes, q),
    }
}

/// What one representative entry means relative to the graph.
spec fn rep_ok(g: TaskGraphView, q: int, r: usize) -> bool {
    barrier_at(g.nodes, q) ==> rep_of(g.nodes, barrier_uid(g.nodes, q)) == Option::Some(r as int)
}

/// What a found first barrier of a group means.
proof fn lemma_first_barrier_from_props(nodes: Seq<Option<NodeView>>, u: (Seq<char>, u64), j: int)
    requires
        0 <= j,
    ensures
        match first_barrier_from(nodes, u, j) {
            Option::Some(q) => j <= q < nodes.len() && barrier_at(nodes, q) && barrier_uid(
                nodes,
                q,
            ) == u,
            Option::None => forall|q: int|
                j <= q < nodes.len() ==> !(#[trigger] barrier_at(nodes, q) && barrier_uid(nodes, q)
                    == u),
        },
    decreases nodes.len() - j,
{
    if 0 <= j < nodes.len() && !(barrier_at(nodes, j) && barrier_uid(nodes, j) == u) {
        lemma_first_barrier_from_props(nodes, u, j + 1);
    }
}

/// An outgoing edge guarantees that the first outgoing edge exists.
pub proof fn lemma_first_out_edge_some(edges: Seq<EdgeView>, node: int)
    requires
        exists|k: int| 0 <= k < edges.len() && (#[trigger] edges[k]).src as int == node,
    ensures
        first_out_edge(edges, node) is Some,
{
    lemma_first_out_edge_from_props(edges, node, 0);
    if first_out_edge(edges, node) is None {
        let k = choose|k: int| 0 <= k < edges.len() && (#[trigger] edges[k]).src as int == node;
        assert(false);
    }
}

/// The group representative of the barrier at `i`: the lowest slot holding
/// a barrier with the same resource identity.
fn find_rep(info: &Vec<Option<BarrierInfo>>, Ghost(g): Ghost<TaskGraphView>, i: usize) -> (r:
    usize)
    requires
        info@.len() == g.nodes.len(),
        forall|q: int| 0 <= q < info@.len() ==> info_ok(g, q, #[trigger] info@[q]),
        i < info@.len(),
        info@[i as int] is Some,
    ensures
        r <= i,
        rep_of(g.nodes, barrier_uid(g.nodes, i as int)) == Option::Some(r as int),
{
    let ghost u = barrier_uid(g.nodes, i as int);
    let mut j: usize = 0;
    while j < i
        invariant
            info@.len() == g.nodes.len(),
            forall|q: int| 0 <= q < info@.len() ==> info_ok(g, q, #[trigger] info@[q]),
            i < info@.len(),
            info@[i as int] is Some,
            u == barrier_uid(g.nodes, i as int),
            j <= i,
            rep_of(g.nodes, u) == first_barrier_from(g.nodes, u, j as int),
        decreases i - j,
    {
        let hit: bool = match &info[j] {
            Option::Some(bj) => match &info[i] {
                Option::Some(bi) => bj.resource.same_uid(&bi.resource),
                Option::None => false,
            },
            Option::None => false,
        };
        if hit {
            proof {
                assert(info_ok(g, j as int, info@[j as int]));
                assert(barrier_at(g.nodes, j as int) && barrier_uid(g.nodes, j as int) == u);
                assert(first_barrier_from(g.nodes, u, j as int) == Option::Some(j as int));
            }
            return j;
        }
        proof {
            assert(info_ok(g, j as int, info@[j as int]));
            if barrier_at(g.nodes, j as int) {
                assert(info@[j as int] is Some);
                assert(barrier_uid(g.nodes, j as int) != u);
            }
        }
        j = j + 1;
    }
    proof {
        assert(barrier_at(g.nodes, i as int) && barrier_uid(g.nodes, i as int) == u);
        assert(first_barrier_from(g.nodes, u, i as int) == Option::Some(i as int));
    }
    i
}

impl PassGraph {
    /// Merge barriers that guard the same resource: each group keeps its
    /// lowest-index barrier as the representative, the consumers of the
    /// others are redirected onto it, and the representative's destination
    /// stage and access masks become the bitwise OR over the whole group.
    /// Fails with [`Error::IllegalTaskGraph`], leaving the graph untouched,
    /// exactly when any two barriers of one group guard writes with
    /// different usages — compatibility is checked pairwise over the whole
    /// group, so the outcome does not depend on insertion order.
    fn merge_identical_barriers(&mut self) -> (res: Result<(), Error>)
        requires
            merge_pre(old(self)@.graph),
        ensures
            match spec_merge(old(self)@.graph) {
                Result::Ok(gv) => res is Ok && final(self)@ == (PassGraphView {
                    graph: gv,
                    ..old(self)@
                }),
                Result::Err(e) => res == Result::Err::<(), Error>(e) && final(self)@ == old(
                    self,
                )@,
            },
    {
        let ghost pg0 = self@;
        let ghost g = self@.graph;
        let n = self.graph.nodes.len();

        // Collect each barrier's consumer declaration.
        let mut info: Vec<Option<BarrierInfo>> = Vec::new();
        let mut i: usize = 0;
        while i < n
            invariant
                g == self@.graph,
                merge_pre(g),
                n == g.nodes.len(),
                i <= n,
                info@.len() == i as int,
                forall|q: int| 0 <= q < i ==> info_ok(g, q, #[trigger] info@[q]),
            decreases n - i,
        {
            let ghost prev = info@;
            let is_b: bool = match &self.graph.nodes[i] {
                Option::Some(Node::Barrier(_)) => true,
                _ => false,
            };
            proof {
                assert(slot_view(self.graph.nodes@[i as int]) == g.nodes[i as int]);
                assert(is_b == barrier_at(g.nodes, i as int));
            }
            if is_b {
                let c = match PassGraph::barrier_dst_resource(&self.graph, i) {
                    Result::Ok(c) => c,
                    Result::Err(_) => {
                        proof {
                            assert(barrier_dst_res(g, i as int) is Some);
                            assert(false);
                        }
                        unreached()
                    },
                };
                let b_res: VirtualResource = match &self.graph.nodes[i] {
                    Option::Some(Node::Barrier(b)) => b.resource.resource.clone(),
                    _ => {
                        proof {
                            assert(false);
                        }
                        unreached()
                    },
                };
                let acc_v = c.usage.access();
                let stage_v = c.stage;
                info.push(
                    Option::Some(
                        BarrierInfo { resource: b_res, usage: c.usage, stage: stage_v, access: acc_v },
                    ),
                );
            } else {
                info.push(Option::None);
            }
            proof {
                assert(info@.len() == prev.len() + 1);
                assert forall|q: int| 0 <= q < i + 1 implies info_ok(g, q, #[trigger] info@[q]) by {
                    if q < i as int {
                        assert(info@[q] == prev[q]);
                    }
                }
            }
            i = i + 1;
        }

        // Reject conflicting writes: any two members of one group that both
        // write with different usages.
        let mut a: usize = 0;
        while a < n
            invariant
                g == self@.graph,
                self@ == pg0,
                merge_pre(g),
                n == g.nodes.len(),
                info@.len() == n as int,
                forall|q: int| 0 <= q < n ==> info_ok(g, q, #[trigger] info@[q]),
                a <= n,
                forall|x: int, y: int| 0 <= x < y < n && x < a ==> !conflict_pair(g, x, y),
            decreases n - a,
        {
            let mut b2: usize = a + 1;
            while b2 < n
                invariant
                    g == self@.graph,
                    self@ == pg0,
                    merge_pre(g),
                    n == g.nodes.len(),
                    info@.len() == n as int,
                    forall|q: int| 0 <= q < n ==> info_ok(g, q, #[trigger] info@[q]),
                    a < n,
                    a < b2 <= n,
                    forall|x: int, y: int| 0 <= x < y < n && x < a ==> !conflict_pair(g, x, y),
                    forall|y: int| a < y < b2 ==> !conflict_pair(g, a as int, y),
                decreases n - b2,
            {
                let bad: bool = match &info[a] {
                    Option::Some(ba) => match &info[b2] {
                        Option::Some(bb) => {
                            if ba.resource.same_uid(&bb.resource) {
                                !ba.usage.is_read() && !bb.usage.is_read() && !ba.usage.same_usage(
                                    &bb.usage,
                                )
                            } else {
                                false
                            }
                        },
                        Option::None => false,
                    },
                    Option::None => false,
                };
                proof {
                    assert(info_ok(g, a as int, info@[a as int]));
                    assert(info_ok(g, b2 as int, info@[b2 as int]));
                }
                if bad {
                    proof {
                        assert(conflict_pair(g, a as int, b2 as int));
                        assert(has_conflict(g));
                    }
                    return Result::Err(Error::IllegalTaskGraph);
                }
                proof {
                    assert(!conflict_pair(g, a as int, b2 as int));
                }
                b2 = b2 + 1;
            }
            a = a + 1;
        }
        proof {
            assert(!has_conflict(g)) by {
                if has_conflict(g) {
                    let (x, y) = choose|x: int, y: int| conflict_pair(g, x, y);
                    assert(barrier_at(g.nodes, x) && barrier_at(g.nodes, y));
                    assert(false);
                }
            }
        }

        // Compute each barrier's representative.
        let mut rep: Vec<usize> = Vec::new();
        let mut i2: usize = 0;
        while i2 < n
            invariant
                g == self@.graph,
                self@ == pg0,
                merge_pre(g),
                n == g.nodes.len(),
                info@.len() == n as int,
                forall|q: int| 0 <= q < n ==> info_ok(g, q, #[trigger] info@[q]),
                i2 <= n,
                rep@.len() == i2 as int,
                forall|q: int| 0 <= q < i2 ==> rep_ok(g, q, #[trigger] rep@[q]) && rep@[q] <= q,
            decreases n - i2,
        {
            let ghost prev = rep@;
            let has_info = info[i2].is_some();
            if has_info {
                let r = find_rep(&info, Ghost(g), i2);
                rep.push(r);
            } else {
                rep.push(i2);
            }
            proof {
                assert forall|q: int|
                    0 <= q < i2 + 1 implies rep_ok(g, q, #[trigger] rep@[q]) && rep@[q] <= q by {
                    if q < i2 as int {
                        assert(rep@[q] == prev[q]);
                    } else {
                        if barrier_at(g.nodes, q) {
                            assert(info_ok(g, q, info@[q]));
                            assert(info@[q] is Some);
                        }
                    }
                }
            }
            i2 = i2 + 1;
        }

        // Accumulate each group's destination flags onto its representative.
        let mut acc: Vec<(u64, u64)> = Vec::new();
        let mut i3: usize = 0;
        while i3 < n
            invariant
                i3 <= n,
                acc@.len() == i3 as int,
                forall|q: int| 0 <= q < i3 ==> (#[trigger] acc@[q]) == (STAGE_NONE, ACCESS_NONE),
            decreases n - i3,
        {
            acc.push((STAGE_NONE, ACCESS_NONE));
            i3 = i3 + 1;
        }
        let mut i4: usize = 0;
        proof {
            assert forall|q: int| 0 <= q < n && is_rep(g, q) implies (#[trigger] acc@[q])
                == group_flags(g, barrier_uid(g.nodes, q), 0) by {}
        }
        while i4 < n
            invariant
                g == self@.graph,
                self@ == pg0,
                merge_pre(g),
                n == g.nodes.len(),
                info@.len() == n as int,
                forall|q: int| 0 <= q < n ==> info_ok(g, q, #[trigger] info@[q]),
                rep@.len() == n as int,
                forall|q: int| 0 <= q < n ==> rep_ok(g, q, #[trigger] rep@[q]) && rep@[q] <= q,
                i4 <= n,
                acc@.len() == n as int,
                forall|q: int|
                    0 <= q < n && is_rep(g, q) ==> (#[trigger] acc@[q]) == group_flags(
                        g,
                        barrier_uid(g.nodes, q),
                        i4 as int,
                    ),
            decreases n - i4,
        {
            let ghost acc_prev = acc@;
            let has_info = info[i4].is_some();
            if has_info {
                let r = rep[i4];
                proof {
                    assert(info_ok(g, i4 as int, info@[i4 as int]));
                    assert(barrier_at(g.nodes, i4 as int));
                    assert(rep_ok(g, i4 as int, rep@[i4 as int]));
                    lemma_first_barrier_from_props(g.nodes, barrier_uid(g.nodes, i4 as int), 0);
                    assert(r < n);
                }
                let cur = acc[r];
                let bi_stage: u64 = match &info[i4] {
                    Option::Some(bi) => bi.stage,
                    Option::None => 0,
                };
                let bi_access: u64 = match &info[i4] {
                    Option::Some(bi) => bi.access,
                    Option::None => 0,
                };
                acc.set(r, (cur.0 | bi_stage, cur.1 | bi_access));
                proof {
                    let u_i = barrier_uid(g.nodes, i4 as int);
                    lemma_first_barrier_from_props(g.nodes, u_i, 0);
                    assert(barrier_uid(g.nodes, r as int) == u_i);
                    assert forall|q: int|
                        0 <= q < n && is_rep(g, q) implies (#[trigger] acc@[q]) == group_flags(
                        g,
                        barrier_uid(g.nodes, q),
                        i4 + 1,
                    ) by {
                        let u_q = barrier_uid(g.nodes, q);
                        if u_q == u_i {
                            assert(rep_of(g.nodes, u_q) == Option::Some(q));
                            assert(rep_of(g.nodes, u_i) == Option::Some(r as int));
                            assert(q == r as int);
                            assert(acc@[q] == (acc_prev[q].0 | bi_stage, acc_prev[q].1
                                | bi_access));
                        } else {
                            assert(q != r as int);
                            assert(acc@[q] == acc_prev[q]);
                        }
                    }
                }
            } else {
                proof {
                    assert(info_ok(g, i4 as int, info@[i4 as int]));
                    assert(!barrier_at(g.nodes, i4 as int));
                }
            }
            i4 = i4 + 1;
        }

        // Rewrite the node arena: drop merged barriers, give each
        // representative its accumulated flags.
        let ghost merged = Seq::new(g.nodes.len(), |q: int| merged_node(g, q));
        let ghost nodes0 = self.graph.nodes@;
        let mut i5: usize = 0;
        while i5 < n
            invariant
                node_views(nodes0) == g.nodes,
                merge_pre(g),
                n == g.nodes.len(),
                merged == Seq::new(g.nodes.len(), |q: int| merged_node(g, q)),
                info@.len() == n as int,
                forall|q: int| 0 <= q < n ==> info_ok(g, q, #[trigger] info@[q]),
                rep@.len() == n as int,
                forall|q: int| 0 <= q < n ==> rep_ok(g, q, #[trigger] rep@[q]) && rep@[q] <= q,
                acc@.len() == n as int,
                forall|q: int|
                    0 <= q < n && is_rep(g, q) ==> (#[trigger] acc@[q]) == group_flags(
                        g,
                        barrier_uid(g.nodes, q),
                        n as int,
                    ),
                i5 <= n,
                self.graph.nodes@.len() == n as int,
                edge_views(self.graph.edges@) == g.edges,
                self@.source == pg0.source,
                self@.swapchain == pg0.swapchain,
                self@.last_usages == pg0.last_usages,
                forall|q: int| 0 <= q < i5 ==> node_views(self.graph.nodes@)[q] == merged[q],
                forall|q: int| i5 <= q < n ==> self.graph.nodes@[q] == nodes0[q],
            decreases n - i5,
        {
            let ghost narena = self.graph.nodes@;
            let has_info = info[i5].is_some();
            proof {
                assert(self.graph.nodes@[i5 as int] == nodes0[i5 as int]);
                assert(slot_view(nodes0[i5 as int]) == g.nodes[i5 as int]);
                assert(info_ok(g, i5 as int, info@[i5 as int]));
            }
            if has_info {
                let r = rep[i5];
                proof {
                    assert(rep_ok(g, i5 as int, rep@[i5 as int]));
                }
                if r != i5 {
                    self.graph.nodes.set(i5, Option::None);
                    proof {
                        assert(is_removed(g.nodes, i5 as int));
                        assert(merged[i5 as int] is None);
                    }
                } else {
                    let b: PassResourceBarrier = match &self.graph.nodes[i5] {
                        Option::Some(Node::Barrier(b)) => b.clone(),
                        _ => {
                            proof {
                                assert(false);
                            }
                            unreached()
                        },
                    };
                    proof {
                        assert(b@ == barrier_of(g.nodes, i5 as int));
                        assert(is_rep(g, i5 as int));
                        assert(!is_removed(g.nodes, i5 as int));
                    }
                    let f = acc[i5];
                    let nb = PassResourceBarrier {
                        resource: b.resource,
                        src_access: b.src_access,
                        dst_access: f.1,
                        src_stage: b.src_stage,
                        dst_stage: f.0,
                    };
                    self.graph.nodes.set(i5, Option::Some(Node::Barrier(nb)));
                    proof {
                        let bv = barrier_of(g.nodes, i5 as int);
                        let fl = group_flags(g, barrier_uid(g.nodes, i5 as int), n as int);
                        assert(nb@ == (PassResourceBarrierView {
                            dst_stage: fl.0,
                            dst_access: fl.1,
                            ..bv
                        }));
                        assert(merged[i5 as int] == Option::Some(NodeView::Barrier(nb@)));
                    }
                }
            } else {
                proof {
                    assert(!barrier_at(g.nodes, i5 as int));
                    assert(!is_removed(g.nodes, i5 as int));
                    assert(merged[i5 as int] == g.nodes[i5 as int]);
                    assert(node_views(self.graph.nodes@)[i5 as int] == g.nodes[i5 as int]);
                }
            }
            proof {
                assert forall|q: int|
                    0 <= q < i5 + 1 implies node_views(self.graph.nodes@)[q] == merged[q] by {
                    if q < i5 as int {
                        assert(self.graph.nodes@[q] == narena[q]);
                        assert(node_views(narena)[q] == merged[q]);
                    }
                }
                assert forall|q: int|
                    i5 + 1 <= q < n implies self.graph.nodes@[q] == nodes0[q] by {
                    assert(self.graph.nodes@[q] == narena[q]);
                }
            }
            i5 = i5 + 1;
        }

        // Rewrite the edge list: drop edges into merged barriers, redirect
        // edges out of merged barriers onto the representative.
        let old_edges = crate::task_graph::clone_edges(&self.graph.edges);
        let mut new_edges: Vec<Edge> = Vec::new();
        let mut k: usize = 0;
        proof {
            assert(g.edges.take(0) =~= Seq::<EdgeView>::empty());
            assert(edge_views(new_edges@) =~= merge_edges_rec(g, g.edges.take(0)));
        }
        while k < old_edges.len()
            invariant
                edge_views(old_edges@) == g.edges,
                merge_pre(g),
                n == g.nodes.len(),
                info@.len() == n as int,
                forall|q: int| 0 <= q < n ==> info_ok(g, q, #[trigger] info@[q]),
                rep@.len() == n as int,
                forall|q: int| 0 <= q < n ==> rep_ok(g, q, #[trigger] rep@[q]) && rep@[q] <= q,
                k <= old_edges@.len(),
                old_edges@.len() == g.edges.len(),
                edge_views(new_edges@) == merge_edges_rec(g, g.edges.take(k as int)),
            decreases old_edges@.len() - k,
        {
            let ghost rpre = merge_edges_rec(g, g.edges.take(k as int));
            let ghost ev = g.edges[k as int];
            proof {
                assert(old_edges@[k as int]@ == ev);
                assert(g.edges.take(k + 1).drop_last() =~= g.edges.take(k as int));
                assert(g.edges.take(k + 1).last() == ev);
                assert(ev.src < n && ev.dst < n);
            }
            let e_src = old_edges[k].src;
            let e_dst = old_edges[k].dst;
            let dst_removed = info[e_dst].is_some() && rep[e_dst] != e_dst;
            let src_removed = info[e_src].is_some() && rep[e_src] != e_src;
            proof {
                assert(info_ok(g, e_dst as int, info@[e_dst as int]));
                assert(info_ok(g, e_src as int, info@[e_src as int]));
                assert(rep_ok(g, e_dst as int, rep@[e_dst as int]));
                assert(rep_ok(g, e_src as int, rep@[e_src as int]));
                assert(dst_removed == is_removed(g.nodes, ev.dst as int));
                assert(src_removed == is_removed(g.nodes, ev.src as int));
            }
            if dst_removed {
                proof {
                    assert(merge_edges_rec(g, g.edges.take(k + 1)) == rpre);
                }
            } else if src_removed {
                let r = rep[e_src];
                let ghost enew = EdgeView {
                    src: rep_of(g.nodes, barrier_uid(g.nodes, ev.src as int))->Some_0 as usize,
                    dst: ev.dst,
                    resource: ev.resource,
                };
                let ghost prev = new_edges@;
                new_edges.push(
                    Edge { src: r, dst: e_dst, resource: old_edges[k].resource.clone() },
                );
                proof {
                    assert(rep_of(g.nodes, barrier_uid(g.nodes, ev.src as int)) == Option::Some(
                        r as int,
                    ));
                    assert(new_edges@ == prev.push(new_edges@[prev.len() as int]));
                    assert(new_edges@[prev.len() as int]@ == enew);
                    assert(edge_views(prev).len() == prev.len());
                    assert forall|q: int|
                        0 <= q < prev.len() implies edge_views(new_edges@)[q] == edge_views(
                        prev,
                    )[q] by {
                        assert(new_edges@[q] == prev[q]);
                    }
                    assert(edge_views(new_edges@)[prev.len() as int] == enew);
                    assert(edge_views(new_edges@) =~= rpre.push(enew));
                    assert(merge_edges_rec(g, g.edges.take(k + 1)) == rpre.push(enew));
                }
            } else {
                let ghost prev = new_edges@;
                new_edges.push(old_edges[k].clone());
                proof {
                    assert(new_edges@ == prev.push(new_edges@[prev.len() as int]));
                    assert(new_edges@[prev.len() as int]@ == ev);
                    assert(edge_views(prev).len() == prev.len());
                    assert forall|q: int|
                        0 <= q < prev.len() implies edge_views(new_edges@)[q] == edge_views(
                        prev,
                    )[q] by {
                        assert(new_edges@[q] == prev[q]);
                    }
                    assert(edge_views(new_edges@) =~= rpre.push(ev));
                    assert(merge_edges_rec(g, g.edges.take(k + 1)) == rpre.push(ev));
                }
            }
            k = k + 1;
        }
        self.graph.edges = new_edges;
        proof {
            assert(g.edges.take(g.edges.len() as int) =~= g.edges);
            let gv = spec_merge(g)->Ok_0;
            assert(node_views(self.graph.nodes@) =~= merged);
            assert(self@.graph.nodes == gv.nodes);
            assert(self@.graph.edges == gv.edges);
            assert(self@.graph == gv);
            assert(self@ == (PassGraphView { graph: gv, ..pg0 }));
        }
        Result::Ok(())
    }
}

/// Some edge leaves node `node`.
pub open spec fn has_out_edge(edges: Seq<EdgeView>, node: int) -> bool {
    exists|k: int| 0 <= k < edges.len() && (#[trigger] edges[k]).src as int == node
}

/// The shape of every edge produced by barrier creation: a barrier's
/// outgoing edge reaches a task consuming its resource; its incoming edge
/// comes from inside the original arena; kept edges are unchanged.
pub open spec fn cb_edge_ok(
    nodes0: Seq<Option<NodeView>>,
    base: int,
    newnodes: Seq<Option<NodeView>>,
    e: EdgeView,
) -> bool {
    if e.src as int >= base {
        &&& e.src as int - base < newnodes.len()
        &&& (e.dst as int) < base
        &&& nodes0[e.dst as int] matches Option::Some(NodeView::Task(t)) && (exists|w: int|
            0 <= w < t.inputs.len() && (#[trigger] t.inputs[w]).resource.uid() == e.resource.uid())
        &&& newnodes[e.src as int - base] matches Option::Some(NodeView::Barrier(b))
            && b.resource.resource.uid() == e.resource.uid()
    } else if e.dst as int >= base {
        &&& e.dst as int - base < newnodes.len()
        &&& (e.src as int) < base
    } else {
        edge_endpoints_ok(nodes0, e)
    }
}

/// Structural facts about the barrier-creation transformation, by
/// induction over the edge list.
proof fn lemma_cb_rec_props(nodes0: Seq<Option<NodeView>>, edges: Seq<EdgeView>, base: int)
    requires
        base == nodes0.len(),
        nodes0.len() + edges.len() <= usize::MAX,
        forall|k: int| 0 <= k < edges.len() ==> edge_endpoints_ok(nodes0, #[trigger] edges[k]),
    ensures
        ({
            let r = cb_rec(nodes0, edges, base);
            &&& r.0.len() <= edges.len()
            &&& forall|m: int|
                0 <= m < r.0.len() ==> ((#[trigger] r.0[m]) matches Option::Some(
                    NodeView::Barrier(_),
                ))
            &&& forall|k: int| 0 <= k < r.1.len() ==> cb_edge_ok(nodes0, base, r.0, #[trigger] r.1[k])
            &&& forall|m: int| 0 <= m < r.0.len() ==> #[trigger] has_out_edge(r.1, base + m)
        }),
    decreases edges.len(),
{
    if edges.len() > 0 {
        lemma_cb_rec_props(nodes0, edges.drop_last(), base);
        let rp = cb_rec(nodes0, edges.drop_last(), base);
        let r = cb_rec(nodes0, edges, base);
        let e = edges.last();
        assert(edges[edges.len() - 1] == e);
        assert(edge_endpoints_ok(nodes0, e));
        if barrier_needed(nodes0, e) {
            let p = producer_res(nodes0, e)->Some_0;
            let bidx = (base + rp.0.len()) as usize;
            let tp = nodes0[e.src as int]->Some_0->Task_0;
            lemma_find_first_res_props(tp.outputs, e.resource.uid());
            assert(p.resource.uid() == e.resource.uid());
            let e1 = EdgeView { src: e.src, dst: bidx, resource: e.resource };
            let e2 = EdgeView { src: bidx, dst: e.dst, resource: e.resource };
            assert(r.0 == rp.0.push(Option::Some(NodeView::Barrier(spec_new_barrier(p)))));
            assert(r.1 == rp.1 + seq![e1, e2]);
            assert forall|m: int|
                0 <= m < r.0.len() implies (#[trigger] r.0[m]) matches Option::Some(
                NodeView::Barrier(_),
            ) by {
                if m < rp.0.len() {
                    assert(r.0[m] == rp.0[m]);
                }
            }
            assert forall|k: int|
                0 <= k < r.1.len() implies cb_edge_ok(nodes0, base, r.0, #[trigger] r.1[k]) by {
                if k < rp.1.len() {
                    assert(r.1[k] == rp.1[k]);
                    assert(cb_edge_ok(nodes0, base, rp.0, rp.1[k]));
                    if rp.1[k].src as int >= base {
                        assert(r.0[rp.1[k].src as int - base] == rp.0[rp.1[k].src as int - base]);
                    }
                } else if k == rp.1.len() {
                    assert(r.1[k] == e1);
                    assert(e1.dst as int == base + rp.0.len());
                } else {
                    assert(r.1[k] == e2);
                    assert(e2.src as int - base == rp.0.len());
                    assert(r.0[rp.0.len() as int] == Option::Some(
                        NodeView::Barrier(spec_new_barrier(p)),
                    ));
                    let tc = nodes0[e.dst as int]->Some_0->Task_0;
                    assert(slot_consumes(nodes0[e.dst as int], e.resource.uid()));
                    let w = choose|w: int|
                        0 <= w < node_inputs(nodes0[e.dst as int]->Some_0).len() && (
                        #[trigger] node_inputs(nodes0[e.dst as int]->Some_0)[w]).resource.uid()
                            == e.resource.uid();
                    assert(tc.inputs[w].resource.uid() == e.resource.uid());
                }
            }
            assert forall|m: int|
                0 <= m < r.0.len() implies #[trigger] has_out_edge(r.1, base + m) by {
                if m < rp.0.len() {
                    assert(has_out_edge(rp.1, base + m));
                    let k = choose|k: int|
                        0 <= k < rp.1.len() && (#[trigger] rp.1[k]).src as int == base + m;
                    assert(r.1[k] == rp.1[k]);
                    assert(r.1[k].src as int == base + m);
                } else {
                    assert(r.1[rp.1.len() as int + 1] == e2);
                    assert(r.1[rp.1.len() as int + 1].src as int == base + m);
                }
            }
        } else {
            assert(r.0 == rp.0);
            assert(r.1 == rp.1.push(e));
            assert forall|m: int|
                0 <= m < r.0.len() implies ((#[trigger] r.0[m]) matches Option::Some(
                NodeView::Barrier(_),
            )) by {
                assert(r.0[m] == rp.0[m]);
            }
            assert forall|k: int|
                0 <= k < r.1.len() implies cb_edge_ok(nodes0, base, r.0, #[trigger] r.1[k]) by {
                if k < rp.1.len() {
                    assert(r.1[k] == rp.1[k]);
                } else {
                    assert(r.1[k] == e);
                    assert(e.src < nodes0.len() && e.dst < nodes0.len());
                }
            }
            assert forall|m: int|
                0 <= m < r.0.len() implies #[trigger] has_out_edge(r.1, base + m) by {
                assert(has_out_edge(rp.1, base + m));
                let k = choose|k: int|
                    0 <= k < rp.1.len() && (#[trigger] rp.1[k]).src as int == base + m;
                assert(r.1[k] == rp.1[k]);
                assert(r.1[k].src as int == base + m);
            }
        }
    }
}

/// Barrier creation leaves the graph ready for the merge: edges stay
/// inside the arena and every barrier's consumer resolves.
pub proof fn lemma_create_barriers_merge_pre(g: TaskGraphView)
    requires
        edges_wf(g),
        all_tasks(g.nodes),
        g.nodes.len() + g.edges.len() <= usize::MAX,
    ensures
        merge_pre(spec_create_barriers(g)),
        barrier_edges_consistent(spec_create_barriers(g)),
{
    let base = g.nodes.len() as int;
    lemma_cb_rec_props(g.nodes, g.edges, base);
    let r = cb_rec(g.nodes, g.edges, base);
    let gv = spec_create_barriers(g);
    assert(gv.nodes.len() == base + r.0.len());
    assert forall|k: int|
        0 <= k < gv.edges.len() implies (#[trigger] gv.edges[k]).src < gv.nodes.len()
        && gv.edges[k].dst < gv.nodes.len() by {
        assert(cb_edge_ok(g.nodes, base, r.0, r.1[k]));
    }
    assert forall|i: int| #[trigger] barrier_at(gv.nodes, i) implies barrier_dst_res(
        gv,
        i,
    ) is Some by {
        if i < base {
            assert(gv.nodes[i] == g.nodes[i]);
            assert(g.nodes[i] matches Option::Some(NodeView::Task(_)));
            assert(false);
        } else {
            let m = i - base;
            assert(gv.nodes[i] == r.0[m]);
            assert(has_out_edge(r.1, base + m));
            lemma_first_out_edge_some(gv.edges, i);
            lemma_first_out_edge_from_props(gv.edges, i, 0);
            let kk = first_out_edge(gv.edges, i)->Some_0;
            let e = gv.edges[kk];
            assert(e.src as int == i);
            assert(cb_edge_ok(g.nodes, base, r.0, e));
            assert(gv.nodes[e.dst as int] == g.nodes[e.dst as int]);
            let t = g.nodes[e.dst as int]->Some_0->Task_0;
            assert(barrier_uid(gv.nodes, i) == e.resource.uid());
            lemma_find_first_res_some(t.inputs, e.resource.uid());
        }
    }
    assert forall|k: int|
        0 <= k < gv.edges.len() && barrier_at(gv.nodes, (#[trigger] gv.edges[k]).src as int) implies {
        let e = gv.edges[k];
        &&& (e.dst as int) < gv.nodes.len()
        &&& !barrier_at(gv.nodes, e.dst as int)
        &&& !is_removed(gv.nodes, e.dst as int)
        &&& (gv.nodes[e.dst as int] matches Option::Some(NodeView::Task(t)) && (exists|w: int|
            0 <= w < t.inputs.len() && (#[trigger] t.inputs[w]).resource.uid() == barrier_uid(
                gv.nodes,
                e.src as int,
            )))
    } by {
        let e = gv.edges[k];
        assert(cb_edge_ok(g.nodes, base, r.0, e));
        if (e.src as int) < base {
            assert(gv.nodes[e.src as int] == g.nodes[e.src as int]);
            assert(g.nodes[e.src as int] matches Option::Some(NodeView::Task(_)));
            assert(false);
        }
        assert(gv.nodes[e.dst as int] == g.nodes[e.dst as int]);
        assert(g.nodes[e.dst as int] matches Option::Some(NodeView::Task(_)));
        assert(gv.nodes[e.src as int] == r.0[e.src as int - base]);
        assert(barrier_uid(gv.nodes, e.src as int) == e.resource.uid());
    }
}

/// Stage assignment changes only stages: the staged graph is still a
/// well-formed graph of tasks, with unchanged node and edge counts.
pub proof fn lemma_set_source_stages_wf(pg: PassGraphView)
    requires
        pg_wf(pg),
    ensures
        edges_wf(spec_set_source_stages(pg).graph),
        all_tasks(spec_set_source_stages(pg).graph.nodes),
        spec_set_source_stages(pg).graph.nodes.len() == pg.graph.nodes.len(),
        spec_set_source_stages(pg).graph.edges == pg.graph.edges,
{
    let src0 = source_task(pg);
    let src2 = PassNodeView {
        outputs: src0.outputs.map_values(|o: PassResourceView| spec_assign_stage(pg, o)),
        ..src0
    };
    let g2 = spec_set_source_stages(pg).graph;
    assert forall|k: int|
        0 <= k < src0.outputs.len() implies (#[trigger] src2.outputs[k]).resource
        == src0.outputs[k].resource by {
        assert(src2.outputs[k] == spec_assign_stage(pg, src0.outputs[k]));
    }
    lemma_graph_wf_outputs_same_resources(pg.graph, g2, src0, src2);
    assert forall|q: int|
        0 <= q < g2.nodes.len() implies (#[trigger] g2.nodes[q]) matches Option::Some(
        NodeView::Task(_),
    ) by {
        if q != 0 {
            assert(g2.nodes[q] == pg.graph.nodes[q]);
        }
    }
}

/// A pass graph whose build has finished: an immutable value holding the
/// synchronized task/barrier graph, ready for command recording.
#[derive(Debug)]
pub struct BuiltPassGraph {
    /// The finished pass graph; construction is over, it is only read now.
    pub graph: PassGraph,
}

impl View for BuiltPassGraph {
    type V = PassGraphView;

    open spec fn view(&self) -> PassGraphView {
        self.graph@
    }
}

impl BuiltPassGraph {
    /// The underlying pass graph.
    pub fn graph(&self) -> (r: &PassGraph)
        ensures
            r@ == self@,
    {
        &self.graph
    }

    /// The underlying task graph, for walking the built nodes.
    pub fn task_graph(&self) -> (r: &TaskGraph)
        ensures
            r@ == self@.graph,
    {
        self.graph.task_graph()
    }

    /// The total amount of nodes in the graph, removed slots included.
    pub fn num_nodes(&self) -> (r: usize)
        ensures
            r == self@.graph.nodes.len(),
    {
        self.graph.num_nodes()
    }
}

impl PassGraph {
    /// Build the pass graph so it can be recorded into a command buffer:
    /// assign cross-frame stages to the source outputs, synthesize a
    /// barrier for every producer/consumer edge whose endpoint states
    /// differ, and merge the barriers of each resource. Fails with
    /// [`Error::IllegalTaskGraph`] exactly when two merged barriers guard
    /// conflicting writes; no partial graph is ever returned.
    pub fn build(self) -> (res: Result<BuiltPassGraph, Error>)
        requires
            pg_wf(self@),
            self@.graph.nodes.len() + self@.graph.edges.len() <= usize::MAX,
        ensures
            match spec_build(self@) {
                Result::Ok(pgv) => res matches Result::Ok(b) && b@ == pgv,
                Result::Err(e) => res matches Result::Err(e2) && e2 == e,
            },
    {
        let mut s = self;
        let ghost pg0 = s@;
        s.set_source_stages();
        let ghost pg1 = s@;
        proof {
            lemma_create_barriers_merge_pre(pg1.graph);
        }
        s.graph.create_barrier_nodes();
        proof {
            assert(s@.graph == spec_create_barriers(pg1.graph));
            assert(s@.source == pg1.source && s@.swapchain == pg1.swapchain && s@.last_usages
                == pg1.last_usages);
        }
        let ghost pg2 = s@;
        match s.merge_identical_barriers() {
            Result::Ok(()) => {
                proof {
                    let gv = spec_merge(pg2.graph)->Ok_0;
                    assert(s@ == (PassGraphView { graph: gv, ..pg2 }));
                    let pgv = spec_build(pg0)->Ok_0;
                    assert(s@.graph == pgv.graph);
                    assert(s@.source == pgv.source);
                    assert(s@.swapchain == pgv.swapchain);
                    assert(s@.last_usages == pgv.last_usages);
                    assert(s@ == pgv);
                }
                Result::Ok(BuiltPassGraph { graph: s })
            },
            Result::Err(e) => Result::Err(e),
        }
    }
}

// ------------------------------------------------------------------------
// Barrier consumers stay resolvable through the build.
// ------------------------------------------------------------------------

/// Every outgoing edge of a live barrier reaches a task that consumes the
/// barrier's resource identity.
pub open spec fn barrier_edges_consistent(g: TaskGraphView) -> bool {
    forall|k: int|
        0 <= k < g.edges.len() && barrier_at(g.nodes, (#[trigger] g.edges[k]).src as int) ==> {
            let e = g.edges[k];
            &&& (e.dst as int) < g.nodes.len()
            &&& !barrier_at(g.nodes, e.dst as int)
            &&& !is_removed(g.nodes, e.dst as int)
            &&& (g.nodes[e.dst as int] matches Option::Some(NodeView::Task(t)) && (exists|w: int|
                0 <= w < t.inputs.len() && (#[trigger] t.inputs[w]).resource.uid() == barrier_uid(
                    g.nodes,
                    e.src as int,
                )))
        }
}

/// What each merged edge corresponds to: an original edge with live
/// endpoints, kept verbatim, or an original barrier out-edge redirected
/// onto its group representative.
pub open spec fn merged_edge_ok(g: TaskGraphView, edges: Seq<EdgeView>, e2: EdgeView) -> bool {
    exists|k0: int|
        0 <= k0 < edges.len() && {
            let e = #[trigger] edges[k0];
            &&& !is_removed(g.nodes, e.dst as int)
            &&& (if is_removed(g.nodes, e.src as int) {
                e2 == (EdgeView {
                    src: rep_of(g.nodes, barrier_uid(g.nodes, e.src as int))->Some_0 as usize,
                    dst: e.dst,
                    resource: e.resource,
                })
            } else {
                e2 == e
            })
        }
}

/// Every merged edge corresponds to an original one.
proof fn lemma_merge_edges_props(g: TaskGraphView, edges: Seq<EdgeView>)
    ensures
        forall|k: int|
            0 <= k < merge_edges_rec(g, edges).len() ==> merged_edge_ok(
                g,
                edges,
                #[trigger] merge_edges_rec(g, edges)[k],
            ),
    decreases edges.len(),
{
    if edges.len() > 0 {
        lemma_merge_edges_props(g, edges.drop_last());
        let r = merge_edges_rec(g, edges);
        let rest = merge_edges_rec(g, edges.drop_last());
        let e = edges.last();
        assert(edges[edges.len() - 1] == e);
        assert forall|k: int| 0 <= k < r.len() implies merged_edge_ok(g, edges, #[trigger] r[k]) by {
            if k < rest.len() {
                assert(r[k] == rest[k]);
                assert(merged_edge_ok(g, edges.drop_last(), rest[k]));
                let k0 = choose|k0: int|
                    0 <= k0 < edges.drop_last().len() && {
                        let e0 = #[trigger] edges.drop_last()[k0];
                        &&& !is_removed(g.nodes, e0.dst as int)
                        &&& (if is_removed(g.nodes, e0.src as int) {
                            rest[k] == (EdgeView {
                                src: rep_of(
                                    g.nodes,
                                    barrier_uid(g.nodes, e0.src as int),
                                )->Some_0 as usize,
                                dst: e0.dst,
                                resource: e0.resource,
                            })
                        } else {
                            rest[k] == e0
                        })
                    };
                assert(edges[k0] == edges.drop_last()[k0]);
            } else {
                // the last original edge produced this entry
                assert(!is_removed(g.nodes, e.dst as int));
            }
        }
    }
}

/// An original edge with live endpoints survives the merge verbatim.
proof fn lemma_merge_keeps_edge(g: TaskGraphView, edges: Seq<EdgeView>, k: int)
    requires
        0 <= k < edges.len(),
        !is_removed(g.nodes, edges[k].src as int),
        !is_removed(g.nodes, edges[k].dst as int),
    ensures
        merge_edges_rec(g, edges).contains(edges[k]),
    decreases edges.len(),
{
    let r = merge_edges_rec(g, edges);
    let rest = merge_edges_rec(g, edges.drop_last());
    if k == edges.len() - 1 {
        assert(r[rest.len() as int] == edges[k]);
    } else {
        assert(edges.drop_last()[k] == edges[k]);
        lemma_merge_keeps_edge(g, edges.drop_last(), k);
        let k1 = choose|k1: int| 0 <= k1 < rest.len() && rest[k1] == edges[k];
        assert(r[k1] == rest[k1]);
    }
}

/// After a successful merge, every remaining barrier still has a
/// resolvable consumer: its first outgoing edge reaches a task holding an
/// input with the barrier's resource identity. The recording layer can
/// therefore always look a barrier's destination up.
pub proof fn lemma_merge_resolves_barriers(g: TaskGraphView)
    requires
        merge_pre(g),
        barrier_edges_consistent(g),
        !has_conflict(g),
        g.nodes.len() <= usize::MAX,
    ensures
        ({
            let gv = spec_merge(g)->Ok_0;
            forall|i: int| #[trigger] barrier_at(gv.nodes, i) ==> barrier_dst_res(gv, i) is Some
        }),
{
    let gv = spec_merge(g)->Ok_0;
    lemma_merge_edges_props(g, g.edges);
    assert forall|i: int| #[trigger] barrier_at(gv.nodes, i) implies barrier_dst_res(
        gv,
        i,
    ) is Some by {
        assert(gv.nodes[i] == merged_node(g, i));
        assert(barrier_at(g.nodes, i));
        assert(!is_removed(g.nodes, i));
        assert(barrier_uid(gv.nodes, i) == barrier_uid(g.nodes, i));
        // The barrier keeps at least one outgoing edge: its original ones
        // survive because it is live and their targets are tasks.
        assert(barrier_dst_res(g, i) is Some);
        lemma_first_out_edge_from_props(g.edges, i, 0);
        let k_orig = first_out_edge(g.edges, i)->Some_0;
        assert(g.edges[k_orig].src as int == i);
        assert(barrier_at(g.nodes, g.edges[k_orig].src as int));
        assert(!is_removed(g.nodes, g.edges[k_orig].dst as int));
        lemma_merge_keeps_edge(g, g.edges, k_orig);
        let kk = choose|kk: int|
            0 <= kk < gv.edges.len() && gv.edges[kk] == g.edges[k_orig];
        assert(gv.edges[kk].src as int == i);
        assert(has_out_edge(gv.edges, i));
        lemma_first_out_edge_some(gv.edges, i);
        lemma_first_out_edge_from_props(gv.edges, i, 0);
        let kf = first_out_edge(gv.edges, i)->Some_0;
        let e2 = gv.edges[kf];
        assert(e2.src as int == i);
        // Whatever edge comes first, it reaches a task consuming the uid.
        assert(merged_edge_ok(g, g.edges, e2));
        let k0 = choose|k0: int|
            0 <= k0 < g.edges.len() && {
                let e0 = #[trigger] g.edges[k0];
                &&& !is_removed(g.nodes, e0.dst as int)
                &&& (if is_removed(g.nodes, e0.src as int) {
                    e2 == (EdgeView {
                        src: rep_of(g.nodes, barrier_uid(g.nodes, e0.src as int))->Some_0 as usize,
                        dst: e0.dst,
                        resource: e0.resource,
                    })
                } else {
                    e2 == e0
                })
            };
        let e0 = g.edges[k0];
        if is_removed(g.nodes, e0.src as int) {
            // Redirected: the representative shares the removed barrier's
            // resource identity.
            let u0 = barrier_uid(g.nodes, e0.src as int);
            lemma_first_barrier_from_props(g.nodes, u0, 0);
            if rep_of(g.nodes, u0) is None {
                assert(!(barrier_at(g.nodes, e0.src as int) && barrier_uid(
                    g.nodes,
                    e0.src as int,
                ) == u0));
                assert(false);
            }
            let j0 = rep_of(g.nodes, u0)->Some_0;
            assert(0 <= j0 < g.nodes.len());
            assert(j0 as usize as int == j0);
            assert(rep_of(g.nodes, u0)->Some_0 == i);
            assert(barrier_uid(g.nodes, i) == u0);
            assert(barrier_at(g.nodes, e0.src as int));
            let t = g.nodes[e0.dst as int]->Some_0->Task_0;
            assert(gv.nodes[e0.dst as int] == merged_node(g, e0.dst as int));
            assert(gv.nodes[e0.dst as int] == g.nodes[e0.dst as int]);
            lemma_find_first_res_some(t.inputs, barrier_uid(gv.nodes, i));
        } else {
            assert(e2 == e0);
            assert(e0.src as int == i);
            assert(barrier_at(g.nodes, e0.src as int));
            let t = g.nodes[e0.dst as int]->Some_0->Task_0;
            assert(gv.nodes[e0.dst as int] == merged_node(g, e0.dst as int));
            assert(gv.nodes[e0.dst as int] == g.nodes[e0.dst as int]);
            lemma_find_first_res_some(t.inputs, barrier_uid(gv.nodes, i));
        }
    }
}

} // verus!
