use phobos::pass::{Pass, PassResource};
use phobos::pass_graph::PassGraph;
use phobos::graphviz::GraphViz;
use phobos::resource::{
    ResourceUsage, VirtualResource, ACCESS_SHADER_READ, ACCESS_TRANSFER_READ,
    STAGE_COLOR_ATTACHMENT_OUTPUT,
};
use phobos::task_graph::Node;
use phobos::Error;

fn res(usage: ResourceUsage, resource: VirtualResource, stage: u64) -> PassResource {
    PassResource {
        usage,
        resource,
        stage,
        layout: 1,
        clear_value: None,
        load_op: None,
    }
}

fn pass(name: &str, inputs: Vec<PassResource>, outputs: Vec<PassResource>) -> Pass {
    Pass {
        name: name.to_string(),
        inputs,
        outputs,
        is_renderpass: false,
    }
}

#[test]
fn cyclic_passes_are_rejected() {
    let x1 = VirtualResource::image("x").upgrade();
    let y1 = VirtualResource::image("y").upgrade();
    let a = pass(
        "a",
        vec![res(ResourceUsage::ShaderRead, x1.clone(), 0x20)],
        vec![res(ResourceUsage::ShaderWrite, y1.clone(), 0x20)],
    );
    let b = pass(
        "b",
        vec![res(ResourceUsage::ShaderRead, y1.clone(), 0x20)],
        vec![res(ResourceUsage::ShaderWrite, x1.clone(), 0x20)],
    );
    let graph = PassGraph::new(None);
    let graph = graph.add_pass(a).expect("first pass is acyclic");
    let err = graph.add_pass(b).err().expect("cycle must be rejected");
    assert_eq!(err, Error::CyclicDependency);
}

#[test]
fn self_contained_chain_is_accepted() {
    let r0 = VirtualResource::image("chain");
    let r1 = r0.upgrade();
    let r2 = r1.upgrade();
    let p1 = pass(
        "p1",
        vec![res(ResourceUsage::ShaderRead, r0.clone(), 0x20)],
        vec![res(ResourceUsage::ShaderWrite, r1.clone(), 0x20)],
    );
    let p2 = pass(
        "p2",
        vec![res(ResourceUsage::ShaderRead, r1.clone(), 0x20)],
        vec![res(ResourceUsage::ShaderWrite, r2.clone(), 0x20)],
    );
    let graph = PassGraph::new(None);
    let graph = graph.add_pass(p1).unwrap();
    let graph = graph.add_pass(p2).unwrap();
    assert_eq!(graph.num_nodes(), 3); // source + two passes
    let built = graph.build().unwrap();
    assert!(built.num_nodes() >= 3);
}

/// Counts live barrier nodes guarding the given resource name.
fn barriers_guarding(built: &phobos::pass_graph::BuiltPassGraph, name: &str) -> Vec<(u64, u64)> {
    let mut out = Vec::new();
    let tg = built.task_graph();
    for slot in &tg.nodes {
        if let Some(Node::Barrier(b)) = slot {
            if b.resource.resource.name == name {
                out.push((b.dst_stage, b.dst_access));
            }
        }
    }
    out
}

#[test]
fn differing_edge_gets_exactly_one_barrier() {
    let r1 = VirtualResource::image("img").upgrade();
    let producer = pass(
        "producer",
        vec![],
        vec![res(ResourceUsage::ShaderWrite, r1.clone(), 0x40)],
    );
    let consumer = pass(
        "consumer",
        vec![res(ResourceUsage::ShaderRead, r1.clone(), 0x20)],
        vec![],
    );
    let graph = PassGraph::new(None);
    let built = graph
        .add_pass(producer)
        .unwrap()
        .add_pass(consumer)
        .unwrap()
        .build()
        .unwrap();
    let barriers = barriers_guarding(&built, "img");
    assert_eq!(barriers.len(), 1);
    assert_eq!(barriers[0].0, 0x20); // consumer stage
    assert_eq!(barriers[0].1, ACCESS_SHADER_READ);
}

#[test]
fn identical_edge_gets_no_barrier() {
    let r1 = VirtualResource::image("same").upgrade();
    // Producer and consumer declare the same usage, stage and layout, so
    // the edge needs no barrier.
    let producer = pass(
        "producer",
        vec![],
        vec![res(ResourceUsage::ShaderRead, r1.clone(), 0x20)],
    );
    let consumer = pass(
        "consumer",
        vec![res(ResourceUsage::ShaderRead, r1.clone(), 0x20)],
        vec![],
    );
    let graph = PassGraph::new(None);
    let built = graph
        .add_pass(producer)
        .unwrap()
        .add_pass(consumer)
        .unwrap()
        .build()
        .unwrap();
    assert_eq!(barriers_guarding(&built, "same").len(), 0);
    assert_eq!(built.num_nodes(), 3); // source + two tasks, nothing else
}

fn two_reader_flags(first_reader_first: bool) -> (u64, u64) {
    let r1 = VirtualResource::image("shared").upgrade();
    let writer = pass(
        "writer",
        vec![],
        vec![res(ResourceUsage::ShaderWrite, r1.clone(), 0x40)],
    );
    let reader_a = pass(
        "reader_a",
        vec![res(ResourceUsage::ShaderRead, r1.clone(), 0x8)],
        vec![],
    );
    let reader_b = pass(
        "reader_b",
        vec![res(ResourceUsage::TransferRead, r1.clone(), 0x1000)],
        vec![],
    );
    let graph = PassGraph::new(None).add_pass(writer).unwrap();
    let graph = if first_reader_first {
        graph.add_pass(reader_a).unwrap().add_pass(reader_b).unwrap()
    } else {
        graph.add_pass(reader_b).unwrap().add_pass(reader_a).unwrap()
    };
    let built = graph.build().unwrap();
    let barriers = barriers_guarding(&built, "shared");
    assert_eq!(barriers.len(), 1, "the two read barriers must merge into one");
    barriers[0]
}

#[test]
fn merged_reader_flags_are_ored_and_order_independent() {
    let (stage_ab, access_ab) = two_reader_flags(true);
    let (stage_ba, access_ba) = two_reader_flags(false);
    assert_eq!(stage_ab, 0x8 | 0x1000);
    assert_eq!(access_ab, ACCESS_SHADER_READ | ACCESS_TRANSFER_READ);
    assert_eq!(stage_ab, stage_ba);
    assert_eq!(access_ab, access_ba);
}

#[test]
fn conflicting_writes_are_rejected_at_build() {
    let r1 = VirtualResource::image("contested").upgrade();
    let producer = pass(
        "producer",
        vec![],
        vec![res(ResourceUsage::ShaderWrite, r1.clone(), 0x40)],
    );
    let write_a = pass(
        "write_a",
        vec![res(ResourceUsage::ShaderWrite, r1.clone(), 0x800)],
        vec![],
    );
    let write_b = pass(
        "write_b",
        vec![res(ResourceUsage::TransferWrite, r1.clone(), 0x1000)],
        vec![],
    );
    let err = PassGraph::new(None)
        .add_pass(producer)
        .unwrap()
        .add_pass(write_a)
        .unwrap()
        .add_pass(write_b)
        .unwrap()
        .build()
        .err()
        .expect("conflicting writes must abort the build");
    assert_eq!(err, Error::IllegalTaskGraph);
}

#[test]
fn history_source_output_gets_last_usage_stage() {
    let swap = VirtualResource::image("swapchain_image");
    let history = VirtualResource::image("history");
    let p = pass(
        "sample_history",
        vec![res(ResourceUsage::ShaderRead, history.clone(), 0x800)],
        vec![],
    );
    let built = PassGraph::new(Some(&swap)).add_pass(p).unwrap().build().unwrap();
    let tg = built.task_graph();
    let source = match &tg.nodes[0] {
        Some(Node::Task(t)) => t,
        other => panic!("slot 0 must hold the source task, found {:?}", other),
    };
    let out = source
        .outputs
        .iter()
        .find(|o| o.resource.name == "history")
        .expect("the history input must register a source output");
    assert_eq!(out.stage, 0x800);
}

#[test]
fn swapchain_source_output_gets_color_attachment_stage() {
    let swap = VirtualResource::image("swapchain_image");
    let p = pass(
        "draw",
        vec![res(
            ResourceUsage::ShaderRead,
            swap.clone(),
            0x80,
        )],
        vec![],
    );
    let built = PassGraph::new(Some(&swap)).add_pass(p).unwrap().build().unwrap();
    let tg = built.task_graph();
    let source = match &tg.nodes[0] {
        Some(Node::Task(t)) => t,
        other => panic!("slot 0 must hold the source task, found {:?}", other),
    };
    let out = source
        .outputs
        .iter()
        .find(|o| o.resource.name == "swapchain_image")
        .unwrap();
    assert_eq!(out.stage, STAGE_COLOR_ATTACHMENT_OUTPUT);
}

#[test]
fn barrier_dst_resource_rejects_task_nodes() {
    let graph = PassGraph::new(None);
    let r = PassGraph::barrier_dst_resource(graph.task_graph(), 0);
    assert_eq!(r.err().unwrap(), Error::NodeNotFound);
}

#[test]
fn dot_renders_stable_output() {
    let p = pass("p", vec![], vec![]);
    let built = PassGraph::new(None).add_pass(p).unwrap().build().unwrap();
    let rendered = built.task_graph().dot().unwrap();
    assert_eq!(
        rendered,
        "digraph {\n  0 [label=\"task _source\"]\n  1 [label=\"task p\"]\n}\n"
    );
}

#[test]
fn dot_renders_barriers_and_edges() {
    let r1 = VirtualResource::image("r").upgrade();
    let producer = pass(
        "producer",
        vec![],
        vec![res(ResourceUsage::ShaderWrite, r1.clone(), 0x40)],
    );
    let consumer = pass(
        "consumer",
        vec![res(ResourceUsage::ShaderRead, r1.clone(), 0x20)],
        vec![],
    );
    let built = PassGraph::new(None)
        .add_pass(producer)
        .unwrap()
        .add_pass(consumer)
        .unwrap()
        .build()
        .unwrap();
    let rendered = built.task_graph().dot().unwrap();
    assert!(rendered.starts_with("digraph {\n"));
    assert!(rendered.ends_with("}\n"));
    // ShaderWrite access is 64, ShaderRead access is 32.
    assert!(rendered.contains("barrier r+ access 64 to 32 stage 64 to 32"));
    assert!(rendered.contains("[label=\"r+\"]"));
}

#[test]
fn added_edge_is_never_dropped() {
    // A linear chain keeps its dependency edge through the build even when
    // no barrier is needed; with a barrier the path runs through it.
    let r1 = VirtualResource::image("kept").upgrade();
    let producer = pass(
        "producer",
        vec![],
        vec![res(ResourceUsage::ShaderWrite, r1.clone(), 0x40)],
    );
    let consumer = pass(
        "consumer",
        vec![res(ResourceUsage::ShaderRead, r1.clone(), 0x20)],
        vec![],
    );
    let built = PassGraph::new(None)
        .add_pass(producer)
        .unwrap()
        .add_pass(consumer)
        .unwrap()
        .build()
        .unwrap();
    let tg = built.task_graph();
    // producer is slot 1, consumer slot 2, the barrier slot 3
    let has_in = tg.edges.iter().any(|e| e.src == 1 && e.dst == 3);
    let has_out = tg.edges.iter().any(|e| e.src == 3 && e.dst == 2);
    assert!(has_in && has_out);
}

#[test]
fn two_passes_sharing_a_source_resource() {
    // Two passes read the same externally supplied resource; both get an
    // edge from the source node and the build succeeds.
    let ext = VirtualResource::image("external");
    let p1 = pass(
        "first",
        vec![res(ResourceUsage::ShaderRead, ext.clone(), 0x20)],
        vec![],
    );
    let p2 = pass(
        "second",
        vec![res(ResourceUsage::TransferRead, ext.clone(), 0x1000)],
        vec![],
    );
    let built = PassGraph::new(None)
        .add_pass(p1)
        .unwrap()
        .add_pass(p2)
        .unwrap()
        .build()
        .unwrap();
    let tg = built.task_graph();
    // Both handoffs differ from the source's declaration, so they run
    // through barriers; the two barriers guard the same identity and
    // merge into one that fans out to both consumers.
    let barrier_slots: Vec<usize> = tg
        .nodes
        .iter()
        .enumerate()
        .filter(|(_, slot)| matches!(slot, Some(Node::Barrier(_))))
        .map(|(i, _)| i)
        .collect();
    assert_eq!(barrier_slots.len(), 1);
    let b = barrier_slots[0];
    assert!(tg.edges.iter().any(|e| e.src == 0 && e.dst == b));
    assert!(tg.edges.iter().any(|e| e.src == b && e.dst == 1));
    assert!(tg.edges.iter().any(|e| e.src == b && e.dst == 2));
}

#[test]
fn built_barrier_consumer_resolves() {
    let r1 = VirtualResource::image("guarded").upgrade();
    let producer = pass(
        "producer",
        vec![],
        vec![res(ResourceUsage::ShaderWrite, r1.clone(), 0x40)],
    );
    let consumer = pass(
        "consumer",
        vec![res(ResourceUsage::ShaderRead, r1.clone(), 0x20)],
        vec![],
    );
    let built = PassGraph::new(None)
        .add_pass(producer)
        .unwrap()
        .add_pass(consumer)
        .unwrap()
        .build()
        .unwrap();
    let tg = built.task_graph();
    for (i, slot) in tg.nodes.iter().enumerate() {
        if let Some(Node::Barrier(_)) = slot {
            let dst = PassGraph::barrier_dst_resource(tg, i).expect("consumer must resolve");
            assert_eq!(dst.resource.name, "guarded");
            assert_eq!(dst.stage, 0x20);
            let src = PassGraph::barrier_src_resource(tg, i).expect("producer must resolve");
            assert_eq!(src.stage, 0x40);
        }
    }
}

#[test]
fn graph_accessors_report_shape() {
    let p = pass("only", vec![], vec![]);
    let graph = PassGraph::new(None);
    assert_eq!(graph.source(), 0);
    let graph = graph.add_pass(p).unwrap();
    assert_eq!(graph.num_nodes(), 2);
    assert_eq!(graph.task_graph().edges.len(), 0);
}
