//! Pass descriptions and the node payloads of the task graph.
//!
//! A [`Pass`] is the caller-authored description of one unit of GPU work:
//! ordered input and output [`PassResource`]s plus a render-pass flag. The
//! graph stores it as a [`PassNode`]. A [`PassResourceBarrier`] is never
//! authored directly: the build step synthesizes one for every
//! producer/consumer edge whose endpoint states differ.

use vstd::prelude::*;

use crate::resource::{
    spec_access, ResourceUsage, ResourceUsageView, VirtualResource, VirtualResourceView,
    ACCESS_NONE, STAGE_NONE,
};

verus! {

/// A raw clear value: four 32-bit words, interpreted by the recording layer
/// according to the attachment's format.
#[derive(Debug, Clone, Copy, PartialEq, Eq, Structural)]
pub struct ClearValue {
    /// First word.
    pub word0: u32,
    /// Second word.
    pub word1: u32,
    /// Third word.
    pub word2: u32,
    /// Fourth word.
    pub word3: u32,
}

/// What happens to an attachment's previous contents when a pass begins.
#[derive(Debug, Clone, Copy, PartialEq, Eq, Structural)]
pub enum LoadOp {
    /// Keep the previous contents.
    Load,
    /// Clear to the pass's clear value.
    Clear,
    /// Previous contents are irrelevant.
    DontCare,
}

/// One edge endpoint: "this pass touches this virtual resource, at this
/// pipeline stage, expecting this usage and layout."
#[derive(Debug)]
pub struct PassResource {
    /// How the resource is touched.
    pub usage: ResourceUsage,
    /// The symbolic resource touched.
    pub resource: VirtualResource,
    /// The pipeline stage mask at which it is touched.
    pub stage: u64,
    /// The image layout expected by the pass.
    pub layout: u32,
    /// Optional clear value (attachments only).
    pub clear_value: Option<ClearValue>,
    /// Optional load operation (attachments only).
    pub load_op: Option<LoadOp>,
}

/// Abstract value of a [`PassResource`].
pub ghost struct PassResourceView {
    /// How the resource is touched.
    pub usage: ResourceUsageView,
    /// The symbolic resource touched.
    pub resource: VirtualResourceView,
    /// The pipeline stage mask at which it is touched.
    pub stage: u64,
    /// The image layout expected by the pass.
    pub layout: u32,
    /// Optional clear value.
    pub clear_value: Option<ClearValue>,
    /// Optional load operation.
    pub load_op: Option<LoadOp>,
}

impl View for PassResource {
    type V = PassResourceView;

    open spec fn view(&self) -> PassResourceView {
        PassResourceView {
            usage: self.usage@,
            resource: self.resource@,
            stage: self.stage,
            layout: self.layout,
            clear_value: self.clear_value,
            load_op: self.load_op,
        }
    }
}

impl Clone for PassResource {
    fn clone(&self) -> (r: Self)
        ensures
            r@ == self@,
    {
        PassResource {
            usage: self.usage.clone(),
            resource: self.resource.clone(),
            stage: self.stage,
            layout: self.layout,
            clear_value: self.clear_value,
            load_op: self.load_op,
        }
    }
}

/// The abstract values of a sequence of pass resources.
pub open spec fn res_views(s: Seq<PassResource>) -> Seq<PassResourceView> {
    s.map_values(|p: PassResource| p@)
}

impl PassResource {
    /// The virtual resource this endpoint touches.
    pub fn virtual_resource(&self) -> (r: &VirtualResource)
        ensures
            r@ == self@.resource,
    {
        &self.resource
    }

    /// Whether this endpoint produces what `other` consumes: same resource
    /// identity (name and version).
    pub fn is_dependency_of(&self, other: &PassResource) -> (r: bool)
        ensures
            r == (self@.resource.uid() == other@.resource.uid()),
    {
        self.resource.same_uid(&other.resource)
    }
}

/// A GPU barrier guarding one resource between its producer and its
/// consumers; translates directly to one pipeline-barrier command.
#[derive(Debug)]
pub struct PassResourceBarrier {
    /// The guarded resource, as the producer declared it.
    pub resource: PassResource,
    /// Access flags of the producer side.
    pub src_access: u64,
    /// Access flags of the consumer side (accumulated during merge).
    pub dst_access: u64,
    /// Pipeline stage of the producer side.
    pub src_stage: u64,
    /// Pipeline stage of the consumer side (accumulated during merge).
    pub dst_stage: u64,
}

/// Abstract value of a [`PassResourceBarrier`].
pub ghost struct PassResourceBarrierView {
    /// The guarded resource, as the producer declared it.
    pub resource: PassResourceView,
    /// Access flags of the producer side.
    pub src_access: u64,
    /// Access flags of the consumer side.
    pub dst_access: u64,
    /// Pipeline stage of the producer side.
    pub src_stage: u64,
    /// Pipeline stage of the consumer side.
    pub dst_stage: u64,
}

impl View for PassResourceBarrier {
    type V = PassResourceBarrierView;

    open spec fn view(&self) -> PassResourceBarrierView {
        PassResourceBarrierView {
            resource: self.resource@,
            src_access: self.src_access,
            dst_access: self.dst_access,
            src_stage: self.src_stage,
            dst_stage: self.dst_stage,
        }
    }
}

impl Clone for PassResourceBarrier {
    fn clone(&self) -> (r: Self)
        ensures
            r@ == self@,
    {
        PassResourceBarrier {
            resource: self.resource.clone(),
            src_access: self.src_access,
            dst_access: self.dst_access,
            src_stage: self.src_stage,
            dst_stage: self.dst_stage,
        }
    }
}

/// A fresh barrier for `resource`: the producer's usage and stage become the
/// source side; the destination side starts empty and is filled in during the
/// merge step.
pub open spec fn spec_new_barrier(resource: PassResourceView) -> PassResourceBarrierView {
    PassResourceBarrierView {
        src_access: spec_access(resource.usage),
        dst_access: ACCESS_NONE,
        src_stage: resource.stage,
        dst_stage: STAGE_NONE,
        resource: resource,
    }
}

impl PassResourceBarrier {
    /// Synthesize a barrier guarding `resource`, with the producer's state as
    /// the source side and an empty destination side.
    pub fn new(resource: PassResource) -> (r: Self)
        ensures
            r@ == spec_new_barrier(resource@),
    {
        PassResourceBarrier {
            src_access: resource.usage.access(),
            dst_access: ACCESS_NONE,
            src_stage: resource.stage,
            dst_stage: STAGE_NONE,
            resource,
        }
    }

    /// The guarded resource.
    pub fn resource(&self) -> (r: &PassResource)
        ensures
            r@ == self@.resource,
    {
        &self.resource
    }
}

/// A task node in the pass graph: one render or compute pass. The pass's
/// recording callback is held by the surrounding runtime, keyed by the
/// identifier; the graph itself only decides ordering and visibility.
#[derive(Debug)]
pub struct PassNode {
    /// Name of the pass, unique within one graph by caller convention.
    pub identifier: String,
    /// Resources read, in declaration order.
    pub inputs: Vec<PassResource>,
    /// Resources written, in declaration order.
    pub outputs: Vec<PassResource>,
    /// Whether the pass is recorded inside a rendering scope.
    pub is_renderpass: bool,
}

/// Abstract value of a [`PassNode`].
pub ghost struct PassNodeView {
    /// Name of the pass.
    pub identifier: Seq<char>,
    /// Resources read, in declaration order.
    pub inputs: Seq<PassResourceView>,
    /// Resources written, in declaration order.
    pub outputs: Seq<PassResourceView>,
    /// Whether the pass is recorded inside a rendering scope.
    pub is_renderpass: bool,
}

impl View for PassNode {
    type V = PassNodeView;

    open spec fn view(&self) -> PassNodeView {
        PassNodeView {
            identifier: self.identifier@,
            inputs: res_views(self.inputs@),
            outputs: res_views(self.outputs@),
            is_renderpass: self.is_renderpass,
        }
    }
}

impl PassNode {
    /// The resources this pass reads.
    pub fn inputs(&self) -> (r: &Vec<PassResource>)
        ensures
            res_views(r@) == self@.inputs,
    {
        &self.inputs
    }

    /// The resources this pass writes.
    pub fn outputs(&self) -> (r: &Vec<PassResource>)
        ensures
            res_views(r@) == self@.outputs,
    {
        &self.outputs
    }
}

/// A caller-authored pass description, consumed by
/// [`PassGraph::add_pass`](crate::pass_graph::PassGraph::add_pass).
#[derive(Debug)]
pub struct Pass {
    /// Name of the pass.
    pub name: String,
    /// Resources read, in declaration order.
    pub inputs: Vec<PassResource>,
    /// Resources written, in declaration order.
    pub outputs: Vec<PassResource>,
    /// Whether the pass is recorded inside a rendering scope.
    pub is_renderpass: bool,
}

/// Abstract value of a [`Pass`].
pub ghost struct PassView {
    /// Name of the pass.
    pub name: Seq<char>,
    /// Resources read, in declaration order.
    pub inputs: Seq<PassResourceView>,
    /// Resources written, in declaration order.
    pub outputs: Seq<PassResourceView>,
    /// Whether the pass is recorded inside a rendering scope.
    pub is_renderpass: bool,
}

impl View for Pass {
    type V = PassView;

    open spec fn view(&self) -> PassView {
        PassView {
            name: self.name@,
            inputs: res_views(self.inputs@),
            outputs: res_views(self.outputs@),
            is_renderpass: self.is_renderpass,
        }
    }
}

/// A resource-list clone whose abstract value is unchanged.
pub fn clone_resources(v: &Vec<PassResource>) -> (r: Vec<PassResource>)
    ensures
        res_views(r@) == res_views(v@),
{
    let mut r: Vec<PassResource> = Vec::new();
    let mut k: usize = 0;
    proof {
        assert(res_views(r@) =~= res_views(v@).take(0));
    }
    while k < v.len()
        invariant
            k <= v@.len(),
            res_views(r@) == res_views(v@).take(k as int),
        decreases v@.len() - k,
    {
        let ghost prev = r@;
        proof {
            assert(res_views(prev).len() == prev.len());
            assert(res_views(v@).take(k as int).len() == k as int);
        }
        r.push(v[k].clone());
        proof {
            assert(r@ == prev.push(r@[prev.len() as int]));
            assert(r@[prev.len() as int]@ == res_views(v@)[k as int]);
            assert forall|i: int| 0 <= i < prev.len() implies res_views(r@)[i] == res_views(
                prev,
            )[i] by {
                assert(r@[i] == prev[i]);
            }
            assert(res_views(r@) =~= res_views(v@).take(k + 1));
        }
        k = k + 1;
    }
    proof {
        assert(res_views(v@).take(v@.len() as int) =~= res_views(v@));
    }
    r
}

/// The task node a pass description becomes.
pub open spec fn spec_node_of_pass(p: PassView) -> PassNodeView {
    PassNodeView {
        identifier: p.name,
        inputs: p.inputs,
        outputs: p.outputs,
        is_renderpass: p.is_renderpass,
    }
}

} // verus!
