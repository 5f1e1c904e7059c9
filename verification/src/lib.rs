//! A GPU command-recording framework core: passes declare symbolic, versioned
//! resource dependencies, and the library derives the synchronization they
//! need — barrier nodes in a per-frame task graph, and semaphore wiring
//! between whole command-buffer submissions.
//!
//! The library itself never talks to a device. It computes *ordering and
//! visibility*: which barriers guard which resources, and which submission
//! waits on which semaphores. A thin unverified layer around it performs the
//! actual device calls with the values computed here.

use vstd::prelude::*;

pub mod deletion_queue;
pub mod device;
pub mod graphviz;
pub mod laws;
pub mod pass;
pub mod pass_graph;
pub mod resource;
pub mod scratch_allocator;
pub mod submit_batch;
pub mod task_graph;

pub use deletion_queue::DeletionQueue;
pub use device::ExtensionID;
pub use graphviz::GraphViz;
pub use pass::{Pass, PassNode, PassResource, PassResourceBarrier};
pub use pass_graph::{BuiltPassGraph, PassGraph};
pub use resource::{ResourceType, ResourceUsage, VirtualResource};
pub use scratch_allocator::ScratchAllocator;
pub use submit_batch::{CompletionHandle, SubmitBatch, SubmitHandle, Submission};
pub use task_graph::TaskGraph;

verus! {

/// The error kinds surfaced by graph construction, submission wiring and
/// fence waits. Structural graph errors abort the whole build; no partial
/// graph is ever handed out.
#[derive(Debug, Clone, Copy, PartialEq, Eq, Structural)]
pub enum Error {
    /// Adding a pass would create a cycle in the task graph.
    CyclicDependency,
    /// Two conflicting writes to the same resource could not share a barrier.
    IllegalTaskGraph,
    /// A submission gave a different number of wait handles and wait stages.
    MismatchedWaitCounts,
    /// A present submission was requested outside of an active frame context.
    MissingFrameContext,
    /// An internal graph lookup failed; indicates a defect, not a user error.
    NodeNotFound,
    /// A fence wait exceeded its deadline.
    FenceTimeout,
    /// A fence wait failed at the device level (typically fatal).
    FenceWaitFailed,
}

} // verus!
