//! Virtual resource identity and the resource usage model.
//!
//! A [`VirtualResource`] is a symbolic, versioned handle standing in for a
//! physical resource that is not yet bound: identity is the pair
//! (`name`, `version`). Two instances with the same name but different
//! version denote successive writes to the same logical slot. The first
//! reference to a name (version 0) is a *source* resource: its prior state
//! is supplied from outside the graph (a previous frame, or the caller).
//!
//! [`ResourceUsage`] classifies how a pass touches a resource and maps, as a
//! pure function, to an access-flag value and a read/write classification.
//! Access and pipeline-stage flags are the numeric bitmask values of the
//! explicit GPU API; the unverified layer passes them through unchanged.

use vstd::prelude::*;

verus! {

/// No access.
pub const ACCESS_NONE: u64 = 0;
/// Read of an indirect command structure.
pub const ACCESS_INDIRECT_COMMAND_READ: u64 = 0x1;
/// Generic shader read.
pub const ACCESS_SHADER_READ: u64 = 0x20;
/// Generic shader write.
pub const ACCESS_SHADER_WRITE: u64 = 0x40;
/// Color attachment write.
pub const ACCESS_COLOR_ATTACHMENT_WRITE: u64 = 0x100;
/// Depth/stencil attachment write.
pub const ACCESS_DEPTH_STENCIL_ATTACHMENT_WRITE: u64 = 0x400;
/// Transfer (copy) read.
pub const ACCESS_TRANSFER_READ: u64 = 0x800;
/// Transfer (copy) write.
pub const ACCESS_TRANSFER_WRITE: u64 = 0x1000;

/// Empty pipeline stage mask.
pub const STAGE_NONE: u64 = 0;
/// Top-of-pipe pseudo stage.
pub const STAGE_TOP_OF_PIPE: u64 = 0x1;
/// Color attachment output stage.
pub const STAGE_COLOR_ATTACHMENT_OUTPUT: u64 = 0x400;
/// Bottom-of-pipe pseudo stage.
pub const STAGE_BOTTOM_OF_PIPE: u64 = 0x2000;

/// Image layout value for "undefined / don't care".
pub const LAYOUT_UNDEFINED: u32 = 0;

/// Type of a resource in the pass graph.
#[derive(Debug, Copy, Clone, PartialEq, Eq, Structural)]
pub enum ResourceType {
    /// Image resource.
    Image,
    /// Buffer resource.
    Buffer,
}

/// Virtual GPU resource: a symbolic, versioned handle. Identity is the pair
/// (`name`, `version`); the pair is the graph-matching key.
#[derive(Debug)]
pub struct VirtualResource {
    /// The logical slot this handle names.
    pub name: String,
    /// How many writes of the slot precede this value.
    pub version: u64,
    /// Image or buffer.
    pub ty: ResourceType,
}

/// Abstract value of a [`VirtualResource`].
pub ghost struct VirtualResourceView {
    /// The logical slot this handle names.
    pub name: Seq<char>,
    /// How many writes of the slot precede this value.
    pub version: u64,
    /// Image or buffer.
    pub ty: ResourceType,
}

impl VirtualResourceView {
    /// The graph-matching key: unique per (name, version) pair.
    pub open spec fn uid(self) -> (Seq<char>, u64) {
        (self.name, self.version)
    }
}

impl View for VirtualResource {
    type V = VirtualResourceView;

    open spec fn view(&self) -> VirtualResourceView {
        VirtualResourceView { name: self.name@, version: self.version, ty: self.ty }
    }
}

impl Clone for VirtualResource {
    fn clone(&self) -> (r: Self)
        ensures
            r@ == self@,
    {
        VirtualResource { name: self.name.clone(), version: self.version, ty: self.ty }
    }
}

impl VirtualResource {
    /// A new image resource at version 0 (a source resource).
    pub fn image(name: &str) -> (r: Self)
        ensures
            r@ == (VirtualResourceView { name: name@, version: 0, ty: ResourceType::Image }),
    {
        VirtualResource { name: name.to_owned(), version: 0, ty: ResourceType::Image }
    }

    /// A new buffer resource at version 0 (a source resource).
    pub fn buffer(name: &str) -> (r: Self)
        ensures
            r@ == (VirtualResourceView { name: name@, version: 0, ty: ResourceType::Buffer }),
    {
        VirtualResource { name: name.to_owned(), version: 0, ty: ResourceType::Buffer }
    }

    /// The next version of this resource: same name, version one higher.
    /// Models the value of the slot after one more write.
    pub fn upgrade(&self) -> (r: Self)
        requires
            self@.version < u64::MAX,
        ensures
            r@ == (VirtualResourceView { version: (self@.version + 1) as u64, ..self@ }),
    {
        VirtualResource { name: self.name.clone(), version: self.version + 1, ty: self.ty }
    }

    /// The name of the logical slot.
    pub fn name(&self) -> (r: String)
        ensures
            r@ == self@.name,
    {
        self.name.clone()
    }

    /// The version counter.
    pub fn version(&self) -> (r: u64)
        ensures
            r == self@.version,
    {
        self.version
    }

    /// Image or buffer.
    pub fn resource_type(&self) -> (r: ResourceType)
        ensures
            r == self@.ty,
    {
        self.ty
    }

    /// Whether this is the first reference to its name (version 0), i.e. the
    /// resource is supplied from outside the graph.
    pub fn is_source(&self) -> (r: bool)
        ensures
            r == (self@.version == 0),
    {
        self.version == 0
    }

    /// Association: same name, any version.
    pub fn is_associated_with(&self, other: &VirtualResource) -> (r: bool)
        ensures
            r == (self@.name == other@.name),
    {
        self.name == other.name
    }

    /// Identity: same name and same version.
    pub fn same_uid(&self, other: &VirtualResource) -> (r: bool)
        ensures
            r == (self@.uid() == other@.uid()),
    {
        self.name == other.name && self.version == other.version
    }
}

/// What kind of attachment a pass binds.
#[derive(Debug)]
pub enum AttachmentType {
    /// Color attachment.
    Color,
    /// Depth attachment.
    Depth,
    /// Resolve attachment, resolving into the given resource.
    Resolve(VirtualResource),
}

/// Abstract value of an [`AttachmentType`].
pub ghost enum AttachmentTypeView {
    /// Color attachment.
    Color,
    /// Depth attachment.
    Depth,
    /// Resolve attachment, resolving into the given resource.
    Resolve(VirtualResourceView),
}

impl Clone for AttachmentType {
    fn clone(&self) -> (r: Self)
        ensures
            r@ == self@,
    {
        match self {
            AttachmentType::Color => AttachmentType::Color,
            AttachmentType::Depth => AttachmentType::Depth,
            AttachmentType::Resolve(r) => AttachmentType::Resolve(r.clone()),
        }
    }
}

impl View for AttachmentType {
    type V = AttachmentTypeView;

    open spec fn view(&self) -> AttachmentTypeView {
        match self {
            AttachmentType::Color => AttachmentTypeView::Color,
            AttachmentType::Depth => AttachmentTypeView::Depth,
            AttachmentType::Resolve(r) => AttachmentTypeView::Resolve(r@),
        }
    }
}

/// How a pass touches a resource. Each usage maps purely functionally to an
/// access-flag value and a read/write classification.
#[derive(Debug)]
pub enum ResourceUsage {
    /// The resource is carried through untouched.
    Nothing,
    /// The resource is handed to presentation.
    Present,
    /// The resource is bound as an attachment.
    Attachment(AttachmentType),
    /// The resource is read in a shader.
    ShaderRead,
    /// The resource is written in a shader.
    ShaderWrite,
    /// The resource is the source of a transfer.
    TransferRead,
    /// The resource is the destination of a transfer.
    TransferWrite,
    /// The resource is read as an indirect command structure.
    IndirectCommandRead,
}

/// Abstract value of a [`ResourceUsage`].
pub ghost enum ResourceUsageView {
    /// The resource is carried through untouched.
    Nothing,
    /// The resource is handed to presentation.
    Present,
    /// The resource is bound as an attachment.
    Attachment(AttachmentTypeView),
    /// The resource is read in a shader.
    ShaderRead,
    /// The resource is written in a shader.
    ShaderWrite,
    /// The resource is the source of a transfer.
    TransferRead,
    /// The resource is the destination of a transfer.
    TransferWrite,
    /// The resource is read as an indirect command structure.
    IndirectCommandRead,
}

impl Clone for ResourceUsage {
    fn clone(&self) -> (r: Self)
        ensures
            r@ == self@,
    {
        match self {
            ResourceUsage::Nothing => ResourceUsage::Nothing,
            ResourceUsage::Present => ResourceUsage::Present,
            ResourceUsage::Attachment(a) => ResourceUsage::Attachment(a.clone()),
            ResourceUsage::ShaderRead => ResourceUsage::ShaderRead,
            ResourceUsage::ShaderWrite => ResourceUsage::ShaderWrite,
            ResourceUsage::TransferRead => ResourceUsage::TransferRead,
            ResourceUsage::TransferWrite => ResourceUsage::TransferWrite,
            ResourceUsage::IndirectCommandRead => ResourceUsage::IndirectCommandRead,
        }
    }
}

impl View for ResourceUsage {
    type V = ResourceUsageView;

    open spec fn view(&self) -> ResourceUsageView {
        match self {
            ResourceUsage::Nothing => ResourceUsageView::Nothing,
            ResourceUsage::Present => ResourceUsageView::Present,
            ResourceUsage::Attachment(a) => ResourceUsageView::Attachment(a@),
            ResourceUsage::ShaderRead => ResourceUsageView::ShaderRead,
            ResourceUsage::ShaderWrite => ResourceUsageView::ShaderWrite,
            ResourceUsage::TransferRead => ResourceUsageView::TransferRead,
            ResourceUsage::TransferWrite => ResourceUsageView::TransferWrite,
            ResourceUsage::IndirectCommandRead => ResourceUsageView::IndirectCommandRead,
        }
    }
}

/// The access flags a usage maps to.
pub open spec fn spec_access(u: ResourceUsageView) -> u64 {
    match u {
        ResourceUsageView::Nothing => ACCESS_NONE,
        ResourceUsageView::Present => ACCESS_NONE,
        ResourceUsageView::Attachment(AttachmentTypeView::Color) => ACCESS_COLOR_ATTACHMENT_WRITE,
        ResourceUsageView::Attachment(AttachmentTypeView::Depth) => ACCESS_DEPTH_STENCIL_ATTACHMENT_WRITE,
        ResourceUsageView::Attachment(AttachmentTypeView::Resolve(_)) => ACCESS_COLOR_ATTACHMENT_WRITE,
        ResourceUsageView::ShaderRead => ACCESS_SHADER_READ,
        ResourceUsageView::ShaderWrite => ACCESS_SHADER_WRITE,
        ResourceUsageView::TransferRead => ACCESS_TRANSFER_READ,
        ResourceUsageView::TransferWrite => ACCESS_TRANSFER_WRITE,
        ResourceUsageView::IndirectCommandRead => ACCESS_INDIRECT_COMMAND_READ,
    }
}

/// Whether a usage is a read: `Nothing` and every `*Read` variant read,
/// everything else writes.
pub open spec fn spec_is_read(u: ResourceUsageView) -> bool {
    match u {
        ResourceUsageView::Nothing => true,
        ResourceUsageView::Present => false,
        ResourceUsageView::Attachment(_) => false,
        ResourceUsageView::ShaderRead => true,
        ResourceUsageView::ShaderWrite => false,
        ResourceUsageView::TransferRead => true,
        ResourceUsageView::TransferWrite => false,
        ResourceUsageView::IndirectCommandRead => true,
    }
}

/// Structural equality of usage values (attachment resolve targets compare
/// by resource identity, i.e. name and version and type).
pub open spec fn spec_usage_eq(a: ResourceUsageView, b: ResourceUsageView) -> bool {
    match (a, b) {
        (ResourceUsageView::Nothing, ResourceUsageView::Nothing) => true,
        (ResourceUsageView::Present, ResourceUsageView::Present) => true,
        (
            ResourceUsageView::Attachment(AttachmentTypeView::Color),
            ResourceUsageView::Attachment(AttachmentTypeView::Color),
        ) => true,
        (
            ResourceUsageView::Attachment(AttachmentTypeView::Depth),
            ResourceUsageView::Attachment(AttachmentTypeView::Depth),
        ) => true,
        (
            ResourceUsageView::Attachment(AttachmentTypeView::Resolve(r)),
            ResourceUsageView::Attachment(AttachmentTypeView::Resolve(s)),
        ) => r == s,
        (ResourceUsageView::ShaderRead, ResourceUsageView::ShaderRead) => true,
        (ResourceUsageView::ShaderWrite, ResourceUsageView::ShaderWrite) => true,
        (ResourceUsageView::TransferRead, ResourceUsageView::TransferRead) => true,
        (ResourceUsageView::TransferWrite, ResourceUsageView::TransferWrite) => true,
        (ResourceUsageView::IndirectCommandRead, ResourceUsageView::IndirectCommandRead) => true,
        _ => false,
    }
}

impl ResourceUsage {
    /// The access flags for this resource usage.
    pub fn access(&self) -> (r: u64)
        ensures
            r == spec_access(self@),
    {
        match self {
            ResourceUsage::Nothing => ACCESS_NONE,
            ResourceUsage::Present => ACCESS_NONE,
            ResourceUsage::Attachment(AttachmentType::Color) => ACCESS_COLOR_ATTACHMENT_WRITE,
            ResourceUsage::Attachment(AttachmentType::Depth) => {
                ACCESS_DEPTH_STENCIL_ATTACHMENT_WRITE
            },
            ResourceUsage::Attachment(AttachmentType::Resolve(_)) => ACCESS_COLOR_ATTACHMENT_WRITE,
            ResourceUsage::ShaderRead => ACCESS_SHADER_READ,
            ResourceUsage::ShaderWrite => ACCESS_SHADER_WRITE,
            ResourceUsage::TransferRead => ACCESS_TRANSFER_READ,
            ResourceUsage::TransferWrite => ACCESS_TRANSFER_WRITE,
            ResourceUsage::IndirectCommandRead => ACCESS_INDIRECT_COMMAND_READ,
        }
    }

    /// Whether this usage is a read operation.
    pub fn is_read(&self) -> (r: bool)
        ensures
            r == spec_is_read(self@),
    {
        match self {
            ResourceUsage::Nothing => true,
            ResourceUsage::Present => false,
            ResourceUsage::Attachment(_) => false,
            ResourceUsage::ShaderRead => true,
            ResourceUsage::ShaderWrite => false,
            ResourceUsage::TransferRead => true,
            ResourceUsage::TransferWrite => false,
            ResourceUsage::IndirectCommandRead => true,
        }
    }

    /// Structural equality of usages.
    pub fn same_usage(&self, other: &ResourceUsage) -> (r: bool)
        ensures
            r == spec_usage_eq(self@, other@),
    {
        match (self, other) {
            (ResourceUsage::Nothing, ResourceUsage::Nothing) => true,
            (ResourceUsage::Present, ResourceUsage::Present) => true,
            (
                ResourceUsage::Attachment(AttachmentType::Color),
                ResourceUsage::Attachment(AttachmentType::Color),
            ) => true,
            (
                ResourceUsage::Attachment(AttachmentType::Depth),
                ResourceUsage::Attachment(AttachmentType::Depth),
            ) => true,
            (
                ResourceUsage::Attachment(AttachmentType::Resolve(r)),
                ResourceUsage::Attachment(AttachmentType::Resolve(s)),
            ) => r.same_uid(s) && r.resource_type() == s.resource_type(),
            (ResourceUsage::ShaderRead, ResourceUsage::ShaderRead) => true,
            (ResourceUsage::ShaderWrite, ResourceUsage::ShaderWrite) => true,
            (ResourceUsage::TransferRead, ResourceUsage::TransferRead) => true,
            (ResourceUsage::TransferWrite, ResourceUsage::TransferWrite) => true,
            (ResourceUsage::IndirectCommandRead, ResourceUsage::IndirectCommandRead) => true,
            _ => false,
        }
    }
}

} // verus!
