use phobos::deletion_queue::DeletionQueue;
use phobos::device::ExtensionID;
use phobos::resource::{
    AttachmentType, ResourceUsage, VirtualResource, ACCESS_COLOR_ATTACHMENT_WRITE,
    ACCESS_DEPTH_STENCIL_ATTACHMENT_WRITE, ACCESS_INDIRECT_COMMAND_READ, ACCESS_NONE,
    ACCESS_SHADER_READ, ACCESS_SHADER_WRITE, ACCESS_TRANSFER_READ, ACCESS_TRANSFER_WRITE,
};
use phobos::scratch_allocator::ScratchAllocator;

#[test]
fn usage_access_flags_are_exact() {
    assert_eq!(ResourceUsage::Nothing.access(), ACCESS_NONE);
    assert_eq!(ResourceUsage::Present.access(), ACCESS_NONE);
    assert_eq!(
        ResourceUsage::Attachment(AttachmentType::Color).access(),
        ACCESS_COLOR_ATTACHMENT_WRITE
    );
    assert_eq!(
        ResourceUsage::Attachment(AttachmentType::Depth).access(),
        ACCESS_DEPTH_STENCIL_ATTACHMENT_WRITE
    );
    assert_eq!(
        ResourceUsage::Attachment(AttachmentType::Resolve(VirtualResource::image("t"))).access(),
        ACCESS_COLOR_ATTACHMENT_WRITE
    );
    assert_eq!(ResourceUsage::ShaderRead.access(), ACCESS_SHADER_READ);
    assert_eq!(ResourceUsage::ShaderWrite.access(), ACCESS_SHADER_WRITE);
    assert_eq!(ResourceUsage::TransferRead.access(), ACCESS_TRANSFER_READ);
    assert_eq!(ResourceUsage::TransferWrite.access(), ACCESS_TRANSFER_WRITE);
    assert_eq!(
        ResourceUsage::IndirectCommandRead.access(),
        ACCESS_INDIRECT_COMMAND_READ
    );
    // The numeric values themselves are pinned by the GPU API.
    assert_eq!(ACCESS_SHADER_READ, 0x20);
    assert_eq!(ACCESS_SHADER_WRITE, 0x40);
    assert_eq!(ACCESS_COLOR_ATTACHMENT_WRITE, 0x100);
    assert_eq!(ACCESS_DEPTH_STENCIL_ATTACHMENT_WRITE, 0x400);
    assert_eq!(ACCESS_TRANSFER_READ, 0x800);
    assert_eq!(ACCESS_TRANSFER_WRITE, 0x1000);
    assert_eq!(ACCESS_INDIRECT_COMMAND_READ, 0x1);
}

#[test]
fn usage_read_classification() {
    assert!(ResourceUsage::Nothing.is_read());
    assert!(!ResourceUsage::Present.is_read());
    assert!(!ResourceUsage::Attachment(AttachmentType::Color).is_read());
    assert!(!ResourceUsage::Attachment(AttachmentType::Depth).is_read());
    assert!(ResourceUsage::ShaderRead.is_read());
    assert!(!ResourceUsage::ShaderWrite.is_read());
    assert!(ResourceUsage::TransferRead.is_read());
    assert!(!ResourceUsage::TransferWrite.is_read());
    assert!(ResourceUsage::IndirectCommandRead.is_read());
}

#[test]
fn virtual_resource_identity() {
    let r0 = VirtualResource::image("target");
    assert!(r0.is_source());
    assert_eq!(r0.version(), 0);
    let r1 = r0.upgrade();
    assert!(!r1.is_source());
    assert_eq!(r1.version(), 1);
    assert_eq!(r1.name(), "target");
    assert!(r0.is_associated_with(&r1));
    assert!(!r0.same_uid(&r1));
    assert!(r1.same_uid(&r1.clone()));
    let other = VirtualResource::buffer("target");
    assert!(other.is_associated_with(&r0));
}

#[test]
fn deletion_queue_keeps_items_for_max_ttl_frames() {
    let mut q: DeletionQueue<i32> = DeletionQueue::new(2);
    q.push(1);
    q.push(2);
    assert_eq!(q.len(), 2);
    let expired = q.next_frame();
    assert!(expired.is_empty());
    assert_eq!(q.len(), 2);
    let expired = q.next_frame();
    assert_eq!(expired, vec![1, 2]);
    assert_eq!(q.len(), 0);
}

#[test]
fn deletion_queue_interleaved_pushes() {
    let mut q: DeletionQueue<&str> = DeletionQueue::new(1);
    q.push("a");
    let expired = q.next_frame();
    assert_eq!(expired, vec!["a"]);
    q.push("b");
    q.push("c");
    let expired = q.next_frame();
    assert_eq!(expired, vec!["b", "c"]);
}

#[test]
fn scratch_allocator_advances_with_padding() {
    let mut alloc = ScratchAllocator::new_with_alignment(1024, 256);
    // 64 bytes pad to 256: 64 + (256 - 64 % 256).
    assert_eq!(alloc.allocate(64), Some(0));
    assert_eq!(alloc.allocate(100), Some(256));
    // 600 pads to 768; 512 + 768 exceeds 1024.
    assert_eq!(alloc.allocate(600), None);
    alloc.reset();
    // 768 pads to exactly 1024.
    assert_eq!(alloc.allocate(768), Some(0));
    assert_eq!(alloc.allocate(1), None);
}

#[test]
fn scratch_allocator_default_alignment() {
    let mut alloc = ScratchAllocator::new(512);
    assert_eq!(alloc.allocate(1), Some(0));
    assert_eq!(alloc.allocate(1), Some(256));
    assert_eq!(alloc.allocate(1), None);
}

#[test]
fn extension_id_name() {
    assert_eq!(
        ExtensionID::ExtendedDynamicState3.name(),
        "ExtendedDynamicState3"
    );
    assert_eq!(
        ExtensionID::ExtendedDynamicState3,
        ExtensionID::ExtendedDynamicState3
    );
}
