use phobos::submit_batch::{
    FenceStatus, InFlightContext, SemaphoreId, SubmitBatch,
};
use phobos::resource::{STAGE_BOTTOM_OF_PIPE, STAGE_COLOR_ATTACHMENT_OUTPUT, STAGE_TOP_OF_PIPE};
use phobos::Error;

fn frame_ctx() -> InFlightContext {
    InFlightContext {
        wait_semaphore: Some(SemaphoreId::External(100)),
        signal_semaphore: Some(SemaphoreId::External(200)),
    }
}

#[test]
fn mismatched_wait_counts_are_rejected_without_mutation() {
    let mut batch = SubmitBatch::new();
    let h0 = batch.submit(1);
    let h1 = batch.submit(2);
    let handles = vec![h0, h1];
    let stages = vec![STAGE_TOP_OF_PIPE];
    let err = batch.submit_after(&handles, 3, &stages).err().unwrap();
    assert_eq!(err, Error::MismatchedWaitCounts);
    assert_eq!(batch.len(), 2);
}

#[test]
fn submit_after_wires_prior_signals() {
    let mut batch = SubmitBatch::new();
    let h0 = batch.submit(1);
    let h1 = batch.submit(2);
    let handles = vec![h0, h1];
    let stages = vec![0x1u64, 0x2u64];
    let h2 = batch.submit_after(&handles, 3, &stages).unwrap();
    assert_eq!(h2.index, 2);
    let (subs, _) = batch.finish();
    assert_eq!(subs.len(), 3);
    assert_eq!(subs[2].cmd, 3);
    assert_eq!(subs[2].wait_semaphores, vec![SemaphoreId::Batch(0), SemaphoreId::Batch(1)]);
    assert_eq!(subs[2].wait_stages, vec![0x1u64, 0x2u64]);
    assert_eq!(subs[2].signal_semaphores, vec![SemaphoreId::Batch(2)]);
    assert_eq!(subs[2].signal_stages, vec![STAGE_BOTTOM_OF_PIPE]);
}

#[test]
fn then_chains_one_wait() {
    let mut batch = SubmitBatch::new();
    let h0 = batch.submit(10);
    let h1 = h0.then(0x100, 11, &mut batch).unwrap();
    assert_eq!(h1.index, 1);
    let (subs, _) = batch.finish();
    assert_eq!(subs[1].wait_semaphores, vec![SemaphoreId::Batch(0)]);
    assert_eq!(subs[1].wait_stages, vec![0x100u64]);
}

#[test]
fn present_without_frame_context_fails() {
    let mut batch = SubmitBatch::new();
    let ifc = InFlightContext { wait_semaphore: None, signal_semaphore: None };
    let err = batch.submit_for_present(7, &ifc).err().unwrap();
    assert_eq!(err, Error::MissingFrameContext);
    assert_eq!(batch.len(), 0);
}

#[test]
fn present_on_empty_batch_waits_on_frame_directly() {
    let mut batch = SubmitBatch::new();
    let h = batch.submit_for_present(7, &frame_ctx()).unwrap();
    assert_eq!(h.index, 0);
    let (subs, _) = batch.finish();
    assert_eq!(subs.len(), 1);
    assert_eq!(subs[0].wait_semaphores, vec![SemaphoreId::External(100)]);
    assert_eq!(subs[0].wait_stages, vec![STAGE_COLOR_ATTACHMENT_OUTPUT]);
    assert_eq!(subs[0].signal_semaphores, vec![SemaphoreId::External(200)]);
}

#[test]
fn present_after_prior_work_adds_frame_wait_to_first_entry() {
    let mut batch = SubmitBatch::new();
    let h0 = batch.submit(1);
    let handles = vec![h0];
    let stages = vec![0x400u64];
    let h1 = batch
        .submit_for_present_after(2, &frame_ctx(), &handles, &stages)
        .unwrap();
    assert_eq!(h1.index, 1);
    let (subs, _) = batch.finish();
    // The first entry picked up the frame's acquire semaphore.
    assert_eq!(subs[0].wait_semaphores, vec![SemaphoreId::External(100)]);
    assert_eq!(subs[0].wait_stages, vec![STAGE_TOP_OF_PIPE]);
    // The present entry waits on the first entry's signal only.
    assert_eq!(subs[1].wait_semaphores, vec![SemaphoreId::Batch(0)]);
    assert_eq!(subs[1].wait_stages, vec![0x400u64]);
    assert_eq!(subs[1].signal_semaphores, vec![SemaphoreId::External(200)]);
}

#[test]
fn present_after_all_waits_on_every_prior_entry() {
    let mut batch = SubmitBatch::new();
    batch.submit(1);
    batch.submit(2);
    let h = batch
        .submit_for_present_after_all(3, &frame_ctx(), 0x2000)
        .unwrap();
    assert_eq!(h.index, 2);
    let (subs, _) = batch.finish();
    assert_eq!(subs[2].wait_semaphores, vec![SemaphoreId::Batch(0), SemaphoreId::Batch(1)]);
    assert_eq!(subs[2].wait_stages, vec![0x2000u64, 0x2000u64]);
}

#[test]
fn cleanup_runs_exactly_once() {
    let mut batch = SubmitBatch::new();
    batch.submit(41);
    batch.submit(42);
    let (_, mut handle) = batch.finish();
    let first = handle.on_wait_result(FenceStatus::Signaled).unwrap();
    assert_eq!(first, vec![41u64, 42u64]);
    let second = handle.on_wait_result(FenceStatus::Signaled).unwrap();
    assert!(second.is_empty());
}

#[test]
fn fence_timeout_is_surfaced_and_keeps_cleanup_pending() {
    let mut batch = SubmitBatch::new();
    batch.submit(9);
    let (_, mut handle) = batch.finish();
    let err = handle.on_wait_result(FenceStatus::TimedOut).err().unwrap();
    assert_eq!(err, Error::FenceTimeout);
    // A later successful wait still hands the cleanup out.
    let cmds = handle.on_wait_result(FenceStatus::Signaled).unwrap();
    assert_eq!(cmds, vec![9u64]);
}

#[test]
fn fence_device_failure_is_surfaced_verbatim() {
    let mut batch = SubmitBatch::new();
    batch.submit(9);
    let (_, mut handle) = batch.finish();
    let err = handle.on_wait_result(FenceStatus::DeviceLost).err().unwrap();
    assert_eq!(err, Error::FenceWaitFailed);
}

#[test]
fn finish_keeps_submission_order_and_cleanup_list() {
    let mut batch = SubmitBatch::new();
    batch.submit(5);
    batch.submit(6);
    batch.submit(7);
    let (subs, handle) = batch.finish();
    let cmds: Vec<u64> = subs.iter().map(|s| s.cmd).collect();
    assert_eq!(cmds, vec![5, 6, 7]);
    let mut h = handle;
    assert_eq!(h.on_wait_result(FenceStatus::Signaled).unwrap(), vec![5, 6, 7]);
}
