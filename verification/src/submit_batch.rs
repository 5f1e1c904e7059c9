//! Submission batching: compose multiple command-buffer submissions into
//! one hardware-level multi-submission with correct cross-submission
//! semaphore wiring and a completion handle.
//!
//! The batch works at the granularity of whole command buffers. Ordering
//! between entries is established exactly by the semaphore wait/signal
//! edges declared through [`SubmitHandle`]s: omitting a handle omits the
//! corresponding guarantee. [`SubmitBatch::finish`] turns every entry into
//! one [`Submission`] of a single flush, paired with a
//! [`CompletionHandle`] whose cleanup runs exactly once after the first
//! successful wait. The surrounding runtime maps [`SemaphoreId`]s and
//! command-buffer ids to real device objects, performs the flush, and
//! reports the fence outcome back as a [`FenceStatus`].

use vstd::prelude::*;

use crate::resource::{STAGE_BOTTOM_OF_PIPE, STAGE_COLOR_ATTACHMENT_OUTPUT, STAGE_TOP_OF_PIPE};
use crate::Error;

verus! {

/// Identity of a semaphore in a batch's wiring.
#[derive(Debug, Clone, Copy, PartialEq, Eq, Structural)]
pub enum SemaphoreId {
    /// A semaphore the batch created for the entry with this index.
    Batch(usize),
    /// A semaphore owned by the surrounding frame context.
    External(u64),
}

/// A handle to a submit inside a batch: a stable index into the batch's
/// entry list, and the only way to reference a prior entry when declaring
/// a new wait dependency.
#[derive(Debug, Clone, Copy, PartialEq, Eq, Structural)]
pub struct SubmitHandle {
    /// Position of the entry inside the batch.
    pub index: usize,
}

/// The semaphores of the frame currently in flight: the acquire semaphore
/// the frame's work must wait on, and the semaphore presentation waits on.
/// `None` fields mean no frame is active.
#[derive(Debug, Clone, Copy, PartialEq, Eq, Structural)]
pub struct InFlightContext {
    /// Signaled when the frame's backing image is ready.
    pub wait_semaphore: Option<SemaphoreId>,
    /// Waited on by presentation.
    pub signal_semaphore: Option<SemaphoreId>,
}

/// One entry of a batch: a command buffer, the semaphore it signals, and
/// the semaphores (with stages) it waits on.
#[derive(Debug)]
pub struct SubmitInfo {
    /// Command buffer id.
    pub cmd: u64,
    /// The semaphore this entry signals on completion.
    pub signal_semaphore: Option<SemaphoreId>,
    /// The semaphores this entry waits on.
    pub wait_semaphores: Vec<SemaphoreId>,
    /// The stage at which each wait applies, matching `wait_semaphores`.
    pub wait_stages: Vec<u64>,
}

/// Abstract value of a [`SubmitInfo`].
pub ghost struct SubmitInfoView {
    /// Command buffer id.
    pub cmd: u64,
    /// The semaphore this entry signals on completion.
    pub signal_semaphore: Option<SemaphoreId>,
    /// The semaphores this entry waits on.
    pub wait_semaphores: Seq<SemaphoreId>,
    /// The stage at which each wait applies.
    pub wait_stages: Seq<u64>,
}

impl View for SubmitInfo {
    type V = SubmitInfoView;

    open spec fn view(&self) -> SubmitInfoView {
        SubmitInfoView {
            cmd: self.cmd,
            signal_semaphore: self.signal_semaphore,
            wait_semaphores: self.wait_semaphores@,
            wait_stages: self.wait_stages@,
        }
    }
}

/// The abstract values of a batch's entry list.
pub open spec fn submit_views(s: Seq<SubmitInfo>) -> Seq<SubmitInfoView> {
    s.map_values(|e: SubmitInfo| e@)
}

/// A batch of submits containing multiple command buffers that possibly
/// wait on each other using semaphores.
#[derive(Debug)]
pub struct SubmitBatch {
    /// The entries, in submission order.
    pub submits: Vec<SubmitInfo>,
}

impl View for SubmitBatch {
    type V = Seq<SubmitInfoView>;

    open spec fn view(&self) -> Seq<SubmitInfoView> {
        submit_views(self.submits@)
    }
}

/// The batch invariant: every entry signals a semaphore and pairs each
/// wait semaphore with exactly one wait stage.
pub open spec fn batch_wf(b: Seq<SubmitInfoView>) -> bool {
    forall|i: int|
        0 <= i < b.len() ==> (#[trigger] b[i]).signal_semaphore is Some
            && b[i].wait_semaphores.len() == b[i].wait_stages.len()
}

/// The signal semaphores of the referenced entries, in handle order.
pub open spec fn waits_of(b: Seq<SubmitInfoView>, handles: Seq<SubmitHandle>) -> Seq<
    SemaphoreId,
> {
    handles.map_values(|h: SubmitHandle| b[h.index as int].signal_semaphore->0)
}

/// The entry appended by a plain submit with the given waits.
pub open spec fn spec_entry(
    b: Seq<SubmitInfoView>,
    cmd: u64,
    waits: Seq<SemaphoreId>,
    stages: Seq<u64>,
) -> SubmitInfoView {
    SubmitInfoView {
        cmd,
        signal_semaphore: Option::Some(SemaphoreId::Batch(b.len() as usize)),
        wait_semaphores: waits,
        wait_stages: stages,
    }
}

/// What [`SubmitBatch::submit_after`] does: reject mismatched wait counts
/// without touching the batch, otherwise append an entry with a fresh
/// signal semaphore that waits on each referenced entry's signal semaphore
/// at the given stage.
pub open spec fn spec_submit_after(
    b: Seq<SubmitInfoView>,
    handles: Seq<SubmitHandle>,
    cmd: u64,
    stages: Seq<u64>,
) -> Result<Seq<SubmitInfoView>, Error> {
    if handles.len() != stages.len() {
        Result::Err(Error::MismatchedWaitCounts)
    } else {
        Result::Ok(b.push(spec_entry(b, cmd, waits_of(b, handles), stages)))
    }
}

/// What the present-submission variants do: reject mismatched wait counts,
/// then a missing frame context, then wire the frame's acquire semaphore
/// into the first entry (or into this entry, if it is the first) and
/// attach the frame's present semaphore as this entry's signal.
pub open spec fn spec_submit_for_present_after(
    b: Seq<SubmitInfoView>,
    ifc: InFlightContext,
    handles: Seq<SubmitHandle>,
    cmd: u64,
    stages: Seq<u64>,
) -> Result<Seq<SubmitInfoView>, Error> {
    if handles.len() != stages.len() {
        Result::Err(Error::MismatchedWaitCounts)
    } else if ifc.wait_semaphore is None || ifc.signal_semaphore is None {
        Result::Err(Error::MissingFrameContext)
    } else {
        let ws = waits_of(b, handles);
        if b.len() == 0 {
            let entry = SubmitInfoView {
                cmd,
                signal_semaphore: Option::Some(ifc.signal_semaphore->0),
                wait_semaphores: ws.push(ifc.wait_semaphore->0),
                wait_stages: stages.push(STAGE_COLOR_ATTACHMENT_OUTPUT),
            };
            Result::Ok(b.push(entry))
        } else {
            let first2 = SubmitInfoView {
                wait_semaphores: b[0].wait_semaphores.push(ifc.wait_semaphore->0),
                wait_stages: b[0].wait_stages.push(STAGE_TOP_OF_PIPE),
                ..b[0]
            };
            let entry = SubmitInfoView {
                cmd,
                signal_semaphore: Option::Some(ifc.signal_semaphore->0),
                wait_semaphores: ws,
                wait_stages: stages,
            };
            Result::Ok(b.update(0, first2).push(entry))
        }
    }
}

/// One hardware-level submission entry of the final flush.
#[derive(Debug)]
pub struct Submission {
    /// The semaphores to wait on before execution.
    pub wait_semaphores: Vec<SemaphoreId>,
    /// The stage at which each wait applies.
    pub wait_stages: Vec<u64>,
    /// The command buffer to execute.
    pub cmd: u64,
    /// The semaphores to signal on completion.
    pub signal_semaphores: Vec<SemaphoreId>,
    /// The stage mask for each signal.
    pub signal_stages: Vec<u64>,
}

/// Abstract value of a [`Submission`].
pub ghost struct SubmissionView {
    /// The semaphores to wait on before execution.
    pub wait_semaphores: Seq<SemaphoreId>,
    /// The stage at which each wait applies.
    pub wait_stages: Seq<u64>,
    /// The command buffer to execute.
    pub cmd: u64,
    /// The semaphores to signal on completion.
    pub signal_semaphores: Seq<SemaphoreId>,
    /// The stage mask for each signal.
    pub signal_stages: Seq<u64>,
}

impl View for Submission {
    type V = SubmissionView;

    open spec fn view(&self) -> SubmissionView {
        SubmissionView {
            wait_semaphores: self.wait_semaphores@,
            wait_stages: self.wait_stages@,
            cmd: self.cmd,
            signal_semaphores: self.signal_semaphores@,
            signal_stages: self.signal_stages@,
        }
    }
}

/// The abstract values of a submission list.
pub open spec fn submission_views(s: Seq<Submission>) -> Seq<SubmissionView> {
    s.map_values(|e: Submission| e@)
}

/// The flush an entry list turns into: each entry keeps its waits and
/// command buffer and signals its own semaphore at bottom-of-pipe.
pub open spec fn spec_finish_submissions(b: Seq<SubmitInfoView>) -> Seq<SubmissionView> {
    b.map_values(
        |e: SubmitInfoView|
            SubmissionView {
                wait_semaphores: e.wait_semaphores,
                wait_stages: e.wait_stages,
                cmd: e.cmd,
                signal_semaphores: seq![e.signal_semaphore->0],
                signal_stages: seq![STAGE_BOTTOM_OF_PIPE],
            },
    )
}

/// The command buffers whose resources the completion handle releases.
pub open spec fn spec_finish_cleanup(b: Seq<SubmitInfoView>) -> Seq<u64> {
    b.map_values(|e: SubmitInfoView| e.cmd)
}

/// The outcome of one wait on the batch's completion fence, reported by
/// the surrounding runtime.
#[derive(Debug, Clone, Copy, PartialEq, Eq, Structural)]
pub enum FenceStatus {
    /// The fence signaled: the batch's GPU work completed.
    Signaled,
    /// The wait exceeded its deadline; the fence may signal later.
    TimedOut,
    /// The wait failed at the device level (typically fatal).
    DeviceLost,
}

/// The completion handle of a flushed batch: it knows which command
/// buffers to release and whether that cleanup has already been handed
/// out.
#[derive(Debug)]
pub struct CompletionHandle {
    /// Command buffers whose resources are released after completion.
    pub cleanup_cmds: Vec<u64>,
    /// Whether the cleanup work has already been handed out.
    pub cleanup_run: bool,
}

/// Abstract value of a [`CompletionHandle`].
pub ghost struct CompletionHandleView {
    /// Command buffers whose resources are released after completion.
    pub cleanup_cmds: Seq<u64>,
    /// Whether the cleanup work has already been handed out.
    pub cleanup_run: bool,
}

impl View for CompletionHandle {
    type V = CompletionHandleView;

    open spec fn view(&self) -> CompletionHandleView {
        CompletionHandleView { cleanup_cmds: self.cleanup_cmds@, cleanup_run: self.cleanup_run }
    }
}

/// What [`CompletionHandle::on_wait_result`] does: a successful wait hands
/// the cleanup work out exactly once; a timeout or device failure is
/// surfaced verbatim and changes nothing.
pub open spec fn spec_on_wait_result(h: CompletionHandleView, status: FenceStatus) -> (
    CompletionHandleView,
    Result<Seq<u64>, Error>,
) {
    match status {
        FenceStatus::Signaled => if h.cleanup_run {
            (h, Result::Ok(Seq::empty()))
        } else {
            (
                CompletionHandleView { cleanup_run: true, ..h },
                Result::Ok(h.cleanup_cmds),
            )
        },
        FenceStatus::TimedOut => (h, Result::Err(Error::FenceTimeout)),
        FenceStatus::DeviceLost => (h, Result::Err(Error::FenceWaitFailed)),
    }
}

/// Waiting on a finished batch twice runs the attached cleanup exactly
/// once: the first successful wait hands out every command buffer, the
/// second hands out nothing.
pub proof fn lemma_cleanup_runs_once(h: CompletionHandleView)
    requires
        !h.cleanup_run,
    ensures
        ({
            let (h1, r1) = spec_on_wait_result(h, FenceStatus::Signaled);
            let (h2, r2) = spec_on_wait_result(h1, FenceStatus::Signaled);
            &&& r1 == Result::Ok::<Seq<u64>, Error>(h.cleanup_cmds)
            &&& r2 == Result::Ok::<Seq<u64>, Error>(Seq::<u64>::empty())
            &&& h1.cleanup_run
            &&& h2 == h1
        }),
{
}

impl CompletionHandle {
    /// Record the outcome of one fence wait. On the first successful wait
    /// this returns every command buffer whose resources may now be
    /// released; later successful waits return nothing. A timeout or
    /// device-level failure is surfaced verbatim and releases nothing.
    pub fn on_wait_result(&mut self, status: FenceStatus) -> (r: Result<Vec<u64>, Error>)
        ensures
            final(self)@ == spec_on_wait_result(old(self)@, status).0,
            (match r {
                Result::Ok(v) => spec_on_wait_result(old(self)@, status).1 == Result::Ok::<
                    Seq<u64>,
                    Error,
                >(v@),
                Result::Err(e) => spec_on_wait_result(old(self)@, status).1 == Result::Err::<
                    Seq<u64>,
                    Error,
                >(e),
            }),
    {
        match status {
            FenceStatus::Signaled => {
                if self.cleanup_run {
                    Result::Ok(Vec::new())
                } else {
                    self.cleanup_run = true;
                    let mut out: Vec<u64> = Vec::new();
                    let mut i: usize = 0;
                    while i < self.cleanup_cmds.len()
                        invariant
                            i <= self.cleanup_cmds@.len(),
                            out@ == self.cleanup_cmds@.take(i as int),
                        decreases self.cleanup_cmds@.len() - i,
                    {
                        out.push(self.cleanup_cmds[i]);
                        proof {
                            assert(out@ =~= self.cleanup_cmds@.take(i + 1));
                        }
                        i = i + 1;
                    }
                    proof {
                        assert(self.cleanup_cmds@.take(self.cleanup_cmds@.len() as int)
                            =~= self.cleanup_cmds@);
                    }
                    Result::Ok(out)
                }
            },
            FenceStatus::TimedOut => Result::Err(Error::FenceTimeout),
            FenceStatus::DeviceLost => Result::Err(Error::FenceWaitFailed),
        }
    }
}

impl SubmitBatch {
    /// An empty batch.
    pub fn new() -> (r: Self)
        ensures
            r@ == Seq::<SubmitInfoView>::empty(),
            batch_wf(r@),
    {
        let r = SubmitBatch { submits: Vec::new() };
        proof {
            assert(r@ =~= Seq::<SubmitInfoView>::empty());
        }
        r
    }

    /// How many entries the batch holds.
    pub fn len(&self) -> (r: usize)
        ensures
            r == self@.len(),
    {
        self.submits.len()
    }

    /// The signal semaphore of a prior entry, if the handle is valid.
    fn get_submit_semaphore(&self, submit: SubmitHandle) -> (r: Option<SemaphoreId>)
        ensures
            r == (if submit.index < self@.len() {
                self@[submit.index as int].signal_semaphore
            } else {
                Option::None::<SemaphoreId>
            }),
    {
        if submit.index < self.submits.len() {
            proof {
                assert(self.submits@[submit.index as int]@ == self@[submit.index as int]);
            }
            self.submits[submit.index].signal_semaphore
        } else {
            Option::None
        }
    }

    /// Submit a new command buffer in this batch with no dependencies.
    pub fn submit(&mut self, cmd: u64) -> (r: SubmitHandle)
        requires
            batch_wf(old(self)@),
        ensures
            final(self)@ == old(self)@.push(
                spec_entry(old(self)@, cmd, Seq::empty(), Seq::empty()),
            ),
            batch_wf(final(self)@),
            r.index == old(self)@.len(),
    {
        let ghost b0 = self@;
        let index = self.submits.len();
        let entry = SubmitInfo {
            cmd,
            signal_semaphore: Option::Some(SemaphoreId::Batch(index)),
            wait_semaphores: Vec::new(),
            wait_stages: Vec::new(),
        };
        let ghost prev = self.submits@;
        self.submits.push(entry);
        proof {
            assert(self.submits@[prev.len() as int]@ == spec_entry(
                b0,
                cmd,
                Seq::empty(),
                Seq::empty(),
            ));
            assert forall|q: int| 0 <= q < prev.len() implies self@[q] == submit_views(prev)[q] by {
                assert(self.submits@[q] == prev[q]);
            }
            assert(self@ =~= b0.push(spec_entry(b0, cmd, Seq::empty(), Seq::empty())));
            assert forall|i: int|
                0 <= i < self@.len() implies (#[trigger] self@[i]).signal_semaphore is Some
                && self@[i].wait_semaphores.len() == self@[i].wait_stages.len() by {
                if i < b0.len() {
                    assert(self@[i] == b0[i]);
                }
            }
        }
        SubmitHandle { index }
    }

    /// Append an entry waiting on the signal semaphores of the given prior
    /// entries, one wait stage per handle. Fails with
    /// [`Error::MismatchedWaitCounts`], without touching the batch, exactly
    /// when the handle and stage counts differ.
    pub fn submit_after(
        &mut self,
        handles: &Vec<SubmitHandle>,
        cmd: u64,
        wait_stages: &Vec<u64>,
    ) -> (res: Result<SubmitHandle, Error>)
        requires
            batch_wf(old(self)@),
            forall|i: int|
                0 <= i < handles@.len() ==> (#[trigger] handles@[i]).index < old(self)@.len(),
        ensures
            match spec_submit_after(old(self)@, handles@, cmd, wait_stages@) {
                Result::Ok(b2) => res matches Result::Ok(h) && final(self)@ == b2 && batch_wf(b2)
                    && h.index == old(self)@.len(),
                Result::Err(e) => res matches Result::Err(e2) && e2 == e && final(self)@ == old(
                    self,
                )@,
            },
    {
        let ghost b0 = self@;
        if handles.len() != wait_stages.len() {
            return Result::Err(Error::MismatchedWaitCounts);
        }
        let mut wait_semaphores: Vec<SemaphoreId> = Vec::new();
        let mut i: usize = 0;
        proof {
            assert(wait_semaphores@ =~= waits_of(b0, handles@.take(0)));
        }
        while i < handles.len()
            invariant
                b0 == self@,
                batch_wf(b0),
                forall|q: int|
                    0 <= q < handles@.len() ==> (#[trigger] handles@[q]).index < b0.len(),
                i <= handles@.len(),
                wait_semaphores@ == waits_of(b0, handles@.take(i as int)),
            decreases handles@.len() - i,
        {
            let h = handles[i];
            let sem = match self.get_submit_semaphore(h) {
                Option::Some(sem) => sem,
                Option::None => {
                    proof {
                        assert(b0[h.index as int].signal_semaphore is Some);
                        assert(false);
                    }
                    unreached()
                },
            };
            let ghost prev = wait_semaphores@;
            wait_semaphores.push(sem);
            proof {
                assert(handles@.take(i + 1).drop_last() =~= handles@.take(i as int));
                assert(waits_of(b0, handles@.take(i + 1)) =~= waits_of(
                    b0,
                    handles@.take(i as int),
                ).push(b0[handles@[i as int].index as int].signal_semaphore->0));
                assert(wait_semaphores@ =~= prev.push(sem));
            }
            i = i + 1;
        }
        proof {
            assert(handles@.take(handles@.len() as int) =~= handles@);
        }
        let mut stages: Vec<u64> = Vec::new();
        let mut j: usize = 0;
        proof {
            assert(stages@ =~= wait_stages@.take(0));
        }
        while j < wait_stages.len()
            invariant
                j <= wait_stages@.len(),
                stages@ == wait_stages@.take(j as int),
            decreases wait_stages@.len() - j,
        {
            stages.push(wait_stages[j]);
            proof {
                assert(stages@ =~= wait_stages@.take(j + 1));
            }
            j = j + 1;
        }
        proof {
            assert(wait_stages@.take(wait_stages@.len() as int) =~= wait_stages@);
        }
        let index = self.submits.len();
        let entry = SubmitInfo {
            cmd,
            signal_semaphore: Option::Some(SemaphoreId::Batch(index)),
            wait_semaphores,
            wait_stages: stages,
        };
        let ghost prev = self.submits@;
        self.submits.push(entry);
        proof {
            let b2 = spec_submit_after(b0, handles@, cmd, wait_stages@)->Ok_0;
            assert(self.submits@[prev.len() as int]@ == spec_entry(
                b0,
                cmd,
                waits_of(b0, handles@),
                wait_stages@,
            ));
            assert forall|q: int| 0 <= q < prev.len() implies self@[q] == submit_views(prev)[q] by {
                assert(self.submits@[q] == prev[q]);
            }
            assert(self@ =~= b2);
            assert forall|q: int|
                0 <= q < self@.len() implies (#[trigger] self@[q]).signal_semaphore is Some
                && self@[q].wait_semaphores.len() == self@[q].wait_stages.len() by {
                if q < b0.len() {
                    assert(self@[q] == b0[q]);
                }
            }
        }
        Result::Ok(SubmitHandle { index })
    }

    /// Submit the frame's commands for presentation, waiting on the given
    /// prior submits. Must be used for the final command buffer of a
    /// frame. Fails with [`Error::MismatchedWaitCounts`] on unequal handle
    /// and stage counts, and with [`Error::MissingFrameContext`] when the
    /// frame context carries no semaphores; neither failure touches the
    /// batch.
    pub fn submit_for_present_after(
        &mut self,
        cmd: u64,
        ifc: &InFlightContext,
        submits: &Vec<SubmitHandle>,
        wait_stages: &Vec<u64>,
    ) -> (res: Result<SubmitHandle, Error>)
        requires
            batch_wf(old(self)@),
            forall|i: int|
                0 <= i < submits@.len() ==> (#[trigger] submits@[i]).index < old(self)@.len(),
        ensures
            match spec_submit_for_present_after(old(self)@, *ifc, submits@, cmd, wait_stages@) {
                Result::Ok(b2) => res matches Result::Ok(h) && final(self)@ == b2 && batch_wf(b2)
                    && h.index == old(self)@.len(),
                Result::Err(e) => res matches Result::Err(e2) && e2 == e && final(self)@ == old(
                    self,
                )@,
            },
    {
        let ghost b0 = self@;
        if submits.len() != wait_stages.len() {
            return Result::Err(Error::MismatchedWaitCounts);
        }
        let frame_wait: SemaphoreId = match ifc.wait_semaphore {
            Option::Some(s) => s,
            Option::None => {
                return Result::Err(Error::MissingFrameContext);
            },
        };
        let frame_signal: SemaphoreId = match ifc.signal_semaphore {
            Option::Some(s) => s,
            Option::None => {
                return Result::Err(Error::MissingFrameContext);
            },
        };
        let mut wait_semaphores: Vec<SemaphoreId> = Vec::new();
        let mut i: usize = 0;
        proof {
            assert(wait_semaphores@ =~= waits_of(b0, submits@.take(0)));
        }
        while i < submits.len()
            invariant
                b0 == self@,
                batch_wf(b0),
                forall|q: int|
                    0 <= q < submits@.len() ==> (#[trigger] submits@[q]).index < b0.len(),
                i <= submits@.len(),
                wait_semaphores@ == waits_of(b0, submits@.take(i as int)),
            decreases submits@.len() - i,
        {
            let h = submits[i];
            let sem = match self.get_submit_semaphore(h) {
                Option::Some(sem) => sem,
                Option::None => {
                    proof {
                        assert(b0[h.index as int].signal_semaphore is Some);
                        assert(false);
                    }
                    unreached()
                },
            };
            let ghost prev = wait_semaphores@;
            wait_semaphores.push(sem);
            proof {
                assert(submits@.take(i + 1).drop_last() =~= submits@.take(i as int));
                assert(waits_of(b0, submits@.take(i + 1)) =~= waits_of(
                    b0,
                    submits@.take(i as int),
                ).push(b0[submits@[i as int].index as int].signal_semaphore->0));
                assert(wait_semaphores@ =~= prev.push(sem));
            }
            i = i + 1;
        }
        proof {
            assert(submits@.take(submits@.len() as int) =~= submits@);
        }
        let mut stages: Vec<u64> = Vec::new();
        let mut j: usize = 0;
        proof {
            assert(stages@ =~= wait_stages@.take(0));
        }
        while j < wait_stages.len()
            invariant
                j <= wait_stages@.len(),
                stages@ == wait_stages@.take(j as int),
            decreases wait_stages@.len() - j,
        {
            stages.push(wait_stages[j]);
            proof {
                assert(stages@ =~= wait_stages@.take(j + 1));
            }
            j = j + 1;
        }
        proof {
            assert(wait_stages@.take(wait_stages@.len() as int) =~= wait_stages@);
        }

        // Wire the frame's acquire semaphore: into this entry if nothing
        // was submitted before it, otherwise as an extra wait on the first
        // entry.
        let index = self.submits.len();
        if index == 0 {
            wait_semaphores.push(frame_wait);
            stages.push(STAGE_COLOR_ATTACHMENT_OUTPUT);
            let entry = SubmitInfo {
                cmd,
                signal_semaphore: Option::Some(frame_signal),
                wait_semaphores,
                wait_stages: stages,
            };
            self.submits.push(entry);
            proof {
                let b2 = spec_submit_for_present_after(
                    b0,
                    *ifc,
                    submits@,
                    cmd,
                    wait_stages@,
                )->Ok_0;
                assert(self.submits@.len() == 1);
                assert(self.submits@[0]@ == b2[0]);
                assert(self@ =~= b2);
                assert forall|q: int|
                    0 <= q < self@.len() implies (#[trigger] self@[q]).signal_semaphore is Some
                    && self@[q].wait_semaphores.len() == self@[q].wait_stages.len() by {}
            }
            Result::Ok(SubmitHandle { index })
        } else {
            let ghost subs0 = self.submits@;
            // Extend the first entry with the frame wait.
            let first = &self.submits[0];
            let mut new_ws = Vec::new();
            let mut w: usize = 0;
            proof {
                assert(new_ws@ =~= first.wait_semaphores@.take(0));
            }
            while w < first.wait_semaphores.len()
                invariant
                    first.wait_semaphores@ == subs0[0].wait_semaphores@,
                    w <= first.wait_semaphores@.len(),
                    new_ws@ == first.wait_semaphores@.take(w as int),
                decreases first.wait_semaphores@.len() - w,
            {
                new_ws.push(first.wait_semaphores[w]);
                proof {
                    assert(new_ws@ =~= first.wait_semaphores@.take(w + 1));
                }
                w = w + 1;
            }
            let mut new_st = Vec::new();
            let mut w2: usize = 0;
            proof {
                assert(new_st@ =~= first.wait_stages@.take(0));
            }
            while w2 < first.wait_stages.len()
                invariant
                    first.wait_stages@ == subs0[0].wait_stages@,
                    w2 <= first.wait_stages@.len(),
                    new_st@ == first.wait_stages@.take(w2 as int),
                decreases first.wait_stages@.len() - w2,
            {
                new_st.push(first.wait_stages[w2]);
                proof {
                    assert(new_st@ =~= first.wait_stages@.take(w2 + 1));
                }
                w2 = w2 + 1;
            }
            proof {
                assert(first.wait_semaphores@.take(first.wait_semaphores@.len() as int)
                    =~= first.wait_semaphores@);
                assert(first.wait_stages@.take(first.wait_stages@.len() as int)
                    =~= first.wait_stages@);
            }
            let first_cmd = first.cmd;
            let first_signal = first.signal_semaphore;
            new_st.push(STAGE_TOP_OF_PIPE);
            new_ws.push(frame_wait);
            let first2 = SubmitInfo {
                cmd: first_cmd,
                signal_semaphore: first_signal,
                wait_semaphores: new_ws,
                wait_stages: new_st,
            };
            self.submits.set(0, first2);
            let entry = SubmitInfo {
                cmd,
                signal_semaphore: Option::Some(frame_signal),
                wait_semaphores,
                wait_stages: stages,
            };
            let ghost subs1 = self.submits@;
            self.submits.push(entry);
            proof {
                let b2 = spec_submit_for_present_after(
                    b0,
                    *ifc,
                    submits@,
                    cmd,
                    wait_stages@,
                )->Ok_0;
                assert(subs0[0]@ == b0[0]);
                assert(self.submits@[0]@ == b2[0]);
                assert(self.submits@[subs1.len() as int]@ == b2[b2.len() - 1]);
                assert forall|q: int| 0 <= q < self@.len() implies self@[q] == b2[q] by {
                    if 1 <= q < subs0.len() {
                        assert(self.submits@[q] == subs0[q]);
                        assert(submit_views(subs0)[q] == b0[q]);
                    }
                }
                assert(self@ =~= b2);
                assert forall|q: int|
                    0 <= q < self@.len() implies (#[trigger] self@[q]).signal_semaphore is Some
                    && self@[q].wait_semaphores.len() == self@[q].wait_stages.len() by {
                    if 1 <= q < b0.len() {
                        assert(self@[q] == b0[q]);
                    } else if q == 0 {
                        assert(b0[0].signal_semaphore is Some);
                        assert(b0[0].wait_semaphores.len() == b0[0].wait_stages.len());
                    }
                }
            }
            Result::Ok(SubmitHandle { index })
        }
    }

    /// Submit the frame's commands for presentation with no other
    /// dependencies.
    pub fn submit_for_present(&mut self, cmd: u64, ifc: &InFlightContext) -> (res: Result<
        SubmitHandle,
        Error,
    >)
        requires
            batch_wf(old(self)@),
        ensures
            match spec_submit_for_present_after(
                old(self)@,
                *ifc,
                Seq::empty(),
                cmd,
                Seq::empty(),
            ) {
                Result::Ok(b2) => res matches Result::Ok(h) && final(self)@ == b2 && batch_wf(b2)
                    && h.index == old(self)@.len(),
                Result::Err(e) => res matches Result::Err(e2) && e2 == e && final(self)@ == old(
                    self,
                )@,
            },
    {
        let handles: Vec<SubmitHandle> = Vec::new();
        let stages: Vec<u64> = Vec::new();
        let r = self.submit_for_present_after(cmd, ifc, &handles, &stages);
        proof {
            assert(handles@ =~= Seq::<SubmitHandle>::empty());
            assert(stages@ =~= Seq::<u64>::empty());
        }
        r
    }

    /// Submit the frame's commands for presentation, waiting on every
    /// prior entry at the given stage.
    pub fn submit_for_present_after_all(
        &mut self,
        cmd: u64,
        ifc: &InFlightContext,
        wait_stage: u64,
    ) -> (res: Result<SubmitHandle, Error>)
        requires
            batch_wf(old(self)@),
        ensures
            match spec_submit_for_present_after(
                old(self)@,
                *ifc,
                Seq::new(old(self)@.len(), |i: int| SubmitHandle { index: i as usize }),
                cmd,
                Seq::new(old(self)@.len(), |i: int| wait_stage),
            ) {
                Result::Ok(b2) => res matches Result::Ok(h) && final(self)@ == b2 && batch_wf(b2)
                    && h.index == old(self)@.len(),
                Result::Err(e) => res matches Result::Err(e2) && e2 == e && final(self)@ == old(
                    self,
                )@,
            },
    {
        let ghost b0 = self@;
        let n = self.submits.len();
        let mut handles: Vec<SubmitHandle> = Vec::new();
        let mut stages: Vec<u64> = Vec::new();
        let mut i: usize = 0;
        while i < n
            invariant
                b0 == self@,
                n == b0.len(),
                i <= n,
                handles@.len() == i as int,
                stages@.len() == i as int,
                forall|q: int| 0 <= q < i ==> (#[trigger] handles@[q]) == (SubmitHandle {
                    index: q as usize,
                }),
                forall|q: int| 0 <= q < i ==> (#[trigger] stages@[q]) == wait_stage,
            decreases n - i,
        {
            handles.push(SubmitHandle { index: i });
            stages.push(wait_stage);
            i = i + 1;
        }
        proof {
            assert(handles@ =~= Seq::new(b0.len(), |q: int| SubmitHandle { index: q as usize }));
            assert(stages@ =~= Seq::new(b0.len(), |q: int| wait_stage));
            assert forall|q: int|
                0 <= q < handles@.len() implies (#[trigger] handles@[q]).index < b0.len() by {}
        }
        self.submit_for_present_after(cmd, ifc, &handles, &stages)
    }

    /// Finish the batch: turn every entry into one submission of a single
    /// flush, and return the submissions together with the completion
    /// handle that releases every entry's command buffer exactly once
    /// after the flush completes.
    pub fn finish(self) -> (r: (Vec<Submission>, CompletionHandle))
        requires
            batch_wf(self@),
        ensures
            submission_views(r.0@) == spec_finish_submissions(self@),
            r.1@.cleanup_cmds == spec_finish_cleanup(self@),
            !r.1@.cleanup_run,
    {
        let ghost b0 = self@;
        let mut subs: Vec<Submission> = Vec::new();
        let mut cmds: Vec<u64> = Vec::new();
        let mut i: usize = 0;
        proof {
            assert(submission_views(subs@) =~= spec_finish_submissions(b0).take(0));
            assert(cmds@ =~= spec_finish_cleanup(b0).take(0));
        }
        while i < self.submits.len()
            invariant
                b0 == self@,
                batch_wf(b0),
                i <= self.submits@.len(),
                submission_views(subs@) == spec_finish_submissions(b0).take(i as int),
                cmds@ == spec_finish_cleanup(b0).take(i as int),
            decreases self.submits@.len() - i,
        {
            let ghost ev = b0[i as int];
            proof {
                assert(self.submits@[i as int]@ == ev);
                assert(ev.signal_semaphore is Some);
            }
            let e = &self.submits[i];
            let mut ws: Vec<SemaphoreId> = Vec::new();
            let mut k: usize = 0;
            proof {
                assert(ws@ =~= e.wait_semaphores@.take(0));
            }
            while k < e.wait_semaphores.len()
                invariant
                    e.wait_semaphores@ == self.submits@[i as int].wait_semaphores@,
                    k <= e.wait_semaphores@.len(),
                    ws@ == e.wait_semaphores@.take(k as int),
                decreases e.wait_semaphores@.len() - k,
            {
                ws.push(e.wait_semaphores[k]);
                proof {
                    assert(ws@ =~= e.wait_semaphores@.take(k + 1));
                }
                k = k + 1;
            }
            let mut wst: Vec<u64> = Vec::new();
            let mut k2: usize = 0;
            proof {
                assert(wst@ =~= e.wait_stages@.take(0));
            }
            while k2 < e.wait_stages.len()
                invariant
                    e.wait_stages@ == self.submits@[i as int].wait_stages@,
                    k2 <= e.wait_stages@.len(),
                    wst@ == e.wait_stages@.take(k2 as int),
                decreases e.wait_stages@.len() - k2,
            {
                wst.push(e.wait_stages[k2]);
                proof {
                    assert(wst@ =~= e.wait_stages@.take(k2 + 1));
                }
                k2 = k2 + 1;
            }
            proof {
                assert(e.wait_semaphores@.take(e.wait_semaphores@.len() as int)
                    =~= e.wait_semaphores@);
                assert(e.wait_stages@.take(e.wait_stages@.len() as int) =~= e.wait_stages@);
            }
            let signal = match e.signal_semaphore {
                Option::Some(s) => s,
                Option::None => {
                    proof {
                        assert(false);
                    }
                    unreached()
                },
            };
            let mut sig: Vec<SemaphoreId> = Vec::new();
            sig.push(signal);
            let mut sig_st: Vec<u64> = Vec::new();
            sig_st.push(STAGE_BOTTOM_OF_PIPE);
            let sub = Submission {
                wait_semaphores: ws,
                wait_stages: wst,
                cmd: e.cmd,
                signal_semaphores: sig,
                signal_stages: sig_st,
            };
            proof {
                assert(sub@.signal_semaphores =~= seq![ev.signal_semaphore->0]);
                assert(sub@.signal_stages =~= seq![STAGE_BOTTOM_OF_PIPE]);
                assert(sub@ == spec_finish_submissions(b0)[i as int]);
            }
            let ghost subs_prev = subs@;
            let ghost cmds_prev = cmds@;
            let e_cmd = e.cmd;
            subs.push(sub);
            cmds.push(e_cmd);
            proof {
                assert(subs@ == subs_prev.push(subs@[subs_prev.len() as int]));
                assert(submission_views(subs_prev).len() == subs_prev.len());
                assert(spec_finish_submissions(b0).len() == b0.len());
                assert(spec_finish_submissions(b0).take(i as int).len() == i as int);
                assert(subs_prev.len() == i as int);
                assert forall|q: int|
                    0 <= q < subs_prev.len() implies submission_views(subs@)[q]
                    == submission_views(subs_prev)[q] by {
                    assert(subs@[q] == subs_prev[q]);
                }
                assert(submission_views(subs@)[subs_prev.len() as int] == sub@);
                assert(submission_views(subs@) =~= spec_finish_submissions(b0).take(i + 1));
                assert(cmds@ =~= spec_finish_cleanup(b0).take(i + 1));
            }
            i = i + 1;
        }
        proof {
            assert(spec_finish_submissions(b0).take(b0.len() as int) =~= spec_finish_submissions(
                b0,
            ));
            assert(spec_finish_cleanup(b0).take(b0.len() as int) =~= spec_finish_cleanup(b0));
        }
        (subs, CompletionHandle { cleanup_cmds: cmds, cleanup_run: false })
    }
}

impl SubmitHandle {
    /// Add another submit to the batch that waits on this submit at the
    /// given wait stage mask.
    pub fn then(&self, wait_stage: u64, cmd: u64, batch: &mut SubmitBatch) -> (res: Result<
        SubmitHandle,
        Error,
    >)
        requires
            batch_wf(old(batch)@),
            self.index < old(batch)@.len(),
        ensures
            match spec_submit_after(old(batch)@, seq![*self], cmd, seq![wait_stage]) {
                Result::Ok(b2) => res matches Result::Ok(h) && final(batch)@ == b2 && batch_wf(b2)
                    && h.index == old(batch)@.len(),
                Result::Err(e) => res matches Result::Err(e2) && e2 == e && final(batch)@ == old(
                    batch,
                )@,
            },
    {
        let mut handles: Vec<SubmitHandle> = Vec::new();
        handles.push(*self);
        let mut stages: Vec<u64> = Vec::new();
        stages.push(wait_stage);
        let r = batch.submit_after(&handles, cmd, &stages);
        proof {
            assert(handles@ =~= seq![*self]);
            assert(stages@ =~= seq![wait_stage]);
        }
        r
    }
}

} // verus!
