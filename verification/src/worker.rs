//! The per-device worker loop as a state machine. One step consumes the
//! outcome of the previous action (an event) and yields the next state
//! and the next action. The surrounding process performs the actions —
//! request work, dispatch a batch, send a report — and feeds the outcome
//! back in; every decision the loop takes lives here.

use vstd::prelude::*;

use crate::batch::{trim_trailing_zeros, trim_zeros, BatchResult};
use crate::codec::{decode, decode_ok, digits_wf, spec_decode, SearchRange, WorkAssignment};

verus! {

/// How often a solution report is sent before the worker gives up on it.
/// Losing a found solution is the costliest failure, so it is worth a
/// few tries; progress reports are fire-and-forget.
pub const MAX_SOLUTION_ATTEMPTS: u64 = 3;

/// What a device's loop is waiting on.
pub enum WorkerState {
    /// Not yet started.
    Idle,
    /// A work request is out; `failures` counts consecutive failed
    /// acquisitions and drives the caller's backoff.
    AwaitingWork { failures: u64 },
    /// A batch is on the device; `offset` identifies the assignment it
    /// came from.
    AwaitingBatch { offset: u128 },
    /// A progress report for `offset` is out; the batch outcome is held
    /// until the report is acknowledged.
    AwaitingProgressAck { offset: u128, result: BatchResult },
    /// A solution report is out; the trimmed candidate is held for
    /// bounded resending.
    AwaitingSolutionAck { offset: u128, candidate: Vec<u8>, attempts: u64 },
    /// The device failed fatally; this loop is done, other devices
    /// continue unaffected.
    Stopped,
}

/// The outcome of the previous action.
pub enum WorkerEvent {
    /// The loop is being started.
    Started,
    /// The coordinator issued an assignment (already validated).
    WorkArrived(WorkAssignment),
    /// The work request failed: coordinator unreachable or a malformed
    /// response.
    WorkRequestFailed,
    /// The dispatch completed and both output regions were read back.
    BatchCompleted(BatchResult),
    /// Program build, buffer allocation, argument binding or enqueue
    /// failed.
    BatchFailed,
    /// The progress report was sent; the flag says whether it got
    /// through.
    ProgressAcked(bool),
    /// The solution report was sent; the flag says whether it got
    /// through.
    SolutionAcked(bool),
}

/// What the surrounding process must do next.
pub enum WorkerAction {
    /// Ask the coordinator for work, after a backoff driven by the count
    /// of consecutive failures.
    RequestWork { backoff: u64 },
    /// Dispatch one batch over `range.batch_size` lanes.
    RunBatch(SearchRange),
    /// Tell the coordinator the range at `offset` has been scanned.
    ReportProgress { offset: u128 },
    /// Send the found candidate for the range at `offset`.
    ReportSolution { offset: u128, candidate: Vec<u8> },
    /// Tear this device's loop down.
    Shutdown,
}

/// Mathematical model of a worker state.
pub ghost enum StateModel {
    Idle,
    AwaitingWork { failures: u64 },
    AwaitingBatch { offset: u128 },
    AwaitingProgressAck { offset: u128, found: bool, text: Seq<u8> },
    AwaitingSolutionAck { offset: u128, candidate: Seq<u8>, attempts: u64 },
    Stopped,
}

/// Mathematical model of an event.
pub ghost enum EventModel {
    Started,
    WorkArrived { digits: Seq<u16>, offset: u128, batch_size: u64 },
    WorkRequestFailed,
    BatchCompleted { found: bool, text: Seq<u8> },
    BatchFailed,
    ProgressAcked { ok: bool },
    SolutionAcked { ok: bool },
}

/// Mathematical model of an action.
pub ghost enum ActionModel {
    RequestWork { backoff: u64 },
    RunBatch { range: SearchRange },
    ReportProgress { offset: u128 },
    ReportSolution { offset: u128, candidate: Seq<u8> },
    Shutdown,
}

impl WorkerState {
    pub open spec fn model(self) -> StateModel {
        match self {
            WorkerState::Idle => StateModel::Idle,
            WorkerState::AwaitingWork { failures } => StateModel::AwaitingWork { failures },
            WorkerState::AwaitingBatch { offset } => StateModel::AwaitingBatch { offset },
            WorkerState::AwaitingProgressAck { offset, result } => StateModel::AwaitingProgressAck {
                offset,
                found: result.found,
                text: result.candidate_text@,
            },
            WorkerState::AwaitingSolutionAck { offset, candidate, attempts } => StateModel::AwaitingSolutionAck {
                offset,
                candidate: candidate@,
                attempts,
            },
            WorkerState::Stopped => StateModel::Stopped,
        }
    }
}

impl WorkerEvent {
    pub open spec fn model(self) -> EventModel {
        match self {
            WorkerEvent::Started => EventModel::Started,
            WorkerEvent::WorkArrived(a) => EventModel::WorkArrived {
                digits: a.digits@,
                offset: a.offset,
                batch_size: a.batch_size,
            },
            WorkerEvent::WorkRequestFailed => EventModel::WorkRequestFailed,
            WorkerEvent::BatchCompleted(r) => EventModel::BatchCompleted {
                found: r.found,
                text: r.candidate_text@,
            },
            WorkerEvent::BatchFailed => EventModel::BatchFailed,
            WorkerEvent::ProgressAcked(ok) => EventModel::ProgressAcked { ok },
            WorkerEvent::SolutionAcked(ok) => EventModel::SolutionAcked { ok },
        }
    }
}

impl WorkerAction {
    pub open spec fn model(self) -> ActionModel {
        match self {
            WorkerAction::RequestWork { backoff } => ActionModel::RequestWork { backoff },
            WorkerAction::RunBatch(range) => ActionModel::RunBatch { range },
            WorkerAction::ReportProgress { offset } => ActionModel::ReportProgress { offset },
            WorkerAction::ReportSolution { offset, candidate } => ActionModel::ReportSolution {
                offset,
                candidate: candidate@,
            },
            WorkerAction::Shutdown => ActionModel::Shutdown,
        }
    }
}

/// Which event a state can take: exactly the outcome of the action that
/// state is waiting on. An arriving assignment carries 11-bit digits
/// (the transport validates them before handing the event over).
pub open spec fn accepts(s: StateModel, e: EventModel) -> bool {
    match (s, e) {
        (StateModel::Idle, EventModel::Started) => true,
        (StateModel::AwaitingWork { .. }, EventModel::WorkArrived { digits, .. }) => digits_wf(
            digits,
        ),
        (StateModel::AwaitingWork { .. }, EventModel::WorkRequestFailed) => true,
        (StateModel::AwaitingBatch { .. }, EventModel::BatchCompleted { .. }) => true,
        (StateModel::AwaitingBatch { .. }, EventModel::BatchFailed) => true,
        (StateModel::AwaitingProgressAck { .. }, EventModel::ProgressAcked { .. }) => true,
        (StateModel::AwaitingSolutionAck { .. }, EventModel::SolutionAcked { .. }) => true,
        _ => false,
    }
}

/// One more consecutive failure, capped so a backoff exponent stays
/// small.
pub open spec fn bump(failures: u64) -> u64 {
    if failures < 32 {
        (failures + 1) as u64
    } else {
        failures
    }
}

/// The loop's transition function. Acquire, dispatch, report progress,
/// report a solution while the found flag is set, repeat; a request
/// failure or an undecodable assignment leads back to a fresh request, a
/// device failure stops this loop for good.
pub open spec fn step_model(s: StateModel, e: EventModel) -> (StateModel, ActionModel) {
    match (s, e) {
        (StateModel::Idle, _) => (
            StateModel::AwaitingWork { failures: 0 },
            ActionModel::RequestWork { backoff: 0 },
        ),
        (
            StateModel::AwaitingWork { failures },
            EventModel::WorkArrived { digits, offset, batch_size },
        ) => {
            if decode_ok(digits, offset) {
                (
                    StateModel::AwaitingBatch { offset },
                    ActionModel::RunBatch { range: spec_decode(digits, offset, batch_size) },
                )
            } else {
                (
                    StateModel::AwaitingWork { failures: bump(failures) },
                    ActionModel::RequestWork { backoff: bump(failures) },
                )
            }
        },
        (StateModel::AwaitingWork { failures }, _) => (
            StateModel::AwaitingWork { failures: bump(failures) },
            ActionModel::RequestWork { backoff: bump(failures) },
        ),
        (StateModel::AwaitingBatch { offset }, EventModel::BatchCompleted { found, text }) => (
            StateModel::AwaitingProgressAck { offset, found, text },
            ActionModel::ReportProgress { offset },
        ),
        (StateModel::AwaitingBatch { .. }, _) => (StateModel::Stopped, ActionModel::Shutdown),
        (StateModel::AwaitingProgressAck { offset, found, text }, _) => {
            if found {
                (
                    StateModel::AwaitingSolutionAck {
                        offset,
                        candidate: trim_zeros(text),
                        attempts: 1,
                    },
                    ActionModel::ReportSolution { offset, candidate: trim_zeros(text) },
                )
            } else {
                (
                    StateModel::AwaitingWork { failures: 0 },
                    ActionModel::RequestWork { backoff: 0 },
                )
            }
        },
        (
            StateModel::AwaitingSolutionAck { offset, candidate, attempts },
            EventModel::SolutionAcked { ok },
        ) => {
            if !ok && attempts < MAX_SOLUTION_ATTEMPTS {
                (
                    StateModel::AwaitingSolutionAck {
                        offset,
                        candidate,
                        attempts: (attempts + 1) as u64,
                    },
                    ActionModel::ReportSolution { offset, candidate },
                )
            } else {
                (
                    StateModel::AwaitingWork { failures: 0 },
                    ActionModel::RequestWork { backoff: 0 },
                )
            }
        },
        (StateModel::AwaitingSolutionAck { .. }, _) => (
            StateModel::AwaitingWork { failures: 0 },
            ActionModel::RequestWork { backoff: 0 },
        ),
        (StateModel::Stopped, _) => (StateModel::Stopped, ActionModel::Shutdown),
    }
}

/// Byte-for-byte copy; the resend of a solution report needs the
/// candidate both in the action and back in the state.
fn copy_bytes(v: &Vec<u8>) -> (r: Vec<u8>)
    ensures
        r@ == v@,
{
    let mut r: Vec<u8> = Vec::new();
    let mut i: usize = 0;
    while i < v.len()
        invariant
            i <= v@.len(),
            r@ == v@.take(i as int),
        decreases v@.len() - i,
    {
        let b = v[i];
        proof {
            assert(v@.take(i as int + 1) =~= v@.take(i as int).push(v@[i as int]));
        }
        r.push(b);
        i = i + 1;
    }
    proof {
        assert(v@.take(v@.len() as int) =~= v@);
    }
    r
}

fn bump_failures(failures: u64) -> (r: u64)
    ensures
        r == bump(failures),
{
    if failures < 32 {
        failures + 1
    } else {
        failures
    }
}

/// Takes one step of the worker loop: consumes the outcome of the
/// previous action and yields the next state and the action to perform.
/// Behaves exactly as `step_model` on the models of its arguments.
pub fn step(state: WorkerState, event: WorkerEvent) -> (r: (WorkerState, WorkerAction))
    requires
        accepts(state.model(), event.model()),
    ensures
        r.0.model() == step_model(state.model(), event.model()).0,
        r.1.model() == step_model(state.model(), event.model()).1,
{
    match (state, event) {
        (WorkerState::Idle, _) => (
            WorkerState::AwaitingWork { failures: 0 },
            WorkerAction::RequestWork { backoff: 0 },
        ),
        (WorkerState::AwaitingWork { failures }, WorkerEvent::WorkArrived(assignment)) => {
            match decode(&assignment) {
                Ok(range) => (
                    WorkerState::AwaitingBatch { offset: assignment.offset },
                    WorkerAction::RunBatch(range),
                ),
                Err(_) => {
                    let f = bump_failures(failures);
                    (
                        WorkerState::AwaitingWork { failures: f },
                        WorkerAction::RequestWork { backoff: f },
                    )
                },
            }
        },
        (WorkerState::AwaitingWork { failures }, _) => {
            let f = bump_failures(failures);
            (WorkerState::AwaitingWork { failures: f }, WorkerAction::RequestWork { backoff: f })
        },
        (WorkerState::AwaitingBatch { offset }, WorkerEvent::BatchCompleted(result)) => (
            WorkerState::AwaitingProgressAck { offset, result },
            WorkerAction::ReportProgress { offset },
        ),
        (WorkerState::AwaitingBatch { .. }, _) => (WorkerState::Stopped, WorkerAction::Shutdown),
        (WorkerState::AwaitingProgressAck { offset, result }, _) => {
            if result.found {
                let candidate = trim_trailing_zeros(&result.candidate_text);
                let resend = copy_bytes(&candidate);
                (
                    WorkerState::AwaitingSolutionAck { offset, candidate, attempts: 1 },
                    WorkerAction::ReportSolution { offset, candidate: resend },
                )
            } else {
                (
                    WorkerState::AwaitingWork { failures: 0 },
                    WorkerAction::RequestWork { backoff: 0 },
                )
            }
        },
        (
            WorkerState::AwaitingSolutionAck { offset, candidate, attempts },
            WorkerEvent::SolutionAcked(ok),
        ) => {
            if !ok && attempts < MAX_SOLUTION_ATTEMPTS {
                let resend = copy_bytes(&candidate);
                (
                    WorkerState::AwaitingSolutionAck { offset, candidate, attempts: attempts + 1 },
                    WorkerAction::ReportSolution { offset, candidate: resend },
                )
            } else {
                (
                    WorkerState::AwaitingWork { failures: 0 },
                    WorkerAction::RequestWork { backoff: 0 },
                )
            }
        },
        (WorkerState::AwaitingSolutionAck { .. }, _) => (
            WorkerState::AwaitingWork { failures: 0 },
            WorkerAction::RequestWork { backoff: 0 },
        ),
        (WorkerState::Stopped, _) => (WorkerState::Stopped, WorkerAction::Shutdown),
    }
}

/// Does a trace of events fit a starting state, each event being one the
/// state at that point was waiting on?
pub open spec fn trace_ok(s: StateModel, events: Seq<EventModel>) -> bool
    decreases events.len(),
{
    events.len() == 0 || (accepts(s, events[0]) && trace_ok(
        step_model(s, events[0]).0,
        events.skip(1),
    ))
}

/// The actions a trace of events drives the loop to take.
pub open spec fn run_actions(s: StateModel, events: Seq<EventModel>) -> Seq<ActionModel>
    decreases events.len(),
{
    if events.len() == 0 {
        Seq::empty()
    } else {
        seq![step_model(s, events[0]).1] + run_actions(step_model(s, events[0]).0, events.skip(1))
    }
}

pub open spec fn count_progress_reports(actions: Seq<ActionModel>) -> int
    decreases actions.len(),
{
    if actions.len() == 0 {
        0
    } else {
        (if actions[0] is ReportProgress {
            1int
        } else {
            0int
        }) + count_progress_reports(actions.skip(1))
    }
}

pub open spec fn count_completed_batches(events: Seq<EventModel>) -> int
    decreases events.len(),
{
    if events.len() == 0 {
        0
    } else {
        (if events[0] is BatchCompleted {
            1int
        } else {
            0int
        }) + count_completed_batches(events.skip(1))
    }
}

/// Progress accounting, one step: a progress report goes out exactly
/// when a batch completes, and it carries the offset of the very batch
/// the worker was awaiting — never a stale or future one.
pub proof fn lemma_progress_report_exact(s: StateModel, e: EventModel)
    requires
        accepts(s, e),
    ensures
        (step_model(s, e).1 is ReportProgress) <==> (e is BatchCompleted),
        step_model(s, e).1 matches ActionModel::ReportProgress { offset } ==> s
            == (StateModel::AwaitingBatch { offset }),
{
}

/// Dispatch accounting: a batch is dispatched exactly when a decodable
/// assignment arrives, the dispatched range is that assignment's
/// decoding, and the worker then awaits exactly that assignment's
/// offset.
pub proof fn lemma_dispatch_exact(s: StateModel, e: EventModel)
    requires
        accepts(s, e),
    ensures
        (step_model(s, e).1 is RunBatch) <==> (e matches EventModel::WorkArrived {
            digits,
            offset,
            ..
        } && decode_ok(digits, offset)),
        step_model(s, e).1 matches ActionModel::RunBatch { range } ==> e
            matches EventModel::WorkArrived { digits, offset, batch_size } && range == spec_decode(
            digits,
            offset,
            batch_size,
        ) && step_model(s, e).0 == (StateModel::AwaitingBatch { offset }) && range.offset == offset,
        step_model(s, e).0 matches StateModel::AwaitingBatch { offset } ==> (e
            matches EventModel::WorkArrived { offset: arrived, .. } && arrived == offset
            && step_model(s, e).1 is RunBatch),
{
}

/// Progress accounting over a whole trace: for N completed batches,
/// exactly N progress reports go out, no more, no fewer.
pub proof fn lemma_progress_accounting(s: StateModel, events: Seq<EventModel>)
    requires
        trace_ok(s, events),
    ensures
        count_progress_reports(run_actions(s, events)) == count_completed_batches(events),
    decreases events.len(),
{
    if events.len() == 0 {
        assert(run_actions(s, events) =~= Seq::<ActionModel>::empty());
    } else {
        let s1 = step_model(s, events[0]).0;
        let a = step_model(s, events[0]).1;
        let rest = run_actions(s1, events.skip(1));
        lemma_progress_report_exact(s, events[0]);
        lemma_progress_accounting(s1, events.skip(1));
        assert(run_actions(s, events) == seq![a] + rest);
        assert((seq![a] + rest).skip(1) =~= rest);
        assert((seq![a] + rest)[0] == a);
    }
}

/// Found-flag gating: when the found flag is down, the worker's next
/// state and action are the same whatever the candidate-text region
/// holds; the text is never read, let alone reported.
pub proof fn lemma_found_flag_gating(offset: u128, t1: Seq<u8>, t2: Seq<u8>, e: EventModel)
    requires
        accepts(StateModel::AwaitingProgressAck { offset, found: false, text: t1 }, e),
    ensures
        accepts(StateModel::AwaitingProgressAck { offset, found: false, text: t2 }, e),
        step_model(StateModel::AwaitingProgressAck { offset, found: false, text: t1 }, e)
            == step_model(StateModel::AwaitingProgressAck { offset, found: false, text: t2 }, e),
{
}

/// A candidate is only ever reported while the found flag was up: a
/// solution report arises solely from a completed batch whose flag was
/// set, or as a bounded resend of that same report.
pub proof fn lemma_solution_needs_found(s: StateModel, e: EventModel)
    requires
        accepts(s, e),
    ensures
        (step_model(s, e).1 is ReportSolution) ==> (s matches StateModel::AwaitingProgressAck {
            found,
            ..
        } && found) || (s is AwaitingSolutionAck),
{
}

} // verus!
