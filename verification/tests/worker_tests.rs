use mnemonic_worker::batch::{batch_result_from_raw, BatchResult};
use mnemonic_worker::codec::WorkAssignment;
use mnemonic_worker::worker::{step, WorkerAction, WorkerEvent, WorkerState};

fn padded(text: &[u8]) -> Vec<u8> {
    let mut buf = text.to_vec();
    buf.resize(120, 0);
    buf
}

fn assignment(digits: Vec<u16>, offset: u128, batch_size: u64) -> WorkAssignment {
    WorkAssignment { digits, offset, batch_size }
}

fn empty_result() -> BatchResult {
    batch_result_from_raw(0, vec![0; 120])
}

#[test]
fn full_cycle_without_find() {
    let (s, a) = step(WorkerState::Idle, WorkerEvent::Started);
    assert!(matches!(a, WorkerAction::RequestWork { backoff: 0 }));

    let work = assignment(vec![5, 10], 7, 64);
    let (s, a) = step(s, WorkerEvent::WorkArrived(work));
    let range = match a {
        WorkerAction::RunBatch(r) => r,
        _ => panic!("expected a dispatch"),
    };
    assert_eq!(range.offset, 7);
    assert_eq!(range.batch_size, 64);
    assert_eq!(range.start_hi, 45079976738816000);
    assert_eq!(range.start_lo, 7);

    let (s, a) = step(s, WorkerEvent::BatchCompleted(empty_result()));
    match a {
        WorkerAction::ReportProgress { offset } => assert_eq!(offset, 7),
        _ => panic!("expected a progress report"),
    }

    // found flag down: straight back to requesting work, nothing reported.
    let (_, a) = step(s, WorkerEvent::ProgressAcked(true));
    assert!(matches!(a, WorkerAction::RequestWork { backoff: 0 }));
}

#[test]
fn progress_offsets_track_each_batch() {
    // Two batches, each progress report carries its own batch's offset.
    let (s, _) = step(WorkerState::Idle, WorkerEvent::Started);
    let (s, _) = step(s, WorkerEvent::WorkArrived(assignment(vec![1], 100, 8)));
    let (s, a) = step(s, WorkerEvent::BatchCompleted(empty_result()));
    assert!(matches!(a, WorkerAction::ReportProgress { offset: 100 }));
    let (s, _) = step(s, WorkerEvent::ProgressAcked(true));
    let (s, _) = step(s, WorkerEvent::WorkArrived(assignment(vec![2], 200, 8)));
    let (_, a) = step(s, WorkerEvent::BatchCompleted(empty_result()));
    assert!(matches!(a, WorkerAction::ReportProgress { offset: 200 }));
}

#[test]
fn garbage_text_ignored_when_not_found() {
    // Whatever the candidate region holds, an unset flag means it is
    // never read: both runs take the identical path.
    for garbage in [padded(b"stale nonsense"), vec![7; 120]] {
        let (s, _) = step(WorkerState::Idle, WorkerEvent::Started);
        let (s, _) = step(s, WorkerEvent::WorkArrived(assignment(vec![3], 5, 4)));
        let (s, _) = step(s, WorkerEvent::BatchCompleted(batch_result_from_raw(0, garbage)));
        let (s, a) = step(s, WorkerEvent::ProgressAcked(true));
        assert!(matches!(a, WorkerAction::RequestWork { backoff: 0 }));
        assert!(matches!(s, WorkerState::AwaitingWork { failures: 0 }));
    }
}

#[test]
fn found_candidate_is_trimmed_and_reported() {
    let mnemonic = b"abandon ability able about above absent absorb abstract absurd abuse access accident";
    let (s, _) = step(WorkerState::Idle, WorkerEvent::Started);
    let (s, _) = step(s, WorkerEvent::WorkArrived(assignment(vec![9], 31, 2)));
    let (s, a) = step(
        s,
        WorkerEvent::BatchCompleted(batch_result_from_raw(1, padded(mnemonic))),
    );
    assert!(matches!(a, WorkerAction::ReportProgress { offset: 31 }));
    let (_, a) = step(s, WorkerEvent::ProgressAcked(true));
    match a {
        WorkerAction::ReportSolution { offset, candidate } => {
            assert_eq!(offset, 31);
            assert_eq!(candidate, mnemonic.to_vec());
        },
        _ => panic!("expected a solution report"),
    }
}

#[test]
fn solution_report_retries_bounded() {
    let (s, _) = step(WorkerState::Idle, WorkerEvent::Started);
    let (s, _) = step(s, WorkerEvent::WorkArrived(assignment(vec![9], 31, 2)));
    let (s, _) = step(
        s,
        WorkerEvent::BatchCompleted(batch_result_from_raw(1, padded(b"zoo zebra"))),
    );
    let (mut s, a) = step(s, WorkerEvent::ProgressAcked(true));
    assert!(matches!(a, WorkerAction::ReportSolution { .. }));
    // Two failed sends trigger two resends (three attempts in all) ...
    for _ in 0..2 {
        let (s2, a) = step(s, WorkerEvent::SolutionAcked(false));
        match a {
            WorkerAction::ReportSolution { offset, candidate } => {
                assert_eq!(offset, 31);
                assert_eq!(candidate, b"zoo zebra".to_vec());
            },
            _ => panic!("expected a resend"),
        }
        s = s2;
    }
    // ... then the worker gives up and asks for fresh work.
    let (s, a) = step(s, WorkerEvent::SolutionAcked(false));
    assert!(matches!(a, WorkerAction::RequestWork { backoff: 0 }));
    assert!(matches!(s, WorkerState::AwaitingWork { failures: 0 }));
}

#[test]
fn successful_solution_ack_ends_retries() {
    let (s, _) = step(WorkerState::Idle, WorkerEvent::Started);
    let (s, _) = step(s, WorkerEvent::WorkArrived(assignment(vec![9], 31, 2)));
    let (s, _) = step(
        s,
        WorkerEvent::BatchCompleted(batch_result_from_raw(1, padded(b"zoo zebra"))),
    );
    let (s, _) = step(s, WorkerEvent::ProgressAcked(true));
    let (_, a) = step(s, WorkerEvent::SolutionAcked(true));
    assert!(matches!(a, WorkerAction::RequestWork { backoff: 0 }));
}

#[test]
fn request_failures_raise_backoff() {
    let (s, _) = step(WorkerState::Idle, WorkerEvent::Started);
    let (s, a) = step(s, WorkerEvent::WorkRequestFailed);
    assert!(matches!(a, WorkerAction::RequestWork { backoff: 1 }));
    let (s, a) = step(s, WorkerEvent::WorkRequestFailed);
    assert!(matches!(a, WorkerAction::RequestWork { backoff: 2 }));
    // A successful batch clears the failure count.
    let (s, _) = step(s, WorkerEvent::WorkArrived(assignment(vec![1], 0, 1)));
    let (s, _) = step(s, WorkerEvent::BatchCompleted(empty_result()));
    let (_, a) = step(s, WorkerEvent::ProgressAcked(false));
    assert!(matches!(a, WorkerAction::RequestWork { backoff: 0 }));
}

#[test]
fn undecodable_assignment_requests_fresh_work() {
    let (s, _) = step(WorkerState::Idle, WorkerEvent::Started);
    // Twelve digits cannot be packed into 128 bits.
    let (s, a) = step(s, WorkerEvent::WorkArrived(assignment(vec![0; 12], 0, 1)));
    assert!(matches!(a, WorkerAction::RequestWork { backoff: 1 }));
    assert!(matches!(s, WorkerState::AwaitingWork { failures: 1 }));
}

#[test]
fn device_failure_stops_the_loop() {
    let (s, _) = step(WorkerState::Idle, WorkerEvent::Started);
    let (s, _) = step(s, WorkerEvent::WorkArrived(assignment(vec![1], 0, 1)));
    let (s, a) = step(s, WorkerEvent::BatchFailed);
    assert!(matches!(a, WorkerAction::Shutdown));
    assert!(matches!(s, WorkerState::Stopped));
}
