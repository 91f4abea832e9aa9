use bunwarmer::stripe::WorkerAssignment;
use bunwarmer::tally::{Completion, DeviceTally};
use bunwarmer::worker::{ReadOutcome, RetryDecision, RetryPolicy, Step, Worker, WorkerResult, RETRY_DELAY_MS};

/// Drives a worker against a simulated device; `fail` says how many times the
/// read at an offset fails before it succeeds. Returns the offsets read and
/// the offsets given up.
fn drive(w: &mut Worker, size: u64, block: u64, fail: &dyn Fn(u64) -> u32) -> (Vec<u64>, Vec<u64>) {
    let mut read = Vec::new();
    let mut abandoned = Vec::new();
    let mut failures_here = 0u32;
    while let Some(o) = w.pending_offset() {
        let outcome = if failures_here < fail(o) {
            failures_here += 1;
            ReadOutcome::Failed
        } else {
            ReadOutcome::Read(block.min(size - o))
        };
        match w.record(outcome) {
            Step::Advanced { .. } => {
                read.push(o);
                failures_here = 0;
            }
            Step::Abandoned { offset } => {
                abandoned.push(offset);
                failures_here = 0;
            }
            Step::RetryAfterDelay => {}
            Step::EndOfDevice => {}
        }
    }
    (read, abandoned)
}

fn run_device(n: u64, block: u64, size: u64, max_retries: u32, fail: &dyn Fn(u64) -> u32) -> (Vec<u64>, DeviceTally) {
    let mut all = Vec::new();
    let mut tally = DeviceTally::new(n);
    for i in 0..n {
        let mut w = Worker::new(WorkerAssignment::new(i, n, block), size, max_retries);
        let (read, _) = drive(&mut w, size, block, fail);
        all.extend(read);
        tally.add(w.result());
    }
    all.sort();
    (all, tally)
}

#[test]
fn stripes_cover_every_block_once() {
    for &(n, b, size) in &[(1u64, 4u64, 0u64), (3, 4, 30), (4, 5, 20), (7, 3, 10), (2, 1, 9), (5, 8, 8)] {
        let (offsets, _) = run_device(n, b, size, 0, &|_| 0);
        let expected: Vec<u64> = (0..size).step_by(b as usize).collect();
        assert_eq!(offsets, expected, "n={} b={} size={}", n, b, size);
    }
}

#[test]
fn worker_visits_its_own_stripe() {
    let mut w = Worker::new(WorkerAssignment::new(1, 3, 4), 30, 0);
    let (read, _) = drive(&mut w, 30, 4, &|_| 0);
    assert_eq!(read, vec![4, 16, 28]);
    assert_eq!(w.result().bytes_read, 4 + 4 + 2);
    let a = WorkerAssignment::new(2, 3, 4);
    assert_eq!(a.stride(), 12);
    assert_eq!(a.start_offset(), 8);
}

#[test]
fn transient_failures_count_bytes_once() {
    let mut w = Worker::new(WorkerAssignment::new(0, 1, 10), 10, 3);
    assert_eq!(w.record(ReadOutcome::Failed), Step::RetryAfterDelay);
    assert_eq!(w.record(ReadOutcome::Failed), Step::RetryAfterDelay);
    assert_eq!(w.pending_offset(), Some(0));
    assert_eq!(w.record(ReadOutcome::Read(10)), Step::Advanced { bytes: 10, total: 10 });
    assert_eq!(w.pending_offset(), None);
    assert_eq!(w.result(), WorkerResult { bytes_read: 10, complete: true });
}

#[test]
fn failures_below_the_bound_still_succeed() {
    let (offsets, tally) = run_device(2, 4, 16, 3, &|o| if o == 4 { 2 } else { 0 });
    assert_eq!(offsets, vec![0, 4, 8, 12]);
    assert_eq!(tally.total_bytes, 16);
    assert_eq!(tally.completion(), Completion::Completed);
}

#[test]
fn failures_reaching_the_bound_abandon() {
    let (offsets, tally) = run_device(2, 4, 16, 3, &|o| if o == 4 { 3 } else { 0 });
    assert_eq!(offsets, vec![0, 8, 12]);
    assert_eq!(tally.total_bytes, 12);
    assert_eq!(tally.completion(), Completion::PartiallyCompleted);
}

#[test]
fn persistent_failure_abandons_after_max_attempts() {
    let mut w = Worker::new(WorkerAssignment::new(0, 2, 4), 16, 3);
    for _ in 0..2 {
        assert_eq!(w.record(ReadOutcome::Failed), Step::RetryAfterDelay);
        assert_eq!(w.pending_offset(), Some(0));
    }
    assert_eq!(w.record(ReadOutcome::Failed), Step::Abandoned { offset: 0 });
    assert_eq!(w.pending_offset(), Some(8));
    assert_eq!(w.record(ReadOutcome::Read(4)), Step::Advanced { bytes: 4, total: 4 });
    assert_eq!(w.pending_offset(), None);
    assert_eq!(w.result(), WorkerResult { bytes_read: 4, complete: false });
}

#[test]
fn single_attempt_bounds() {
    for max in [0u32, 1] {
        let mut w = Worker::new(WorkerAssignment::new(0, 1, 4), 8, max);
        assert_eq!(w.record(ReadOutcome::Failed), Step::Abandoned { offset: 0 });
        assert_eq!(w.pending_offset(), Some(4));
    }
    let (offsets, tally) = run_device(2, 4, 16, 2, &|o| if o == 8 { u32::MAX } else { 0 });
    assert_eq!(offsets, vec![0, 4, 12]);
    assert_eq!(tally.total_bytes, 12);
    assert_eq!(tally.completion(), Completion::PartiallyCompleted);
}

#[test]
fn retry_policy_decisions() {
    let p = RetryPolicy { max_retries: 2 };
    assert_eq!(p.after_failure(0), RetryDecision::RetryAfterDelay);
    assert_eq!(p.after_failure(1), RetryDecision::Abandon);
    assert_eq!(p.after_failure(u32::MAX), RetryDecision::Abandon);
    let p = RetryPolicy { max_retries: 0 };
    assert_eq!(p.after_failure(0), RetryDecision::Abandon);
    assert_eq!(p.delay_ms(), 100);
    assert_eq!(RETRY_DELAY_MS, 100);
}

#[test]
fn end_of_device_stops_the_worker() {
    let mut w = Worker::new(WorkerAssignment::new(0, 1, 4), 100, 3);
    assert_eq!(w.record(ReadOutcome::Read(4)), Step::Advanced { bytes: 4, total: 4 });
    assert_eq!(w.record(ReadOutcome::Read(0)), Step::EndOfDevice);
    assert_eq!(w.pending_offset(), None);
    assert_eq!(w.result().bytes_read, 4);
}

#[test]
fn worker_beyond_the_device_reads_nothing() {
    let w = Worker::new(WorkerAssignment::new(3, 4, 8), 16, 3);
    assert_eq!(w.pending_offset(), None);
    assert_eq!(w.result(), WorkerResult { bytes_read: 0, complete: true });
}

#[test]
fn full_run_sums_to_device_size() {
    let (_, tally) = run_device(4, 262144, 262144 * 37, 3, &|_| 0);
    assert!(tally.is_drained());
    assert_eq!(tally.total_bytes, 262144 * 37);
    assert_eq!(tally.completion(), Completion::Completed);
    let (_, tally) = run_device(3, 5, 23, 3, &|_| 0);
    assert_eq!(tally.total_bytes, 23);
}

#[test]
fn worker_open_failure_leaves_partial_total() {
    let (n, b, size) = (4u64, 4u64, 64u64);
    let mut tally = DeviceTally::new(n);
    for i in 0..n {
        if i == 2 {
            tally.add(WorkerResult::open_failed());
            continue;
        }
        let mut w = Worker::new(WorkerAssignment::new(i, n, b), size, 3);
        drive(&mut w, size, b, &|_| 0);
        tally.add(w.result());
    }
    assert!(tally.is_drained());
    assert_eq!(tally.total_bytes, 48);
    assert!(tally.total_bytes < size);
    assert_eq!(tally.completion(), Completion::PartiallyCompleted);
    assert_eq!(WorkerResult::open_failed(), WorkerResult { bytes_read: 0, complete: false });
}

#[test]
fn devices_are_independent() {
    // Device A: every worker fails to open its handle.
    let mut a = DeviceTally::new(2);
    a.add(WorkerResult::open_failed());
    a.add(WorkerResult::open_failed());
    // Device B, run alongside, reads everything.
    let (_, b) = run_device(2, 4, 40, 3, &|_| 0);
    assert_eq!(a.total_bytes, 0);
    assert_eq!(a.completion(), Completion::PartiallyCompleted);
    assert!(b.is_drained());
    assert_eq!(b.total_bytes, 40);
    assert_eq!(b.completion(), Completion::Completed);
}

#[test]
fn partial_last_block_totals() {
    // 3 workers, blocks of 4, a device of 23 bytes: the last block holds 3 bytes.
    let (n, b, size) = (3u64, 4u64, 23u64);
    let mut tally = DeviceTally::new(n);
    for i in 0..n {
        if i == 2 {
            tally.add(WorkerResult::open_failed());
            continue;
        }
        let mut w = Worker::new(WorkerAssignment::new(i, n, b), size, 3);
        drive(&mut w, size, b, &|_| 0);
        tally.add(w.result());
    }
    // Worker 2 owns offsets 8 and 20: 4 + 3 bytes.
    assert_eq!(tally.total_bytes, 23 - 7);
    assert_eq!(tally.completion(), Completion::PartiallyCompleted);

    // The partial last block keeps failing: only its 3 bytes are missing.
    let (offsets, tally) = run_device(n, b, size, 3, &|o| if o == 20 { u32::MAX } else { 0 });
    assert_eq!(offsets, vec![0, 4, 8, 12, 16]);
    assert_eq!(tally.total_bytes, 20);
}
