use vstd::prelude::*;
use crate::stripe::WorkerAssignment;

verus! {

/// The pause between a failed read and its retry, in milliseconds.
pub const RETRY_DELAY_MS: u64 = 100;

/// What became of one positioned read.
#[derive(Debug, Clone, Copy, PartialEq, Eq, Structural)]
pub enum ReadOutcome {
    /// The read returned this many bytes; `0` marks the end of the device.
    Read(u64),
    /// The device reported an I/O error.
    Failed,
}

/// What a failed read leads to.
#[derive(Debug, Clone, Copy, PartialEq, Eq, Structural)]
pub enum RetryDecision {
    /// Wait for the retry delay, then read the same offset again.
    RetryAfterDelay,
    /// Give the offset up and go on with the next one.
    Abandon,
}

/// Bounded retry with a fixed delay: an offset is read at most `max_retries`
/// times, and the `max_retries`-th consecutive failure there gives it up. A
/// bound of `0` allows a single read with no retry, as a bound of `1` does.
#[derive(Debug, Clone, Copy, PartialEq, Eq, Structural)]
pub struct RetryPolicy {
    pub max_retries: u32,
}

impl RetryPolicy {
    /// How many reads an offset gets before it is given up.
    pub open spec fn attempts(self) -> nat {
        if self.max_retries == 0 {
            1
        } else {
            self.max_retries as nat
        }
    }

    /// The decision after a failed read at an offset that had already failed
    /// `retries` times.
    pub open spec fn decide(self, retries: int) -> RetryDecision {
        if retries + 1 < self.max_retries {
            RetryDecision::RetryAfterDelay
        } else {
            RetryDecision::Abandon
        }
    }

    /// The decision after a failed read at an offset that had already failed
    /// `retries` times.
    pub fn after_failure(&self, retries: u32) -> (r: RetryDecision)
        ensures
            r == self.decide(retries as int),
    {
        if (retries as u64) + 1 < self.max_retries as u64 {
            RetryDecision::RetryAfterDelay
        } else {
            RetryDecision::Abandon
        }
    }

    /// The fixed pause before a retry, in milliseconds.
    pub fn delay_ms(&self) -> (r: u64)
        ensures
            r == RETRY_DELAY_MS,
    {
        RETRY_DELAY_MS
    }
}

/// The single report a worker makes when it stops.
#[derive(Debug, Clone, Copy, PartialEq, Eq, Structural)]
pub struct WorkerResult {
    pub bytes_read: u64,
    /// The worker opened its handle and gave up no offset.
    pub complete: bool,
}

impl WorkerResult {
    /// The report of a worker whose own handle could not be opened.
    pub fn open_failed() -> (r: WorkerResult)
        ensures
            r.bytes_read == 0,
            !r.complete,
    {
        WorkerResult { bytes_read: 0, complete: false }
    }
}

/// What one recorded read led to, for the driver of the worker to act on.
#[derive(Debug, Clone, Copy, PartialEq, Eq, Structural)]
pub enum Step {
    /// Bytes were read; `total` is the worker's running total.
    Advanced { bytes: u64, total: u64 },
    /// The read failed and the same offset is to be read again after the delay.
    RetryAfterDelay,
    /// The read failed for the last time the policy allows; the offset is given up.
    Abandoned { offset: u64 },
    /// The device ended: the worker has nothing more to read.
    EndOfDevice,
}

/// The per-worker read loop as a state machine. The driver asks for the
/// pending offset, performs the read, and records its outcome.
#[derive(Debug, Clone, Copy, PartialEq, Eq, Structural)]
pub struct Worker {
    pub assignment: WorkerAssignment,
    pub file_size: u64,
    pub policy: RetryPolicy,
    /// The offset to read next, if any is left.
    pub cursor: Option<u64>,
    /// Failed reads so far at the current offset.
    pub retries: u32,
    /// Bytes read so far by this worker.
    pub bytes_read: u64,
    /// No offset has been given up so far.
    pub clean: bool,
}

/// The offset after `o` in a stripe of width `stride`, while it lies inside the device.
pub open spec fn next_cursor(o: int, stride: int, file_size: int) -> Option<u64> {
    if o + stride < file_size {
        Some((o + stride) as u64)
    } else {
        None
    }
}

/// The worker's first offset, if the device reaches it.
pub open spec fn first_cursor(a: WorkerAssignment, file_size: int) -> Option<u64> {
    if a.spec_start() < file_size {
        Some(a.spec_start() as u64)
    } else {
        None
    }
}

impl Worker {
    pub open spec fn wf(self) -> bool {
        &&& self.assignment.wf()
        &&& self.retries < self.policy.attempts()
        &&& self.bytes_read <= self.file_size
        &&& self.cursor matches Some(o) ==> o < self.file_size && self.bytes_read <= o
    }

    /// The worker that has read nothing yet.
    pub open spec fn initial(a: WorkerAssignment, file_size: u64, policy: RetryPolicy) -> Worker {
        Worker {
            assignment: a,
            file_size,
            policy,
            cursor: first_cursor(a, file_size as int),
            retries: 0,
            bytes_read: 0,
            clean: true,
        }
    }

    /// The cursor once the current offset is done with.
    pub open spec fn advanced(self) -> Option<u64> {
        match self.cursor {
            Some(o) => next_cursor(o as int, self.assignment.spec_stride(), self.file_size as int),
            None => None,
        }
    }

    /// A read of `n` bytes at the current offset stays inside the block and the device.
    pub open spec fn admissible(self, outcome: ReadOutcome) -> bool {
        match outcome {
            ReadOutcome::Read(n) => match self.cursor {
                Some(o) => n <= self.assignment.block_size && o + n <= self.file_size,
                None => true,
            },
            ReadOutcome::Failed => true,
        }
    }

    /// The state after recording `outcome`; a worker with nothing left to read stays as it is.
    pub open spec fn step(self, outcome: ReadOutcome) -> Worker {
        if self.cursor is None {
            self
        } else {
            match outcome {
                ReadOutcome::Read(n) => if n == 0 {
                    Worker { cursor: None, retries: 0, ..self }
                } else {
                    Worker {
                        cursor: self.advanced(),
                        retries: 0,
                        bytes_read: (self.bytes_read + n) as u64,
                        ..self
                    }
                },
                ReadOutcome::Failed => match self.policy.decide(self.retries as int) {
                    RetryDecision::RetryAfterDelay => Worker {
                        retries: (self.retries + 1) as u32,
                        ..self
                    },
                    RetryDecision::Abandon => Worker {
                        cursor: self.advanced(),
                        retries: 0,
                        clean: false,
                        ..self
                    },
                },
            }
        }
    }

    /// What recording `outcome` reports to the driver.
    pub open spec fn step_report(self, outcome: ReadOutcome) -> Step {
        match outcome {
            ReadOutcome::Read(n) => if n == 0 {
                Step::EndOfDevice
            } else {
                Step::Advanced { bytes: n, total: (self.bytes_read + n) as u64 }
            },
            ReadOutcome::Failed => match self.policy.decide(self.retries as int) {
                RetryDecision::RetryAfterDelay => Step::RetryAfterDelay,
                RetryDecision::Abandon => Step::Abandoned { offset: self.cursor->0 },
            },
        }
    }

    pub fn new(assignment: WorkerAssignment, file_size: u64, max_retries: u32) -> (r: Worker)
        requires
            assignment.wf(),
        ensures
            r == Worker::initial(assignment, file_size, RetryPolicy { max_retries }),
            r.wf(),
    {
        let start = assignment.start_offset();
        let cursor = if start < file_size {
            Some(start)
        } else {
            None
        };
        Worker {
            assignment,
            file_size,
            policy: RetryPolicy { max_retries },
            cursor,
            retries: 0,
            bytes_read: 0,
            clean: true,
        }
    }

    /// The offset to read next, or `None` once the worker is done.
    pub fn pending_offset(&self) -> (r: Option<u64>)
        ensures
            r == self.cursor,
    {
        self.cursor
    }

    fn advance(&self) -> (r: Option<u64>)
        requires
            self.wf(),
            self.cursor is Some,
        ensures
            r == self.advanced(),
            r matches Some(x) ==> x >= self.cursor->0 + self.assignment.block_size,
    {
        let o = self.cursor.unwrap();
        let stride = self.assignment.stride();
        match o.checked_add(stride) {
            Some(x) => if x < self.file_size {
                Some(x)
            } else {
                None
            },
            None => None,
        }
    }

    /// The report this worker makes when it stops.
    pub fn result(&self) -> (r: WorkerResult)
        ensures
            r.bytes_read == self.bytes_read,
            r.complete == self.clean,
    {
        WorkerResult { bytes_read: self.bytes_read, complete: self.clean }
    }

    /// Records the outcome of the read at the pending offset.
    pub fn record(&mut self, outcome: ReadOutcome) -> (r: Step)
        requires
            old(self).wf(),
            old(self).cursor is Some,
            old(self).admissible(outcome),
        ensures
            *final(self) == old(self).step(outcome),
            r == old(self).step_report(outcome),
            final(self).wf(),
    {
        match outcome {
            ReadOutcome::Read(n) => {
                if n == 0 {
                    self.cursor = None;
                    self.retries = 0;
                    Step::EndOfDevice
                } else {
                    let next = self.advance();
                    self.bytes_read = self.bytes_read + n;
                    self.cursor = next;
                    self.retries = 0;
                    Step::Advanced { bytes: n, total: self.bytes_read }
                }
            },
            ReadOutcome::Failed => {
                match self.policy.after_failure(self.retries) {
                    RetryDecision::RetryAfterDelay => {
                        self.retries = self.retries + 1;
                        Step::RetryAfterDelay
                    },
                    RetryDecision::Abandon => {
                        let o = self.cursor.unwrap();
                        let next = self.advance();
                        self.cursor = next;
                        self.retries = 0;
                        self.clean = false;
                        Step::Abandoned { offset: o }
                    },
                }
            },
        }
    }
}

/// The worker after recording each of `events` in turn.
pub open spec fn run(w: Worker, events: Seq<ReadOutcome>) -> Worker
    decreases events.len(),
{
    if events.len() == 0 {
        w
    } else {
        run(w, events.drop_last()).step(events.last())
    }
}

/// Recording two runs of events one after the other is recording them together.
pub proof fn lemma_run_append(w: Worker, s1: Seq<ReadOutcome>, s2: Seq<ReadOutcome>)
    ensures
        run(w, s1 + s2) == run(run(w, s1), s2),
    decreases s2.len(),
{
    if s2.len() == 0 {
        assert(s1 + s2 =~= s1);
    } else {
        lemma_run_append(w, s1, s2.drop_last());
        assert((s1 + s2).drop_last() =~= s1 + s2.drop_last());
        assert((s1 + s2).last() == s2.last());
    }
}

/// `k` failed reads in a row.
pub open spec fn failures(k: nat) -> Seq<ReadOutcome> {
    Seq::new(k, |_i: int| ReadOutcome::Failed)
}

/// Failures short of the retry bound keep the worker at its offset and only count the failures.
pub proof fn lemma_failures_stay(w: Worker, j: nat)
    requires
        w.cursor is Some,
        w.retries + j < w.policy.attempts(),
    ensures
        run(w, failures(j)) == (Worker { retries: (w.retries + j) as u32, ..w }),
    decreases j,
{
    if j > 0 {
        assert(failures(j).drop_last() =~= failures((j - 1) as nat));
        lemma_failures_stay(w, (j - 1) as nat);
    } else {
        assert(failures(0) =~= Seq::<ReadOutcome>::empty());
    }
}

/// A read that fails fewer than `max_retries` times and then succeeds stays
/// at its offset without counting anything while it fails, and counts the
/// bytes of the successful read exactly once before the worker moves on.
pub proof fn lemma_transient_failures_counted_once(w: Worker, k: nat, n: u64)
    requires
        w.wf(),
        w.cursor is Some,
        w.retries == 0,
        k < w.policy.max_retries,
        n > 0,
        w.admissible(ReadOutcome::Read(n)),
    ensures
        forall|j: nat|
            j <= k ==> (#[trigger] run(w, failures(j))).cursor == w.cursor && run(
                w,
                failures(j),
            ).bytes_read == w.bytes_read,
        run(w, failures(k).push(ReadOutcome::Read(n))).bytes_read == w.bytes_read + n,
        run(w, failures(k).push(ReadOutcome::Read(n))).cursor == w.advanced(),
        run(w, failures(k).push(ReadOutcome::Read(n))).retries == 0,
{
    assert forall|j: nat| j <= k implies (#[trigger] run(w, failures(j))).cursor == w.cursor && run(
        w,
        failures(j),
    ).bytes_read == w.bytes_read by {
        lemma_failures_stay(w, j);
    }
    lemma_failures_stay(w, k);
    assert(failures(k).push(ReadOutcome::Read(n)).drop_last() =~= failures(k));
}

/// A read that keeps failing is made exactly `max_retries` times at the same
/// offset (once when the bound is `0`): every failure before the last is
/// followed by a retry, the last gives the offset up, and the worker moves on
/// to its next offset with its count unchanged.
pub proof fn lemma_persistent_failure_abandons(w: Worker)
    requires
        w.wf(),
        w.cursor is Some,
        w.retries == 0,
    ensures
        forall|j: nat|
            j + 1 < w.policy.attempts() ==> (#[trigger] run(w, failures(j))).step_report(
                ReadOutcome::Failed,
            ) == Step::RetryAfterDelay && run(w, failures(j)).cursor == w.cursor,
        run(w, failures((w.policy.attempts() - 1) as nat)).step_report(ReadOutcome::Failed)
            == (Step::Abandoned { offset: w.cursor->0 }),
        run(w, failures(w.policy.attempts())).cursor == w.advanced(),
        run(w, failures(w.policy.attempts())).bytes_read == w.bytes_read,
        run(w, failures(w.policy.attempts())).retries == 0,
{
    let m = (w.policy.attempts() - 1) as nat;
    assert forall|j: nat| j + 1 < w.policy.attempts() implies (#[trigger] run(
        w,
        failures(j),
    )).step_report(ReadOutcome::Failed) == Step::RetryAfterDelay && run(w, failures(j)).cursor
        == w.cursor by {
        lemma_failures_stay(w, j);
    }
    lemma_failures_stay(w, m);
    assert(failures(m + 1).drop_last() =~= failures(m));
}

} // verus!
