use vstd::prelude::*;
use crate::worker::WorkerResult;

verus! {

/// How a device job ended once every worker had reported.
#[derive(Debug, Clone, Copy, PartialEq, Eq, Structural)]
pub enum Completion {
    /// Every worker opened its handle and read every offset it owns.
    Completed,
    /// Some worker could not open its handle or gave up an offset: the total
    /// undercounts the device.
    PartiallyCompleted,
}

/// The sum of the bytes that `results` report.
pub open spec fn total_of(results: Seq<WorkerResult>) -> int
    decreases results.len(),
{
    if results.len() == 0 {
        0
    } else {
        total_of(results.drop_last()) + results.last().bytes_read
    }
}

/// Every one of `results` is complete.
pub open spec fn all_complete(results: Seq<WorkerResult>) -> bool {
    forall|j: int| 0 <= j < results.len() ==> #[trigger] results[j].complete
}

/// The completion of a device whose workers reported `results`.
pub open spec fn completion_of(results: Seq<WorkerResult>) -> Completion {
    if all_complete(results) {
        Completion::Completed
    } else {
        Completion::PartiallyCompleted
    }
}

/// The collection of the reports of one device's workers.
#[derive(Debug, Clone, Copy, PartialEq, Eq, Structural)]
pub struct DeviceTally {
    pub worker_count: u64,
    /// Reports received so far.
    pub reported: u64,
    /// Bytes reported so far.
    pub total_bytes: u64,
    /// Every report so far was complete.
    pub all_complete: bool,
}

impl DeviceTally {
    /// The tally after the reports `results`, from an empty one.
    pub open spec fn of(worker_count: u64, results: Seq<WorkerResult>) -> DeviceTally {
        DeviceTally {
            worker_count,
            reported: results.len() as u64,
            total_bytes: total_of(results) as u64,
            all_complete: all_complete(results),
        }
    }

    pub fn new(worker_count: u64) -> (r: DeviceTally)
        ensures
            r == DeviceTally::of(worker_count, Seq::empty()),
            r.reported == 0,
            r.total_bytes == 0,
            r.all_complete,
    {
        DeviceTally { worker_count, reported: 0, total_bytes: 0, all_complete: true }
    }

    /// Adds one worker's report.
    pub fn add(&mut self, result: WorkerResult)
        requires
            old(self).reported < old(self).worker_count,
            old(self).total_bytes + result.bytes_read <= u64::MAX,
        ensures
            final(self).worker_count == old(self).worker_count,
            final(self).reported == old(self).reported + 1,
            final(self).total_bytes == old(self).total_bytes + result.bytes_read,
            final(self).all_complete == (old(self).all_complete && result.complete),
    {
        self.reported = self.reported + 1;
        self.total_bytes = self.total_bytes + result.bytes_read;
        self.all_complete = self.all_complete && result.complete;
    }

    /// Every worker has reported.
    pub fn is_drained(&self) -> (r: bool)
        ensures
            r == (self.reported == self.worker_count),
    {
        self.reported == self.worker_count
    }

    pub fn completion(&self) -> (r: Completion)
        ensures
            r == (if self.all_complete {
                Completion::Completed
            } else {
                Completion::PartiallyCompleted
            }),
    {
        if self.all_complete {
            Completion::Completed
        } else {
            Completion::PartiallyCompleted
        }
    }
}

/// Adding reports one by one to an empty tally sums their bytes and tells
/// whether all of them were complete.
pub proof fn lemma_tally_sums_reports(worker_count: u64, results: Seq<WorkerResult>, r: WorkerResult)
    requires
        results.len() < worker_count,
        total_of(results) + r.bytes_read <= u64::MAX,
    ensures
        DeviceTally::of(worker_count, results.push(r)).reported == results.len() + 1,
        DeviceTally::of(worker_count, results.push(r)).total_bytes == DeviceTally::of(
            worker_count,
            results,
        ).total_bytes + r.bytes_read,
        DeviceTally::of(worker_count, results.push(r)).all_complete == (DeviceTally::of(
            worker_count,
            results,
        ).all_complete && r.complete),
{
    assert(results.push(r).drop_last() =~= results);
    lemma_total_nonneg(results);
    if all_complete(results) && r.complete {
        assert forall|j: int| 0 <= j < results.push(r).len() implies #[trigger] results.push(
            r,
        )[j].complete by {
            if j < results.len() {
                assert(results.push(r)[j] == results[j]);
            }
        }
    }
    if !all_complete(results) {
        let j = choose|j: int| 0 <= j < results.len() && !(#[trigger] results[j].complete);
        assert(results.push(r)[j] == results[j]);
    }
    if !r.complete {
        assert(results.push(r)[results.len() as int] == r);
    }
}

proof fn lemma_total_nonneg(results: Seq<WorkerResult>)
    ensures
        total_of(results) >= 0,
    decreases results.len(),
{
    if results.len() > 0 {
        lemma_total_nonneg(results.drop_last());
    }
}

/// A worker whose handle failed to open adds nothing to the device's total,
/// and the device is reported as partially completed rather than completed.
pub proof fn lemma_open_failure_partial(results: Seq<WorkerResult>, j: int)
    requires
        0 <= j < results.len(),
        results[j] == (WorkerResult { bytes_read: 0, complete: false }),
    ensures
        total_of(results) == total_of(results.remove(j)),
        completion_of(results) == Completion::PartiallyCompleted,
    decreases results.len(),
{
    assert(!results[j].complete);
    if j < results.len() - 1 {
        let rest = results.drop_last();
        lemma_open_failure_partial(rest, j);
        assert(results.remove(j).drop_last() =~= rest.remove(j));
        assert(results.remove(j).last() == results.last());
    } else {
        assert(results.remove(j) =~= results.drop_last());
    }
}

} // verus!
