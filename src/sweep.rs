use vstd::prelude::*;
use vstd::arithmetic::div_mod::{
    lemma_fundamental_div_mod,
    lemma_fundamental_div_mod_converse,
    lemma_mod_bound,
    lemma_small_mod,
};
use crate::stripe::{WorkerAssignment, stripe_offset};
use crate::worker::{ReadOutcome, RetryPolicy, Worker, run, failures, lemma_failures_stay, lemma_run_append};

verus! {

/// How many offsets worker `i` of `n` visits on a device of `size` bytes read in blocks of `b`.
pub open spec fn share_len(i: int, n: int, b: int, size: int) -> int {
    if i * b < size {
        (size - i * b - 1) / (n * b) + 1
    } else {
        0
    }
}

/// The `k`-th offset of a worker lies inside the device exactly for the
/// first `share_len` values of `k`.
pub proof fn lemma_share_len_bounds_offsets(i: int, n: int, b: int, size: int, k: int)
    requires
        0 <= i < n,
        b > 0,
        k >= 0,
    ensures
        stripe_offset(i, n, b, k) < size <==> k < share_len(i, n, b, size),
        share_len(i, n, b, size) >= 0,
{
    let d = n * b;
    assert(d > 0) by (nonlinear_arith)
        requires n >= 1, b > 0, d == n * b;
    assert(k * d >= 0) by (nonlinear_arith)
        requires k >= 0, d > 0;
    assert(i * b >= 0) by (nonlinear_arith)
        requires i >= 0, b > 0;
    if i * b < size {
        let x = size - i * b - 1;
        lemma_fundamental_div_mod(x, d);
        lemma_mod_bound(x, d);
        let q = x / d;
        let r = x % d;
        assert(q >= 0) by (nonlinear_arith)
            requires x == d * q + r, 0 <= r < d, x >= 0;
        assert(k <= q <==> k * d <= x) by (nonlinear_arith)
            requires x == d * q + r, 0 <= r < d, d > 0, k >= 0;
    }
}

proof fn lemma_share_len_grows(i: int, n: int, m: int)
    requires
        0 <= i < n,
        m >= 0,
    ensures
        share_len(i, n, 1, m + 1) == share_len(i, n, 1, m) + (if m % n == i { 1int } else { 0int }),
{
    if i > m {
        lemma_small_mod(m as nat, n as nat);
    } else if i == m {
        lemma_small_mod(m as nat, n as nat);
        assert(0int / n == 0);
    } else {
        let x = m - 1 - i;
        lemma_fundamental_div_mod(x, n);
        lemma_mod_bound(x, n);
        let q = x / n;
        let r = x % n;
        if r + 1 < n {
            assert(x + 1 == q * n + (r + 1)) by (nonlinear_arith)
                requires x == n * q + r;
            lemma_fundamental_div_mod_converse(x + 1, n, q, r + 1);
            lemma_fundamental_div_mod(m, n);
            lemma_mod_bound(m, n);
            if m % n == i {
                assert(false) by (nonlinear_arith)
                    requires m == n * (m / n) + i, m == x + 1 + i, x == n * q + r, 0 <= r, r + 1 < n;
            }
        } else {
            assert(x + 1 == (q + 1) * n + 0) by (nonlinear_arith)
                requires x == n * q + r, r + 1 == n;
            lemma_fundamental_div_mod_converse(x + 1, n, q + 1, 0);
            assert(m == (q + 1) * n + i);
            lemma_fundamental_div_mod_converse(m, n, q + 1, i);
        }
    }
}

/// What the read at a worker's `k`-th offset returns when it succeeds: a
/// whole block, or what is left of the device when less than a block is.
pub open spec fn whole_read(a: WorkerAssignment, size: u64, k: int) -> u64 {
    let o = a.offset_at(k);
    if o + a.block_size <= size {
        a.block_size
    } else {
        (size - o) as u64
    }
}

/// The first `k` successful reads of a worker.
pub open spec fn whole_reads(a: WorkerAssignment, size: u64, k: nat) -> Seq<ReadOutcome> {
    Seq::new(k, |j: int| ReadOutcome::Read(whole_read(a, size, j)))
}

/// The bytes of the first `k` successful reads of a worker.
pub open spec fn stripe_bytes(a: WorkerAssignment, size: u64, k: int) -> int
    decreases k,
{
    if k <= 0 {
        0
    } else {
        stripe_bytes(a, size, k - 1) + whole_read(a, size, k - 1)
    }
}

/// A worker whose reads all succeed walks its stripe: after `k` reads its
/// cursor is its `k`-th offset while that lies inside the device and `None`
/// after, and it has counted the bytes of those reads, each admissible, once.
pub proof fn lemma_worker_walks_stripe(a: WorkerAssignment, size: u64, max_retries: u32, k: nat)
    requires
        a.wf(),
        k <= share_len(a.worker_index as int, a.worker_count as int, a.block_size as int, size as int),
    ensures
        ({
            let w0 = Worker::initial(a, size, RetryPolicy { max_retries });
            let len = share_len(a.worker_index as int, a.worker_count as int, a.block_size as int, size as int);
            let cursor = if k < len { Some(a.offset_at(k as int) as u64) } else { None };
            run(w0, whole_reads(a, size, k)) == (Worker { cursor, bytes_read: stripe_bytes(a, size, k as int) as u64, ..w0 })
        }),
        0 <= stripe_bytes(a, size, k as int) <= k * a.block_size,
        stripe_bytes(a, size, k as int) <= size,
        forall|j: int| 0 <= j < k ==> #[trigger] run(Worker::initial(a, size, RetryPolicy { max_retries }), whole_reads(a, size, j as nat)).admissible(ReadOutcome::Read(whole_read(a, size, j))),
        forall|j: int| 0 <= j < k ==> #[trigger] whole_read(a, size, j) > 0,
    decreases k,
{
    let i = a.worker_index as int;
    let n = a.worker_count as int;
    let b = a.block_size as int;
    let w0 = Worker::initial(a, size, RetryPolicy { max_retries });
    lemma_share_len_bounds_offsets(i, n, b, size as int, k as int);
    if k == 0 {
        assert(whole_reads(a, size, 0) =~= Seq::<ReadOutcome>::empty());
        assert(0 * (n * b) == 0 && 0 * b == 0) by (nonlinear_arith);
        assert(a.offset_at(0) == a.spec_start());
    } else {
        let j = (k - 1) as nat;
        lemma_worker_walks_stripe(a, size, max_retries, j);
        assert(whole_reads(a, size, k).drop_last() =~= whole_reads(a, size, j));
        lemma_share_len_bounds_offsets(i, n, b, size as int, j as int);
        let o = a.offset_at(j as int);
        assert(o + a.spec_stride() == a.offset_at(k as int)) by (nonlinear_arith)
            requires o == i * b + j * (n * b), a.spec_stride() == n * b, k == j + 1, a.offset_at(k as int) == i * b + k * (n * b);
        assert(j * b <= o) by (nonlinear_arith)
            requires o == i * b + j * (n * b), n >= 1, i >= 0, b > 0;
        assert(k * b == j * b + b) by (nonlinear_arith)
            requires k == j + 1;
        assert(whole_reads(a, size, k).last() == ReadOutcome::Read(whole_read(a, size, j as int)));
        assert forall|x: int| 0 <= x < k implies #[trigger] run(w0, whole_reads(a, size, x as nat)).admissible(ReadOutcome::Read(whole_read(a, size, x))) by {
            if x < j {
            } else {
                assert(x == j);
            }
        }
        assert forall|x: int| 0 <= x < k implies #[trigger] whole_read(a, size, x) > 0 by {
            if x == j {
            }
        }
    }
}

/// The bytes of block `j` of a device of `size` bytes read in blocks of `b`.
pub open spec fn block_bytes(j: int, b: int, size: int) -> int {
    if (j + 1) * b <= size {
        b
    } else if j * b < size {
        size - j * b
    } else {
        0
    }
}

/// The bytes of blocks `0 .. m`.
pub open spec fn blocks_total(b: int, size: int, m: int) -> int
    decreases m,
{
    if m <= 0 {
        0
    } else {
        blocks_total(b, size, m - 1) + block_bytes(m - 1, b, size)
    }
}

/// The bytes of the first `c` blocks that worker `i` of `n` owns.
pub open spec fn owned_total(i: int, n: int, b: int, size: int, c: int) -> int
    decreases c,
{
    if c <= 0 {
        0
    } else {
        owned_total(i, n, b, size, c - 1) + block_bytes(i + (c - 1) * n, b, size)
    }
}

/// The bytes that workers `0 .. u` own among blocks `0 .. m`.
pub open spec fn owned_sum(n: int, b: int, size: int, m: int, u: int) -> int
    decreases u,
{
    if u <= 0 {
        0
    } else {
        owned_sum(n, b, size, m, u - 1) + owned_total(u - 1, n, b, size, share_len(u - 1, n, 1, m))
    }
}

proof fn lemma_blocks_total(b: int, size: int, m: int)
    requires
        b > 0,
        size >= 0,
        m >= 0,
    ensures
        blocks_total(b, size, m) == if m * b <= size { m * b } else { size },
    decreases m,
{
    if m > 0 {
        lemma_blocks_total(b, size, m - 1);
        assert(m * b == (m - 1) * b + b) by (nonlinear_arith);
    } else {
        assert(0 * b == 0) by (nonlinear_arith);
    }
}

proof fn lemma_share_len_last(i: int, n: int, m: int)
    requires
        0 <= i < n,
        m >= 0,
        m % n == i,
    ensures
        i + share_len(i, n, 1, m) * n == m,
{
    lemma_fundamental_div_mod(m, n);
    let q = m / n;
    assert(q >= 0) by (nonlinear_arith)
        requires m == n * q + i, 0 <= i < n, m >= 0;
    if q == 0 {
        assert(n * 0 == 0) by (nonlinear_arith);
    } else {
        assert(m - 1 - i == (q - 1) * n + (n - 1)) by (nonlinear_arith)
            requires m == n * q + i;
        lemma_fundamental_div_mod_converse(m - 1 - i, n, q - 1, n - 1);
        assert(i < m) by (nonlinear_arith)
            requires m == n * q + i, q >= 1, n >= 1;
        assert(i + q * n == m) by (nonlinear_arith)
            requires m == n * q + i;
    }
}

proof fn lemma_owned_sum_grows(n: int, b: int, size: int, m: int, u: int)
    requires
        0 <= u <= n,
        n >= 1,
        m >= 0,
    ensures
        owned_sum(n, b, size, m + 1, u) == owned_sum(n, b, size, m, u) + (if m % n < u { block_bytes(m, b, size) } else { 0 }),
    decreases u,
{
    lemma_mod_bound(m, n);
    if u > 0 {
        let i = u - 1;
        lemma_owned_sum_grows(n, b, size, m, i);
        lemma_share_len_grows(i, n, m);
        if m % n == i {
            lemma_share_len_last(i, n, m);
        }
    }
}

proof fn lemma_owned_sum_empty(n: int, b: int, size: int, u: int)
    requires
        0 <= u <= n,
    ensures
        owned_sum(n, b, size, 0, u) == 0,
    decreases u,
{
    if u > 0 {
        lemma_owned_sum_empty(n, b, size, u - 1);
    }
}

proof fn lemma_owned_sum_covers(n: int, b: int, size: int, m: int)
    requires
        n >= 1,
        m >= 0,
    ensures
        owned_sum(n, b, size, m, n) == blocks_total(b, size, m),
    decreases m,
{
    if m == 0 {
        lemma_owned_sum_empty(n, b, size, n);
    } else {
        lemma_owned_sum_covers(n, b, size, m - 1);
        lemma_owned_sum_grows(n, b, size, m - 1, n);
        lemma_mod_bound(m - 1, n);
    }
}

/// The number of blocks of a device, the last one possibly partial.
pub open spec fn block_count(b: int, size: int) -> int {
    share_len(0, 1, b, size)
}

proof fn lemma_block_count(b: int, size: int, x: int)
    requires
        b > 0,
        x >= 0,
    ensures
        x * b < size <==> x < block_count(b, size),
        block_count(b, size) >= 0,
{
    lemma_share_len_bounds_offsets(0, 1, b, size, x);
    assert(stripe_offset(0, 1, b, x) == x * b) by (nonlinear_arith);
}

proof fn lemma_share_len_by_blocks(i: int, n: int, b: int, size: int)
    requires
        0 <= i < n,
        b > 0,
    ensures
        share_len(i, n, b, size) == share_len(i, n, 1, block_count(b, size)),
{
    let m = block_count(b, size);
    let c1 = share_len(i, n, b, size);
    let c2 = share_len(i, n, 1, m);
    lemma_block_count(b, size, 0);
    lemma_share_len_bounds_offsets(i, n, b, size, 0);
    lemma_share_len_bounds_offsets(i, n, 1, m, 0);
    if c1 != c2 {
        let k = if c1 < c2 { c1 } else { c2 };
        lemma_share_len_bounds_offsets(i, n, b, size, k);
        lemma_share_len_bounds_offsets(i, n, 1, m, k);
        let j = stripe_offset(i, n, 1, k);
        assert(j >= 0 && stripe_offset(i, n, b, k) == j * b) by (nonlinear_arith)
            requires j == i * 1 + k * (n * 1), i >= 0, k >= 0, n >= 1, b > 0;
        lemma_block_count(b, size, j);
    }
}

proof fn lemma_stripe_bytes_owned(a: WorkerAssignment, size: u64, c: int)
    requires
        a.wf(),
        0 <= c <= share_len(a.worker_index as int, a.worker_count as int, a.block_size as int, size as int),
    ensures
        stripe_bytes(a, size, c) == owned_total(a.worker_index as int, a.worker_count as int, a.block_size as int, size as int, c),
    decreases c,
{
    if c > 0 {
        let i = a.worker_index as int;
        let n = a.worker_count as int;
        let b = a.block_size as int;
        lemma_stripe_bytes_owned(a, size, c - 1);
        lemma_share_len_bounds_offsets(i, n, b, size as int, c - 1);
        let j = i + (c - 1) * n;
        assert(a.offset_at(c - 1) == j * b && (j + 1) * b == j * b + b) by (nonlinear_arith)
            requires a.offset_at(c - 1) == i * b + (c - 1) * (n * b), j == i + (c - 1) * n;
    }
}

/// Worker `i` of `n` after every read of its stripe succeeded.
pub open spec fn walked(i: int, n: u64, b: u64, size: u64, max_retries: u32) -> Worker {
    let a = WorkerAssignment { worker_index: i as u64, worker_count: n, block_size: b };
    let k = share_len(i, n as int, b as int, size as int);
    run(Worker::initial(a, size, RetryPolicy { max_retries }), whole_reads(a, size, k as nat))
}

/// The bytes that workers `0 .. u` report after such a run.
pub open spec fn walked_total(n: u64, b: u64, size: u64, max_retries: u32, u: int) -> int
    decreases u,
{
    if u <= 0 {
        0
    } else {
        walked_total(n, b, size, max_retries, u - 1) + walked(u - 1, n, b, size, max_retries).bytes_read
    }
}

proof fn lemma_walked_by_blocks(n: u64, b: u64, size: u64, max_retries: u32, u: int)
    requires
        n >= 1,
        b > 0,
        n * b <= u64::MAX,
        0 <= u <= n,
    ensures
        walked_total(n, b, size, max_retries, u) == owned_sum(n as int, b as int, size as int, block_count(b as int, size as int), u),
        forall|i: int| 0 <= i < u ==> (#[trigger] walked(i, n, b, size, max_retries)).bytes_read == stripe_bytes(WorkerAssignment { worker_index: i as u64, worker_count: n, block_size: b }, size, share_len(i, n as int, b as int, size as int)),
        forall|i: int| 0 <= i < u ==> (#[trigger] walked(i, n, b, size, max_retries)).cursor is None,
    decreases u,
{
    if u > 0 {
        let i = u - 1;
        lemma_walked_by_blocks(n, b, size, max_retries, i);
        let a = WorkerAssignment { worker_index: i as u64, worker_count: n, block_size: b };
        lemma_share_len_bounds_offsets(i, n as int, b as int, size as int, 0);
        let len = share_len(i, n as int, b as int, size as int);
        lemma_worker_walks_stripe(a, size, max_retries, len as nat);
        lemma_stripe_bytes_owned(a, size, len);
        lemma_share_len_by_blocks(i, n as int, b as int, size as int);
    }
}

/// When every worker opens its handle and every read succeeds, each worker
/// reads its whole stripe and stops, and the bytes the workers report add up
/// to the size of the device, whatever that size and the block size.
pub proof fn lemma_successful_run_reads_device(n: u64, b: u64, size: u64, max_retries: u32)
    requires
        n >= 1,
        b > 0,
        n * b <= u64::MAX,
    ensures
        forall|i: int| 0 <= i < n ==> (#[trigger] walked(i, n, b, size, max_retries)).cursor is None,
        walked_total(n, b, size, max_retries, n as int) == size,
{
    let m = block_count(b as int, size as int);
    lemma_walked_by_blocks(n, b, size, max_retries, n as int);
    lemma_block_count(b as int, size as int, 0);
    lemma_owned_sum_covers(n as int, b as int, size as int, m);
    lemma_blocks_total(b as int, size as int, m);
    lemma_block_count(b as int, size as int, m);
}

/// The bytes that workers `0 .. u` report when worker `failed` could not open
/// its handle and every other worker read its whole stripe.
pub open spec fn open_failure_total(n: u64, b: u64, size: u64, max_retries: u32, failed: int, u: int) -> int
    decreases u,
{
    if u <= 0 {
        0
    } else {
        open_failure_total(n, b, size, max_retries, failed, u - 1) + if u - 1 == failed {
            0
        } else {
            walked(u - 1, n, b, size, max_retries).bytes_read as int
        }
    }
}

proof fn lemma_open_failure_total_split(n: u64, b: u64, size: u64, max_retries: u32, failed: int, u: int)
    requires
        0 <= u,
    ensures
        open_failure_total(n, b, size, max_retries, failed, u) == walked_total(n, b, size, max_retries, u)
            - if 0 <= failed < u { walked(failed, n, b, size, max_retries).bytes_read as int } else { 0 },
    decreases u,
{
    if u > 0 {
        lemma_open_failure_total_split(n, b, size, max_retries, failed, u - 1);
    }
}

/// When one worker cannot open its handle while every other worker reads its
/// whole stripe, and the failed worker owns at least one block of the device,
/// the device's total falls short of its size by exactly the bytes of that
/// worker's stripe, which is more than nothing.
pub proof fn lemma_open_failure_undercounts(n: u64, b: u64, size: u64, max_retries: u32, failed: int)
    requires
        n >= 1,
        b > 0,
        n * b <= u64::MAX,
        0 <= failed < n,
        failed * b < size,
    ensures
        open_failure_total(n, b, size, max_retries, failed, n as int) == size - stripe_bytes(
            WorkerAssignment { worker_index: failed as u64, worker_count: n, block_size: b },
            size,
            share_len(failed, n as int, b as int, size as int),
        ),
        open_failure_total(n, b, size, max_retries, failed, n as int) < size,
{
    lemma_successful_run_reads_device(n, b, size, max_retries);
    lemma_walked_by_blocks(n, b, size, max_retries, n as int);
    lemma_open_failure_total_split(n, b, size, max_retries, failed, n as int);
    let a = WorkerAssignment { worker_index: failed as u64, worker_count: n, block_size: b };
    lemma_share_len_bounds_offsets(failed, n as int, b as int, size as int, 0);
    let len = share_len(failed, n as int, b as int, size as int);
    assert(0 * (n * b) == 0) by (nonlinear_arith);
    lemma_worker_walks_stripe(a, size, max_retries, len as nat);
    lemma_worker_walks_stripe(a, size, max_retries, (len - 1) as nat);
    assert(whole_read(a, size, len - 1) > 0);
}

/// A worker's cursor once it is done with its first `k` offsets.
pub open spec fn cursor_at(a: WorkerAssignment, size: u64, k: int) -> Option<u64> {
    if k < share_len(a.worker_index as int, a.worker_count as int, a.block_size as int, size as int) {
        Some(a.offset_at(k) as u64)
    } else {
        None
    }
}

/// The successful reads at a worker's offsets `k .. k + t`.
pub open spec fn reads_from(a: WorkerAssignment, size: u64, k: nat, t: nat) -> Seq<ReadOutcome> {
    Seq::new(t, |j: int| ReadOutcome::Read(whole_read(a, size, k + j)))
}

proof fn lemma_walk_from(w: Worker, k: nat, t: nat)
    requires
        w.assignment.wf(),
        w.retries == 0,
        w.cursor == cursor_at(w.assignment, w.file_size, k as int),
        k + t <= share_len(w.assignment.worker_index as int, w.assignment.worker_count as int, w.assignment.block_size as int, w.file_size as int),
        w.bytes_read <= stripe_bytes(w.assignment, w.file_size, k as int),
    ensures
        run(w, reads_from(w.assignment, w.file_size, k, t)) == (Worker {
            cursor: cursor_at(w.assignment, w.file_size, (k + t) as int),
            bytes_read: (w.bytes_read + stripe_bytes(w.assignment, w.file_size, (k + t) as int) - stripe_bytes(w.assignment, w.file_size, k as int)) as u64,
            ..w
        }),
    decreases t,
{
    let a = w.assignment;
    let size = w.file_size;
    lemma_worker_walks_stripe(a, size, 0, k + t);
    if t == 0 {
        assert(reads_from(a, size, k, 0) =~= Seq::<ReadOutcome>::empty());
    } else {
        let j = (t - 1) as nat;
        lemma_walk_from(w, k, j);
        assert(reads_from(a, size, k, t).drop_last() =~= reads_from(a, size, k, j));
        assert(reads_from(a, size, k, t).last() == ReadOutcome::Read(whole_read(a, size, (k + j) as int)));
        let i = a.worker_index as int;
        let n = a.worker_count as int;
        let b = a.block_size as int;
        lemma_share_len_bounds_offsets(i, n, b, size as int, (k + j) as int);
        lemma_share_len_bounds_offsets(i, n, b, size as int, (k + t) as int);
        let o = a.offset_at((k + j) as int);
        assert(o + a.spec_stride() == a.offset_at((k + t) as int)) by (nonlinear_arith)
            requires o == i * b + (k + j) * (n * b), a.spec_stride() == n * b, t == j + 1, a.offset_at((k + t) as int) == i * b + (k + t) * (n * b);
        lemma_worker_walks_stripe(a, size, 0, k + j);
        lemma_stripe_bytes_mono(a, size, k as int, (k + j) as int);
    }
}

proof fn lemma_stripe_bytes_mono(a: WorkerAssignment, size: u64, k1: int, k2: int)
    requires
        k1 <= k2,
    ensures
        stripe_bytes(a, size, k1) <= stripe_bytes(a, size, k2),
    decreases k2 - k1,
{
    if k1 < k2 {
        lemma_stripe_bytes_mono(a, size, k1, k2 - 1);
    }
}

/// Worker `i` of `n` after every read of its stripe succeeded but those at
/// its `k`-th offset, which all failed.
pub open spec fn walked_abandoning(i: int, n: u64, b: u64, size: u64, max_retries: u32, k: nat) -> Worker {
    let a = WorkerAssignment { worker_index: i as u64, worker_count: n, block_size: b };
    let len = share_len(i, n as int, b as int, size as int);
    let p = RetryPolicy { max_retries };
    run(
        Worker::initial(a, size, p),
        whole_reads(a, size, k) + failures(p.attempts()) + reads_from(a, size, k + 1, (len - k - 1) as nat),
    )
}

/// A worker whose reads all succeed but at one offset, where they keep
/// failing, gives that offset up, still reads every later offset of its
/// stripe, stops, and reports the bytes of its stripe less those of that
/// offset, counting nothing twice.
pub proof fn lemma_abandoned_offset_left_out(i: int, n: u64, b: u64, size: u64, max_retries: u32, k: nat)
    requires
        n >= 1,
        b > 0,
        n * b <= u64::MAX,
        0 <= i < n,
        k < share_len(i, n as int, b as int, size as int),
    ensures
        walked_abandoning(i, n, b, size, max_retries, k).cursor is None,
        !walked_abandoning(i, n, b, size, max_retries, k).clean,
        walked_abandoning(i, n, b, size, max_retries, k).bytes_read == walked(i, n, b, size, max_retries).bytes_read
            - whole_read(WorkerAssignment { worker_index: i as u64, worker_count: n, block_size: b }, size, k as int),
{
    let a = WorkerAssignment { worker_index: i as u64, worker_count: n, block_size: b };
    let len = share_len(i, n as int, b as int, size as int);
    let p = RetryPolicy { max_retries };
    let w0 = Worker::initial(a, size, p);
    let s1 = whole_reads(a, size, k);
    let s2 = failures(p.attempts());
    let s3 = reads_from(a, size, k + 1, (len - k - 1) as nat);
    lemma_run_append(w0, s1 + s2, s3);
    lemma_run_append(w0, s1, s2);
    lemma_worker_walks_stripe(a, size, max_retries, k);
    lemma_worker_walks_stripe(a, size, max_retries, len as nat);
    lemma_worker_walks_stripe(a, size, max_retries, k + 1);
    let wk = run(w0, s1);
    let m = (p.attempts() - 1) as nat;
    lemma_failures_stay(wk, m);
    assert(s2.drop_last() =~= failures(m));
    let wa = run(wk, s2);
    lemma_share_len_bounds_offsets(i, n as int, b as int, size as int, k as int);
    lemma_share_len_bounds_offsets(i, n as int, b as int, size as int, (k + 1) as int);
    let o = a.offset_at(k as int);
    assert(o + a.spec_stride() == a.offset_at((k + 1) as int)) by (nonlinear_arith)
        requires o == i * b + k * (n * b), a.spec_stride() == n * b, a.offset_at((k + 1) as int) == i * b + (k + 1) * (n * b);
    assert(wa == (Worker { cursor: cursor_at(a, size, (k + 1) as int), clean: false, ..wk }));
    lemma_stripe_bytes_mono(a, size, k as int, (k + 1) as int);
    lemma_walk_from(wa, k + 1, (len - k - 1) as nat);
    assert(stripe_bytes(a, size, (k + 1) as int) == stripe_bytes(a, size, k as int) + whole_read(a, size, k as int));
    assert(k + 1 + (len - k - 1) == len);
    assert(walked(i, n, b, size, max_retries) == run(w0, whole_reads(a, size, len as nat)));
    assert(wk.bytes_read == stripe_bytes(a, size, k as int));
    assert(wa.bytes_read == wk.bytes_read);
    let wf = run(wa, s3);
    assert(wf.bytes_read == (wa.bytes_read + stripe_bytes(a, size, len) - stripe_bytes(a, size, (k + 1) as int)) as u64);
    assert(walked_abandoning(i, n, b, size, max_retries, k) == wf);
    assert(stripe_bytes(a, size, len) <= size);
    assert(walked(i, n, b, size, max_retries).bytes_read == stripe_bytes(a, size, len));
    lemma_stripe_bytes_mono(a, size, (k + 1) as int, len);
}

/// The bytes that workers `0 .. u` report when worker `w` gave up its `k`-th
/// offset and every other read succeeded.
pub open spec fn abandoning_total(n: u64, b: u64, size: u64, max_retries: u32, w: int, k: nat, u: int) -> int
    decreases u,
{
    if u <= 0 {
        0
    } else {
        abandoning_total(n, b, size, max_retries, w, k, u - 1) + if u - 1 == w {
            walked_abandoning(u - 1, n, b, size, max_retries, k).bytes_read as int
        } else {
            walked(u - 1, n, b, size, max_retries).bytes_read as int
        }
    }
}

proof fn lemma_abandoning_total_split(n: u64, b: u64, size: u64, max_retries: u32, w: int, k: nat, u: int)
    requires
        0 <= u,
    ensures
        abandoning_total(n, b, size, max_retries, w, k, u) == walked_total(n, b, size, max_retries, u) + if 0 <= w < u {
            walked_abandoning(w, n, b, size, max_retries, k).bytes_read - walked(w, n, b, size, max_retries).bytes_read
        } else {
            0
        },
    decreases u,
{
    if u > 0 {
        lemma_abandoning_total_split(n, b, size, max_retries, w, k, u - 1);
    }
}

/// When one offset of the device keeps failing and every other read
/// succeeds, every worker still stops, and the device's total is its size
/// less the bytes of that offset alone: nothing else is lost or counted twice.
pub proof fn lemma_abandoned_offset_device_total(n: u64, b: u64, size: u64, max_retries: u32, w: int, k: nat)
    requires
        n >= 1,
        b > 0,
        n * b <= u64::MAX,
        0 <= w < n,
        k < share_len(w, n as int, b as int, size as int),
    ensures
        walked_abandoning(w, n, b, size, max_retries, k).cursor is None,
        forall|i: int| 0 <= i < n && i != w ==> (#[trigger] walked(i, n, b, size, max_retries)).cursor is None,
        abandoning_total(n, b, size, max_retries, w, k, n as int) == size - whole_read(
            WorkerAssignment { worker_index: w as u64, worker_count: n, block_size: b },
            size,
            k as int,
        ),
{
    lemma_successful_run_reads_device(n, b, size, max_retries);
    lemma_abandoned_offset_left_out(w, n, b, size, max_retries, k);
    lemma_abandoning_total_split(n, b, size, max_retries, w, k, n as int);
}

} // verus!
