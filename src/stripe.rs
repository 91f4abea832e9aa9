use vstd::prelude::*;

verus! {

/// The `k`-th offset (from zero) of worker `i` among `n` workers reading blocks of `b` bytes.
pub open spec fn stripe_offset(i: int, n: int, b: int, k: int) -> int {
    i * b + k * (n * b)
}

/// Worker `i` of `n` visits offset `o` of a device of `size` bytes read in blocks of `b`.
pub open spec fn visits(i: int, n: int, b: int, size: int, o: int) -> bool {
    exists|k: int| 0 <= k && #[trigger] stripe_offset(i, n, b, k) == o && 0 <= o < size
}

/// The worker that owns the block at offset `o`: its block index modulo the worker count.
pub open spec fn owner_of(o: int, n: int, b: int) -> int {
    (o / b) % n
}

/// The share of the device that one worker reads: it starts at its own block
/// and strides over the blocks of all the others.
#[derive(Debug, Clone, Copy, PartialEq, Eq, Structural)]
pub struct WorkerAssignment {
    pub worker_index: u64,
    pub worker_count: u64,
    pub block_size: u64,
}

impl WorkerAssignment {
    pub open spec fn wf(self) -> bool {
        &&& self.worker_count >= 1
        &&& self.block_size > 0
        &&& self.worker_index < self.worker_count
        &&& self.worker_count * self.block_size <= u64::MAX
    }

    pub open spec fn spec_stride(self) -> int {
        self.worker_count * self.block_size
    }

    pub open spec fn spec_start(self) -> int {
        self.worker_index * self.block_size
    }

    /// The `k`-th offset this worker visits.
    pub open spec fn offset_at(self, k: int) -> int {
        stripe_offset(self.worker_index as int, self.worker_count as int, self.block_size as int, k)
    }

    pub fn new(worker_index: u64, worker_count: u64, block_size: u64) -> (r: WorkerAssignment)
        requires
            worker_index < worker_count,
            block_size > 0,
            worker_count * block_size <= u64::MAX,
        ensures
            r.wf(),
            r.worker_index == worker_index,
            r.worker_count == worker_count,
            r.block_size == block_size,
    {
        WorkerAssignment { worker_index, worker_count, block_size }
    }

    /// The distance between two consecutive offsets of this worker.
    pub fn stride(&self) -> (r: u64)
        requires
            self.wf(),
        ensures
            r == self.spec_stride(),
            r >= self.block_size,
    {
        proof {
            assert(self.worker_count * self.block_size >= self.block_size) by (nonlinear_arith)
                requires self.worker_count >= 1;
        }
        self.worker_count * self.block_size
    }

    /// The first offset this worker visits.
    pub fn start_offset(&self) -> (r: u64)
        requires
            self.wf(),
        ensures
            r == self.spec_start(),
            r == self.offset_at(0),
            r + self.block_size <= self.spec_stride(),
    {
        proof {
            assert(self.worker_index * self.block_size + self.block_size <= self.worker_count
                * self.block_size) by (nonlinear_arith)
                requires self.worker_index < self.worker_count, self.block_size > 0;
        }
        self.worker_index * self.block_size
    }
}

/// Striping partitions a device: for any worker count and block size, an
/// offset is visited by worker `i` exactly when it is a block-aligned offset
/// inside the device whose block index is `i` modulo the worker count. Every
/// such offset therefore has exactly one worker, and no other offset has any.
pub proof fn lemma_stripes_partition(i: int, n: int, b: int, size: int, o: int)
    requires
        0 <= i < n,
        b > 0,
    ensures
        visits(i, n, b, size, o) <==> (0 <= o < size && o % b == 0 && owner_of(o, n, b) == i),
        0 <= o && o % b == 0 ==> 0 <= owner_of(o, n, b) < n,
{
    if visits(i, n, b, size, o) {
        let k = choose|k: int| 0 <= k && #[trigger] stripe_offset(i, n, b, k) == o && 0 <= o < size;
        assert(o == (i + k * n) * b) by (nonlinear_arith)
            requires o == i * b + k * (n * b);
        assert(i + k * n >= 0) by (nonlinear_arith)
            requires k >= 0, n > 0, i >= 0;
        vstd::arithmetic::div_mod::lemma_mod_multiples_basic(i + k * n, b);
        vstd::arithmetic::div_mod::lemma_div_multiples_vanish(i + k * n, b);
        assert((i + k * n) * b == b * (i + k * n)) by (nonlinear_arith);
        vstd::arithmetic::div_mod::lemma_mod_multiples_vanish(k, i, n);
        vstd::arithmetic::div_mod::lemma_small_mod(i as nat, n as nat);
        assert(k * n == n * k) by (nonlinear_arith);
    }
    if 0 <= o < size && o % b == 0 && owner_of(o, n, b) == i {
        let q = o / b;
        let k = q / n;
        vstd::arithmetic::div_mod::lemma_fundamental_div_mod(o, b);
        vstd::arithmetic::div_mod::lemma_fundamental_div_mod(q, n);
        vstd::arithmetic::div_mod::lemma_div_pos_is_pos(o, b);
        vstd::arithmetic::div_mod::lemma_div_pos_is_pos(q, n);
        assert(stripe_offset(i, n, b, k) == o) by (nonlinear_arith)
            requires o == b * q, q == n * k + i;
    }
    if 0 <= o && o % b == 0 {
        vstd::arithmetic::div_mod::lemma_div_pos_is_pos(o, b);
        vstd::arithmetic::div_mod::lemma_mod_bound(o / b, n);
    }
}

/// No worker visits an offset twice: distinct steps land on distinct offsets.
pub proof fn lemma_stripe_offsets_distinct(i: int, n: int, b: int, k1: int, k2: int)
    requires
        n >= 1,
        b > 0,
        k1 != k2,
    ensures
        stripe_offset(i, n, b, k1) != stripe_offset(i, n, b, k2),
{
    assert(n * b > 0) by (nonlinear_arith)
        requires n >= 1, b > 0;
    assert(k1 * (n * b) != k2 * (n * b)) by (nonlinear_arith)
        requires n * b > 0, k1 != k2;
}

} // verus!
