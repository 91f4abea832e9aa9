use vstd::prelude::*;

verus! {

/// Throughput in hundredths of a decimal megabyte per second, rounded half up.
pub open spec fn centi_mb_per_s(total_bytes: int, elapsed_nanos: int) -> int {
    (total_bytes * 200000 + elapsed_nanos) / (2 * elapsed_nanos)
}

/// A duration in hundredths of a second, rounded half up.
pub open spec fn centis_of(elapsed_nanos: int) -> int {
    (elapsed_nanos + 5000000) / 10000000
}

/// The throughput of reading `total_bytes` in `elapsed_nanos`, in hundredths
/// of a decimal megabyte per second; `None` when no time elapsed.
pub fn throughput_centi_mb_per_s(total_bytes: u64, elapsed_nanos: u64) -> (r: Option<u128>)
    ensures
        elapsed_nanos == 0 <==> r is None,
        r matches Some(t) ==> t == centi_mb_per_s(total_bytes as int, elapsed_nanos as int),
{
    if elapsed_nanos == 0 {
        return None;
    }
    let t = total_bytes as u128;
    let e = elapsed_nanos as u128;
    proof {
        assert(t * 200000 <= 0xffff_ffff_ffff_ffffu128 * 200000) by (nonlinear_arith)
            requires t <= 0xffff_ffff_ffff_ffffu128;
    }
    Some((t * 200000 + e) / (2 * e))
}

/// A duration of `elapsed_nanos` in hundredths of a second.
pub fn elapsed_centis(elapsed_nanos: u64) -> (r: u64)
    ensures
        r == centis_of(elapsed_nanos as int),
{
    (((elapsed_nanos as u128) + 5000000) / 10000000) as u64
}

} // verus!
