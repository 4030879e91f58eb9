use vstd::prelude::*;

verus! {

/// Cache size assumed when the processor reports none.
pub const DEFAULT_CACHE_SIZE: usize = 16 * 1024 * 1024;

/// Relies on `cache_size::l3_cache_size`: the L3 cache size in bytes, when the
/// processor reports one. What it returns depends on the machine.
#[verifier::external_body]
fn l3_cache_size() -> (r: Option<usize>) {
    cache_size::l3_cache_size()
}

/// Relies on `cache_size::l2_cache_size`: the L2 cache size in bytes, when the
/// processor reports one. What it returns depends on the machine.
#[verifier::external_body]
fn l2_cache_size() -> (r: Option<usize>) {
    cache_size::l2_cache_size()
}

/// Relies on `rayon::current_num_threads`: the number of worker threads of the
/// current pool. What it returns depends on the machine.
#[verifier::external_body]
fn current_num_threads() -> (r: usize) {
    rayon::current_num_threads()
}

/// Relies on `wide::u64x2::simd_eq`: each lane of the result is all ones where
/// the two inputs agree and zero where they differ (`new` and `to_array` only
/// move the two values in and out).
#[verifier::external_body]
fn lanes_equal(a: [u64; 2], b: [u64; 2]) -> (r: [u64; 2])
    ensures
        r[0] == (if a[0] == b[0] { u64::MAX } else { 0 }),
        r[1] == (if a[1] == b[1] { u64::MAX } else { 0 }),
{
    wide::u64x2::new(a).simd_eq(wide::u64x2::new(b)).to_array()
}

/// The parallel chunk length for rows of `padded_dim` cells: how many rows fit
/// in the cache, shared among the threads, kept within `[512, 8192]`.
pub open spec fn min_len_spec(cache_bytes: int, threads: int, padded_dim: int) -> int {
    let per_thread = cache_bytes / (16 * padded_dim) / threads;
    if per_thread < 512 {
        512
    } else if per_thread > 8192 {
        8192
    } else {
        per_thread
    }
}

/// The chunk length for given cache size and thread count.
pub fn min_len_for(cache_bytes: usize, threads: usize, padded_dim: usize) -> (r: usize)
    requires
        threads >= 1,
        padded_dim >= 1,
        16 * padded_dim <= usize::MAX,
    ensures
        r == min_len_spec(cache_bytes as int, threads as int, padded_dim as int),
{
    let rows = cache_bytes / (16 * padded_dim);
    let per_thread = rows / threads;
    if per_thread < 512 {
        512
    } else if per_thread > 8192 {
        8192
    } else {
        per_thread
    }
}

/// The chunk length on this machine, from its last-level cache (L3, else L2,
/// else 16 MiB) and the number of worker threads.
pub fn calculate_min_len(padded_dim: usize) -> (r: usize)
    requires
        padded_dim >= 1,
        16 * padded_dim <= usize::MAX,
    ensures
        512 <= r <= 8192,
{
    let cache = match l3_cache_size() {
        Some(c) => c,
        None => match l2_cache_size() {
            Some(c) => c,
            None => DEFAULT_CACHE_SIZE,
        },
    };
    let threads = current_num_threads();
    let threads = if threads == 0 {
        1
    } else {
        threads
    };
    min_len_for(cache, threads, padded_dim)
}

/// Bytes that a store of `lane_count` lanes of `capacity` cells needs.
pub open spec fn required_bytes(lane_count: int, capacity: int) -> int {
    16 * lane_count * capacity
}

/// Checks that a store fits in `limit_bytes`; otherwise an `InsufficientMemory`
/// error with both sizes in MiB (the request capped at `u64::MAX`).
pub fn check_memory_budget(lane_count: u64, capacity: u64, limit_bytes: u64) -> (r: Result<(), crate::error::OrbyError>)
    ensures
        r is Ok <==> required_bytes(lane_count as int, capacity as int) <= limit_bytes,
        r matches Err(e) ==> (e matches crate::error::OrbyError::InsufficientMemory { requested_mb, available_mb }
            && available_mb == limit_bytes / 0x10_0000 && requested_mb == if required_bytes(
            lane_count as int,
            capacity as int,
        ) / 0x10_0000 > u64::MAX {
            u64::MAX as int
        } else {
            required_bytes(lane_count as int, capacity as int) / 0x10_0000
        }),
{
    assert(lane_count as int * capacity as int <= 0xFFFF_FFFF_FFFF_FFFE_0000_0000_0000_0001) by (nonlinear_arith)
        requires
            0 <= lane_count <= 0xFFFF_FFFF_FFFF_FFFF,
            0 <= capacity <= 0xFFFF_FFFF_FFFF_FFFF,
    ;
    let p: u128 = lane_count as u128 * capacity as u128;
    let q = limit_bytes as u128 / 16;
    assert(p > q <==> 16 * p > limit_bytes) by (nonlinear_arith)
        requires
            q == limit_bytes as int / 16,
    ;
    assert(required_bytes(lane_count as int, capacity as int) == 16 * p) by (nonlinear_arith)
        requires
            p == lane_count as int * capacity as int,
    ;
    if p > q {
        let mib = p / 0x1_0000;
        assert(mib == (16 * p) / 0x10_0000) by (nonlinear_arith)
            requires
                mib == p / 0x1_0000,
        ;
        let requested_mb: u64 = if mib > u64::MAX as u128 {
            u64::MAX
        } else {
            mib as u64
        };
        return Err(
            crate::error::OrbyError::InsufficientMemory {
                requested_mb,
                available_mb: limit_bytes / 0x10_0000,
            },
        );
    }
    Ok(())
}

/// Compares two 128-bit values with one target at once, as two 64-bit halves
/// in SIMD lanes.
pub fn match_u128_x2(vals: [u128; 2], target: u128) -> (r: [bool; 2])
    ensures
        r[0] == (vals[0] == target),
        r[1] == (vals[1] == target),
{
    let v0 = vals[0];
    let v1 = vals[1];
    let low = lanes_equal([v0 as u64, v1 as u64], [target as u64, target as u64]);
    let high = lanes_equal(
        [(v0 >> 64u128) as u64, (v1 >> 64u128) as u64],
        [(target >> 64u128) as u64, (target >> 64u128) as u64],
    );
    let m0 = low[0] & high[0];
    let m1 = low[1] & high[1];
    assert(forall|a: u128, t: u128|
        (a as u64 == t as u64 && (a >> 64u128) as u64 == (t >> 64u128) as u64) <==> a == t)
        by (bit_vector);
    assert(forall|x: u64, y: u64|
        ((x == u64::MAX || x == 0) && (y == u64::MAX || y == 0)) ==> ((x & y) != 0 <==> (x
            == u64::MAX && y == u64::MAX))) by (bit_vector);
    [m0 != 0, m1 != 0]
}

} // verus!
