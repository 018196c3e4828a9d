//! Which files or parts each worker thread takes.

use vstd::prelude::*;

verus! {

/// `n / t` rounded up.
pub open spec fn ceil_div(n: nat, t: nat) -> nat {
    if n % t == 0 {
        n / t
    } else {
        n / t + 1
    }
}

/// The files, as a half-open range of indices, that decoding thread `i` of `t` takes out of
/// `n`: a run of `ceil(n / t)` files starting at `i * ceil(n / t)`, cut off before the last
/// file.
pub open spec fn decode_range(n: nat, t: nat, i: nat) -> (nat, nat) {
    let interval = ceil_div(n, t);
    let start = interval * i;
    let last = if start + interval >= n - 1 {
        (n - 1) as nat
    } else {
        start + interval
    };
    (start, if last > start { last } else { start })
}

proof fn lemma_ceil_div(n: nat, t: nat)
    requires
        t > 0,
    ensures
        ceil_div(n, t) * t >= n,
        ceil_div(n, t) * t <= n + t - 1,
        n > 0 ==> ceil_div(n, t) > 0,
{
    assert(n == t * (n / t) + n % t) by (nonlinear_arith)
        requires
            t > 0,
    ;
    assert(0 <= n % t < t) by (nonlinear_arith)
        requires
            t > 0,
    ;
    assert(ceil_div(n, t) * t == t * ceil_div(n, t)) by (nonlinear_arith);
    if n % t == 0 {
    } else {
        assert(t * (n / t + 1) == t * (n / t) + t) by (nonlinear_arith);
    }
}

/// The files that decoding thread `thread` of `thread_count` reads out of `num_files`, as a
/// half-open range of indices.
pub fn decode_job_range(num_files: usize, thread_count: usize, thread: usize) -> (r: (usize, usize))
    requires
        num_files >= 1,
        thread < thread_count,
        num_files + thread_count <= usize::MAX,
    ensures
        (r.0 as nat, r.1 as nat) == decode_range(num_files as nat, thread_count as nat, thread as nat),
{
    proof {
        lemma_ceil_div(num_files as nat, thread_count as nat);
    }
    let interval: usize = if num_files % thread_count == 0 {
        num_files / thread_count
    } else {
        num_files / thread_count + 1
    };
    assert(interval * thread + interval <= interval * thread_count) by (nonlinear_arith)
        requires
            thread < thread_count,
    ;
    let start = interval * thread;
    let mut last_index = start + interval;
    if last_index >= num_files - 1 {
        last_index = num_files - 1;
    }
    let end = if last_index > start {
        last_index
    } else {
        start
    };
    (start, end)
}

/// Decoding threads share the files out without overlap: every file but the last goes to
/// exactly one of the `t` threads, the one whose run contains it, and the last file goes to
/// none.
pub proof fn lemma_decode_ranges_partition(n: nat, t: nat, k: nat)
    requires
        n >= 1,
        t >= 1,
    ensures
        k < n - 1 ==> ({
            let i = k / ceil_div(n, t);
            &&& i < t
            &&& decode_range(n, t, i).0 <= k < decode_range(n, t, i).1
        }),
        forall|i: nat|
            #![trigger decode_range(n, t, i)]
            i < t && decode_range(n, t, i).0 <= k < decode_range(n, t, i).1 ==> k < n - 1 && i == k
                / ceil_div(n, t),
{
    lemma_ceil_div(n, t);
    let iv = ceil_div(n, t);
    assert(iv > 0);
    assert(iv * (k / iv) <= k < iv * (k / iv) + iv) by (nonlinear_arith)
        requires
            iv > 0,
    ;
    if k < n - 1 {
        let i = k / iv;
        assert(i < t) by (nonlinear_arith)
            requires
                iv * i <= k,
                k < n,
                iv * t >= n,
                iv > 0,
        ;
    }
    assert forall|i: nat|
        #![trigger decode_range(n, t, i)]
        i < t && decode_range(n, t, i).0 <= k < decode_range(n, t, i).1 implies k < n - 1 && i == k
        / iv by {
        assert(iv * i <= k < iv * i + iv);
        assert(i == k / iv) by (nonlinear_arith)
            requires
                iv * i <= k < iv * i + iv,
                iv > 0,
        ;
    }
}

/// The parts, as a half-open range of indices, that encoding thread `i` of `t` writes out of
/// `n`: from `t * i + 1` (from 0 for the first thread) through `8 * (t * i + t + 1)`, cut off
/// at the last part.
pub open spec fn encode_range(n: nat, t: nat, i: nat) -> (nat, nat) {
    let last = if (t * i + t + 1) * 8 > n - 1 {
        (n - 1) as nat
    } else {
        (t * i + t + 1) * 8
    };
    let start = if i == 0 {
        0
    } else {
        t * i + 1
    };
    (start, last + 1)
}

/// The parts that encoding thread `thread` of `thread_count` writes out of `num_jobs`, as a
/// half-open range of indices (empty when its start is past its end).
pub fn encode_job_range(num_jobs: usize, thread_count: usize, thread: usize) -> (r: (usize, usize))
    requires
        num_jobs >= 1,
        thread < thread_count,
        (thread_count * thread + thread_count + 1) * 8 <= usize::MAX,
    ensures
        (r.0 as nat, r.1 as nat) == encode_range(num_jobs as nat, thread_count as nat, thread as nat),
{
    assert(thread_count * thread <= (thread_count * thread + thread_count + 1) * 8);
    let mut last_index = (thread_count * thread) + thread_count + 1;
    last_index = last_index * 8;
    if last_index > num_jobs - 1 {
        last_index = num_jobs - 1;
    }
    let mut start: usize = 0;
    if thread != 0 {
        start = thread_count * thread;
        start += 1;
    }
    (start, last_index + 1)
}

proof fn lemma_encode_cover_upto(n: nat, t: nat, i: nat, k: nat)
    requires
        n >= 1,
        i < t,
        k < encode_range(n, t, i).1,
    ensures
        exists|j: nat| j <= i && encode_range(n, t, j).0 <= k < #[trigger] encode_range(n, t, j).1,
    decreases i,
{
    if i == 0 {
        assert(encode_range(n, t, 0).0 <= k < encode_range(n, t, 0).1);
    } else {
        let p = (i - 1) as nat;
        assert(t * i == t * p + t) by (nonlinear_arith)
            requires
                i == p + 1,
        ;
        if k < encode_range(n, t, p).1 {
            lemma_encode_cover_upto(n, t, p, k);
            let j = choose|j: nat| j <= p && encode_range(n, t, j).0 <= k < #[trigger] encode_range(n, t, j).1;
            assert(j <= i && encode_range(n, t, j).0 <= k < encode_range(n, t, j).1);
        } else {
            assert(encode_range(n, t, i).0 <= k < encode_range(n, t, i).1);
        }
    }
}

proof fn lemma_encode_ends_grow(n: nat, t: nat, i: nat, j: nat)
    requires
        i <= j,
    ensures
        encode_range(n, t, i).1 <= encode_range(n, t, j).1,
{
    assert(t * i <= t * j) by (nonlinear_arith)
        requires
            i <= j,
    ;
}

/// The encoding threads together write exactly the parts up to the end of the last
/// thread's range, which is part `min(8 * (t * t + 1), n - 1)`; each written part lies in
/// the range of some thread.
pub proof fn lemma_encode_ranges_cover(n: nat, t: nat, k: nat)
    requires
        n >= 1,
        t >= 1,
    ensures
        encode_range(n, t, (t - 1) as nat).1 == (if 8 * (t * t + 1) > n - 1 {
            n
        } else {
            8 * (t * t + 1) + 1
        }),
        k < encode_range(n, t, (t - 1) as nat).1 ==> exists|i: nat|
            i < t && encode_range(n, t, i).0 <= k < #[trigger] encode_range(n, t, i).1,
        forall|i: nat|
            i < t && encode_range(n, t, i).0 <= k < #[trigger] encode_range(n, t, i).1 ==> k
                < encode_range(n, t, (t - 1) as nat).1,
{
    let last = (t - 1) as nat;
    assert(t * last + t + 1 == t * t + 1) by (nonlinear_arith)
        requires
            last + 1 == t,
    ;
    if k < encode_range(n, t, last).1 {
        lemma_encode_cover_upto(n, t, last, k);
    }
    assert forall|i: nat|
        i < t && encode_range(n, t, i).0 <= k < #[trigger] encode_range(n, t, i).1 implies k
        < encode_range(n, t, last).1 by {
        lemma_encode_ends_grow(n, t, i, last);
    }
}

} // verus!
