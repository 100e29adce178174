use vstd::arithmetic::div_mod::{lemma_div_is_ordered, lemma_div_multiples_vanish};
use vstd::prelude::*;

verus! {

/// Size in bytes of the source and destination buffers of every trial.
pub const CAPACITY: usize = 32 * 1024 * 1024;

/// Number of timed trials for each stride.
pub const REPETITIONS: usize = 10;

/// Smallest stride measured.
pub const MIN_STRIDE: usize = 16;

/// Largest stride measured.
pub const MAX_STRIDE: usize = 512;

/// Scale factor that turns an elapsed time in nanoseconds into a rate per second.
pub const NANOS_PER_SECOND: u64 = 1_000_000_000;

/// Sum of the samples.
pub open spec fn seq_sum(s: Seq<u64>) -> int
    decreases s.len(),
{
    if s.len() == 0 {
        0
    } else {
        seq_sum(s.drop_last()) + s.last()
    }
}

/// `m` is one of the samples and no sample is smaller.
pub open spec fn is_min_of(m: u64, s: Seq<u64>) -> bool {
    s.contains(m) && forall|i: int| 0 <= i < s.len() ==> m <= #[trigger] s[i]
}

/// `m` is one of the samples and no sample is larger.
pub open spec fn is_max_of(m: u64, s: Seq<u64>) -> bool {
    s.contains(m) && forall|i: int| 0 <= i < s.len() ==> #[trigger] s[i] <= m
}

/// Mean of a non-empty run of samples, rounded down.
pub open spec fn seq_average(s: Seq<u64>) -> int {
    seq_sum(s) / (s.len() as int)
}

/// Rate per second of a trial that took `nanos` nanoseconds, rounded down; a
/// trial too short to measure counts as the largest rate.
pub open spec fn throughput_of(nanos: u64) -> u64 {
    if nanos == 0 {
        u64::MAX
    } else {
        (NANOS_PER_SECOND / nanos) as u64
    }
}

/// The strides measured, from `MIN_STRIDE` to `MAX_STRIDE` inclusive, step one.
pub open spec fn stride_range() -> Seq<usize> {
    Seq::new((MAX_STRIDE - MIN_STRIDE + 1) as nat, |i: int| (MIN_STRIDE + i) as usize)
}

/// Minimum, average and maximum of the samples taken for one stride.
#[derive(Clone, Copy, Debug, PartialEq, Eq, Structural)]
pub struct Aggregate {
    pub min: u64,
    pub avg: u64,
    pub max: u64,
}

/// Every sample lies between `lo` and `hi`, so the sum lies between `len * lo`
/// and `len * hi`.
proof fn lemma_sum_bounds(s: Seq<u64>, lo: int, hi: int)
    requires
        forall|i: int| 0 <= i < s.len() ==> lo <= #[trigger] s[i] <= hi,
    ensures
        s.len() * lo <= seq_sum(s) <= s.len() * hi,
    decreases s.len(),
{
    if s.len() > 0 {
        let t = s.drop_last();
        assert forall|i: int| 0 <= i < t.len() implies lo <= #[trigger] t[i] <= hi by {
            assert(t[i] == s[i]);
        }
        lemma_sum_bounds(t, lo, hi);
        let n = t.len() as int;
        assert(s.len() * lo == n * lo + lo && s.len() * hi == n * hi + hi) by (nonlinear_arith)
            requires
                s.len() == n + 1,
        ;
    }
}

/// The average of a non-empty run of samples lies between its minimum and its
/// maximum.
pub proof fn lemma_average_between(s: Seq<u64>, lo: u64, hi: u64)
    requires
        s.len() > 0,
        is_min_of(lo, s),
        is_max_of(hi, s),
    ensures
        lo <= seq_average(s) <= hi,
{
    let n = s.len() as int;
    lemma_sum_bounds(s, lo as int, hi as int);
    lemma_div_is_ordered(n * lo, seq_sum(s), n);
    lemma_div_is_ordered(seq_sum(s), n * hi, n);
    lemma_div_multiples_vanish(lo as int, n);
    lemma_div_multiples_vanish(hi as int, n);
}

/// The strides that the experiment measures.
pub fn strides() -> (r: Vec<usize>)
    ensures
        r@ == stride_range(),
{
    let mut r: Vec<usize> = Vec::new();
    let mut s: usize = MIN_STRIDE;
    while s <= MAX_STRIDE
        invariant
            MIN_STRIDE <= s <= MAX_STRIDE + 1,
            r@ == stride_range().take(s - MIN_STRIDE),
        decreases MAX_STRIDE + 1 - s,
    {
        r.push(s);
        s = s + 1;
    }
    assert(r@ =~= stride_range());
    r
}

/// Rate per second of a trial that took `nanos` nanoseconds.
pub fn throughput(nanos: u64) -> (r: u64)
    ensures
        r == throughput_of(nanos),
{
    if nanos == 0 {
        u64::MAX
    } else {
        NANOS_PER_SECOND / nanos
    }
}

/// Reduces the samples of one stride to their minimum, average (rounded down)
/// and maximum; there is none for no samples.
pub fn aggregate(samples: &Vec<u64>) -> (r: Option<Aggregate>)
    ensures
        r is None <==> samples@.len() == 0,
        r matches Some(a) ==> {
            &&& is_min_of(a.min, samples@)
            &&& is_max_of(a.max, samples@)
            &&& a.avg == seq_average(samples@)
            &&& a.min <= a.avg <= a.max
        },
{
    let n = samples.len();
    if n == 0 {
        return None;
    }
    let mut lo: u64 = samples[0];
    let mut hi: u64 = samples[0];
    let mut sum: u128 = 0;
    let mut i: usize = 0;
    assert(samples@.take(1)[0] == lo);
    while i < n
        invariant
            n == samples@.len(),
            n > 0,
            i <= n,
            sum == seq_sum(samples@.take(i as int)),
            sum <= i * (u64::MAX as int),
            is_min_of(lo, samples@.take(if i == 0 { 1int } else { i as int })),
            is_max_of(hi, samples@.take(if i == 0 { 1int } else { i as int })),
        decreases n - i,
    {
        let x = samples[i];
        proof {
            let s = samples@;
            assert(s.take(i + 1).drop_last() =~= s.take(i as int));
            assert(sum + x <= (i + 1) * (u64::MAX as int)) by (nonlinear_arith)
                requires
                    sum <= i * (u64::MAX as int),
                    x <= u64::MAX,
            ;
            assert(i + 1 <= usize::MAX);
            assert((i + 1) * (u64::MAX as int) <= u128::MAX) by (nonlinear_arith)
                requires
                    i + 1 <= usize::MAX,
                    usize::MAX <= u64::MAX,
            ;
        }
        sum = sum + x as u128;
        if x < lo {
            lo = x;
        }
        if x > hi {
            hi = x;
        }
        proof {
            let s = samples@;
            let p = if i == 0 { 1int } else { i as int };
            assert(s.take(i + 1).last() == x);
            assert forall|k: int| 0 <= k < i + 1 implies lo <= #[trigger] s.take(i + 1)[k] by {
                if k < p {
                    assert(s.take(p)[k] == s.take(i + 1)[k]);
                }
            }
            assert forall|k: int| 0 <= k < i + 1 implies #[trigger] s.take(i + 1)[k] <= hi by {
                if k < p {
                    assert(s.take(p)[k] == s.take(i + 1)[k]);
                }
            }
            if lo == x {
                assert(s.take(i + 1)[i as int] == lo);
            } else {
                let k = choose|k: int| 0 <= k < p && s.take(p)[k] == lo;
                assert(s.take(i + 1)[k] == lo);
            }
            if hi == x {
                assert(s.take(i + 1)[i as int] == hi);
            } else {
                let k = choose|k: int| 0 <= k < p && s.take(p)[k] == hi;
                assert(s.take(i + 1)[k] == hi);
            }
        }
        i = i + 1;
    }
    proof {
        assert(samples@.take(n as int) =~= samples@);
        lemma_average_between(samples@, lo, hi);
    }
    let avg = (sum / (n as u128)) as u64;
    Some(Aggregate { min: lo, avg, max: hi })
}

} // verus!
