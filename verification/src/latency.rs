//! The latency tracker: a process-local, single-threaded sampler.
//!
//! It holds a growable buffer of 64-bit counter-delta samples, preallocated
//! so the hot path only appends, and summarises them with nearest-rank
//! percentiles over the sorted buffer. The mean is reported as the exact
//! pair of total and count; dividing them is the caller's concern.

use vstd::prelude::*;

use crate::rdtsc::rdtsc;

verus! {

/// Whether a sample sequence is in ascending order.
pub open spec fn sorted(s: Seq<u64>) -> bool {
    forall|i: int, j: int| 0 <= i <= j < s.len() ==> s[i] <= s[j]
}

/// The total of a sample sequence.
pub open spec fn sum_samples(s: Seq<u64>) -> int
    decreases s.len(),
{
    if s.len() == 0 {
        0
    } else {
        s[0] + sum_samples(s.drop_first())
    }
}

/// The nearest-rank index of the percentile `num/den` in a buffer of `n`
/// sorted samples.
pub open spec fn rank_index(num: int, den: int, n: int) -> int {
    num * (n - 1) / den
}

proof fn lemma_sum_samples_take_step(s: Seq<u64>, m: int)
    requires
        0 <= m < s.len(),
    ensures
        sum_samples(s.take(m + 1)) == sum_samples(s.take(m)) + s[m],
    decreases m,
{
    if m == 0 {
        assert(s.take(1) =~= seq![s[0]]);
        assert(s.take(0) =~= Seq::<u64>::empty());
        assert(seq![s[0]].drop_first() =~= Seq::<u64>::empty());
        assert(sum_samples(Seq::<u64>::empty()) == 0);
    } else {
        assert(s.take(m + 1)[0] == s[0]);
        assert(s.take(m)[0] == s[0]);
        assert(s.take(m + 1).drop_first() =~= s.drop_first().take(m));
        assert(s.take(m).drop_first() =~= s.drop_first().take(m - 1));
        lemma_sum_samples_take_step(s.drop_first(), m - 1);
    }
}

/// The sampler: a buffer of counter deltas, appended by [`LatencyTracker::record`].
pub struct LatencyTracker {
    samples: Vec<u64>,
}

impl View for LatencyTracker {
    type V = Seq<u64>;

    closed spec fn view(&self) -> Seq<u64> {
        self.samples@
    }
}

/// A percentile summary of a sample buffer: extrema, nearest-rank
/// percentiles, and the exact total and count from which the arithmetic
/// mean follows.
#[derive(Debug, Clone, Copy)]
pub struct Percentiles {
    pub min: u64,
    pub max: u64,
    pub total: u128,
    pub count: usize,
    pub p50: u64,
    pub p95: u64,
    pub p99: u64,
    pub p999: u64,
    pub p9999: u64,
}

/// Sort a sample buffer ascending by repeatedly moving its least element
/// into an output buffer.
fn sort_samples(v: &mut Vec<u64>)
    ensures
        final(v)@.len() == old(v)@.len(),
        sorted(final(v)@),
        final(v)@.to_multiset() == old(v)@.to_multiset(),
{
    broadcast use vstd::seq_lib::group_to_multiset_ensures;
    broadcast use vstd::multiset::group_multiset_axioms;

    let ghost m0 = v@.to_multiset();
    let mut out: Vec<u64> = Vec::new();
    proof {
        assert(out@.to_multiset().add(v@.to_multiset()) =~= m0);
    }
    while v.len() > 0
        invariant
            out@.to_multiset().add(v@.to_multiset()) == m0,
            out@.len() + v@.len() == old(v)@.len(),
            sorted(out@),
            forall|a: int, b: int|
                0 <= a < out@.len() && 0 <= b < v@.len() ==> out@[a] <= v@[b],
        decreases v@.len(),
    {
        let mut best: usize = 0;
        let mut i: usize = 1;
        while i < v.len()
            invariant
                best < v@.len(),
                i <= v@.len(),
                forall|j: int| 0 <= j < i ==> v@[best as int] <= v@[j],
            decreases v@.len() - i,
        {
            if v[i] < v[best] {
                best = i;
            }
            i += 1;
        }
        let ghost v_before = v@;
        let x = v.remove(best);
        let ghost out_before = out@;
        out.push(x);
        proof {
            assert(v_before.remove(best as int).to_multiset() =~= v_before.to_multiset().remove(
                x,
            ));
            assert(out_before.push(x).to_multiset() =~= out_before.to_multiset().insert(x));
            assert(out@.to_multiset().add(v@.to_multiset()) =~= m0);
            assert forall|a: int, b: int|
                0 <= a < out@.len() && 0 <= b < v@.len() implies out@[a] <= v@[b] by {
                let ob = if b < best {
                    b
                } else {
                    b + 1
                };
                assert(v@[b] == v_before[ob]);
                if a < out_before.len() {
                    assert(out@[a] == out_before[a]);
                } else {
                    assert(out@[a] == x);
                }
            }
            assert forall|a: int, b: int| 0 <= a <= b < out@.len() implies out@[a] <= out@[b] by {
                if b == out@.len() - 1 && a < b {
                    assert(out@[a] == out_before[a]);
                    assert(out_before[a] <= v_before[best as int]);
                }
            }
        }
    }
    *v = out;
}

impl LatencyTracker {
    /// Create a tracker whose buffer is preallocated to `capacity`, so the
    /// recording path does not allocate until the capacity is exceeded.
    pub fn new(capacity: usize) -> (r: Self)
        ensures
            r@ == Seq::<u64>::empty(),
    {
        let r = LatencyTracker { samples: Vec::with_capacity(capacity) };
        proof {
            assert(r@ =~= Seq::<u64>::empty());
        }
        r
    }

    /// Run `op` between two counter reads and append the delta to the
    /// buffer, handing back `op`'s result. The delta depends on the
    /// counter, so only its presence is promised, not its value.
    pub fn record<F, R>(&mut self, op: F) -> (r: R) where F: FnOnce() -> R
        requires
            call_requires(op, ()),
        ensures
            exists|d: u64| final(self)@ == old(self)@.push(d),
            final(self)@.len() == old(self)@.len() + 1,
            call_ensures(op, (), r),
    {
        let start = rdtsc();
        let result = op();
        let end = rdtsc();
        let delta = if end >= start {
            end - start
        } else {
            0
        };
        self.samples.push(delta);
        proof {
            assert(self@ == old(self)@.push(delta));
        }
        result
    }

    /// Whether no samples have been recorded.
    pub fn is_empty(&self) -> (r: bool)
        ensures
            r == (self@.len() == 0),
    {
        self.samples.len() == 0
    }

    /// The number of recorded samples.
    pub fn len(&self) -> (r: usize)
        ensures
            r == self@.len(),
    {
        self.samples.len()
    }

    /// Discard all recorded samples.
    pub fn clear(&mut self)
        ensures
            final(self)@ == Seq::<u64>::empty(),
    {
        self.samples.clear();
        proof {
            assert(self@ =~= Seq::<u64>::empty());
        }
    }

    /// The sample at the nearest-rank index of the percentile `num/den`,
    /// read from the buffer as it stands; callers sort first.
    pub fn percentile_at(&self, num: u64, den: u64) -> (r: u64)
        requires
            self@.len() > 0,
            0 < den,
            num <= den,
        ensures
            r == self@[rank_index(num as int, den as int, self@.len() as int)],
    {
        let n = self.samples.len();
        proof {
            assert((num as int) * ((n - 1) as int) <= u128::MAX) by (nonlinear_arith)
                requires
                    0 <= num as int <= u64::MAX as int,
                    0 <= (n - 1) as int <= u64::MAX as int,
            ;
        }
        let idx_wide = (num as u128) * ((n - 1) as u128) / (den as u128);
        proof {
            assert((num as int) * ((n - 1) as int) / (den as int) <= (n - 1) as int)
                by (nonlinear_arith)
                requires
                    0 < den as int,
                    num as int <= den as int,
                    n >= 1,
            ;
            assert(0 <= (num as int) * ((n - 1) as int)) by (nonlinear_arith)
                requires
                    0 <= num as int,
                    n >= 1,
            ;
            assert(idx_wide == (num as int) * ((n - 1) as int) / (den as int));
        }
        let idx = idx_wide as usize;
        self.samples[idx]
    }

    /// Summarise the recorded samples: sort the buffer ascending, then
    /// read off the extrema, the exact total, and the nearest-rank
    /// percentiles. `None` when nothing was recorded.
    pub fn precentiles(&mut self) -> (r: Option<Percentiles>)
        ensures
            final(self)@.len() == old(self)@.len(),
            final(self)@.to_multiset() == old(self)@.to_multiset(),
            sorted(final(self)@),
            match r {
                Some(p) => {
                    let s = final(self)@;
                    &&& s.len() > 0
                    &&& p.count == s.len()
                    &&& p.min == s[0]
                    &&& p.max == s[s.len() - 1]
                    &&& p.total as int == sum_samples(s)
                    &&& p.p50 == s[rank_index(50, 100, s.len() as int)]
                    &&& p.p95 == s[rank_index(95, 100, s.len() as int)]
                    &&& p.p99 == s[rank_index(99, 100, s.len() as int)]
                    &&& p.p999 == s[rank_index(999, 1000, s.len() as int)]
                    &&& p.p9999 == s[rank_index(9999, 10000, s.len() as int)]
                },
                None => old(self)@.len() == 0,
            },
    {
        broadcast use vstd::seq_lib::group_to_multiset_ensures;

        if self.samples.len() == 0 {
            proof {
                assert(sorted(self@));
            }
            return None;
        }

        sort_samples(&mut self.samples);

        let ghost s = self@;
        let len = self.samples.len();
        let min = self.samples[0];
        let max = self.samples[len - 1];

        let mut total: u128 = 0;
        let mut idx: usize = 0;
        while idx < len
            invariant
                idx <= len,
                len == s.len(),
                s == self@,
                total as int == sum_samples(s.take(idx as int)),
                total as int <= idx * (u64::MAX as int),
            decreases len - idx,
        {
            proof {
                lemma_sum_samples_take_step(s, idx as int);
            }
            total = total + (self.samples[idx] as u128);
            idx += 1;
        }
        proof {
            assert(s.take(s.len() as int) =~= s);
        }

        Some(
            Percentiles {
                min,
                max,
                total,
                count: len,
                p50: self.percentile_at(50, 100),
                p95: self.percentile_at(95, 100),
                p99: self.percentile_at(99, 100),
                p999: self.percentile_at(999, 1000),
                p9999: self.percentile_at(9999, 10000),
            },
        )
    }
}

} // verus!
