use vstd::prelude::*;

use crate::policies::smooth::{sum, uints};

verus! {

/// A running mean of observed values: a sum and a count of observations.
///
/// Both counters wrap around on overflow rather than failing.
#[derive(Clone, Copy)]
pub struct Avg {
    sum: usize,
    count: usize,
}

/// The mean of `sum` over `count` observations, rounded down; 0 when nothing was observed.
pub open spec fn mean(sum: usize, count: usize) -> usize {
    if count == 0 {
        0
    } else {
        (sum / count) as usize
    }
}

impl View for Avg {
    /// The pair (sum of observations, number of observations).
    type V = (usize, usize);

    closed spec fn view(&self) -> (usize, usize) {
        (self.sum, self.count)
    }
}

impl Avg {
    /// The mean of nothing observed yet.
    pub closed spec fn empty_spec() -> Avg {
        Avg { sum: 0, count: 0 }
    }

    /// A mean that starts from one observation.
    pub fn new(latency: usize) -> (res: Self)
        ensures
            res@ == (latency, 1usize),
    {
        Avg { sum: latency, count: 1 }
    }

    /// The mean of nothing observed yet.
    pub fn empty() -> (res: Self)
        ensures
            res@ == (0usize, 0usize),
            res == Avg::empty_spec(),
    {
        Avg { sum: 0, count: 0 }
    }

    /// Records one more observation.
    pub fn account(&mut self, value: usize)
        ensures
            final(self)@ == (
                vstd::wrapping::usize_specs::wrapping_add(old(self)@.0, value),
                vstd::wrapping::usize_specs::wrapping_add(old(self)@.1, 1),
            ),
    {
        self.sum = self.sum.wrapping_add(value);
        self.count = self.count.wrapping_add(1);
    }

    /// The current mean, rounded down.
    pub fn get_current(&self) -> (res: usize)
        ensures
            res == mean(self@.0, self@.1),
    {
        if self.count == 0 {
            0
        } else {
            self.sum / self.count
        }
    }
}

impl Default for Avg {
    fn default() -> (res: Self)
        ensures
            res@ == (0usize, 0usize),
    {
        Avg::empty()
    }
}

/// Averaging starts from what was observed: the first observation recorded on an
/// empty mean is the mean.
pub proof fn lemma_first_observation_is_mean(v: usize)
    ensures
        mean(vstd::wrapping::usize_specs::wrapping_add(0, v), vstd::wrapping::usize_specs::wrapping_add(0, 1)) == v,
{
}

/// `n` samples, each between `lo` and `hi`, sum to between `n * lo` and `n * hi`.
pub proof fn lemma_sum_between(samples: Seq<usize>, lo: int, hi: int)
    requires
        forall|i: int| 0 <= i < samples.len() ==> lo <= #[trigger] samples[i] <= hi,
    ensures
        samples.len() * lo <= sum(uints(samples)) <= samples.len() * hi,
    decreases samples.len(),
{
    if samples.len() > 0 {
        let p = samples.drop_last();
        lemma_sum_between(p, lo, hi);
        assert(uints(samples).drop_last() =~= uints(p));
        let n = samples.len() as int;
        assert(lo <= samples[n - 1] <= hi);
        assert(uints(samples).last() == samples[n - 1]);
        assert((n - 1) * lo + lo == n * lo && (n - 1) * hi + hi == n * hi) by (nonlinear_arith);
    } else {
        let n = samples.len() as int;
        assert(n * lo == 0 && n * hi == 0) by (nonlinear_arith)
            requires
                n == 0,
        ;
    }
}

/// The mean of some samples lies between the smallest and the largest of them: a mean that
/// holds the sum and the number of the samples, none of them below `lo` or above `hi`,
/// reads between `lo` and `hi`.
pub proof fn lemma_mean_between(a: Avg, samples: Seq<usize>, lo: int, hi: int)
    requires
        samples.len() >= 1,
        forall|i: int| 0 <= i < samples.len() ==> lo <= #[trigger] samples[i] <= hi,
        a@.0 == sum(uints(samples)),
        a@.1 == samples.len(),
    ensures
        lo <= mean(a@.0, a@.1) <= hi,
{
    lemma_sum_between(samples, lo, hi);
    let n = a@.1 as int;
    let total = a@.0 as int;
    vstd::arithmetic::div_mod::lemma_fundamental_div_mod(total, n);
    vstd::arithmetic::div_mod::lemma_mod_bound(total, n);
    let q = total / n;
    let r = total % n;
    assert(lo <= q <= hi) by (nonlinear_arith)
        requires
            n >= 1,
            total == n * q + r,
            0 <= r < n,
            n * lo <= total <= n * hi,
    ;
}

} // verus!
