//! The smooth weighted round-robin selection rule, as mathematics.
//!
//! Each host `i` has a weight `w[i]` and a current weight `c[i]`. One selection adds every
//! weight to its current weight, picks the first host whose current weight is now the
//! largest, and takes the total weight off the picked host's current weight.
use vstd::prelude::*;

verus! {

pub open spec fn sum(s: Seq<int>) -> int
    decreases s.len(),
{
    if s.len() == 0 {
        0
    } else {
        sum(s.drop_last()) + s.last()
    }
}

/// Every current weight raised by its weight.
pub open spec fn bump(c: Seq<int>, w: Seq<int>) -> Seq<int> {
    Seq::new(c.len(), |i: int| c[i] + w[i])
}

/// The index of the first largest element (0 for an empty sequence).
pub open spec fn first_max_index(d: Seq<int>) -> int
    decreases d.len(),
{
    if d.len() <= 1 {
        0
    } else {
        let k = first_max_index(d.drop_last());
        if d.last() > d[k] {
            d.len() - 1
        } else {
            k
        }
    }
}

/// `k` indexes a largest element, and every element before it is smaller.
pub open spec fn is_first_max(d: Seq<int>, k: int) -> bool {
    &&& 0 <= k < d.len()
    &&& forall|j: int| 0 <= j < d.len() ==> d[j] <= d[k]
    &&& forall|j: int| 0 <= j < k ==> d[j] < d[k]
}

/// The host that one selection picks.
pub open spec fn pick(c: Seq<int>, w: Seq<int>) -> int {
    first_max_index(bump(c, w))
}

/// The current weights after one selection.
pub open spec fn step(c: Seq<int>, w: Seq<int>) -> Seq<int> {
    let d = bump(c, w);
    let m = first_max_index(d);
    d.update(m, d[m] - sum(w))
}

/// The current weights after `k` selections.
pub open spec fn run(c: Seq<int>, w: Seq<int>, k: nat) -> Seq<int>
    decreases k,
{
    if k == 0 {
        c
    } else {
        step(run(c, w, (k - 1) as nat), w)
    }
}

/// The hosts picked by the first `k` selections, in order.
pub open spec fn picks(c: Seq<int>, w: Seq<int>, k: nat) -> Seq<int>
    decreases k,
{
    if k == 0 {
        Seq::empty()
    } else {
        picks(c, w, (k - 1) as nat).push(pick(run(c, w, (k - 1) as nat), w))
    }
}

pub open spec fn zeros(n: nat) -> Seq<int> {
    Seq::new(n, |i: int| 0)
}

/// How many times `v` occurs in `s`.
pub open spec fn count(s: Seq<int>, v: int) -> nat
    decreases s.len(),
{
    if s.len() == 0 {
        0
    } else {
        count(s.drop_last(), v) + if s.last() == v {
            1nat
        } else {
            0nat
        }
    }
}

/// For each of the values `0..n`, how many times it occurs in `s`.
pub open spec fn counts(s: Seq<int>, n: nat) -> Seq<int> {
    Seq::new(n, |i: int| count(s, i) as int)
}

pub proof fn lemma_first_max_index(d: Seq<int>)
    requires
        d.len() > 0,
    ensures
        is_first_max(d, first_max_index(d)),
    decreases d.len(),
{
    if d.len() > 1 {
        let p = d.drop_last();
        lemma_first_max_index(p);
        assert forall|j: int| 0 <= j < p.len() implies p[j] == d[j] by {}
    }
}

pub proof fn lemma_first_max_unique(d: Seq<int>, k: int)
    requires
        is_first_max(d, k),
    ensures
        k == first_max_index(d),
{
    lemma_first_max_index(d);
    let m = first_max_index(d);
    if k < m {
        assert(d[k] < d[m]);
        assert(d[m] <= d[k]);
    }
    if m < k {
        assert(d[m] < d[k]);
        assert(d[k] <= d[m]);
    }
}

pub proof fn lemma_sum_update(s: Seq<int>, i: int, v: int)
    requires
        0 <= i < s.len(),
    ensures
        sum(s.update(i, v)) == sum(s) - s[i] + v,
    decreases s.len(),
{
    if i == s.len() - 1 {
        assert(s.update(i, v).drop_last() =~= s.drop_last());
    } else {
        assert(s.update(i, v).drop_last() =~= s.drop_last().update(i, v));
        lemma_sum_update(s.drop_last(), i, v);
    }
}

pub proof fn lemma_sum_bump(c: Seq<int>, w: Seq<int>)
    requires
        c.len() == w.len(),
    ensures
        sum(bump(c, w)) == sum(c) + sum(w),
    decreases c.len(),
{
    if c.len() > 0 {
        assert(bump(c, w).drop_last() =~= bump(c.drop_last(), w.drop_last()));
        lemma_sum_bump(c.drop_last(), w.drop_last());
    }
}

pub proof fn lemma_sum_zeros(n: nat)
    ensures
        sum(zeros(n)) == 0,
    decreases n,
{
    if n > 0 {
        assert(zeros(n).drop_last() =~= zeros((n - 1) as nat));
        lemma_sum_zeros((n - 1) as nat);
    }
}

/// A non-empty sequence of negative numbers has a negative sum.
pub proof fn lemma_sum_negative(s: Seq<int>)
    requires
        s.len() > 0,
        forall|j: int| 0 <= j < s.len() ==> s[j] < 0,
    ensures
        sum(s) < 0,
    decreases s.len(),
{
    reveal_with_fuel(sum, 2);
    if s.len() > 1 {
        lemma_sum_negative(s.drop_last());
    }
}

/// A sequence of non-negative numbers has a non-negative sum.
pub proof fn lemma_sum_non_negative(s: Seq<int>)
    requires
        forall|j: int| 0 <= j < s.len() ==> s[j] >= 0,
    ensures
        sum(s) >= 0,
    decreases s.len(),
{
    if s.len() > 0 {
        lemma_sum_non_negative(s.drop_last());
    }
}

/// A sequence of non-positive numbers has a non-positive sum.
pub proof fn lemma_sum_non_positive(s: Seq<int>)
    requires
        forall|j: int| 0 <= j < s.len() ==> s[j] <= 0,
    ensures
        sum(s) <= 0,
    decreases s.len(),
{
    if s.len() > 0 {
        lemma_sum_non_positive(s.drop_last());
    }
}

/// `n` numbers, each at least `-b`, sum to at least `-n * b`.
pub proof fn lemma_sum_lower_bound(s: Seq<int>, b: int)
    requires
        forall|j: int| 0 <= j < s.len() ==> s[j] >= -b,
    ensures
        sum(s) >= -(s.len() * b),
    decreases s.len(),
{
    if s.len() > 0 {
        lemma_sum_lower_bound(s.drop_last(), b);
        let n = s.len() as int;
        assert((n - 1) * b + b == n * b) by (nonlinear_arith);
    }
}

pub proof fn lemma_sum_monotone(a: Seq<int>, b: Seq<int>)
    requires
        a.len() == b.len(),
        forall|j: int| 0 <= j < a.len() ==> a[j] <= b[j],
    ensures
        sum(a) <= sum(b),
    decreases a.len(),
{
    if a.len() > 0 {
        lemma_sum_monotone(a.drop_last(), b.drop_last());
    }
}

/// Pointwise below and equal in sum means equal.
pub proof fn lemma_pointwise_le_same_sum(a: Seq<int>, b: Seq<int>)
    requires
        a.len() == b.len(),
        forall|j: int| 0 <= j < a.len() ==> a[j] <= b[j],
        sum(a) == sum(b),
    ensures
        forall|j: int| 0 <= j < a.len() ==> a[j] == b[j],
    decreases a.len(),
{
    if a.len() > 0 {
        lemma_sum_monotone(a.drop_last(), b.drop_last());
        lemma_pointwise_le_same_sum(a.drop_last(), b.drop_last());
        assert forall|j: int| 0 <= j < a.len() implies a[j] == b[j] by {
            if j < a.len() - 1 {
                assert(a.drop_last()[j] == b.drop_last()[j]);
            }
        }
    }
}

/// One selection keeps the current weights summing to zero, picks a host in range whose
/// raised current weight is not negative (positive when the total weight is), and only
/// lowers the picked host's current weight.
pub proof fn lemma_step(c: Seq<int>, w: Seq<int>)
    requires
        c.len() == w.len(),
        c.len() > 0,
        sum(c) == 0,
        forall|j: int| 0 <= j < w.len() ==> w[j] >= 0,
    ensures
        0 <= pick(c, w) < c.len(),
        bump(c, w)[pick(c, w)] >= 0,
        sum(w) > 0 ==> bump(c, w)[pick(c, w)] > 0,
        step(c, w).len() == c.len(),
        sum(step(c, w)) == 0,
        step(c, w)[pick(c, w)] == c[pick(c, w)] + w[pick(c, w)] - sum(w),
        forall|j: int| 0 <= j < c.len() && j != pick(c, w) ==> #[trigger] step(c, w)[j] == c[j] + w[j],
{
    let d = bump(c, w);
    let m = first_max_index(d);
    lemma_sum_bump(c, w);
    lemma_sum_non_negative(w);
    lemma_first_max_index(d);
    if d[m] < 0 {
        lemma_sum_negative(d);
    }
    if sum(w) > 0 && d[m] <= 0 {
        lemma_sum_non_positive(d);
    }
    lemma_sum_update(d, m, d[m] - sum(w));
}

pub proof fn lemma_count_push(s: Seq<int>, x: int, v: int)
    ensures
        count(s.push(x), v) == count(s, v) + if x == v {
            1nat
        } else {
            0nat
        },
{
    assert(s.push(x).drop_last() =~= s);
}

/// When every element of `s` is one of `0..n`, the occurrence counts add up to its length.
pub proof fn lemma_counts_sum(s: Seq<int>, n: nat)
    requires
        forall|k: int| 0 <= k < s.len() ==> 0 <= #[trigger] s[k] < n,
    ensures
        sum(counts(s, n)) == s.len(),
    decreases s.len(),
{
    if s.len() == 0 {
        assert(counts(s, n) =~= zeros(n));
        lemma_sum_zeros(n);
    } else {
        let p = s.drop_last();
        let x = s.last();
        lemma_counts_sum(p, n);
        assert(p.push(x) =~= s);
        assert forall|i: int| 0 <= i < n implies #[trigger] counts(s, n)[i] == counts(p, n).update(
            x,
            counts(p, n)[x] + 1,
        )[i] by {
            lemma_count_push(p, x, i);
        }
        assert(counts(s, n) =~= counts(p, n).update(x, counts(p, n)[x] + 1));
        lemma_sum_update(counts(p, n), x, counts(p, n)[x] + 1);
    }
}

/// What holds after `t` selections that start from all-zero current weights: the current
/// weights sum to zero, each stays above minus the total weight, and each equals `t` times
/// the host's weight minus the total weight for every time the host was picked.
pub proof fn lemma_run_from_zero(w: Seq<int>, t: nat)
    requires
        w.len() > 0,
        forall|j: int| 0 <= j < w.len() ==> w[j] >= 0,
        sum(w) > 0,
    ensures
        run(zeros(w.len()), w, t).len() == w.len(),
        sum(run(zeros(w.len()), w, t)) == 0,
        forall|i: int| 0 <= i < w.len() ==> #[trigger] run(zeros(w.len()), w, t)[i] > -sum(w),
        picks(zeros(w.len()), w, t).len() == t,
        forall|k: int|
            0 <= k < t ==> 0 <= #[trigger] picks(zeros(w.len()), w, t)[k] < w.len(),
        forall|i: int|
            0 <= i < w.len() ==> #[trigger] run(zeros(w.len()), w, t)[i] == t * w[i] - sum(w) * count(
                picks(zeros(w.len()), w, t),
                i,
            ),
    decreases t,
{
    let n = w.len();
    let z = zeros(n);
    let total = sum(w);
    if t == 0 {
        lemma_sum_zeros(n);
        assert(picks(z, w, t) =~= Seq::<int>::empty());
        assert forall|i: int| 0 <= i < n implies #[trigger] run(z, w, t)[i] == t * w[i] - total * count(
            picks(z, w, t),
            i,
        ) by {
            assert(t * w[i] == 0) by (nonlinear_arith)
                requires
                    t == 0,
            ;
            assert(count(picks(z, w, t), i) == 0);
            assert(total * 0 == 0);
        }
    } else {
        let t1 = (t - 1) as nat;
        lemma_run_from_zero(w, t1);
        let c = run(z, w, t1);
        let p = picks(z, w, t1);
        lemma_step(c, w);
        let m = pick(c, w);
        assert(run(z, w, t) == step(c, w));
        assert(picks(z, w, t) == p.push(m));
        assert forall|i: int| 0 <= i < n implies #[trigger] run(z, w, t)[i] > -total by {}
        assert forall|k: int| 0 <= k < t implies 0 <= #[trigger] picks(z, w, t)[k] < n by {
            if k < t1 {
                assert(picks(z, w, t)[k] == p[k]);
            }
        }
        assert forall|i: int| 0 <= i < n implies #[trigger] run(z, w, t)[i] == t * w[i] - total * count(
            picks(z, w, t),
            i,
        ) by {
            lemma_count_push(p, m, i);
            let ci = count(p, i) as int;
            assert(t * w[i] == t1 * w[i] + w[i]) by (nonlinear_arith)
                requires
                    t == t1 + 1,
            ;
            if i == m {
                assert(total * (ci + 1) == total * ci + total) by (nonlinear_arith);
            }
        }
    }
}

/// Smooth weighted round robin is exact over a full cycle: starting from all-zero current
/// weights, the selections made over one total weight's worth of requests pick every host
/// exactly as many times as its weight, and leave every current weight at zero again.
pub proof fn lemma_full_cycle(w: Seq<int>)
    requires
        w.len() > 0,
        forall|j: int| 0 <= j < w.len() ==> w[j] >= 0,
        sum(w) > 0,
    ensures
        run(zeros(w.len()), w, sum(w) as nat) == zeros(w.len()),
        forall|i: int|
            0 <= i < w.len() ==> count(picks(zeros(w.len()), w, sum(w) as nat), i) == w[i],
{
    let n = w.len();
    let total = sum(w);
    let t = total as nat;
    let z = zeros(n);
    lemma_run_from_zero(w, t);
    let c = run(z, w, t);
    let p = picks(z, w, t);
    let cs = counts(p, n);
    assert forall|i: int| 0 <= i < n implies cs[i] <= w[i] by {
        let ci = count(p, i) as int;
        assert(c[i] == t * w[i] - total * ci);
        assert(ci <= w[i]) by (nonlinear_arith)
            requires
                total * w[i] - total * ci > -total,
                total > 0,
        ;
    }
    lemma_counts_sum(p, n);
    lemma_pointwise_le_same_sum(cs, w);
    assert forall|i: int| 0 <= i < n implies c[i] == z[i] by {
        assert(cs[i] == w[i]);
    }
    assert(c =~= z);
}

/// Running `a` selections and then `b` more is running `a + b`; the picks of the second
/// run follow those of the first.
pub proof fn lemma_run_add(c: Seq<int>, w: Seq<int>, a: nat, b: nat)
    ensures
        run(c, w, a + b) == run(run(c, w, a), w, b),
        picks(c, w, a + b) == picks(c, w, a) + picks(run(c, w, a), w, b),
    decreases b,
{
    if b == 0 {
        assert(picks(c, w, a) + picks(run(c, w, a), w, 0) =~= picks(c, w, a));
    } else {
        let b1 = (b - 1) as nat;
        lemma_run_add(c, w, a, b1);
        assert((a + b - 1) as nat == a + b1);
        let p1 = picks(c, w, a);
        let p2 = picks(run(c, w, a), w, b1);
        let x = pick(run(run(c, w, a), w, b1), w);
        assert((p1 + p2).push(x) =~= p1 + p2.push(x));
    }
}

/// Smooth weighted round robin repeats itself every full cycle: from all-zero current
/// weights, every current weight is zero again after each `j` cycles of one total weight's
/// worth of selections, and cycle number `j` (counting from 0) makes the same picks as the
/// first, so it too picks every host exactly as many times as its weight.
pub proof fn lemma_every_cycle(w: Seq<int>, j: nat)
    requires
        w.len() > 0,
        forall|i: int| 0 <= i < w.len() ==> w[i] >= 0,
        sum(w) > 0,
    ensures
        run(zeros(w.len()), w, j * (sum(w) as nat)) == zeros(w.len()),
        picks(zeros(w.len()), w, (j + 1) * (sum(w) as nat)).subrange(
            j * sum(w),
            (j + 1) * sum(w),
        ) == picks(zeros(w.len()), w, sum(w) as nat),
        forall|i: int| 0 <= i < w.len() ==> #[trigger] count(
            picks(zeros(w.len()), w, (j + 1) * (sum(w) as nat)).subrange(j * sum(w), (j + 1) * sum(w)),
            i,
        ) == w[i],
    decreases j,
{
    let z = zeros(w.len());
    let t = sum(w) as nat;
    lemma_full_cycle(w);
    if j > 0 {
        lemma_every_cycle(w, (j - 1) as nat);
        lemma_run_add(z, w, ((j - 1) as nat) * t, t);
        assert(((j - 1) as nat) * t + t == j * t) by (nonlinear_arith)
            requires
                j > 0,
        ;
    } else {
        assert(j * t == 0) by (nonlinear_arith)
            requires
                j == 0,
        ;
    }
    lemma_run_add(z, w, j * t, t);
    assert(j * t + t == (j + 1) * t) by (nonlinear_arith);
    lemma_picks_len(z, w, j * t);
    lemma_picks_len(z, w, t);
    let p1 = picks(z, w, j * t);
    let p2 = picks(z, w, t);
    assert((p1 + p2).subrange((j * t) as int, ((j + 1) * t) as int) =~= p2);
}

/// Each of several non-negative numbers is at most their sum.
pub proof fn lemma_element_le_sum(s: Seq<int>, i: int)
    requires
        0 <= i < s.len(),
        forall|j: int| 0 <= j < s.len() ==> s[j] >= 0,
    ensures
        s[i] <= sum(s),
{
    lemma_sum_update(s, i, 0);
    lemma_sum_non_negative(s.update(i, 0));
}

/// Numbers that sum to zero and are each at least `-b` are each at most `n * b`.
pub proof fn lemma_zero_sum_upper_bound(c: Seq<int>, b: int, i: int)
    requires
        0 <= i < c.len(),
        b >= 0,
        sum(c) == 0,
        forall|j: int| 0 <= j < c.len() ==> c[j] >= -b,
    ensures
        c[i] <= c.len() * b,
{
    lemma_sum_update(c, i, 0);
    lemma_sum_lower_bound(c.update(i, 0), b);
}

pub proof fn lemma_sum_prefix(s: Seq<int>, i: int)
    requires
        0 <= i < s.len(),
    ensures
        sum(s.take(i + 1)) == sum(s.take(i)) + s[i],
{
    assert(s.take(i + 1).drop_last() =~= s.take(i));
}

pub proof fn lemma_sum_prefix_le(s: Seq<int>, i: int)
    requires
        0 <= i <= s.len(),
        forall|j: int| 0 <= j < s.len() ==> s[j] >= 0,
    ensures
        sum(s.take(i)) <= sum(s),
    decreases s.len() - i,
{
    if i < s.len() {
        lemma_sum_prefix(s, i);
        lemma_sum_prefix_le(s, i + 1);
    } else {
        assert(s.take(i) =~= s);
    }
}

/// Every element multiplied by `k`.
pub open spec fn scale(s: Seq<int>, k: int) -> Seq<int> {
    Seq::new(s.len(), |i: int| k * s[i])
}

pub proof fn lemma_sum_scale(s: Seq<int>, k: int)
    ensures
        sum(scale(s, k)) == k * sum(s),
    decreases s.len(),
{
    if s.len() > 0 {
        lemma_sum_scale(s.drop_last(), k);
        assert(scale(s, k).drop_last() =~= scale(s.drop_last(), k));
        let a = sum(s.drop_last());
        let b = s.last();
        assert(k * a + k * b == k * (a + b)) by (nonlinear_arith);
    }
}

/// One selection commutes with scaling all weights and current weights by the same
/// positive factor: the same host is picked, and the new current weights are scaled too.
pub proof fn lemma_step_scale(c: Seq<int>, w: Seq<int>, k: int)
    requires
        c.len() == w.len(),
        c.len() > 0,
        k > 0,
    ensures
        pick(scale(c, k), scale(w, k)) == pick(c, w),
        step(scale(c, k), scale(w, k)) == scale(step(c, w), k),
{
    let d = bump(c, w);
    let sd = bump(scale(c, k), scale(w, k));
    assert forall|j: int| 0 <= j < d.len() implies #[trigger] sd[j] == k * d[j] by {
        assert(k * c[j] + k * w[j] == k * (c[j] + w[j])) by (nonlinear_arith);
    }
    lemma_first_max_index(d);
    let m = first_max_index(d);
    assert forall|j: int| 0 <= j < sd.len() implies sd[j] <= sd[m] by {
        assert(k * d[j] <= k * d[m]) by (nonlinear_arith)
            requires
                d[j] <= d[m],
                k > 0,
        ;
    }
    assert forall|j: int| 0 <= j < m implies sd[j] < sd[m] by {
        assert(k * d[j] < k * d[m]) by (nonlinear_arith)
            requires
                d[j] < d[m],
                k > 0,
        ;
    }
    lemma_first_max_unique(sd, m);
    lemma_sum_scale(w, k);
    assert(k * d[m] - k * sum(w) == k * (d[m] - sum(w))) by (nonlinear_arith);
    assert(step(scale(c, k), scale(w, k)) =~= scale(step(c, w), k));
}

/// Smooth weighted round robin depends on the ratios of the weights only: starting from
/// all-zero current weights, weights scaled by a positive factor make the same picks.
pub proof fn lemma_run_scale(w: Seq<int>, k: int, t: nat)
    requires
        w.len() > 0,
        k > 0,
    ensures
        run(zeros(w.len()), scale(w, k), t) == scale(run(zeros(w.len()), w, t), k),
        picks(zeros(w.len()), scale(w, k), t) == picks(zeros(w.len()), w, t),
    decreases t,
{
    let z = zeros(w.len());
    if t == 0 {
        assert(scale(z, k) =~= z);
    } else {
        let t1 = (t - 1) as nat;
        lemma_run_scale(w, k, t1);
        lemma_run_len(z, w, t1);
        lemma_step_scale(run(z, w, t1), w, k);
    }
}

/// Selections keep the number of current weights.
pub proof fn lemma_run_len(c: Seq<int>, w: Seq<int>, t: nat)
    requires
        c.len() > 0,
    ensures
        run(c, w, t).len() == c.len(),
    decreases t,
{
    if t > 0 {
        lemma_run_len(c, w, (t - 1) as nat);
        lemma_first_max_index(bump(run(c, w, (t - 1) as nat), w));
    }
}

/// `n` equal weights `w`.
pub open spec fn equal_weights(n: nat, w: int) -> Seq<int> {
    Seq::new(n, |i: int| w)
}

pub proof fn lemma_sum_equal(n: nat, w: int)
    ensures
        sum(equal_weights(n, w)) == n * w,
    decreases n,
{
    if n > 0 {
        assert(equal_weights(n, w).drop_last() =~= equal_weights((n - 1) as nat, w));
        lemma_sum_equal((n - 1) as nat, w);
        assert((n - 1) * w + w == n * w) by (nonlinear_arith);
    } else {
        assert(n * w == 0) by (nonlinear_arith)
            requires
                n == 0,
        ;
    }
}

/// The current weights after `t <= n` selections over `n` equal weights `w` from all zeros:
/// the first `t` hosts were picked once each, in order.
pub open spec fn equal_run(n: nat, w: int, t: nat) -> Seq<int> {
    Seq::new(n, |i: int| t * w - if i < t { n * w } else { 0 })
}

proof fn lemma_equal_step(n: nat, w: int, t: nat)
    requires
        n > 0,
        w > 0,
        t < n,
    ensures
        pick(equal_run(n, w, t), equal_weights(n, w)) == t,
        step(equal_run(n, w, t), equal_weights(n, w)) == equal_run(n, w, t + 1),
{
    let e = equal_weights(n, w);
    let c = equal_run(n, w, t);
    let d = bump(c, e);
    assert(n * w > 0) by (nonlinear_arith)
        requires
            n > 0,
            w > 0,
    ;
    assert(t * w + w == (t + 1) * w) by (nonlinear_arith);
    assert forall|j: int| 0 <= j < n implies #[trigger] d[j] == (t + 1) * w - if j < t { n * w } else { 0 } by {}
    assert(is_first_max(d, t as int));
    lemma_first_max_unique(d, t as int);
    lemma_sum_equal(n, w);
    let c1 = step(c, e);
    assert forall|i: int| 0 <= i < n implies #[trigger] c1[i] == equal_run(n, w, t + 1)[i] by {}
    assert(c1 =~= equal_run(n, w, t + 1));
}

proof fn lemma_equal_run(n: nat, w: int, t: nat)
    requires
        n > 0,
        w > 0,
        t <= n,
    ensures
        run(zeros(n), equal_weights(n, w), t) == equal_run(n, w, t),
        t < n ==> pick(run(zeros(n), equal_weights(n, w), t), equal_weights(n, w)) == t,
    decreases t,
{
    if t == 0 {
        assert forall|i: int| 0 <= i < n implies zeros(n)[i] == #[trigger] equal_run(n, w, 0)[i] by {
            assert(0 * w == 0) by (nonlinear_arith);
        }
        assert(zeros(n) =~= equal_run(n, w, 0));
    } else {
        lemma_equal_run(n, w, (t - 1) as nat);
        lemma_equal_step(n, w, (t - 1) as nat);
    }
    if t < n {
        lemma_equal_step(n, w, t);
    }
}

pub proof fn lemma_picks_len(c: Seq<int>, w: Seq<int>, t: nat)
    ensures
        picks(c, w, t).len() == t,
    decreases t,
{
    if t > 0 {
        lemma_picks_len(c, w, (t - 1) as nat);
    }
}

/// The pick made by the `k`-th selection is the pick from the state after `k` selections.
pub proof fn lemma_picks_index(c: Seq<int>, w: Seq<int>, t: nat, k: int)
    requires
        0 <= k < t,
    ensures
        picks(c, w, t)[k] == pick(run(c, w, k as nat), w),
    decreases t,
{
    let t1 = (t - 1) as nat;
    lemma_picks_len(c, w, t1);
    if k < t1 {
        lemma_picks_index(c, w, t1, k);
    }
}

/// Equal weights make smooth weighted round robin plain round robin: from all-zero current
/// weights, the `k`-th selection over `n` hosts of equal positive weight picks host `k % n`.
pub proof fn lemma_equal_weights_round_robin(n: nat, w: int, t: nat)
    requires
        n > 0,
        w > 0,
    ensures
        forall|k: int| 0 <= k < t ==> #[trigger] picks(zeros(n), equal_weights(n, w), t)[k] == k % (n as int),
{
    assert forall|k: int| 0 <= k < t implies #[trigger] picks(zeros(n), equal_weights(n, w), t)[k] == k % (n as int) by {
        lemma_picks_index(zeros(n), equal_weights(n, w), t, k);
        lemma_equal_periodic(n, w, k as nat);
        vstd::arithmetic::div_mod::lemma_mod_bound(k, n as int);
        lemma_equal_run(n, w, (k % (n as int)) as nat);
    }
}

/// Over equal weights the state repeats every `n` selections.
proof fn lemma_equal_periodic(n: nat, w: int, k: nat)
    requires
        n > 0,
        w > 0,
    ensures
        run(zeros(n), equal_weights(n, w), k) == run(zeros(n), equal_weights(n, w), ((k as int) % (n as int)) as nat),
    decreases k,
{
    let e = equal_weights(n, w);
    let z = zeros(n);
    if k == 0 {
        vstd::arithmetic::div_mod::lemma_small_mod(0, n);
    } else {
        let k1 = (k - 1) as nat;
        lemma_equal_periodic(n, w, k1);
        vstd::arithmetic::div_mod::lemma_fundamental_div_mod(k1 as int, n as int);
        vstd::arithmetic::div_mod::lemma_mod_bound(k1 as int, n as int);
        let q = (k1 as int) / (n as int);
        let r = (k1 as int) % (n as int);
        // run(z, e, k) == step(run(z, e, r)) == run(z, e, r + 1)
        assert(run(z, e, k) == step(run(z, e, k1), e));
        assert(run(z, e, (r + 1) as nat) == step(run(z, e, r as nat), e));
        if r + 1 < n {
            vstd::arithmetic::div_mod::lemma_mod_multiples_vanish(q, r + 1, n as int);
            vstd::arithmetic::div_mod::lemma_small_mod((r + 1) as nat, n);
            assert(k == (n as int) * q + (r + 1));
        } else {
            lemma_equal_run(n, w, n);
            assert forall|i: int| 0 <= i < n implies #[trigger] equal_run(n, w, n)[i] == z[i] by {
                assert(n * w - n * w == 0);
            }
            assert(equal_run(n, w, n) =~= z);
            assert(k == (n as int) * (q + 1)) by (nonlinear_arith)
                requires
                    k1 == (n as int) * q + r,
                    r + 1 == n,
                    k == k1 + 1,
            ;
            vstd::arithmetic::div_mod::lemma_mod_multiples_basic(q + 1, n as int);
            assert(((n as int) * (q + 1)) % (n as int) == ((q + 1) * (n as int)) % (n as int)) by (nonlinear_arith);
        }
    }
}

/// The integer values of a list of current weights.
pub open spec fn ints(v: Seq<isize>) -> Seq<int> {
    Seq::new(v.len(), |i: int| v[i] as int)
}

/// The integer values of a list of weights.
pub open spec fn uints(v: Seq<usize>) -> Seq<int> {
    Seq::new(v.len(), |i: int| v[i] as int)
}

/// The sum of the weights.
pub(crate) fn total_of(weights: &Vec<usize>) -> (res: usize)
    requires
        sum(uints(weights@)) <= usize::MAX,
    ensures
        res == sum(uints(weights@)),
{
    let ghost w = uints(weights@);
    let mut total: usize = 0;
    let mut i: usize = 0;
    proof {
        assert(w.take(0) =~= Seq::<int>::empty());
    }
    while i < weights.len()
        invariant
            w == uints(weights@),
            w.len() == weights@.len(),
            sum(w) <= usize::MAX,
            0 <= i <= w.len(),
            total == sum(w.take(i as int)),
        decreases w.len() - i,
    {
        proof {
            lemma_sum_prefix(w, i as int);
            lemma_sum_prefix_le(w, i + 1);
        }
        total = total + weights[i];
        i = i + 1;
    }
    proof {
        assert(w.take(i as int) =~= w);
    }
    total
}

/// Current weights a selection can start from: one per weight, summing to zero, each at
/// least `-bound`, where the weights add up to at most `bound`.
pub open spec fn selectable(current: Seq<isize>, weights: Seq<usize>, bound: int) -> bool {
    &&& current.len() == weights.len()
    &&& sum(ints(current)) == 0
    &&& forall|j: int| 0 <= j < current.len() ==> current[j] >= -bound
    &&& sum(uints(weights)) <= bound
}

/// One smooth weighted round-robin selection over `current` with `weights`, whose sum is
/// `total`, returning the picked index. `bound` must be small enough that no current weight
/// raised by its weight can leave `isize`.
pub(crate) fn smooth_select(current: &mut Vec<isize>, weights: &Vec<usize>, total: usize, Ghost(bound): Ghost<int>) -> (res: usize)
    requires
        old(current)@.len() > 0,
        selectable(old(current)@, weights@, bound),
        total == sum(uints(weights@)),
        (old(current)@.len() + 1) * bound <= isize::MAX,
    ensures
        res < old(current)@.len(),
        res == pick(ints(old(current)@), uints(weights@)),
        ints(final(current)@) == step(ints(old(current)@), uints(weights@)),
        selectable(final(current)@, weights@, bound),
{
    let ghost c0 = ints(current@);
    let ghost w = uints(weights@);
    let ghost d = bump(c0, w);
    let ghost n = current@.len();
    proof {
        lemma_step(c0, w);
        lemma_first_max_index(d);
        lemma_sum_non_negative(w);
    }
    let mut selected: Option<usize> = None;
    let mut max_current_weight: isize = -1;
    let mut i: usize = 0;
    while i < current.len()
        invariant
            n == current@.len(),
            n == weights@.len(),
            c0 == ints(old(current)@),
            w == uints(weights@),
            d == bump(c0, w),
            0 <= i <= n,
            selectable(old(current)@, weights@, bound),
            total == sum(uints(weights@)),
            (n + 1) * bound <= isize::MAX,
            0 <= bound,
            forall|j: int| 0 <= j < i ==> #[trigger] current@[j] == d[j],
            forall|j: int| i <= j < n ==> #[trigger] current@[j] == c0[j],
            selected is None <==> i == 0,
            selected matches Some(b) ==> b < i && is_first_max(d.take(i as int), b as int)
                && max_current_weight == d[b as int],
        decreases n - i,
    {
        let weight = weights[i];
        proof {
            lemma_element_le_sum(w, i as int);
            lemma_zero_sum_upper_bound(c0, bound, i as int);
            assert(n * bound + bound == (n + 1) * bound) by (nonlinear_arith);
            assert(n * bound <= (n + 1) * bound) by (nonlinear_arith)
                requires
                    bound >= 0,
            ;
        }
        let current_weight = current[i] + weight as isize;
        current.set(i, current_weight);
        if selected.is_none() || max_current_weight < current_weight {
            selected = Some(i);
            max_current_weight = current_weight;
            proof {
                let dt = d.take(i + 1);
                assert forall|j: int| 0 <= j < dt.len() implies dt[j] <= dt[i as int] by {
                    if j < i {
                        assert(d.take(i as int)[j] == d[j]);
                    }
                }
                assert forall|j: int| 0 <= j < i implies dt[j] < dt[i as int] by {
                    assert(d.take(i as int)[j] == d[j]);
                }
            }
        } else {
            proof {
                let b = selected->0 as int;
                let dt = d.take(i + 1);
                assert forall|j: int| 0 <= j < dt.len() implies dt[j] <= dt[b] by {
                    if j < i {
                        assert(d.take(i as int)[j] == d[j]);
                    }
                }
                assert forall|j: int| 0 <= j < b implies dt[j] < dt[b] by {
                    assert(d.take(i as int)[j] == d[j]);
                }
            }
        }
        i = i + 1;
    }
    let b = selected.unwrap();
    proof {
        assert(d.take(n as int) =~= d);
        lemma_first_max_unique(d, b as int);
        assert(bound <= (n + 1) * bound) by (nonlinear_arith)
            requires
                bound >= 0,
        ;
        assert(current@[b as int] == d[b as int]);
    }
    let lowered = current[b] - total as isize;
    current.set(b, lowered);
    proof {
        let c1 = ints(current@);
        assert forall|j: int| 0 <= j < n implies c1[j] == step(c0, w)[j] by {
            if j != b {
                assert(current@[j] == d[j]);
            }
        }
        assert(c1 =~= step(c0, w));
        assert forall|j: int| 0 <= j < n implies current@[j] >= -bound by {
            assert(c1[j] == step(c0, w)[j]);
        }
    }
    b
}

} // verus!
