use vstd::prelude::*;

verus! {

/// The greatest common divisor, by Euclid's algorithm (`gcd(a, 0) == a`).
pub open spec fn gcd_spec(a: nat, b: nat) -> nat
    decreases b,
{
    if b == 0 {
        a
    } else {
        gcd_spec(b, a % b)
    }
}

/// The greatest common divisor of a non-empty list, folded from the left.
pub open spec fn gcd_seq(s: Seq<usize>) -> nat
    decreases s.len(),
{
    if s.len() <= 1 {
        if s.len() == 0 { 0 } else { s[0] as nat }
    } else {
        gcd_spec(gcd_seq(s.drop_last()), s.last() as nat)
    }
}

/// Euclid's gcd never exceeds its larger argument.
pub proof fn lemma_gcd_le_max(a: nat, b: nat)
    ensures
        gcd_spec(a, b) <= if a >= b { a } else { b },
    decreases b,
{
    if b != 0 {
        lemma_gcd_le_max(b, a % b);
    }
}

/// Euclid's gcd is symmetric.
pub proof fn lemma_gcd_commutative(a: nat, b: nat)
    ensures
        gcd_spec(a, b) == gcd_spec(b, a),
{
    if a < b {
        vstd::arithmetic::div_mod::lemma_small_mod(a, b);
        assert(gcd_spec(a, b) == gcd_spec(b, a % b));
    } else if b < a {
        vstd::arithmetic::div_mod::lemma_small_mod(b, a);
        assert(gcd_spec(b, a) == gcd_spec(a, b % a));
    }
}

/// The gcd is zero only for two zeros, and otherwise divides both numbers.
pub proof fn lemma_gcd_divides(a: nat, b: nat)
    ensures
        gcd_spec(a, b) == 0 <==> a == 0 && b == 0,
        gcd_spec(a, b) > 0 ==> a % gcd_spec(a, b) == 0 && b % gcd_spec(a, b) == 0,
    decreases b,
{
    if b == 0 {
        if a > 0 {
            vstd::arithmetic::div_mod::lemma_mod_self_0(a as int);
            vstd::arithmetic::div_mod::lemma_small_mod(0, a);
        }
    } else {
        let r = a % b;
        lemma_gcd_divides(b, r);
        let g = gcd_spec(b, r);
        vstd::arithmetic::div_mod::lemma_fundamental_div_mod(a as int, b as int);
        vstd::arithmetic::div_mod::lemma_fundamental_div_mod(b as int, g as int);
        vstd::arithmetic::div_mod::lemma_fundamental_div_mod(r as int, g as int);
        let q = a as int / b as int;
        let k1 = b as int / g as int;
        let k2 = r as int / g as int;
        assert(a == g * (q * k1 + k2)) by (nonlinear_arith)
            requires
                a == b * q + r,
                b == g * k1,
                r == g * k2,
        ;
        vstd::arithmetic::div_mod::lemma_mod_multiples_basic(q * k1 + k2, g as int);
        assert((g * (q * k1 + k2)) % (g as int) == ((q * k1 + k2) * g) % (g as int)) by (nonlinear_arith);
    }
}

/// Every common divisor of the two numbers divides their gcd: it is the greatest.
pub proof fn lemma_gcd_greatest(a: nat, b: nat, d: nat)
    requires
        d > 0,
        a % d == 0,
        b % d == 0,
    ensures
        gcd_spec(a, b) % d == 0,
    decreases b,
{
    if b > 0 {
        let r = a % b;
        vstd::arithmetic::div_mod::lemma_fundamental_div_mod(a as int, b as int);
        vstd::arithmetic::div_mod::lemma_fundamental_div_mod(a as int, d as int);
        vstd::arithmetic::div_mod::lemma_fundamental_div_mod(b as int, d as int);
        let q = a as int / b as int;
        let ka = a as int / d as int;
        let kb = b as int / d as int;
        assert(r == d * (ka - q * kb)) by (nonlinear_arith)
            requires
                a == b * q + r,
                a == d * ka,
                b == d * kb,
        ;
        vstd::arithmetic::div_mod::lemma_mod_multiples_basic(ka - q * kb, d as int);
        assert((d * (ka - q * kb)) % (d as int) == ((ka - q * kb) * d) % (d as int)) by (nonlinear_arith);
        lemma_gcd_greatest(b, r, d);
    }
}

/// The gcd of a list divides every number in it (all of them are zero when it is zero), and
/// every common divisor of all the numbers divides it: it is their greatest common divisor.
pub proof fn lemma_gcd_seq(s: Seq<usize>)
    ensures
        gcd_seq(s) == 0 <==> forall|i: int| 0 <= i < s.len() ==> s[i] == 0,
        gcd_seq(s) > 0 ==> forall|i: int| 0 <= i < s.len() ==> #[trigger] ((s[i] as nat) % gcd_seq(s)) == 0,
        forall|d: nat| d > 0 && (forall|i: int| 0 <= i < s.len() ==> #[trigger] ((s[i] as nat) % d) == 0)
            ==> #[trigger] (gcd_seq(s) % d) == 0,
    decreases s.len(),
{
    if s.len() == 0 {
        assert forall|d: nat| d > 0 implies #[trigger] (gcd_seq(s) % d) == 0 by {
            vstd::arithmetic::div_mod::lemma_small_mod(0, d);
        }
    } else if s.len() == 1 {
        let a = s[0] as nat;
        if a > 0 {
            vstd::arithmetic::div_mod::lemma_mod_self_0(a as int);
        }
        assert forall|d: nat| d > 0 && (forall|i: int| 0 <= i < s.len() ==> #[trigger] ((s[i] as nat) % d) == 0)
            implies #[trigger] (gcd_seq(s) % d) == 0 by {
            assert((s[0] as nat) % d == 0);
        }
    } else {
        let p = s.drop_last();
        let a = gcd_seq(p);
        let b = s.last() as nat;
        lemma_gcd_seq(p);
        lemma_gcd_divides(a, b);
        let g = gcd_spec(a, b);
        assert(gcd_seq(s) == g);
        assert(g == 0 <==> forall|i: int| 0 <= i < s.len() ==> s[i] == 0) by {
            if g == 0 {
                assert forall|i: int| 0 <= i < s.len() implies s[i] == 0 by {
                    if i < p.len() {
                        assert(p[i] == s[i]);
                    }
                }
            }
            if forall|i: int| 0 <= i < s.len() ==> s[i] == 0 {
                assert forall|i: int| 0 <= i < p.len() implies p[i] == 0 by {
                    assert(p[i] == s[i]);
                }
                assert(s[s.len() - 1] == 0);
            }
        }
        if g > 0 {
            assert forall|i: int| 0 <= i < s.len() implies #[trigger] ((s[i] as nat) % g) == 0 by {
                if i < p.len() {
                    assert(p[i] == s[i]);
                    if a > 0 {
                        assert((p[i] as nat) % a == 0);
                        // p[i] = a * k and a = g * m, so g divides p[i]
                        vstd::arithmetic::div_mod::lemma_fundamental_div_mod(p[i] as int, a as int);
                        vstd::arithmetic::div_mod::lemma_fundamental_div_mod(a as int, g as int);
                        let k = p[i] as int / a as int;
                        let m = a as int / g as int;
                        assert(p[i] as int == g * (m * k)) by (nonlinear_arith)
                            requires
                                p[i] == a * k + 0,
                                a == g * m + 0,
                        ;
                        vstd::arithmetic::div_mod::lemma_mod_multiples_basic(m * k, g as int);
                        assert((g * (m * k)) % (g as int) == ((m * k) * g) % (g as int)) by (nonlinear_arith);
                    } else {
                        assert(p[i] == 0);
                        vstd::arithmetic::div_mod::lemma_small_mod(0, g);
                    }
                } else {
                    assert(s[i] == b);
                }
            }
        }
        assert forall|d: nat| d > 0 && (forall|i: int| 0 <= i < s.len() ==> #[trigger] ((s[i] as nat) % d) == 0)
            implies #[trigger] (gcd_seq(s) % d) == 0 by {
            assert forall|i: int| 0 <= i < p.len() implies #[trigger] ((p[i] as nat) % d) == 0 by {
                assert(p[i] == s[i]);
            }
            assert(a % d == 0);
            assert((s[s.len() - 1] as nat) % d == 0);
            lemma_gcd_greatest(a, b, d);
        }
    }
}

pub fn gcd(a: usize, b: usize) -> (res: usize)
    ensures
        res == gcd_spec(a as nat, b as nat),
{
    let mut x = a;
    let mut y = b;
    if x < y {
        proof {
            vstd::arithmetic::div_mod::lemma_small_mod(a as nat, b as nat);
        }
        x = b;
        y = a;
    }
    while y > 0
        invariant
            gcd_spec(x as nat, y as nat) == gcd_spec(a as nat, b as nat),
        decreases y,
    {
        let r = x % y;
        x = y;
        y = r;
    }
    x
}

/// The gcd of all numbers in the list, or `None` for an empty list.
pub fn gcd_nums(nums: &Vec<usize>) -> (res: Option<usize>)
    ensures
        nums@.len() == 0 <==> res is None,
        res matches Some(g) ==> g == gcd_seq(nums@),
        res matches Some(g) ==> g > 0 ==> forall|i: int| 0 <= i < nums@.len() ==> #[trigger] (nums@[i] % g) == 0,
        res matches Some(g) ==> forall|d: nat| d > 0 && (forall|i: int| 0 <= i < nums@.len() ==> #[trigger] ((nums@[i] as nat) % d) == 0)
            ==> #[trigger] ((g as nat) % d) == 0,
{
    proof {
        lemma_gcd_seq(nums@);
    }
    if nums.len() == 0 {
        return None;
    }
    let mut result = nums[0];
    let mut i: usize = 1;
    while i < nums.len()
        invariant
            1 <= i <= nums@.len(),
            result == gcd_seq(nums@.take(i as int)),
        decreases nums@.len() - i,
    {
        assert(nums@.take(i + 1).drop_last() =~= nums@.take(i as int));
        result = gcd(result, nums[i]);
        i = i + 1;
    }
    assert(nums@.take(i as int) =~= nums@);
    Some(result)
}

} // verus!
