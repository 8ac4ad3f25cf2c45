//! A polynomial of degree `d` has at most `d` roots modulo a prime, and what
//! follows from it: every odd prime has a quadratic non-residue.

use crate::fermat::residues;
use crate::mod_sqrt::{euler_non_residue, has_non_residue_below};
use crate::nt::lemma_euler_power;
use crate::polynomial::{lemma_eval_push, poly_eval};
use crate::primes::{
    lemma_minus_one_squared, lemma_one_less_is_multiple, lemma_pow_congruent,
    lemma_prime_divides_product, prime,
};
use crate::relation::lemma_divides_negative;
use vstd::arithmetic::div_mod::*;
use vstd::arithmetic::mul::*;
use vstd::arithmetic::power::*;
use vstd::prelude::*;

verus! {

/// The quotient of the polynomial `c` on division by `x - r`.
pub open spec fn deflated(c: Seq<int>, r: int) -> Seq<int>
    decreases c.len(),
{
    if c.len() <= 1 {
        Seq::empty()
    } else {
        seq![poly_eval(c.drop_first(), r)] + deflated(c.drop_first(), r)
    }
}

/// Division by `x - r` leaves the value at `r`:
/// `c(x) = (x - r) q(x) + c(r)`, and `q` has the leading coefficient of `c`.
pub proof fn lemma_factor(c: Seq<int>, r: int, x: int)
    ensures
        poly_eval(c, x) == (x - r) * poly_eval(deflated(c, r), x) + poly_eval(c, r),
        c.len() >= 1 ==> deflated(c, r).len() == c.len() - 1,
        c.len() >= 2 ==> deflated(c, r)[c.len() - 2] == c[c.len() - 1],
    decreases c.len(),
{
    if c.len() == 0 {
        assert((x - r) * 0 == 0) by (nonlinear_arith);
    } else if c.len() == 1 {
        assert(c.drop_first().len() == 0);
        assert((x - r) * 0 == 0) by (nonlinear_arith);
        assert(x * 0 == 0) by (nonlinear_arith);
        assert(r * 0 == 0) by (nonlinear_arith);
        assert(poly_eval(c.drop_first(), x) == 0);
        assert(poly_eval(c.drop_first(), r) == 0);
        assert(poly_eval(c, x) == c[0]);
        assert(poly_eval(c, r) == c[0]);
        assert(deflated(c, r).len() == 0);
        assert(poly_eval(deflated(c, r), x) == 0);
    } else {
        let rest = c.drop_first();
        lemma_factor(rest, r, x);
        let q = deflated(c, r);
        let q1 = deflated(rest, r);
        let v = poly_eval(rest, r);
        assert(q.drop_first() =~= q1);
        assert(q[0] == v);
        let e = poly_eval(q1, x);
        let c0 = c[0];
        assert(c0 + x * ((x - r) * e + v) == (x - r) * (v + x * e) + (c0 + r * v))
            by (nonlinear_arith);
        assert(poly_eval(rest, x) == (x - r) * e + v);
        assert(poly_eval(c, x) == c0 + x * poly_eval(rest, x));
        assert(poly_eval(c, r) == c0 + r * v);
        assert(poly_eval(q, x) == v + x * e);
        if c.len() == 2 {
            assert(rest.drop_first().len() == 0);
            assert(r * 0 == 0) by (nonlinear_arith);
            assert(poly_eval(rest.drop_first(), r) == 0);
            assert(v == rest[0]);
            assert(rest[0] == c[1]);
        } else {
            assert(q[c.len() - 2] == q1[c.len() - 3]);
            assert(rest[rest.len() - 1] == c[c.len() - 1]);
        }
    }
}

/// The terms of `roots` are different residues at which `c` vanishes
/// modulo `p`.
pub open spec fn distinct_roots(c: Seq<int>, p: int, roots: Seq<int>) -> bool {
    &&& forall|i: int|
        0 <= i < roots.len() ==> 0 <= #[trigger] roots[i] < p && poly_eval(c, roots[i]) % p == 0
    &&& forall|i: int, j: int| 0 <= i < j < roots.len() ==> roots[i] != roots[j]
}

/// A polynomial whose leading coefficient the prime `p` does not divide has
/// no more roots modulo `p` than its degree.
pub proof fn lemma_root_bound(c: Seq<int>, p: int, roots: Seq<int>)
    requires
        prime(p),
        c.len() >= 1,
        c[c.len() - 1] % p != 0,
        distinct_roots(c, p, roots),
    ensures
        roots.len() <= c.len() - 1,
    decreases c.len(),
{
    if roots.len() > 0 {
        let r = roots[roots.len() - 1];
        if c.len() == 1 {
            assert(c.drop_first().len() == 0);
            assert(r * 0 == 0) by (nonlinear_arith);
            assert(poly_eval(c.drop_first(), r) == 0);
            assert(poly_eval(c, r) == c[0]);
        } else {
            let q = deflated(c, r);
            let others = roots.drop_last();
            lemma_factor(c, r, r);
            assert forall|i: int| 0 <= i < others.len() implies 0 <= #[trigger] others[i] < p
                && poly_eval(q, others[i]) % p == 0 by {
                let x = others[i];
                assert(x == roots[i]);
                lemma_factor(c, r, x);
                // c(x) - c(r) = (x - r) q(x) is a multiple of p
                lemma_mod_equivalence(poly_eval(c, x), poly_eval(c, r), p);
                lemma_prime_divides_product(x - r, poly_eval(q, x), p);
                if (x - r) % p == 0 {
                    if x > r {
                        lemma_small_mod((x - r) as nat, p as nat);
                    } else {
                        lemma_divides_negative(x - r, p);
                        lemma_small_mod((r - x) as nat, p as nat);
                    }
                }
            }
            assert(distinct_roots(q, p, others));
            lemma_root_bound(q, p, others);
        }
    }
}

/// The coefficients of `x^h - 1`.
pub open spec fn power_minus_one(h: nat) -> Seq<int> {
    Seq::new(
        h,
        |i: int|
            if i == 0 {
                -1int
            } else {
                0int
            },
    ).push(1)
}

proof fn lemma_eval_zeros(n: nat, x: int)
    ensures
        poly_eval(Seq::new(n, |i: int| 0int), x) == 0,
    decreases n,
{
    let z = Seq::new(n, |i: int| 0int);
    if n > 0 {
        assert(z.drop_first() =~= Seq::new((n - 1) as nat, |i: int| 0int));
        lemma_eval_zeros((n - 1) as nat, x);
        assert(x * 0 == 0) by (nonlinear_arith);
    }
}

/// The value of `x^h - 1`.
pub proof fn lemma_eval_power_minus_one(h: nat, x: int)
    requires
        h >= 1,
    ensures
        poly_eval(power_minus_one(h), x) == pow(x, h) - 1,
{
    let base = Seq::new(
        h,
        |i: int|
            if i == 0 {
                -1int
            } else {
                0int
            },
    );
    assert(base.drop_first() =~= Seq::new((h - 1) as nat, |i: int| 0int));
    lemma_eval_zeros((h - 1) as nat, x);
    assert(x * 0 == 0) by (nonlinear_arith);
    lemma_eval_push(base, 1, x);
    lemma_mul_basics(pow(x, h));
}

/// An odd prime has a quadratic non-residue: some `b` in `[2, p)` whose
/// power `b^((p - 1) / 2)` is -1 modulo `p`.
pub proof fn lemma_non_residue_exists(p: int) -> (b: int)
    requires
        prime(p),
        p > 2,
    ensures
        2 <= b < p,
        euler_non_residue(b, p),
{
    let h = ((p - 1) / 2) as nat;
    if p % 2 == 0 {
        assert(p % 2 != 0);
    }
    if forall|x: int| 1 <= x < p ==> #[trigger] pow(x, h) % p == 1 {
        let c = power_minus_one(h);
        let roots = residues(p);
        assert forall|i: int| 0 <= i < roots.len() implies 0 <= #[trigger] roots[i] < p
            && poly_eval(c, roots[i]) % p == 0 by {
            let x = roots[i];
            lemma_eval_power_minus_one(h, x);
            assert(pow(x, h) % p == 1);
            lemma_one_less_is_multiple(pow(x, h), p);
        }
        lemma_small_mod(1, p as nat);
        lemma_root_bound(c, p, roots);
        assert(false);
    }
    let b = choose|x: int| 1 <= x < p && #[trigger] pow(x, h) % p != 1;
    lemma_small_mod(b as nat, p as nat);
    lemma_euler_power(b, p);
    if b == 1 {
        lemma1_pow(h);
        lemma_small_mod(1, p as nat);
    }
    b
}

/// Modulo a prime that is 1 modulo 4, the residue `p - 1` is a square by
/// Euler's criterion, so that a non-residue is found below it.
pub proof fn lemma_non_residue_below(p: int)
    requires
        prime(p),
        p % 4 == 1,
    ensures
        has_non_residue_below(p - 1, p),
        has_non_residue_below(p, p),
{
    let h = ((p - 1) / 2) as nat;
    let b = lemma_non_residue_exists(p);
    if b == p - 1 {
        let k = h / 2;
        assert(h == 2 * k);
        lemma_pow_multiplies(p - 1, 2, k);
        lemma_square_is_pow2(p - 1);
        lemma_minus_one_squared(p);
        lemma_small_mod(1, p as nat);
        lemma_pow_congruent((p - 1) * (p - 1), 1, k, p);
        lemma1_pow(k);
        assert(false);
    }
    assert(2 <= b < p - 1 && euler_non_residue(b, p));
}

} // verus!
