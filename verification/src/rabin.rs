//! What Rabin's test rules out: a polynomial of degree at least 2 with a
//! root modulo a prime fails the test.

use crate::evaluation::{
    coefficients_of, lemma_eval_is_power_sum, lemma_eval_of_family, lemma_mul_mod_eval,
    lemma_power_sum_linear,
};
use crate::fermat::lemma_fermat;
use crate::gfpolynomial::{
    euclid_ends_in_unit, frobenius, gf_mul_mod, gf_power, gf_sub, lemma_common_root_is_found,
    lemma_eval_reduced, rabin_test, reduced,
};
use crate::polynomial::{coeff, lemma_mul_mod_len, monic, mul_mod_spec, poly_eval};
use crate::primes::{lemma_mul_congruent, lemma_pow_congruent, prime};
use crate::sqrt::inert;
use vstd::arithmetic::div_mod::*;
use vstd::arithmetic::mul::*;
use vstd::arithmetic::power::*;
use vstd::prelude::*;

verus! {

/// The constant 1 has the value 1, and `x` has the value `x`.
proof fn lemma_eval_one_and_x(x: int)
    ensures
        poly_eval(seq![1int], x) == 1,
        poly_eval(seq![0int, 1int], x) == x,
{
    let one = seq![1int];
    let id = seq![0int, 1int];
    assert(one.drop_first().len() == 0);
    assert(poly_eval(one.drop_first(), x) == 0);
    assert(poly_eval(one, x) == 1) by (nonlinear_arith)
        requires
            poly_eval(one, x) == one[0] + x * poly_eval(one.drop_first(), x),
            one[0] == 1,
            poly_eval(one.drop_first(), x) == 0,
    ;
    assert(id.drop_first() =~= one);
    assert(poly_eval(id, x) == x) by (nonlinear_arith)
        requires
            poly_eval(id, x) == id[0] + x * poly_eval(id.drop_first(), x),
            id[0] == 0,
            poly_eval(id.drop_first(), x) == 1,
    ;
}

/// `x^p = x` modulo a prime `p`.
pub proof fn lemma_power_of_prime(x: int, p: int)
    requires
        prime(p),
    ensures
        pow(x, p as nat) % p == x % p,
{
    let rest = pow(x, (p - 1) as nat);
    lemma_pow_adds(x, 1, (p - 1) as nat);
    lemma_pow1(x);
    assert(pow(x, p as nat) == x * rest);
    if x % p == 0 {
        lemma_small_mod(0, p as nat);
        lemma_mul_congruent(x, 0, rest, rest, p);
        lemma_mul_basics(rest);
    } else {
        lemma_fermat(x, p);
        lemma_small_mod(1, p as nat);
        lemma_mul_congruent(x, x, rest, 1, p);
        lemma_mul_basics(x);
    }
}

/// At a root of `f` modulo `p`, the value of a product modulo `f` and `p`
/// is the product of the values.
pub proof fn lemma_gf_mul_mod_eval(f: Seq<int>, u: Seq<int>, v: Seq<int>, p: int, x: int)
    requires
        monic(f),
        p > 0,
        poly_eval(f, x) % p == 0,
    ensures
        poly_eval(gf_mul_mod(f, u, v, p), x) % p == (poly_eval(u, x) * poly_eval(v, x)) % p,
{
    let k = lemma_mul_mod_eval(f, u, v, x);
    lemma_eval_reduced(mul_mod_spec(f, u, v), p, x);
    let fx = poly_eval(f, x);
    let uv = poly_eval(u, x) * poly_eval(v, x);
    lemma_fundamental_div_mod(fx, p);
    let c = fx / p;
    assert(uv - k * fx == p * (-(k * c)) + uv) by (nonlinear_arith)
        requires
            fx == p * c,
    ;
    lemma_mod_multiples_vanish(-(k * c), uv, p);
}

/// At a root of `f` modulo `p`, the value of a power modulo `f` and `p` is
/// the power of the value.
pub proof fn lemma_gf_power_eval(f: Seq<int>, b: Seq<int>, e: nat, p: int, x: int)
    requires
        monic(f),
        p > 0,
        poly_eval(f, x) % p == 0,
    ensures
        poly_eval(gf_power(f, b, e, p), x) % p == pow(poly_eval(b, x), e) % p,
    decreases e,
{
    let bx = poly_eval(b, x);
    if e == 0 {
        lemma_gf_mul_mod_eval(f, seq![1int], seq![1int], p, x);
        lemma_eval_one_and_x(x);
        lemma_pow0(bx);
    } else {
        let half = (e / 2) as nat;
        let h = gf_power(f, b, half, p);
        let sq = gf_mul_mod(f, h, h, p);
        lemma_gf_power_eval(f, b, half, p, x);
        lemma_gf_mul_mod_eval(f, h, h, p, x);
        lemma_mul_congruent(poly_eval(h, x), pow(bx, half), poly_eval(h, x), pow(bx, half), p);
        lemma_pow_adds(bx, half, half);
        assert(poly_eval(sq, x) % p == pow(bx, half + half) % p);
        if e % 2 == 1 {
            lemma_gf_mul_mod_eval(f, sq, b, p, x);
            lemma_mul_congruent(poly_eval(sq, x), pow(bx, half + half), bx, bx, p);
            lemma_pow_adds(bx, half + half, 1);
            lemma_pow1(bx);
            assert(half + half + 1 == e);
        } else {
            assert(half + half == e);
        }
    }
}

/// The value of a difference modulo `p` is the difference of the values.
pub proof fn lemma_gf_sub_eval(a: Seq<int>, b: Seq<int>, p: int, x: int)
    requires
        p > 0,
        a.len() == b.len(),
    ensures
        poly_eval(gf_sub(a, b, p), x) % p == (poly_eval(a, x) - poly_eval(b, x)) % p,
{
    let n = a.len();
    let h = |k: int| a[k] + p - coeff(b, k);
    let raw = Seq::new(n, h);
    let ones = |k: int| 1int;
    let lifted = |k: int| coeff(a, k) + p;
    assert(gf_sub(a, b, p) =~= reduced(raw, p));
    lemma_eval_reduced(raw, p, x);
    lemma_eval_of_family(h, n, x);
    assert forall|k: int| 0 <= k < n implies #[trigger] lifted(k) == coefficients_of(a)(k) + p
        * ones(k) by {
        lemma_mul_basics(p);
    }
    lemma_power_sum_linear(coefficients_of(a), ones, p, lifted, n, x);
    assert forall|k: int| 0 <= k < n implies #[trigger] h(k) == lifted(k) + (-1) * coefficients_of(
        b,
    )(k) by {}
    lemma_power_sum_linear(lifted, coefficients_of(b), -1, h, n, x);
    lemma_eval_is_power_sum(a, x);
    lemma_eval_is_power_sum(b, x);
    let s = crate::evaluation::power_sum(ones, n, x);
    assert(poly_eval(raw, x) == p * s + (poly_eval(a, x) - poly_eval(b, x)));
    lemma_mod_multiples_vanish(s, poly_eval(a, x) - poly_eval(b, x), p);
}

/// Rabin's test rejects a monic polynomial of degree at least 2 that has a
/// root modulo the prime `p`: the root is a root of `x^p - x` too, so that
/// Euclid's algorithm on the two does not end with a constant.
pub proof fn lemma_rabin_rejects_a_root(f: Seq<int>, p: int, x: int)
    requires
        prime(p),
        monic(f),
        f.len() >= 3,
        poly_eval(f, x) % p == 0,
    ensures
        !rabin_test(f, p),
{
    let d = (f.len() - 1) as nat;
    let x0 = frobenius(f, 0, p);
    let x1 = frobenius(f, 1, p);
    assert(x1 == gf_power(f, x0, p as nat, p));
    lemma_eval_one_and_x(x);
    lemma_gf_mul_mod_eval(f, seq![0int, 1int], seq![1int], p, x);
    lemma_mul_basics(x);
    assert(poly_eval(x0, x) % p == x % p);
    lemma_gf_power_eval(f, x0, p as nat, p, x);
    lemma_pow_congruent(poly_eval(x0, x), x, p as nat, p);
    lemma_power_of_prime(x, p);
    assert(poly_eval(x1, x) % p == x % p);
    lemma_mul_mod_len(f, seq![0int, 1int], seq![1int]);
    let h = gf_power(f, x0, (p as nat / 2) as nat, p);
    let sq = gf_mul_mod(f, h, h, p);
    lemma_mul_mod_len(f, h, h);
    lemma_mul_mod_len(f, sq, x0);
    assert(x0.len() == d);
    assert(x1.len() == d);
    let diff = gf_sub(x1, x0, p);
    lemma_gf_sub_eval(x1, x0, p, x);
    lemma_sub_mod_noop(poly_eval(x1, x), poly_eval(x0, x), p);
    lemma_small_mod(0, p as nat);
    assert(poly_eval(diff, x) % p == 0);
    lemma_common_root_is_found(f, diff, p, x);
    assert(d % 1 == 0);
    assert(!euclid_ends_in_unit(f, gf_sub(frobenius(f, 1int as nat, p), frobenius(f, 0, p), p), p));
}

/// A polynomial of degree at least 2 that is inert at the prime `p` has no
/// root modulo `p`.
pub proof fn lemma_inert_has_no_root(f: Seq<int>, p: int, x: int)
    requires
        prime(p),
        monic(f),
        f.len() >= 3,
        inert(f, p),
    ensures
        poly_eval(f, x) % p != 0,
{
    let g = reduced(f, p);
    lemma_small_mod(1, p as nat);
    assert(monic(g));
    lemma_eval_reduced(f, p, x);
    if poly_eval(f, x) % p == 0 {
        lemma_rabin_rejects_a_root(g, p, x);
    }
}

} // verus!
