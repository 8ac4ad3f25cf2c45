//! Euclid's algorithm modulo a prime finds common factors: it ends with a
//! constant that is not zero exactly if no monic polynomial of positive
//! degree divides both polynomials.

use crate::gfpolynomial::{
    euclid_ends_in_unit, frobenius, gf_mul_mod, gf_sub, is_zero, lemma_remainder_is_shorter,
    lemma_zero_above_degree, rabin_test, scaled,
};
use crate::nt::{lemma_inverse_by_power, pow_mod};
use crate::polynomial::{
    coeff, conv, degree_spec, monic, mul_mod_spec, one_less, padded, poly_mul, poly_rem,
    reduce_top,
};
use crate::primes::{lemma_mul_congruent, prime};
use vstd::arithmetic::div_mod::*;
use vstd::arithmetic::mul::*;
use vstd::prelude::*;

verus! {

/// Every coefficient is a multiple of `p`.
pub open spec fn vanishes(c: Seq<int>, p: int) -> bool {
    forall|k: int| 0 <= k < c.len() ==> #[trigger] c[k] % p == 0
}

/// The monic `g` divides `c` modulo `p`: the remainder of `c` on division
/// by `g` vanishes modulo `p`.
pub open spec fn divides(g: Seq<int>, c: Seq<int>, p: int) -> bool {
    vanishes(poly_rem(c, g), p)
}

/// `g` is monic of positive degree and divides both `a` and `b` modulo `p`.
pub open spec fn is_common_factor(g: Seq<int>, a: Seq<int>, b: Seq<int>, p: int) -> bool {
    monic(g) && g.len() >= 2 && divides(g, a, p) && divides(g, b, p)
}

/// Some monic polynomial of positive degree divides both `a` and `b` modulo
/// `p`.
pub open spec fn common_factor(a: Seq<int>, b: Seq<int>, p: int) -> bool {
    exists|g: Seq<int>| is_common_factor(g, a, b, p)
}

/// `a` and `b` have no common factor modulo `p`: no monic polynomial of
/// positive degree divides both.
pub open spec fn coprime(a: Seq<int>, b: Seq<int>, p: int) -> bool {
    !common_factor(a, b, p)
}

/// Rabin's condition for the monic `f` of degree `d` modulo `p`:
/// `x^(p^d) = x` modulo `f`, and `f` has no factor in common with
/// `x^(p^i) - x` for any proper divisor `i` of `d`.
pub open spec fn rabin_condition(f: Seq<int>, p: int) -> bool {
    let d = (f.len() - 1) as nat;
    &&& frobenius(f, d, p) == frobenius(f, 0, p)
    &&& forall|i: int|
        1 <= i < d && d % (i as nat) == 0 ==> #[trigger] coprime(
            f,
            gf_sub(frobenius(f, i as nat, p), frobenius(f, 0, p), p),
            p,
        )
}

/// The two have the same length and congruent coefficients.
pub open spec fn congruent(u: Seq<int>, v: Seq<int>, p: int) -> bool {
    u.len() == v.len() && forall|k: int| 0 <= k < u.len() ==> #[trigger] u[k] % p == v[k] % p
}

/// `w = u + t v`, coefficient by coefficient.
pub open spec fn combination(w: Seq<int>, u: Seq<int>, t: int, v: Seq<int>) -> bool {
    w.len() == u.len() && w.len() == v.len() && forall|k: int|
        0 <= k < w.len() ==> #[trigger] w[k] == u[k] + t * v[k]
}

/// `x - t c` changes by a multiple of `p` where `x` and `t` do.
proof fn lemma_linear_congruent(x: int, x2: int, t: int, t2: int, c: int, p: int)
    requires
        p > 0,
        x % p == x2 % p,
        t % p == t2 % p,
    ensures
        (x - t * c) % p == (x2 - t2 * c) % p,
{
    lemma_mul_congruent(t, t2, c, c, p);
    lemma_sub_mod_noop(x, t * c, p);
    lemma_sub_mod_noop(x2, t2 * c, p);
}

/// Congruent dividends have congruent remainders.
pub proof fn lemma_rem_congruent(u: Seq<int>, v: Seq<int>, g: Seq<int>, p: int)
    requires
        p > 0,
        congruent(u, v, p),
    ensures
        congruent(poly_rem(u, g), poly_rem(v, g), p),
    decreases u.len(),
{
    if g.len() != 0 && u.len() >= g.len() {
        let u1 = reduce_top(u, g);
        let v1 = reduce_top(v, g);
        assert forall|k: int| 0 <= k < u1.len() implies #[trigger] u1[k] % p == v1[k] % p by {
            lemma_linear_congruent(
                u[k],
                v[k],
                u[u.len() - 1],
                v[v.len() - 1],
                coeff(g, k - (u.len() - g.len())),
                p,
            );
        }
        lemma_rem_congruent(u1, v1, g, p);
    }
}

/// The remainder of a combination is the combination of the remainders.
pub proof fn lemma_rem_combination(w: Seq<int>, u: Seq<int>, t: int, v: Seq<int>, g: Seq<int>)
    requires
        combination(w, u, t, v),
    ensures
        combination(poly_rem(w, g), poly_rem(u, g), t, poly_rem(v, g)),
    decreases w.len(),
{
    if g.len() != 0 && w.len() >= g.len() {
        let w1 = reduce_top(w, g);
        let u1 = reduce_top(u, g);
        let v1 = reduce_top(v, g);
        let n = w.len();
        assert forall|k: int| 0 <= k < w1.len() implies #[trigger] w1[k] == u1[k] + t * v1[k] by {
            let c = coeff(g, k - (n - g.len()));
            assert(w[k] == u[k] + t * v[k]);
            assert(w[n - 1] == u[n - 1] + t * v[n - 1]);
            assert((u[k] + t * v[k]) - (u[n - 1] + t * v[n - 1]) * c == (u[k] - u[n - 1] * c) + t
                * (v[k] - v[n - 1] * c)) by (nonlinear_arith);
        }
        lemma_rem_combination(w1, u1, t, v1, g);
    }
}

/// What vanishes has a remainder that vanishes.
pub proof fn lemma_rem_of_vanishing(u: Seq<int>, g: Seq<int>, p: int)
    requires
        p > 0,
        vanishes(u, p),
    ensures
        vanishes(poly_rem(u, g), p),
{
    let z = Seq::new(u.len(), |k: int| 0int);
    assert forall|k: int| 0 <= k < u.len() implies #[trigger] u[k] % p == z[k] % p by {
        lemma_small_mod(0, p as nat);
    }
    lemma_rem_congruent(u, z, g, p);
    lemma_rem_of_zeros(z, g);
    assert forall|k: int| 0 <= k < poly_rem(u, g).len() implies #[trigger] poly_rem(u, g)[k] % p
        == 0 by {
        assert(poly_rem(z, g)[k] == 0);
        lemma_small_mod(0, p as nat);
    }
}

/// The remainder of zero is zero.
pub proof fn lemma_rem_of_zeros(z: Seq<int>, g: Seq<int>)
    requires
        forall|k: int| 0 <= k < z.len() ==> #[trigger] z[k] == 0,
    ensures
        forall|k: int| 0 <= k < poly_rem(z, g).len() ==> #[trigger] poly_rem(z, g)[k] == 0,
    decreases z.len(),
{
    if g.len() != 0 && z.len() >= g.len() {
        let z1 = reduce_top(z, g);
        assert forall|k: int| 0 <= k < z1.len() implies #[trigger] z1[k] == 0 by {
            assert(z[k] == 0);
            assert(z[z.len() - 1] == 0);
            lemma_mul_basics(coeff(g, k - (z.len() - g.len())));
        }
        lemma_rem_of_zeros(z1, g);
        assert(poly_rem(z, g) == poly_rem(z1, g));
    } else {
        assert(poly_rem(z, g) == z);
        assert forall|k: int| 0 <= k < poly_rem(z, g).len() implies #[trigger] poly_rem(z, g)[k]
            == 0 by {
            assert(z[k] == 0);
        }
    }
}

/// A zero at the top does not change whether `g` divides.
pub proof fn lemma_divides_push_zero(u: Seq<int>, g: Seq<int>, p: int)
    requires
        p > 0,
        monic(g),
    ensures
        divides(g, u.push(0), p) == divides(g, u, p),
{
    let w = u.push(0);
    lemma_small_mod(0, p as nat);
    if w.len() >= g.len() {
        let w1 = reduce_top(w, g);
        assert forall|k: int| 0 <= k < w1.len() implies #[trigger] w1[k] == u[k] by {
            lemma_mul_basics(coeff(g, k - (w.len() - g.len())));
        }
        assert(w1 =~= u);
    } else {
        assert(poly_rem(w, g) == w);
        assert(poly_rem(u, g) == u);
        if vanishes(w, p) {
            assert forall|k: int| 0 <= k < u.len() implies #[trigger] u[k] % p == 0 by {
                assert(w[k] % p == 0);
            }
        }
        if vanishes(u, p) {
            assert forall|k: int| 0 <= k < w.len() implies #[trigger] w[k] % p == 0 by {
                if k < u.len() {
                    assert(u[k] % p == 0);
                }
            }
        }
    }
}

/// Zeros at the top do not change whether `g` divides.
pub proof fn lemma_divides_padded(u: Seq<int>, n: nat, g: Seq<int>, p: int)
    requires
        p > 0,
        monic(g),
    ensures
        divides(g, padded(u, n), p) == divides(g, u, p),
    decreases n,
{
    if n <= u.len() {
        assert(padded(u, n) =~= u);
    } else {
        let shorter = padded(u, (n - 1) as nat);
        lemma_divides_padded(u, (n - 1) as nat, g, p);
        assert(padded(u, n) =~= shorter.push(0));
        lemma_divides_push_zero(shorter, g, p);
    }
}

/// `u` moved up by one place: `x u`.
pub open spec fn shifted(u: Seq<int>) -> Seq<int> {
    seq![0int] + u
}

/// `u` moved up by `s` places: `x^s u`.
pub open spec fn shifted_by(u: Seq<int>, s: nat) -> Seq<int> {
    Seq::new(s, |k: int| 0int) + u
}

/// What `g` divides, it divides when moved up by one place.
pub proof fn lemma_divides_shifted(u: Seq<int>, g: Seq<int>, p: int)
    requires
        p > 0,
        monic(g),
        g.len() >= 2,
        divides(g, u, p),
    ensures
        divides(g, shifted(u), p),
    decreases u.len(),
{
    let w = shifted(u);
    let n = u.len();
    lemma_small_mod(0, p as nat);
    if n >= g.len() {
        let u1 = reduce_top(u, g);
        let w1 = reduce_top(w, g);
        assert forall|k: int| 0 <= k < w1.len() implies #[trigger] w1[k] == shifted(u1)[k] by {
            if k == 0 {
                lemma_mul_basics(u[n - 1]);
            }
        }
        assert(w1 =~= shifted(u1));
        lemma_divides_shifted(u1, g, p);
    } else {
        assert(poly_rem(u, g) == u);
        if n + 1 < g.len() {
            assert(poly_rem(w, g) == w);
            assert forall|k: int| 0 <= k < w.len() implies #[trigger] w[k] % p == 0 by {
                if k > 0 {
                    assert(u[k - 1] % p == 0);
                }
            }
        } else {
            let w1 = reduce_top(w, g);
            assert(poly_rem(w1, g) == w1);
            assert forall|k: int| 0 <= k < w1.len() implies #[trigger] w1[k] % p == 0 by {
                assert(u[n - 1] % p == 0);
                if k > 0 {
                    assert(u[k - 1] % p == 0);
                }
                lemma_linear_congruent(w[k], 0, u[n - 1], 0, coeff(g, k), p);
                lemma_mul_basics(coeff(g, k));
            }
        }
    }
}

/// What `g` divides, it divides when moved up by any number of places.
pub proof fn lemma_divides_shifted_by(u: Seq<int>, s: nat, g: Seq<int>, p: int)
    requires
        p > 0,
        monic(g),
        g.len() >= 2,
        divides(g, u, p),
    ensures
        divides(g, shifted_by(u, s), p),
    decreases s,
{
    if s == 0 {
        assert(shifted_by(u, 0) =~= u);
    } else {
        lemma_divides_shifted_by(u, (s - 1) as nat, g, p);
        assert(shifted_by(u, s) =~= shifted(shifted_by(u, (s - 1) as nat)));
        lemma_divides_shifted(shifted_by(u, (s - 1) as nat), g, p);
    }
}

/// Where `g` divides the monic `f`, it divides `c` exactly if it divides
/// what one step of the division by `f` leaves of `c`.
pub proof fn lemma_divides_reduce_top(c: Seq<int>, f: Seq<int>, g: Seq<int>, p: int)
    requires
        p > 0,
        monic(g),
        g.len() >= 2,
        monic(f),
        c.len() >= f.len(),
        divides(g, f, p),
    ensures
        divides(g, c, p) == divides(g, reduce_top(c, f), p),
{
    let n = c.len();
    let s = (n - f.len()) as nat;
    let t = c[n - 1];
    let u = reduce_top(c, f).push(0);
    let v = shifted_by(f, s);
    assert forall|k: int| 0 <= k < n implies #[trigger] c[k] == u[k] + t * v[k] by {
        if k < n - 1 {
            if k >= s {
                assert(v[k] == f[k - s]);
            } else {
                assert(v[k] == 0);
                lemma_mul_basics(t);
            }
            assert(u[k] == c[k] - t * coeff(f, k - s));
            assert(c[k] - t * coeff(f, k - s) + t * coeff(f, k - s) == c[k]);
        } else {
            assert(v[k] == f[f.len() - 1]);
            lemma_mul_basics(t);
        }
    }
    assert(combination(c, u, t, v));
    lemma_rem_combination(c, u, t, v, g);
    lemma_divides_shifted_by(f, s, g, p);
    lemma_divides_push_zero(reduce_top(c, f), g, p);
    let rc = poly_rem(c, g);
    let ru = poly_rem(u, g);
    let rv = poly_rem(v, g);
    assert forall|k: int| 0 <= k < rc.len() implies (#[trigger] rc[k] % p == 0) == (ru[k] % p
        == 0) by {
        assert(rv[k] % p == 0);
        assert(rc[k] == ru[k] + t * rv[k]);
        lemma_linear_congruent(ru[k], ru[k], -t, -t, rv[k], p);
        lemma_linear_congruent(ru[k], ru[k], -t, -t, 0, p);
        lemma_mul_congruent(-t, -t, rv[k], 0, p);
        lemma_small_mod(0, p as nat);
        assert(ru[k] - (-t) * rv[k] == ru[k] + t * rv[k]) by (nonlinear_arith);
        assert(ru[k] - (-t) * 0 == ru[k]) by (nonlinear_arith);
        lemma_sub_mod_noop(ru[k], (-t) * rv[k], p);
        lemma_sub_mod_noop(ru[k], (-t) * 0, p);
        lemma_mul_basics(-t);
    }
    assert(vanishes(rc, p) == vanishes(ru, p)) by {
        if vanishes(rc, p) {
            assert forall|k: int| 0 <= k < ru.len() implies #[trigger] ru[k] % p == 0 by {
                assert(rc[k] % p == 0);
            }
        }
        if vanishes(ru, p) {
            assert forall|k: int| 0 <= k < rc.len() implies #[trigger] rc[k] % p == 0 by {
                assert(ru[k] % p == 0);
            }
        }
    }
}

/// Where `g` divides the monic `f`, it divides `c` exactly if it divides
/// the remainder of `c` on division by `f`.
pub proof fn lemma_divides_remainder(c: Seq<int>, f: Seq<int>, g: Seq<int>, p: int)
    requires
        p > 0,
        monic(g),
        g.len() >= 2,
        monic(f),
        divides(g, f, p),
    ensures
        divides(g, c, p) == divides(g, poly_rem(c, f), p),
    decreases c.len(),
{
    if c.len() >= f.len() {
        lemma_divides_reduce_top(c, f, g, p);
        lemma_divides_remainder(reduce_top(c, f), f, g, p);
    }
}

/// Congruent polynomials vanish together.
proof fn lemma_congruent_vanish(u: Seq<int>, v: Seq<int>, p: int)
    requires
        congruent(u, v, p),
    ensures
        vanishes(u, p) == vanishes(v, p),
{
    if vanishes(u, p) {
        assert forall|k: int| 0 <= k < v.len() implies #[trigger] v[k] % p == 0 by {
            assert(u[k] % p == 0);
        }
    }
    if vanishes(v, p) {
        assert forall|k: int| 0 <= k < u.len() implies #[trigger] u[k] % p == 0 by {
            assert(v[k] % p == 0);
        }
    }
}

/// `g` divides congruent polynomials together.
pub proof fn lemma_divides_congruent(u: Seq<int>, v: Seq<int>, g: Seq<int>, p: int)
    requires
        p > 0,
        congruent(u, v, p),
    ensures
        divides(g, u, p) == divides(g, v, p),
{
    lemma_rem_congruent(u, v, g, p);
    lemma_congruent_vanish(poly_rem(u, g), poly_rem(v, g), p);
}

/// What `g` divides, it divides when multiplied by a number.
pub proof fn lemma_divides_multiple(u: Seq<int>, t: int, w: Seq<int>, g: Seq<int>, p: int)
    requires
        p > 0,
        w.len() == u.len(),
        forall|k: int| 0 <= k < u.len() ==> #[trigger] w[k] == t * u[k],
        divides(g, u, p),
    ensures
        divides(g, w, p),
{
    let z = Seq::new(u.len(), |k: int| 0int);
    assert(combination(w, z, t, u));
    lemma_rem_combination(w, z, t, u, g);
    lemma_rem_of_zeros(z, g);
    let rw = poly_rem(w, g);
    let ru = poly_rem(u, g);
    assert forall|k: int| 0 <= k < rw.len() implies #[trigger] rw[k] % p == 0 by {
        assert(poly_rem(z, g)[k] == 0);
        assert(ru[k] % p == 0);
        assert(rw[k] == t * ru[k]);
        lemma_small_mod(0, p as nat);
        lemma_mul_congruent(t, t, ru[k], 0, p);
        lemma_mul_basics(t);
    }
}

/// The first `n` terms of coefficient `k` of the product with the constant
/// 1 are coefficient `k`, where it is among them.
proof fn lemma_conv_one(a: Seq<int>, k: int, n: nat)
    ensures
        conv(a, seq![1int], k, n) == (if 0 <= k < n {
            coeff(a, k)
        } else {
            0
        }),
    decreases n,
{
    if n > 0 {
        lemma_conv_one(a, k, (n - 1) as nat);
        let one = seq![1int];
        if k == n - 1 {
            assert(coeff(one, k - (n - 1)) == 1);
            lemma_mul_basics(coeff(a, n - 1));
        } else {
            assert(coeff(one, k - (n - 1)) == 0);
            lemma_mul_basics(coeff(a, n - 1));
        }
    }
}

/// Where `g` divides the monic `bm`, it divides `a` exactly if it divides
/// the remainder of `a` on division by `bm`, taken modulo `p`.
pub proof fn lemma_divides_step(a: Seq<int>, bm: Seq<int>, g: Seq<int>, p: int)
    requires
        p > 0,
        monic(g),
        g.len() >= 2,
        monic(bm),
        divides(g, bm, p),
    ensures
        divides(g, gf_mul_mod(bm, a, seq![1int], p), p) == divides(g, a, p),
{
    let one = seq![1int];
    let product = poly_mul(a, one);
    let mm = mul_mod_spec(bm, a, one);
    let r = gf_mul_mod(bm, a, one, p);
    assert forall|k: int| 0 <= k < r.len() implies #[trigger] r[k] % p == mm[k] % p by {
        lemma_mod_twice(mm[k], p);
    }
    assert(congruent(r, mm, p));
    lemma_divides_congruent(r, mm, g, p);
    lemma_divides_padded(poly_rem(product, bm), one_less(bm.len()), g, p);
    lemma_divides_remainder(product, bm, g, p);
    assert forall|k: int| 0 <= k < product.len() implies #[trigger] product[k] == a.push(0)[k] by {
        lemma_conv_one(a, k, a.len());
    }
    assert(product =~= a.push(0));
    lemma_divides_push_zero(a, g, p);
}

/// Every coefficient lies in `[0, p)`.
pub open spec fn in_range(c: Seq<int>, p: int) -> bool {
    forall|k: int| 0 <= k < c.len() ==> 0 <= #[trigger] c[k] < p
}

/// A polynomial that is not zero has a leading coefficient that is not
/// zero.
pub proof fn lemma_leading_coefficient(c: Seq<int>)
    requires
        !is_zero(c),
    ensures
        degree_spec(c) < c.len(),
        c[degree_spec(c) as int] != 0,
    decreases c.len(),
{
    if c.len() > 0 && c[c.len() - 1] == 0 {
        let rest = c.drop_last();
        if is_zero(rest) {
            assert forall|k: int| 0 <= k < c.len() implies #[trigger] c[k] == 0 by {
                if k < rest.len() {
                    assert(rest[k] == 0);
                }
            }
        }
        lemma_leading_coefficient(rest);
    }
}

/// Modulo a prime, the monic associate of a polynomial that is not zero is
/// monic, and `g` divides the two together.
pub proof fn lemma_divides_scaled(b: Seq<int>, g: Seq<int>, p: int)
    requires
        prime(p),
        in_range(b, p),
        !is_zero(b),
    ensures
        monic(scaled(b, p)),
        monic(g) ==> divides(g, scaled(b, p), p) == divides(g, b, p),
{
    let d = degree_spec(b);
    lemma_leading_coefficient(b);
    lemma_zero_above_degree(b);
    let lc = b[d as int];
    let inv = pow_mod(lc, (p - 2) as nat, p);
    lemma_small_mod(lc as nat, p as nat);
    lemma_inverse_by_power(lc, p);
    let n = (d + 1) as nat;
    let trunc = b.take(n as int);
    let raw = Seq::new(n, |k: int| inv * b[k]);
    let back = Seq::new(n, |k: int| lc * raw[k]);
    let sc = scaled(b, p);
    assert forall|k: int| 0 <= k < n implies #[trigger] sc[k] % p == raw[k] % p by {
        assert(b[k] * inv == inv * b[k]) by (nonlinear_arith);
        lemma_mod_twice(raw[k], p);
    }
    assert(congruent(sc, raw, p));
    assert(sc[d as int] == (lc * inv) % p);
    if monic(g) {
        lemma_divides_congruent(sc, raw, g, p);
        assert(b =~= padded(trunc, b.len()));
        lemma_divides_padded(trunc, b.len(), g, p);
        assert forall|k: int| 0 <= k < n implies #[trigger] trunc[k] % p == back[k] % p by {
            assert(lc * (inv * b[k]) == (lc * inv) * b[k]) by (nonlinear_arith);
            lemma_mul_mod_noop_left(lc * inv, b[k], p);
            lemma_mul_basics(b[k]);
        }
        assert(congruent(trunc, back, p));
        lemma_divides_congruent(trunc, back, g, p);
        if divides(g, trunc, p) {
            lemma_divides_multiple(trunc, inv, raw, g, p);
        }
        if divides(g, raw, p) {
            lemma_divides_multiple(raw, lc, back, g, p);
        }
    }
}

/// Modulo a prime, Euclid's algorithm on the monic `a` and `b` ends with a
/// constant that is not zero exactly if no monic polynomial of positive
/// degree divides both.
pub proof fn lemma_euclid_finds_common_factors(a: Seq<int>, b: Seq<int>, p: int)
    requires
        prime(p),
        monic(a),
        in_range(b, p),
    ensures
        euclid_ends_in_unit(a, b, p) == !common_factor(a, b, p),
    decreases b.len(),
{
    lemma_small_mod(0, p as nat);
    lemma_small_mod(1, p as nat);
    if is_zero(b) {
        assert(vanishes(b, p));
        if degree_spec(a) == 0 {
            assert(a.len() == 1);
            assert forall|g: Seq<int>| !is_common_factor(g, a, b, p) by {
                if monic(g) && g.len() >= 2 {
                    assert(poly_rem(a, g) == a);
                    assert(a[0] % p != 0);
                }
            }
        } else {
            assert(a.len() >= 2);
            let z = reduce_top(a, a);
            assert forall|k: int| 0 <= k < z.len() implies #[trigger] z[k] == 0 by {
                lemma_mul_basics(coeff(a, k));
            }
            lemma_rem_of_zeros(z, a);
            assert(poly_rem(a, a) == poly_rem(z, a));
            assert forall|k: int| 0 <= k < poly_rem(a, a).len() implies #[trigger] poly_rem(
                a,
                a,
            )[k] % p == 0 by {
                assert(poly_rem(z, a)[k] == 0);
            }
            lemma_rem_of_vanishing(b, a, p);
            assert(is_common_factor(a, a, b, p));
        }
    } else {
        let bm = scaled(b, p);
        let r = gf_mul_mod(bm, a, seq![1int], p);
        lemma_divides_scaled(b, a, p);
        lemma_remainder_is_shorter(a, b, p);
        assert forall|k: int| 0 <= k < r.len() implies 0 <= #[trigger] r[k] < p by {
            lemma_mod_bound(mul_mod_spec(bm, a, seq![1int])[k], p);
        }
        lemma_euclid_finds_common_factors(bm, r, p);
        assert forall|g: Seq<int>| is_common_factor(g, a, b, p) == is_common_factor(
            g,
            bm,
            r,
            p,
        ) by {
            if monic(g) && g.len() >= 2 {
                lemma_divides_scaled(b, g, p);
                if divides(g, bm, p) {
                    lemma_divides_step(a, bm, g, p);
                }
            }
        }
        if common_factor(a, b, p) {
            let g = choose|g: Seq<int>| is_common_factor(g, a, b, p);
            assert(is_common_factor(g, bm, r, p));
        }
        if common_factor(bm, r, p) {
            let g = choose|g: Seq<int>| is_common_factor(g, bm, r, p);
            assert(is_common_factor(g, a, b, p));
        }
    }
}

/// Modulo a prime, Rabin's test decides Rabin's condition.
pub proof fn lemma_rabin_test_decides(f: Seq<int>, p: int)
    requires
        prime(p),
        monic(f),
    ensures
        rabin_test(f, p) == rabin_condition(f, p),
{
    let d = (f.len() - 1) as nat;
    let x0 = frobenius(f, 0, p);
    assert forall|i: int| 1 <= i < d implies euclid_ends_in_unit(
        f,
        #[trigger] gf_sub(frobenius(f, i as nat, p), x0, p),
        p,
    ) == coprime(f, gf_sub(frobenius(f, i as nat, p), x0, p), p) by {
        let diff = gf_sub(frobenius(f, i as nat, p), x0, p);
        assert forall|k: int| 0 <= k < diff.len() implies 0 <= #[trigger] diff[k] < p by {
            lemma_mod_bound(frobenius(f, i as nat, p)[k] + p - coeff(x0, k), p);
        }
        lemma_euclid_finds_common_factors(f, diff, p);
    }
    if rabin_test(f, p) {
        assert forall|i: int| 1 <= i < d && d % (i as nat) == 0 implies #[trigger] coprime(
            f,
            gf_sub(frobenius(f, i as nat, p), x0, p),
            p,
        ) by {
            assert(euclid_ends_in_unit(f, gf_sub(frobenius(f, i as nat, p), x0, p), p));
        }
    }
    if rabin_condition(f, p) {
        assert forall|i: int|
            1 <= i < d && d % (i as nat) == 0 implies #[trigger] euclid_ends_in_unit(
            f,
            gf_sub(frobenius(f, i as nat, p), x0, p),
            p,
        ) by {
            assert(coprime(f, gf_sub(frobenius(f, i as nat, p), x0, p), p));
        }
    }
}

} // verus!
