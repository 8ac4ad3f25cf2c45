//! Evaluation respects products: the value of a product of polynomials
//! modulo a monic `f` is the product of the values, modulo the value of `f`.

use crate::polynomial::{
    coeff, conv, lemma_eval_push, monic, mul_mod_spec, one_less, padded, poly_eval, poly_mul,
    poly_rem, reduce_top,
};
use vstd::arithmetic::div_mod::*;
use vstd::arithmetic::mul::*;
use vstd::arithmetic::power::*;
use vstd::prelude::*;

verus! {

/// The sum of `g(k) x^k` over `k < n`.
pub open spec fn power_sum(g: spec_fn(int) -> int, n: nat, x: int) -> int
    decreases n,
{
    if n == 0 {
        0
    } else {
        power_sum(g, (n - 1) as nat, x) + g(n - 1) * pow(x, (n - 1) as nat)
    }
}

/// The coefficients of `c` as a family, zero beyond them.
pub open spec fn coefficients_of(c: Seq<int>) -> spec_fn(int) -> int {
    |k: int| coeff(c, k)
}

/// Sums of termwise equal families are equal.
pub proof fn lemma_power_sum_congruent(
    g: spec_fn(int) -> int,
    h: spec_fn(int) -> int,
    n: nat,
    x: int,
)
    requires
        forall|k: int| 0 <= k < n ==> #[trigger] g(k) == h(k),
    ensures
        power_sum(g, n, x) == power_sum(h, n, x),
    decreases n,
{
    if n > 0 {
        lemma_power_sum_congruent(g, h, (n - 1) as nat, x);
    }
}

/// Terms that are zero from `m` on add nothing.
pub proof fn lemma_power_sum_zero_tail(g: spec_fn(int) -> int, m: nat, n: nat, x: int)
    requires
        m <= n,
        forall|k: int| m <= k < n ==> #[trigger] g(k) == 0,
    ensures
        power_sum(g, n, x) == power_sum(g, m, x),
    decreases n,
{
    if m < n {
        lemma_power_sum_zero_tail(g, m, (n - 1) as nat, x);
        assert(g(n - 1) == 0);
        lemma_mul_basics(pow(x, (n - 1) as nat));
    }
}

/// The sum of `g + t h` is the sum of `g` plus `t` times the sum of `h`.
pub proof fn lemma_power_sum_linear(
    g: spec_fn(int) -> int,
    h: spec_fn(int) -> int,
    t: int,
    both: spec_fn(int) -> int,
    n: nat,
    x: int,
)
    requires
        forall|k: int| 0 <= k < n ==> #[trigger] both(k) == g(k) + t * h(k),
    ensures
        power_sum(both, n, x) == power_sum(g, n, x) + t * power_sum(h, n, x),
    decreases n,
{
    if n == 0 {
        lemma_mul_basics(t);
    } else {
        let m = (n - 1) as nat;
        lemma_power_sum_linear(g, h, t, both, m, x);
        let w = pow(x, m);
        assert(both(n - 1) == g(n - 1) + t * h(n - 1));
        assert((g(n - 1) + t * h(n - 1)) * w + t * power_sum(h, m, x) == g(n - 1) * w + t * (
        power_sum(h, m, x) + h(n - 1) * w)) by (nonlinear_arith);
    }
}

/// Moving the terms up by `s` places multiplies the sum by `x^s`.
pub proof fn lemma_power_sum_shift(
    g: spec_fn(int) -> int,
    s: nat,
    moved: spec_fn(int) -> int,
    n: nat,
    x: int,
)
    requires
        s <= n,
        forall|k: int|
            0 <= k < n ==> #[trigger] moved(k) == (if k >= s {
                g(k - s)
            } else {
                0
            }),
    ensures
        power_sum(moved, n, x) == pow(x, s) * power_sum(g, (n - s) as nat, x),
    decreases n,
{
    if n == s {
        lemma_power_sum_zero_tail(moved, 0, n, x);
        lemma_mul_basics(pow(x, s));
    } else {
        let m = (n - 1) as nat;
        lemma_power_sum_shift(g, s, moved, m, x);
        assert(moved(n - 1) == g(n - 1 - s));
        lemma_pow_adds(x, s, (n - 1 - s) as nat);
        let a = pow(x, s);
        let b = pow(x, (n - 1 - s) as nat);
        let u = power_sum(g, (m - s) as nat, x);
        let v = g(n - 1 - s);
        assert(a * u + v * (a * b) == a * (u + v * b)) by (nonlinear_arith);
    }
}

/// The value of a polynomial is the sum of its terms.
pub proof fn lemma_eval_is_power_sum(c: Seq<int>, x: int)
    ensures
        poly_eval(c, x) == power_sum(coefficients_of(c), c.len(), x),
    decreases c.len(),
{
    if c.len() > 0 {
        let d = c.drop_last();
        lemma_eval_is_power_sum(d, x);
        assert(d.push(c[c.len() - 1]) =~= c);
        lemma_eval_push(d, c[c.len() - 1], x);
        assert forall|k: int| 0 <= k < d.len() implies #[trigger] coefficients_of(d)(k)
            == coefficients_of(c)(k) by {}
        lemma_power_sum_congruent(coefficients_of(d), coefficients_of(c), d.len(), x);
    }
}

/// The value of a sequence that is given by a family is the sum over the family.
pub proof fn lemma_eval_of_family(g: spec_fn(int) -> int, n: nat, x: int)
    ensures
        poly_eval(Seq::new(n, g), x) == power_sum(g, n, x),
{
    let c = Seq::new(n, g);
    lemma_eval_is_power_sum(c, x);
    assert forall|k: int| 0 <= k < n implies #[trigger] coefficients_of(c)(k) == g(k) by {}
    lemma_power_sum_congruent(coefficients_of(c), g, n, x);
}

/// The family of the first `n` terms of the coefficients of `a * b`.
pub open spec fn conv_family(a: Seq<int>, b: Seq<int>, n: nat) -> spec_fn(int) -> int {
    |k: int| conv(a, b, k, n)
}

/// The coefficients of `b` moved up by `s` places.
pub open spec fn moved_up(b: Seq<int>, s: int) -> spec_fn(int) -> int {
    |k: int| coeff(b, k - s)
}

proof fn lemma_conv_sum(a: Seq<int>, b: Seq<int>, n: nat, upto: nat, x: int)
    requires
        upto >= n + b.len(),
    ensures
        power_sum(conv_family(a, b, n), upto, x) == power_sum(coefficients_of(a), n, x)
            * poly_eval(b, x),
    decreases n,
{
    if n == 0 {
        lemma_power_sum_zero_tail(conv_family(a, b, 0), 0, upto, x);
        lemma_mul_basics(poly_eval(b, x));
    } else {
        let m = (n - 1) as nat;
        lemma_conv_sum(a, b, m, upto, x);
        let t = coeff(a, n - 1);
        let g = conv_family(a, b, m);
        let h = moved_up(b, n - 1);
        let both = conv_family(a, b, n);
        assert forall|k: int| 0 <= k < upto implies #[trigger] both(k) == g(k) + t * h(k) by {}
        lemma_power_sum_linear(g, h, t, both, upto, x);
        // the moved coefficients of b sum to x^(n - 1) b(x)
        let cb = coefficients_of(b);
        assert forall|k: int| 0 <= k < upto implies #[trigger] h(k) == (if k >= m {
            cb(k - m)
        } else {
            0
        }) by {}
        lemma_power_sum_shift(cb, m, h, upto, x);
        lemma_power_sum_zero_tail(cb, b.len(), (upto - m) as nat, x);
        lemma_eval_is_power_sum(b, x);
        let e = poly_eval(b, x);
        let w = pow(x, m);
        let s = power_sum(coefficients_of(a), m, x);
        assert(coefficients_of(a)(n - 1) == t);
        assert(s * e + t * (w * e) == (s + t * w) * e) by (nonlinear_arith);
    }
}

/// The value of a product is the product of the values.
pub proof fn lemma_mul_eval(a: Seq<int>, b: Seq<int>, x: int)
    ensures
        poly_eval(poly_mul(a, b), x) == poly_eval(a, x) * poly_eval(b, x),
{
    lemma_eval_of_family(conv_family(a, b, a.len()), a.len() + b.len(), x);
    assert(poly_mul(a, b) =~= Seq::new(a.len() + b.len(), conv_family(a, b, a.len())));
    lemma_conv_sum(a, b, a.len(), a.len() + b.len(), x);
    lemma_eval_is_power_sum(a, x);
}

/// The family of the coefficients of `reduce_top(c, f)`.
pub open spec fn reduced_family(c: Seq<int>, f: Seq<int>) -> spec_fn(int) -> int {
    |j: int| c[j] - c[c.len() - 1] * coeff(f, j - (c.len() - f.len()))
}

/// One step of the division changes the value by a multiple of the value
/// of the divisor.
pub proof fn lemma_reduce_top_eval(c: Seq<int>, f: Seq<int>, x: int)
    requires
        monic(f),
        c.len() >= f.len(),
    ensures
        poly_eval(reduce_top(c, f), x) == poly_eval(c, x) - (c[c.len() - 1] * pow(
            x,
            (c.len() - f.len()) as nat,
        )) * poly_eval(f, x),
{
    let len = c.len();
    let m = (len - 1) as nat;
    let s = (len - f.len()) as nat;
    let t = c[len - 1];
    let r = reduced_family(c, f);
    assert(reduce_top(c, f) =~= Seq::new(m, r));
    lemma_eval_of_family(r, m, x);
    // over all `len` places, the family sums to c(x) - t x^s f(x)
    let cc = coefficients_of(c);
    let h = moved_up(f, s as int);
    assert forall|k: int| 0 <= k < len implies #[trigger] r(k) == cc(k) + (-t) * h(k) by {
        assert((-t) * h(k) == -(t * h(k))) by (nonlinear_arith);
    }
    lemma_power_sum_linear(cc, h, -t, r, len, x);
    let cf = coefficients_of(f);
    assert forall|k: int| 0 <= k < len implies #[trigger] h(k) == (if k >= s {
        cf(k - s)
    } else {
        0
    }) by {}
    lemma_power_sum_shift(cf, s, h, len, x);
    lemma_eval_is_power_sum(f, x);
    lemma_eval_is_power_sum(c, x);
    // the top term of the family is zero, as f is monic
    assert(h(len - 1) == 1);
    assert(r(len - 1) == 0) by {
        lemma_mul_basics(t);
    }
    lemma_mul_basics(pow(x, m));
    let e = poly_eval(f, x);
    let w = pow(x, s);
    assert((-t) * (w * e) == -((t * w) * e)) by (nonlinear_arith);
}

/// The value of the remainder on division by a monic `f` differs from the
/// value of the dividend by a multiple of the value of `f`: returns the
/// quotient's value.
pub proof fn lemma_rem_eval(c: Seq<int>, f: Seq<int>, x: int) -> (k: int)
    requires
        monic(f),
    ensures
        poly_eval(poly_rem(c, f), x) == poly_eval(c, x) - k * poly_eval(f, x),
    decreases c.len(),
{
    if c.len() < f.len() {
        lemma_mul_basics(poly_eval(f, x));
        0
    } else {
        lemma_reduce_top_eval(c, f, x);
        let k0 = lemma_rem_eval(reduce_top(c, f), f, x);
        let t = c[c.len() - 1] * pow(x, (c.len() - f.len()) as nat);
        let e = poly_eval(f, x);
        assert(t * e + k0 * e == (t + k0) * e) by (nonlinear_arith);
        t + k0
    }
}

/// Zeros at the top do not change the value.
pub proof fn lemma_padded_eval(c: Seq<int>, n: nat, x: int)
    ensures
        poly_eval(padded(c, n), x) == poly_eval(c, x),
{
    let p = padded(c, n);
    lemma_eval_is_power_sum(p, x);
    lemma_eval_is_power_sum(c, x);
    assert forall|k: int| 0 <= k < p.len() implies #[trigger] coefficients_of(p)(k)
        == coefficients_of(c)(k) by {}
    lemma_power_sum_congruent(coefficients_of(p), coefficients_of(c), p.len(), x);
    lemma_power_sum_zero_tail(coefficients_of(c), c.len(), p.len(), x);
}

/// The value of a product modulo a monic `f` is the product of the values
/// less a multiple of the value of `f`: returns the multiplier.
pub proof fn lemma_mul_mod_eval(f: Seq<int>, a: Seq<int>, b: Seq<int>, x: int) -> (k: int)
    requires
        monic(f),
    ensures
        poly_eval(mul_mod_spec(f, a, b), x) == poly_eval(a, x) * poly_eval(b, x) - k * poly_eval(
            f,
            x,
        ),
{
    let k = lemma_rem_eval(poly_mul(a, b), f, x);
    lemma_mul_eval(a, b, x);
    lemma_padded_eval(poly_rem(poly_mul(a, b), f), one_less(f.len()), x);
    k
}

/// The same as a congruence: modulo the value `n` of `f`, the value of a
/// product modulo `f` is the product of the values.
pub proof fn lemma_mul_mod_eval_congruent(f: Seq<int>, a: Seq<int>, b: Seq<int>, x: int, n: int)
    requires
        monic(f),
        n == poly_eval(f, x),
        n > 0,
    ensures
        poly_eval(mul_mod_spec(f, a, b), x) % n == (poly_eval(a, x) * poly_eval(b, x)) % n,
{
    let k = lemma_mul_mod_eval(f, a, b, x);
    lemma_mod_multiples_vanish(-k, poly_eval(a, x) * poly_eval(b, x), n);
    assert(n * (-k) + poly_eval(a, x) * poly_eval(b, x) == poly_eval(a, x) * poly_eval(b, x) - k
        * n) by (nonlinear_arith);
}

} // verus!
