//! Polynomials with coefficients modulo a prime below 2^32.

use crate::integer::Integer;
use crate::nt::{mod_inverse, pow_mod};
use crate::polynomial::{
    coeff, degree_spec, derivative_spec, lemma_mul_mod_len, monic, mul_mod_spec, poly_eval, values,
    MpPolynomial,
};
use crate::evaluation::{
    coefficients_of, lemma_eval_is_power_sum, lemma_eval_of_family, lemma_mul_mod_eval,
    lemma_power_sum_linear, lemma_power_sum_zero_tail, power_sum,
};
use crate::euclid::{
    coprime, lemma_euclid_finds_common_factors, lemma_rabin_test_decides, rabin_condition,
};
use crate::primes::prime;
use crate::relation::lemma_degree_bound;
use vstd::arithmetic::div_mod::*;
use vstd::arithmetic::mul::*;
use vstd::prelude::*;

verus! {

/// The coefficients as integers.
pub open spec fn ints(c: Seq<u64>) -> Seq<int> {
    Seq::new(c.len(), |k: int| c[k] as int)
}

/// The coefficients of `c` reduced modulo `p`.
pub open spec fn reduced(c: Seq<int>, p: int) -> Seq<int> {
    Seq::new(c.len(), |k: int| c[k] % p)
}

/// Reducing the coefficients does not change the value modulo `p`.
pub proof fn lemma_eval_reduced(c: Seq<int>, p: int, x: int)
    requires
        p > 0,
    ensures
        poly_eval(reduced(c, p), x) % p == poly_eval(c, x) % p,
    decreases c.len(),
{
    if c.len() > 0 {
        let rest = c.drop_first();
        lemma_eval_reduced(rest, p, x);
        assert(reduced(c, p).drop_first() =~= reduced(rest, p));
        let u = poly_eval(reduced(rest, p), x);
        let v = poly_eval(rest, x);
        lemma_mul_mod_noop_right(x, u, p);
        lemma_mul_mod_noop_right(x, v, p);
        lemma_add_mod_noop(c[0] % p, x * u, p);
        lemma_add_mod_noop(c[0], x * v, p);
        lemma_mod_twice(c[0], p);
    }
}

/// The value does not change modulo `p` when the argument is reduced.
pub proof fn lemma_eval_at_residue(c: Seq<int>, p: int, x: int)
    requires
        p > 0,
    ensures
        poly_eval(c, x % p) % p == poly_eval(c, x) % p,
    decreases c.len(),
{
    if c.len() > 0 {
        let rest = c.drop_first();
        lemma_eval_at_residue(rest, p, x);
        let u = poly_eval(rest, x % p);
        let v = poly_eval(rest, x);
        lemma_mul_mod_noop_general(x % p, u, p);
        lemma_mul_mod_noop_general(x, v, p);
        lemma_mod_twice(x, p);
        lemma_add_mod_noop(c[0], (x % p) * u, p);
        lemma_add_mod_noop(c[0], x * v, p);
    }
}

/// A polynomial over the integers modulo `p`, its coefficients lowest first
/// and each below `p`.
pub struct GfPolynomial {
    modulus: u64,
    coefficients: Vec<u64>,
}

impl View for GfPolynomial {
    type V = Seq<int>;

    closed spec fn view(&self) -> Seq<int> {
        ints(self.coefficients@)
    }
}

impl GfPolynomial {
    /// The modulus `p`.
    pub closed spec fn p(&self) -> int {
        self.modulus as int
    }

    /// The modulus is between 2 and 2^32, and every coefficient is below it.
    pub open spec fn well_formed(&self) -> bool {
        &&& 2 <= self.p() <= u32::MAX
        &&& forall|k: int| 0 <= k < self@.len() ==> 0 <= #[trigger] self@[k] < self.p()
    }

    /// The zero polynomial modulo `p`.
    pub fn new(p: u64) -> (r: GfPolynomial)
        requires
            2 <= p <= u32::MAX,
        ensures
            r.p() == p,
            r@ == Seq::<int>::empty(),
            r.well_formed(),
    {
        let r = GfPolynomial { modulus: p, coefficients: Vec::new() };
        assert(r@ =~= Seq::<int>::empty());
        r
    }

    /// The polynomial with the given coefficients, each reduced modulo `p`.
    pub fn from_coefficients(coefficients: Vec<u64>, p: u64) -> (r: GfPolynomial)
        requires
            2 <= p <= u32::MAX,
        ensures
            r.p() == p,
            r@ == reduced(ints(coefficients@), p as int),
            r.well_formed(),
    {
        let mut out: Vec<u64> = Vec::new();
        let mut k: usize = 0;
        while k < coefficients.len()
            invariant
                k <= coefficients@.len(),
                2 <= p,
                out@.len() == k,
                forall|j: int| 0 <= j < k ==> #[trigger] out@[j] == coefficients@[j] % p,
            decreases coefficients@.len() - k,
        {
            out.push(coefficients[k] % p);
            k += 1;
        }
        let r = GfPolynomial { modulus: p, coefficients: out };
        assert(r@ =~= reduced(ints(coefficients@), p as int));
        r
    }

    /// `f` with its coefficients reduced modulo `p`.
    pub fn from_mp_polynomial(f: &MpPolynomial, p: u64) -> (r: GfPolynomial)
        requires
            2 <= p <= u32::MAX,
        ensures
            r.p() == p,
            r@ == reduced(f@, p as int),
            r.well_formed(),
    {
        let src = f.coefficients_ref();
        let mut out: Vec<u64> = Vec::new();
        let mut k: usize = 0;
        while k < src.len()
            invariant
                k <= src@.len(),
                2 <= p,
                values(src@) == f@,
                out@.len() == k,
                forall|j: int| 0 <= j < k ==> #[trigger] out@[j] == f@[j] % (p as int),
            decreases src@.len() - k,
        {
            assert(f@[k as int] == src@[k as int]@);
            out.push(src[k].mod_u64(p));
            k += 1;
        }
        let r = GfPolynomial { modulus: p, coefficients: out };
        assert(r@ =~= reduced(f@, p as int)) by {
            assert forall|j: int| 0 <= j < r@.len() implies r@[j] == f@[j] % (p as int) by {
                assert(r@[j] == out@[j]);
            }
        }
        assert forall|j: int| 0 <= j < r@.len() implies 0 <= #[trigger] r@[j] < r.p() by {
            lemma_mod_bound(f@[j], p as int);
        }
        r
    }

    /// The modulus.
    pub fn modulus(&self) -> (p: u64)
        ensures
            p == self.p(),
    {
        self.modulus
    }

    /// The number of coefficients that are stored.
    pub fn len(&self) -> (n: usize)
        ensures
            n == self@.len(),
    {
        self.coefficients.len()
    }

    /// Coefficient `k`, which is zero beyond the coefficients that are stored.
    pub fn coefficient(&self, k: usize) -> (c: u64)
        ensures
            c == coeff(self@, k as int),
    {
        if k < self.coefficients.len() {
            self.coefficients[k]
        } else {
            0
        }
    }

    /// The degree, and 0 for the zero polynomial.
    pub fn degree(&self) -> (d: usize)
        ensures
            d == degree_spec(self@),
    {
        let mut n = self.coefficients.len();
        assert(self@.subrange(0, n as int) =~= self@);
        while n > 0
            invariant
                n <= self@.len(),
                degree_spec(self@) == degree_spec(self@.subrange(0, n as int)),
            decreases n,
        {
            let ghost c = self@.subrange(0, n as int);
            if self.coefficients[n - 1] != 0 {
                assert(c[c.len() - 1] == self@[n - 1]);
                return n - 1;
            }
            assert(c.drop_last() =~= self@.subrange(0, n - 1));
            n -= 1;
        }
        assert(self@.subrange(0, 0).len() == 0);
        0
    }

    /// The value at `x` modulo `p`, by Horner's rule.
    pub fn evaluate(&self, x: u64) -> (y: u64)
        requires
            self.well_formed(),
        ensures
            y == poly_eval(self@, x as int) % self.p(),
    {
        let p = self.modulus;
        let n = self.coefficients.len();
        let xr = x % p;
        let mut y: u64 = 0;
        let mut i = n;
        assert(self@.subrange(n as int, n as int).len() == 0);
        proof {
            lemma_small_mod(0, p as nat);
        }
        while i > 0
            invariant
                i <= n,
                n == self@.len(),
                self.well_formed(),
                p == self.p(),
                xr == x % p,
                y < p,
                y == poly_eval(self@.subrange(i as int, n as int), xr as int) % (p as int),
            decreases i,
        {
            let ghost tail = self@.subrange(i as int, n as int);
            let ghost cur = self@.subrange(i - 1, n as int);
            assert(cur.drop_first() =~= tail);
            let c = self.coefficients[i - 1];
            assert(c == self@[i - 1]);
            proof {
                assert(y * xr <= 0xffff_ffff * 0xffff_ffff) by (nonlinear_arith)
                    requires
                        y <= 0xffff_ffff,
                        xr <= 0xffff_ffff,
                ;
                let t = poly_eval(tail, xr as int);
                lemma_mul_mod_noop_right(xr as int, t, p as int);
                lemma_add_mod_noop_right(c as int, (xr as int) * t, p as int);
                lemma_add_mod_noop_right(c as int, (xr as int) * (y as int), p as int);
                lemma_mul_is_commutative(xr as int, y as int);
            }
            y = (y * xr + c) % p;
            i -= 1;
        }
        proof {
            assert(self@.subrange(0, n as int) =~= self@);
            lemma_eval_at_residue(self@, p as int, x as int);
        }
        y
    }

    /// The product `a * b` modulo `self`, which is monic, with coefficients
    /// modulo `p`.
    pub fn mul_mod(&self, a: &GfPolynomial, b: &GfPolynomial) -> (r: GfPolynomial)
        requires
            self.well_formed(),
            monic(self@),
            a@.len() + b@.len() <= usize::MAX,
        ensures
            r.p() == self.p(),
            r@ == reduced(mul_mod_spec(self@, a@, b@), self.p()),
            r.well_formed(),
    {
        let f = self.lift();
        let x = a.lift();
        let y = b.lift();
        let product = f.mul_mod(&x, &y);
        GfPolynomial::from_mp_polynomial(&product, self.modulus)
    }

    /// The derivative, with coefficients modulo `p`.
    pub fn derivative(&self) -> (r: GfPolynomial)
        requires
            self.well_formed(),
        ensures
            r.p() == self.p(),
            r.well_formed(),
            r@ == reduced(derivative_spec(self@), self.p()),
    {
        GfPolynomial::from_mp_polynomial(&self.lift().derivative(), self.modulus)
    }

    /// The same polynomial with integer coefficients.
    pub fn lift(&self) -> (r: MpPolynomial)
        ensures
            r@ == self@,
    {
        let mut out: Vec<Integer> = Vec::new();
        let mut k: usize = 0;
        while k < self.coefficients.len()
            invariant
                k <= self@.len(),
                out@.len() == k,
                forall|j: int| 0 <= j < k ==> (#[trigger] out@[j])@ == self@[j],
            decreases self@.len() - k,
        {
            out.push(Integer::from_u64(self.coefficients[k]));
            k += 1;
        }
        let r = MpPolynomial::from_coefficients(out);
        assert(r@ =~= self@);
        r
    }

    /// The sum, with coefficients modulo `p`.
    pub fn add(&self, b: &GfPolynomial) -> (r: GfPolynomial)
        requires
            self.well_formed(),
            b.well_formed(),
            b.p() == self.p(),
        ensures
            r.p() == self.p(),
            r.well_formed(),
            r@ == gf_add(self@, b@, self.p()),
    {
        let p = self.modulus;
        let n = if self.coefficients.len() >= b.coefficients.len() {
            self.coefficients.len()
        } else {
            b.coefficients.len()
        };
        let mut out: Vec<u64> = Vec::new();
        let mut k: usize = 0;
        while k < n
            invariant
                k <= n,
                self.well_formed(),
                b.well_formed(),
                p == self.p(),
                p == b.p(),
                out@.len() == k,
                forall|j: int|
                    0 <= j < k ==> #[trigger] out@[j] == (coeff(self@, j) + coeff(b@, j)) % (
                    p as int),
            decreases n - k,
        {
            let x = self.coefficient(k);
            let y = b.coefficient(k);
            assert(x < p) by {
                if k < self@.len() {
                    assert(0 <= self@[k as int] < self.p());
                }
            }
            assert(y < p) by {
                if k < b@.len() {
                    assert(0 <= b@[k as int] < b.p());
                }
            }
            out.push((x + y) % p);
            k += 1;
        }
        let r = GfPolynomial { modulus: p, coefficients: out };
        assert forall|j: int| 0 <= j < r@.len() implies #[trigger] r@[j] == (coeff(self@, j)
            + coeff(b@, j)) % self.p() && 0 <= r@[j] < r.p() by {
            assert(r@[j] == out@[j]);
            lemma_mod_bound(coeff(self@, j) + coeff(b@, j), p as int);
        }
        assert(r@ =~= gf_add(self@, b@, self.p()));
        r
    }
}

/// `r` is a root of `f` modulo `p`.
pub open spec fn is_root(f: Seq<int>, p: int, r: int) -> bool {
    0 <= r < p && poly_eval(f, r) % p == 0
}

impl MpPolynomial {
    /// The roots of the polynomial modulo `p`, in increasing order.
    pub fn find_roots_mod_p(&self, p: u64) -> (roots: Vec<u64>)
        requires
            2 <= p <= u32::MAX,
        ensures
            forall|i: int, j: int| 0 <= i < j < roots@.len() ==> roots@[i] < roots@[j],
            forall|i: int| 0 <= i < roots@.len() ==> is_root(self@, p as int, #[trigger] roots@[i] as int),
            forall|r: int| #[trigger] is_root(self@, p as int, r) ==> roots@.contains(r as u64),
    {
        let g = GfPolynomial::from_mp_polynomial(self, p);
        let mut roots: Vec<u64> = Vec::new();
        let mut r: u64 = 0;
        while r < p
            invariant
                r <= p,
                2 <= p <= u32::MAX,
                g.well_formed(),
                g.p() == p,
                g@ == reduced(self@, p as int),
                forall|i: int, j: int| 0 <= i < j < roots@.len() ==> roots@[i] < roots@[j],
                forall|i: int| 0 <= i < roots@.len() ==> #[trigger] roots@[i] < r,
                forall|i: int|
                    0 <= i < roots@.len() ==> is_root(self@, p as int, #[trigger] roots@[i] as int),
                forall|x: int|
                    x < r && #[trigger] is_root(self@, p as int, x) ==> roots@.contains(x as u64),
            decreases p - r,
        {
            proof {
                lemma_eval_reduced(self@, p as int, r as int);
            }
            let ghost before = roots@;
            if g.evaluate(r) == 0 {
                roots.push(r);
                assert(roots@[before.len() as int] == r);
            }
            proof {
                assert forall|x: int| x < r + 1 && #[trigger] is_root(self@, p as int, x) implies roots@.contains(
                    x as u64,
                ) by {
                    if x < r {
                        assert(before.contains(x as u64));
                        let i = choose|i: int| 0 <= i < before.len() && before[i] == x as u64;
                        assert(roots@[i] == x as u64);
                    }
                }
            }
            r += 1;
        }
        roots
    }
}

/// The product `a * b` modulo the monic `f`, with coefficients modulo `p`.
pub open spec fn gf_mul_mod(f: Seq<int>, a: Seq<int>, b: Seq<int>, p: int) -> Seq<int> {
    reduced(mul_mod_spec(f, a, b), p)
}

/// The constant 1 modulo `f`.
pub open spec fn gf_one(f: Seq<int>, p: int) -> Seq<int> {
    gf_mul_mod(f, seq![1int], seq![1int], p)
}

/// The power `b^e` modulo `f` and `p`, by squaring the power of half the
/// exponent.
pub open spec fn gf_power(f: Seq<int>, b: Seq<int>, e: nat, p: int) -> Seq<int>
    decreases e,
{
    if e == 0 {
        gf_one(f, p)
    } else {
        let h = gf_power(f, b, e / 2, p);
        let sq = gf_mul_mod(f, h, h, p);
        if e % 2 == 1 {
            gf_mul_mod(f, sq, b, p)
        } else {
            sq
        }
    }
}

/// `x^(p^i)` modulo `f` and `p`.
pub open spec fn frobenius(f: Seq<int>, i: nat, p: int) -> Seq<int>
    decreases i,
{
    if i == 0 {
        gf_mul_mod(f, seq![0int, 1int], seq![1int], p)
    } else {
        gf_power(f, frobenius(f, (i - 1) as nat, p), p as nat, p)
    }
}

/// The sum `a + b` with coefficients modulo `p`.
pub open spec fn gf_add(a: Seq<int>, b: Seq<int>, p: int) -> Seq<int> {
    Seq::new(
        if a.len() >= b.len() {
            a.len()
        } else {
            b.len()
        },
        |k: int| (coeff(a, k) + coeff(b, k)) % p,
    )
}

/// The difference `a - b` with coefficients modulo `p`, for `a` and `b` of
/// the same length.
pub open spec fn gf_sub(a: Seq<int>, b: Seq<int>, p: int) -> Seq<int> {
    Seq::new(a.len(), |k: int| (a[k] + p - coeff(b, k)) % p)
}

/// Every coefficient is zero.
pub open spec fn is_zero(a: Seq<int>) -> bool {
    forall|k: int| 0 <= k < a.len() ==> #[trigger] a[k] == 0
}

/// `b` cut off after its leading coefficient and multiplied by the inverse
/// of that coefficient, which is taken as its `(p - 2)`-th power.
pub open spec fn scaled(b: Seq<int>, p: int) -> Seq<int> {
    Seq::new(
        degree_spec(b) + 1,
        |k: int| (b[k] * pow_mod(b[degree_spec(b) as int], (p - 2) as nat, p)) % p,
    )
}

/// The remainder of `a` by the monic associate of a `b` that is not zero
/// has fewer coefficients than `b`.
pub proof fn lemma_remainder_is_shorter(a: Seq<int>, b: Seq<int>, p: int)
    requires
        !is_zero(b),
        monic(scaled(b, p)),
    ensures
        gf_mul_mod(scaled(b, p), a, seq![1int], p).len() < b.len(),
{
    lemma_degree_bound(b);
    lemma_mul_mod_len(scaled(b, p), a, seq![1int]);
}

/// Whether Euclid's algorithm on `a` and `b` modulo `p` ends with a
/// constant that is not zero. In each step `b` is made monic and `a` is
/// replaced by its remainder; where the leading coefficient of `b` has no
/// inverse, the answer is no. Modulo a prime this says that `a` and `b`
/// have no common factor: see
/// [`lemma_euclid_finds_common_factors`](crate::euclid::lemma_euclid_finds_common_factors).
pub open spec fn euclid_ends_in_unit(a: Seq<int>, b: Seq<int>, p: int) -> bool
    decreases b.len(),
{
    if is_zero(b) {
        degree_spec(a) == 0
    } else if !monic(scaled(b, p)) {
        false
    } else {
        proof {
            lemma_remainder_is_shorter(a, b, p);
        }
        euclid_ends_in_unit(scaled(b, p), gf_mul_mod(scaled(b, p), a, seq![1int], p), p)
    }
}

/// The coefficients above the degree are zero.
pub proof fn lemma_zero_above_degree(c: Seq<int>)
    ensures
        forall|k: int| degree_spec(c) < k < c.len() ==> #[trigger] c[k] == 0,
    decreases c.len(),
{
    if c.len() > 0 && c[c.len() - 1] == 0 {
        let rest = c.drop_last();
        lemma_zero_above_degree(rest);
        assert forall|k: int| degree_spec(c) < k < c.len() implies #[trigger] c[k] == 0 by {
            if k < rest.len() {
                assert(rest[k] == 0);
            }
        }
    }
}

/// A combination of two multiples of `p` is a multiple of `p`.
proof fn lemma_combination_vanishes(u: int, v: int, k: int, p: int)
    requires
        p > 0,
        u % p == 0,
        v % p == 0,
    ensures
        (k * v) % p == 0,
        (u - k * v) % p == 0,
{
    lemma_fundamental_div_mod(u, p);
    lemma_fundamental_div_mod(v, p);
    let a = u / p;
    let b = v / p;
    assert(k * v == (k * b) * p) by (nonlinear_arith)
        requires
            v == p * b,
    ;
    assert(u - k * v == (a - k * b) * p) by (nonlinear_arith)
        requires
            u == p * a,
            v == p * b,
    ;
    lemma_mod_multiples_basic(k * b, p);
    lemma_mod_multiples_basic(a - k * b, p);
}

/// The value of the monic associate of `b` is the value of `b` times the
/// inverse of its leading coefficient, modulo `p`.
pub proof fn lemma_scaled_eval(b: Seq<int>, p: int, x: int)
    requires
        p > 0,
        b.len() >= 1,
    ensures
        poly_eval(scaled(b, p), x) % p == (pow_mod(b[degree_spec(b) as int], (p - 2) as nat, p)
            * poly_eval(b, x)) % p,
{
    let d = degree_spec(b);
    let inv = pow_mod(b[d as int], (p - 2) as nat, p);
    let n = (d + 1) as nat;
    let h = |k: int| b[k] * inv;
    let raw = Seq::new(n, h);
    let zero = |k: int| 0int;
    lemma_degree_bound(b);
    lemma_zero_above_degree(b);
    assert(scaled(b, p) =~= reduced(raw, p));
    lemma_eval_reduced(raw, p, x);
    lemma_eval_of_family(h, n, x);
    assert forall|k: int| 0 <= k < n implies #[trigger] h(k) == zero(k) + inv * coefficients_of(
        b,
    )(k) by {
        assert(b[k] * inv == inv * b[k]) by (nonlinear_arith);
    }
    lemma_power_sum_linear(zero, coefficients_of(b), inv, h, n, x);
    lemma_power_sum_zero_tail(zero, 0, n, x);
    assert(power_sum(zero, 0, x) == 0);
    lemma_power_sum_zero_tail(coefficients_of(b), n, b.len(), x);
    lemma_eval_is_power_sum(b, x);
}

/// Where `a`, which is monic, and `b` have a common root modulo `p`,
/// Euclid's algorithm does not end with a constant that is not zero.
pub proof fn lemma_common_root_is_found(a: Seq<int>, b: Seq<int>, p: int, x: int)
    requires
        p >= 2,
        monic(a),
        poly_eval(a, x) % p == 0,
        poly_eval(b, x) % p == 0,
    ensures
        !euclid_ends_in_unit(a, b, p),
    decreases b.len(),
{
    if is_zero(b) {
        if degree_spec(a) == 0 {
            assert(a.len() == 1);
            assert(a.drop_first().len() == 0);
            assert(poly_eval(a.drop_first(), x) == 0);
            assert(poly_eval(a, x) == 1) by (nonlinear_arith)
                requires
                    poly_eval(a, x) == a[0] + x * poly_eval(a.drop_first(), x),
                    a[0] == 1,
                    poly_eval(a.drop_first(), x) == 0,
            ;
            lemma_small_mod(1, p as nat);
        }
    } else if monic(scaled(b, p)) {
        let bm = scaled(b, p);
        let one = seq![1int];
        let r = gf_mul_mod(bm, a, one, p);
        let inv = pow_mod(b[degree_spec(b) as int], (p - 2) as nat, p);
        lemma_scaled_eval(b, p, x);
        lemma_combination_vanishes(0, poly_eval(b, x), inv, p);
        assert(poly_eval(bm, x) % p == 0);
        let k = lemma_mul_mod_eval(bm, a, one, x);
        assert(one.drop_first().len() == 0);
        assert(poly_eval(one.drop_first(), x) == 0);
        assert(poly_eval(one, x) == 1) by (nonlinear_arith)
            requires
                poly_eval(one, x) == one[0] + x * poly_eval(one.drop_first(), x),
                one[0] == 1,
                poly_eval(one.drop_first(), x) == 0,
        ;
        assert(poly_eval(a, x) * 1 == poly_eval(a, x)) by (nonlinear_arith);
        lemma_combination_vanishes(poly_eval(a, x), poly_eval(bm, x), k, p);
        lemma_eval_reduced(mul_mod_spec(bm, a, one), p, x);
        assert(poly_eval(r, x) % p == 0);
        lemma_remainder_is_shorter(a, b, p);
        lemma_common_root_is_found(bm, r, p, x);
    }
}

/// Rabin's test for the monic `f` of degree `d` modulo `p`: `x^(p^d) = x`
/// modulo `f`, and Euclid's algorithm on `f` and `x^(p^i) - x` ends with a
/// constant that is not zero for every proper divisor `i` of `d`.
pub open spec fn rabin_test(f: Seq<int>, p: int) -> bool {
    let d = (f.len() - 1) as nat;
    &&& frobenius(f, d, p) == frobenius(f, 0, p)
    &&& forall|i: int|
        1 <= i < d && d % (i as nat) == 0 ==> #[trigger] euclid_ends_in_unit(
            f,
            gf_sub(frobenius(f, i as nat, p), frobenius(f, 0, p), p),
            p,
        )
}

impl GfPolynomial {
    /// Whether every coefficient is zero.
    pub fn is_zero_polynomial(&self) -> (r: bool)
        ensures
            r == is_zero(self@),
    {
        let mut k: usize = 0;
        while k < self.coefficients.len()
            invariant
                k <= self@.len(),
                forall|j: int| 0 <= j < k ==> #[trigger] self@[j] == 0,
            decreases self@.len() - k,
        {
            if self.coefficients[k] != 0 {
                assert(self@[k as int] != 0);
                return false;
            }
            k += 1;
        }
        true
    }

    /// Whether the two polynomials have the same coefficients.
    pub fn same(&self, other: &GfPolynomial) -> (r: bool)
        ensures
            r == (self@ == other@),
    {
        if self.coefficients.len() != other.coefficients.len() {
            assert(self@.len() != other@.len());
            return false;
        }
        let mut k: usize = 0;
        while k < self.coefficients.len()
            invariant
                k <= self@.len(),
                self@.len() == other@.len(),
                forall|j: int| 0 <= j < k ==> #[trigger] self@[j] == other@[j],
            decreases self@.len() - k,
        {
            if self.coefficients[k] != other.coefficients[k] {
                assert(self@[k as int] != other@[k as int]);
                return false;
            }
            k += 1;
        }
        assert(self@ =~= other@);
        true
    }

    /// A copy.
    pub fn clone_polynomial(&self) -> (r: GfPolynomial)
        ensures
            r@ == self@,
            r.p() == self.p(),
            self.well_formed() ==> r.well_formed(),
    {
        let coefficients = self.coefficients.clone();
        assert(coefficients@ =~= self.coefficients@);
        let r = GfPolynomial { modulus: self.modulus, coefficients };
        assert(r@ =~= self@);
        r
    }

    /// The power `base^e` modulo `self`, which is monic.
    pub fn power(&self, base: &GfPolynomial, e: u64) -> (r: GfPolynomial)
        requires
            self.well_formed(),
            monic(self@),
            base@.len() < self@.len(),
            2 * self@.len() <= usize::MAX,
        ensures
            r.p() == self.p(),
            r.well_formed(),
            r@ == gf_power(self@, base@, e as nat, self.p()),
            r@.len() == self@.len() - 1,
        decreases e,
    {
        if e == 0 {
            let one = GfPolynomial::from_coefficients(vec![1u64], self.modulus);
            proof {
                lemma_small_mod(1, self.modulus as nat);
                assert(one@ =~= seq![1int]);
                lemma_mul_mod_len(self@, one@, one@);
            }
            return self.mul_mod(&one, &one);
        }
        let h = self.power(base, e / 2);
        let sq = self.mul_mod(&h, &h);
        proof {
            lemma_mul_mod_len(self@, h@, h@);
            lemma_mul_mod_len(self@, sq@, base@);
        }
        if e % 2 == 1 {
            self.mul_mod(&sq, base)
        } else {
            sq
        }
    }

    /// The difference `self - b`, for `b` no longer than `self`.
    pub fn sub(&self, b: &GfPolynomial) -> (r: GfPolynomial)
        requires
            self.well_formed(),
            b.well_formed(),
            b.p() == self.p(),
        ensures
            r.p() == self.p(),
            r.well_formed(),
            r@ == gf_sub(self@, b@, self.p()),
    {
        let p = self.modulus;
        let mut out: Vec<u64> = Vec::new();
        let mut k: usize = 0;
        while k < self.coefficients.len()
            invariant
                k <= self@.len(),
                self.well_formed(),
                b.well_formed(),
                p == self.p(),
                p == b.p(),
                out@.len() == k,
                forall|j: int|
                    0 <= j < k ==> #[trigger] out@[j] == (self@[j] + p - coeff(b@, j)) % (p as int),
            decreases self@.len() - k,
        {
            let x = self.coefficients[k];
            let y = b.coefficient(k);
            assert(0 <= self@[k as int] < self.p());
            assert(y < p) by {
                if k < b@.len() {
                    assert(0 <= b@[k as int] < b.p());
                }
            }
            out.push((x + p - y) % p);
            k += 1;
        }
        let r = GfPolynomial { modulus: p, coefficients: out };
        assert(r@ =~= gf_sub(self@, b@, self.p()));
        assert forall|j: int| 0 <= j < r@.len() implies 0 <= #[trigger] r@[j] < r.p() by {
            assert(r@[j] == out@[j]);
        }
        r
    }

    /// The polynomial cut off after its leading coefficient and divided by
    /// that coefficient; `None` where that does not make it monic.
    pub fn make_monic(&self) -> (r: Option<GfPolynomial>)
        requires
            self.well_formed(),
            self@.len() >= 1,
        ensures
            match r {
                Some(g) => g.p() == self.p() && g.well_formed() && g@ == scaled(self@, self.p())
                    && monic(g@),
                None => !monic(scaled(self@, self.p())),
            },
    {
        let p = self.modulus;
        let d = self.degree();
        proof {
            lemma_degree_bound(self@);
        }
        let lc = self.coefficients[d];
        assert(0 <= self@[d as int] < self.p());
        let n = self.coefficients.len();
        assert(d < n);
        let inv = mod_inverse(lc, p);
        let mut out: Vec<u64> = Vec::new();
        let mut k: usize = 0;
        while k <= d
            invariant
                k <= d + 1,
                d < usize::MAX,
                d < self@.len(),
                d == degree_spec(self@),
                self.well_formed(),
                p == self.p(),
                inv == pow_mod(self@[d as int], (p - 2) as nat, p as int),
                inv < p,
                out@.len() == k,
                forall|j: int|
                    0 <= j < k ==> #[trigger] out@[j] == (self@[j] * (inv as int)) % (p as int),
            decreases d + 1 - k,
        {
            let c = self.coefficients[k];
            assert(0 <= self@[k as int] < self.p());
            proof {
                assert(c * inv <= 0xffff_ffff * 0xffff_ffff) by (nonlinear_arith)
                    requires
                        c <= 0xffff_ffff,
                        inv <= 0xffff_ffff,
                ;
            }
            out.push((c * inv) % p);
            k += 1;
        }
        let top = out[d];
        let g = GfPolynomial { modulus: p, coefficients: out };
        assert(g@ =~= scaled(self@, self.p()));
        assert forall|j: int| 0 <= j < g@.len() implies 0 <= #[trigger] g@[j] < g.p() by {
            assert(g@[j] == out@[j]);
        }
        if top == 1 {
            Some(g)
        } else {
            None
        }
    }

    /// Whether Euclid's algorithm on `self`, which is monic, and `g` ends
    /// with a constant that is not zero; modulo a prime, whether the two
    /// have no common factor.
    pub fn is_coprime_to(&self, g: &GfPolynomial) -> (r: bool)
        requires
            self.well_formed(),
            g.well_formed(),
            g.p() == self.p(),
            monic(self@),
            g@.len() <= self@.len(),
            2 * self@.len() <= usize::MAX,
        ensures
            r == euclid_ends_in_unit(self@, g@, self.p()),
            prime(self.p()) ==> r == coprime(self@, g@, self.p()),
    {
        proof {
            if prime(self.p()) {
                lemma_euclid_finds_common_factors(self@, g@, self.p());
            }
        }
        let p = self.modulus;
        let one = GfPolynomial::from_coefficients(vec![1u64], p);
        proof {
            lemma_small_mod(1, p as nat);
            assert(one@ =~= seq![1int]);
        }
        let mut a = self.clone_polynomial();
        let mut b = g.clone_polynomial();
        loop
            invariant
                a.well_formed(),
                b.well_formed(),
                a.p() == p,
                b.p() == p,
                p == self.p(),
                one@ == seq![1int],
                one.well_formed(),
                one.p() == p,
                monic(a@),
                a@.len() <= self@.len(),
                b@.len() <= self@.len(),
                2 * self@.len() <= usize::MAX,
                euclid_ends_in_unit(a@, b@, p as int) == euclid_ends_in_unit(
                    self@,
                    g@,
                    self.p(),
                ),
                prime(self.p()) ==> euclid_ends_in_unit(self@, g@, self.p()) == coprime(
                    self@,
                    g@,
                    self.p(),
                ),
            decreases b@.len(),
        {
            if b.is_zero_polynomial() {
                return a.degree() == 0;
            }
            assert(b@.len() >= 1);
            match b.make_monic() {
                None => {
                    return false;
                },
                Some(bm) => {
                    proof {
                        lemma_degree_bound(b@);
                        lemma_mul_mod_len(bm@, a@, one@);
                        lemma_remainder_is_shorter(a@, b@, p as int);
                    }
                    let r = bm.mul_mod(&a, &one);
                    a = bm;
                    b = r;
                },
            }
        }
    }

    /// Rabin's test of irreducibility for a monic polynomial of degree at
    /// least 1; modulo a prime it decides Rabin's condition.
    pub fn is_irreducible(&self) -> (r: bool)
        requires
            self.well_formed(),
            monic(self@),
            self@.len() >= 2,
            2 * self@.len() <= usize::MAX - 4,
        ensures
            r == rabin_test(self@, self.p()),
            prime(self.p()) ==> r == rabin_condition(self@, self.p()),
    {
        proof {
            if prime(self.p()) {
                lemma_rabin_test_decides(self@, self.p());
            }
        }
        let p = self.modulus;
        let d = self.coefficients.len() - 1;
        let one = GfPolynomial::from_coefficients(vec![1u64], p);
        let x = GfPolynomial::from_coefficients(vec![0u64, 1u64], p);
        proof {
            lemma_small_mod(1, p as nat);
            lemma_small_mod(0, p as nat);
            assert(one@ =~= seq![1int]);
            assert(x@ =~= seq![0int, 1int]);
            lemma_mul_mod_len(self@, x@, one@);
        }
        let x_mod_f = self.mul_mod(&x, &one);
        let mut chain: Vec<GfPolynomial> = Vec::new();
        chain.push(x_mod_f);
        let mut i: usize = 0;
        while i < d
            invariant
                i <= d,
                d == self@.len() - 1,
                p == self.p(),
                self.well_formed(),
                monic(self@),
                2 * self@.len() <= usize::MAX - 4,
                chain@.len() == i + 1,
                forall|k: int|
                    0 <= k <= i ==> (#[trigger] chain@[k])@ == frobenius(self@, k as nat, p as int)
                        && chain@[k].well_formed() && chain@[k].p() == p && chain@[k]@.len() == d,
            decreases d - i,
        {
            let next = self.power(&chain[i], p);
            chain.push(next);
            i += 1;
        }
        if !chain[d].same(&chain[0]) {
            return false;
        }
        let mut j: usize = 1;
        while j < d
            invariant
                1 <= j,
                d == self@.len() - 1,
                p == self.p(),
                self.well_formed(),
                monic(self@),
                2 * self@.len() <= usize::MAX - 4,
                chain@.len() == d + 1,
                forall|k: int|
                    0 <= k <= d ==> (#[trigger] chain@[k])@ == frobenius(self@, k as nat, p as int)
                        && chain@[k].well_formed() && chain@[k].p() == p && chain@[k]@.len() == d,
                forall|k: int|
                    1 <= k < j && (d as nat) % (k as nat) == 0 ==> #[trigger] euclid_ends_in_unit(
                        self@,
                        gf_sub(
                            frobenius(self@, k as nat, p as int),
                            frobenius(self@, 0, p as int),
                            p as int,
                        ),
                        p as int,
                    ),
            decreases d - j,
        {
            if d % j == 0 {
                let diff = chain[j].sub(&chain[0]);
                if !self.is_coprime_to(&diff) {
                    assert(!euclid_ends_in_unit(
                        self@,
                        gf_sub(
                            frobenius(self@, j as nat, p as int),
                            frobenius(self@, 0, p as int),
                            p as int,
                        ),
                        p as int,
                    ));
                    return false;
                }
            }
            j += 1;
        }
        true
    }
}

} // verus!
