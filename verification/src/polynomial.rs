//! Polynomials in one variable with integer coefficients of arbitrary size.

use crate::integer::{floor_root, Integer};
use vstd::arithmetic::div_mod::*;
use vstd::arithmetic::mul::*;
use vstd::arithmetic::power::*;
use vstd::prelude::*;

verus! {

/// Coefficient `k` of a polynomial given by its coefficients, lowest first;
/// zero beyond them.
pub open spec fn coeff(c: Seq<int>, k: int) -> int {
    if 0 <= k < c.len() {
        c[k]
    } else {
        0
    }
}

/// The value of the polynomial at `x`.
pub open spec fn poly_eval(c: Seq<int>, x: int) -> int
    decreases c.len(),
{
    if c.len() == 0 {
        0
    } else {
        c[0] + x * poly_eval(c.drop_first(), x)
    }
}

/// The first `n` terms of coefficient `k` of the product `a * b`.
pub open spec fn conv(a: Seq<int>, b: Seq<int>, k: int, n: nat) -> int
    decreases n,
{
    if n == 0 {
        0
    } else {
        conv(a, b, k, (n - 1) as nat) + coeff(a, n - 1) * coeff(b, k - (n - 1))
    }
}

/// The product `a * b`, with room for `a.len() + b.len()` coefficients.
pub open spec fn poly_mul(a: Seq<int>, b: Seq<int>) -> Seq<int> {
    Seq::new(a.len() + b.len(), |k: int| conv(a, b, k, a.len()))
}

/// `n - 1`, and 0 for `n = 0`.
pub open spec fn one_less(n: nat) -> nat {
    if n == 0 {
        0
    } else {
        (n - 1) as nat
    }
}

/// One step of the division by a monic `f`: the leading term of `c` is
/// cancelled with a multiple of `f`, which leaves one coefficient less.
pub open spec fn reduce_top(c: Seq<int>, f: Seq<int>) -> Seq<int> {
    Seq::new(
        one_less(c.len()),
        |j: int| c[j] - c[c.len() - 1] * coeff(f, j - (c.len() - f.len())),
    )
}

/// The remainder of `c` on division by a monic `f`.
pub open spec fn poly_rem(c: Seq<int>, f: Seq<int>) -> Seq<int>
    decreases c.len(),
{
    if f.len() == 0 || c.len() < f.len() {
        c
    } else {
        poly_rem(reduce_top(c, f), f)
    }
}

/// `c` with zeros added up to `n` coefficients.
pub open spec fn padded(c: Seq<int>, n: nat) -> Seq<int> {
    Seq::new(
        if c.len() < n {
            n
        } else {
            c.len()
        },
        |k: int| coeff(c, k),
    )
}

/// `f` has its leading coefficient 1 in the last place.
pub open spec fn monic(f: Seq<int>) -> bool {
    f.len() >= 1 && f[f.len() - 1] == 1
}

/// The product `a * b` reduced modulo a monic `f` of degree `d`, as `d`
/// coefficients.
pub open spec fn mul_mod_spec(f: Seq<int>, a: Seq<int>, b: Seq<int>) -> Seq<int> {
    padded(poly_rem(poly_mul(a, b), f), one_less(f.len()))
}

/// The sum of two polynomials.
pub open spec fn poly_add(a: Seq<int>, b: Seq<int>) -> Seq<int> {
    Seq::new(
        if a.len() >= b.len() {
            a.len()
        } else {
            b.len()
        },
        |k: int| coeff(a, k) + coeff(b, k),
    )
}

/// The derivative.
pub open spec fn derivative_spec(c: Seq<int>) -> Seq<int> {
    Seq::new(one_less(c.len()), |k: int| (k + 1) * c[k + 1])
}

/// The degree: the place of the last coefficient that is not zero, and 0
/// for the zero polynomial.
pub open spec fn degree_spec(c: Seq<int>) -> nat
    decreases c.len(),
{
    if c.len() == 0 {
        0
    } else if c[c.len() - 1] != 0 {
        (c.len() - 1) as nat
    } else {
        degree_spec(c.drop_last())
    }
}

/// The remainder never has as many coefficients as the divisor.
pub proof fn lemma_rem_len(c: Seq<int>, f: Seq<int>)
    requires
        f.len() >= 1,
    ensures
        poly_rem(c, f).len() < f.len(),
        poly_rem(c, f).len() <= c.len(),
    decreases c.len(),
{
    if c.len() >= f.len() {
        lemma_rem_len(reduce_top(c, f), f);
    }
}

/// A product modulo a monic `f` of degree `d` has `d` coefficients.
pub proof fn lemma_mul_mod_len(f: Seq<int>, a: Seq<int>, b: Seq<int>)
    requires
        monic(f),
    ensures
        mul_mod_spec(f, a, b).len() == f.len() - 1,
{
    lemma_rem_len(poly_mul(a, b), f);
}

/// The values of a sequence of integers of arbitrary size.
pub open spec fn values(v: Seq<Integer>) -> Seq<int> {
    Seq::new(v.len(), |i: int| v[i]@)
}

/// A polynomial with integer coefficients, lowest first.
pub struct MpPolynomial {
    coefficients: Vec<Integer>,
}

impl View for MpPolynomial {
    type V = Seq<int>;

    closed spec fn view(&self) -> Seq<int> {
        values(self.coefficients@)
    }
}

/// A vector of `n` zeros.
pub fn zeros(n: usize) -> (v: Vec<Integer>)
    ensures
        v@.len() == n,
        forall|k: int| 0 <= k < n ==> (#[trigger] v@[k])@ == 0,
{
    let mut v: Vec<Integer> = Vec::new();
    let mut i: usize = 0;
    while i < n
        invariant
            i <= n,
            v@.len() == i,
            forall|k: int| 0 <= k < i ==> (#[trigger] v@[k])@ == 0,
        decreases n - i,
    {
        v.push(Integer::from_u64(0));
        i += 1;
    }
    v
}

impl MpPolynomial {
    /// The polynomial without coefficients, which is zero.
    pub fn new() -> (r: MpPolynomial)
        ensures
            r@ == Seq::<int>::empty(),
    {
        let r = MpPolynomial { coefficients: Vec::new() };
        assert(r@ =~= Seq::<int>::empty());
        r
    }

    /// The polynomial with the given coefficients, lowest first.
    pub fn from_coefficients(coefficients: Vec<Integer>) -> (r: MpPolynomial)
        ensures
            r@ == values(coefficients@),
    {
        MpPolynomial { coefficients }
    }

    /// A copy.
    pub fn clone_polynomial(&self) -> (r: MpPolynomial)
        ensures
            r@ == self@,
    {
        let mut out: Vec<Integer> = Vec::new();
        let mut k: usize = 0;
        while k < self.coefficients.len()
            invariant
                k <= self@.len(),
                out@.len() == k,
                forall|j: int| 0 <= j < k ==> (#[trigger] out@[j])@ == self@[j],
            decreases self@.len() - k,
        {
            out.push(self.coefficients[k].copy());
            k += 1;
        }
        let r = MpPolynomial { coefficients: out };
        assert(r@ =~= self@);
        r
    }

    /// The coefficients reduced modulo a positive `q`.
    pub fn reduce_mod(&self, q: &Integer) -> (r: MpPolynomial)
        requires
            q@ > 0,
        ensures
            r@.len() == self@.len(),
            forall|k: int| 0 <= k < self@.len() ==> #[trigger] r@[k] == self@[k] % q@,
    {
        let mut out: Vec<Integer> = Vec::new();
        let mut k: usize = 0;
        while k < self.coefficients.len()
            invariant
                k <= self@.len(),
                q@ > 0,
                out@.len() == k,
                forall|j: int| 0 <= j < k ==> (#[trigger] out@[j])@ == self@[j] % q@,
            decreases self@.len() - k,
        {
            out.push(self.coefficients[k].rem(q));
            k += 1;
        }
        let r = MpPolynomial { coefficients: out };
        assert forall|j: int| 0 <= j < self@.len() implies #[trigger] r@[j] == self@[j] % q@ by {
            assert(r@[j] == out@[j]@);
        }
        r
    }

    /// Whether the two polynomials have the same coefficients.
    pub fn same(&self, other: &MpPolynomial) -> (r: bool)
        ensures
            r == (self@ == other@),
    {
        if self.coefficients.len() != other.coefficients.len() {
            assert(self@.len() != other@.len());
            return false;
        }
        let mut k: usize = 0;
        while k < self.coefficients.len()
            invariant
                k <= self@.len(),
                self@.len() == other@.len(),
                forall|j: int| 0 <= j < k ==> #[trigger] self@[j] == other@[j],
            decreases self@.len() - k,
        {
            if !self.coefficients[k].equals(&other.coefficients[k]) {
                assert(self@[k as int] != other@[k as int]);
                return false;
            }
            k += 1;
        }
        assert(self@ =~= other@);
        true
    }

    /// The coefficients, lowest first.
    pub fn coefficients_ref(&self) -> (c: &Vec<Integer>)
        ensures
            values(c@) == self@,
    {
        &self.coefficients
    }

    /// The number of coefficients that are stored.
    pub fn len(&self) -> (n: usize)
        ensures
            n == self@.len(),
    {
        self.coefficients.len()
    }

    /// The degree, and 0 for the zero polynomial.
    pub fn degree(&self) -> (d: usize)
        ensures
            d == degree_spec(self@),
    {
        let mut n = self.coefficients.len();
        assert(self@.subrange(0, n as int) =~= self@);
        while n > 0
            invariant
                n <= self@.len(),
                degree_spec(self@) == degree_spec(self@.subrange(0, n as int)),
            decreases n,
        {
            let ghost c = self@.subrange(0, n as int);
            if !self.coefficients[n - 1].is_u64(0) {
                assert(c[c.len() - 1] == self@[n - 1]);
                return n - 1;
            }
            assert(c.drop_last() =~= self@.subrange(0, n - 1));
            n -= 1;
        }
        assert(self@.subrange(0, 0).len() == 0);
        0
    }

    /// Coefficient `k`, which is zero beyond the coefficients that are stored.
    pub fn coefficient(&self, k: usize) -> (c: Integer)
        ensures
            c@ == coeff(self@, k as int),
    {
        if k < self.coefficients.len() {
            self.coefficients[k].copy()
        } else {
            Integer::from_u64(0)
        }
    }

    /// The value at `x`, by Horner's rule.
    pub fn evaluate(&self, x: &Integer) -> (y: Integer)
        ensures
            y@ == poly_eval(self@, x@),
    {
        let n = self.coefficients.len();
        let mut y = Integer::from_u64(0);
        let mut i = n;
        assert(self@.subrange(n as int, n as int).len() == 0);
        while i > 0
            invariant
                i <= n,
                n == self@.len(),
                y@ == poly_eval(self@.subrange(i as int, n as int), x@),
            decreases i,
        {
            assert(self@.subrange(i - 1, n as int).drop_first() =~= self@.subrange(
                i as int,
                n as int,
            ));
            y = y.mul(x).add(&self.coefficients[i - 1]);
            proof {
                lemma_mul_is_commutative(x@, poly_eval(self@.subrange(i as int, n as int), x@));
            }
            i -= 1;
        }
        assert(self@.subrange(0, n as int) =~= self@);
        y
    }

    /// The sum `self + b`.
    pub fn add(&self, b: &MpPolynomial) -> (r: MpPolynomial)
        ensures
            r@ == poly_add(self@, b@),
    {
        let n = if self.coefficients.len() >= b.coefficients.len() {
            self.coefficients.len()
        } else {
            b.coefficients.len()
        };
        let mut out: Vec<Integer> = Vec::new();
        let mut k: usize = 0;
        while k < n
            invariant
                k <= n,
                n == poly_add(self@, b@).len(),
                out@.len() == k,
                forall|j: int| 0 <= j < k ==> (#[trigger] out@[j])@ == coeff(self@, j) + coeff(b@, j),
            decreases n - k,
        {
            out.push(self.coefficient(k).add(&b.coefficient(k)));
            k += 1;
        }
        let r = MpPolynomial { coefficients: out };
        assert(r@ =~= poly_add(self@, b@));
        r
    }

    /// The derivative.
    pub fn derivative(&self) -> (r: MpPolynomial)
        ensures
            r@ == derivative_spec(self@),
    {
        let n = self.coefficients.len();
        let mut out: Vec<Integer> = Vec::new();
        let mut k: usize = 1;
        while k < n
            invariant
                1 <= k,
                k <= n || (n == 0 && k == 1),
                n == self@.len(),
                out@.len() == k - 1,
                forall|j: int| 0 <= j < k - 1 ==> (#[trigger] out@[j])@ == (j + 1) * self@[j + 1],
            decreases n - k,
        {
            let factor = Integer::from_u64(k as u64);
            let scaled = factor.mul(&self.coefficients[k]);
            assert(scaled@ == (k - 1 + 1) * self@[k - 1 + 1]);
            out.push(scaled);
            k += 1;
        }
        let r = MpPolynomial { coefficients: out };
        assert(r@ =~= derivative_spec(self@));
        r
    }

    /// The product `a * b` modulo `self`, which is monic.
    pub fn mul_mod(&self, a: &MpPolynomial, b: &MpPolynomial) -> (r: MpPolynomial)
        requires
            monic(self@),
            a@.len() + b@.len() <= usize::MAX,
        ensures
            r@ == mul_mod_spec(self@, a@, b@),
    {
        let la = a.coefficients.len();
        let lb = b.coefficients.len();
        let mut c = zeros(la + lb);
        let mut i: usize = 0;
        while i < la
            invariant
                i <= la,
                la == a@.len(),
                lb == b@.len(),
                la + lb <= usize::MAX,
                c@.len() == la + lb,
                forall|k: int| 0 <= k < la + lb ==> (#[trigger] c@[k])@ == conv(a@, b@, k, i as nat),
            decreases la - i,
        {
            let mut j: usize = 0;
            while j < lb
                invariant
                    i < la,
                    j <= lb,
                    la == a@.len(),
                    lb == b@.len(),
                    la + lb <= usize::MAX,
                    c@.len() == la + lb,
                    forall|k: int|
                        0 <= k < la + lb ==> (#[trigger] c@[k])@ == conv(a@, b@, k, i as nat) + (if i
                            <= k < i + j {
                            a@[i as int] * b@[k - i]
                        } else {
                            0
                        }),
                decreases lb - j,
            {
                let term = a.coefficients[i].mul(&b.coefficients[j]);
                let sum = c[i + j].add(&term);
                c.set(i + j, sum);
                j += 1;
            }
            i += 1;
        }
        let ghost product = values(c@);
        assert(product =~= poly_mul(a@, b@));
        let lf = self.coefficients.len();
        let d = lf - 1;
        while c.len() >= lf
            invariant
                lf == self@.len(),
                d == lf - 1,
                monic(self@),
                poly_rem(values(c@), self@) == poly_rem(product, self@),
            decreases c@.len(),
        {
            let ghost before = values(c@);
            let top = c.pop().unwrap();
            let shift = c.len() + 1 - lf;
            let rest = c.len();
            let mut t: usize = 0;
            while t < d
                invariant
                    t <= d,
                    lf == self@.len(),
                    d == lf - 1,
                    monic(self@),
                    c@.len() == before.len() - 1,
                    before.len() >= lf,
                    shift == before.len() - lf,
                    shift + d == rest,
                    rest == c@.len(),
                    top@ == before[before.len() - 1],
                    forall|k: int|
                        0 <= k < c@.len() ==> (#[trigger] c@[k])@ == before[k] - (if shift <= k
                            < shift + t {
                            top@ * self@[k - shift]
                        } else {
                            0
                        }),
                decreases d - t,
            {
                let term = top.mul(&self.coefficients[t]);
                let diff = c[shift + t].sub(&term);
                c.set(shift + t, diff);
                t += 1;
            }
            assert(values(c@) =~= reduce_top(before, self@));
        }
        let ghost remainder = values(c@);
        while c.len() < d
            invariant
                c@.len() <= d || remainder.len() > d,
                c@.len() >= remainder.len(),
                forall|k: int| 0 <= k < c@.len() ==> (#[trigger] c@[k])@ == coeff(remainder, k),
            decreases d - c@.len(),
        {
            c.push(Integer::from_u64(0));
        }
        proof {
            lemma_rem_len(product, self@);
        }
        let r = MpPolynomial { coefficients: c };
        assert(r@ =~= mul_mod_spec(self@, a@, b@));
        r
    }
}

/// Adding a coefficient at the top adds its multiple of the next power of `x`.
pub proof fn lemma_eval_push(c: Seq<int>, t: int, x: int)
    ensures
        poly_eval(c.push(t), x) == poly_eval(c, x) + t * pow(x, c.len()),
    decreases c.len(),
{
    if c.len() == 0 {
        assert(c.push(t).drop_first() =~= Seq::<int>::empty());
        lemma_pow0(x);
        assert(x * 0 == 0) by (nonlinear_arith);
        assert(poly_eval(c.push(t).drop_first(), x) == 0);
        assert(c.push(t)[0] == t);
        lemma_mul_basics(t);
    } else {
        let rest = c.drop_first();
        assert(c.push(t).drop_first() =~= rest.push(t));
        lemma_eval_push(rest, t, x);
        lemma_pow_adds(x, 1, rest.len());
        lemma_pow1(x);
        let u = poly_eval(rest, x);
        let w = pow(x, rest.len());
        assert(x * (u + t * w) == x * u + t * (x * w)) by (nonlinear_arith);
    }
}

/// A polynomial whose coefficients are digits in base `m` has a value
/// below the power of `m` that counts them.
pub proof fn lemma_digits_bound(c: Seq<int>, m: int)
    requires
        m >= 1,
        forall|k: int| 0 <= k < c.len() ==> 0 <= #[trigger] c[k] < m,
    ensures
        0 <= poly_eval(c, m) < pow(m, c.len()),
    decreases c.len(),
{
    if c.len() == 0 {
        lemma_pow0(m);
    } else {
        let d = c.drop_last();
        let t = c[c.len() - 1];
        assert(d.push(t) =~= c);
        lemma_eval_push(d, t, m);
        assert forall|k: int| 0 <= k < d.len() implies 0 <= #[trigger] d[k] < m by {
            assert(d[k] == c[k]);
        }
        lemma_digits_bound(d, m);
        lemma_pow_adds(m, d.len(), 1);
        lemma_pow1(m);
        let w = pow(m, d.len());
        assert(0 <= t * w && t * w + w <= w * m) by (nonlinear_arith)
            requires
                0 <= t < m,
                w >= 0,
        ;
    }
}

/// The digits of `n` in base `m`, the `d`-th root of `n` rounded down, as
/// a polynomial of degree `d` with `f(m) = n`. It is there exactly if
/// `m >= 2` and the leading digit is 1, that is `n < 2 m^d`.
pub fn select(n: &Integer, d: u32) -> (r: Option<(MpPolynomial, Integer)>)
    requires
        n@ >= 0,
        d >= 1,
    ensures
        match r {
            Some((f, m)) => {
                &&& m@ == floor_root(n@, d as nat)
                &&& m@ >= 2
                &&& n@ < 2 * pow(m@, d as nat)
                &&& f@.len() == d + 1
                &&& monic(f@)
                &&& poly_eval(f@, m@) == n@
                &&& forall|k: int| 0 <= k < d ==> 0 <= #[trigger] f@[k] < m@
            },
            None => floor_root(n@, d as nat) < 2 || n@ >= 2 * pow(
                floor_root(n@, d as nat),
                d as nat,
            ),
        },
{
    let m = n.nth_root(d);
    let two = Integer::from_u64(2);
    if m.less(&two) {
        return None;
    }
    let mut digits: Vec<Integer> = Vec::new();
    let mut rest = n.copy();
    let mut i: u32 = 0;
    proof {
        lemma_eval_push(Seq::<int>::empty(), rest@, m@);
        lemma_pow0(m@);
        assert(poly_eval(Seq::<int>::empty(), m@) == 0);
        lemma_mul_basics(rest@);
        assert(values(digits@) =~= Seq::<int>::empty());
    }
    while i < d
        invariant
            i <= d,
            m@ >= 2,
            digits@.len() == i,
            rest@ >= 0,
            poly_eval(values(digits@).push(rest@), m@) == n@,
            forall|k: int| 0 <= k < i ==> 0 <= (#[trigger] digits@[k])@ < m@,
        decreases d - i,
    {
        let ghost before = values(digits@);
        let ghost old_rest = rest@;
        let (q, r) = rest.div_rem(&m);
        proof {
            lemma_fundamental_div_mod(old_rest, m@);
            lemma_mod_bound(old_rest, m@);
            lemma_div_pos_is_pos(old_rest, m@);
            lemma_eval_push(before, old_rest, m@);
            lemma_eval_push(before, r@, m@);
            lemma_eval_push(before.push(r@), q@, m@);
            lemma_pow_adds(m@, before.len(), 1);
            lemma_pow1(m@);
            let w = pow(m@, before.len());
            assert(old_rest * w == r@ * w + q@ * (w * m@)) by (nonlinear_arith)
                requires
                    old_rest == m@ * q@ + r@,
            ;
        }
        digits.push(r);
        rest = q;
        assert(values(digits@) =~= before.push(digits@[i as int]@));
        i += 1;
    }
    proof {
        let lower = values(digits@);
        lemma_eval_push(lower, rest@, m@);
        assert forall|k: int| 0 <= k < lower.len() implies 0 <= #[trigger] lower[k] < m@ by {
            assert(lower[k] == digits@[k]@);
        }
        lemma_digits_bound(lower, m@);
        let w = pow(m@, d as nat);
        // n = e + rest w with 0 <= e < w, and w <= n
        if rest@ == 0 {
            lemma_mul_basics(w);
        } else if rest@ == 1 {
            lemma_mul_basics(w);
        } else {
            assert(rest@ * w >= 2 * w) by (nonlinear_arith)
                requires
                    rest@ >= 2,
                    w >= 0,
            ;
        }
    }
    if !rest.is_u64(1) {
        return None;
    }
    let ghost lower = values(digits@);
    digits.push(rest);
    let f = MpPolynomial { coefficients: digits };
    assert(f@ =~= lower.push(1));
    Some((f, m))
}

} // verus!
