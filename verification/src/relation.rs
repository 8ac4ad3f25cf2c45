//! Trial division of a sieve survivor over the factor bases, and the column
//! of exponent parities that a smooth pair contributes.

use crate::integer::{abs, Integer};
use crate::nt::{legendre, pow_mod};
use crate::polynomial::{coeff, degree_spec, MpPolynomial};
use crate::sieve::{base_entry_ok, base_ok};
use vstd::arithmetic::div_mod::*;
use vstd::arithmetic::mul::*;
use vstd::arithmetic::power::*;
use vstd::prelude::*;

verus! {

/// How often `p` divides `x`; 0 for `x = 0` and for `p < 2`.
pub open spec fn valuation(x: nat, p: nat) -> nat
    decreases x,
{
    if p < 2 || x == 0 || x % p != 0 {
        0
    } else {
        proof {
            lemma_div_decreases(x as int, p as int);
        }
        1 + valuation(x / p, p)
    }
}

/// `x` with every factor `p` divided out.
pub open spec fn stripped(x: nat, p: nat) -> nat
    decreases x,
{
    if p < 2 || x == 0 || x % p != 0 {
        x
    } else {
        proof {
            lemma_div_decreases(x as int, p as int);
        }
        stripped(x / p, p)
    }
}

/// `x` is what is left of it times the power of `p` that was divided out.
pub proof fn lemma_stripped_times_power(x: nat, p: nat)
    requires
        p >= 2,
        x > 0,
    ensures
        x == stripped(x, p) * pow(p as int, valuation(x, p)),
        stripped(x, p) > 0,
        stripped(x, p) % p != 0,
    decreases x,
{
    if x % p != 0 {
        lemma_pow0(p as int);
    } else {
        let y = x / p;
        lemma_fundamental_div_mod(x as int, p as int);
        lemma_div_decreases(x as int, p as int);
        assert(y > 0) by {
            if x < p {
                lemma_small_mod(x, p);
            }
            lemma_div_non_zero(x as int, p as int);
        }
        lemma_stripped_times_power(y, p);
        let e = valuation(y, p);
        lemma_pow_adds(p as int, e, 1);
        lemma_pow1(p as int);
        assert(stripped(y, p) * (pow(p as int, e) * p) == (stripped(y, p) * pow(p as int, e))
            * p) by {
            lemma_mul_is_associative(stripped(y, p) as int, pow(p as int, e), p as int);
        }
        lemma_mul_is_commutative(y as int, p as int);
    }
}

/// Divides every factor `p` out of a positive `x`. Returns what is left and
/// whether the number of factors was odd.
pub fn remove_factor(x: Integer, p: u64) -> (r: (Integer, bool))
    requires
        x@ > 0,
        p >= 2,
    ensures
        r.0@ == stripped(x@ as nat, p as nat),
        r.1 == (valuation(x@ as nat, p as nat) % 2 == 1),
        r.0@ > 0,
{
    let divisor = Integer::from_u64(p);
    let mut cur = x;
    let mut odd = false;
    let ghost x0 = x@ as nat;
    let ghost count: nat = 0;
    loop
        invariant_except_break
            cur@ > 0,
            p >= 2,
            divisor@ == p,
            stripped(cur@ as nat, p as nat) == stripped(x0, p as nat),
            valuation(cur@ as nat, p as nat) + count == valuation(x0, p as nat),
            odd == (count % 2 == 1),
        ensures
            cur@ == stripped(x0, p as nat),
            odd == (valuation(x0, p as nat) % 2 == 1),
            cur@ > 0,
        decreases cur@,
    {
        let (q, rem) = cur.div_rem(&divisor);
        if !rem.is_u64(0) {
            break ;
        }
        proof {
            lemma_div_decreases(cur@, p as int);
            lemma_fundamental_div_mod(cur@, p as int);
            assert(q@ > 0) by {
                if cur@ < p {
                    lemma_small_mod(cur@ as nat, p as nat);
                }
                lemma_div_non_zero(cur@, p as int);
            }
            count = count + 1;
        }
        cur = q;
        odd = !odd;
    }
    (cur, odd)
}

/// The remainder of `a` on Euclidean division by `p`.
pub fn mod_i64(a: i64, p: u64) -> (r: u64)
    requires
        p >= 1,
    ensures
        r == (a as int) % (p as int),
        r < p,
{
    proof {
        lemma_mod_bound(a as int, p as int);
    }
    if a >= 0 {
        (a as u64) % p
    } else {
        let m = ((-(a + 1)) as u64) + 1;
        let s = m % p;
        proof {
            // a = -m, and -m = -s (mod p)
            lemma_fundamental_div_mod(m as int, p as int);
            let q = (m as int) / (p as int);
            if s == 0 {
                assert(a as int == (-q) * p) by (nonlinear_arith)
                    requires
                        m == p * q,
                        a == -m,
                ;
                lemma_mod_multiples_basic(-q, p as int);
            } else {
                assert(a as int == p * (-q - 1) + (p - s)) by (nonlinear_arith)
                    requires
                        m == p * q + s,
                        a == -m,
                ;
                lemma_mod_multiples_vanish(-q - 1, p - s, p as int);
                lemma_small_mod((p - s) as nat, p as nat);
            }
        }
        if s == 0 {
            0
        } else {
            p - s
        }
    }
}

/// The residue of `a + b r` modulo `p`, for `p` and `r` below 2^32.
pub fn line_residue(a: i64, b: u64, r: u64, p: u64) -> (x: u64)
    requires
        1 <= p <= u32::MAX,
        r <= u32::MAX,
    ensures
        x == (a + b * r) % (p as int),
        x < p,
{
    let ar = mod_i64(a, p);
    let br = b % p;
    let rr = r % p;
    proof {
        assert(br * rr <= 0xffff_ffff * 0xffff_ffff) by (nonlinear_arith)
            requires
                br <= 0xffff_ffff,
                rr <= 0xffff_ffff,
        ;
        lemma_mul_mod_noop_general(b as int, r as int, p as int);
        lemma_add_mod_noop(a as int, b * r, p as int);
        lemma_mod_bound(a + b * r, p as int);
    }
    (ar + (br * rr) % p) % p
}

/// The greatest common divisor by Euclid's rule.
pub open spec fn gcd_spec(x: nat, y: nat) -> nat
    decreases y,
{
    if y == 0 {
        x
    } else {
        gcd_spec(y, x % y)
    }
}

/// The greatest common divisor of two words.
pub fn gcd(x: u64, y: u64) -> (g: u64)
    ensures
        g == gcd_spec(x as nat, y as nat),
{
    let mut a = x;
    let mut b = y;
    while b != 0
        invariant
            gcd_spec(a as nat, b as nat) == gcd_spec(x as nat, y as nat),
        decreases b,
    {
        let t = a % b;
        a = b;
        b = t;
    }
    a
}

/// The first `n` terms of the norm of `a + b x`: the sum of
/// `c[i] * a^i * (-b)^(d - i)`.
pub open spec fn norm_sum(c: Seq<int>, a: int, b: int, d: nat, n: nat) -> int
    decreases n,
{
    if n == 0 {
        0
    } else {
        norm_sum(c, a, b, d, (n - 1) as nat) + coeff(c, n - 1) * (pow(a, (n - 1) as nat) * pow(
            -b,
            (d - (n - 1)) as nat,
        ))
    }
}

/// The norm of `a + b x` with respect to `f`: `(-b)^d f(-a / b)` for `f` of
/// degree `d`.
pub open spec fn norm_spec(f: Seq<int>, a: int, b: int) -> int {
    norm_sum(f, a, b, degree_spec(f), degree_spec(f) + 1)
}

/// The norm of `a + b x` with respect to `f`.
pub fn norm(f: &MpPolynomial, a: i64, b: u64) -> (r: Integer)
    requires
        1 <= b <= i64::MAX,
        f@.len() <= u32::MAX,
    ensures
        r@ == norm_spec(f@, a as int, b as int),
{
    let d = f.degree();
    proof {
        lemma_degree_bound(f@);
    }
    let minus_b = Integer::from_i64(-(b as i64));
    let plus_b = Integer::from_u64(b);
    let ai = Integer::from_i64(a);
    let mut u = Integer::from_u64(1);
    let mut v = minus_b.pow(d as u32);
    let mut result = Integer::from_u64(0);
    let mut i: usize = 0;
    proof {
        lemma_pow0(a as int);
        lemma_degree_bound(f@);
    }
    while i <= d
        invariant
            i <= d + 1,
            d == degree_spec(f@),
            d < u32::MAX,
            f@.len() <= u32::MAX,
            plus_b@ == b,
            b >= 1,
            ai@ == a,
            u@ == pow(a as int, i as nat),
            i <= d ==> v@ == pow(-(b as int), (d - i) as nat),
            result@ == norm_sum(f@, a as int, b as int, d as nat, i as nat),
        decreases d + 1 - i,
    {
        let c = f.coefficient(i);
        let term = c.mul(&u.mul(&v));
        result = result.add(&term);
        proof {
            lemma_pow_adds(a as int, i as nat, 1);
            lemma_pow1(a as int);
        }
        u = u.mul(&ai);
        if i < d {
            proof {
                let e = (d - i - 1) as nat;
                let w = pow(-(b as int), e);
                lemma_pow_adds(-(b as int), 1, e);
                lemma_pow1(-(b as int));
                assert(-(v@) == (b as int) * w) by (nonlinear_arith)
                    requires
                        v@ == (-(b as int)) * w,
                ;
                lemma_div_multiples_vanish(w, b as int);
            }
            v = v.neg().div(&plus_b);
        }
        i += 1;
    }
    result
}

/// The degree is below the number of coefficients, where there are any.
pub proof fn lemma_degree_bound(c: Seq<int>)
    ensures
        degree_spec(c) < c.len() || c.len() == 0,
        c.len() == 0 ==> degree_spec(c) == 0,
    decreases c.len(),
{
    if c.len() > 0 && c[c.len() - 1] == 0 {
        lemma_degree_bound(c.drop_last());
    }
}

/// What is left of `x` when the first `n` primes of the rational base have
/// been divided out.
pub open spec fn rational_residual(x: nat, base: Seq<(u64, u64)>, n: nat) -> nat
    decreases n,
{
    if n == 0 {
        x
    } else {
        stripped(rational_residual(x, base, (n - 1) as nat), base[n - 1].0 as nat)
    }
}

/// Whether entry `k` of the rational base occurs to an odd power in `x`.
pub open spec fn rational_parity(x: nat, base: Seq<(u64, u64)>, k: int) -> bool {
    valuation(rational_residual(x, base, k as nat), base[k].0 as nat) % 2 == 1
}

/// Whether the prime ideal `(p, r)` lies over `a + b x`: `a + b r = 0 (mod p)`.
pub open spec fn lies_over(e: (u64, u64), a: int, b: int) -> bool {
    (a + b * e.1) % (e.0 as int) == 0
}

/// What is left of the norm `x` when the primes of the first `n` entries of
/// the algebraic base that lie over `a + b x` have been divided out.
pub open spec fn algebraic_residual(x: nat, base: Seq<(u64, u64)>, a: int, b: int, n: nat) -> nat
    decreases n,
{
    if n == 0 {
        x
    } else if lies_over(base[n - 1], a, b) {
        stripped(algebraic_residual(x, base, a, b, (n - 1) as nat), base[n - 1].0 as nat)
    } else {
        algebraic_residual(x, base, a, b, (n - 1) as nat)
    }
}

/// Whether entry `k` of the algebraic base occurs to an odd power in the norm `x`.
pub open spec fn algebraic_parity(x: nat, base: Seq<(u64, u64)>, a: int, b: int, k: int) -> bool {
    lies_over(base[k], a, b) && valuation(
        algebraic_residual(x, base, a, b, k as nat),
        base[k].0 as nat,
    ) % 2 == 1
}

/// Whether the quadratic character of `(p, s)` is -1 at `a + b x`: Euler's
/// power of `a + b s` modulo `p` is `p - 1`.
pub open spec fn character(e: (u64, u64), a: int, b: int) -> bool {
    pow_mod((a + b * e.1) % (e.0 as int), ((e.0 - 1) / 2) as nat, e.0 as int) == e.0 - 1
}

/// The three factor bases, as the sieve and the trial division use them.
pub struct FactorBases {
    pub rational: Vec<(u64, u64)>,
    pub algebraic: Vec<(u64, u64)>,
    pub quad_char: Vec<(u64, u64)>,
}

impl FactorBases {
    /// Every entry has its prime between 2 and 2^32 and its residue below
    /// 2^32, and the three bases and the sign fit in the range of an index.
    pub open spec fn well_formed(&self) -> bool {
        &&& base_ok(self.rational@)
        &&& base_ok(self.algebraic@)
        &&& base_ok(self.quad_char@)
        &&& forall|k: int| 0 <= k < self.rational@.len() ==> (#[trigger] self.rational@[k]).0 >= 2
        &&& forall|k: int| 0 <= k < self.algebraic@.len() ==> (#[trigger] self.algebraic@[k]).0 >= 2
        &&& forall|k: int| 0 <= k < self.quad_char@.len() ==> (#[trigger] self.quad_char@[k]).0 >= 2
        &&& 1 + self.rational@.len() + self.algebraic@.len() + self.quad_char@.len() <= usize::MAX
    }

    /// The number of rows of the matrix: the sign and one row per entry.
    pub open spec fn rows(&self) -> nat {
        1 + self.rational@.len() + self.algebraic@.len() + self.quad_char@.len()
    }
}

/// Whether row `idx` of the column of the pair `(a, b)` is set: row 0 for
/// the sign of `a + b m`, then the parities over the rational base, those
/// over the algebraic base, and the quadratic characters.
pub open spec fn expected_bit(
    idx: int,
    a: int,
    b: int,
    m: int,
    f: Seq<int>,
    bases: FactorBases,
) -> bool {
    let nr = bases.rational@.len() as int;
    let na = bases.algebraic@.len() as int;
    let nq = bases.quad_char@.len() as int;
    if idx == 0 {
        a + b * m < 0
    } else if 1 <= idx < 1 + nr {
        rational_parity(abs(a + b * m) as nat, bases.rational@, idx - 1)
    } else if 1 + nr <= idx < 1 + nr + na {
        algebraic_parity(norm_spec(f, a, b) as nat, bases.algebraic@, a, b, idx - 1 - nr)
    } else if 1 + nr + na <= idx < 1 + nr + na + nq {
        character(bases.quad_char@[idx - 1 - nr - na], a, b)
    } else {
        false
    }
}

/// Both `a + b m` and the norm of `a + b x` fall apart over their bases.
pub open spec fn smooth(a: int, b: int, m: int, f: Seq<int>, bases: FactorBases) -> bool {
    &&& a + b * m != 0
    &&& norm_spec(f, a, b) > 0
    &&& rational_residual(abs(a + b * m) as nat, bases.rational@, bases.rational@.len()) == 1
    &&& algebraic_residual(
        norm_spec(f, a, b) as nat,
        bases.algebraic@,
        a,
        b,
        bases.algebraic@.len(),
    ) == 1
}

/// `a` is not zero and has no factor in common with `b`.
pub open spec fn admissible(a: int, b: int) -> bool {
    a != 0 && gcd_spec((a % b) as nat, b as nat) == 1
}

/// `col` lists, in increasing order, the rows that are set for `(a, b)`.
pub open spec fn is_relation_column(
    col: Seq<usize>,
    a: int,
    b: int,
    m: int,
    f: Seq<int>,
    bases: FactorBases,
) -> bool {
    &&& forall|i: int, j: int| 0 <= i < j < col.len() ==> col[i] < col[j]
    &&& forall|j: int| 0 <= j < col.len() ==> #[trigger] col[j] < bases.rows()
    &&& forall|idx: int|
        0 <= idx < bases.rows() ==> (col.contains(idx as usize) <==> #[trigger] expected_bit(
            idx,
            a,
            b,
            m,
            f,
            bases,
        ))
}

/// The rows listed so far are those below `bound` that are set.
pub open spec fn column_upto(
    col: Seq<usize>,
    bound: int,
    a: int,
    b: int,
    m: int,
    f: Seq<int>,
    bases: FactorBases,
) -> bool {
    &&& forall|i: int, j: int| 0 <= i < j < col.len() ==> col[i] < col[j]
    &&& forall|j: int| 0 <= j < col.len() ==> #[trigger] col[j] < bound
    &&& forall|idx: int|
        0 <= idx < bound ==> (col.contains(idx as usize) <==> #[trigger] expected_bit(
            idx,
            a,
            b,
            m,
            f,
            bases,
        ))
}

/// Going on to the next row, which is listed exactly if it is set.
pub proof fn lemma_column_step(
    col: Seq<usize>,
    bound: int,
    set: bool,
    a: int,
    b: int,
    m: int,
    f: Seq<int>,
    bases: FactorBases,
)
    requires
        0 <= bound < usize::MAX,
        column_upto(col, bound, a, b, m, f, bases),
        set == expected_bit(bound, a, b, m, f, bases),
    ensures
        column_upto(
            if set {
                col.push(bound as usize)
            } else {
                col
            },
            bound + 1,
            a,
            b,
            m,
            f,
            bases,
        ),
{
    let next = if set {
        col.push(bound as usize)
    } else {
        col
    };
    assert forall|idx: int| 0 <= idx < bound + 1 implies (next.contains(idx as usize)
        <==> #[trigger] expected_bit(idx, a, b, m, f, bases)) by {
        if set {
            assert(next[col.len() as int] == bound as usize);
            if idx < bound {
                if col.contains(idx as usize) {
                    let j = choose|j: int| 0 <= j < col.len() && col[j] == idx as usize;
                    assert(next[j] == idx as usize);
                }
                if next.contains(idx as usize) {
                    let j = choose|j: int| 0 <= j < next.len() && next[j] == idx as usize;
                    assert(j < col.len());
                    assert(col[j] == idx as usize);
                }
            }
        } else {
            if idx == bound && next.contains(idx as usize) {
                let j = choose|j: int| 0 <= j < next.len() && next[j] == idx as usize;
                assert(col[j] < bound);
            }
        }
    }
}

/// A number and its negative have the same divisors.
pub proof fn lemma_divides_negative(x: int, p: int)
    requires
        p > 0,
    ensures
        (x % p == 0) <==> ((-x) % p == 0),
{
    lemma_fundamental_div_mod(x, p);
    lemma_fundamental_div_mod(-x, p);
    if x % p == 0 {
        assert(-x == (-(x / p)) * p) by (nonlinear_arith)
            requires
                x == p * (x / p),
        ;
        lemma_mod_multiples_basic(-(x / p), p);
    }
    if (-x) % p == 0 {
        assert(x == (-((-x) / p)) * p) by (nonlinear_arith)
            requires
                -x == p * ((-x) / p),
        ;
        lemma_mod_multiples_basic(-((-x) / p), p);
    }
}

/// A prime that does not divide `z` does not divide what is left of `|z|`
/// after trial division either.
pub proof fn lemma_skip_is_sound(z: int, base: Seq<(u64, u64)>, n: nat, p: int)
    requires
        z != 0,
        p >= 2,
        n <= base.len(),
        forall|k: int| 0 <= k < base.len() ==> (#[trigger] base[k]).0 >= 2,
        z % p != 0,
    ensures
        rational_residual(abs(z) as nat, base, n) % (p as nat) != 0,
{
    let x = abs(z) as nat;
    lemma_rational_factorization(x, base, n);
    let c = rational_power_product(x, base, n);
    let r = rational_residual(x, base, n);
    lemma_divides_negative(z, p);
    if r % (p as nat) == 0 {
        lemma_fundamental_div_mod(r as int, p);
        let t = (r as int) / p;
        assert(x == (t * c) * p) by (nonlinear_arith)
            requires
                x == r * c,
                r == p * t,
        ;
        lemma_mod_multiples_basic(t * c, p);
    }
}

/// The product of the powers of the first `n` primes of the rational base
/// that trial division takes out of `x`.
pub open spec fn rational_power_product(x: nat, base: Seq<(u64, u64)>, n: nat) -> int
    decreases n,
{
    if n == 0 {
        1
    } else {
        rational_power_product(x, base, (n - 1) as nat) * pow(
            base[n - 1].0 as int,
            valuation(rational_residual(x, base, (n - 1) as nat), base[n - 1].0 as nat),
        )
    }
}

/// The same for the algebraic base, where an entry takes part only if it
/// lies over `a + b x`.
pub open spec fn algebraic_power_product(
    x: nat,
    base: Seq<(u64, u64)>,
    a: int,
    b: int,
    n: nat,
) -> int
    decreases n,
{
    if n == 0 {
        1
    } else if lies_over(base[n - 1], a, b) {
        algebraic_power_product(x, base, a, b, (n - 1) as nat) * pow(
            base[n - 1].0 as int,
            valuation(algebraic_residual(x, base, a, b, (n - 1) as nat), base[n - 1].0 as nat),
        )
    } else {
        algebraic_power_product(x, base, a, b, (n - 1) as nat)
    }
}

/// Trial division over the rational base splits `x` into what is left and
/// the product of the prime powers taken out.
pub proof fn lemma_rational_factorization(x: nat, base: Seq<(u64, u64)>, n: nat)
    requires
        x > 0,
        n <= base.len(),
        forall|k: int| 0 <= k < base.len() ==> (#[trigger] base[k]).0 >= 2,
    ensures
        x == rational_residual(x, base, n) * rational_power_product(x, base, n),
        rational_residual(x, base, n) > 0,
    decreases n,
{
    if n == 0 {
        lemma_mul_basics(x as int);
    } else {
        lemma_rational_factorization(x, base, (n - 1) as nat);
        let prev = rational_residual(x, base, (n - 1) as nat);
        let p = base[n - 1].0 as nat;
        lemma_stripped_times_power(prev, p);
        let q = pow(p as int, valuation(prev, p));
        let c0 = rational_power_product(x, base, (n - 1) as nat);
        lemma_mul_is_associative(stripped(prev, p) as int, q, c0);
        lemma_mul_is_commutative(q, c0);
    }
}

/// Trial division over the algebraic base splits the norm `x` into what is
/// left and the product of the prime powers taken out.
pub proof fn lemma_algebraic_factorization(x: nat, base: Seq<(u64, u64)>, a: int, b: int, n: nat)
    requires
        x > 0,
        n <= base.len(),
        forall|k: int| 0 <= k < base.len() ==> (#[trigger] base[k]).0 >= 2,
    ensures
        x == algebraic_residual(x, base, a, b, n) * algebraic_power_product(x, base, a, b, n),
        algebraic_residual(x, base, a, b, n) > 0,
    decreases n,
{
    if n == 0 {
        lemma_mul_basics(x as int);
    } else {
        lemma_algebraic_factorization(x, base, a, b, (n - 1) as nat);
        if lies_over(base[n - 1], a, b) {
            let prev = algebraic_residual(x, base, a, b, (n - 1) as nat);
            let p = base[n - 1].0 as nat;
            lemma_stripped_times_power(prev, p);
            let q = pow(p as int, valuation(prev, p));
            let c0 = algebraic_power_product(x, base, a, b, (n - 1) as nat);
            lemma_mul_is_associative(stripped(prev, p) as int, q, c0);
            lemma_mul_is_commutative(q, c0);
        }
    }
}

/// A smooth pair factors over the bases: `|a + b m|` is the product of the
/// powers of the rational primes, and the norm of `a + b x` that of the
/// algebraic primes, with the exponents whose parities the column records.
pub proof fn lemma_smooth_pair_factors(a: int, b: int, m: int, f: Seq<int>, bases: FactorBases)
    requires
        bases.well_formed(),
        smooth(a, b, m, f, bases),
    ensures
        abs(a + b * m) == rational_power_product(
            abs(a + b * m) as nat,
            bases.rational@,
            bases.rational@.len(),
        ),
        norm_spec(f, a, b) == algebraic_power_product(
            norm_spec(f, a, b) as nat,
            bases.algebraic@,
            a,
            b,
            bases.algebraic@.len(),
        ),
{
    let x = abs(a + b * m) as nat;
    let y = norm_spec(f, a, b) as nat;
    lemma_rational_factorization(x, bases.rational@, bases.rational@.len());
    lemma_algebraic_factorization(y, bases.algebraic@, a, b, bases.algebraic@.len());
    lemma_mul_basics(rational_power_product(x, bases.rational@, bases.rational@.len()));
    lemma_mul_basics(
        algebraic_power_product(y, bases.algebraic@, a, b, bases.algebraic@.len()),
    );
}

/// The rational base holds, beside each prime, the residue of `m`.
pub open spec fn holds_residues_of(base: Seq<(u64, u64)>, m: int) -> bool {
    forall|k: int| 0 <= k < base.len() ==> (#[trigger] base[k]).1 == m % (base[k].0 as int)
}

/// The column of the pair `(a, b)`, if the pair is admissible and smooth.
pub fn relation_column(
    a: i64,
    b: u64,
    m: &Integer,
    f: &MpPolynomial,
    bases: &FactorBases,
) -> (r: Option<Vec<usize>>)
    requires
        1 <= b <= i64::MAX,
        f@.len() <= u32::MAX,
        bases.well_formed(),
        holds_residues_of(bases.rational@, m@),
    ensures
        match r {
            Some(col) => admissible(a as int, b as int) && smooth(
                a as int,
                b as int,
                m@,
                f@,
                *bases,
            ) && is_relation_column(col@, a as int, b as int, m@, f@, *bases),
            None => !(admissible(a as int, b as int) && smooth(a as int, b as int, m@, f@, *bases)),
        },
{
    if a == 0 {
        return None;
    }
    let ar = mod_i64(a, b);
    if gcd(ar, b) != 1 {
        return None;
    }
    let ghost ai = a as int;
    let ghost bi = b as int;
    let ghost z = ai + bi * m@;
    let num0 = Integer::from_i64(a).add(&Integer::from_u64(b).mul(m));
    if num0.is_u64(0) {
        return None;
    }
    let mut col: Vec<usize> = Vec::new();
    let negative = num0.is_negative();
    if negative {
        col.push(0);
    }
    proof {
        lemma_column_step(Seq::<usize>::empty(), 0, negative, ai, bi, m@, f@, *bases);
        assert(col@ =~= (if negative {
            Seq::<usize>::empty().push(0usize)
        } else {
            Seq::<usize>::empty()
        }));
    }
    let ghost x = abs(z) as nat;
    let mut num = num0.magnitude();
    let nr = bases.rational.len();
    let mut k: usize = 0;
    while k < nr
        invariant
            k <= nr,
            nr == bases.rational@.len(),
            bases.well_formed(),
            holds_residues_of(bases.rational@, m@),
            z == ai + bi * m@,
            ai == a,
            bi == b,
            z != 0,
            x == abs(z),
            num@ == rational_residual(x, bases.rational@, k as nat),
            num@ > 0,
            column_upto(col@, 1 + k, ai, bi, m@, f@, *bases),
        decreases nr - k,
    {
        let (p, r) = bases.rational[k];
        assert(base_entry_ok(bases.rational@[k as int]));
        let hit = line_residue(a, b, r, p) == 0;
        let mut odd = false;
        proof {
            lemma_mul_mod_noop_right(bi, m@, p as int);
            lemma_add_mod_noop(ai, bi * m@, p as int);
            lemma_add_mod_noop(ai, bi * (r as int), p as int);
            lemma_mul_mod_noop_right(bi, r as int, p as int);
            lemma_mod_twice(m@, p as int);
        }
        if hit {
            let (rest, parity) = remove_factor(num, p);
            num = rest;
            odd = parity;
        } else {
            proof {
                lemma_skip_is_sound(z, bases.rational@, k as nat, p as int);
            }
        }
        let ghost before = col@;
        if odd {
            col.push(1 + k);
        }
        proof {
            lemma_column_step(before, 1 + k, odd, ai, bi, m@, f@, *bases);
        }
        k += 1;
    }
    let nrm = norm(f, a, b);
    let zero = Integer::from_u64(0);
    if !zero.less(&nrm) {
        return None;
    }
    let ghost y = nrm@ as nat;
    let na = bases.algebraic.len();
    let mut an = nrm;
    let mut j: usize = 0;
    while j < na
        invariant
            j <= na,
            nr == bases.rational@.len(),
            na == bases.algebraic@.len(),
            bases.well_formed(),
            ai == a,
            bi == b,
            y == norm_spec(f@, ai, bi),
            y > 0,
            an@ == algebraic_residual(y, bases.algebraic@, ai, bi, j as nat),
            an@ > 0,
            column_upto(col@, 1 + nr + j, ai, bi, m@, f@, *bases),
        decreases na - j,
    {
        let (p, r) = bases.algebraic[j];
        assert(base_entry_ok(bases.algebraic@[j as int]));
        let hit = line_residue(a, b, r, p) == 0;
        let mut odd = false;
        if hit {
            let (rest, parity) = remove_factor(an, p);
            an = rest;
            odd = parity;
        }
        let ghost before = col@;
        if odd {
            col.push(1 + nr + j);
        }
        proof {
            lemma_column_step(before, 1 + nr + j, odd, ai, bi, m@, f@, *bases);
        }
        j += 1;
    }
    if !(num.is_u64(1) && an.is_u64(1)) {
        return None;
    }
    let nq = bases.quad_char.len();
    let mut q: usize = 0;
    while q < nq
        invariant
            q <= nq,
            nr == bases.rational@.len(),
            na == bases.algebraic@.len(),
            nq == bases.quad_char@.len(),
            bases.well_formed(),
            ai == a,
            bi == b,
            column_upto(col@, 1 + nr + na + q, ai, bi, m@, f@, *bases),
        decreases nq - q,
    {
        let (p, s) = bases.quad_char[q];
        assert(base_entry_ok(bases.quad_char@[q as int]));
        let x = line_residue(a, b, s, p);
        let set = legendre(x, p) == p - 1;
        let ghost before = col@;
        if set {
            col.push(1 + nr + na + q);
        }
        proof {
            lemma_column_step(before, 1 + nr + na + q, set, ai, bi, m@, f@, *bases);
        }
        q += 1;
    }
    Some(col)
}

} // verus!
