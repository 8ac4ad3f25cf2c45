//! Square roots of products: of rational integers, and of algebraic
//! integers by Newton's iteration for the inverse square root modulo
//! growing powers of a prime.

use crate::gfpolynomial::{gf_add, gf_mul_mod, rabin_test, reduced, GfPolynomial};
use crate::integer::{bit_length, Integer};
use crate::nfs::is_base_prime;
use crate::evaluation::lemma_mul_mod_eval_congruent;
use crate::polynomial::{
    derivative_spec, lemma_mul_mod_len, monic, mul_mod_spec, poly_eval, values, MpPolynomial,
};
use crate::primes::lemma_mul_congruent;
use crate::sieve::ilog2;
use crate::prime_test::miller_rabin;
use crate::random::Generator;
use vstd::arithmetic::div_mod::*;
use vstd::arithmetic::logarithm::log;
use vstd::arithmetic::mul::*;
use vstd::arithmetic::power::*;
use vstd::prelude::*;

verus! {

/// The product of the numbers of a sequence.
pub open spec fn seq_product(s: Seq<int>) -> int
    decreases s.len(),
{
    if s.len() == 0 {
        1
    } else {
        seq_product(s.drop_last()) * s[s.len() - 1]
    }
}

/// The product of a concatenation is the product of the products.
pub proof fn lemma_product_concat(a: Seq<int>, b: Seq<int>)
    ensures
        seq_product(a + b) == seq_product(a) * seq_product(b),
    decreases b.len(),
{
    if b.len() == 0 {
        assert(a + b =~= a);
        lemma_mul_basics(seq_product(a));
    } else {
        assert((a + b).drop_last() =~= a + b.drop_last());
        lemma_product_concat(a, b.drop_last());
        lemma_mul_is_associative(seq_product(a), seq_product(b.drop_last()), b[b.len() - 1]);
    }
}

/// The product of `integers[lo..hi]`, multiplied up over a balanced tree.
pub fn mul_rational_integers(integers: &Vec<Integer>, lo: usize, hi: usize) -> (r: Integer)
    requires
        lo <= hi <= integers@.len(),
    ensures
        r@ == seq_product(values(integers@).subrange(lo as int, hi as int)),
    decreases hi - lo,
{
    let ghost s = values(integers@).subrange(lo as int, hi as int);
    if hi - lo == 0 {
        return Integer::from_u64(1);
    }
    if hi - lo == 1 {
        proof {
            assert(s.drop_last().len() == 0);
            lemma_mul_basics(s[0]);
            reveal_with_fuel(seq_product, 2);
        }
        return integers[lo].copy();
    }
    let mid = lo + (hi - lo) / 2;
    let left = mul_rational_integers(integers, lo, mid);
    let right = mul_rational_integers(integers, mid, hi);
    proof {
        let a = values(integers@).subrange(lo as int, mid as int);
        let b = values(integers@).subrange(mid as int, hi as int);
        assert(s =~= a + b);
        lemma_product_concat(a, b);
    }
    left.mul(&right)
}

/// `x` squared.
pub open spec fn square(x: int) -> int {
    x * x
}

/// `n` is the square of an integer.
pub open spec fn is_square(n: int) -> bool {
    exists|x: int| #[trigger] square(x) == n
}

/// The square root of the product of `integers`, where the product is a
/// square.
pub fn rational_sqrt(integers: &Vec<Integer>) -> (r: Option<Integer>)
    ensures
        match r {
            Some(x) => x@ >= 0 && x@ * x@ == seq_product(values(integers@)),
            None => !is_square(seq_product(values(integers@))),
        },
{
    let prod = mul_rational_integers(integers, 0, integers.len());
    assert(values(integers@).subrange(0, integers@.len() as int) =~= values(integers@));
    if prod.is_negative() {
        assert forall|x: int| #[trigger] square(x) != prod@ by {
            assert(x * x >= 0) by (nonlinear_arith);
        }
        return None;
    }
    let root = prod.sqrt();
    if root.mul(&root).equals(&prod) {
        Some(root)
    } else {
        proof {
            let r = root@;
            assert forall|x: int| #[trigger] square(x) != prod@ by {
                if x * x == prod@ {
                    let y = if x < 0 {
                        -x
                    } else {
                        x
                    };
                    assert(y * y == x * x) by (nonlinear_arith)
                        requires
                            y == x || y == -x,
                    ;
                    if y <= r {
                        assert(y * y <= r * r) by (nonlinear_arith)
                            requires
                                0 <= y <= r,
                        ;
                    } else {
                        assert(y * y >= (r + 1) * (r + 1)) by (nonlinear_arith)
                            requires
                                y >= r + 1,
                                r >= 0,
                        ;
                    }
                }
            }
        }
        None
    }
}

/// The product of `s[lo..hi]` modulo the monic `f`, multiplied up over the
/// balanced tree that halves the range.
pub open spec fn tree_product(f: Seq<int>, s: Seq<Seq<int>>, lo: int, hi: int) -> Seq<int>
    decreases hi - lo,
{
    if hi - lo <= 1 {
        s[lo]
    } else {
        mul_mod_spec(
            f,
            tree_product(f, s, lo, lo + (hi - lo) / 2),
            tree_product(f, s, lo + (hi - lo) / 2, hi),
        )
    }
}

/// The coefficient sequences of a sequence of polynomials.
pub open spec fn views(v: Seq<MpPolynomial>) -> Seq<Seq<int>> {
    Seq::new(v.len(), |i: int| v[i]@)
}

/// The product of `integers[lo..hi]` modulo `f`.
pub fn mul_algebraic_integers(
    integers: &Vec<MpPolynomial>,
    lo: usize,
    hi: usize,
    f: &MpPolynomial,
) -> (r: MpPolynomial)
    requires
        lo < hi <= integers@.len(),
        monic(f@),
        forall|i: int| 0 <= i < integers@.len() ==> (#[trigger] integers@[i])@.len() <= f@.len(),
        2 * f@.len() <= usize::MAX,
    ensures
        r@ == tree_product(f@, views(integers@), lo as int, hi as int),
        r@.len() <= f@.len(),
    decreases hi - lo,
{
    if hi - lo == 1 {
        return integers[lo].clone_polynomial();
    }
    let mid = lo + (hi - lo) / 2;
    let left = mul_algebraic_integers(integers, lo, mid, f);
    let right = mul_algebraic_integers(integers, mid, hi, f);
    let r = f.mul_mod(&left, &right);
    proof {
        crate::polynomial::lemma_mul_mod_len(f@, left@, right@);
    }
    r
}

/// The values at `x` of a sequence of polynomials.
pub open spec fn values_at(polys: Seq<Seq<int>>, x: int) -> Seq<int> {
    Seq::new(polys.len(), |k: int| poly_eval(polys[k], x))
}

/// The value of `a + b x`.
pub proof fn lemma_linear_eval(a: int, b: int, x: int)
    ensures
        poly_eval(seq![a, b], x) == a + b * x,
{
    let c = seq![a, b];
    assert(c.drop_first() =~= seq![b]);
    assert(seq![b].drop_first() =~= Seq::<int>::empty());
    assert(poly_eval(Seq::<int>::empty(), x) == 0);
    assert(poly_eval(seq![b], x) == b + x * 0);
    assert(x * 0 == 0) by (nonlinear_arith);
    assert(x * b == b * x) by (nonlinear_arith);
}

/// Modulo the value `n` of `f` at `x`, the value of a product over the
/// tree is the product of the values.
pub proof fn lemma_tree_product_eval(
    f: Seq<int>,
    polys: Seq<Seq<int>>,
    lo: int,
    hi: int,
    x: int,
    n: int,
)
    requires
        monic(f),
        n == poly_eval(f, x),
        n > 0,
        0 <= lo < hi <= polys.len(),
    ensures
        poly_eval(tree_product(f, polys, lo, hi), x) % n == seq_product(
            values_at(polys, x).subrange(lo, hi),
        ) % n,
    decreases hi - lo,
{
    let v = values_at(polys, x);
    if hi - lo == 1 {
        let s = v.subrange(lo, hi);
        assert(s.drop_last().len() == 0);
        reveal_with_fuel(seq_product, 2);
        lemma_mul_basics(s[0]);
    } else {
        let mid = lo + (hi - lo) / 2;
        lemma_tree_product_eval(f, polys, lo, mid, x, n);
        lemma_tree_product_eval(f, polys, mid, hi, x, n);
        let left = tree_product(f, polys, lo, mid);
        let right = tree_product(f, polys, mid, hi);
        lemma_mul_mod_eval_congruent(f, left, right, x, n);
        let a = v.subrange(lo, mid);
        let b = v.subrange(mid, hi);
        assert(v.subrange(lo, hi) =~= a + b);
        lemma_product_concat(a, b);
        lemma_mul_congruent(
            poly_eval(left, x),
            seq_product(a),
            poly_eval(right, x),
            seq_product(b),
            n,
        );
    }
}

/// The congruence of squares. Let `f` be monic with `f(m) = n`, let the
/// polynomials `alg` have the values `rat` at `m`, let `x0` be a square
/// root of the product of `rat`, and let `root` be a square root, modulo
/// `f`, of the product of `alg` times the square of the derivative of `f`.
/// Then `x = x0 f'(m)` and `y = root(m)` have `x^2 = y^2 (mod n)`.
pub proof fn lemma_congruence_of_squares(
    f: Seq<int>,
    m: int,
    n: int,
    rat: Seq<int>,
    alg: Seq<Seq<int>>,
    x0: int,
    root: Seq<int>,
)
    requires
        monic(f),
        poly_eval(f, m) == n,
        n > 0,
        alg.len() == rat.len(),
        rat.len() > 0,
        forall|k: int| 0 <= k < alg.len() ==> poly_eval(#[trigger] alg[k], m) == rat[k],
        x0 * x0 == seq_product(rat),
        mul_mod_spec(f, root, root) == mul_mod_spec(
            f,
            tree_product(f, alg, 0, alg.len() as int),
            mul_mod_spec(f, derivative_spec(f), derivative_spec(f)),
        ),
    ensures
        ({
            let x = x0 * poly_eval(derivative_spec(f), m);
            let y = poly_eval(root, m);
            (x * x) % n == (y * y) % n
        }),
{
    let d = derivative_spec(f);
    let slope = poly_eval(d, m);
    let product = tree_product(f, alg, 0, alg.len() as int);
    let dd = mul_mod_spec(f, d, d);
    let s = mul_mod_spec(f, product, dd);
    let x = x0 * slope;
    let y = poly_eval(root, m);
    lemma_mul_mod_eval_congruent(f, root, root, m, n);
    lemma_mul_mod_eval_congruent(f, product, dd, m, n);
    lemma_mul_mod_eval_congruent(f, d, d, m, n);
    lemma_tree_product_eval(f, alg, 0, alg.len() as int, m, n);
    assert(values_at(alg, m).subrange(0, alg.len() as int) =~= rat);
    lemma_mul_congruent(poly_eval(product, m), x0 * x0, poly_eval(dd, m), slope * slope, n);
    assert(x * x == (x0 * x0) * (slope * slope)) by (nonlinear_arith)
        requires
            x == x0 * slope,
    ;
}

/// Where the search for a prime to lift from starts.
pub const LIFTING_PRIME_SEED: u64 = 1000000009;

/// How often a random start is tried for the inverse square root modulo `p`.
pub const INVERSE_ROOT_ATTEMPTS: u64 = 64;

/// `p` is fit to lift from: it passes for a prime, and `f` passes Rabin's
/// test of irreducibility modulo `p`.
pub open spec fn inert(f: Seq<int>, p: int) -> bool {
    is_base_prime(p) && rabin_test(reduced(f, p), p)
}

/// The least odd `p` from the seed on, and below 2^32, that is inert for `f`.
pub fn select_p(f: &MpPolynomial) -> (r: Option<u64>)
    requires
        monic(f@),
        f@.len() >= 2,
        2 * f@.len() <= usize::MAX - 4,
    ensures
        match r {
            Some(p) => {
                &&& LIFTING_PRIME_SEED <= p <= u32::MAX
                &&& p % 2 == 1
                &&& inert(f@, p as int)
                &&& forall|q: int|
                    LIFTING_PRIME_SEED <= q < p && q % 2 == 1 ==> !#[trigger] inert(f@, q)
            },
            None => forall|q: int|
                LIFTING_PRIME_SEED <= q <= u32::MAX && q % 2 == 1 ==> !#[trigger] inert(f@, q),
        },
{
    let mut p: u64 = LIFTING_PRIME_SEED;
    while p <= 0xffff_ffff
        invariant
            LIFTING_PRIME_SEED <= p <= 0x1_0000_0001,
            p % 2 == 1,
            monic(f@),
            f@.len() >= 2,
            2 * f@.len() <= usize::MAX - 4,
            forall|q: int| LIFTING_PRIME_SEED <= q < p && q % 2 == 1 ==> !#[trigger] inert(f@, q),
        decreases 0x1_0000_0001 - p,
    {
        if miller_rabin(p as u32) {
            let g = GfPolynomial::from_mp_polynomial(f, p);
            proof {
                lemma_small_mod(1, p as nat);
            }
            if g.is_irreducible() {
                return Some(p);
            }
        }
        p += 2;
    }
    None
}

/// The product of `u0 + u1 y` and `v0 + v1 y` modulo `y^2 - s`, with
/// coefficients that are polynomials modulo `f` and `p`.
pub fn mul_y_polynomials(
    u: &(GfPolynomial, GfPolynomial),
    v: &(GfPolynomial, GfPolynomial),
    s: &GfPolynomial,
    f: &GfPolynomial,
) -> (r: (GfPolynomial, GfPolynomial))
    requires
        f.well_formed(),
        monic(f@),
        2 * f@.len() <= usize::MAX,
        u.0@.len() < f@.len(),
        u.1@.len() < f@.len(),
        v.0@.len() < f@.len(),
        v.1@.len() < f@.len(),
        s@.len() < f@.len(),
    ensures
        r.0.well_formed(),
        r.1.well_formed(),
        r.0.p() == f.p(),
        r.1.p() == f.p(),
        r.0@.len() == f@.len() - 1,
        r.1@.len() == f@.len() - 1,
        r.0@ == gf_add(
            gf_mul_mod(f@, u.0@, v.0@, f.p()),
            gf_mul_mod(f@, gf_mul_mod(f@, u.1@, v.1@, f.p()), s@, f.p()),
            f.p(),
        ),
        r.1@ == gf_add(
            gf_mul_mod(f@, u.0@, v.1@, f.p()),
            gf_mul_mod(f@, u.1@, v.0@, f.p()),
            f.p(),
        ),
{
    proof {
        lemma_mul_mod_len(f@, u.0@, v.0@);
        lemma_mul_mod_len(f@, u.1@, v.1@);
        lemma_mul_mod_len(f@, u.0@, v.1@);
        lemma_mul_mod_len(f@, u.1@, v.0@);
    }
    let a = f.mul_mod(&u.0, &v.0);
    let b0 = f.mul_mod(&u.1, &v.1);
    proof {
        lemma_mul_mod_len(f@, b0@, s@);
    }
    let b = f.mul_mod(&b0, s);
    let c = f.mul_mod(&u.0, &v.1);
    let d = f.mul_mod(&u.1, &v.0);
    (a.add(&b), c.add(&d))
}

/// The polynomial is the constant 1.
pub open spec fn is_constant_one(c: Seq<int>) -> bool {
    c.len() >= 1 && c[0] == 1 && forall|k: int| 1 <= k < c.len() ==> #[trigger] c[k] == 0
}

/// Whether the polynomial is the constant 1.
pub fn is_one(g: &GfPolynomial) -> (r: bool)
    ensures
        r == is_constant_one(g@),
{
    if g.len() == 0 || g.coefficient(0) != 1 {
        return false;
    }
    let mut k: usize = 1;
    while k < g.len()
        invariant
            1 <= k <= g@.len(),
            g@[0] == 1,
            forall|j: int| 1 <= j < k ==> #[trigger] g@[j] == 0,
        decreases g@.len() - k,
    {
        if g.coefficient(k) != 0 {
            assert(g@[k as int] != 0);
            return false;
        }
        k += 1;
    }
    true
}

/// The product of `u.0 + u.1 y` and `v.0 + v.1 y` modulo `y^2 - s`, with
/// coefficients that are polynomials modulo `f` and `p`.
pub open spec fn y_mul(
    u: (Seq<int>, Seq<int>),
    v: (Seq<int>, Seq<int>),
    s: Seq<int>,
    f: Seq<int>,
    p: int,
) -> (Seq<int>, Seq<int>) {
    (
        gf_add(gf_mul_mod(f, u.0, v.0, p), gf_mul_mod(f, gf_mul_mod(f, u.1, v.1, p), s, p), p),
        gf_add(gf_mul_mod(f, u.0, v.1, p), gf_mul_mod(f, u.1, v.0, p), p),
    )
}

/// The power `u^e` modulo `y^2 - s`: the constant 1 for `e = 0`, and
/// otherwise `(u^2)^(e / 2)`, times `u` where `e` is odd.
pub open spec fn y_power(u: (Seq<int>, Seq<int>), e: nat, s: Seq<int>, f: Seq<int>, p: int) -> (
    Seq<int>,
    Seq<int>,
)
    decreases e,
{
    if e == 0 {
        (seq![1int], Seq::<int>::empty())
    } else {
        let h = y_power(y_mul(u, u, s, f, p), e / 2, s, f, p);
        if e % 2 == 1 {
            y_mul(u, h, s, f, p)
        } else {
            h
        }
    }
}

/// The power `u^e` modulo `y^2 - s`, by repeated squaring.
pub fn power_y_polynomials(
    u: &(GfPolynomial, GfPolynomial),
    e: &Integer,
    s: &GfPolynomial,
    f: &GfPolynomial,
) -> (r: (GfPolynomial, GfPolynomial))
    requires
        f.well_formed(),
        monic(f@),
        f@.len() >= 2,
        2 * f@.len() <= usize::MAX,
        u.0@.len() < f@.len(),
        u.1@.len() < f@.len(),
        s@.len() < f@.len(),
        e@ >= 0,
    ensures
        r.0.well_formed(),
        r.1.well_formed(),
        r.0.p() == f.p(),
        r.1.p() == f.p(),
        r.0@.len() < f@.len(),
        r.1@.len() < f@.len(),
        (r.0@, r.1@) == y_power((u.0@, u.1@), e@ as nat, s@, f@, f.p()),
    decreases e@,
{
    let p = f.modulus();
    if e.is_u64(0) {
        let one = GfPolynomial::from_coefficients(vec![1u64], p);
        proof {
            lemma_small_mod(1, p as nat);
            assert(one@ =~= seq![1int]);
        }
        return (one, GfPolynomial::new(p));
    }
    let two = Integer::from_u64(2);
    let (half, bit) = e.div_rem(&two);
    let square = mul_y_polynomials(u, u, s, f);
    let h = power_y_polynomials(&square, &half, s, f);
    if bit.is_u64(1) {
        mul_y_polynomials(u, &h, s, f)
    } else {
        h
    }
}

/// `x` is an inverse square root of `s` modulo `f` and `p`: it has as many
/// coefficients as `f` has below its leading one, and `s x^2 = 1`.
pub open spec fn is_inverse_root(x: Seq<int>, s: Seq<int>, f: Seq<int>, p: int) -> bool {
    x.len() == f.len() - 1 && is_constant_one(gf_mul_mod(f, s, gf_mul_mod(f, x, x, p), p))
}

/// What the search for an inverse square root may start from: a polynomial
/// modulo `p` of the degree of `f` less one, with a leading coefficient
/// that is not zero.
pub open spec fn is_start(c: Seq<int>, f: Seq<int>, p: int) -> bool {
    &&& c.len() == f.len() - 1
    &&& forall|k: int| 0 <= k < c.len() ==> 0 <= #[trigger] c[k] < p
    &&& c[c.len() - 1] != 0
}

/// What the start `c` leads to: the coefficient of `y` in the power
/// `(c - y)^((p^d - 1) / 2)` modulo `y^2 - s`, where `d` is the degree of
/// `f`.
pub open spec fn inverse_root_candidate(c: Seq<int>, s: Seq<int>, f: Seq<int>, p: int) -> Seq<int> {
    y_power((c, seq![p - 1]), ((pow(p, (f.len() - 1) as nat) - 1) / 2) as nat, s, f, p).1
}

/// The inverse square root of `s` that the start gives: the candidate it
/// leads to, where that is an inverse square root of `s`, and nothing where
/// it is not.
pub fn inv_sqrt_from_start(start: &GfPolynomial, s: &GfPolynomial, f: &GfPolynomial) -> (r: Option<
    GfPolynomial,
>)
    requires
        f.well_formed(),
        s.well_formed(),
        s.p() == f.p(),
        monic(f@),
        f@.len() >= 2,
        f@.len() <= u32::MAX,
        2 * f@.len() <= usize::MAX,
        s@.len() < f@.len(),
        start@.len() < f@.len(),
    ensures
        r is Some <==> is_inverse_root(inverse_root_candidate(start@, s@, f@, f.p()), s@, f@, f.p()),
        match r {
            Some(x) => x.well_formed() && x.p() == f.p() && x@ == inverse_root_candidate(
                start@,
                s@,
                f@,
                f.p(),
            ),
            None => true,
        },
{
    let p = f.modulus();
    let d = f.len() - 1;
    let order = Integer::from_u64(p).pow(d as u32);
    let one = Integer::from_u64(1);
    let two = Integer::from_u64(2);
    proof {
        lemma_pow_positive(p as int, d as nat);
    }
    let exponent = order.sub(&one).div(&two);
    let minus_one = GfPolynomial::from_coefficients(vec![p - 1], p);
    proof {
        lemma_small_mod((p - 1) as nat, p as nat);
        assert(minus_one@ =~= seq![p - 1]);
    }
    let u = (start.clone_polynomial(), minus_one);
    let v = power_y_polynomials(&u, &exponent, s, f);
    let x = v.1;
    proof {
        lemma_mul_mod_len(f@, x@, x@);
    }
    let square = f.mul_mod(&x, &x);
    let g = f.mul_mod(s, &square);
    if is_one(&g) && x.len() == d {
        Some(x)
    } else {
        None
    }
}

/// An inverse square root of `s` modulo `f` and `p`: some `r` with
/// `s r^2 = 1`. It is looked for from a bounded number of random starts,
/// and is what the first start that gives one leads to; there is none where
/// every start that was drawn fails.
pub fn inv_sqrt_mod_p(s: &GfPolynomial, f: &GfPolynomial, rng: &mut Generator) -> (r: Option<
    GfPolynomial,
>)
    requires
        f.well_formed(),
        s.well_formed(),
        s.p() == f.p(),
        monic(f@),
        f@.len() >= 2,
        f@.len() <= u32::MAX,
        2 * f@.len() <= usize::MAX,
        s@.len() < f@.len(),
    ensures
        match r {
            Some(x) => {
                &&& x.well_formed()
                &&& x.p() == f.p()
                &&& is_inverse_root(x@, s@, f@, f.p())
                &&& exists|c: Seq<int>| #[trigger]
                    is_start(c, f@, f.p()) && x@ == inverse_root_candidate(c, s@, f@, f.p())
            },
            None => exists|c: Seq<int>| #[trigger]
                is_start(c, f@, f.p()) && !is_inverse_root(
                    inverse_root_candidate(c, s@, f@, f.p()),
                    s@,
                    f@,
                    f.p(),
                ),
        },
{
    let p = f.modulus();
    let d = f.len() - 1;
    let ghost mut failed: Seq<int> = Seq::empty();
    let mut attempts: u64 = 0;
    while attempts < INVERSE_ROOT_ATTEMPTS
        invariant
            f.well_formed(),
            s.well_formed(),
            s.p() == f.p(),
            p == f.p(),
            monic(f@),
            f@.len() >= 2,
            f@.len() <= u32::MAX,
            2 * f@.len() <= usize::MAX,
            d == f@.len() - 1,
            s@.len() < f@.len(),
            attempts > 0 ==> is_start(failed, f@, f.p()) && !is_inverse_root(
                inverse_root_candidate(failed, s@, f@, f.p()),
                s@,
                f@,
                f.p(),
            ),
        decreases INVERSE_ROOT_ATTEMPTS - attempts,
    {
        attempts += 1;
        let mut start: Vec<u64> = Vec::new();
        let mut i: usize = 0;
        while i < d
            invariant
                i <= d,
                2 <= p <= u32::MAX,
                start@.len() == i,
                forall|j: int| 0 <= j < i ==> #[trigger] start@[j] < p,
                i == d ==> start@[d - 1] != 0,
            decreases d - i,
        {
            let c = if i + 1 == d {
                rng.in_range(1, p)
            } else {
                rng.in_range(0, p)
            };
            start.push(c);
            i += 1;
        }
        let ghost drawn = start@;
        let u0 = GfPolynomial::from_coefficients(start, p);
        proof {
            assert forall|k: int| 0 <= k < drawn.len() implies #[trigger] u0@[k] == drawn[k] by {
                lemma_small_mod(drawn[k] as nat, p as nat);
            }
            assert(is_start(u0@, f@, f.p()));
        }
        match inv_sqrt_from_start(&u0, s, f) {
            Some(x) => {
                return Some(x);
            },
            None => {
                proof {
                    failed = u0@;
                }
            },
        }
    }
    None
}

/// `p` is the prime to lift from: the least odd number from the seed on,
/// and below 2^32, that is inert for `f`.
pub open spec fn is_lifting_prime(f: Seq<int>, p: int) -> bool {
    &&& LIFTING_PRIME_SEED <= p <= u32::MAX
    &&& p % 2 == 1
    &&& inert(f, p)
    &&& forall|q: int| LIFTING_PRIME_SEED <= q < p && q % 2 == 1 ==> !#[trigger] inert(f, q)
}

/// No odd number from the seed on and below 2^32 is inert for `f`.
pub open spec fn no_lifting_prime(f: Seq<int>) -> bool {
    forall|q: int| LIFTING_PRIME_SEED <= q <= u32::MAX && q % 2 == 1 ==> !#[trigger] inert(f, q)
}

/// The largest number of bits among the coefficients.
pub open spec fn max_bit_length(c: Seq<int>) -> nat
    decreases c.len(),
{
    if c.len() == 0 {
        0
    } else {
        let rest = max_bit_length(c.drop_last());
        if bit_length(c.last()) > rest {
            bit_length(c.last())
        } else {
            rest
        }
    }
}

/// How often the modulus is squared: three times more than the logarithm,
/// rounded down, of the bits of the largest coefficient of `s` over the
/// bits of `p`.
pub open spec fn newton_iterations(s: Seq<int>, p: int) -> int {
    let bits = max_bit_length(s) as int;
    let l = log(2, p);
    let ratio = if l == 0 || bits / l == 0 {
        1
    } else {
        bits / l
    };
    log(2, ratio) + 3
}

/// `3 - t` with coefficients modulo `q`.
pub open spec fn three_minus_spec(t: Seq<int>, q: int) -> Seq<int> {
    Seq::new(
        t.len(),
        |k: int|
            if k == 0 {
                ((q - t[k]) % q + 3) % q
            } else {
                (q - t[k]) % q
            },
    )
}

/// The half of `c` modulo an odd `q`, for `c` in `[0, q)`: `c / 2` for an
/// even `c`, and `(c + q) / 2` for an odd one.
pub open spec fn half_mod(c: int, q: int) -> int {
    if c % 2 == 0 {
        c / 2
    } else {
        (c + q) / 2
    }
}

/// Twice the half is the number again, modulo an odd `q`, and the half of a
/// residue is a residue.
pub proof fn lemma_half_mod(c: int, q: int)
    requires
        q > 0,
        q % 2 == 1,
        0 <= c < q,
    ensures
        0 <= half_mod(c, q) < q,
        (2 * half_mod(c, q)) % q == c,
{
    lemma_small_mod(c as nat, q as nat);
    if c % 2 != 0 {
        assert(2 * half_mod(c, q) == c + q);
        lemma_mod_add_multiples_vanish(c, q);
    }
}

/// The coefficients of `t` halved modulo `q`.
pub open spec fn halved(t: Seq<int>, q: int) -> Seq<int> {
    Seq::new(t.len(), |k: int| half_mod(t[k], q))
}

/// One step of Newton's iteration for the inverse square root of `s`
/// modulo `f` and the odd `q`: `r (3 - s r^2) / 2`, with the half taken
/// modulo `q`.
pub open spec fn newton_step(s: Seq<int>, f: Seq<int>, r: Seq<int>, q: int) -> Seq<int> {
    let t = gf_mul_mod(f, reduced(s, q), gf_mul_mod(f, r, r, q), q);
    halved(gf_mul_mod(f, r, three_minus_spec(t, q), q), q)
}

/// `n` steps of Newton's iteration from `r` modulo `q`, each modulo the
/// square of the modulus before it; with what comes out stands its modulus.
pub open spec fn lifted(s: Seq<int>, f: Seq<int>, r: Seq<int>, q: int, n: nat) -> (Seq<int>, int)
    decreases n,
{
    if n == 0 {
        (r, q)
    } else {
        lifted(s, f, newton_step(s, f, r, q * q), q * q, (n - 1) as nat)
    }
}

/// The coefficients of `t` moved to the residues around zero: one with as
/// many bits as `q`, or one less, stands for itself minus `q`.
pub open spec fn centered_spec(t: Seq<int>, q: int) -> Seq<int> {
    Seq::new(
        t.len(),
        |k: int|
            if bit_length(q) >= 1 && bit_length(t[k]) >= bit_length(q) - 1 {
                t[k] - q
            } else {
                t[k]
            },
    )
}

/// What the inverse square root `x` of `s` modulo `f` and `p` is lifted to:
/// `s` times the inverse square root modulo the last modulus, with
/// coefficients around zero.
pub open spec fn root_candidate(s: Seq<int>, f: Seq<int>, x: Seq<int>, p: int) -> Seq<int> {
    let (r, q) = lifted(s, f, x, p, newton_iterations(s, p) as nat);
    centered_spec(gf_mul_mod(f, reduced(s, q), r, q), q)
}

/// The root of `s` modulo `f` that the inverse square root `start` of `s`
/// modulo `f` and `p` is lifted to by Newton's iteration
/// `r <- r (3 - s r^2) / 2` modulo `p^2, p^4, ...`: the candidate, where
/// its square modulo `f` is `s` exactly, and nothing where it is not.
pub fn lift_root(s: &MpPolynomial, f: &MpPolynomial, start: &GfPolynomial) -> (r: Option<
    MpPolynomial,
>)
    requires
        monic(f@),
        f@.len() >= 2,
        2 * f@.len() <= usize::MAX - 4,
        s@.len() == f@.len() - 1,
        start.well_formed(),
        start@.len() == f@.len() - 1,
    ensures
        ({
            let candidate = root_candidate(s@, f@, start@, start.p());
            &&& r is Some <==> mul_mod_spec(f@, candidate, candidate) == s@
            &&& r is Some ==> r->Some_0@ == candidate
        }),
{
    let p = start.modulus();
    let mut r = start.lift();
    let mut max_bits: u64 = 0;
    let coefficients = s.coefficients_ref();
    let mut k: usize = 0;
    while k < coefficients.len()
        invariant
            k <= coefficients@.len(),
            values(coefficients@) == s@,
            max_bits == max_bit_length(s@.take(k as int)),
        decreases coefficients@.len() - k,
    {
        let bits = coefficients[k].significant_bits();
        proof {
            assert(s@[k as int] == coefficients@[k as int]@);
            assert(s@.take(k + 1).drop_last() =~= s@.take(k as int));
        }
        if bits > max_bits {
            max_bits = bits;
        }
        k += 1;
    }
    proof {
        assert(s@.take(k as int) =~= s@);
    }
    let log2p = ilog2(p) as u64;
    let ratio = if log2p == 0 || max_bits / log2p == 0 {
        1
    } else {
        max_bits / log2p
    };
    let num_iterations = ilog2(ratio) + 3;
    let two = Integer::from_u64(2);
    let three = Integer::from_u64(3);
    let mut q = Integer::from_u64(p);
    let mut i: u32 = 0;
    while i < num_iterations
        invariant
            i <= num_iterations,
            monic(f@),
            f@.len() >= 2,
            2 * f@.len() <= usize::MAX - 4,
            s@.len() == f@.len() - 1,
            r@.len() == f@.len() - 1,
            q@ >= 2,
            two@ == 2,
            three@ == 3,
            lifted(s@, f@, start@, start.p(), num_iterations as nat) == lifted(
                s@,
                f@,
                r@,
                q@,
                (num_iterations - i) as nat,
            ),
        decreases num_iterations - i,
    {
        proof {
            assert(q@ * q@ >= 2) by (nonlinear_arith)
                requires
                    q@ >= 2,
            ;
        }
        let ghost before = r@;
        q = q.mul(&q);
        let s_mod_q = s.reduce_mod(&q);
        proof {
            lemma_mul_mod_len(f@, r@, r@);
            assert(s_mod_q@ =~= reduced(s@, q@));
        }
        let product = f.mul_mod(&r, &r);
        let r_squared = product.reduce_mod(&q);
        proof {
            lemma_mul_mod_len(f@, s_mod_q@, r_squared@);
            assert(r_squared@ =~= gf_mul_mod(f@, r@, r@, q@));
        }
        let product = f.mul_mod(&s_mod_q, &r_squared);
        let t = product.reduce_mod(&q);
        let correction = three_minus(&t, &q, &three);
        proof {
            lemma_mul_mod_len(f@, r@, correction@);
            assert(t@ =~= gf_mul_mod(f@, reduced(s@, q@), gf_mul_mod(f@, r@, r@, q@), q@));
        }
        let product = f.mul_mod(&r, &correction);
        let next = product.reduce_mod(&q);
        proof {
            assert(next@ =~= gf_mul_mod(f@, r@, correction@, q@));
        }
        r = halve_mod(&next, &q, &two);
        proof {
            assert(r@ == newton_step(s@, f@, before, q@));
        }
        i += 1;
    }
    let s_mod_q = s.reduce_mod(&q);
    proof {
        lemma_mul_mod_len(f@, s_mod_q@, r@);
        assert(s_mod_q@ =~= reduced(s@, q@));
    }
    let product = f.mul_mod(&s_mod_q, &r);
    let root_mod_q = product.reduce_mod(&q);
    proof {
        assert(root_mod_q@ =~= gf_mul_mod(f@, reduced(s@, q@), r@, q@));
    }
    let root = centered(&root_mod_q, &q);
    proof {
        lemma_mul_mod_len(f@, root@, root@);
    }
    let check = f.mul_mod(&root, &root);
    if check.same(s) {
        Some(root)
    } else {
        None
    }
}

/// The root of `s` that the start `c` of the search for an inverse square
/// root modulo `p` leads to: the inverse square root that `c` gives is
/// lifted, and there is no root where `c` gives none or where what was
/// lifted does not square to `s`.
pub open spec fn root_from_start(s: Seq<int>, f: Seq<int>, p: int, c: Seq<int>) -> Option<
    Seq<int>,
> {
    let x = inverse_root_candidate(c, reduced(s, p), reduced(f, p), p);
    let root = root_candidate(s, f, x, p);
    if is_inverse_root(x, reduced(s, p), reduced(f, p), p) && mul_mod_spec(f, root, root) == s {
        Some(root)
    } else {
        None
    }
}

/// `r` is what the start `c` leads to, modulo the prime `p` to lift from.
pub open spec fn arises_from(r: Option<Seq<int>>, s: Seq<int>, f: Seq<int>, p: int, c: Seq<int>) -> bool {
    is_lifting_prime(f, p) && is_start(c, reduced(f, p), p) && root_from_start(s, f, p, c) == r
}

/// The coefficients of the root, where there is one.
pub open spec fn root_view(r: Option<MpPolynomial>) -> Option<Seq<int>> {
    match r {
        Some(root) => Some(root@),
        None => None,
    }
}

/// The root of `s` in the ring of polynomials modulo the monic `f`: some
/// `r` with `r^2 = s` modulo `f`, exactly. It is found as `s` times an
/// inverse square root of `s`, which is lifted from a root modulo an inert
/// prime `p` to roots modulo `p^2, p^4, ...` by Newton's iteration
/// `r <- r (3 - s r^2) / 2`. The modulus is squared three times more than
/// it takes to pass the largest coefficient of `s` in bits, which is about
/// twice as far as the coefficients of the root reach. `None` where no inert prime is
/// found; otherwise the result is what one of the random starts leads to,
/// the first that gives an inverse square root modulo `p` where one does,
/// which is `None` where no root modulo `p` is found or where what was
/// lifted does not square to `s`.
pub fn algebraic_sqrt(s: &MpPolynomial, f: &MpPolynomial, rng: &mut Generator) -> (r: Option<
    MpPolynomial,
>)
    requires
        monic(f@),
        f@.len() >= 2,
        f@.len() <= u32::MAX,
        2 * f@.len() <= usize::MAX - 4,
        s@.len() == f@.len() - 1,
    ensures
        r is Some ==> mul_mod_spec(f@, r->Some_0@, r->Some_0@) == s@,
        no_lifting_prime(f@) ==> r is None,
        !no_lifting_prime(f@) ==> exists|p: int, c: Seq<int>| #[trigger]
            arises_from(root_view(r), s@, f@, p, c),
{
    let p = match select_p(f) {
        Some(p) => p,
        None => {
            return None;
        },
    };
    assert(is_lifting_prime(f@, p as int));
    assert(!no_lifting_prime(f@));
    let s_mod_p = GfPolynomial::from_mp_polynomial(s, p);
    let f_mod_p = GfPolynomial::from_mp_polynomial(f, p);
    proof {
        lemma_small_mod(1, p as nat);
    }
    let start = match inv_sqrt_mod_p(&s_mod_p, &f_mod_p, rng) {
        Some(x) => x,
        None => {
            proof {
                let c = choose|c: Seq<int>| #[trigger]
                    is_start(c, f_mod_p@, p as int) && !is_inverse_root(
                        inverse_root_candidate(c, s_mod_p@, f_mod_p@, p as int),
                        s_mod_p@,
                        f_mod_p@,
                        p as int,
                    );
                assert(arises_from(None, s@, f@, p as int, c));
            }
            return None;
        },
    };
    let r = lift_root(s, f, &start);
    proof {
        let c = choose|c: Seq<int>| #[trigger]
            is_start(c, f_mod_p@, p as int) && start@ == inverse_root_candidate(
                c,
                s_mod_p@,
                f_mod_p@,
                p as int,
            );
        assert(arises_from(root_view(r), s@, f@, p as int, c));
    }
    r
}

/// `3 - t` with coefficients modulo `q`.
fn three_minus(t: &MpPolynomial, q: &Integer, three: &Integer) -> (r: MpPolynomial)
    requires
        q@ > 0,
        three@ == 3,
    ensures
        r@ == three_minus_spec(t@, q@),
{
    let src = t.coefficients_ref();
    let mut out: Vec<Integer> = Vec::new();
    let mut k: usize = 0;
    while k < src.len()
        invariant
            k <= src@.len(),
            q@ > 0,
            values(src@) == t@,
            out@.len() == k,
            forall|j: int|
                0 <= j < k ==> (#[trigger] out@[j])@ == (if j == 0 {
                    ((q@ - t@[j]) % q@ + three@) % q@
                } else {
                    (q@ - t@[j]) % q@
                }),
        decreases src@.len() - k,
    {
        assert(t@[k as int] == src@[k as int]@);
        let negated = q.sub(&src[k]).rem(q);
        let c = if k == 0 {
            negated.add(three).rem(q)
        } else {
            negated
        };
        out.push(c);
        k += 1;
    }
    let r = MpPolynomial::from_coefficients(out);
    assert(r@.len() == values(out@).len());
    assert(t@.len() == values(src@).len());
    assert forall|j: int| 0 <= j < t@.len() implies #[trigger] r@[j] == (if j == 0 {
        ((q@ - t@[j]) % q@ + three@) % q@
    } else {
        (q@ - t@[j]) % q@
    }) by {
        assert(r@[j] == out@[j]@);
    }
    assert(r@ =~= three_minus_spec(t@, q@));
    r
}

/// The coefficients of `t` halved modulo `q`.
fn halve_mod(t: &MpPolynomial, q: &Integer, two: &Integer) -> (r: MpPolynomial)
    requires
        two@ == 2,
    ensures
        r@ == halved(t@, q@),
{
    let src = t.coefficients_ref();
    let mut out: Vec<Integer> = Vec::new();
    let mut k: usize = 0;
    while k < src.len()
        invariant
            k <= src@.len(),
            two@ == 2,
            values(src@) == t@,
            out@.len() == k,
            forall|j: int| 0 <= j < k ==> (#[trigger] out@[j])@ == half_mod(t@[j], q@),
        decreases src@.len() - k,
    {
        assert(t@[k as int] == src@[k as int]@);
        let (half, bit) = src[k].div_rem(two);
        if bit.is_u64(0) {
            out.push(half);
        } else {
            out.push(src[k].add(q).div(two));
        }
        k += 1;
    }
    let r = MpPolynomial::from_coefficients(out);
    assert(r@.len() == values(out@).len());
    assert(t@.len() == values(src@).len());
    assert forall|j: int| 0 <= j < t@.len() implies #[trigger] r@[j] == half_mod(t@[j], q@) by {
        assert(r@[j] == out@[j]@);
    }
    assert(r@ =~= halved(t@, q@));
    r
}

/// The coefficients of `t`, which lie in `[0, q)`, moved to the residues
/// around zero: a coefficient with as many bits as `q`, or one less, stands
/// for itself minus `q`.
fn centered(t: &MpPolynomial, q: &Integer) -> (r: MpPolynomial)
    ensures
        r@ == centered_spec(t@, q@),
{
    let src = t.coefficients_ref();
    let q_bits = q.significant_bits();
    let mut out: Vec<Integer> = Vec::new();
    let mut k: usize = 0;
    while k < src.len()
        invariant
            k <= src@.len(),
            values(src@) == t@,
            q_bits == bit_length(q@),
            out@.len() == k,
            forall|j: int|
                0 <= j < k ==> (#[trigger] out@[j])@ == (if bit_length(q@) >= 1 && bit_length(
                    t@[j],
                ) >= bit_length(q@) - 1 {
                    t@[j] - q@
                } else {
                    t@[j]
                }),
        decreases src@.len() - k,
    {
        assert(t@[k as int] == src@[k as int]@);
        let c = &src[k];
        if q_bits >= 1 && c.significant_bits() >= q_bits - 1 {
            out.push(c.sub(q));
        } else {
            out.push(c.copy());
        }
        k += 1;
    }
    let r = MpPolynomial::from_coefficients(out);
    assert(r@.len() == values(out@).len());
    assert(t@.len() == values(src@).len());
    assert forall|j: int| 0 <= j < t@.len() implies #[trigger] r@[j] == (if bit_length(q@) >= 1
        && bit_length(t@[j]) >= bit_length(q@) - 1 {
        t@[j] - q@
    } else {
        t@[j]
    }) by {
        assert(r@[j] == out@[j]@);
    }
    assert(r@ =~= centered_spec(t@, q@));
    r
}

} // verus!
