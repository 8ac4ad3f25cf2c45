//! Square roots modulo a prime by the Tonelli-Shanks method.

use crate::nt::{legendre, lemma_low_bit, lemma_pow_halves, mod_exp, mod_inverse, pow_mod};
use crate::primes::{
    lemma_minus_one_squared, lemma_mul_congruent, lemma_pow_congruent, lemma_square_root_of_one,
    prime,
};
use crate::random::Generator;
use crate::roots::lemma_non_residue_below;
use vstd::arithmetic::div_mod::*;
use vstd::arithmetic::mul::*;
use vstd::arithmetic::power::*;
use vstd::prelude::*;

verus! {

/// How often a non-residue is drawn at random before the candidates are
/// tried in increasing order instead.
pub const RANDOM_DRAWS: u64 = 128;

/// `b` is a quadratic non-residue modulo `p` by Euler's criterion.
pub open spec fn euler_non_residue(b: int, p: int) -> bool {
    pow_mod(b, ((p - 1) / 2) as nat, p) == p - 1
}

/// Some candidate in `[2, hi)` is a non-residue by Euler's criterion.
pub open spec fn has_non_residue_below(hi: int, p: int) -> bool {
    exists|b: int| 2 <= b < hi && #[trigger] euler_non_residue(b, p)
}

/// For `p = 3 (mod 4)` and `a^((p - 1) / 2) = 1`, the power `a^((p + 1) / 4)`
/// squares to `a`.
proof fn lemma_three_mod_four(a: int, p: int)
    requires
        p >= 3,
        p % 4 == 3,
        pow(a, ((p - 1) / 2) as nat) % p == 1,
    ensures
        ({
            let x = pow(a, ((p + 1) / 4) as nat) % p;
            (x * x) % p == a % p
        }),
{
    let e = ((p + 1) / 4) as nat;
    let h = ((p - 1) / 2) as nat;
    assert(e + e == h + 1);
    lemma_mul_mod_noop_general(pow(a, e), pow(a, e), p);
    lemma_pow_adds(a, e, e);
    lemma_pow_adds(a, h, 1);
    lemma_pow1(a);
    lemma_small_mod(1, p as nat);
    lemma_mul_congruent(pow(a, h), 1, a, a, p);
    lemma_mul_basics(a);
}

/// A base whose Euler power is -1 is inverted by its `(p - 2)`-th power.
proof fn lemma_non_residue_inverse(b: int, p: int)
    requires
        p >= 3,
        p % 2 == 1,
        pow(b, ((p - 1) / 2) as nat) % p == p - 1,
    ensures
        (b * (pow(b, (p - 2) as nat) % p)) % p == 1,
{
    let h = ((p - 1) / 2) as nat;
    lemma_pow_adds(b, h, h);
    lemma_small_mod((p - 1) as nat, p as nat);
    lemma_mul_congruent(pow(b, h), p - 1, pow(b, h), p - 1, p);
    lemma_minus_one_squared(p);
    lemma_pow_adds(b, 1, (p - 2) as nat);
    lemma_pow1(b);
    lemma_mul_mod_noop_right(b, pow(b, (p - 2) as nat), p);
}

/// The correcting step: when `a^m` is -1, multiplying `a` by `c^2` makes it 1
/// and the root of the old `a` is the root of the new one times `1 / c`.
proof fn lemma_adjust(a: int, c: int, cinv: int, corr: int, a0: int, m: nat, p: int)
    requires
        prime(p),
        m > 0,
        pow(a, 2 * m) % p == 1,
        pow(c, 2 * m) % p == p - 1,
        (c * cinv) % p == 1,
        (a * corr * corr) % p == a0 % p,
        pow(a, m) % p != 1,
    ensures
        ({
            let a2 = (a * ((c * c) % p)) % p;
            let corr2 = (corr * cinv) % p;
            &&& pow(a2, m) % p == 1
            &&& (a2 * corr2 * corr2) % p == a0 % p
        }),
{
    let a2 = (a * ((c * c) % p)) % p;
    let corr2 = (corr * cinv) % p;
    let t = pow(a, m) % p;
    lemma_mod_bound(pow(a, m), p);
    lemma_pow_adds(a, m, m);
    lemma_mul_mod_noop_general(pow(a, m), pow(a, m), p);
    lemma_square_root_of_one(t, p);
    assert(t == p - 1);
    // a2 is congruent to a * c^2
    lemma_mul_mod_noop_right(a, c * c, p);
    lemma_mod_twice(a * ((c * c) % p), p);
    assert(a2 % p == (a * (c * c)) % p);
    lemma_pow_congruent(a2, a * (c * c), m, p);
    lemma_pow_distributes(a, c * c, m);
    lemma_pow_halves(c, m);
    lemma_small_mod((p - 1) as nat, p as nat);
    lemma_mul_congruent(pow(a, m), p - 1, pow(c * c, m), p - 1, p);
    lemma_minus_one_squared(p);
    assert(pow(a2, m) % p == 1);
    // the correction
    lemma_mod_twice(corr * cinv, p);
    lemma_mul_congruent(corr2, corr * cinv, corr2, corr * cinv, p);
    lemma_mul_congruent(a2, a * (c * c), corr2 * corr2, (corr * cinv) * (corr * cinv), p);
    assert((a * (c * c)) * ((corr * cinv) * (corr * cinv)) == (a * corr * corr) * ((c * cinv) * (
    c * cinv))) by (nonlinear_arith);
    lemma_small_mod(1, p as nat);
    lemma_mul_congruent(c * cinv, 1, c * cinv, 1, p);
    lemma_mul_congruent(a * corr * corr, a * corr * corr, (c * cinv) * (c * cinv), 1, p);
    lemma_mul_basics(a * corr * corr);
    assert(a2 * corr2 * corr2 == a2 * (corr2 * corr2)) by (nonlinear_arith);
}

/// Halving the exponent: the invariants carry over to `m / 2`, `c^2` and `cinv^2`.
proof fn lemma_halve(c: int, cinv: int, m: nat, p: int)
    requires
        p >= 2,
        m > 0,
        m % 2 == 0,
        pow(c, 2 * m) % p == p - 1,
        (c * cinv) % p == 1,
    ensures
        2 * (m / 2) == m,
        pow((c * c) % p, 2 * (m / 2)) % p == p - 1,
        (((c * c) % p) * ((cinv * cinv) % p)) % p == 1,
{
    assert(2 * (m / 2) == m);
    lemma_pow_mod_noop(c * c, m, p);
    lemma_pow_halves(c, m);
    lemma_mul_mod_noop_general(c * c, cinv * cinv, p);
    assert((c * c) * (cinv * cinv) == (c * cinv) * (c * cinv)) by (nonlinear_arith);
    lemma_small_mod(1, p as nat);
    lemma_mul_congruent(c * cinv, 1, c * cinv, 1, p);
}

/// The last step: with `a^m = 1` and `m` odd, `a^((m + 1) / 2)` is a root of `a`.
proof fn lemma_finish(a: int, corr: int, a0: int, m: nat, p: int)
    requires
        p >= 2,
        m % 2 == 1,
        pow(a, m) % p == 1,
        (a * corr * corr) % p == a0 % p,
    ensures
        ({
            let r = ((pow(a, (m + 1) / 2) % p) * corr) % p;
            (r * r) % p == a0 % p
        }),
{
    let e = (m + 1) / 2;
    let w = pow(a, e);
    let r = ((w % p) * corr) % p;
    lemma_mul_mod_noop_left(w, corr, p);
    lemma_mod_twice((w % p) * corr, p);
    lemma_mul_congruent(r, w * corr, r, w * corr, p);
    lemma_pow_adds(a, e, e);
    assert(e + e == m + 1);
    lemma_pow_adds(a, m, 1);
    lemma_pow1(a);
    assert((w * corr) * (w * corr) == pow(a, m) * (a * corr * corr)) by (nonlinear_arith)
        requires
            w * w == pow(a, m) * a,
    ;
    lemma_small_mod(1, p as nat);
    lemma_mul_congruent(pow(a, m), 1, a * corr * corr, a * corr * corr, p);
    lemma_mul_basics(a * corr * corr);
}

/// The Tonelli-Shanks iteration from the state `(a, m, corr, c, cinv)`,
/// where `c` is a power of the non-residue and `cinv` its inverse. Where
/// `a^m` is not 1, `a` is multiplied by `c^2` and the correction by
/// `cinv`. For an odd `m` the root is `a^((m + 1) / 2)` times the
/// correction; for an even `m` the iteration goes on with `m / 2` and the
/// squares of `c` and `cinv`.
pub open spec fn tonelli_iterate(a: int, m: nat, corr: int, c: int, cinv: int, p: int) -> int
    decreases m,
{
    let adjust = pow_mod(a, m, p) != 1;
    let a_next = if adjust {
        (a * ((c * c) % p)) % p
    } else {
        a
    };
    let corr_next = if adjust {
        (corr * cinv) % p
    } else {
        corr
    };
    if m % 2 == 1 || m == 0 {
        (pow_mod(a_next, (m + 1) / 2, p) * corr_next) % p
    } else {
        tonelli_iterate(a_next, m / 2, corr_next, (c * c) % p, (cinv * cinv) % p, p)
    }
}

/// The square root of `a` modulo `p = 1 (mod 4)` that the non-residue `b`
/// leads to: the iteration from `m = (p - 1) / 4`, with `c = b` and
/// its inverse `b^(p - 2)`.
pub open spec fn tonelli_root(a: int, p: int, b: int) -> int {
    tonelli_iterate(a, ((p - 1) / 4) as nat, 1, b, pow_mod(b, (p - 2) as nat, p), p)
}

/// The Tonelli-Shanks iteration for a prime `p = 1 (mod 4)`, given a
/// quadratic non-residue `b`. Returns the square root of `a` modulo `p`
/// that `b` leads to.
pub fn tonelli_shanks(a: u64, p: u64, b: u64) -> (x: u64)
    requires
        a <= u32::MAX,
        b <= u32::MAX,
        5 <= p <= u32::MAX,
        p % 4 == 1,
        pow_mod(a as int, ((p - 1) / 2) as nat, p as int) == 1,
        euler_non_residue(b as int, p as int),
    ensures
        x < p,
        x == tonelli_root(a as int, p as int, b as int),
        prime(p as int) ==> (x * x) % (p as int) == a % p,
{
    let ghost a0 = a as int;
    let ghost pi = p as int;
    let ghost target = tonelli_root(a as int, p as int, b as int);
    let mut a: u64 = a;
    let mut m: u64 = (p - 1) >> 2;
    let mut correction: u64 = 1;
    let mut c: u64 = b;
    let mut cinv: u64 = mod_inverse(b, p);
    proof {
        assert((p - 1) as u64 >> 2 == (p - 1) as u64 / 4) by (bit_vector);
        assert(2 * m == (p - 1) / 2);
        lemma_non_residue_inverse(b as int, pi);
        assert(a0 * 1 * 1 == a0) by (nonlinear_arith);
    }
    loop
        invariant_except_break
            0 < m,
            pow(c as int, (2 * m) as nat) % pi == pi - 1,
            (c * cinv) % pi == 1,
            prime(pi) ==> pow(a as int, (2 * m) as nat) % pi == 1,
            target == tonelli_iterate(
                a as int,
                m as nat,
                correction as int,
                c as int,
                cinv as int,
                pi,
            ),
        invariant
            pi == p,
            5 <= p <= u32::MAX,
            a <= u32::MAX,
            c <= u32::MAX,
            cinv < p,
            correction < p,
            m <= u32::MAX,
            prime(pi) ==> (a * correction * correction) % pi == a0 % pi,
        ensures
            m % 2 == 1,
            prime(pi) ==> pow(a as int, m as nat) % pi == 1,
            target == (pow_mod(a as int, ((m + 1) / 2) as nat, pi) * correction) % pi,
        decreases m,
    {
        proof {
            lemma_products_fit(c, c);
            lemma_products_fit(cinv, cinv);
            lemma_products_fit(correction, cinv);
            lemma_mod_bound(c * c, pi);
            lemma_products_fit(a, ((c * c) % pi) as u64);
            lemma_low_bit(m);
        }
        if mod_exp(a, m, p) != 1 {
            proof {
                if prime(pi) {
                    lemma_adjust(
                        a as int,
                        c as int,
                        cinv as int,
                        correction as int,
                        a0,
                        m as nat,
                        pi,
                    );
                }
            }
            a = (a * ((c * c) % p)) % p;
            correction = (correction * cinv) % p;
        }
        if m & 1 == 1 {
            break ;
        }
        proof {
            lemma_halve(c as int, cinv as int, m as nat, pi);
            assert(m >> 1 == m / 2) by (bit_vector);
        }
        m >>= 1;
        c = (c * c) % p;
        cinv = (cinv * cinv) % p;
    }
    proof {
        lemma_low_bit((m + 1) as u64);
        assert((m + 1) as u64 >> 1 == (m + 1) as u64 / 2) by (bit_vector);
        if prime(pi) {
            lemma_finish(a as int, correction as int, a0, m as nat, pi);
        }
    }
    let root: u64 = mod_exp(a, (m + 1) >> 1, p);
    proof {
        lemma_products_fit(root, correction);
    }
    (root * correction) % p
}

/// Looks for a quadratic non-residue modulo `p` in `[2, hi)`: a bounded
/// number of random draws first, then every candidate in increasing order.
pub fn find_non_residue(p: u64, hi: u64, rng: &mut Generator) -> (found: Option<u64>)
    requires
        3 <= p <= u32::MAX,
        2 < hi <= p,
    ensures
        match found {
            Some(b) => 2 <= b < hi && euler_non_residue(b as int, p as int),
            None => !has_non_residue_below(hi as int, p as int),
        },
{
    let mut draws: u64 = 0;
    while draws < RANDOM_DRAWS
        invariant
            3 <= p <= u32::MAX,
            2 < hi <= p,
        decreases RANDOM_DRAWS - draws,
    {
        let b = rng.in_range(2, hi);
        if legendre(b, p) == p - 1 {
            return Some(b);
        }
        draws += 1;
    }
    let mut b: u64 = 2;
    while b < hi
        invariant
            3 <= p <= u32::MAX,
            2 <= b <= hi <= p,
            forall|k: int| 2 <= k < b ==> !#[trigger] euler_non_residue(k, p as int),
        decreases hi - b,
    {
        if legendre(b, p) == p - 1 {
            return Some(b);
        }
        b += 1;
    }
    None
}

/// The non-residue `b` in `[2, hi)` leads to the root `x` of `a`.
pub open spec fn leads_to(b: int, x: int, a: int, p: int, hi: int) -> bool {
    2 <= b < hi && euler_non_residue(b, p) && x == tonelli_root(a, p, b)
}

/// `x` is the root of `a` that some non-residue in `[2, hi)` leads to.
pub open spec fn root_from_non_residue(x: int, a: int, p: int, hi: int) -> bool {
    exists|b: int| #[trigger] leads_to(b, x, a, p, hi)
}

/// A square root of `a` modulo `p`, with the non-residue that the general
/// case needs taken from `[2, hi)`. Returns 0 when that range holds none.
pub fn mod_sqrt_sampling(a: u64, p: u64, hi: u64, rng: &mut Generator) -> (x: u64)
    requires
        a <= u32::MAX,
        2 <= p <= u32::MAX,
        p == 2 ==> a == 1,
        p != 2 ==> p % 2 == 1 && pow_mod(a as int, ((p - 1) / 2) as nat, p as int) == 1,
        p % 4 == 1 ==> 2 < hi <= p,
    ensures
        p == 2 ==> x == 1,
        p % 4 == 3 ==> x == pow_mod(a as int, ((p + 1) / 4) as nat, p as int),
        p % 4 == 1 && !has_non_residue_below(hi as int, p as int) ==> x == 0,
        p % 4 == 1 && has_non_residue_below(hi as int, p as int) ==> root_from_non_residue(
            x as int,
            a as int,
            p as int,
            hi as int,
        ),
        x < p,
        p % 4 == 3 || (prime(p as int) && (p % 4 == 1 ==> has_non_residue_below(
            hi as int,
            p as int,
        ))) ==> (x * x) % (p as int) == a % p,
{
    if p == 2 {
        return 1;
    }
    proof {
        assert(p & 3 == p % 4) by (bit_vector);
        assert((p + 1) as u64 >> 2 == (p + 1) as u64 / 4) by (bit_vector);
    }
    if p & 3 == 3 {
        proof {
            lemma_three_mod_four(a as int, p as int);
        }
        return mod_exp(a, (p + 1) >> 2, p);
    }
    match find_non_residue(p, hi, rng) {
        Some(b) => {
            let x = tonelli_shanks(a, p, b);
            assert(leads_to(b as int, x as int, a as int, p as int, hi as int));
            x
        },
        None => 0,
    }
}

/// A square root of `a` modulo a prime `p`, for `a` with Legendre symbol 1.
/// The non-residue that the case `p = 1 (mod 4)` needs is taken from
/// `[2, p - 1)`.
pub fn mod_sqrt(a: u64, p: u64) -> (x: u64)
    requires
        a <= u32::MAX,
        2 <= p <= u32::MAX,
        p == 2 ==> a == 1,
        p != 2 ==> p % 2 == 1 && pow_mod(a as int, ((p - 1) / 2) as nat, p as int) == 1,
    ensures
        x < p,
        prime(p as int) ==> (x * x) % (p as int) == a % p,
        p == 2 ==> x == 1,
        p % 4 == 3 ==> x == pow_mod(a as int, ((p + 1) / 4) as nat, p as int),
        p % 4 == 1 && !has_non_residue_below(p - 1, p as int) ==> x == 0,
        p % 4 == 1 && has_non_residue_below(p - 1, p as int) ==> root_from_non_residue(
            x as int,
            a as int,
            p as int,
            p - 1,
        ),
{
    proof {
        if prime(p as int) && p % 4 == 1 {
            lemma_non_residue_below(p as int);
        }
    }
    let mut rng = Generator::new();
    mod_sqrt_sampling(a, p, p - 1, &mut rng)
}

/// The product of two operands below 2^32 fits in 64 bits.
pub proof fn lemma_products_fit(x: u64, y: u64)
    requires
        x <= u32::MAX,
        y <= u32::MAX,
    ensures
        x * y <= u64::MAX,
{
    assert(x * y <= 0xffff_ffff * 0xffff_ffff) by (nonlinear_arith)
        requires
            x <= 0xffff_ffff,
            y <= 0xffff_ffff,
    ;
}

} // verus!
