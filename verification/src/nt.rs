//! Modular arithmetic on operands below 2^32, so that every product fits in
//! 64 bits.

use crate::mod_sqrt::{has_non_residue_below, mod_sqrt_sampling, root_from_non_residue};
use crate::prime_test::{
    is_strong_probable_prime, lemma_prime_passes, passes_fixed_bases, BASE_0, BASE_1, BASE_2,
};
use crate::fermat::lemma_fermat;
use crate::random::Generator;
use crate::roots::lemma_non_residue_below;
use crate::primes::{lemma_square_root_of_one, prime};
use vstd::arithmetic::div_mod::*;
use vstd::arithmetic::mul::*;
use vstd::arithmetic::power::*;
use vstd::prelude::*;

verus! {

/// `a^e mod n`, with the convention that the empty product is 1 whatever `n` is.
pub open spec fn pow_mod(a: int, e: nat, n: int) -> int {
    if e == 0 {
        1
    } else {
        pow(a, e) % n
    }
}

/// Facts about the two bit operations that square-and-multiply uses.
pub proof fn lemma_low_bit(b: u64)
    by (bit_vector)
    ensures
        b & 1 == b % 2,
        b >> 1 == b / 2,
{
}

/// `a^(2h) = (a*a)^h` and `a^(2h+1) = a * (a*a)^h`.
pub proof fn lemma_pow_halves(a: int, h: nat)
    ensures
        pow(a * a, h) == pow(a, 2 * h),
        a * pow(a * a, h) == pow(a, 2 * h + 1),
{
    lemma_square_is_pow2(a);
    lemma_pow_multiplies(a, 2, h);
    lemma_pow_adds(a, 1, 2 * h);
    lemma_pow1(a);
}

/// One round of square-and-multiply keeps `c * a^b` fixed modulo `n`.
proof fn lemma_mod_exp_step(c: int, a: int, b: nat, n: int)
    requires
        n > 0,
        b > 0,
    ensures
        b % 2 == 1 ==> (((c * a) % n) * pow((a * a) % n, b / 2)) % n == (c * pow(a, b)) % n,
        b % 2 == 0 ==> (c * pow((a * a) % n, b / 2)) % n == (c * pow(a, b)) % n,
{
    let h = b / 2;
    let sq = pow((a * a) % n, h);
    lemma_pow_halves(a, h);
    lemma_pow_mod_noop(a * a, h, n);
    assert(sq % n == pow(a, 2 * h) % n);
    if b % 2 == 1 {
        assert(b == 2 * h + 1);
        lemma_mul_mod_noop_general(c * a, sq, n);
        lemma_mul_mod_noop_general(c * a, pow(a, 2 * h), n);
        assert((((c * a) % n) * sq) % n == ((c * a) * pow(a, 2 * h)) % n);
        lemma_mul_is_associative(c, a, pow(a, 2 * h));
    } else {
        assert(b == 2 * h);
        lemma_mul_mod_noop_general(c, sq, n);
        lemma_mul_mod_noop_general(c, pow(a, 2 * h), n);
    }
}

/// Right-to-left square-and-multiply.
pub fn mod_exp(a: u64, b: u64, n: u64) -> (c: u64)
    requires
        a <= u32::MAX,
        1 <= n <= u32::MAX,
    ensures
        c == pow_mod(a as int, b as nat, n as int),
        c < n || (b == 0 && c == 1),
{
    let mut a: u64 = a;
    let mut b: u64 = b;
    let mut c: u64 = 1;
    let ghost a0 = a as int;
    let ghost b0 = b as nat;
    proof {
        lemma_mul_basics(pow(a0, b0));
    }
    while b != 0
        invariant
            1 <= n <= u32::MAX,
            a <= u32::MAX,
            b0 == 0 ==> c == 1 && b == 0,
            b0 != 0 ==> c < n || (c == 1 && b > 0),
            (c * pow(a as int, b as nat)) % (n as int) == pow(a0, b0) % (n as int),
        decreases b,
    {
        proof {
            lemma_low_bit(b);
            lemma_mod_exp_step(c as int, a as int, b as nat, n as int);
            assert(c * a <= 0xffff_ffff * 0xffff_ffff) by (nonlinear_arith)
                requires
                    c <= 0xffff_ffff,
                    a <= 0xffff_ffff,
            ;
            assert(a * a <= 0xffff_ffff * 0xffff_ffff) by (nonlinear_arith)
                requires
                    a <= 0xffff_ffff,
            ;
        }
        if b & 1 == 1 {
            c = (c * a) % n;
        }
        a = (a * a) % n;
        b >>= 1;
    }
    proof {
        lemma_pow0(a as int);
        lemma_mul_basics(c as int);
        if b0 != 0 {
            lemma_small_mod(c as nat, n as nat);
        }
    }
    c
}

/// Euler's criterion: `a^((p - 1) / 2) mod p`, which for an odd prime `p` is 1
/// when `a` is a nonzero square modulo `p` and `p - 1` when it is not.
pub fn legendre(a: u64, p: u64) -> (r: u64)
    requires
        a <= u32::MAX,
        1 <= p <= u32::MAX,
    ensures
        r == pow_mod(a as int, ((p - 1) / 2) as nat, p as int),
        prime(p as int) && p > 2 ==> (if a % p == 0 {
            r == 0
        } else {
            r == 1 || r == p - 1
        }),
{
    proof {
        lemma_low_bit((p - 1) as u64);
        if prime(p as int) && p > 2 {
            lemma_euler_power(a as int, p as int);
        }
    }
    mod_exp(a, (p - 1) >> 1, p)
}

/// Modulo an odd prime `p`, the power `a^((p - 1) / 2)` is 0 where `p`
/// divides `a`, and 1 or -1 where it does not.
pub proof fn lemma_euler_power(a: int, p: int)
    requires
        prime(p),
        p > 2,
    ensures
        a % p == 0 ==> pow(a, ((p - 1) / 2) as nat) % p == 0,
        a % p != 0 ==> pow(a, ((p - 1) / 2) as nat) % p == 1 || pow(a, ((p - 1) / 2) as nat) % p
            == p - 1,
{
    let h = ((p - 1) / 2) as nat;
    let x = pow(a, h) % p;
    lemma_mod_bound(pow(a, h), p);
    if p % 2 == 0 {
        assert(p % 2 != 0);
    }
    if a % p == 0 {
        lemma_pow_adds(a, 1, (h - 1) as nat);
        lemma_pow1(a);
        lemma_mul_mod_noop_left(a, pow(a, (h - 1) as nat), p);
        lemma_mul_basics(pow(a, (h - 1) as nat));
        lemma_small_mod(0, p as nat);
    } else {
        lemma_fermat(a, p);
        lemma_pow_adds(a, h, h);
        assert(h + h == p - 1);
        lemma_mul_mod_noop_general(pow(a, h), pow(a, h), p);
        lemma_square_root_of_one(x, p);
    }
}

/// `a^(p - 2) mod p`, the inverse of `a` modulo a prime `p` that does not
/// divide `a`.
pub fn mod_inverse(a: u64, p: u64) -> (r: u64)
    requires
        a <= u32::MAX,
        2 <= p <= u32::MAX,
    ensures
        r == pow_mod(a as int, (p - 2) as nat, p as int),
        prime(p as int) && a % p != 0 ==> (a * r) % (p as int) == 1,
{
    proof {
        if prime(p as int) && a % p != 0 {
            lemma_inverse_by_power(a as int, p as int);
        }
    }
    mod_exp(a, p - 2, p)
}

/// Modulo a prime `p`, the power `a^(p - 2)` is the inverse of an `a` that
/// `p` does not divide.
pub proof fn lemma_inverse_by_power(a: int, p: int)
    requires
        prime(p),
        a % p != 0,
    ensures
        (a * pow_mod(a, (p - 2) as nat, p)) % p == 1,
{
    lemma_fermat(a, p);
    lemma_pow_adds(a, 1, (p - 2) as nat);
    lemma_pow1(a);
    lemma_pow0(a);
    lemma_mul_mod_noop_right(a, pow(a, (p - 2) as nat), p);
    if p == 2 {
        lemma_mul_basics(a);
    }
}

/// Whether `n` passes for a prime: the strong probable prime test to the
/// bases 15, 7363882082 and 992620450144556, each reduced modulo `n`, where
/// a base that reduces to zero is passed over. Every prime passes.
pub fn is_prime(n: u32) -> (r: bool)
    requires
        n >= 2,
    ensures
        r == (n == 2 || passes_fixed_bases(n as int)),
        prime(n as int) ==> r,
{
    proof {
        if prime(n as int) {
            lemma_prime_passes(n as int);
        }
    }
    if n == 2 {
        return true;
    }
    let a0 = BASE_0 % (n as u64);
    let a1 = BASE_1 % (n as u64);
    let a2 = BASE_2 % (n as u64);
    (a0 == 0 || is_strong_probable_prime(n, a0)) && (a1 == 0 || is_strong_probable_prime(n, a1))
        && (a2 == 0 || is_strong_probable_prime(n, a2))
}

/// A square root of `a` modulo a prime `p`, for `a` with Legendre symbol 1.
/// The non-residue that the case `p = 1 (mod 4)` needs is taken from `[2, p)`.
pub fn mod_sqrt(a: u64, p: u64) -> (x: u64)
    requires
        a <= u32::MAX,
        2 <= p <= u32::MAX,
        p == 2 ==> a == 1,
        p != 2 ==> p % 2 == 1 && pow_mod(a as int, ((p - 1) / 2) as nat, p as int) == 1,
    ensures
        x < p,
        prime(p as int) ==> (x * x) % (p as int) == a % p,
        p == 2 ==> x == 1,
        p % 4 == 3 ==> x == pow_mod(a as int, ((p + 1) / 4) as nat, p as int),
        p % 4 == 1 && !has_non_residue_below(p as int, p as int) ==> x == 0,
        p % 4 == 1 && has_non_residue_below(p as int, p as int) ==> root_from_non_residue(
            x as int,
            a as int,
            p as int,
            p as int,
        ),
{
    proof {
        if prime(p as int) && p % 4 == 1 {
            lemma_non_residue_below(p as int);
        }
    }
    let mut rng = Generator::new();
    mod_sqrt_sampling(a, p, p, &mut rng)
}

} // verus!
