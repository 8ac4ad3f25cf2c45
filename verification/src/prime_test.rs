//! The Miller-Rabin test on 32-bit inputs with a fixed set of three bases.

use crate::nt::mod_exp;
use crate::fermat::lemma_fermat;
use crate::primes::{lemma_minus_one_squared, lemma_square_root_of_one, prime};
use vstd::arithmetic::div_mod::*;
use vstd::arithmetic::mul::*;
use vstd::arithmetic::power::*;
use vstd::arithmetic::power2::*;
use vstd::prelude::*;
use vstd::std_specs::bits::{axiom_u32_trailing_zeros, u32_trailing_zeros};

verus! {

/// The first of the three fixed bases.
pub const BASE_0: u64 = 15;

/// The second of the three fixed bases.
pub const BASE_1: u64 = 7363882082;

/// The third of the three fixed bases.
pub const BASE_2: u64 = 992620450144556;

/// The exponent of the largest power of two that divides `m` (0 for `m = 0`).
pub open spec fn two_adicity(m: nat) -> nat
    decreases m,
{
    if m == 0 || m % 2 == 1 {
        0
    } else {
        1 + two_adicity(m / 2)
    }
}

/// `m` with every factor two divided out.
pub open spec fn odd_part(m: nat) -> nat
    decreases m,
{
    if m == 0 || m % 2 == 1 {
        m
    } else {
        odd_part(m / 2)
    }
}

/// `a^(2^r * u) mod n`: the `r`-th term of the chain of squarings that starts at `a^u`.
pub open spec fn squaring_chain(a: int, u: nat, n: int, r: nat) -> int {
    pow(a, pow2(r) * u) % n
}

/// The chain starts at 1, or one of its first `r` terms is `n - 1`.
pub open spec fn witnessed(a: int, u: nat, n: int, r: nat) -> bool {
    squaring_chain(a, u, n, 0) == 1 || exists|k: nat|
        k < r && #[trigger] squaring_chain(a, u, n, k) == n - 1
}

/// `n` is a strong probable prime to base `a`: with `n - 1 = 2^s * u` and `u`
/// odd, either `a^u = 1` or `a^(2^k * u) = -1` for some `k < s`, modulo `n`.
pub open spec fn strong_probable_prime(n: int, a: int) -> bool {
    witnessed(a, odd_part((n - 1) as nat), n, two_adicity((n - 1) as nat))
}

/// What the test with the three fixed bases decides: `n` is a strong
/// probable prime to each base reduced modulo `n`, where a base that `n`
/// divides is passed over.
pub open spec fn passes_fixed_bases(n: int) -> bool {
    &&& BASE_0 as int % n == 0 || strong_probable_prime(n, BASE_0 as int % n)
    &&& BASE_1 as int % n == 0 || strong_probable_prime(n, BASE_1 as int % n)
    &&& BASE_2 as int % n == 0 || strong_probable_prime(n, BASE_2 as int % n)
}

proof fn lemma_shift_facts(m: u32, j: u32)
    by (bit_vector)
    requires
        j < 31,
    ensures
        (m / 2) >> j == m >> ((j + 1) as u32),
        m >> 0 == m,
        m & 1 == m % 2,
{
}

/// The count of trailing zero bits is the two-adicity, and shifting them out
/// leaves the odd part.
pub proof fn lemma_trailing_zeros(m: u32)
    requires
        m > 0,
    ensures
        u32_trailing_zeros(m) == two_adicity(m as nat),
        u32_trailing_zeros(m) < 32,
        m >> u32_trailing_zeros(m) == odd_part(m as nat),
        odd_part(m as nat) % 2 == 1,
    decreases m,
{
    let t = u32_trailing_zeros(m);
    axiom_u32_trailing_zeros(m);
    lemma_shift_facts(m, 0);
    if m % 2 == 1 {
        if t > 0 {
            assert((m >> 0u32) & 1u32 == 0u32);
        }
    } else {
        let h = (m / 2) as u32;
        let t2 = u32_trailing_zeros(h);
        axiom_u32_trailing_zeros(h);
        lemma_trailing_zeros(h);
        assert(t > 0);
        if t2 + 1 < t {
            lemma_shift_facts(m, t2);
            assert((m >> ((t2 + 1) as u32)) & 1u32 == 0u32);
        }
        if t2 + 1 > t {
            lemma_shift_facts(m, (t - 1) as u32);
            assert((h >> ((t - 1) as u32)) & 1u32 == 0u32);
        }
        lemma_shift_facts(m, t2);
    }
}

/// Each term of the chain is the square of the one before it.
pub proof fn lemma_chain_step(a: int, u: nat, n: int, r: nat)
    requires
        n >= 2,
    ensures
        squaring_chain(a, u, n, r + 1) == (squaring_chain(a, u, n, r) * squaring_chain(
            a,
            u,
            n,
            r,
        )) % n,
{
    let e = pow2(r) * u;
    lemma_pow2_unfold(r + 1);
    assert(pow2(r + 1) * u == e + e) by (nonlinear_arith)
        requires
            pow2(r + 1) == 2 * pow2(r),
            e == pow2(r) * u,
    ;
    lemma_pow_adds(a, e, e);
    lemma_mul_mod_noop_general(pow(a, e), pow(a, e), n);
}

/// Once the chain reaches 1 it stays there.
pub proof fn lemma_chain_stays_one(a: int, u: nat, n: int, j: nat, k: nat)
    requires
        n >= 2,
        j <= k,
        squaring_chain(a, u, n, j) == 1,
    ensures
        squaring_chain(a, u, n, k) == 1,
    decreases k - j,
{
    if j < k {
        lemma_chain_step(a, u, n, j);
        lemma_small_mod(1, n as nat);
        lemma_chain_stays_one(a, u, n, j + 1, k);
    }
}

/// A positive number is its odd part times two to its two-adicity.
pub proof fn lemma_odd_part_times_power(m: nat)
    requires
        m > 0,
    ensures
        m == pow2(two_adicity(m)) * odd_part(m),
        odd_part(m) > 0,
    decreases m,
{
    lemma2_to64();
    if m % 2 == 1 {
        assert(pow2(0) * m == m) by (nonlinear_arith)
            requires
                pow2(0) == 1,
        ;
    } else {
        let h = m / 2;
        lemma_odd_part_times_power(h);
        lemma_pow2_unfold(two_adicity(m));
        let q = pow2(two_adicity(h));
        assert((2 * q) * odd_part(h) == 2 * (q * odd_part(h))) by (nonlinear_arith);
    }
}

/// Where the chain of squarings modulo a prime is at 1 after `r` steps, it
/// started at 1 or passed through `n - 1` before.
pub proof fn lemma_chain_reaches_one(a: int, u: nat, n: int, r: nat)
    requires
        prime(n),
        squaring_chain(a, u, n, r) == 1,
    ensures
        witnessed(a, u, n, r),
    decreases r,
{
    if r > 0 {
        let k = (r - 1) as nat;
        let x = squaring_chain(a, u, n, k);
        lemma_chain_step(a, u, n, k);
        lemma_mod_bound(pow(a, pow2(k) * u), n);
        lemma_square_root_of_one(x, n);
        if x == 1 {
            lemma_chain_reaches_one(a, u, n, k);
            if squaring_chain(a, u, n, 0) != 1 {
                let j = choose|j: nat| j < k && #[trigger] squaring_chain(a, u, n, j) == n - 1;
                assert(j < r && squaring_chain(a, u, n, j) == n - 1);
            }
        } else {
            assert(k < r && squaring_chain(a, u, n, k) == n - 1);
        }
    }
}

/// A prime is a strong probable prime to every base that it does not divide.
pub proof fn lemma_prime_is_strong_probable_prime(n: int, a: int)
    requires
        prime(n),
        a % n != 0,
    ensures
        strong_probable_prime(n, a),
{
    let m = (n - 1) as nat;
    let s = two_adicity(m);
    let u = odd_part(m);
    lemma_odd_part_times_power(m);
    lemma_fermat(a, n);
    assert(squaring_chain(a, u, n, s) == 1);
    lemma_chain_reaches_one(a, u, n, s);
}

/// A prime passes the test with the three fixed bases.
pub proof fn lemma_prime_passes(n: int)
    requires
        prime(n),
    ensures
        n == 2 || passes_fixed_bases(n),
{
    if BASE_0 as int % n != 0 {
        lemma_mod_twice(BASE_0 as int, n);
        lemma_prime_is_strong_probable_prime(n, BASE_0 as int % n);
    }
    if BASE_1 as int % n != 0 {
        lemma_mod_twice(BASE_1 as int, n);
        lemma_prime_is_strong_probable_prime(n, BASE_1 as int % n);
    }
    if BASE_2 as int % n != 0 {
        lemma_mod_twice(BASE_2 as int, n);
        lemma_prime_is_strong_probable_prime(n, BASE_2 as int % n);
    }
}

/// One more squaring that does not uncover a square root of 1 other than 1
/// and `n - 1` keeps the chain at 1 exactly where it is witnessed.
proof fn lemma_witness_step(a: int, u: nat, n: int, r: nat)
    requires
        n >= 3,
        squaring_chain(a, u, n, r) == 1 <==> witnessed(a, u, n, r),
        !(squaring_chain(a, u, n, r + 1) == 1 && squaring_chain(a, u, n, r) != 1
            && squaring_chain(a, u, n, r) != n - 1),
    ensures
        squaring_chain(a, u, n, r + 1) == 1 <==> witnessed(a, u, n, r + 1),
{
    let x = squaring_chain(a, u, n, r);
    let y = squaring_chain(a, u, n, r + 1);
    lemma_chain_step(a, u, n, r);
    if x == n - 1 {
        lemma_minus_one_squared(n);
    }
    if x == 1 {
        lemma_small_mod(1, n as nat);
    }
    if witnessed(a, u, n, r + 1) {
        if squaring_chain(a, u, n, 0) != 1 {
            let k = choose|k: nat| k < r + 1 && #[trigger] squaring_chain(a, u, n, k) == n - 1;
            if k < r {
                assert(witnessed(a, u, n, r));
            }
        } else {
            assert(witnessed(a, u, n, r));
        }
        assert(y == 1);
    }
    if y == 1 {
        if x == 1 {
            if squaring_chain(a, u, n, 0) != 1 {
                let k = choose|k: nat| k < r && #[trigger] squaring_chain(a, u, n, k) == n - 1;
                assert(k < r + 1 && squaring_chain(a, u, n, k) == n - 1);
            }
        } else {
            assert(r < r + 1 && squaring_chain(a, u, n, r) == n - 1);
        }
        assert(witnessed(a, u, n, r + 1));
    }
}

/// The strong probable prime test of `n` to one base `a < n`.
pub fn is_strong_probable_prime(n: u32, a: u64) -> (r: bool)
    requires
        n >= 2,
        a < n,
    ensures
        r == strong_probable_prime(n as int, a as int),
{
    let trailing_zeros = (n - 1).trailing_zeros();
    proof {
        lemma_trailing_zeros((n - 1) as u32);
    }
    let u = (n - 1) >> trailing_zeros;
    let ghost s = two_adicity((n - 1) as nat);
    let ghost un = odd_part((n - 1) as nat);
    let ghost ni = n as int;
    let ghost ai = a as int;
    let mut x: u64 = mod_exp(a, u as u64, n as u64);
    let mut r: u32 = 0;
    proof {
        lemma2_to64();
        assert(pow2(0) * un == un) by (nonlinear_arith)
            requires
                pow2(0) == 1,
        ;
    }
    while r < trailing_zeros
        invariant
            n >= 2,
            ni == n,
            ai == a,
            r <= trailing_zeros,
            trailing_zeros == s,
            s == two_adicity((n - 1) as nat),
            un == odd_part((n - 1) as nat),
            n >= 3 || s == 0,
            x < n,
            x == squaring_chain(ai, un, ni, r as nat),
            x == 1 <==> witnessed(ai, un, ni, r as nat),
        decreases trailing_zeros - r,
    {
        proof {
            assert(x * x <= 0xffff_ffff * 0xffff_ffff) by (nonlinear_arith)
                requires
                    x <= 0xffff_ffff,
            ;
            lemma_chain_step(ai, un, ni, r as nat);
        }
        let y = (x * x) % (n as u64);
        if y == 1 && x != 1 && x != (n as u64) - 1 {
            proof {
                if witnessed(ai, un, ni, s) {
                    assert(squaring_chain(ai, un, ni, 0) != 1);
                    let k = choose|k: nat|
                        k < s && #[trigger] squaring_chain(ai, un, ni, k) == ni - 1;
                    if k > r {
                        lemma_chain_stays_one(ai, un, ni, (r + 1) as nat, k);
                    }
                    assert(false);
                }
            }
            return false;
        }
        proof {
            lemma_witness_step(ai, un, ni, r as nat);
        }
        x = y;
        r += 1;
    }
    x == 1
}

/// The Miller-Rabin test with the bases 15, 7363882082 and 992620450144556,
/// each reduced modulo `n`; a base that reduces to zero is passed over.
pub fn miller_rabin(n: u32) -> (r: bool)
    requires
        n >= 2,
    ensures
        r == (n == 2 || passes_fixed_bases(n as int)),
        prime(n as int) ==> r,
{
    proof {
        if prime(n as int) {
            lemma_prime_passes(n as int);
        }
    }
    if n == 2 {
        return true;
    }
    let a0 = BASE_0 % (n as u64);
    if a0 != 0 && !is_strong_probable_prime(n, a0) {
        return false;
    }
    let a1 = BASE_1 % (n as u64);
    if a1 != 0 && !is_strong_probable_prime(n, a1) {
        return false;
    }
    let a2 = BASE_2 % (n as u64);
    if a2 != 0 && !is_strong_probable_prime(n, a2) {
        return false;
    }
    true
}

} // verus!
