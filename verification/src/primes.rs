//! Primality as a specification, and the facts about arithmetic modulo a
//! prime that the square-root and primality routines rest on.

use vstd::arithmetic::div_mod::*;
use vstd::arithmetic::mul::*;
use vstd::arithmetic::power::*;
use vstd::prelude::*;

verus! {

/// `p` has no divisor strictly between 1 and itself.
pub open spec fn prime(p: int) -> bool {
    p >= 2 && forall|d: int| 1 < d < p ==> #[trigger] (p % d) != 0
}

/// Congruent factors give congruent products.
pub proof fn lemma_mul_congruent(x: int, x2: int, y: int, y2: int, p: int)
    requires
        p > 0,
        x % p == x2 % p,
        y % p == y2 % p,
    ensures
        (x * y) % p == (x2 * y2) % p,
{
    lemma_mul_mod_noop_general(x, y, p);
    lemma_mul_mod_noop_general(x2, y2, p);
}

/// Congruent bases give congruent powers.
pub proof fn lemma_pow_congruent(x: int, x2: int, e: nat, p: int)
    requires
        p > 0,
        x % p == x2 % p,
    ensures
        pow(x, e) % p == pow(x2, e) % p,
{
    lemma_pow_mod_noop(x, e, p);
    lemma_pow_mod_noop(x2, e, p);
}

/// `(p - 1)^2 = 1 (mod p)`.
pub proof fn lemma_minus_one_squared(p: int)
    requires
        p >= 2,
    ensures
        ((p - 1) * (p - 1)) % p == 1,
{
    assert((p - 1) * (p - 1) == p * (p - 2) + 1) by (nonlinear_arith);
    lemma_mod_multiples_vanish(p - 2, 1, p);
    lemma_small_mod(1, p as nat);
}

/// A number that leaves remainder 1 is one more than a multiple of `p`.
pub proof fn lemma_one_less_is_multiple(z: int, p: int)
    requires
        p >= 2,
        z % p == 1,
    ensures
        (z - 1) % p == 0,
{
    lemma_fundamental_div_mod(z, p);
    assert(z - 1 == (z / p) * p) by (nonlinear_arith)
        requires
            z == p * (z / p) + 1,
    ;
    lemma_mod_multiples_basic(z / p, p);
}

/// Modulo a prime, every residue other than zero has an inverse.
pub proof fn lemma_inverse_exists(a: int, p: int) -> (x: int)
    requires
        prime(p),
        a % p != 0,
    ensures
        (a * x) % p == 1,
    decreases a % p,
{
    let r = a % p;
    lemma_mod_bound(a, p);
    if r == 1 {
        lemma_mul_basics(a);
        1
    } else {
        let q = p / r;
        let s = p % r;
        assert(s != 0);
        lemma_mod_bound(p, r);
        lemma_fundamental_div_mod(p, r);
        lemma_small_mod(s as nat, p as nat);
        let y = lemma_inverse_exists(s, p);
        let x = -q * y;
        assert(r * x == p * (-y) + s * y) by (nonlinear_arith)
            requires
                p == r * q + s,
                x == -q * y,
        ;
        lemma_mod_multiples_vanish(-y, s * y, p);
        lemma_mul_mod_noop_left(a, x, p);
        x
    }
}

/// Euclid's lemma: a prime that divides a product divides one of the factors.
pub proof fn lemma_prime_divides_product(a: int, b: int, p: int)
    requires
        prime(p),
        (a * b) % p == 0,
    ensures
        a % p == 0 || b % p == 0,
{
    if a % p != 0 {
        let x = lemma_inverse_exists(a, p);
        lemma_small_mod(1, p as nat);
        lemma_mul_congruent(b, b, a * x, 1, p);
        lemma_mul_basics(b);
        assert(b * (a * x) == (a * b) * x) by (nonlinear_arith);
        lemma_mul_mod_noop_left(a * b, x, p);
        lemma_mul_basics(x);
        lemma_small_mod(0, p as nat);
    }
}

/// Modulo a prime, 1 has exactly the square roots 1 and `p - 1`.
pub proof fn lemma_square_root_of_one(x: int, p: int)
    requires
        prime(p),
        0 <= x < p,
        (x * x) % p == 1,
    ensures
        x == 1 || x == p - 1,
{
    lemma_one_less_is_multiple(x * x, p);
    assert((x - 1) * (x + 1) == x * x - 1) by (nonlinear_arith);
    lemma_prime_divides_product(x - 1, x + 1, p);
    if x == 0 {
        assert(x * x == 0) by (nonlinear_arith)
            requires
                x == 0,
        ;
        lemma_small_mod(0, p as nat);
    } else if (x - 1) % p == 0 {
        lemma_small_mod((x - 1) as nat, p as nat);
    } else {
        if x + 1 < p {
            lemma_small_mod((x + 1) as nat, p as nat);
        }
    }
}

} // verus!
