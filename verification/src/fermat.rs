//! Fermat's little theorem, from the fact that multiplication by a unit
//! permutes the residues `1, ..., p - 1` of a prime `p`.

use crate::primes::{lemma_inverse_exists, lemma_mul_congruent, lemma_prime_divides_product, prime};
use crate::relation::lemma_divides_negative;
use vstd::arithmetic::div_mod::*;
use vstd::arithmetic::mul::*;
use vstd::arithmetic::power::*;
use vstd::prelude::*;
use vstd::seq_lib::*;

verus! {

/// Multiplication modulo `p`, as a step of a fold.
pub open spec fn times_mod(p: int) -> spec_fn(int, int) -> int {
    |acc: int, x: int| (acc * x) % p
}

/// The residues `1, ..., p - 1`.
pub open spec fn residues(p: int) -> Seq<int> {
    Seq::new((p - 1) as nat, |i: int| i + 1)
}

/// The residues of `a, 2 a, ..., (p - 1) a` modulo `p`.
pub open spec fn multiples(a: int, p: int) -> Seq<int> {
    Seq::new((p - 1) as nat, |i: int| (a * (i + 1)) % p)
}

/// The product modulo `p` of the terms of `s`.
pub open spec fn product_mod(s: Seq<int>, p: int) -> int {
    s.fold_left(1, times_mod(p))
}

proof fn lemma_times_mod_commutes(p: int)
    requires
        p > 0,
    ensures
        commutative_foldl(times_mod(p)),
{
    let f = times_mod(p);
    assert forall|x: int, y: int, v: int| #[trigger] f(f(v, x), y) == f(f(v, y), x) by {
        lemma_mul_mod_noop_left(v * x, y, p);
        lemma_mul_mod_noop_left(v * y, x, p);
        assert((v * x) * y == (v * y) * x) by (nonlinear_arith);
    }
}

/// A number strictly between `-p` and `p` that `p` divides is zero.
proof fn lemma_small_multiple(d: int, p: int)
    requires
        p > 0,
        -p < d < p,
        d % p == 0,
    ensures
        d == 0,
{
    if d > 0 {
        lemma_small_mod(d as nat, p as nat);
    } else if d < 0 {
        lemma_divides_negative(d, p);
        lemma_small_mod((-d) as nat, p as nat);
    }
}

/// The term of `multiples` at place `i` is a residue between 1 and `p - 1`.
proof fn lemma_multiple_in_range(a: int, p: int, i: int)
    requires
        prime(p),
        a % p != 0,
        0 <= i < p - 1,
    ensures
        1 <= multiples(a, p)[i] <= p - 1,
{
    lemma_mod_bound(a * (i + 1), p);
    if (a * (i + 1)) % p == 0 {
        lemma_prime_divides_product(a, i + 1, p);
        lemma_small_multiple(i + 1, p);
    }
}

/// Multiplication by `a` permutes the residues `1, ..., p - 1`.
proof fn lemma_multiples_permute(a: int, p: int)
    requires
        prime(p),
        a % p != 0,
    ensures
        multiples(a, p).to_multiset() == residues(p).to_multiset(),
{
    let s = residues(p);
    let t = multiples(a, p);
    assert(s.no_duplicates());
    assert forall|i: int, j: int| 0 <= i < t.len() && 0 <= j < t.len() && i != j implies t[i]
        != t[j] by {
        if t[i] == t[j] {
            lemma_mod_equivalence(a * (i + 1), a * (j + 1), p);
            assert(a * (i + 1) - a * (j + 1) == a * (i - j)) by (nonlinear_arith);
            lemma_prime_divides_product(a, i - j, p);
            lemma_small_multiple(i - j, p);
        }
    }
    assert(t.no_duplicates());
    s.lemma_multiset_has_no_duplicates();
    t.lemma_multiset_has_no_duplicates();
    s.to_multiset_ensures();
    t.to_multiset_ensures();
    assert forall|x: int| s.to_multiset().count(x) == t.to_multiset().count(x) by {
        if 1 <= x <= p - 1 {
            assert(s[x - 1] == x);
            assert(s.contains(x));
            let b = lemma_inverse_exists(a, p);
            let j = (b * x) % p;
            lemma_mod_bound(b * x, p);
            // a j = a b x = x (mod p)
            lemma_mul_mod_noop_right(a, b * x, p);
            assert(a * (b * x) == (a * b) * x) by (nonlinear_arith);
            lemma_small_mod(1, p as nat);
            lemma_mul_congruent(a * b, 1, x, x, p);
            lemma_mul_basics(x);
            lemma_small_mod(x as nat, p as nat);
            assert((a * j) % p == x);
            if j == 0 {
                lemma_mul_basics(a);
                lemma_small_mod(0, p as nat);
            }
            assert(t[j - 1] == x);
            assert(t.contains(x));
            assert(s.to_multiset().contains(x));
            assert(t.to_multiset().contains(x));
        } else {
            if s.contains(x) {
                let i = choose|i: int| 0 <= i < s.len() && s[i] == x;
            }
            if t.contains(x) {
                let i = choose|i: int| 0 <= i < t.len() && t[i] == x;
                lemma_multiple_in_range(a, p, i);
            }
            assert(s.to_multiset().count(x) == 0);
            assert(t.to_multiset().count(x) == 0);
        }
    }
    assert(s.to_multiset() =~= t.to_multiset());
}

/// The product of the first `n` multiples is `a^n` times the product of the
/// first `n` residues, modulo `p`.
proof fn lemma_product_of_multiples(a: int, p: int, n: nat)
    requires
        p >= 2,
        n <= p - 1,
    ensures
        product_mod(multiples(a, p).take(n as int), p) % p == (pow(a, n) * product_mod(
            residues(p).take(n as int),
            p,
        )) % p,
    decreases n,
{
    let f = times_mod(p);
    let s = residues(p);
    let t = multiples(a, p);
    if n == 0 {
        lemma_pow0(a);
        assert(t.take(0).len() == 0);
        assert(s.take(0).len() == 0);
    } else {
        let m = (n - 1) as nat;
        lemma_product_of_multiples(a, p, m);
        assert(t.take(n as int).drop_last() =~= t.take(m as int));
        assert(s.take(n as int).drop_last() =~= s.take(m as int));
        let ft = product_mod(t.take(m as int), p);
        let fs = product_mod(s.take(m as int), p);
        assert(product_mod(t.take(n as int), p) == (ft * ((a * n) % p)) % p);
        assert(product_mod(s.take(n as int), p) == (fs * n) % p);
        // ft (a n) = a^m fs a n = a^n (fs n)
        lemma_mod_twice(ft * ((a * n) % p), p);
        lemma_mul_mod_noop_right(ft, a * n, p);
        lemma_mul_congruent(ft, pow(a, m) * fs, a * n, a * n, p);
        lemma_pow_adds(a, m, 1);
        lemma_pow1(a);
        assert((pow(a, m) * fs) * (a * n) == pow(a, n) * (fs * n)) by (nonlinear_arith)
            requires
                pow(a, n) == pow(a, m) * a,
        ;
        lemma_mul_mod_noop_right(pow(a, n), fs * n, p);
    }
}

/// The product of the first `n` residues is not a multiple of the prime `p`.
proof fn lemma_product_of_residues(p: int, n: nat)
    requires
        prime(p),
        n <= p - 1,
    ensures
        product_mod(residues(p).take(n as int), p) % p != 0,
    decreases n,
{
    let s = residues(p);
    if n == 0 {
        assert(s.take(0).len() == 0);
        lemma_small_mod(1, p as nat);
    } else {
        let m = (n - 1) as nat;
        lemma_product_of_residues(p, m);
        assert(s.take(n as int).drop_last() =~= s.take(m as int));
        let fs = product_mod(s.take(m as int), p);
        assert(product_mod(s.take(n as int), p) == (fs * n) % p);
        lemma_mod_twice(fs * n, p);
        if (fs * n) % p == 0 {
            lemma_prime_divides_product(fs, n as int, p);
            lemma_small_multiple(n as int, p);
        }
    }
}

/// Fermat's little theorem: `a^(p - 1) = 1 (mod p)` for a prime `p` that
/// does not divide `a`.
pub proof fn lemma_fermat(a: int, p: int)
    requires
        prime(p),
        a % p != 0,
    ensures
        pow(a, (p - 1) as nat) % p == 1,
{
    let n = (p - 1) as nat;
    let s = residues(p);
    let t = multiples(a, p);
    lemma_multiples_permute(a, p);
    lemma_times_mod_commutes(p);
    lemma_fold_left_permutation(t, s, times_mod(p), 1);
    assert(s.take(n as int) =~= s);
    assert(t.take(n as int) =~= t);
    lemma_product_of_multiples(a, p, n);
    lemma_product_of_residues(p, n);
    let w = product_mod(s, p);
    let z = pow(a, n);
    // w = z w (mod p), so p divides (z - 1) w
    lemma_mod_equivalence(z * w, w, p);
    assert(z * w - w == (z - 1) * w) by (nonlinear_arith);
    lemma_prime_divides_product(z - 1, w, p);
    lemma_mod_equivalence(z, 1, p);
    lemma_small_mod(1, p as nat);
}

} // verus!
