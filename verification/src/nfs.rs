//! The number field sieve: parameters, factor bases, the collection of
//! relations line by line, and the extraction of factors from dependencies.

use crate::gfpolynomial::{is_root, GfPolynomial};
use crate::integer::{abs, bit_length, floor_root, gcd_of, Integer};
use crate::bits::bit;
use crate::kernel::{columns_in_kernel, find_dependencies};
use crate::squares::{lemma_dependency_gives_square, member_values};
use crate::linalg::{lemma_built_matrix_well_formed, BlockMatrix, CscMatrixBuilder};
use crate::polynomial::{monic, select, values};
use crate::random::Generator;
use crate::sqrt::{
    algebraic_sqrt, lemma_congruence_of_squares, lemma_linear_eval, mul_algebraic_integers,
    rational_sqrt, views,
};
use vstd::arithmetic::mul::*;
use crate::relation::{
    admissible, algebraic_parity, algebraic_power_product, expected_bit, gcd_spec,
    holds_residues_of, is_relation_column, lemma_smooth_pair_factors, norm_spec, rational_parity,
    rational_power_product, relation_column, smooth, FactorBases,
};
use crate::sieve::{ilog2_rounded, line_sieve, log2_rounded, saturated, sieve_hits};
use crate::polynomial::{derivative_spec, poly_eval, MpPolynomial};
use crate::prime_test::{miller_rabin, passes_fixed_bases};
use crate::primes::prime;
use crate::sieve::base_ok;
use vstd::arithmetic::div_mod::*;
use vstd::arithmetic::power::pow;
use vstd::arithmetic::power2::{lemma_pow2_pos, lemma_pow2_strictly_increases, pow2};
use vstd::prelude::*;

verus! {

/// How many relations are collected beyond the number of rows of the
/// matrix, so that dependencies are certain to exist.
pub const OVERSQUARENESS: usize = 32;

/// The parameters of one factorization.
pub struct Params {
    pub polynomial_degree: u32,
    pub rational_base_size: usize,
    pub algebraic_base_size: usize,
    pub quad_char_base_size: usize,
    pub sieve_array_size: usize,
    pub rational_fudge: i8,
    pub algebraic_threshold: i8,
}

impl Params {
    /// The parameters for numbers of up to 64 bits.
    pub open spec fn small() -> Params {
        Params {
            polynomial_degree: 3,
            rational_base_size: 400,
            algebraic_base_size: 400,
            quad_char_base_size: 24,
            sieve_array_size: 20000,
            rational_fudge: 12,
            algebraic_threshold: 26,
        }
    }

    /// The parameters for numbers of 65 to 96 bits.
    pub open spec fn medium() -> Params {
        Params {
            polynomial_degree: 3,
            rational_base_size: 1500,
            algebraic_base_size: 1500,
            quad_char_base_size: 32,
            sieve_array_size: 60000,
            rational_fudge: 14,
            algebraic_threshold: 34,
        }
    }

    /// The parameters for numbers of more than 96 bits.
    pub open spec fn large() -> Params {
        Params {
            polynomial_degree: 4,
            rational_base_size: 4000,
            algebraic_base_size: 4000,
            quad_char_base_size: 48,
            sieve_array_size: 200000,
            rational_fudge: 16,
            algebraic_threshold: 44,
        }
    }

    /// The parameters by the number of bits.
    pub open spec fn table(bits: int) -> Params {
        if bits <= 64 {
            Params::small()
        } else if bits <= 96 {
            Params::medium()
        } else {
            Params::large()
        }
    }

    /// The parameters by the size of the number.
    pub open spec fn for_size(n: int) -> Params {
        if abs(n) < pow2(64) {
            Params::small()
        } else if abs(n) < pow2(96) {
            Params::medium()
        } else {
            Params::large()
        }
    }

    /// The parameters for a number of `bits` bits.
    pub fn for_bits(bits: u64) -> (p: Params)
        ensures
            p == Params::table(bits as int),
    {
        if bits <= 64 {
            Params {
                polynomial_degree: 3,
                rational_base_size: 400,
                algebraic_base_size: 400,
                quad_char_base_size: 24,
                sieve_array_size: 20000,
                rational_fudge: 12,
                algebraic_threshold: 26,
            }
        } else if bits <= 96 {
            Params {
                polynomial_degree: 3,
                rational_base_size: 1500,
                algebraic_base_size: 1500,
                quad_char_base_size: 32,
                sieve_array_size: 60000,
                rational_fudge: 14,
                algebraic_threshold: 34,
            }
        } else {
            Params {
                polynomial_degree: 4,
                rational_base_size: 4000,
                algebraic_base_size: 4000,
                quad_char_base_size: 48,
                sieve_array_size: 200000,
                rational_fudge: 16,
                algebraic_threshold: 44,
            }
        }
    }

    /// The parameters for `n`, by its number of bits.
    pub fn new(n: &Integer) -> (p: Params)
        ensures
            p == Params::for_size(n@),
    {
        let bits = n.significant_bits();
        proof {
            if n@ != 0 {
                if bits <= 64 {
                    if bits < 64 {
                        lemma_pow2_strictly_increases(bits as nat, 64);
                    }
                } else {
                    if bits > 65 {
                        lemma_pow2_strictly_increases(64, (bits - 1) as nat);
                    }
                    if bits <= 96 {
                        if bits < 96 {
                            lemma_pow2_strictly_increases(bits as nat, 96);
                        }
                    } else if bits > 97 {
                        lemma_pow2_strictly_increases(96, (bits - 1) as nat);
                    }
                }
            } else {
                lemma_pow2_pos(64);
            }
        }
        Params::for_bits(bits)
    }
}

/// What passes for a prime in the factor bases: 2, and what the
/// Miller-Rabin test with the fixed bases accepts.
pub open spec fn is_base_prime(p: int) -> bool {
    p >= 2 && (p == 2 || passes_fixed_bases(p))
}

/// The primes of a base increase, with ties broken by the residues.
pub open spec fn base_increases(base: Seq<(u64, u64)>) -> bool {
    forall|i: int, j: int|
        0 <= i < j < base.len() ==> (#[trigger] base[i]).0 < (#[trigger] base[j]).0 || (base[i].0
            == base[j].0 && base[i].1 < base[j].1)
}

/// The pair `e` comes before `(p, r)`.
pub open spec fn before(e: (u64, u64), p: int, r: int) -> bool {
    e.0 < p || (e.0 == p && e.1 < r)
}

/// The rational factor base: the first `size` primes, each with the residue
/// of `m`. It is shorter only when the primes below 2^32 run out.
pub fn rational_factor_base(m: &Integer, size: usize) -> (base: Vec<(u64, u64)>)
    ensures
        base@.len() <= size,
        base_ok(base@),
        base_increases(base@),
        forall|k: int|
            0 <= k < base@.len() ==> is_base_prime((#[trigger] base@[k]).0 as int) && base@[k].1
                == m@ % (base@[k].0 as int),
        forall|q: int|
            2 <= q <= u32::MAX && #[trigger] is_base_prime(q) && (base@.len() < size || (
            base@.len() > 0 && q <= base@[base@.len() - 1].0)) ==> exists|k: int|
                0 <= k < base@.len() && (#[trigger] base@[k]).0 == q,
{
    let mut base: Vec<(u64, u64)> = Vec::new();
    let mut p: u64 = 2;
    while base.len() < size && p <= 0xffff_ffff
        invariant
            2 <= p <= 0x1_0000_0000,
            base@.len() <= size,
            base_ok(base@),
            base_increases(base@),
            forall|k: int| 0 <= k < base@.len() ==> (#[trigger] base@[k]).0 < p,
            forall|k: int|
                0 <= k < base@.len() ==> is_base_prime((#[trigger] base@[k]).0 as int)
                    && base@[k].1 == m@ % (base@[k].0 as int),
            forall|q: int|
                2 <= q < p && #[trigger] is_base_prime(q) ==> exists|k: int|
                    0 <= k < base@.len() && (#[trigger] base@[k]).0 == q,
        decreases 0x1_0000_0000 - p,
    {
        let ghost old_base = base@;
        if miller_rabin(p as u32) {
            let r = m.mod_u64(p);
            proof {
                lemma_mod_bound(m@, p as int);
            }
            base.push((p, r));
            assert(base@[old_base.len() as int] == (p, r));
        }
        proof {
            assert forall|q: int| 2 <= q < p + 1 && #[trigger] is_base_prime(q) implies exists|
                k: int,
            |
                0 <= k < base@.len() && (#[trigger] base@[k]).0 == q by {
                if q < p {
                    let k = choose|k: int| 0 <= k < old_base.len() && (#[trigger] old_base[k]).0 == q;
                    assert(base@[k].0 == q);
                } else {
                    assert(base@[old_base.len() as int].0 == q);
                }
            }
        }
        p += 1;
    }
    base
}

/// The prime `q` with the root `s` of `f` modulo `q` belongs in a base of
/// prime ideals; in a base of quadratic characters only if the root is
/// simple.
pub open spec fn ideal_at(f: Seq<int>, q: int, s: int, simple: bool) -> bool {
    &&& is_base_prime(q)
    &&& q <= u32::MAX
    &&& is_root(f, q, s)
    &&& simple ==> poly_eval(derivative_spec(f), s) % q != 0
}

/// An entry of a base of prime ideals: a prime `p` with a root `r` of `f`
/// modulo `p`, which for a base of quadratic characters is a simple root.
pub open spec fn is_ideal(f: Seq<int>, e: (u64, u64), simple: bool) -> bool {
    ideal_at(f, e.0 as int, e.1 as int, simple)
}

/// The pair `(q, s)` is an entry of the base.
pub open spec fn listed(base: Seq<(u64, u64)>, q: int, s: int) -> bool {
    exists|k: int| 0 <= k < base.len() && (#[trigger] base[k]).0 == q && base[k].1 == s
}

/// From `start` on, every pair that belongs in the base and comes before
/// `(p, r)` is listed.
pub open spec fn complete_before(
    f: Seq<int>,
    base: Seq<(u64, u64)>,
    start: int,
    simple: bool,
    p: int,
    r: int,
) -> bool {
    forall|q: int, s: int|
        start <= q && #[trigger] ideal_at(f, q, s, simple) && (q < p || (q == p && s < r))
            ==> listed(base, q, s)
}

/// What is listed stays listed when an entry is added.
proof fn lemma_listed_after_push(base: Seq<(u64, u64)>, e: (u64, u64), q: int, s: int)
    requires
        listed(base, q, s) || (e.0 == q && e.1 == s),
    ensures
        listed(base.push(e), q, s),
{
    let next = base.push(e);
    if listed(base, q, s) {
        let k = choose|k: int| 0 <= k < base.len() && (#[trigger] base[k]).0 == q && base[k].1 == s;
        assert(next[k].0 == q && next[k].1 == s);
    } else {
        assert(next[base.len() as int].0 == q && next[base.len() as int].1 == s);
    }
}

/// The first `size` pairs `(p, r)`, in increasing order, of a prime
/// `p >= start` and a root `r` of `f` modulo `p`; with `simple`, only the
/// roots at which the derivative does not vanish count. No pair is passed
/// over, and the base is shorter only when the primes below 2^32 run out.
pub fn ideal_base(f: &MpPolynomial, start: u64, size: usize, simple: bool) -> (base: Vec<
    (u64, u64),
>)
    requires
        start >= 2,
    ensures
        base@.len() <= size,
        base_ok(base@),
        base_increases(base@),
        forall|k: int|
            0 <= k < base@.len() ==> is_ideal(f@, #[trigger] base@[k], simple) && base@[k].0
                >= start,
        base@.len() < size ==> complete_before(f@, base@, start as int, simple, 0x1_0000_0000, 0),
        base@.len() > 0 ==> complete_before(
            f@,
            base@,
            start as int,
            simple,
            base@[base@.len() - 1].0 as int,
            base@[base@.len() - 1].1 as int,
        ),
{
    let mut base: Vec<(u64, u64)> = Vec::new();
    let derivative = f.derivative();
    let mut p: u64 = start;
    while base.len() < size && p <= 0xffff_ffff
        invariant
            2 <= start <= p,
            p <= 0x1_0000_0000 || start > 0x1_0000_0000,
            base@.len() <= size,
            derivative@ == derivative_spec(f@),
            base_ok(base@),
            base_increases(base@),
            forall|k: int| 0 <= k < base@.len() ==> (#[trigger] base@[k]).0 < p,
            forall|k: int|
                0 <= k < base@.len() ==> is_ideal(f@, #[trigger] base@[k], simple) && base@[k].0
                    >= start,
            base@.len() < size ==> complete_before(f@, base@, start as int, simple, p as int, 0),
            base@.len() > 0 ==> complete_before(
                f@,
                base@,
                start as int,
                simple,
                base@[base@.len() - 1].0 as int,
                base@[base@.len() - 1].1 as int,
            ),
        decreases 0x1_0000_0000 - p,
    {
        if miller_rabin(p as u32) {
            let roots = f.find_roots_mod_p(p);
            let slope = GfPolynomial::from_mp_polynomial(&derivative, p);
            let mut i: usize = 0;
            while i < roots.len() && base.len() < size
                invariant
                    i <= roots@.len(),
                    2 <= start <= p <= u32::MAX,
                    is_base_prime(p as int),
                    base@.len() <= size,
                    slope.well_formed(),
                    slope.p() == p,
                    slope@ == crate::gfpolynomial::reduced(derivative_spec(f@), p as int),
                    forall|a: int, b: int| 0 <= a < b < roots@.len() ==> roots@[a] < roots@[b],
                    forall|a: int|
                        0 <= a < roots@.len() ==> is_root(f@, p as int, #[trigger] roots@[a] as int),
                    forall|r: int|
                        #[trigger] is_root(f@, p as int, r) ==> roots@.contains(r as u64),
                    base_ok(base@),
                    base_increases(base@),
                    forall|k: int|
                        0 <= k < base@.len() ==> before(#[trigger] base@[k], p as int, (if i
                            < roots@.len() {
                            roots@[i as int] as int
                        } else {
                            p as int
                        })),
                    forall|k: int|
                        0 <= k < base@.len() ==> is_ideal(f@, #[trigger] base@[k], simple)
                            && base@[k].0 >= start,
                    complete_before(f@, base@, start as int, simple, p as int, (if i
                        < roots@.len() {
                        roots@[i as int] as int
                    } else {
                        p as int
                    })),
                    base@.len() > 0 ==> complete_before(
                        f@,
                        base@,
                        start as int,
                        simple,
                        base@[base@.len() - 1].0 as int,
                        base@[base@.len() - 1].1 as int,
                    ),
                decreases roots@.len() - i,
            {
                let r = roots[i];
                assert(is_root(f@, p as int, roots@[i as int] as int));
                proof {
                    crate::gfpolynomial::lemma_eval_reduced(
                        derivative_spec(f@),
                        p as int,
                        r as int,
                    );
                }
                let ghost old_base = base@;
                let ghost next_frontier = if i + 1 < roots@.len() {
                    roots@[i + 1] as int
                } else {
                    p as int
                };
                let qualifies = !simple || slope.evaluate(r) != 0;
                if qualifies {
                    base.push((p, r));
                    assert(base@[old_base.len() as int] == (p, r));
                    assert(base_increases(base@)) by {
                        assert forall|a: int, b: int| 0 <= a < b < base@.len() implies (
                        #[trigger] base@[a]).0 < (#[trigger] base@[b]).0 || (base@[a].0
                            == base@[b].0 && base@[a].1 < base@[b].1) by {
                            if b == old_base.len() {
                                assert(before(old_base[a], p as int, r as int));
                            } else {
                                assert(old_base[a] == base@[a] && old_base[b] == base@[b]);
                            }
                        }
                    }
                }
                proof {
                    assert forall|q: int, s: int|
                        start <= q && #[trigger] ideal_at(f@, q, s, simple) && (q < p || (q == p
                            && s < next_frontier)) implies listed(base@, q, s) by {
                        if q < p || s < r {
                            assert(listed(old_base, q, s));
                            if qualifies {
                                lemma_listed_after_push(old_base, (p, r), q, s);
                            }
                        } else if s == r {
                            assert(qualifies);
                            lemma_listed_after_push(old_base, (p, r), q, s);
                        } else {
                            assert(roots@.contains(s as u64));
                            let j = choose|j: int| 0 <= j < roots@.len() && roots@[j] == s as u64;
                            if j <= i {
                                if j < i {
                                    assert(roots@[j] < roots@[i as int]);
                                }
                            } else if j > i + 1 {
                                assert(roots@[i + 1] < roots@[j]);
                            }
                            assert(false);
                        }
                    }
                    if qualifies {
                        assert forall|q: int, s: int|
                            start <= q && #[trigger] ideal_at(f@, q, s, simple) && (q < p || (q
                                == p && s < r)) implies listed(base@, q, s) by {
                            assert(listed(old_base, q, s));
                            lemma_listed_after_push(old_base, (p, r), q, s);
                        }
                    }
                }
                i += 1;
            }
            proof {
                if base@.len() < size {
                    assert(i == roots@.len());
                    assert forall|q: int, s: int|
                        start <= q && #[trigger] ideal_at(f@, q, s, simple) && (q < p + 1 || (q
                            == p + 1 && s < 0)) implies listed(base@, q, s) by {
                        if q == p {
                            assert(is_root(f@, p as int, s));
                        }
                    }
                }
            }
        } else {
            proof {
                assert forall|q: int, s: int|
                    start <= q && #[trigger] ideal_at(f@, q, s, simple) && (q < p + 1 || (q == p
                        + 1 && s < 0)) implies listed(base@, q, s) by {
                    if q == p {
                        assert(!is_base_prime(p as int));
                    } else {
                        assert(listed(base@, q, s));
                    }
                }
            }
        }
        p += 1;
    }
    proof {
        if base@.len() < size {
            assert forall|q: int, s: int|
                start <= q && #[trigger] ideal_at(f@, q, s, simple) && (q < 0x1_0000_0000 || (q
                    == 0x1_0000_0000 && s < 0)) implies listed(base@, q, s) by {
                assert(q <= u32::MAX);
            }
        }
    }
    base
}

/// The algebraic factor base: the first `size` pairs of a prime and a root
/// of `f` modulo that prime.
pub fn algebraic_factor_base(f: &MpPolynomial, size: usize) -> (base: Vec<(u64, u64)>)
    ensures
        base@.len() <= size,
        base_ok(base@),
        base_increases(base@),
        forall|k: int| 0 <= k < base@.len() ==> is_ideal(f@, #[trigger] base@[k], false),
        base@.len() < size ==> complete_before(f@, base@, 2, false, 0x1_0000_0000, 0),
        base@.len() > 0 ==> complete_before(
            f@,
            base@,
            2,
            false,
            base@[base@.len() - 1].0 as int,
            base@[base@.len() - 1].1 as int,
        ),
{
    ideal_base(f, 2, size, false)
}

/// The base of quadratic characters: the first `size` pairs of a prime
/// `p >= start` and a simple root of `f` modulo `p`.
pub fn quad_char_base(start: u64, f: &MpPolynomial, size: usize) -> (base: Vec<(u64, u64)>)
    requires
        start >= 2,
    ensures
        base@.len() <= size,
        base_ok(base@),
        base_increases(base@),
        forall|k: int|
            0 <= k < base@.len() ==> is_ideal(f@, #[trigger] base@[k], true) && base@[k].0 >= start,
        base@.len() < size ==> complete_before(f@, base@, start as int, true, 0x1_0000_0000, 0),
        base@.len() > 0 ==> complete_before(
            f@,
            base@,
            start as int,
            true,
            base@[base@.len() - 1].0 as int,
            base@[base@.len() - 1].1 as int,
        ),
{
    ideal_base(f, start, size, true)
}

/// Sets every cell of the array to `x`.
pub fn fill(v: &mut Vec<i8>, x: i8)
    ensures
        final(v)@.len() == old(v)@.len(),
        forall|i: int| 0 <= i < final(v)@.len() ==> #[trigger] final(v)@[i] == x,
{
    let n = v.len();
    let mut i: usize = 0;
    while i < n
        invariant
            i <= n,
            v@.len() == n,
            forall|j: int| 0 <= j < i ==> #[trigger] v@[j] == x,
        decreases n - i,
    {
        v.set(i, x);
        i += 1;
    }
}

/// The value that the rational sieve starts a line with: minus the rounded
/// size in bits of `b m`, plus the fudge, kept within the range of a cell.
pub fn rational_start(b: u64, m_bits: u64, fudge: i8) -> (x: i8)
    requires
        1 <= b <= u32::MAX,
    ensures
        x == clamp_to_cell(fudge - crate::sieve::log2_rounded(b as int) - m_bits),
{
    let log = ilog2_rounded(b) as i64;
    if m_bits > 1000 {
        return i8::MIN;
    }
    let v = (fudge as i64) - log - (m_bits as i64);
    if v < -128 {
        i8::MIN
    } else {
        v as i8
    }
}

/// `v` kept within the range of a sieve cell.
pub open spec fn clamp_to_cell(v: int) -> int {
    if v < -128 {
        -128
    } else if v > 127 {
        127
    } else {
        v
    }
}

/// The value that the algebraic sieve starts a line with: minus the threshold.
pub open spec fn algebraic_start_spec(threshold: i8) -> int {
    if threshold == i8::MIN {
        127
    } else {
        -(threshold as int)
    }
}

/// Both sieves leave the cell of `a` on the line `b` at zero or above.
pub open spec fn survives(a: int, b: int, m: int, bases: FactorBases, params: Params) -> bool {
    &&& saturated(
        clamp_to_cell(params.rational_fudge - log2_rounded(b) - bit_length(m)) + sieve_hits(
            bases.rational@,
            b,
            a,
            bases.rational@.len(),
        ),
    ) >= 0
    &&& saturated(
        algebraic_start_spec(params.algebraic_threshold) + sieve_hits(
            bases.algebraic@,
            b,
            a,
            bases.algebraic@.len(),
        ),
    ) >= 0
}

/// The pair `(a, b)` is collected: `a` lies in the sieve interval, the pair
/// survives both sieves, and it is admissible and smooth.
pub open spec fn collected(
    a: int,
    b: int,
    m: int,
    f: Seq<int>,
    bases: FactorBases,
    params: Params,
) -> bool {
    &&& b >= 1
    &&& -(params.sieve_array_size / 2) <= a < params.sieve_array_size - params.sieve_array_size
        / 2
    &&& survives(a, b, m, bases, params)
    &&& admissible(a, b)
    &&& smooth(a, b, m, f, bases)
}

/// The pair `rel` with the column `col` is a relation: the pair is
/// collected, and `col` lists the rows that are set for it.
pub open spec fn is_relation(
    rel: (i64, u64),
    col: Seq<usize>,
    m: int,
    f: Seq<int>,
    bases: FactorBases,
    params: Params,
) -> bool {
    &&& collected(rel.0 as int, rel.1 as int, m, f, bases, params)
    &&& is_relation_column(col, rel.0 as int, rel.1 as int, m, f, bases)
}

/// A relation is sound. For the pair `(a, b)`: `b` is at least 1, and `a`
/// is not zero, lies in the sieve interval and has no factor in common
/// with `b`. `|a + b m|` is the product of the powers of the rational
/// primes, and the norm of `a + b x` is positive and the product of the
/// powers of the algebraic primes. The column holds row 0 exactly if
/// `a + b m` is negative, the row of a rational prime exactly if its
/// exponent is odd, and the row of an algebraic prime exactly if it divides
/// `a + b r` and its exponent is odd.
pub proof fn lemma_relation_is_sound(
    rel: (i64, u64),
    col: Seq<usize>,
    m: int,
    f: Seq<int>,
    bases: FactorBases,
    params: Params,
)
    requires
        bases.well_formed(),
        is_relation(rel, col, m, f, bases, params),
    ensures
        ({
            let a = rel.0 as int;
            let b = rel.1 as int;
            let nr = bases.rational@.len() as int;
            let na = bases.algebraic@.len() as int;
            &&& b >= 1
            &&& a != 0
            &&& -(params.sieve_array_size / 2) <= a < params.sieve_array_size
                - params.sieve_array_size / 2
            &&& gcd_spec((a % b) as nat, b as nat) == 1
            &&& abs(a + b * m) == rational_power_product(
                abs(a + b * m) as nat,
                bases.rational@,
                bases.rational@.len(),
            )
            &&& norm_spec(f, a, b) > 0
            &&& norm_spec(f, a, b) == algebraic_power_product(
                norm_spec(f, a, b) as nat,
                bases.algebraic@,
                a,
                b,
                bases.algebraic@.len(),
            )
            &&& col.contains(0) <==> a + b * m < 0
            &&& forall|i: int|
                0 <= i < nr ==> (col.contains((1 + i) as usize) <==> #[trigger] rational_parity(
                    abs(a + b * m) as nat,
                    bases.rational@,
                    i,
                ))
            &&& forall|i: int|
                0 <= i < na ==> (col.contains((1 + nr + i) as usize) <==> #[trigger] algebraic_parity(
                    norm_spec(f, a, b) as nat,
                    bases.algebraic@,
                    a,
                    b,
                    i,
                ))
        }),
{
    let a = rel.0 as int;
    let b = rel.1 as int;
    let nr = bases.rational@.len() as int;
    let na = bases.algebraic@.len() as int;
    lemma_smooth_pair_factors(a, b, m, f, bases);
    assert(expected_bit(0, a, b, m, f, bases) == (a + b * m < 0));
    assert forall|i: int| 0 <= i < nr implies (col.contains((1 + i) as usize)
        <==> #[trigger] rational_parity(abs(a + b * m) as nat, bases.rational@, i)) by {
        assert(expected_bit(1 + i, a, b, m, f, bases) == rational_parity(
            abs(a + b * m) as nat,
            bases.rational@,
            i,
        ));
    }
    assert forall|i: int| 0 <= i < na implies (col.contains((1 + nr + i) as usize)
        <==> #[trigger] algebraic_parity(
        norm_spec(f, a, b) as nat,
        bases.algebraic@,
        a,
        b,
        i,
    )) by {
        assert(expected_bit(1 + nr + i, a, b, m, f, bases) == algebraic_parity(
            norm_spec(f, a, b) as nat,
            bases.algebraic@,
            a,
            b,
            i,
        ));
    }
}

/// The relations come line by line, and from left to right within a line.
pub open spec fn relations_in_order(relations: Seq<(i64, u64)>) -> bool {
    forall|i: int, j: int|
        0 <= i < j < relations.len() ==> (#[trigger] relations[i]).1 < (#[trigger] relations[j]).1
            || (relations[i].1 == relations[j].1 && relations[i].0 < relations[j].0)
}

/// Every collected pair that comes before `(a, b)` is among the relations.
pub open spec fn all_collected_before(
    relations: Seq<(i64, u64)>,
    b: int,
    a: int,
    m: int,
    f: Seq<int>,
    bases: FactorBases,
    params: Params,
) -> bool {
    forall|x: int, y: int|
        #[trigger] collected(x, y, m, f, bases, params) && (y < b || (y == b && x < a))
            ==> relations.contains((x as i64, y as u64))
}

/// Sieves line after line, `b = 1, 2, ...`, and collects the pairs that
/// survive both sieves and turn out admissible and smooth, each with its
/// column, until there are `target` of them at the end of a line or no
/// line is left. Returns the relations, the columns, and the first line
/// that was not sieved.
pub fn collect_relations(
    m: &Integer,
    f: &MpPolynomial,
    bases: &FactorBases,
    params: &Params,
    target: usize,
) -> (r: (Vec<(i64, u64)>, CscMatrixBuilder, u64))
    requires
        bases.well_formed(),
        holds_residues_of(bases.rational@, m@),
        f@.len() <= u32::MAX,
        params.sieve_array_size <= 0x7fff_ffff,
    ensures
        r.1.well_formed(),
        r.1.cols() == r.0@.len(),
        r.1.rows() == bases.rows(),
        relations_in_order(r.0@),
        forall|k: int|
            0 <= k < r.0@.len() ==> is_relation(
                #[trigger] r.0@[k],
                r.1.column(k),
                m@,
                f@,
                *bases,
                *params,
            ) && r.0@[k].1 < r.2,
        all_collected_before(
            r.0@,
            r.2 as int,
            -(params.sieve_array_size / 2),
            m@,
            f@,
            *bases,
            *params,
        ),
        1 <= r.2 <= 0xffff_ffff,
        r.0@.len() < target ==> r.2 == 0xffff_ffff,
        r.0@.len() >= target && target > 0 ==> r.0@[target - 1].1 == r.2 - 1,
{
    let size = params.sieve_array_size;
    let half = size / 2;
    let m_bits = m.significant_bits();
    let mut builder = CscMatrixBuilder::new();
    builder.set_num_rows(1 + bases.rational.len() + bases.algebraic.len() + bases.quad_char.len());
    let mut relations: Vec<(i64, u64)> = Vec::new();
    let mut rational_sieve_array: Vec<i8> = vec![0; size];
    let mut algebraic_sieve_array: Vec<i8> = vec![0; size];
    let algebraic_start: i8 = if params.algebraic_threshold == i8::MIN {
        i8::MAX
    } else {
        -params.algebraic_threshold
    };
    let mut b: u64 = 1;
    while relations.len() < target && b < 0xffff_ffff
        invariant
            1 <= b <= 0xffff_ffff,
            size == params.sieve_array_size,
            size <= 0x7fff_ffff,
            half == size / 2,
            m_bits == bit_length(m@),
            algebraic_start == algebraic_start_spec(params.algebraic_threshold),
            bases.well_formed(),
            holds_residues_of(bases.rational@, m@),
            f@.len() <= u32::MAX,
            rational_sieve_array@.len() == size,
            algebraic_sieve_array@.len() == size,
            builder.well_formed(),
            builder.cols() == relations@.len(),
            builder.rows() == bases.rows(),
            relations_in_order(relations@),
            forall|k: int| 0 <= k < relations@.len() ==> (#[trigger] relations@[k]).1 < b,
            forall|k: int|
                0 <= k < relations@.len() ==> is_relation(
                    #[trigger] relations@[k],
                    builder.column(k),
                    m@,
                    f@,
                    *bases,
                    *params,
                ),
            all_collected_before(relations@, b as int, -(half as int), m@, f@, *bases, *params),
            relations@.len() >= target && target > 0 ==> relations@[target - 1].1 == b - 1,
        decreases 0xffff_ffff - b,
    {
        fill(&mut rational_sieve_array, rational_start(b, m_bits, params.rational_fudge));
        line_sieve(b, &mut rational_sieve_array, &bases.rational);
        fill(&mut algebraic_sieve_array, algebraic_start);
        line_sieve(b, &mut algebraic_sieve_array, &bases.algebraic);
        let mut i: usize = 0;
        while i < size
            invariant
                i <= size,
                1 <= b < 0xffff_ffff,
                size == params.sieve_array_size,
                size <= 0x7fff_ffff,
                half == size / 2,
                bases.well_formed(),
                holds_residues_of(bases.rational@, m@),
                f@.len() <= u32::MAX,
                rational_sieve_array@.len() == size,
                algebraic_sieve_array@.len() == size,
                forall|j: int|
                    0 <= j < size ==> #[trigger] rational_sieve_array@[j] == saturated(
                        clamp_to_cell(
                            params.rational_fudge - log2_rounded(b as int) - bit_length(m@),
                        ) + sieve_hits(
                            bases.rational@,
                            b as int,
                            j - size / 2,
                            bases.rational@.len(),
                        ),
                    ),
                forall|j: int|
                    0 <= j < size ==> #[trigger] algebraic_sieve_array@[j] == saturated(
                        algebraic_start_spec(params.algebraic_threshold) + sieve_hits(
                            bases.algebraic@,
                            b as int,
                            j - size / 2,
                            bases.algebraic@.len(),
                        ),
                    ),
                builder.well_formed(),
                builder.cols() == relations@.len(),
                builder.rows() == bases.rows(),
                relations_in_order(relations@),
                forall|k: int|
                    0 <= k < relations@.len() ==> (#[trigger] relations@[k]).1 < b || (
                    relations@[k].1 == b && relations@[k].0 < i - half),
                forall|k: int|
                    0 <= k < relations@.len() ==> is_relation(
                        #[trigger] relations@[k],
                        builder.column(k),
                        m@,
                        f@,
                        *bases,
                        *params,
                    ),
                all_collected_before(relations@, b as int, i - half, m@, f@, *bases, *params),
                relations@.len() >= target && target > 0 ==> relations@[target - 1].1 == b,
            decreases size - i,
        {
            let ghost old_relations = relations@;
            let ghost a_int = i as int - half as int;
            let mut pushed = false;
            if rational_sieve_array[i] >= 0 && algebraic_sieve_array[i] >= 0 {
                let a: i64 = (i as i64) - (half as i64);
                match relation_column(a, b, m, f, bases) {
                    Some(col) => {
                        let ghost old_builder = builder;
                        builder.add_col(col);
                        relations.push((a, b));
                        pushed = true;
                        proof {
                            let n = old_relations.len() as int;
                            assert(relations@[n] == (a, b));
                            assert(survives(a as int, b as int, m@, *bases, *params));
                            assert forall|k: int| 0 <= k < relations@.len() implies is_relation(
                                #[trigger] relations@[k],
                                builder.column(k),
                                m@,
                                f@,
                                *bases,
                                *params,
                            ) by {
                                if k < n {
                                    assert(relations@[k] == old_relations[k]);
                                    assert(builder.column(k) == old_builder.column(k));
                                }
                            }
                            assert(relations_in_order(relations@)) by {
                                assert forall|x: int, y: int|
                                    0 <= x < y < relations@.len() implies (
                                #[trigger] relations@[x]).1 < (#[trigger] relations@[y]).1 || (
                                relations@[x].1 == relations@[y].1 && relations@[x].0
                                    < relations@[y].0) by {
                                    assert(relations@[x] == old_relations[x]);
                                    if y < n {
                                        assert(relations@[y] == old_relations[y]);
                                    }
                                }
                            }
                            if target > 0 && n >= target {
                                assert(relations@[target - 1] == old_relations[target - 1]);
                            }
                        }
                    },
                    None => {},
                }
            }
            proof {
                assert forall|x: int, y: int|
                    #[trigger] collected(x, y, m@, f@, *bases, *params) && (y < b || (y == b && x
                        < a_int + 1)) implies relations@.contains((x as i64, y as u64)) by {
                    if y < b || x < a_int {
                        assert(old_relations.contains((x as i64, y as u64)));
                        let k = choose|k: int|
                            0 <= k < old_relations.len() && old_relations[k] == (
                                x as i64,
                                y as u64,
                            );
                        assert(relations@[k] == (x as i64, y as u64));
                    } else {
                        assert(x == a_int && y == b);
                        assert(rational_sieve_array@[i as int] >= 0);
                        assert(algebraic_sieve_array@[i as int] >= 0);
                        assert(pushed);
                        assert(relations@[old_relations.len() as int] == (x as i64, y as u64));
                    }
                }
            }
            i += 1;
        }
        proof {
            assert forall|x: int, y: int|
                #[trigger] collected(x, y, m@, f@, *bases, *params) && (y < b + 1 || (y == b + 1
                    && x < -(half as int))) implies relations@.contains((x as i64, y as u64)) by {
                assert(y < b || (y == b && x < size - half));
            }
        }
        b += 1;
    }
    (relations, builder, b)
}

/// `g` is a divisor of `n` other than 1 and `n`.
pub open spec fn proper_factor(g: int, n: int) -> bool {
    1 < g < n && n % g == 0
}

/// The values increase strictly.
pub open spec fn increasing(s: Seq<int>) -> bool {
    forall|i: int, j: int| 0 <= i < j < s.len() ==> s[i] < s[j]
}

/// Puts `g` in its place in the increasing list, unless it is there already.
pub fn insert_sorted(factors: &mut Vec<Integer>, g: Integer)
    requires
        increasing(values(old(factors)@)),
    ensures
        increasing(values(final(factors)@)),
        values(final(factors)@).contains(g@),
        forall|x: int|
            values(old(factors)@).contains(x) ==> #[trigger] values(final(factors)@).contains(x),
        forall|x: int|
            #[trigger] values(final(factors)@).contains(x) ==> x == g@ || values(
                old(factors)@,
            ).contains(x),
{
    let ghost before = values(factors@);
    let n = factors.len();
    let mut i: usize = 0;
    while i < n && factors[i].less(&g)
        invariant
            i <= n,
            n == factors@.len(),
            values(factors@) == before,
            forall|k: int| 0 <= k < i ==> #[trigger] before[k] < g@,
        decreases n - i,
    {
        assert(before[i as int] == factors@[i as int]@);
        i += 1;
    }
    if i < n && factors[i].equals(&g) {
        assert(before[i as int] == factors@[i as int]@);
        assert(before[i as int] == g@);
        return ;
    }
    proof {
        if i < n {
            assert(before[i as int] == factors@[i as int]@);
        }
    }
    let ghost gv = g@;
    factors.insert(i, g);
    proof {
        let after = values(factors@);
        assert(after =~= before.insert(i as int, gv));
        assert(after[i as int] == gv);
        assert forall|a: int, b: int| 0 <= a < b < after.len() implies after[a] < after[b] by {
            if a < i && b > i {
                assert(after[a] == before[a] && after[b] == before[b - 1]);
                assert(before[a] < gv);
                assert(before[i as int] <= before[b - 1]);
            } else if a < i && b < i {
                assert(after[a] == before[a] && after[b] == before[b]);
            } else if a > i {
                assert(after[a] == before[a - 1] && after[b] == before[b - 1]);
            } else if a == i {
                assert(after[b] == before[b - 1]);
                assert(before[i as int] <= before[b - 1]);
            } else {
                assert(after[a] == before[a]);
            }
        }
        assert forall|x: int| before.contains(x) implies #[trigger] after.contains(x) by {
            let k = choose|k: int| 0 <= k < before.len() && before[k] == x;
            if k < i {
                assert(after[k] == x);
            } else {
                assert(after[k + 1] == x);
            }
        }
        assert forall|x: int| #[trigger] after.contains(x) implies x == gv || before.contains(
            x,
        ) by {
            let k = choose|k: int| 0 <= k < after.len() && after[k] == x;
            if k < i {
                assert(before[k] == x);
            } else if k > i {
                assert(before[k - 1] == x);
            }
        }
    }
}

/// A divisor of a positive `n` other than 1 and `n` lies strictly between
/// them, and so does its cofactor.
pub proof fn lemma_proper_divisor(g: int, n: int)
    requires
        n > 1,
        g > 0,
        n % g == 0,
        g != 1,
        g != n,
    ensures
        proper_factor(g, n),
        proper_factor(n / g, n),
{
    if g > n {
        lemma_small_mod(n as nat, g as nat);
    }
    lemma_fundamental_div_mod(n, g);
    let c = n / g;
    assert(c > 1 && c < n) by (nonlinear_arith)
        requires
            n == g * c,
            1 < g < n,
    ;
    lemma_mul_is_commutative(g, c);
    lemma_mod_multiples_basic(g, c);
}

/// The smaller of the divisor `g` of `n` and its cofactor.
pub open spec fn smaller_cofactor(g: int, n: int) -> int {
    if n / g < g {
        n / g
    } else {
        g
    }
}

/// Adds to the list the smaller of the divisor `g` of `n` and its cofactor,
/// unless `g` is 1 or `n`.
pub fn add_divisor(g: Integer, n: &Integer, factors: &mut Vec<Integer>)
    requires
        n@ > 1,
        g@ > 0,
        n@ % g@ == 0,
        increasing(values(old(factors)@)),
        forall|x: int| values(old(factors)@).contains(x) ==> #[trigger] proper_factor(x, n@),
    ensures
        increasing(values(final(factors)@)),
        forall|x: int| values(final(factors)@).contains(x) ==> #[trigger] proper_factor(x, n@),
        forall|x: int|
            #[trigger] values(final(factors)@).contains(x) <==> (values(old(factors)@).contains(x)
                || (g@ != 1 && g@ != n@ && x == smaller_cofactor(g@, n@))),
{
    if !g.is_u64(1) && !g.equals(n) {
        proof {
            lemma_proper_divisor(g@, n@);
        }
        let cofactor = n.div(&g);
        let smaller = if cofactor.less(&g) {
            cofactor
        } else {
            g
        };
        insert_sorted(factors, smaller);
    }
}

/// What the divisor `g` of `n` adds to the list of factors: `v` is the
/// smaller of `g` and its cofactor, and `g` is neither 1 nor `n`.
pub open spec fn splitting(g: int, n: int, v: int) -> bool {
    g != 1 && g != n && v == smaller_cofactor(g, n)
}

/// The smaller of a divisor and its cofactor is at most the square root.
pub proof fn lemma_smaller_cofactor_bound(g: int, n: int)
    requires
        n > 0,
        g > 0,
        n % g == 0,
    ensures
        smaller_cofactor(g, n) * smaller_cofactor(g, n) <= n,
{
    let h = n / g;
    lemma_fundamental_div_mod(n, g);
    assert(n == g * h);
    if h < g {
        assert(h >= 0) by (nonlinear_arith)
            requires
                n == g * h,
                n > 0,
                g > 0,
        ;
        assert(h * h <= g * h) by (nonlinear_arith)
            requires
                0 <= h < g,
        ;
    } else {
        assert(g * g <= g * h) by (nonlinear_arith)
            requires
                0 < g <= h,
        ;
    }
}

/// Adds to the list the smaller of `g = gcd(z mod n, n)` and its cofactor,
/// where `g` is neither 1 nor `n`; the list stays as it is where `g` is
/// one of the two.
pub fn split_with(z: &Integer, n: &Integer, factors: &mut Vec<Integer>)
    requires
        n@ > 1,
        increasing(values(old(factors)@)),
        forall|x: int| values(old(factors)@).contains(x) ==> #[trigger] proper_factor(x, n@),
    ensures
        increasing(values(final(factors)@)),
        forall|x: int| values(final(factors)@).contains(x) ==> #[trigger] proper_factor(x, n@),
        forall|x: int|
            #[trigger] values(final(factors)@).contains(x) <==> (values(old(factors)@).contains(x)
                || splitting(gcd_of(z@ % n@, n@), n@, x)),
        forall|x: int|
            #[trigger] values(final(factors)@).contains(x) ==> values(old(factors)@).contains(x)
                || x * x <= n@,
{
    let g = z.rem(n).gcd(n);
    proof {
        lemma_smaller_cofactor_bound(g@, n@);
    }
    add_divisor(g, n, factors);
}

/// What a congruence of squares `x^2 = y^2 (mod n)` gives: with
/// `g1 = gcd((x + y) mod n, n)` and `g2 = gcd(|x - y| mod n, n)`, the
/// smaller of `g1` and its cofactor and the smaller of `g2` and its
/// cofactor are added to the list, each unless its divisor is 1 or `n`.
pub fn split_with_congruence(x: &Integer, y: &Integer, n: &Integer, factors: &mut Vec<Integer>)
    requires
        n@ > 1,
        (x@ * x@) % n@ == (y@ * y@) % n@,
        increasing(values(old(factors)@)),
        forall|g: int| values(old(factors)@).contains(g) ==> #[trigger] proper_factor(g, n@),
    ensures
        increasing(values(final(factors)@)),
        forall|g: int| values(final(factors)@).contains(g) ==> #[trigger] proper_factor(g, n@),
        forall|v: int|
            #[trigger] values(final(factors)@).contains(v) <==> (values(old(factors)@).contains(v)
                || splitting(gcd_of((x@ + y@) % n@, n@), n@, v) || splitting(
                gcd_of(abs(x@ - y@) % n@, n@),
                n@,
                v,
            )),
        forall|v: int|
            #[trigger] values(final(factors)@).contains(v) ==> values(old(factors)@).contains(v)
                || v * v <= n@,
{
    let ghost before = values(factors@);
    let sum = x.add(y);
    let difference = if x.less(y) {
        y.sub(x)
    } else {
        x.sub(y)
    };
    split_with(&sum, n, factors);
    let ghost between = values(factors@);
    split_with(&difference, n, factors);
    proof {
        assert forall|v: int| #[trigger] values(factors@).contains(v) <==> (before.contains(v)
            || splitting(gcd_of((x@ + y@) % n@, n@), n@, v) || splitting(
            gcd_of(abs(x@ - y@) % n@, n@),
            n@,
            v,
        )) by {
            assert(between.contains(v) <==> (before.contains(v) || splitting(
                gcd_of((x@ + y@) % n@, n@),
                n@,
                v,
            )));
        }
    }
}

/// The places of the pairs among `relations` whose bit in column `column` of
/// `dep` is set, and for each of them the value `a + b m` and the
/// polynomial `a + b x`.
pub fn dependency_members(
    relations: &Vec<(i64, u64)>,
    dep: &BlockMatrix,
    column: usize,
    m: &Integer,
) -> (r: (Vec<usize>, Vec<Integer>, Vec<MpPolynomial>))
    requires
        column < 64,
        dep@.len() == relations@.len(),
    ensures
        r.0@.len() == r.1@.len() == r.2@.len(),
        forall|i: int, j: int| 0 <= i < j < r.0@.len() ==> r.0@[i] < r.0@[j],
        forall|k: int|
            0 <= k < r.0@.len() ==> (#[trigger] r.0@[k]) < relations@.len() && bit(
                dep@[r.0@[k] as int],
                column as int,
            ),
        forall|j: int|
            0 <= j < relations@.len() && bit(#[trigger] dep@[j], column as int) ==> r.0@.contains(
                j as usize,
            ),
        forall|k: int|
            0 <= k < r.0@.len() ==> (#[trigger] r.1@[k])@ == relations@[r.0@[k] as int].0
                + relations@[r.0@[k] as int].1 * m@,
        forall|k: int|
            0 <= k < r.0@.len() ==> (#[trigger] r.2@[k])@ == seq![
                relations@[r.0@[k] as int].0 as int,
                relations@[r.0@[k] as int].1 as int,
            ],
{
    let mut members: Vec<usize> = Vec::new();
    let mut rational: Vec<Integer> = Vec::new();
    let mut algebraic: Vec<MpPolynomial> = Vec::new();
    let mut j: usize = 0;
    while j < relations.len()
        invariant
            j <= relations@.len(),
            column < 64,
            dep@.len() == relations@.len(),
            members@.len() == rational@.len() == algebraic@.len(),
            forall|a: int, b: int| 0 <= a < b < members@.len() ==> members@[a] < members@[b],
            forall|k: int|
                0 <= k < members@.len() ==> (#[trigger] members@[k]) < j && bit(
                    dep@[members@[k] as int],
                    column as int,
                ),
            forall|i: int|
                0 <= i < j && bit(#[trigger] dep@[i], column as int) ==> members@.contains(
                    i as usize,
                ),
            forall|k: int|
                0 <= k < members@.len() ==> (#[trigger] rational@[k])@
                    == relations@[members@[k] as int].0 + relations@[members@[k] as int].1 * m@,
            forall|k: int|
                0 <= k < members@.len() ==> (#[trigger] algebraic@[k])@ == seq![
                    relations@[members@[k] as int].0 as int,
                    relations@[members@[k] as int].1 as int,
                ],
        decreases relations@.len() - j,
    {
        let ghost old_members = members@;
        if (dep.row(j) >> column) & 1 == 1 {
            let (a, b) = relations[j];
            let ai = Integer::from_i64(a);
            let bi = Integer::from_u64(b);
            let value = ai.add(&bi.mul(m));
            let mut pair: Vec<Integer> = Vec::new();
            pair.push(ai);
            pair.push(bi);
            let g = MpPolynomial::from_coefficients(pair);
            assert(g@ =~= seq![a as int, b as int]);
            members.push(j);
            rational.push(value);
            algebraic.push(g);
            assert(members@[old_members.len() as int] == j);
        }
        proof {
            assert forall|i: int|
                0 <= i < j + 1 && bit(#[trigger] dep@[i], column as int) implies members@.contains(
                i as usize,
            ) by {
                if i < j {
                    assert(old_members.contains(i as usize));
                    let k = choose|k: int| 0 <= k < old_members.len() && old_members[k] == i as usize;
                    assert(members@[k] == i as usize);
                }
            }
        }
        j += 1;
    }
    (members, rational, algebraic)
}

/// There is a polynomial of degree `d` for `n`: the `d`-th root `m` of `n`,
/// rounded down, is at least 2, and the leading digit of `n` in base `m`
/// is 1.
pub open spec fn selectable(n: int, d: nat) -> bool {
    floor_root(n, d) >= 2 && n < 2 * pow(floor_root(n, d), d)
}

/// The proper factors of the composite `n` that the number field sieve
/// finds, in increasing order; for each splitting, the smaller of the two
/// cofactors, which is at most the square root of `n`. The list is empty
/// where no polynomial, no relation or no dependency was found, or where no
/// dependency led to a proper factor.
pub fn factorize(n: &Integer) -> (factors: Vec<Integer>)
    requires
        n@ > 1,
        !prime(n@),
    ensures
        increasing(values(factors@)),
        forall|x: int| values(factors@).contains(x) ==> #[trigger] proper_factor(x, n@),
        forall|x: int| #[trigger] values(factors@).contains(x) ==> x * x <= n@,
        !selectable(n@, Params::for_size(n@).polynomial_degree as nat) ==> factors@.len() == 0,
{
    let mut rng = Generator::new();
    factorize_with(n, &mut rng)
}

/// The same with the random choices drawn from `rng`, so that a generator
/// made from a seed gives the same factors every time.
pub fn factorize_with(n: &Integer, rng: &mut Generator) -> (factors: Vec<Integer>)
    requires
        n@ > 1,
        !prime(n@),
    ensures
        increasing(values(factors@)),
        forall|x: int| values(factors@).contains(x) ==> #[trigger] proper_factor(x, n@),
        forall|x: int| #[trigger] values(factors@).contains(x) ==> x * x <= n@,
        !selectable(n@, Params::for_size(n@).polynomial_degree as nat) ==> factors@.len() == 0,
{
    let mut factors: Vec<Integer> = Vec::new();
    assert(values(factors@) =~= Seq::<int>::empty());
    let params = Params::new(n);
    let (f, m) = match select(n, params.polynomial_degree) {
        Some(fm) => fm,
        None => {
            return factors;
        },
    };
    // The factor bases.
    let rational = rational_factor_base(&m, params.rational_base_size);
    let algebraic = algebraic_factor_base(&f, params.algebraic_base_size);
    if algebraic.len() == 0 {
        return factors;
    }
    let last = algebraic[algebraic.len() - 1].0;
    assert(crate::sieve::base_entry_ok(algebraic@[algebraic@.len() - 1]));
    let quad_char = quad_char_base(last + 1, &f, params.quad_char_base_size);
    let bases = FactorBases { rational, algebraic, quad_char };
    proof {
        assert forall|k: int| 0 <= k < bases.rational@.len() implies (
        #[trigger] bases.rational@[k]).0 >= 2 by {
            assert(is_base_prime(bases.rational@[k].0 as int));
        }
        assert forall|k: int| 0 <= k < bases.algebraic@.len() implies (
        #[trigger] bases.algebraic@[k]).0 >= 2 by {
            assert(is_ideal(f@, bases.algebraic@[k], false));
        }
        assert forall|k: int| 0 <= k < bases.quad_char@.len() implies (
        #[trigger] bases.quad_char@[k]).0 >= 2 by {
            assert(is_ideal(f@, bases.quad_char@[k], true));
        }
    }
    // One relation for each row of the matrix and some more, so that there
    // are dependencies among the columns.
    let base_len = 1 + bases.rational.len() + bases.algebraic.len() + bases.quad_char.len();
    let (relations, builder, _lines) = collect_relations(
        &m,
        &f,
        &bases,
        &params,
        base_len + OVERSQUARENESS,
    );
    if relations.len() == 0 || relations.len() > usize::MAX - 64 {
        return factors;
    }
    proof {
        assert forall|c: int, j: int|
            0 <= c < builder.cols() && 0 <= j < builder.column(c).len() implies #[trigger] builder.column(
            c,
        )[j] < builder.rows() by {
            assert(is_relation(relations@[c], builder.column(c), m@, f@, bases, params));
        }
    }
    let ghost built = builder;
    let mat = builder.build();
    proof {
        lemma_built_matrix_well_formed(built, mat);
        assert forall|c: int| 0 <= c < relations@.len() implies is_relation(
            #[trigger] relations@[c],
            mat.column(c),
            m@,
            f@,
            bases,
            params,
        ) by {
            assert(mat.column(c) =~= built.column(c));
        }
    }
    let (dep, num_dependencies) = find_dependencies(&mat);
    // Each dependency gives a congruence of squares, which may split n.
    let derivative = f.derivative();
    let slope = derivative.evaluate(&m);
    let mut i: usize = 0;
    while i < num_dependencies
        invariant
            i <= num_dependencies <= 64,
            n@ > 1,
            monic(f@),
            bases.well_formed(),
            mat.well_formed(),
            mat.cols() == relations@.len(),
            relations@.len() <= usize::MAX - 64,
            mat.rows() == bases.rows(),
            columns_in_kernel(mat, dep@, num_dependencies as int),
            forall|c: int|
                0 <= c < relations@.len() ==> is_relation(
                    #[trigger] relations@[c],
                    mat.column(c),
                    m@,
                    f@,
                    bases,
                    params,
                ),
            poly_eval(f@, m@) == n@,
            slope@ == poly_eval(derivative_spec(f@), m@),
            derivative@ == derivative_spec(f@),
            f@.len() == params.polynomial_degree + 1,
            3 <= params.polynomial_degree <= 4,
            derivative@.len() < f@.len(),
            dep@.len() == relations@.len(),
            increasing(values(factors@)),
            forall|x: int| values(factors@).contains(x) ==> #[trigger] proper_factor(x, n@),
            forall|x: int| #[trigger] values(factors@).contains(x) ==> x * x <= n@,
        decreases num_dependencies - i,
    {
        let (members, rational_members, algebraic_members) = dependency_members(
            &relations,
            &dep,
            i,
            &m,
        );
        i += 1;
        if algebraic_members.len() == 0 {
            continue ;
        }
        proof {
            lemma_dependency_gives_square(
                mat,
                dep@,
                (i - 1) as int,
                relations@,
                members@,
                m@,
                f@,
                bases,
                params,
            );
            assert(values(rational_members@) =~= member_values(relations@, members@, m@));
        }
        let root0 = match rational_sqrt(&rational_members) {
            Some(root) => root,
            None => {
                // The product over a dependency is a square.
                assert(false);
                continue ;
            },
        };
        let x = root0.mul(&slope);
        let product = mul_algebraic_integers(&algebraic_members, 0, algebraic_members.len(), &f);
        proof {
            crate::polynomial::lemma_mul_mod_len(f@, derivative@, derivative@);
        }
        let slope_squared = f.mul_mod(&derivative, &derivative);
        proof {
            crate::polynomial::lemma_mul_mod_len(f@, product@, slope_squared@);
        }
        let s = f.mul_mod(&product, &slope_squared);
        let root = match algebraic_sqrt(&s, &f, rng) {
            Some(root) => root,
            None => {
                continue ;
            },
        };
        let y = root.evaluate(&m);
        proof {
            let rat = values(rational_members@);
            let alg = views(algebraic_members@);
            assert forall|k: int| 0 <= k < alg.len() implies poly_eval(#[trigger] alg[k], m@)
                == rat[k] by {
                let a = relations@[members@[k] as int].0 as int;
                let b = relations@[members@[k] as int].1 as int;
                assert(algebraic_members@[k]@ == seq![a, b]);
                assert(rational_members@[k]@ == a + b * m@);
                lemma_linear_eval(a, b, m@);
            }
            lemma_congruence_of_squares(f@, m@, n@, rat, alg, root0@, root@);
        }
        split_with_congruence(&x, &y, n, &mut factors);
    }
    factors
}

} // verus!
