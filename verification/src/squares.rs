//! Why a dependency gives a square on the rational side: where the values
//! `a + b m` of some relations have an even number of negative ones among
//! them and, for every prime of the base, an even number with that prime to
//! an odd power, their product is the square of an integer.

use crate::bits::{
    bit, bit_terms, lemma_bit_of_xor_sum, lemma_bit_ops, lemma_parity_sum_congruent, parity_sum,
    xor_sum,
};
use crate::integer::abs;
use crate::linalg::CscMatrix;
use crate::nfs::{is_relation, Params};
use crate::relation::{
    expected_bit, lemma_rational_factorization, rational_parity, rational_power_product,
    rational_residual, valuation, FactorBases,
};
use crate::sqrt::{is_square, seq_product, square};
use vstd::arithmetic::mul::*;
use vstd::arithmetic::power::*;
use vstd::prelude::*;

verus! {

/// The power to which trial division finds entry `k` of the base in `x`.
pub open spec fn exponent(x: nat, base: Seq<(u64, u64)>, k: int) -> nat {
    valuation(rational_residual(x, base, k as nat), base[k].0 as nat)
}

/// The exponents of the entries of the base in `x`.
pub open spec fn exponents_of(x: nat, base: Seq<(u64, u64)>) -> spec_fn(int) -> nat {
    |k: int| exponent(x, base, k)
}

/// The product of the first `n` primes of the base, each to the power `e(k)`.
pub open spec fn power_product(base: Seq<(u64, u64)>, e: spec_fn(int) -> nat, n: nat) -> int
    decreases n,
{
    if n == 0 {
        1
    } else {
        power_product(base, e, (n - 1) as nat) * pow(base[n - 1].0 as int, e(n - 1))
    }
}

/// Products with the same exponents are equal.
pub proof fn lemma_power_product_congruent(
    base: Seq<(u64, u64)>,
    e1: spec_fn(int) -> nat,
    e2: spec_fn(int) -> nat,
    n: nat,
)
    requires
        forall|k: int| 0 <= k < n ==> #[trigger] e1(k) == e2(k),
    ensures
        power_product(base, e1, n) == power_product(base, e2, n),
    decreases n,
{
    if n > 0 {
        lemma_power_product_congruent(base, e1, e2, (n - 1) as nat);
    }
}

/// Multiplying two products adds the exponents.
pub proof fn lemma_power_product_mul(
    base: Seq<(u64, u64)>,
    e1: spec_fn(int) -> nat,
    e2: spec_fn(int) -> nat,
    sum: spec_fn(int) -> nat,
    n: nat,
)
    requires
        forall|k: int| 0 <= k < n ==> #[trigger] sum(k) == e1(k) + e2(k),
    ensures
        power_product(base, sum, n) == power_product(base, e1, n) * power_product(base, e2, n),
    decreases n,
{
    if n > 0 {
        let m = (n - 1) as nat;
        lemma_power_product_mul(base, e1, e2, sum, m);
        let p = base[n - 1].0 as int;
        assert(sum(n - 1) == e1(n - 1) + e2(n - 1));
        lemma_pow_adds(p, e1(n - 1), e2(n - 1));
        let a = power_product(base, e1, m);
        let b = power_product(base, e2, m);
        let u = pow(p, e1(n - 1));
        let v = pow(p, e2(n - 1));
        assert((a * b) * (u * v) == (a * u) * (b * v)) by (nonlinear_arith);
    }
}

/// What trial division takes out of `x` is the product of the primes to
/// their exponents.
pub proof fn lemma_trial_division_product(x: nat, base: Seq<(u64, u64)>, n: nat)
    requires
        n <= base.len(),
    ensures
        rational_power_product(x, base, n) == power_product(base, exponents_of(x, base), n),
    decreases n,
{
    if n > 0 {
        lemma_trial_division_product(x, base, (n - 1) as nat);
        assert(exponents_of(x, base)(n - 1) == exponent(x, base, n - 1));
    }
}

/// The absolute values of a sequence of integers.
pub open spec fn magnitudes(values: Seq<int>) -> Seq<int> {
    Seq::new(values.len(), |i: int| abs(values[i]))
}

/// The sum of the exponents of entry `k` of the base in the first `t` values.
pub open spec fn exponent_sum(values: Seq<int>, base: Seq<(u64, u64)>, k: int, t: nat) -> nat
    decreases t,
{
    if t == 0 {
        0
    } else {
        exponent_sum(values, base, k, (t - 1) as nat) + exponent(
            abs(values[t - 1]) as nat,
            base,
            k,
        )
    }
}

/// The sums of the exponents in the first `t` values, entry by entry.
pub open spec fn exponent_sums(values: Seq<int>, base: Seq<(u64, u64)>, t: nat) -> spec_fn(
    int,
) -> nat {
    |k: int| exponent_sum(values, base, k, t)
}

/// Half the sums of the exponents.
pub open spec fn half_sums(values: Seq<int>, base: Seq<(u64, u64)>, t: nat) -> spec_fn(int) -> nat {
    |k: int| exponent_sum(values, base, k, t) / 2
}

/// Each of the values is smooth over the base: it is not zero, and trial
/// division leaves 1 of it.
pub open spec fn all_smooth(values: Seq<int>, base: Seq<(u64, u64)>) -> bool {
    forall|u: int|
        0 <= u < values.len() ==> #[trigger] values[u] != 0 && rational_residual(
            abs(values[u]) as nat,
            base,
            base.len(),
        ) == 1
}

/// The product of the absolute values of smooth numbers is the product of
/// the primes to the sums of their exponents.
pub proof fn lemma_product_of_magnitudes(values: Seq<int>, base: Seq<(u64, u64)>, t: nat)
    requires
        t <= values.len(),
        all_smooth(values, base),
        forall|k: int| 0 <= k < base.len() ==> (#[trigger] base[k]).0 >= 2,
    ensures
        seq_product(magnitudes(values).subrange(0, t as int)) == power_product(
            base,
            exponent_sums(values, base, t),
            base.len(),
        ),
    decreases t,
{
    let n = base.len();
    let mags = magnitudes(values);
    if t == 0 {
        assert(mags.subrange(0, 0).len() == 0);
        let zero = exponent_sums(values, base, 0);
        lemma_power_product_ones(base, zero, n);
    } else {
        let s = (t - 1) as nat;
        lemma_product_of_magnitudes(values, base, s);
        let v = abs(values[t - 1]) as nat;
        assert(values[t - 1] != 0 && rational_residual(v, base, n) == 1);
        assert(mags.subrange(0, t as int).drop_last() =~= mags.subrange(0, s as int));
        assert(mags.subrange(0, t as int)[t - 1] == v);
        lemma_rational_factorization(v, base, n);
        lemma_mul_basics(rational_power_product(v, base, n));
        lemma_trial_division_product(v, base, n);
        let e1 = exponent_sums(values, base, s);
        let e2 = exponents_of(v, base);
        let sum = exponent_sums(values, base, t);
        assert forall|k: int| 0 <= k < n implies #[trigger] sum(k) == e1(k) + e2(k) by {}
        lemma_power_product_mul(base, e1, e2, sum, n);
    }
}

/// A product with all exponents zero is 1.
pub proof fn lemma_power_product_ones(base: Seq<(u64, u64)>, e: spec_fn(int) -> nat, n: nat)
    requires
        forall|k: int| 0 <= k < n ==> #[trigger] e(k) == 0,
    ensures
        power_product(base, e, n) == 1,
    decreases n,
{
    if n > 0 {
        lemma_power_product_ones(base, e, (n - 1) as nat);
        assert(e(n - 1) == 0);
        lemma_pow0(base[n - 1].0 as int);
    }
}

/// Whether value `u` is negative.
pub open spec fn negative_at(values: Seq<int>) -> spec_fn(int) -> bool {
    |u: int| values[u] < 0
}

/// Whether value `u` has entry `k` of the base to an odd power.
pub open spec fn odd_power_at(values: Seq<int>, base: Seq<(u64, u64)>, k: int) -> spec_fn(
    int,
) -> bool {
    |u: int| exponent(abs(values[u]) as nat, base, k) % 2 == 1
}

/// The product of the first `t` values is that of their absolute values,
/// negated where an odd number of them is negative.
pub proof fn lemma_product_sign(values: Seq<int>, t: nat)
    requires
        t <= values.len(),
    ensures
        seq_product(values.subrange(0, t as int)) == (if parity_sum(negative_at(values), t) {
            -seq_product(magnitudes(values).subrange(0, t as int))
        } else {
            seq_product(magnitudes(values).subrange(0, t as int))
        }),
    decreases t,
{
    let mags = magnitudes(values);
    if t == 0 {
        assert(values.subrange(0, 0).len() == 0);
        assert(mags.subrange(0, 0).len() == 0);
    } else {
        let s = (t - 1) as nat;
        lemma_product_sign(values, s);
        assert(values.subrange(0, t as int).drop_last() =~= values.subrange(0, s as int));
        assert(mags.subrange(0, t as int).drop_last() =~= mags.subrange(0, s as int));
        let v = values[t - 1];
        assert(values.subrange(0, t as int)[t - 1] == v);
        assert(mags.subrange(0, t as int)[t - 1] == abs(v));
        assert(negative_at(values)(t - 1) == (v < 0));
        let p = seq_product(mags.subrange(0, s as int));
        assert((-p) * v == -(p * v)) by (nonlinear_arith);
        assert(p * (-v) == -(p * v)) by (nonlinear_arith);
        assert((-p) * (-v) == p * v) by (nonlinear_arith);
    }
}

/// The sum of the exponents is odd exactly if an odd number of them is.
pub proof fn lemma_exponent_sum_parity(values: Seq<int>, base: Seq<(u64, u64)>, k: int, t: nat)
    ensures
        (exponent_sum(values, base, k, t) % 2 == 1) == parity_sum(
            odd_power_at(values, base, k),
            t,
        ),
    decreases t,
{
    if t > 0 {
        lemma_exponent_sum_parity(values, base, k, (t - 1) as nat);
        assert(odd_power_at(values, base, k)(t - 1) == (exponent(
            abs(values[t - 1]) as nat,
            base,
            k,
        ) % 2 == 1));
    }
}

/// Smooth numbers with an even number of negative ones among them and, for
/// every entry of the base, an even number with that prime to an odd power,
/// have a square for their product.
pub proof fn lemma_even_exponents_give_square(values: Seq<int>, base: Seq<(u64, u64)>)
    requires
        all_smooth(values, base),
        forall|k: int| 0 <= k < base.len() ==> (#[trigger] base[k]).0 >= 2,
        !parity_sum(negative_at(values), values.len()),
        forall|k: int|
            0 <= k < base.len() ==> !#[trigger] parity_sum(
                odd_power_at(values, base, k),
                values.len(),
            ),
    ensures
        is_square(seq_product(values)),
{
    let t = values.len();
    let n = base.len();
    lemma_product_sign(values, t);
    lemma_product_of_magnitudes(values, base, t);
    assert(values.subrange(0, t as int) =~= values);
    let sums = exponent_sums(values, base, t);
    let half = half_sums(values, base, t);
    assert forall|k: int| 0 <= k < n implies #[trigger] sums(k) == half(k) + half(k) by {
        lemma_exponent_sum_parity(values, base, k, t);
        assert(!parity_sum(odd_power_at(values, base, k), t));
    }
    lemma_power_product_mul(base, half, half, sums, n);
    let root = power_product(base, half, n);
    assert(square(root) == seq_product(values));
}

/// The family `g` where `member` holds, and false elsewhere.
pub open spec fn restricted(member: spec_fn(int) -> bool, g: spec_fn(int) -> bool) -> spec_fn(
    int,
) -> bool {
    |i: int| member(i) && g(i)
}

/// The family `g` at the places that `members` lists.
pub open spec fn picked(g: spec_fn(int) -> bool, members: Seq<usize>) -> spec_fn(int) -> bool {
    |u: int| g(members[u] as int)
}

/// `members` lists, in increasing order, the places below `n` where
/// `member` holds.
pub open spec fn lists_members(members: Seq<usize>, member: spec_fn(int) -> bool, n: int) -> bool {
    &&& forall|a: int, b: int| 0 <= a < b < members.len() ==> members[a] < members[b]
    &&& forall|u: int| 0 <= u < members.len() ==> (#[trigger] members[u]) < n && member(
        members[u] as int,
    )
    &&& forall|i: int| 0 <= i < n && #[trigger] member(i) ==> members.contains(i as usize)
}

/// The parity of a family over the places where `member` holds is its
/// parity over the list of those places.
pub proof fn lemma_parity_over_members(
    g: spec_fn(int) -> bool,
    member: spec_fn(int) -> bool,
    members: Seq<usize>,
    n: nat,
)
    requires
        n <= usize::MAX,
        lists_members(members, member, n as int),
    ensures
        parity_sum(restricted(member, g), n) == parity_sum(picked(g, members), members.len()),
    decreases n,
{
    if n == 0 {
        if members.len() > 0 {
            assert(members[0] < 0);
        }
    } else {
        let last = (n - 1) as int;
        if member(last) {
            assert(members.contains(last as usize));
            let u = choose|u: int| 0 <= u < members.len() && members[u] == last as usize;
            if u < members.len() - 1 {
                assert(members[u] < members[members.len() - 1]);
                assert(members[members.len() - 1] < n);
            }
            assert(u == members.len() - 1);
            assert(members[members.len() - 1] == last as usize);
            let rest = members.drop_last();
            assert forall|i: int| 0 <= i < last && #[trigger] member(i) implies rest.contains(
                i as usize,
            ) by {
                assert(members.contains(i as usize));
                let w = choose|w: int| 0 <= w < members.len() && members[w] == i as usize;
                assert(w != members.len() - 1);
                assert(rest[w] == i as usize);
            }
            assert forall|w: int| 0 <= w < rest.len() implies (#[trigger] rest[w]) < last
                && member(rest[w] as int) by {
                assert(rest[w] == members[w]);
                assert(members[w] < members[members.len() - 1]);
            }
            assert(lists_members(rest, member, last));
            lemma_parity_over_members(g, member, rest, last as nat);
            assert forall|w: int| 0 <= w < rest.len() implies #[trigger] picked(g, rest)(w)
                == picked(g, members)(w) by {}
            lemma_parity_sum_congruent(picked(g, rest), picked(g, members), rest.len());
            assert(restricted(member, g)(last) == g(last));
            assert(picked(g, members)(members.len() - 1) == g(last));
        } else {
            assert forall|w: int| 0 <= w < members.len() implies (#[trigger] members[w]) < last
                && member(members[w] as int) by {
                assert(members[w] < n && member(members[w] as int));
            }
            assert(lists_members(members, member, last));
            lemma_parity_over_members(g, member, members, last as nat);
            assert(!restricted(member, g)(last));
        }
    }
}

/// The values `a + b m` of the relations that `members` lists.
pub open spec fn member_values(relations: Seq<(i64, u64)>, members: Seq<usize>, m: int) -> Seq<
    int,
> {
    Seq::new(
        members.len(),
        |u: int| relations[members[u] as int].0 + relations[members[u] as int].1 * m,
    )
}

/// Whether column `j` of the dense matrix `dep` has a one in row `i`.
pub open spec fn selects(dep: Seq<u64>, j: int) -> spec_fn(int) -> bool {
    |i: int| 0 <= i < dep.len() && bit(dep[i], j)
}

/// Whether the sparse matrix has a one in row `r` of column `i`.
pub open spec fn row_of(mat: CscMatrix, r: int) -> spec_fn(int) -> bool {
    |i: int| mat.entry(r, i)
}

/// A dependency gives a square on the rational side. Let the columns of
/// `mat` be the columns of the relations, let column `j` of `dep` select
/// columns of `mat` that add up to zero, and let `members` list the
/// relations that it selects. Then the product of the values `a + b m` of
/// those relations is the square of an integer.
pub proof fn lemma_dependency_gives_square(
    mat: CscMatrix,
    dep: Seq<u64>,
    j: int,
    relations: Seq<(i64, u64)>,
    members: Seq<usize>,
    m: int,
    f: Seq<int>,
    bases: FactorBases,
    params: Params,
)
    requires
        bases.well_formed(),
        mat.well_formed(),
        mat.cols() == relations.len(),
        mat.rows() == bases.rows(),
        dep.len() == relations.len(),
        relations.len() <= usize::MAX,
        0 <= j < 64,
        forall|i: int|
            0 <= i < relations.len() ==> is_relation(
                #[trigger] relations[i],
                mat.column(i),
                m,
                f,
                bases,
                params,
            ),
        forall|r: int|
            0 <= r < mat.rows() ==> !#[trigger] bit(xor_sum(mat.row_terms(dep, r), mat.cols()), j),
        lists_members(members, selects(dep, j), relations.len() as int),
    ensures
        is_square(seq_product(member_values(relations, members, m))),
{
    let values = member_values(relations, members, m);
    let base = bases.rational@;
    let n = mat.cols();
    let member = selects(dep, j);
    // the columns of the matrix list different rows
    assert(mat.distinct_columns()) by {
        assert forall|c: int, a: int, b: int|
            0 <= c < mat.cols() && 0 <= a < b < mat.column(c).len() implies #[trigger] mat.column(
            c,
        )[a] != #[trigger] mat.column(c)[b] by {
            assert(is_relation(relations[c], mat.column(c), m, f, bases, params));
        }
    }
    // every member is smooth
    assert forall|u: int| 0 <= u < values.len() implies #[trigger] values[u] != 0
        && rational_residual(abs(values[u]) as nat, base, base.len()) == 1 by {
        let i = members[u] as int;
        assert(is_relation(relations[i], mat.column(i), m, f, bases, params));
    }
    // in every row, an even number of members has a one
    assert forall|r: int| 0 <= r < mat.rows() implies !#[trigger] parity_sum(
        picked(row_of(mat, r), members),
        members.len(),
    ) by {
        let terms = mat.row_terms(dep, r);
        lemma_bit_of_xor_sum(terms, n, j);
        let g = row_of(mat, r);
        assert(!bit(xor_sum(mat.row_terms(dep, r), mat.cols()), j));
        assert forall|i: int| 0 <= i < n implies #[trigger] bit_terms(terms, j)(i) == restricted(
            member,
            g,
        )(i) by {
            lemma_bit_ops(0, 0, j);
        }
        lemma_parity_sum_congruent(bit_terms(terms, j), restricted(member, g), n);
        lemma_parity_over_members(g, member, members, n);
    }
    // row 0 holds the signs
    assert(!parity_sum(negative_at(values), values.len())) by {
        assert(!parity_sum(picked(row_of(mat, 0), members), members.len()));
        assert forall|u: int| 0 <= u < members.len() implies #[trigger] picked(
            row_of(mat, 0),
            members,
        )(u) == negative_at(values)(u) by {
            let i = members[u] as int;
            assert(is_relation(relations[i], mat.column(i), m, f, bases, params));
            mat.lemma_entry_of_distinct_column(0, i);
            assert(expected_bit(0, relations[i].0 as int, relations[i].1 as int, m, f, bases) == (
            values[u] < 0));
        }
        lemma_parity_sum_congruent(
            picked(row_of(mat, 0), members),
            negative_at(values),
            members.len(),
        );
    }
    // row 1 + k holds the parities of the exponents of prime k
    assert forall|k: int| 0 <= k < base.len() implies !#[trigger] parity_sum(
        odd_power_at(values, base, k),
        values.len(),
    ) by {
        let r = 1 + k;
        assert(!parity_sum(picked(row_of(mat, r), members), members.len()));
        assert forall|u: int| 0 <= u < members.len() implies #[trigger] picked(
            row_of(mat, r),
            members,
        )(u) == odd_power_at(values, base, k)(u) by {
            let i = members[u] as int;
            assert(is_relation(relations[i], mat.column(i), m, f, bases, params));
            mat.lemma_entry_of_distinct_column(r, i);
            assert(expected_bit(r, relations[i].0 as int, relations[i].1 as int, m, f, bases)
                == rational_parity(abs(values[u]) as nat, base, k));
        }
        lemma_parity_sum_congruent(
            picked(row_of(mat, r), members),
            odd_power_at(values, base, k),
            members.len(),
        );
    }
    lemma_even_exponents_give_square(values, base);
}

} // verus!
