//! Single bits of 64-bit words, and sums over GF(2) written as XOR.

use vstd::prelude::*;
use vstd::std_specs::bits::{axiom_u64_trailing_zeros, u64_trailing_zeros};

verus! {

/// Bit `j` of `x`; false outside `0..64`.
pub open spec fn bit(x: u64, j: int) -> bool {
    0 <= j < 64 && (x >> (j as u64)) & 1 == 1
}

/// Bit `i` of a bit vector that is kept in words of 64 bits.
pub open spec fn vbit(v: Seq<u64>, i: int) -> bool {
    0 <= i < 64 * v.len() && bit(v[i / 64], i % 64)
}

/// XOR is an abelian group operation on words with neutral element 0.
pub proof fn lemma_xor_laws(a: u64, b: u64, c: u64)
    by (bit_vector)
    ensures
        a ^ 0 == a,
        0 ^ a == a,
        a ^ a == 0,
        a ^ b == b ^ a,
        (a ^ b) ^ c == a ^ (b ^ c),
{
}

proof fn lemma_bit_ops_word(x: u64, y: u64, j: u64)
    by (bit_vector)
    requires
        j < 64,
    ensures
        ((x ^ y) >> j) & 1 == 1 <==> (((x >> j) & 1 == 1) != ((y >> j) & 1 == 1)),
        ((x & y) >> j) & 1 == 1 <==> (((x >> j) & 1 == 1) && ((y >> j) & 1 == 1)),
        ((x | y) >> j) & 1 == 1 <==> (((x >> j) & 1 == 1) || ((y >> j) & 1 == 1)),
        (0u64 >> j) & 1 == 0,
        (x >> j) & 1 == 0 || (x >> j) & 1 == 1,
{
}

/// The bits of `x ^ y`, `x & y`, `x | y` and 0, in terms of the bits of `x` and `y`.
pub proof fn lemma_bit_ops(x: u64, y: u64, j: int)
    ensures
        bit(x ^ y, j) == (bit(x, j) != bit(y, j)),
        bit(x & y, j) == (bit(x, j) && bit(y, j)),
        bit(x | y, j) == (bit(x, j) || bit(y, j)),
        !bit(0, j),
{
    if 0 <= j < 64 {
        lemma_bit_ops_word(x, y, j as u64);
    }
}

proof fn lemma_shift_walk_word(w: u64, k: u64)
    by (bit_vector)
    requires
        k < 64,
    ensures
        (w >> k) >> 1 == w >> ((k + 1) as u64),
        (w >> k) & 1 != 0 <==> (w >> k) & 1 == 1,
        w >> 0 == w,
        w >> 64 == 0,
        w >> k != 0 ==> (w >> k) >> 1 < w >> k,
        (w >> k) / 2 == (w >> k) >> 1,
        (w >> k) % 2 == (w >> k) & 1,
{
}

/// What one step of walking through the bits of `w` from the low end does,
/// when `w >> k` is what is left of it.
pub proof fn lemma_shift_walk(w: u64, k: int)
    requires
        0 <= k < 64,
    ensures
        (w >> (k as u64)) >> 1 == w >> ((k + 1) as u64),
        (w >> (k as u64)) & 1 != 0 <==> bit(w, k),
        w >> 0 == w,
        w >> 64 == 0,
        w >> (k as u64) != 0 ==> (w >> (k as u64)) >> 1 < w >> (k as u64),
        (w >> (k as u64)) / 2 == w >> ((k + 1) as u64),
        (w >> (k as u64)) % 2 == 1 <==> bit(w, k),
{
    lemma_shift_walk_word(w, k as u64);
}

proof fn lemma_no_high_bits_word(w: u64, k: u64, j: u64)
    by (bit_vector)
    requires
        k <= j < 64,
        w >> k == 0,
    ensures
        (w >> j) & 1 == 0,
{
}

/// When nothing is left of `w` above bit `k`, the bits from `k` on are zero.
pub proof fn lemma_no_high_bits(w: u64, k: int)
    requires
        0 <= k <= 64,
        w >> (k as u64) == 0,
    ensures
        forall|j: int| k <= j ==> !bit(w, j),
{
    assert forall|j: int| k <= j implies !bit(w, j) by {
        if j < 64 {
            lemma_no_high_bits_word(w, k as u64, j as u64);
        }
    }
}

proof fn lemma_placed_bit_word(v: u64, k: u64, j: u64)
    by (bit_vector)
    requires
        k < 64,
        j < 64,
    ensures
        (((v & 1) << k) >> j) & 1 == 1 <==> (j == k && v & 1 == 1),
{
}

/// The word `(v & 1) << k` has at most bit `k` set, and that bit is bit 0 of `v`.
pub proof fn lemma_placed_bit(v: u64, k: int, j: int)
    requires
        0 <= k < 64,
    ensures
        bit((v & 1) << (k as u64), j) == (j == k && v & 1 == 1),
{
    if 0 <= j < 64 {
        lemma_placed_bit_word(v, k as u64, j as u64);
    }
}

proof fn lemma_differing_bit_word(x: u64, y: u64, t: u64)
    by (bit_vector)
    requires
        t < 64,
        ((x ^ y) >> t) & 1 == 1,
    ensures
        ((x >> t) & 1 == 1) != ((y >> t) & 1 == 1),
{
}

proof fn lemma_xor_zero_word(x: u64, y: u64)
    by (bit_vector)
    requires
        x ^ y == 0,
    ensures
        x == y,
{
}

/// Two words with the same 64 bits are the same word.
pub proof fn lemma_bits_determine_word(x: u64, y: u64)
    requires
        forall|j: int| 0 <= j < 64 ==> bit(x, j) == bit(y, j),
    ensures
        x == y,
{
    let d = x ^ y;
    if d != 0 {
        axiom_u64_trailing_zeros(d);
        let t = u64_trailing_zeros(d);
        lemma_differing_bit_word(x, y, t as u64);
        assert(bit(x, t as int) != bit(y, t as int));
    } else {
        lemma_xor_zero_word(x, y);
    }
}

/// The XOR of `f(0), ..., f(n - 1)`: a sum over GF(2) in each bit position.
pub open spec fn xor_sum(f: spec_fn(int) -> u64, n: nat) -> u64
    decreases n,
{
    if n == 0 {
        0
    } else {
        xor_sum(f, (n - 1) as nat) ^ f(n - 1)
    }
}

/// Sums of termwise equal families are equal.
pub proof fn lemma_xor_sum_congruent(f: spec_fn(int) -> u64, g: spec_fn(int) -> u64, n: nat)
    requires
        forall|i: int| 0 <= i < n ==> #[trigger] f(i) == g(i),
    ensures
        xor_sum(f, n) == xor_sum(g, n),
    decreases n,
{
    if n > 0 {
        lemma_xor_sum_congruent(f, g, (n - 1) as nat);
    }
}

/// Terms that are zero from `k` on add nothing to the sum.
pub proof fn lemma_xor_sum_zero_tail(f: spec_fn(int) -> u64, k: nat, n: nat)
    requires
        k <= n,
        forall|i: int| k <= i < n ==> #[trigger] f(i) == 0,
    ensures
        xor_sum(f, n) == xor_sum(f, k),
    decreases n,
{
    if k < n {
        lemma_xor_sum_zero_tail(f, k, (n - 1) as nat);
        lemma_xor_laws(xor_sum(f, (n - 1) as nat), 0, 0);
    }
}

/// Changing one term by `v` changes the sum by `v`.
pub proof fn lemma_xor_sum_update(
    f: spec_fn(int) -> u64,
    g: spec_fn(int) -> u64,
    n: nat,
    q: int,
    v: u64,
)
    requires
        0 <= q < n,
        forall|i: int| 0 <= i < n && i != q ==> #[trigger] g(i) == f(i),
        g(q) == f(q) ^ v,
    ensures
        xor_sum(g, n) == xor_sum(f, n) ^ v,
    decreases n,
{
    if q == n - 1 {
        lemma_xor_sum_congruent(f, g, (n - 1) as nat);
        lemma_xor_laws(xor_sum(f, (n - 1) as nat), f(q), v);
    } else {
        lemma_xor_sum_update(f, g, (n - 1) as nat, q, v);
        let s = xor_sum(f, (n - 1) as nat);
        let t = f(n - 1);
        lemma_xor_laws(s, v, t);
        lemma_xor_laws(v, t, 0);
        lemma_xor_laws(s, t, v);
    }
}

/// A bit of a sum is the parity of that bit over the terms.
pub open spec fn parity_sum(f: spec_fn(int) -> bool, n: nat) -> bool
    decreases n,
{
    if n == 0 {
        false
    } else {
        parity_sum(f, (n - 1) as nat) != f(n - 1)
    }
}

proof fn lemma_bit_of_one_word(j: u64)
    by (bit_vector)
    requires
        j < 64,
    ensures
        (1u64 >> j) & 1 == 1 <==> j == 0,
{
}

/// The word 1 has bit 0 set and no other.
pub proof fn lemma_bit_of_one(j: int)
    ensures
        bit(1, j) == (j == 0),
{
    if 0 <= j < 64 {
        lemma_bit_of_one_word(j as u64);
    }
}

/// Bit `j` of each term of a family of words.
pub open spec fn bit_terms(f: spec_fn(int) -> u64, j: int) -> spec_fn(int) -> bool {
    |i: int| bit(f(i), j)
}

/// A bit of an XOR sum is the parity of that bit over the terms.
pub proof fn lemma_bit_of_xor_sum(f: spec_fn(int) -> u64, n: nat, j: int)
    ensures
        bit(xor_sum(f, n), j) == parity_sum(bit_terms(f, j), n),
    decreases n,
{
    if n == 0 {
        lemma_bit_ops(0, 0, j);
    } else {
        lemma_bit_of_xor_sum(f, (n - 1) as nat, j);
        lemma_bit_ops(xor_sum(f, (n - 1) as nat), f(n - 1), j);
    }
}

proof fn lemma_one_shifted_word(t: u64, j: u64)
    by (bit_vector)
    requires
        t < 64,
        j < 64,
    ensures
        ((1u64 << t) >> j) & 1 == 1 <==> j == t,
{
}

/// The word `1 << t` has bit `t` set and no other.
pub proof fn lemma_one_shifted(t: int, j: int)
    requires
        0 <= t < 64,
    ensures
        bit(1u64 << (t as u64), j) == (j == t),
{
    if 0 <= j < 64 {
        lemma_one_shifted_word(t as u64, j as u64);
    }
}

/// The parity of a family that differs from `f` exactly where `g` holds is
/// the parity of `f` changed by the parity of `g`.
pub proof fn lemma_parity_sum_xor(
    f: spec_fn(int) -> bool,
    g: spec_fn(int) -> bool,
    h: spec_fn(int) -> bool,
    n: nat,
)
    requires
        forall|i: int| 0 <= i < n ==> #[trigger] h(i) == (f(i) != g(i)),
    ensures
        parity_sum(h, n) == (parity_sum(f, n) != parity_sum(g, n)),
    decreases n,
{
    if n > 0 {
        lemma_parity_sum_xor(f, g, h, (n - 1) as nat);
    }
}

/// The parity of a family that holds at most at `c` is its value at `c`.
pub proof fn lemma_parity_sum_single(f: spec_fn(int) -> bool, n: nat, c: int)
    requires
        forall|i: int| 0 <= i < n && i != c ==> !#[trigger] f(i),
    ensures
        parity_sum(f, n) == (0 <= c < n && f(c)),
    decreases n,
{
    if n > 0 {
        lemma_parity_sum_single(f, (n - 1) as nat, c);
    }
}

/// Parities of termwise equal families are equal.
pub proof fn lemma_parity_sum_congruent(f: spec_fn(int) -> bool, g: spec_fn(int) -> bool, n: nat)
    requires
        forall|i: int| 0 <= i < n ==> #[trigger] f(i) == g(i),
    ensures
        parity_sum(f, n) == parity_sum(g, n),
    decreases n,
{
    if n > 0 {
        lemma_parity_sum_congruent(f, g, (n - 1) as nat);
    }
}

/// The number of bits that are set in `x`.
pub open spec fn popcount(x: u64) -> nat
    decreases x,
{
    if x == 0 {
        0
    } else {
        (x % 2) as nat + popcount(x / 2)
    }
}

/// `u64::count_ones`, which the standard library documents as the number of
/// ones in the binary representation of the word.
#[verifier::external_body]
pub(crate) fn count_ones(x: u64) -> (r: u32)
    ensures
        r == popcount(x),
{
    x.count_ones()
}

/// The bits of `z` as a family of booleans.
pub open spec fn bits_of(z: u64) -> spec_fn(int) -> bool {
    |k: int| bit(z, k)
}

proof fn lemma_popcount_walk(z: u64, k: nat)
    requires
        k <= 64,
    ensures
        (popcount(z) % 2 == 1) == (parity_sum(bits_of(z), k) != (popcount(z >> (k as u64)) % 2
            == 1)),
    decreases k,
{
    if k == 0 {
        lemma_shift_walk(z, 0);
    } else {
        lemma_popcount_walk(z, (k - 1) as nat);
        lemma_shift_walk(z, k - 1);
        let y = z >> ((k - 1) as u64);
        assert(bits_of(z)(k - 1) == bit(z, k - 1));
        if y == 0 {
            assert(y / 2 == 0);
        }
    }
}

/// The number of set bits is odd exactly when the bits sum to 1 over GF(2).
pub proof fn lemma_popcount_parity(z: u64)
    ensures
        (popcount(z) % 2 == 1) == parity_sum(bits_of(z), 64),
{
    lemma_popcount_walk(z, 64);
    lemma_shift_walk(z, 0);
}

proof fn lemma_low_bit_of_count(c: u32)
    by (bit_vector)
    ensures
        c & 1 == c % 2,
{
}

proof fn lemma_zero_or_one(p: u64)
    by (bit_vector)
    requires
        p <= 1,
    ensures
        p & 1 == p,
{
}

/// The parity of a count, as the count's lowest bit widened to a word.
pub proof fn lemma_parity_word(c: u32)
    ensures
        c & 1 == c % 2,
        ((c & 1) as u64) & 1 == (c & 1) as u64,
{
    lemma_low_bit_of_count(c);
    lemma_zero_or_one((c & 1) as u64);
}

} // verus!
