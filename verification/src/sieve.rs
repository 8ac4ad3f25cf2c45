//! The line sieve: for one value of `b`, add the rounded logarithm of each
//! factor-base prime to the places whose `a` it divides `a + b r` at.

use vstd::arithmetic::div_mod::*;
use vstd::arithmetic::logarithm::{lemma_log_nonnegative, log};
use vstd::arithmetic::mul::*;
use vstd::prelude::*;

verus! {

/// `u64::ilog2`, documented as the base 2 logarithm rounded down; it panics
/// on zero, which the precondition leaves out. A word has 64 bits, so the
/// result is below 64.
#[verifier::external_body]
pub(crate) fn ilog2(x: u64) -> (r: u32)
    requires
        x > 0,
    ensures
        r == log(2, x as int),
        r < 64,
{
    x.ilog2()
}

/// The base 2 logarithm of `x`, rounded to the nearest integer by way of
/// the logarithm of `x^2` rounded down.
pub open spec fn log2_rounded(x: int) -> int {
    (log(2, x * x) + 1) / 2
}

/// The rounded logarithm of a number below 2^32.
pub fn ilog2_rounded(x: u64) -> (r: u32)
    requires
        1 <= x <= u32::MAX,
    ensures
        r == log2_rounded(x as int),
        r <= 32,
{
    proof {
        assert(1 <= x * x <= 0xffff_ffff * 0xffff_ffff) by (nonlinear_arith)
            requires
                1 <= x <= 0xffff_ffff,
        ;
    }
    let l = ilog2(x * x) + 1;
    proof {
        lemma_shift_is_half(l);
    }
    l >> 1
}

proof fn lemma_shift_is_half(l: u32)
    by (bit_vector)
    ensures
        l >> 1 == l / 2,
{
}

/// One entry of a factor base is a prime `p` below 2^32 with a residue `r`.
pub open spec fn base_entry_ok(e: (u64, u64)) -> bool {
    1 <= e.0 <= u32::MAX && e.1 <= u32::MAX
}

/// Every entry of the factor base is as [`base_entry_ok`] says.
pub open spec fn base_ok(base: Seq<(u64, u64)>) -> bool {
    forall|k: int| 0 <= k < base.len() ==> base_entry_ok(#[trigger] base[k])
}

/// Whether the entry `(p, r)` marks `a` on the line `b`: `p` does not divide
/// `b`, and it divides `a + b r`.
pub open spec fn marks(e: (u64, u64), b: int, a: int) -> bool {
    b % (e.0 as int) != 0 && (a + b * e.1) % (e.0 as int) == 0
}

/// What the first `n` entries of the base add at `a` on the line `b`.
pub open spec fn sieve_hits(base: Seq<(u64, u64)>, b: int, a: int, n: nat) -> int
    decreases n,
{
    if n == 0 {
        0
    } else {
        sieve_hits(base, b, a, (n - 1) as nat) + (if marks(base[n - 1], b, a) {
            log2_rounded(base[n - 1].0 as int)
        } else {
            0
        })
    }
}

/// Nothing that the sieve adds is negative.
pub proof fn lemma_hits_not_negative(base: Seq<(u64, u64)>, b: int, a: int, n: nat)
    ensures
        sieve_hits(base, b, a, n) >= 0,
    decreases n,
{
    if n > 0 {
        lemma_hits_not_negative(base, b, a, (n - 1) as nat);
        let p = base[n - 1].0 as int;
        lemma_log_nonnegative(2, p * p);
    }
}

/// A sum cut off at the largest value of a sieve cell.
pub open spec fn saturated(x: int) -> int {
    if x > 127 {
        127
    } else {
        x
    }
}

/// The first place of a sieve array of `2 * half` cells, which starts at
/// `a = -half`, that `(p, r)` marks on the line `b`.
pub open spec fn first_mark(p: int, r: int, b: int, half: int) -> int {
    (half % p + p - ((b % p) * (r % p)) % p) % p
}

/// The places that an entry marks are those congruent to [`first_mark`].
pub proof fn lemma_marked_places(p: int, r: int, b: int, half: int, i: int)
    requires
        p >= 1,
    ensures
        ((i - half + b * r) % p == 0) <==> (i % p == first_mark(p, r, b, half)),
{
    let br = ((b % p) * (r % p)) % p;
    let f = first_mark(p, r, b, half);
    lemma_mul_mod_noop_general(b, r, p);
    assert(br == (b * r) % p);
    lemma_mod_bound(half, p);
    lemma_mod_bound(b * r, p);
    lemma_mod_bound(i, p);
    lemma_mod_bound(half % p + p - br, p);
    // f is congruent to half - b r
    lemma_mod_add_multiples_vanish(half % p - br, p);
    assert(f == (half % p - br) % p);
    lemma_sub_mod_noop(half, b * r, p);
    assert(f == (half - b * r) % p);
    // i = f (mod p) exactly if i - (half - b r) is a multiple of p
    lemma_mod_equivalence(i, half - b * r, p);
    lemma_mod_twice(half - b * r, p);
    if i % p == f {
        assert(i % p == (half - b * r) % p);
    }
    if (i - half + b * r) % p == 0 {
        assert((i - (half - b * r)) % p == 0);
        assert(i % p == (half - b * r) % p);
        lemma_small_mod(f as nat, p as nat);
    }
    lemma_small_mod(f as nat, p as nat);
}

/// The remainder of `j` on division by `p`.
pub open spec fn residue(j: int, p: int) -> int {
    j % p
}

/// Between a place and the next one that is congruent to it lie none.
pub proof fn lemma_next_mark(p: int, i: int, j: int)
    requires
        p >= 1,
        i < j < i + p,
    ensures
        j % p != i % p,
{
    lemma_mod_equivalence(j, i, p);
    lemma_small_mod((j - i) as nat, p as nat);
}

/// Adds to every cell `i` of the sieve array, which stands for `a = i - len / 2`,
/// the rounded logarithm of each prime of the base that marks `a` on the
/// line `b`. A cell that would pass 127 stays there.
pub fn line_sieve(b: u64, sieve_array: &mut Vec<i8>, base: &Vec<(u64, u64)>)
    requires
        base_ok(base@),
    ensures
        final(sieve_array)@.len() == old(sieve_array)@.len(),
        forall|i: int|
            0 <= i < old(sieve_array)@.len() ==> #[trigger] final(sieve_array)@[i] == saturated(
                old(sieve_array)@[i] + sieve_hits(
                    base@,
                    b as int,
                    i - old(sieve_array)@.len() / 2,
                    base@.len(),
                ),
            ),
{
    let len = sieve_array.len();
    let half = len / 2;
    let ghost start = sieve_array@;
    let ghost h = half as int;
    let mut k: usize = 0;
    while k < base.len()
        invariant
            k <= base@.len(),
            base_ok(base@),
            len == start.len(),
            sieve_array@.len() == len,
            half == len / 2,
            h == half,
            forall|i: int|
                0 <= i < len ==> #[trigger] sieve_array@[i] == saturated(
                    start[i] + sieve_hits(base@, b as int, i - h, k as nat),
                ),
        decreases base@.len() - k,
    {
        let (p, r) = base[k];
        assert(base_entry_ok(base@[k as int]));
        let ghost before = sieve_array@;
        if b % p != 0 {
            let log2p = ilog2_rounded(p) as i8;
            proof {
                lemma_mod_bound(b as int, p as int);
                lemma_mod_bound(r as int, p as int);
                lemma_mod_bound(half as int, p as int);
                let x: u64 = b % p;
                let y: u64 = r % p;
                assert(x * y <= 0xffff_ffff * 0xffff_ffff) by (nonlinear_arith)
                    requires
                        x <= 0xffff_ffff,
                        y <= 0xffff_ffff,
                ;
            }
            let br = ((b % p) * (r % p)) % p;
            let first = ((half as u64) % p + p - br) % p;
            let ghost f = first_mark(p as int, r as int, b as int, h);
            assert(first == f);
            let mut i: usize = first as usize;
            let mut done = i >= len;
            proof {
                lemma_small_mod(f as nat, p as nat);
                assert forall|j: int| 0 <= j < f implies #[trigger] residue(j, p as int) != f by {
                    lemma_small_mod(j as nat, p as nat);
                }
            }
            while !done
                invariant
                    len == before.len(),
                    sieve_array@.len() == len,
                    1 <= p <= u32::MAX,
                    0 <= log2p <= 32,
                    0 <= f < p,
                    !done ==> i < len,
                    !done ==> (i as int) % (p as int) == f,
                    forall|j: int|
                        0 <= j < len && (j < i || done) ==> #[trigger] sieve_array@[j] == saturated(
                            before[j] + (if residue(j, p as int) == f {
                                log2p as int
                            } else {
                                0
                            }),
                        ),
                    forall|j: int|
                        0 <= j < len && !(j < i || done) ==> #[trigger] sieve_array@[j]
                            == before[j],
                decreases
                        if done {
                            0
                        } else {
                            len - i + 1
                        },
            {
                let v = sieve_array[i];
                let w = if v > i8::MAX - log2p {
                    i8::MAX
                } else {
                    v + log2p
                };
                let ghost prev = sieve_array@;
                sieve_array.set(i, w);
                proof {
                    assert forall|j: int| 0 <= j < len && j < i + p implies #[trigger] sieve_array@[j]
                        == saturated(
                        before[j] + (if residue(j, p as int) == f {
                            log2p as int
                        } else {
                            0
                        }),
                    ) by {
                        if j > i {
                            lemma_next_mark(p as int, i as int, j);
                            assert(prev[j] == before[j]);
                        } else if j < i {
                            assert(prev[j] == sieve_array@[j]);
                        }
                    }
                    lemma_mod_add_multiples_vanish(i as int, p as int);
                }
                if (p as usize) >= len - i {
                    done = true;
                    i = len;
                } else {
                    i += p as usize;
                }
            }
            proof {
                assert forall|j: int| 0 <= j < len implies #[trigger] sieve_array@[j] == saturated(
                    start[j] + sieve_hits(base@, b as int, j - h, (k + 1) as nat),
                ) by {
                    lemma_marked_places(p as int, r as int, b as int, h, j);
                    assert(before[j] == saturated(
                        start[j] + sieve_hits(base@, b as int, j - h, k as nat),
                    ));
                    lemma_hits_not_negative(base@, b as int, j - h, k as nat);
                }
            }
        } else {
            proof {
                assert forall|j: int| 0 <= j < len implies #[trigger] sieve_array@[j] == saturated(
                    start[j] + sieve_hits(base@, b as int, j - h, (k + 1) as nat),
                ) by {
                    assert(before[j] == saturated(
                        start[j] + sieve_hits(base@, b as int, j - h, k as nat),
                    ));
                }
            }
        }
        k += 1;
    }
}

} // verus!
