//! The General Number Field Sieve for factoring integers.
//!
//! [`nfs::factorize`] chooses a polynomial `f` and a number `m` with
//! `f(m) = n`, sieves line by line for pairs `(a, b)` for which both
//! `a + b m` and the norm of `a + b x` fall apart over a base of small
//! primes, finds sets of such pairs whose exponents are all even, and takes
//! square roots on both sides to arrive at a congruence of squares modulo
//! `n`.
//!
//! The parts, from the ground up:
//!
//! - [`nt`], [`mod_sqrt`], [`prime_test`]: arithmetic modulo numbers below
//!   2^32, square roots modulo a prime, the Miller-Rabin test;
//!   [`primes`], [`fermat`], [`roots`]: the number theory behind them.
//! - [`integer`]: integers of arbitrary size. [`polynomial`],
//!   [`gfpolynomial`], [`evaluation`]: polynomials over the integers and
//!   modulo a prime; [`euclid`], [`rabin`]: what Euclid's algorithm and
//!   Rabin's test of irreducibility decide modulo a prime.
//! - [`bits`], [`linalg`], [`kernel`]: matrices over GF(2), their products,
//!   and dependencies among the columns of a sparse matrix.
//! - [`sieve`], [`relation`]: the line sieve, and trial division over the
//!   factor bases.
//! - [`sqrt`], [`squares`]: square roots of products of integers and of
//!   algebraic integers.
//! - [`random`]: the generator that the random choices are drawn from.

pub mod bits;
pub mod euclid;
pub mod evaluation;
pub mod fermat;
pub mod gfpolynomial;
pub mod integer;
pub mod kernel;
pub mod linalg;
pub mod mod_sqrt;
pub mod nfs;
pub mod nt;
pub mod polynomial;
pub mod prime_test;
pub mod primes;
pub mod rabin;
pub mod random;
pub mod relation;
pub mod roots;
pub mod sieve;
pub mod sqrt;
pub mod squares;
