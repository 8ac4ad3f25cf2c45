//! Integers of arbitrary size: sign and magnitude, the magnitude as digits
//! in base 2^32 with the least significant digit first.

use num_bigint::{BigInt, Sign};
use num_traits::ToPrimitive;
use vstd::arithmetic::div_mod::*;
use vstd::arithmetic::mul::*;
use vstd::arithmetic::power::*;
use vstd::arithmetic::power2::*;
use vstd::prelude::*;

verus! {

/// The number that the digits stand for.
pub open spec fn digits_value(digits: Seq<u32>) -> nat
    decreases digits.len(),
{
    if digits.len() == 0 {
        0
    } else {
        digits[0] as nat + 0x1_0000_0000 * digits_value(digits.drop_first())
    }
}

/// The absolute value of an integer.
pub open spec fn abs(x: int) -> int {
    if x < 0 {
        -x
    } else {
        x
    }
}

/// The number of binary digits of `n`.
pub open spec fn binary_digits(n: nat) -> nat
    decreases n,
{
    if n == 0 {
        0
    } else {
        1 + binary_digits(n / 2)
    }
}

/// The number of bits of the magnitude of `x`.
pub open spec fn bit_length(x: int) -> nat {
    binary_digits(abs(x) as nat)
}

/// A number between `2^(r - 1)` and `2^r` has `r` binary digits.
pub proof fn lemma_binary_digits(n: nat, r: nat)
    requires
        r >= 1,
        pow2((r - 1) as nat) <= n < pow2(r),
    ensures
        binary_digits(n) == r,
    decreases r,
{
    lemma2_to64();
    if r == 1 {
        assert(n == 1);
        assert(binary_digits(0) == 0);
        assert(n / 2 == 0);
    } else {
        lemma_pow2_unfold(r);
        lemma_pow2_unfold((r - 1) as nat);
        lemma_binary_digits(n / 2, (r - 1) as nat);
    }
}

/// `r` is the `d`-th root of `n` rounded down.
pub open spec fn is_floor_root(r: int, n: int, d: nat) -> bool {
    r >= 0 && pow(r, d) <= n < pow(r + 1, d)
}

/// The `d`-th root of `n` rounded down, for `n >= 0` and `d >= 1`.
pub open spec fn floor_root(n: int, d: nat) -> int {
    choose|r: int| is_floor_root(r, n, d)
}

/// Powers grow with the base.
pub proof fn lemma_pow_base_increases(a: int, b: int, e: nat)
    requires
        0 <= a <= b,
    ensures
        0 <= pow(a, e) <= pow(b, e),
    decreases e,
{
    if e == 0 {
        lemma_pow0(a);
        lemma_pow0(b);
    } else {
        lemma_pow_base_increases(a, b, (e - 1) as nat);
        lemma_pow_adds(a, 1, (e - 1) as nat);
        lemma_pow_adds(b, 1, (e - 1) as nat);
        lemma_pow1(a);
        lemma_pow1(b);
        let x = pow(a, (e - 1) as nat);
        let y = pow(b, (e - 1) as nat);
        assert(0 <= a * x <= b * y) by (nonlinear_arith)
            requires
                0 <= a <= b,
                0 <= x <= y,
        ;
    }
}

/// There is one root rounded down.
pub proof fn lemma_floor_root_unique(r: int, n: int, d: nat)
    requires
        is_floor_root(r, n, d),
    ensures
        floor_root(n, d) == r,
{
    let c = floor_root(n, d);
    assert(is_floor_root(c, n, d));
    if c < r {
        lemma_pow_base_increases(c + 1, r, d);
    }
    if r < c {
        lemma_pow_base_increases(r + 1, c, d);
    }
}

/// `g` is the greatest common divisor of `a` and `b`: it is not negative,
/// it divides both, and every common divisor divides it. For two zeros it
/// is zero.
pub open spec fn is_gcd(g: int, a: int, b: int) -> bool {
    &&& g >= 0
    &&& (g == 0 <==> (a == 0 && b == 0))
    &&& (g != 0 ==> a % g == 0 && b % g == 0)
    &&& forall|d: int| d > 0 && a % d == 0 && b % d == 0 ==> #[trigger] (g % d) == 0
}

/// The greatest common divisor of `a` and `b`.
pub open spec fn gcd_of(a: int, b: int) -> int {
    choose|g: int| is_gcd(g, a, b)
}

/// There is one greatest common divisor.
pub proof fn lemma_gcd_unique(g: int, a: int, b: int)
    requires
        is_gcd(g, a, b),
    ensures
        gcd_of(a, b) == g,
{
    let c = gcd_of(a, b);
    assert(is_gcd(c, a, b));
    if g != 0 {
        assert(c % g == 0);
        assert(g % c == 0);
        if c < g {
            lemma_small_mod(c as nat, g as nat);
        }
        if g < c {
            lemma_small_mod(g as nat, c as nat);
        }
    }
}

/// The character of the decimal digit `d`.
pub open spec fn digit_char(d: int) -> char {
    if d == 0 {
        '0'
    } else if d == 1 {
        '1'
    } else if d == 2 {
        '2'
    } else if d == 3 {
        '3'
    } else if d == 4 {
        '4'
    } else if d == 5 {
        '5'
    } else if d == 6 {
        '6'
    } else if d == 7 {
        '7'
    } else if d == 8 {
        '8'
    } else {
        '9'
    }
}

/// The decimal digits of `n`, the most significant first: one digit below
/// ten, and otherwise the digits of `n / 10` followed by the last digit.
pub open spec fn decimal_of_nat(n: nat) -> Seq<char>
    decreases n,
{
    if n < 10 {
        seq![digit_char(n as int)]
    } else {
        decimal_of_nat(n / 10).push(digit_char((n % 10) as int))
    }
}

/// How an integer is written in decimal: its digits, after a minus sign
/// where it is negative.
pub open spec fn decimal(x: int) -> Seq<char> {
    if x < 0 {
        seq!['-'] + decimal_of_nat((-x) as nat)
    } else {
        decimal_of_nat(x as nat)
    }
}

/// An integer of arbitrary size.
pub struct Integer {
    negative: bool,
    magnitude: Vec<u32>,
}

impl View for Integer {
    type V = int;

    closed spec fn view(&self) -> int {
        if self.negative {
            -(digits_value(self.magnitude@) as int)
        } else {
            digits_value(self.magnitude@) as int
        }
    }
}

/// `num_bigint::BigInt`'s `+`, on values handed over and taken back as sign
/// and base-2^32 digits (`BigInt::from_slice`, `BigInt::to_u32_digits`).
/// The result is the sum.
#[verifier::external_body]
fn big_add(a: &Integer, b: &Integer) -> (r: Integer)
    ensures
        r@ == a@ + b@,
{
    let x = BigInt::from_slice(if a.negative { Sign::Minus } else { Sign::Plus }, &a.magnitude);
    let y = BigInt::from_slice(if b.negative { Sign::Minus } else { Sign::Plus }, &b.magnitude);
    let (s, d) = (x + y).to_u32_digits();
    Integer { negative: s == Sign::Minus, magnitude: d }
}

/// `num_bigint::BigInt`'s `-`. The result is the difference.
#[verifier::external_body]
fn big_sub(a: &Integer, b: &Integer) -> (r: Integer)
    ensures
        r@ == a@ - b@,
{
    let x = BigInt::from_slice(if a.negative { Sign::Minus } else { Sign::Plus }, &a.magnitude);
    let y = BigInt::from_slice(if b.negative { Sign::Minus } else { Sign::Plus }, &b.magnitude);
    let (s, d) = (x - y).to_u32_digits();
    Integer { negative: s == Sign::Minus, magnitude: d }
}

/// `num_bigint::BigInt`'s `*`. The result is the product.
#[verifier::external_body]
fn big_mul(a: &Integer, b: &Integer) -> (r: Integer)
    ensures
        r@ == a@ * b@,
{
    let x = BigInt::from_slice(if a.negative { Sign::Minus } else { Sign::Plus }, &a.magnitude);
    let y = BigInt::from_slice(if b.negative { Sign::Minus } else { Sign::Plus }, &b.magnitude);
    let (s, d) = (x * y).to_u32_digits();
    Integer { negative: s == Sign::Minus, magnitude: d }
}

/// `num_integer::Integer::div_mod_floor` of `num_bigint::BigInt`: quotient
/// rounded towards minus infinity and the remainder that goes with it. For
/// a positive divisor, which is all that is admitted, the remainder is not
/// negative and the two are the quotient and remainder of Euclidean division.
#[verifier::external_body]
fn big_div_mod_floor(a: &Integer, b: &Integer) -> (qr: (Integer, Integer))
    requires
        b@ > 0,
    ensures
        qr.0@ == a@ / b@,
        qr.1@ == a@ % b@,
{
    let x = BigInt::from_slice(if a.negative { Sign::Minus } else { Sign::Plus }, &a.magnitude);
    let y = BigInt::from_slice(if b.negative { Sign::Minus } else { Sign::Plus }, &b.magnitude);
    let (q, r) = num_integer::Integer::div_mod_floor(&x, &y);
    let (qs, qd) = q.to_u32_digits();
    let (rs, rd) = r.to_u32_digits();
    (Integer { negative: qs == Sign::Minus, magnitude: qd }, Integer {
        negative: rs == Sign::Minus,
        magnitude: rd,
    })
}

/// `num_bigint::BigInt`'s `<`, the order of the integers.
#[verifier::external_body]
fn big_less(a: &Integer, b: &Integer) -> (r: bool)
    ensures
        r == (a@ < b@),
{
    let x = BigInt::from_slice(if a.negative { Sign::Minus } else { Sign::Plus }, &a.magnitude);
    let y = BigInt::from_slice(if b.negative { Sign::Minus } else { Sign::Plus }, &b.magnitude);
    x < y
}

/// `num_bigint::BigInt::sqrt`: the square root rounded down. It panics on a
/// negative argument, which the precondition leaves out.
#[verifier::external_body]
fn big_sqrt(a: &Integer) -> (r: Integer)
    requires
        a@ >= 0,
    ensures
        r@ >= 0,
        r@ * r@ <= a@ < (r@ + 1) * (r@ + 1),
{
    let x = BigInt::from_slice(if a.negative { Sign::Minus } else { Sign::Plus }, &a.magnitude);
    let (s, d) = x.sqrt().to_u32_digits();
    Integer { negative: s == Sign::Minus, magnitude: d }
}

/// `num_bigint::BigInt::nth_root`: the `n`-th root rounded down, for an
/// argument that is not negative and `n >= 1` (it panics on `n = 0`).
#[verifier::external_body]
fn big_nth_root(a: &Integer, n: u32) -> (r: Integer)
    requires
        a@ >= 0,
        n >= 1,
    ensures
        r@ >= 0,
        pow(r@, n as nat) <= a@ < pow(r@ + 1, n as nat),
{
    let x = BigInt::from_slice(if a.negative { Sign::Minus } else { Sign::Plus }, &a.magnitude);
    let (s, d) = x.nth_root(n).to_u32_digits();
    Integer { negative: s == Sign::Minus, magnitude: d }
}

/// `num_integer::Integer::gcd` of `num_bigint::BigInt`: the greatest common
/// divisor, never negative, and zero only for two zeros.
#[verifier::external_body]
fn big_gcd(a: &Integer, b: &Integer) -> (g: Integer)
    ensures
        g@ >= 0,
        g@ == 0 <==> (a@ == 0 && b@ == 0),
        g@ != 0 ==> a@ % g@ == 0 && b@ % g@ == 0,
        forall|d: int| d > 0 && a@ % d == 0 && b@ % d == 0 ==> #[trigger] (g@ % d) == 0,
{
    let x = BigInt::from_slice(if a.negative { Sign::Minus } else { Sign::Plus }, &a.magnitude);
    let y = BigInt::from_slice(if b.negative { Sign::Minus } else { Sign::Plus }, &b.magnitude);
    let (s, d) = num_integer::Integer::gcd(&x, &y).to_u32_digits();
    Integer { negative: s == Sign::Minus, magnitude: d }
}

/// `num_bigint::BigInt::bits`: the fewest bits that express the magnitude.
#[verifier::external_body]
fn big_bits(a: &Integer) -> (r: u64)
    ensures
        a@ == 0 ==> r == 0,
        a@ != 0 ==> r >= 1 && pow2((r - 1) as nat) <= abs(a@) < pow2(r as nat),
{
    let x = BigInt::from_slice(if a.negative { Sign::Minus } else { Sign::Plus }, &a.magnitude);
    x.bits()
}

/// `num_traits::ToPrimitive::to_u64` of `num_bigint::BigInt`: the value as a
/// word where it is one, and `None` where it is negative or too large.
#[verifier::external_body]
fn big_to_u64(a: &Integer) -> (r: Option<u64>)
    ensures
        match r {
            Some(v) => v == a@,
            None => a@ < 0 || a@ > u64::MAX,
        },
{
    let x = BigInt::from_slice(if a.negative { Sign::Minus } else { Sign::Plus }, &a.magnitude);
    x.to_u64()
}

/// `num_bigint::BigInt`'s `to_string`: the decimal digits, the most
/// significant first and without leading zeros, the single digit `0` for
/// zero, and a minus sign in front of a negative number.
#[verifier::external_body]
fn big_to_string(a: &Integer) -> (r: String)
    ensures
        r@ == decimal(a@),
{
    let x = BigInt::from_slice(if a.negative { Sign::Minus } else { Sign::Plus }, &a.magnitude);
    x.to_string()
}

proof fn lemma_split_word(x: u64)
    by (bit_vector)
    ensures
        (x & 0xffff_ffff) == x % 0x1_0000_0000,
        (x >> 32) == x / 0x1_0000_0000,
        (x >> 32) <= 0xffff_ffff,
{
}

impl Integer {
    /// The integer with the given sign and digits in base 2^32, least
    /// significant digit first.
    pub fn from_digits(negative: bool, digits: Vec<u32>) -> (r: Integer)
        ensures
            r@ == (if negative {
                -(digits_value(digits@) as int)
            } else {
                digits_value(digits@) as int
            }),
    {
        Integer { negative, magnitude: digits }
    }

    /// A sign and digits in base 2^32, least significant digit first, that
    /// stand for the integer.
    pub fn to_digits(&self) -> (r: (bool, Vec<u32>))
        ensures
            self@ == (if r.0 {
                -(digits_value(r.1@) as int)
            } else {
                digits_value(r.1@) as int
            }),
    {
        let magnitude = self.magnitude.clone();
        assert(magnitude@ =~= self.magnitude@);
        (self.negative, magnitude)
    }

    /// The integer `x`.
    pub fn from_u64(x: u64) -> (r: Integer)
        ensures
            r@ == x,
    {
        proof {
            lemma_split_word(x);
        }
        let lo = (x & 0xffff_ffff) as u32;
        let hi = (x >> 32) as u32;
        let mut magnitude: Vec<u32> = Vec::new();
        magnitude.push(lo);
        magnitude.push(hi);
        proof {
            let s = magnitude@;
            assert(s.drop_first() =~= seq![hi]);
            assert(s.drop_first().drop_first() =~= Seq::<u32>::empty());
            reveal_with_fuel(digits_value, 3);
        }
        Integer { negative: false, magnitude }
    }

    /// The integer `x`.
    pub fn from_i64(x: i64) -> (r: Integer)
        ensures
            r@ == x,
    {
        if x >= 0 {
            Integer::from_u64(x as u64)
        } else {
            let m = ((-(x + 1)) as u64) + 1;
            Integer::from_u64(m).neg()
        }
    }

    /// A copy.
    pub fn copy(&self) -> (r: Integer)
        ensures
            r@ == self@,
    {
        let magnitude = self.magnitude.clone();
        assert(magnitude@ =~= self.magnitude@);
        Integer { negative: self.negative, magnitude }
    }

    /// `-self`.
    pub fn neg(&self) -> (r: Integer)
        ensures
            r@ == -self@,
    {
        let magnitude = self.magnitude.clone();
        assert(magnitude@ =~= self.magnitude@);
        Integer { negative: !self.negative, magnitude }
    }

    /// `self + b`.
    pub fn add(&self, b: &Integer) -> (r: Integer)
        ensures
            r@ == self@ + b@,
    {
        big_add(self, b)
    }

    /// `self - b`.
    pub fn sub(&self, b: &Integer) -> (r: Integer)
        ensures
            r@ == self@ - b@,
    {
        big_sub(self, b)
    }

    /// `self * b`.
    pub fn mul(&self, b: &Integer) -> (r: Integer)
        ensures
            r@ == self@ * b@,
    {
        big_mul(self, b)
    }

    /// Quotient and remainder of the Euclidean division by a positive `b`.
    pub fn div_rem(&self, b: &Integer) -> (qr: (Integer, Integer))
        requires
            b@ > 0,
        ensures
            qr.0@ == self@ / b@,
            qr.1@ == self@ % b@,
    {
        big_div_mod_floor(self, b)
    }

    /// The remainder of the Euclidean division by a positive `b`.
    pub fn rem(&self, b: &Integer) -> (r: Integer)
        requires
            b@ > 0,
        ensures
            r@ == self@ % b@,
    {
        big_div_mod_floor(self, b).1
    }

    /// The quotient of the Euclidean division by a positive `b`.
    pub fn div(&self, b: &Integer) -> (r: Integer)
        requires
            b@ > 0,
        ensures
            r@ == self@ / b@,
    {
        big_div_mod_floor(self, b).0
    }

    /// Whether `self < b`.
    pub fn less(&self, b: &Integer) -> (r: bool)
        ensures
            r == (self@ < b@),
    {
        big_less(self, b)
    }

    /// Whether `self == b` as integers.
    pub fn equals(&self, b: &Integer) -> (r: bool)
        ensures
            r == (self@ == b@),
    {
        !big_less(self, b) && !big_less(b, self)
    }

    /// Whether `self` is `x`.
    pub fn is_u64(&self, x: u64) -> (r: bool)
        ensures
            r == (self@ == x),
    {
        match big_to_u64(self) {
            Some(v) => v == x,
            None => false,
        }
    }

    /// Whether `self < 0`.
    pub fn is_negative(&self) -> (r: bool)
        ensures
            r == (self@ < 0),
    {
        let zero = Integer::from_u64(0);
        big_less(self, &zero)
    }

    /// `|self|`.
    pub fn magnitude(&self) -> (r: Integer)
        ensures
            r@ == abs(self@),
    {
        let magnitude = self.magnitude.clone();
        assert(magnitude@ =~= self.magnitude@);
        Integer { negative: false, magnitude }
    }

    /// The value as a word, if it is one.
    pub fn to_u64(&self) -> (r: Option<u64>)
        ensures
            match r {
                Some(v) => v == self@,
                None => self@ < 0 || self@ > u64::MAX,
            },
    {
        big_to_u64(self)
    }

    /// The remainder of the Euclidean division by a positive word.
    pub fn mod_u64(&self, p: u64) -> (r: u64)
        requires
            p > 0,
        ensures
            r == self@ % (p as int),
    {
        let divisor = Integer::from_u64(p);
        let rem = big_div_mod_floor(self, &divisor).1;
        proof {
            lemma_mod_bound(self@, p as int);
        }
        match big_to_u64(&rem) {
            Some(v) => v,
            None => 0,
        }
    }

    /// The square root rounded down, of an integer that is not negative.
    pub fn sqrt(&self) -> (r: Integer)
        requires
            self@ >= 0,
        ensures
            r@ >= 0,
            r@ * r@ <= self@ < (r@ + 1) * (r@ + 1),
    {
        big_sqrt(self)
    }

    /// The `n`-th root rounded down, of an integer that is not negative.
    pub fn nth_root(&self, n: u32) -> (r: Integer)
        requires
            self@ >= 0,
            n >= 1,
        ensures
            r@ == floor_root(self@, n as nat),
            is_floor_root(r@, self@, n as nat),
    {
        let r = big_nth_root(self, n);
        proof {
            lemma_floor_root_unique(r@, self@, n as nat);
        }
        r
    }

    /// The greatest common divisor, which is not negative.
    pub fn gcd(&self, b: &Integer) -> (g: Integer)
        ensures
            g@ == gcd_of(self@, b@),
            is_gcd(g@, self@, b@),
    {
        let g = big_gcd(self, b);
        proof {
            lemma_gcd_unique(g@, self@, b@);
        }
        g
    }

    /// The number of bits of the magnitude.
    pub fn significant_bits(&self) -> (r: u64)
        ensures
            r == bit_length(self@),
            self@ != 0 ==> r >= 1 && pow2((r - 1) as nat) <= abs(self@) < pow2(r as nat),
    {
        let r = big_bits(self);
        proof {
            if self@ != 0 {
                lemma_binary_digits(abs(self@) as nat, r as nat);
            }
        }
        r
    }

    /// The decimal digits, with a minus sign in front of a negative number.
    pub fn to_decimal(&self) -> (r: String)
        ensures
            r@ == decimal(self@),
    {
        big_to_string(self)
    }

    /// `self^e`.
    pub fn pow(&self, e: u32) -> (r: Integer)
        ensures
            r@ == pow(self@, e as nat),
    {
        let mut r = Integer::from_u64(1);
        let mut i: u32 = 0;
        proof {
            lemma_pow0(self@);
        }
        while i < e
            invariant
                i <= e,
                r@ == pow(self@, i as nat),
            decreases e - i,
        {
            proof {
                lemma_pow_adds(self@, i as nat, 1);
                lemma_pow1(self@);
            }
            r = big_mul(&r, self);
            i += 1;
        }
        r
    }
}

} // verus!
