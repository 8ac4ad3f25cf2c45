use gnfs::integer::Integer;

fn big(x: i64) -> Integer {
    Integer::from_i64(x)
}

#[test]
fn integer_from_and_to_words() {
    assert_eq!(Integer::from_u64(0).to_u64(), Some(0));
    assert_eq!(Integer::from_u64(u64::MAX).to_u64(), Some(u64::MAX));
    assert_eq!(Integer::from_u64(u64::MAX).to_decimal(), "18446744073709551615");
    assert_eq!(big(-5).to_u64(), None);
    assert_eq!(big(i64::MIN).to_decimal(), "-9223372036854775808");
    assert_eq!(big(i64::MAX).to_decimal(), "9223372036854775807");
    let big = Integer::from_u64(u64::MAX).mul(&Integer::from_u64(u64::MAX));
    assert_eq!(big.to_u64(), None);
    assert_eq!(big.to_decimal(), "340282366920938463426481119284349108225");
}

#[test]
fn integer_digits() {
    let x = Integer::from_digits(true, vec![5, 1]);
    assert_eq!(x.to_decimal(), "-4294967301");
    assert_eq!(Integer::from_digits(false, vec![]).to_decimal(), "0");
    assert_eq!(Integer::from_digits(false, vec![7, 0, 0]).to_u64(), Some(7));
    let (negative, digits) = big(-4294967301).to_digits();
    assert!(Integer::from_digits(negative, digits).equals(&x));
}

#[test]
fn integer_arithmetic() {
    assert_eq!(big(7).add(&big(-10)).to_decimal(), "-3");
    assert_eq!(big(7).sub(&big(-10)).to_decimal(), "17");
    assert_eq!(big(7).mul(&big(-10)).to_decimal(), "-70");
    assert_eq!(big(7).neg().to_decimal(), "-7");
    assert_eq!(big(0).neg().to_decimal(), "0");
    assert_eq!(big(-7).magnitude().to_decimal(), "7");
    assert_eq!(big(-7).copy().to_decimal(), "-7");
    assert_eq!(big(3).pow(40).to_decimal(), "12157665459056928801");
    assert_eq!(big(-2).pow(3).to_decimal(), "-8");
    assert_eq!(big(5).pow(0).to_decimal(), "1");
}

#[test]
fn integer_division_is_euclidean() {
    let (q, r) = big(17).div_rem(&big(5));
    assert_eq!((q.to_decimal(), r.to_decimal()), ("3".to_string(), "2".to_string()));
    let (q, r) = big(-17).div_rem(&big(5));
    assert_eq!((q.to_decimal(), r.to_decimal()), ("-4".to_string(), "3".to_string()));
    assert_eq!(big(-17).rem(&big(5)).to_decimal(), "3");
    assert_eq!(big(-17).div(&big(5)).to_decimal(), "-4");
    assert_eq!(big(-17).mod_u64(5), 3);
    assert_eq!(big(17).mod_u64(5), 2);
    assert_eq!(big(-10).mod_u64(5), 0);
}

#[test]
fn integer_order() {
    assert!(big(-3).less(&big(2)));
    assert!(!big(2).less(&big(2)));
    assert!(big(2).equals(&big(2)));
    assert!(!big(2).equals(&big(-2)));
    assert!(big(-1).is_negative());
    assert!(!big(0).is_negative());
    assert!(big(5).is_u64(5));
    assert!(!big(-5).is_u64(5));
    assert!(Integer::from_u64(0).neg().equals(&Integer::from_u64(0)));
}

#[test]
fn integer_roots() {
    assert_eq!(big(99).sqrt().to_decimal(), "9");
    assert_eq!(big(100).sqrt().to_decimal(), "10");
    assert_eq!(big(0).sqrt().to_decimal(), "0");
    assert_eq!(big(1000).nth_root(3).to_decimal(), "10");
    assert_eq!(big(999).nth_root(3).to_decimal(), "9");
    assert_eq!(big(12345).nth_root(1).to_decimal(), "12345");
    assert_eq!(big(0).nth_root(5).to_decimal(), "0");
    assert_eq!(big(31).nth_root(5).to_decimal(), "1");
    assert_eq!(big(32).nth_root(5).to_decimal(), "2");
    let n = Integer::from_u64(100000007).mul(&Integer::from_u64(998244353));
    assert_eq!(n.nth_root(3).to_decimal(), "463887");
}

#[test]
fn integer_gcd_and_bits() {
    assert_eq!(big(12).gcd(&big(-18)).to_decimal(), "6");
    assert_eq!(big(0).gcd(&big(0)).to_decimal(), "0");
    assert_eq!(big(0).gcd(&big(-7)).to_decimal(), "7");
    assert_eq!(big(17).gcd(&big(5)).to_decimal(), "1");
    assert_eq!(big(0).significant_bits(), 0);
    assert_eq!(big(1).significant_bits(), 1);
    assert_eq!(big(-8).significant_bits(), 4);
    assert_eq!(big(255).significant_bits(), 8);
    assert_eq!(Integer::from_u64(u64::MAX).add(&big(1)).significant_bits(), 65);
}

#[test]
fn decimal_digits() {
    assert_eq!(big(0).to_decimal(), "0");
    assert_eq!(Integer::from_digits(true, vec![]).to_decimal(), "0");
    assert_eq!(Integer::from_digits(true, vec![0, 0]).to_decimal(), "0");
    assert_eq!(big(7).to_decimal(), "7");
    assert_eq!(big(-7).to_decimal(), "-7");
    assert_eq!(big(10).to_decimal(), "10");
    assert_eq!(big(-1090).to_decimal(), "-1090");
    assert_eq!(big(1234567890).to_decimal(), "1234567890");
}

#[test]
fn greatest_common_divisors() {
    assert_eq!(big(0).gcd(&big(0)).to_decimal(), "0");
    assert_eq!(big(0).gcd(&big(-9)).to_decimal(), "9");
    assert_eq!(big(12).gcd(&big(0)).to_decimal(), "12");
    assert_eq!(big(-12).gcd(&big(18)).to_decimal(), "6");
    assert_eq!(big(35).gcd(&big(64)).to_decimal(), "1");
}
