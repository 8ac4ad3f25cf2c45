use gnfs::nt::{is_prime, legendre, mod_exp, mod_inverse};
use gnfs::prime_test::{is_strong_probable_prime, miller_rabin};
use rand::{thread_rng, Rng, RngCore};

fn gen_prime() -> u32 {
    let mut rng = thread_rng();
    loop {
        let p = rng.next_u32();
        if p >= 2 && is_prime(p) {
            return p;
        }
    }
}

#[test]
fn nt_test_tonelli_shanks() {
    let mut rng = thread_rng();
    for _ in 0..10000 {
        let p = gen_prime();
        let mut a = rng.gen_range(2..p);
        while legendre(a as u64, p as u64) != 1 {
            a = rng.gen_range(2..p);
        }
        let x = gnfs::nt::mod_sqrt(a as u64, p as u64);
        assert_eq!((x * x) % p as u64, a as u64);
    }
}

#[test]
fn mod_sqrt_test_tonelli_shanks() {
    let mut rng = thread_rng();
    for _ in 0..10000 {
        let p = gen_prime();
        let mut a = rng.gen_range(2..p - 1);
        while legendre(a as u64, p as u64) != 1 {
            a = rng.gen_range(2..p - 1);
        }
        let x = gnfs::mod_sqrt::mod_sqrt(a as u64, p as u64);
        assert_eq!((x * x) % p as u64, a as u64);
    }
}

#[test]
fn mod_exp_small_values() {
    assert_eq!(mod_exp(2, 10, 1000), 24);
    assert_eq!(mod_exp(3, 0, 7), 1);
    assert_eq!(mod_exp(3, 0, 1), 1);
    assert_eq!(mod_exp(5, 3, 13), 8);
    assert_eq!(mod_exp(4294967295, 2, 4294967295), 0);
    assert_eq!(mod_exp(4294967294, 3, 4294967295), 4294967294);
}

#[test]
fn legendre_of_two_mod_seven() {
    assert_eq!(legendre(2, 7), 1);
    assert_eq!(legendre(3, 7), 6);
    assert_eq!(legendre(0, 7), 0);
}

#[test]
fn mod_sqrt_of_two_mod_seven() {
    let x = gnfs::nt::mod_sqrt(2, 7);
    assert!(x == 3 || x == 4);
    assert_eq!((3 * 3) % 7, 2);
    assert_eq!((x * x) % 7, 2);
    let y = gnfs::mod_sqrt::mod_sqrt(2, 7);
    assert_eq!(y, 4);
}

#[test]
fn mod_sqrt_modulo_two() {
    assert_eq!(gnfs::nt::mod_sqrt(1, 2), 1);
}

#[test]
fn mod_sqrt_one_mod_four_primes() {
    for &p in [5u64, 13, 17, 29, 37, 41, 97, 1000000009, 4294967197].iter() {
        for a in 1..40u64 {
            if legendre(a % p, p) == 1 {
                let x = gnfs::nt::mod_sqrt(a % p, p);
                assert_eq!((x * x) % p, a % p);
                let y = gnfs::mod_sqrt::mod_sqrt(a % p, p);
                assert_eq!((y * y) % p, a % p);
            }
        }
    }
}

#[test]
fn tonelli_shanks_with_given_non_residue() {
    // 2 is a non-residue modulo 13, and 3 = 4^2 is a residue.
    assert_eq!(legendre(2, 13), 12);
    let x = gnfs::mod_sqrt::tonelli_shanks(3, 13, 2);
    assert_eq!((x * x) % 13, 3);
    let mut rng = gnfs::random::Generator::from_seed(1);
    let found = gnfs::mod_sqrt::find_non_residue(13, 13, &mut rng);
    assert_eq!(found.map(|b| legendre(b, 13)), Some(12));
    // 9 has no non-residue by Euler's criterion: b^4 is never 8 modulo 9.
    assert_eq!(gnfs::mod_sqrt::find_non_residue(9, 9, &mut rng), None);
    assert_eq!(gnfs::mod_sqrt::mod_sqrt_sampling(1, 9, 9, &mut rng), 0);
}

#[test]
fn square_roots_from_a_seed_repeat() {
    let mut first = gnfs::random::Generator::from_seed(7);
    let mut second = gnfs::random::Generator::from_seed(7);
    for a in 1..200u64 {
        if legendre(a, 1000000009) == 1 {
            let x = gnfs::mod_sqrt::mod_sqrt_sampling(a, 1000000009, 1000000009, &mut first);
            let y = gnfs::mod_sqrt::mod_sqrt_sampling(a, 1000000009, 1000000009, &mut second);
            assert_eq!(x, y);
            assert_eq!((x * x) % 1000000009, a);
        }
    }
    let mut g = gnfs::random::Generator::from_seed(3);
    for _ in 0..100 {
        let r = g.in_range(5, 8);
        assert!(5 <= r && r < 8);
    }
    assert_eq!(g.words(9).len(), 9);
    assert_eq!(gnfs::random::Generator::new().words(0).len(), 0);
}

#[test]
fn mod_inverse_mod_prime() {
    assert_eq!(mod_inverse(3, 7), 5);
    assert_eq!((3 * mod_inverse(3, 7)) % 7, 1);
    assert_eq!((123456 * mod_inverse(123456, 1000000007)) % 1000000007, 1);
}

#[test]
fn miller_rabin_carmichael_and_mersenne() {
    assert!(!miller_rabin(561));
    assert!(miller_rabin(2147483647));
}

#[test]
fn miller_rabin_agrees_with_trial_division_below_20000() {
    for n in 2u32..20000 {
        let mut prime = true;
        let mut d = 2;
        while d * d <= n {
            if n % d == 0 {
                prime = false;
                break;
            }
            d += 1;
        }
        assert_eq!(miller_rabin(n), prime, "n = {}", n);
    }
}

#[test]
fn miller_rabin_on_large_inputs() {
    assert!(miller_rabin(4294967291));
    assert!(!miller_rabin(4294967295));
    assert!(!miller_rabin(3215031751u32 % 4294967295));
    assert!(miller_rabin(1000000007));
    assert!(miller_rabin(998244353));
    assert!(!miller_rabin(1000000007u32.wrapping_mul(3)));
}

#[test]
fn is_prime_passes_over_a_base_that_reduces_to_zero() {
    // 15 = 3 * 5 and 7363882082 = 2 * 3681941041 reduce to zero.
    assert!(is_prime(2));
    assert!(is_prime(3));
    assert!(is_prime(5));
    assert!(is_prime(7));
    assert!(is_prime(1000000007));
    assert!(is_prime(4294967291));
    assert!(!is_prime(4));
    assert!(!is_prime(9));
    assert!(!is_prime(15));
    assert!(!is_prime(25));
    assert!(!is_prime(561));
}

#[test]
fn is_prime_agrees_with_trial_division_below_20000() {
    for n in 2..20000u32 {
        let mut prime = true;
        let mut d = 2;
        while d * d <= n {
            if n % d == 0 {
                prime = false;
                break;
            }
            d += 1;
        }
        assert_eq!(is_prime(n), prime, "{}", n);
    }
}

#[test]
fn strong_probable_prime_to_one_base() {
    // 2047 = 23 * 89 is the least strong pseudoprime to base 2.
    assert!(is_strong_probable_prime(2047, 2));
    assert!(!is_strong_probable_prime(2047, 3));
    assert!(is_strong_probable_prime(13, 5));
    assert!(!is_strong_probable_prime(15, 2));
}

#[test]
fn tonelli_shanks_gives_the_root_of_its_non_residue() {
    // Modulo 13 the roots of 3 are 4 and 9; modulo 17 those of 2 are 6 and 11;
    // modulo 41 those of 10 are 16 and 25.
    assert_eq!(gnfs::mod_sqrt::tonelli_shanks(3, 13, 2), 9);
    assert_eq!(gnfs::mod_sqrt::tonelli_shanks(3, 13, 6), 9);
    assert_eq!(gnfs::mod_sqrt::tonelli_shanks(4, 17, 3), 2);
    assert_eq!(gnfs::mod_sqrt::tonelli_shanks(2, 17, 3), 6);
    assert_eq!(gnfs::mod_sqrt::tonelli_shanks(2, 41, 3), 17);
    assert_eq!(gnfs::mod_sqrt::tonelli_shanks(10, 41, 7), 16);
    for _ in 0..3 {
        assert_eq!(gnfs::mod_sqrt::tonelli_shanks(10, 41, 7), 16);
    }
}
