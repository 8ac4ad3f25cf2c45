use gnfs::gfpolynomial::GfPolynomial;
use gnfs::integer::Integer;
use gnfs::polynomial::{select, MpPolynomial};
use gnfs::sqrt::{
    algebraic_sqrt, inv_sqrt_from_start, inv_sqrt_mod_p, is_one, lift_root,
    mul_algebraic_integers, mul_rational_integers, mul_y_polynomials, power_y_polynomials,
    rational_sqrt, select_p,
};

fn poly(c: &[i64]) -> MpPolynomial {
    MpPolynomial::from_coefficients(c.iter().map(|&x| Integer::from_i64(x)).collect())
}

fn coefficients(f: &MpPolynomial) -> Vec<String> {
    f.coefficients_ref().iter().map(|c| c.to_decimal()).collect()
}

fn gf(c: &[u64], p: u64) -> GfPolynomial {
    GfPolynomial::from_coefficients(c.to_vec(), p)
}

fn gf_coefficients(f: &GfPolynomial) -> Vec<u64> {
    (0..f.len()).map(|k| f.coefficient(k)).collect()
}

#[test]
fn polynomial_basics() {
    let f = poly(&[5, 0, -3, 0]);
    assert_eq!(f.len(), 4);
    assert_eq!(f.degree(), 2);
    assert_eq!(MpPolynomial::new().degree(), 0);
    assert_eq!(poly(&[0, 0]).degree(), 0);
    assert_eq!(f.coefficient(2).to_decimal(), "-3");
    assert_eq!(f.coefficient(9).to_decimal(), "0");
    assert_eq!(f.evaluate(&Integer::from_i64(2)).to_decimal(), "-7");
    assert_eq!(coefficients(&f.derivative()), vec!["0", "-6", "0"]);
    assert_eq!(coefficients(&f.add(&poly(&[1, 2]))), vec!["6", "2", "-3", "0"]);
    assert_eq!(coefficients(&poly(&[1]).add(&f)), vec!["6", "0", "-3", "0"]);
    assert_eq!(coefficients(&MpPolynomial::new().derivative()), Vec::<String>::new());
    assert!(f.same(&f.clone_polynomial()));
    assert!(!f.same(&poly(&[5, 0, -3])));
    assert_eq!(coefficients(&f.reduce_mod(&Integer::from_u64(4))), vec!["1", "0", "1", "0"]);
}

#[test]
fn polynomial_mul_mod() {
    // (x + 1)(x + 2) = x^2 + 3x + 2 = 3x + 1 modulo x^2 + 1.
    let f = poly(&[1, 0, 1]);
    assert_eq!(coefficients(&f.mul_mod(&poly(&[1, 1]), &poly(&[2, 1]))), vec!["1", "3"]);
    // x^2 * x^2 = x^4 = x * x^3 = x (2x + 5) = 2x^2 + 5x modulo x^3 - 2x - 5.
    let g = poly(&[-5, -2, 0, 1]);
    assert_eq!(
        coefficients(&g.mul_mod(&poly(&[0, 0, 1]), &poly(&[0, 0, 1]))),
        vec!["0", "5", "2"]
    );
    // A product that is already reduced is filled up with zeros.
    assert_eq!(coefficients(&g.mul_mod(&poly(&[3]), &poly(&[4]))), vec!["12", "0", "0"]);
    assert_eq!(coefficients(&g.mul_mod(&poly(&[]), &poly(&[4]))), vec!["0", "0", "0"]);
}

#[test]
fn polynomial_selection_writes_n_in_base_m() {
    let n = Integer::from_u64(100000007).mul(&Integer::from_u64(998244353));
    let (f, m) = select(&n, 3).unwrap();
    assert_eq!(m.to_decimal(), "463887");
    assert_eq!(coefficients(&f), vec!["204091", "141971", "0", "1"]);
    assert!(f.evaluate(&m).equals(&n));
    assert!(select(&Integer::from_u64(7), 3).is_none());
    // 1000 = 1 * 10^3, but 20 = 2 * 2^3 + 1 * 2^2 has 2 as its leading digit.
    let (g, ten) = select(&Integer::from_u64(1000), 3).unwrap();
    assert_eq!(ten.to_decimal(), "10");
    assert_eq!(coefficients(&g), vec!["0", "0", "0", "1"]);
    assert!(select(&Integer::from_u64(20), 3).is_none());
}

#[test]
fn reducing_then_evaluating_matches_evaluating() {
    let f = poly(&[204091, -141971, 0, 1]);
    for &p in [2u64, 3, 7, 1583, 1000000009].iter() {
        let g = GfPolynomial::from_mp_polynomial(&f, p);
        for x in [0u64, 1, 2, 5, 1000, 4294967295, 1 << 40].iter() {
            let expected = f.evaluate(&Integer::from_u64(*x)).mod_u64(p);
            assert_eq!(g.evaluate(*x), expected);
        }
    }
    assert_eq!(gf_coefficients(&GfPolynomial::from_mp_polynomial(&f, 7)), vec![6, 3, 0, 1]);
}

#[test]
fn roots_modulo_p() {
    // x^2 - 1 has the roots 1 and p - 1.
    let f = poly(&[-1, 0, 1]);
    assert_eq!(f.find_roots_mod_p(7), vec![1, 6]);
    assert_eq!(f.find_roots_mod_p(2), vec![1]);
    // x^2 + 1 has no root modulo 7 and the roots 2 and 3 modulo 5.
    let g = poly(&[1, 0, 1]);
    assert_eq!(g.find_roots_mod_p(7), Vec::<u64>::new());
    assert_eq!(g.find_roots_mod_p(5), vec![2, 3]);
    // x^3 - x vanishes everywhere modulo 3.
    assert_eq!(poly(&[0, -1, 0, 1]).find_roots_mod_p(3), vec![0, 1, 2]);
}

#[test]
fn gf_polynomial_arithmetic() {
    let f = gf(&[1, 0, 1], 7);
    assert_eq!(f.modulus(), 7);
    assert_eq!(f.degree(), 2);
    assert_eq!(gf_coefficients(&gf(&[8, 15], 7)), vec![1, 1]);
    assert_eq!(gf_coefficients(&f.mul_mod(&gf(&[1, 1], 7), &gf(&[2, 1], 7))), vec![1, 3]);
    assert_eq!(gf_coefficients(&gf(&[6, 1], 7).add(&gf(&[3], 7))), vec![2, 1]);
    assert_eq!(gf_coefficients(&gf(&[1, 1], 7).sub(&gf(&[3, 6], 7))), vec![5, 2]);
    assert_eq!(gf_coefficients(&gf(&[1, 5, 4, 3], 7).derivative()), vec![5, 1, 2]);
    assert_eq!(gf_coefficients(&f.power(&gf(&[0, 1], 7), 2)), vec![6, 0]);
    assert_eq!(gf_coefficients(&f.power(&gf(&[0, 1], 7), 0)), vec![1, 0]);
    assert_eq!(gf_coefficients(&gf(&[4, 2, 0], 7).make_monic().unwrap()), vec![2, 1]);
    assert!(gf(&[0, 0], 7).is_zero_polynomial());
    assert!(!gf(&[0, 1], 7).is_zero_polynomial());
    assert!(f.same(&f.clone_polynomial()));
    assert!(is_one(&gf(&[1, 0, 0], 7)));
    assert!(!is_one(&gf(&[1, 1], 7)));
    assert!(!is_one(&gf(&[], 7)));
    assert_eq!(coefficients_of_lift(&f), vec!["1", "0", "1"]);
}

fn coefficients_of_lift(f: &GfPolynomial) -> Vec<String> {
    coefficients(&f.lift())
}

#[test]
fn irreducibility_modulo_p() {
    // x^2 + 1 is irreducible exactly modulo the primes that are 3 modulo 4.
    assert!(gf(&[1, 0, 1], 7).is_irreducible());
    assert!(gf(&[1, 0, 1], 3).is_irreducible());
    assert!(!gf(&[1, 0, 1], 5).is_irreducible());
    assert!(!gf(&[1, 0, 1], 13).is_irreducible());
    // x^3 - 2 is irreducible modulo 7 and has a root modulo 5.
    assert!(gf(&[5, 0, 0, 1], 7).is_irreducible());
    assert!(!gf(&[3, 0, 0, 1], 5).is_irreducible());
    // x^4 + 1 is reducible modulo every prime.
    for &p in [3u64, 5, 7, 11, 13, 17].iter() {
        assert!(!gf(&[1, 0, 0, 0, 1], p).is_irreducible());
    }
    // x^4 + x + 1 is irreducible modulo 2; (x^2 + x + 1)^2 is not.
    assert!(gf(&[1, 1, 0, 0, 1], 2).is_irreducible());
    assert!(!gf(&[1, 0, 1, 0, 1], 2).is_irreducible());
    assert!(gf(&[3, 1], 7).is_irreducible());
    assert!(gf(&[1, 0, 1], 7).is_coprime_to(&gf(&[1, 1], 7)));
    assert!(!gf(&[6, 0, 1], 7).is_coprime_to(&gf(&[1, 1], 7)));
}

#[test]
fn lifting_prime_is_inert() {
    let f = poly(&[204091, 141971, 0, 1]);
    let p = select_p(&f).unwrap();
    assert_eq!(p, 1000000021);
    assert!(GfPolynomial::from_mp_polynomial(&f, p).is_irreducible());
    assert!(f.find_roots_mod_p(p as u64).is_empty());
}

#[test]
fn products_over_a_tree() {
    let v: Vec<Integer> = [2i64, -3, 5, 7, 11].iter().map(|&x| Integer::from_i64(x)).collect();
    assert_eq!(mul_rational_integers(&v, 0, 5).to_decimal(), "-2310");
    assert_eq!(mul_rational_integers(&v, 1, 3).to_decimal(), "-15");
    assert_eq!(mul_rational_integers(&v, 2, 2).to_decimal(), "1");
    let f = poly(&[1, 0, 1]);
    let g = vec![poly(&[1, 1]), poly(&[2, 1]), poly(&[0, 1])];
    // (3x + 1) x = 3x^2 + x = x - 3.
    assert_eq!(coefficients(&mul_algebraic_integers(&g, 0, 3, &f)), vec!["-3", "1"]);
    assert_eq!(coefficients(&mul_algebraic_integers(&g, 1, 2, &f)), vec!["2", "1"]);
}

#[test]
fn square_root_of_a_product_of_integers() {
    let v: Vec<Integer> = [-2i64, 3, -6, 25].iter().map(|&x| Integer::from_i64(x)).collect();
    assert_eq!(rational_sqrt(&v).map(|x| x.to_decimal()), Some("30".to_string()));
    let w: Vec<Integer> = [2i64, 3].iter().map(|&x| Integer::from_i64(x)).collect();
    assert!(rational_sqrt(&w).is_none());
    let n: Vec<Integer> = [-4i64].iter().map(|&x| Integer::from_i64(x)).collect();
    assert!(rational_sqrt(&n).is_none());
    assert_eq!(rational_sqrt(&Vec::new()).map(|x| x.to_decimal()), Some("1".to_string()));
}

#[test]
fn multiplication_in_the_quadratic_extension() {
    // Modulo 7 and f = x^2 + 1, with s = 2: (1 + y)(1 + y) = 1 + s + 2 y.
    let f = gf(&[1, 0, 1], 7);
    let s = gf(&[2], 7);
    let u = (gf(&[1], 7), gf(&[1], 7));
    let (r0, r1) = mul_y_polynomials(&u, &u, &s, &f);
    assert_eq!(gf_coefficients(&r0), vec![3, 0]);
    assert_eq!(gf_coefficients(&r1), vec![2, 0]);
}

#[test]
fn inverse_square_root_modulo_p() {
    // In GF(7)[x] / (x^2 + 1), s = (x + 2)^2 = 4x + 3.
    let f = gf(&[1, 0, 1], 7);
    let s = gf(&[3, 4], 7);
    let mut found = false;
    let mut rng = gnfs::random::Generator::new();
    for _ in 0..4 {
        if let Some(r) = inv_sqrt_mod_p(&s, &f, &mut rng) {
            let check = f.mul_mod(&s, &f.mul_mod(&r, &r));
            assert!(is_one(&check));
            found = true;
            break;
        }
    }
    assert!(found);
}

#[test]
fn square_root_of_an_algebraic_integer() {
    let f = poly(&[204091, 141971, 0, 1]);
    let beta = poly(&[-123456789, 987654321, 5]);
    let s = f.mul_mod(&beta, &beta);
    let mut found = false;
    let mut rng = gnfs::random::Generator::from_seed(11);
    for _ in 0..4 {
        if let Some(root) = algebraic_sqrt(&s, &f, &mut rng) {
            assert!(f.mul_mod(&root, &root).same(&s));
            assert!(root.same(&beta) || root.same(&poly(&[123456789, -987654321, -5])));
            found = true;
            break;
        }
    }
    assert!(found);
}

#[test]
fn powers_in_the_quadratic_extension() {
    // Modulo 7 and f = x^2 + 1, with s = 2 and u = 1 + y.
    let f = gf(&[1, 0, 1], 7);
    let s = gf(&[2], 7);
    let u = (gf(&[1], 7), gf(&[1], 7));
    let (a0, a1) = power_y_polynomials(&u, &Integer::from_u64(0), &s, &f);
    assert_eq!(gf_coefficients(&a0), vec![1]);
    assert_eq!(gf_coefficients(&a1), Vec::<u64>::new());
    let (b0, b1) = power_y_polynomials(&u, &Integer::from_u64(1), &s, &f);
    assert_eq!(gf_coefficients(&b0), vec![1, 0]);
    assert_eq!(gf_coefficients(&b1), vec![1, 0]);
    // u^2 = 3 + 2 y, u^3 = (3 + 2 s) + 5 y = 5 y, u^4 = (9 + 4 s) + 12 y = 3 + 5 y.
    let (c0, c1) = power_y_polynomials(&u, &Integer::from_u64(2), &s, &f);
    assert_eq!(gf_coefficients(&c0), vec![3, 0]);
    assert_eq!(gf_coefficients(&c1), vec![2, 0]);
    let (d0, d1) = power_y_polynomials(&u, &Integer::from_u64(3), &s, &f);
    assert_eq!(gf_coefficients(&d0), vec![0, 0]);
    assert_eq!(gf_coefficients(&d1), vec![5, 0]);
    let (e0, e1) = power_y_polynomials(&u, &Integer::from_u64(4), &s, &f);
    assert_eq!(gf_coefficients(&e0), vec![3, 0]);
    assert_eq!(gf_coefficients(&e1), vec![5, 0]);
}

#[test]
fn inverse_square_root_from_each_start() {
    // In GF(7)[x] / (x^2 + 1), s = (x + 2)^2 = 4x + 3. Its inverse square
    // roots are the inverses of x + 2 and of -(x + 2).
    let f = gf(&[1, 0, 1], 7);
    let s = gf(&[3, 4], 7);
    let mut roots = 0;
    let mut misses = 0;
    for c0 in 0..7u64 {
        for c1 in 1..7u64 {
            let start = gf(&[c0, c1], 7);
            let first = inv_sqrt_from_start(&start, &s, &f);
            let second = inv_sqrt_from_start(&start, &s, &f);
            assert_eq!(first.as_ref().map(gf_coefficients), second.as_ref().map(gf_coefficients));
            match first {
                Some(r) => {
                    assert_eq!(r.len(), 2);
                    assert!(is_one(&f.mul_mod(&s, &f.mul_mod(&r, &r))));
                    let product = f.mul_mod(&r, &gf(&[2, 1], 7));
                    let c = gf_coefficients(&product);
                    assert!(c == vec![1, 0] || c == vec![6, 0]);
                    roots += 1;
                },
                None => misses += 1,
            }
        }
    }
    assert_eq!(roots + misses, 42);
    assert!(roots > 0);
    assert!(misses > 0);
}

#[test]
fn lifting_gives_the_root_or_nothing() {
    let f = poly(&[204091, 141971, 0, 1]);
    let beta = poly(&[-123456789, 987654321, 5]);
    let s = f.mul_mod(&beta, &beta);
    let p = select_p(&f).unwrap();
    let s_mod_p = GfPolynomial::from_mp_polynomial(&s, p);
    let f_mod_p = GfPolynomial::from_mp_polynomial(&f, p);
    let mut rng = gnfs::random::Generator::from_seed(5);
    let mut start = None;
    for _ in 0..4 {
        start = inv_sqrt_mod_p(&s_mod_p, &f_mod_p, &mut rng);
        if start.is_some() {
            break;
        }
    }
    let start = start.unwrap();
    let root = lift_root(&s, &f, &start).unwrap();
    assert!(f.mul_mod(&root, &root).same(&s));
    assert!(root.same(&beta) || root.same(&poly(&[123456789, -987654321, -5])));
    // What is no inverse square root modulo p lifts to nothing.
    let wrong = gf(&[1, 2, 3], p);
    assert!(!is_one(&f_mod_p.mul_mod(&s_mod_p, &f_mod_p.mul_mod(&wrong, &wrong))));
    assert!(lift_root(&s, &f, &wrong).is_none());
}

#[test]
fn a_polynomial_with_a_root_is_not_irreducible() {
    // Every monic cubic modulo 3 and modulo 5 that has a root fails the test,
    // and so does every monic quadratic; those without a root pass, since a
    // polynomial of degree 2 or 3 without a root is irreducible.
    for &p in [3u64, 5].iter() {
        for c0 in 0..p {
            for c1 in 0..p {
                let quadratic = gf(&[c0, c1, 1], p);
                let has_root = (0..p).any(|x| quadratic.evaluate(x) == 0);
                assert_eq!(quadratic.is_irreducible(), !has_root);
                for c2 in 0..p {
                    let cubic = gf(&[c0, c1, c2, 1], p);
                    let has_root = (0..p).any(|x| cubic.evaluate(x) == 0);
                    assert_eq!(cubic.is_irreducible(), !has_root);
                }
            }
        }
    }
}

#[test]
fn common_factors_modulo_p() {
    // (x + 1)(x + 2) and (x + 1)(x + 3) modulo 7 share x + 1.
    let a = gf(&[2, 3, 1], 7);
    assert!(!a.is_coprime_to(&gf(&[3, 4, 1], 7)));
    assert!(!a.is_coprime_to(&gf(&[1, 1], 7)));
    assert!(!a.is_coprime_to(&gf(&[3, 3], 7)));
    assert!(a.is_coprime_to(&gf(&[3, 1], 7)));
    assert!(a.is_coprime_to(&gf(&[5], 7)));
    // Nothing but a constant is coprime to zero.
    assert!(!a.is_coprime_to(&gf(&[0, 0], 7)));
    assert!(!a.is_coprime_to(&gf(&[], 7)));
    // Modulo 6 the leading coefficient 2 has no inverse.
    assert!(!gf(&[1, 0, 1], 6).is_coprime_to(&gf(&[1, 2], 6)));
}
