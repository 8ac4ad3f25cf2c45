use gnfs::integer::Integer;
use gnfs::linalg::CscMatrixBuilder;
use gnfs::nfs::{
    add_divisor, algebraic_factor_base, collect_relations, dependency_members, factorize, fill,
    insert_sorted,
    quad_char_base, rational_factor_base, rational_start, split_with, split_with_congruence,
    Params,
    OVERSQUARENESS,
};
use gnfs::nt::legendre;
use gnfs::polynomial::{select, MpPolynomial};
use gnfs::relation::{gcd, line_residue, mod_i64, norm, relation_column, remove_factor, FactorBases};
use gnfs::sieve::{ilog2_rounded, line_sieve};

const PRIMES_32: [u32; 3] = [100000007, 998244353, 1000000007];

#[test]
fn factorize_semiprime_64() {
    for i in 0..PRIMES_32.len() {
        for j in i + 1..PRIMES_32.len() {
            let factorization = factorize(
                &Integer::from_u64(PRIMES_32[i] as u64).mul(&Integer::from_u64(PRIMES_32[j] as u64)),
            );
            assert_eq!(factorization.len(), 1);
            assert_eq!(factorization[0].to_u64(), Some(PRIMES_32[i] as u64));
        }
    }
}

#[test]
fn factorize_first_semiprime() {
    let n = Integer::from_u64(100000007).mul(&Integer::from_u64(998244353));
    assert_eq!(n.to_decimal(), "99824442287710471");
    let factors = factorize(&n);
    assert_eq!(factors.iter().map(|f| f.to_decimal()).collect::<Vec<_>>(), vec!["100000007"]);
    assert_eq!(n.div(&factors[0]).to_decimal(), "998244353");
}

#[test]
fn factorize_second_semiprime() {
    let n = Integer::from_u64(100000007).mul(&Integer::from_u64(1000000007));
    assert_eq!(n.to_decimal(), "100000007700000049");
    let factors = factorize(&n);
    assert_eq!(factors.iter().map(|f| f.to_decimal()).collect::<Vec<_>>(), vec!["100000007"]);
    assert_eq!(n.div(&factors[0]).to_decimal(), "1000000007");
}

#[test]
fn factorize_third_semiprime() {
    let n = Integer::from_u64(998244353).mul(&Integer::from_u64(1000000007));
    assert_eq!(n.to_decimal(), "998244359987710471");
    let factors = factorize(&n);
    assert_eq!(factors.iter().map(|f| f.to_decimal()).collect::<Vec<_>>(), vec!["998244353"]);
    assert_eq!(n.div(&factors[0]).to_decimal(), "1000000007");
}

#[test]
fn factorize_from_a_seed_repeats() {
    let n = Integer::from_u64(99824444384537071);
    let first = gnfs::nfs::factorize_with(&n, &mut gnfs::random::Generator::from_seed(5));
    let second = gnfs::nfs::factorize_with(&n, &mut gnfs::random::Generator::from_seed(5));
    assert_eq!(
        first.iter().map(|f| f.to_decimal()).collect::<Vec<_>>(),
        second.iter().map(|f| f.to_decimal()).collect::<Vec<_>>()
    );
}

#[test]
fn factorize_returns_proper_divisors_in_order() {
    for &n in [99824444384537071u64, 100000014000000049, 998244359986571271].iter() {
        let big = Integer::from_u64(n);
        let factors = factorize(&big);
        for f in factors.iter() {
            let g = f.to_u64().unwrap();
            assert!(1 < g && g < n && n % g == 0);
        }
        for w in factors.windows(2) {
            assert!(w[0].less(&w[1]));
        }
    }
}

#[test]
fn rounded_logarithm() {
    assert_eq!(ilog2_rounded(1), 0);
    assert_eq!(ilog2_rounded(2), 1);
    assert_eq!(ilog2_rounded(3), 2);
    assert_eq!(ilog2_rounded(5), 2);
    assert_eq!(ilog2_rounded(6), 3);
    assert_eq!(ilog2_rounded(1024), 10);
    assert_eq!(ilog2_rounded(1583), 11);
    assert_eq!(ilog2_rounded(4294967295), 32);
}

#[test]
fn line_sieve_marks_multiples() {
    // Eight cells stand for a = -4 .. 3. On the line b = 1, the entry (3, 1)
    // marks a = -4, -1, 2 and the entry (5, 2) marks a = -2, 3.
    let mut cells: Vec<i8> = vec![-10; 8];
    line_sieve(1, &mut cells, &vec![(3, 1), (5, 2)]);
    assert_eq!(cells, vec![-8, -10, -8, -8, -10, -10, -8, -8]);
    // A prime that divides b marks nothing.
    let mut cells: Vec<i8> = vec![0; 8];
    line_sieve(3, &mut cells, &vec![(3, 1)]);
    assert_eq!(cells, vec![0; 8]);
    // A cell does not pass 127.
    let mut cells: Vec<i8> = vec![126; 4];
    line_sieve(1, &mut cells, &vec![(2, 0)]);
    assert_eq!(cells, vec![127, 126, 127, 126]);
}

#[test]
fn line_sieve_agrees_with_division() {
    let base: Vec<(u64, u64)> = vec![(2, 1), (3, 2), (5, 0), (7, 3), (11, 10), (13, 6)];
    for b in 1..20u64 {
        let mut cells: Vec<i8> = vec![-50; 100];
        line_sieve(b, &mut cells, &base);
        for i in 0..100 {
            let a = i as i64 - 50;
            let mut expected: i64 = -50;
            for &(p, r) in base.iter() {
                if b % p != 0 && (a + (b * r) as i64).rem_euclid(p as i64) == 0 {
                    expected += ilog2_rounded(p) as i64;
                }
            }
            assert_eq!(cells[i] as i64, expected);
        }
    }
}

#[test]
fn sieve_start_values() {
    assert_eq!(rational_start(1, 19, 12), -7);
    assert_eq!(rational_start(8, 19, 12), -10);
    assert_eq!(rational_start(1, 500, 12), -128);
    assert_eq!(rational_start(1, 5000, 12), -128);
    let mut cells: Vec<i8> = vec![1, 2, 3];
    fill(&mut cells, -4);
    assert_eq!(cells, vec![-4, -4, -4]);
}

#[test]
fn residues_and_gcd() {
    assert_eq!(mod_i64(-7, 5), 3);
    assert_eq!(mod_i64(7, 5), 2);
    assert_eq!(mod_i64(-10, 5), 0);
    assert_eq!(mod_i64(i64::MIN, 3), 1);
    assert_eq!(line_residue(-7, 3, 4, 5), 0);
    assert_eq!(line_residue(1, 2, 3, 5), 2);
    assert_eq!(gcd(12, 18), 6);
    assert_eq!(gcd(0, 5), 5);
    assert_eq!(gcd(17, 5), 1);
}

#[test]
fn removing_a_factor() {
    let (rest, odd) = remove_factor(Integer::from_u64(72), 2);
    assert_eq!((rest.to_decimal(), odd), ("9".to_string(), true));
    let (rest, odd) = remove_factor(Integer::from_u64(72), 3);
    assert_eq!((rest.to_decimal(), odd), ("8".to_string(), false));
    let (rest, odd) = remove_factor(Integer::from_u64(72), 5);
    assert_eq!((rest.to_decimal(), odd), ("72".to_string(), false));
}

#[test]
fn norm_of_a_linear_element() {
    // f = x^3 + 2x + 5: the norm of a + b x is a^3 + 2 a b^2 - 5 b^3.
    let f = MpPolynomial::from_coefficients(
        [5i64, 2, 0, 1].iter().map(|&x| Integer::from_i64(x)).collect(),
    );
    assert_eq!(norm(&f, 3, 1).to_decimal(), "28");
    assert_eq!(norm(&f, -3, 2).to_decimal(), "-91");
    assert_eq!(norm(&f, 0, 1).to_decimal(), "-5");
    assert_eq!(norm(&f, 1, 3).to_decimal(), "-116");
}

fn setup() -> (Integer, MpPolynomial, FactorBases, Params) {
    let n = Integer::from_u64(100000007).mul(&Integer::from_u64(998244353));
    let params = Params::new(&n);
    let (f, m) = select(&n, params.polynomial_degree).unwrap();
    let rational = rational_factor_base(&m, 40);
    let algebraic = algebraic_factor_base(&f, 40);
    let start = algebraic[algebraic.len() - 1].0 + 1;
    let quad_char = quad_char_base(start, &f, 6);
    (m, f, FactorBases { rational, algebraic, quad_char }, params)
}

fn larger_setup() -> (Integer, MpPolynomial, FactorBases) {
    let n = Integer::from_u64(100000007).mul(&Integer::from_u64(998244353));
    let (f, m) = select(&n, 3).unwrap();
    let rational = rational_factor_base(&m, 300);
    let algebraic = algebraic_factor_base(&f, 300);
    let start = algebraic[algebraic.len() - 1].0 + 1;
    let quad_char = quad_char_base(start, &f, 6);
    (m, f, FactorBases { rational, algebraic, quad_char })
}

#[test]
fn parameters() {
    let p = Params::for_bits(57);
    assert_eq!(p.polynomial_degree, 3);
    assert_eq!(p.sieve_array_size % 2, 0);
    assert!(OVERSQUARENESS >= 20);
    assert_eq!(Params::for_bits(128).polynomial_degree, 4);
    assert_eq!(Params::new(&Integer::from_u64(1 << 60)).rational_base_size, p.rational_base_size);
}

#[test]
fn factor_bases() {
    let (m, f, bases, _params) = setup();
    assert_eq!(bases.rational.len(), 40);
    assert_eq!(&bases.rational[..4], &[(2, 1), (3, 0), (5, 2), (7, 4)]);
    for &(p, r) in bases.rational.iter() {
        assert_eq!(m.mod_u64(p), r);
    }
    assert_eq!(bases.rational[39].0, 173);
    assert_eq!(bases.algebraic.len(), 40);
    for w in bases.algebraic.windows(2) {
        assert!(w[0] < w[1]);
    }
    for &(p, r) in bases.algebraic.iter() {
        assert_eq!(f.evaluate(&Integer::from_u64(r)).mod_u64(p), 0);
    }
    assert_eq!(bases.quad_char.len(), 6);
    let slope = f.derivative();
    for &(p, s) in bases.quad_char.iter() {
        assert!(p > bases.algebraic[39].0);
        assert_eq!(f.evaluate(&Integer::from_u64(s)).mod_u64(p), 0);
        assert!(slope.evaluate(&Integer::from_u64(s)).mod_u64(p) != 0);
    }
    assert!(rational_factor_base(&m, 0).is_empty());
    // No pair of a prime and a root is passed over.
    let mut expected: Vec<(u64, u64)> = Vec::new();
    let mut p = 2u64;
    while expected.len() < 40 {
        if gnfs::prime_test::miller_rabin(p as u32) {
            for r in 0..p {
                if f.evaluate(&Integer::from_u64(r)).mod_u64(p) == 0 && expected.len() < 40 {
                    expected.push((p, r));
                }
            }
        }
        p += 1;
    }
    assert_eq!(bases.algebraic, expected);
}

#[test]
fn column_of_a_smooth_pair() {
    let (m, f, bases) = larger_setup();
    // Pairs that are not admissible give no column.
    assert!(relation_column(0, 1, &m, &f, &bases).is_none());
    assert!(relation_column(4, 2, &m, &f, &bases).is_none());
    let mut seen = 0;
    for b in 1..4u64 {
        for a in -2000..2000i64 {
            if let Some(col) = relation_column(a, b, &m, &f, &bases) {
                seen += 1;
                assert!(a != 0 && gcd(a.unsigned_abs(), b) == 1);
                for w in col.windows(2) {
                    assert!(w[0] < w[1]);
                }
                // Divide the recorded primes out of a + b m and out of the norm.
                let value = Integer::from_i64(a).add(&Integer::from_u64(b).mul(&m));
                assert_eq!(col.contains(&0), value.is_negative());
                let mut rest = value.magnitude();
                for (k, &(p, _)) in bases.rational.iter().enumerate() {
                    let (next, odd) = remove_factor(rest, p);
                    rest = next;
                    assert_eq!(col.contains(&(1 + k)), odd);
                }
                assert!(rest.is_u64(1));
                let mut rest = norm(&f, a, b);
                assert!(!rest.is_negative());
                for (k, &(p, r)) in bases.algebraic.iter().enumerate() {
                    if line_residue(a, b, r, p) == 0 {
                        let (next, odd) = remove_factor(rest, p);
                        rest = next;
                        assert_eq!(col.contains(&(301 + k)), odd);
                    } else {
                        assert!(!col.contains(&(301 + k)));
                    }
                }
                assert!(rest.is_u64(1));
                for (k, &(p, s)) in bases.quad_char.iter().enumerate() {
                    let set = legendre(line_residue(a, b, s, p), p) == p - 1;
                    assert_eq!(col.contains(&(601 + k)), set);
                }
            }
        }
    }
    assert!(seen > 0);
}

#[test]
fn relations_come_line_by_line() {
    let n = Integer::from_u64(100000007).mul(&Integer::from_u64(998244353));
    let params = Params::new(&n);
    let (f, m) = select(&n, params.polynomial_degree).unwrap();
    let rational = rational_factor_base(&m, params.rational_base_size);
    let algebraic = algebraic_factor_base(&f, params.algebraic_base_size);
    let start = algebraic[algebraic.len() - 1].0 + 1;
    let quad_char = quad_char_base(start, &f, params.quad_char_base_size);
    let bases = FactorBases { rational, algebraic, quad_char };
    let (relations, builder, lines) = collect_relations(&m, &f, &bases, &params, 100);
    assert!(relations.len() >= 100);
    assert_eq!(relations[99].1, lines - 1);
    assert_eq!(relations[relations.len() - 1].1, lines - 1);
    for w in relations.windows(2) {
        assert!(w[0].1 < w[1].1 || (w[0].1 == w[1].1 && w[0].0 < w[1].0));
    }
    let half = (params.sieve_array_size / 2) as i64;
    for &(a, b) in relations.iter() {
        assert!(b >= 1 && -half <= a && a < half);
        assert!(relation_column(a, b, &m, &f, &bases).is_some());
    }
    let matrix = builder.build();
    assert_eq!(matrix.num_cols(), relations.len());
    assert_eq!(matrix.num_rows(), 1 + 400 + 400 + 24);
    assert!(matrix.is_well_formed());
}

#[test]
fn members_of_a_dependency() {
    let relations: Vec<(i64, u64)> = vec![(1, 1), (-2, 1), (3, 2)];
    let dep = gnfs::linalg::BlockMatrix::from_vec(vec![0b01, 0b10, 0b11]);
    let m = Integer::from_u64(10);
    let (members, rational, algebraic) = dependency_members(&relations, &dep, 0, &m);
    assert_eq!(members, vec![0, 2]);
    assert_eq!(rational.iter().map(|x| x.to_decimal()).collect::<Vec<_>>(), vec!["11", "23"]);
    assert_eq!(algebraic[1].coefficient(0).to_decimal(), "3");
    assert_eq!(algebraic[1].coefficient(1).to_decimal(), "2");
    let (members, _, _) = dependency_members(&relations, &dep, 1, &m);
    assert_eq!(members, vec![1, 2]);
    let (members, _, _) = dependency_members(&relations, &dep, 5, &m);
    assert!(members.is_empty());
}

#[test]
fn factors_from_a_congruence_of_squares() {
    let n = Integer::from_u64(91);
    // 10^2 = 3^2 modulo 91.
    let x = Integer::from_u64(10);
    let y = Integer::from_u64(3);
    let mut factors: Vec<Integer> = Vec::new();
    split_with_congruence(&x, &y, &n, &mut factors);
    assert_eq!(factors.iter().map(|f| f.to_decimal()).collect::<Vec<_>>(), vec!["7"]);
    let mut swapped: Vec<Integer> = Vec::new();
    split_with_congruence(&y, &x, &n, &mut swapped);
    assert_eq!(swapped.iter().map(|f| f.to_decimal()).collect::<Vec<_>>(), vec!["7"]);
    // gcd 1 and gcd n add nothing.
    split_with(&Integer::from_u64(2), &n, &mut factors);
    split_with(&Integer::from_u64(182), &n, &mut factors);
    assert_eq!(factors.len(), 1);
    add_divisor(Integer::from_u64(13), &n, &mut factors);
    add_divisor(Integer::from_u64(1), &n, &mut factors);
    add_divisor(Integer::from_u64(91), &n, &mut factors);
    assert_eq!(factors.iter().map(|f| f.to_decimal()).collect::<Vec<_>>(), vec!["7"]);
    insert_sorted(&mut factors, Integer::from_u64(3));
    insert_sorted(&mut factors, Integer::from_u64(13));
    insert_sorted(&mut factors, Integer::from_u64(7));
    assert_eq!(factors.iter().map(|f| f.to_decimal()).collect::<Vec<_>>(), vec!["3", "7", "13"]);
}

#[test]
fn builder_is_shared_with_the_sieve() {
    let mut builder = CscMatrixBuilder::new();
    builder.set_num_rows(2);
    builder.add_col(vec![1]);
    assert_eq!(builder.build().num_cols(), 1);
}

#[test]
fn splitting_adds_the_smaller_cofactor_or_nothing() {
    let n = Integer::from_u64(15);
    let mut factors: Vec<Integer> = Vec::new();
    // gcd(21 mod 15, 15) = 3.
    split_with(&Integer::from_u64(21), &n, &mut factors);
    assert_eq!(factors.iter().map(|f| f.to_decimal()).collect::<Vec<_>>(), vec!["3"]);
    // gcd(7, 15) = 1 and gcd(30 mod 15, 15) = 15 add nothing.
    split_with(&Integer::from_u64(7), &n, &mut factors);
    split_with(&Integer::from_u64(30), &n, &mut factors);
    assert_eq!(factors.iter().map(|f| f.to_decimal()).collect::<Vec<_>>(), vec!["3"]);
    // gcd(5, 15) = 5, whose cofactor 3 is the smaller and is in the list.
    split_with(&Integer::from_u64(5), &n, &mut factors);
    assert_eq!(factors.iter().map(|f| f.to_decimal()).collect::<Vec<_>>(), vec!["3"]);
    // 4^2 = 1^2 (mod 15): gcd(5, 15) = 5 and gcd(3, 15) = 3, also in the other order.
    let mut first: Vec<Integer> = Vec::new();
    split_with_congruence(&Integer::from_u64(4), &Integer::from_u64(1), &n, &mut first);
    assert_eq!(first.iter().map(|f| f.to_decimal()).collect::<Vec<_>>(), vec!["3"]);
    let mut second: Vec<Integer> = Vec::new();
    split_with_congruence(&Integer::from_u64(1), &Integer::from_u64(4), &n, &mut second);
    assert_eq!(second.iter().map(|f| f.to_decimal()).collect::<Vec<_>>(), vec!["3"]);
    // 11^2 = 1^2 (mod 60): gcd(12, 60) = 12 gives 5, gcd(10, 60) = 10 gives 6.
    let m = Integer::from_u64(60);
    let mut both: Vec<Integer> = Vec::new();
    split_with_congruence(&Integer::from_u64(11), &Integer::from_u64(1), &m, &mut both);
    assert_eq!(both.iter().map(|f| f.to_decimal()).collect::<Vec<_>>(), vec!["5", "6"]);
}

#[test]
fn nothing_is_found_without_a_polynomial() {
    // The cube root of 6 is below 2; 16 has the leading digit 2 in base 2.
    assert!(factorize(&Integer::from_u64(6)).is_empty());
    assert!(factorize(&Integer::from_u64(16)).is_empty());
    let mut rng = gnfs::random::Generator::from_seed(1);
    assert!(gnfs::nfs::factorize_with(&Integer::from_u64(4), &mut rng).is_empty());
}
