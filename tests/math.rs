use algorist::math::gcd::{gcd, gcd_extended, lcm};
use algorist::math::log::IntLog;
use algorist::math::modulo::{Mod7, MODULUS};
use algorist::math::primes::{factorize, is_prime, non_primes, primes, sieve, IsPrime, PrimeFactor, PrimeFactorsIter, SieveIter, Primes, PrimeFactors, Factors, factors};
use algorist::math::root::{root_floor_u64, IntRoot};

#[test]
fn test_gcd_extended() {
    let (d, x, y) = gcd_extended(240, 46);
    assert_eq!(d, 2);
    assert_eq!(x, -9i64);
    assert_eq!(y, 47i64);
}

#[test]
fn gcd_extended_edges() {
    assert_eq!(gcd_extended(0, 0), (0, 1, 0));
    assert_eq!(gcd_extended(7, 0), (7, 1, 0));
    let (d, x, y) = gcd_extended(0, 9);
    assert_eq!((d, 0 * x + 9 * y), (9, 9));
    let (d, x, y) = gcd_extended(i32::MAX, 1_000_000_007);
    assert_eq!(d, 1);
    assert_eq!(i32::MAX as i64 * x + 1_000_000_007 * y, 1);
}

#[test]
fn sieve_iter() {
    let mut iter = SieveIter::new(30);
    let mut primes = Vec::new();
    while let Some(p) = iter.next() {
        primes.push(p);
    }
    assert_eq!(primes, vec![2, 3, 5, 7, 11, 13, 17, 19, 23, 29]);
}

#[test]
fn prime_traits() {
    assert_eq!(30usize.primes(), vec![2, 3, 5, 7, 11, 13, 17, 19, 23, 29]);
    assert_eq!(60usize.prime_factors(), vec![PrimeFactor(2, 2), PrimeFactor(3, 1), PrimeFactor(5, 1)]);
    let mut it = 12usize.prime_factors_iter();
    assert_eq!(it.next(), Some(PrimeFactor(2, 2)));
    assert_eq!(it.next(), Some(PrimeFactor(3, 1)));
    assert_eq!(it.next(), None);
}

#[test]
fn test_gcd() {
    assert_eq!(gcd(240, 46), 2);
}

#[test]
fn test_lcm() {
    assert_eq!(lcm(5, 7), 35);
    assert_eq!(lcm(5, 0), 0);
    assert_eq!(lcm(24, 36), 72);
}

#[test]
fn gcd_edge_cases() {
    assert_eq!(gcd(0, 5), 5);
    assert_eq!(gcd(5, 0), 5);
    assert_eq!(gcd(0, 0), 0);
    assert_eq!(gcd(42, 1_000_000_007), 1);
    assert_eq!(gcd(240, 480), 240);
}

#[test]
fn test_is_prime() {
    let primes = [2, 3, 5, 7, 11, 13, 17, 19, 23, 29];
    let non_primes = [0, 1, 4, 6, 8, 9, 10, 12, 14, 15, 16, 18, 20, 21, 22, 24, 25, 26, 27, 28];
    assert!(primes.iter().all(|&x| is_prime(x)));
    assert!(primes.iter().all(|&x| x.is_prime()));
    assert!(non_primes.iter().all(|&x| !is_prime(x)));
    assert!(non_primes.iter().all(|&x| !x.is_prime()));
}

#[test]
fn test_sieve() {
    let primes = [2, 3, 5, 7, 11, 13, 17, 19, 23, 29];
    let n = 30;
    let sieve = sieve(n);
    for i in 0..n {
        assert_eq!(sieve[i], primes.contains(&i));
    }
}

#[test]
fn primes_and_non_primes() {
    assert_eq!(primes(30), vec![2, 3, 5, 7, 11, 13, 17, 19, 23, 29]);
    assert_eq!(primes(0), vec![2]);
    assert_eq!(non_primes(10), vec![1, 4, 6, 8, 9, 10]);
    assert_eq!(non_primes(0), Vec::<usize>::new());
}

#[test]
fn test_factorize() {
    assert_eq!(factorize(30), vec![PrimeFactor(2, 1), PrimeFactor(3, 1), PrimeFactor(5, 1),]);
    assert_eq!(factorize(60), vec![PrimeFactor(2, 2), PrimeFactor(3, 1), PrimeFactor(5, 1),]);
    assert_eq!(factorize(90), vec![PrimeFactor(2, 1), PrimeFactor(3, 2), PrimeFactor(5, 1),]);
}

#[test]
fn test_prime_factors_iter() {
    let mut factors = PrimeFactorsIter::new(30);
    assert_eq!(factors.next(), Some(PrimeFactor(2, 1)));
    assert_eq!(factors.next(), Some(PrimeFactor(3, 1)));
    assert_eq!(factors.next(), Some(PrimeFactor(5, 1)));
    assert_eq!(factors.next(), None);

    let mut factors = PrimeFactorsIter::new(60);
    assert_eq!(factors.next(), Some(PrimeFactor(2, 2)));
    assert_eq!(factors.next(), Some(PrimeFactor(3, 1)));
    assert_eq!(factors.next(), Some(PrimeFactor(5, 1)));
    assert_eq!(factors.next(), None);

    let mut factors = PrimeFactorsIter::new(90);
    assert_eq!(factors.next(), Some(PrimeFactor(2, 1)));
    assert_eq!(factors.next(), Some(PrimeFactor(3, 2)));
    assert_eq!(factors.next(), Some(PrimeFactor(5, 1)));
    assert_eq!(factors.next(), None);
}

#[test]
fn factorize_edge_cases() {
    assert_eq!(factorize(0), vec![]);
    assert_eq!(factorize(1), vec![]);
    assert_eq!(factorize(97), vec![PrimeFactor(97, 1)]);
    assert_eq!(factorize(1_000_000_000), vec![PrimeFactor(2, 9), PrimeFactor(5, 9)]);
    let f = PrimeFactor::new(3, 2);
    assert_eq!((f.factor(), f.count()), (3, 2));
}

#[test]
fn test_root() {
    assert_eq!(27_i64.root(3), Some(3));
    assert_eq!(28_i64.root(3), None);
    assert_eq!(28_i64.root_floor(3), 3);
    assert_eq!(28_i64.root_ceil(3), 4);
    assert_eq!(29_i64.root_ceil(3), 4);

    assert_eq!(0_i64.root(2), Some(0));
    assert_eq!(1_i64.root(2), Some(1));
    assert_eq!(2_i64.root(2), None);
    assert_eq!(3_i64.root(2), None);
    assert_eq!(4_i64.root(2), Some(2));
    assert_eq!(12_i64.root(2), None);
    assert_eq!(12_i64.root_floor(2), 3);
    assert_eq!(12_i64.root_ceil(2), 4);
}

#[test]
fn root_test_root() {
    assert_eq!((-8_i64).root(3), Some(-2));

    assert_eq!(27_i64.root(3), Some(3));
    assert_eq!(28_i64.root(3), None);
    assert_eq!(28_i64.root_floor(3), 3);
    assert_eq!(28_i64.root_ceil(3), 4);
    assert_eq!(29_i64.root_ceil(3), 4);

    assert_eq!(0_i64.root(2), Some(0));
    assert_eq!(1_i64.root(2), Some(1));
    assert_eq!(2_i64.root(2), None);
    assert_eq!(3_i64.root(2), None);
    assert_eq!(4_i64.root(2), Some(2));
    assert_eq!(12_i64.root(2), None);
    assert_eq!(12_i64.root_floor(2), 3);
    assert_eq!(12_i64.root_ceil(2), 4);

    let x: i64 = 12345;
    assert_eq!(x.root(1), Some(x));
    assert_eq!(x.root(2), x.sqrt());
    assert_eq!(x.root(3), x.cbrt());
    assert_eq!(x.root(4), None);
    assert_eq!(x.root_floor(4), 10);
    assert_eq!(x.root_floor(13), 2);
    assert_eq!(x.root_floor(14), 1);
    assert_eq!(x.root_floor(std::usize::MAX), 1);

    assert_eq!((std::i32::MAX as i64).root_floor(30), 2);
    assert_eq!((std::i32::MAX as i64).root_floor(31), 1);
    assert_eq!((std::i32::MIN as i64).root_floor(31), -2);
    assert_eq!((std::i32::MIN as i64 + 1).root_floor(31), -1);

    assert_eq!((std::u32::MAX as i64).root_floor(31), 2);
    assert_eq!((std::u32::MAX as i64).root_floor(32), 1);
}

#[test]
fn root_perfect_powers() {
    assert!(27_i64.is_perfect_pow(3));
    assert!(!28_i64.is_perfect_pow(3));
    assert!(81_i64.is_perfect_pow(4));
    assert!(1_i64.is_perfect_pow(128));
    assert!(0_i64.is_perfect_pow(1));
    assert!((-8_i64).is_perfect_pow(3));
    assert_eq!((-8_i64).cbrt(), Some(-2));
    assert_eq!((-10_i64).root_floor(3), -2);
    assert_eq!(i64::MIN.root_floor(1), i64::MIN);
    assert_eq!(i64::MAX.root_floor(2), 3037000499);
    assert_eq!(root_floor_u64(u64::MAX, 2), 4294967295);
    assert_eq!(root_floor_u64(u64::MAX, 64), 1);
}

#[test]
fn test_log() {
    assert_eq!(1_i64.log(2), 0);
    assert_eq!(2_i64.log(2), 1);
    assert_eq!(3_i64.log(2), 2);
    assert_eq!(4_i64.log(2), 2);
    assert_eq!(5_i64.log(2), 3);
    assert_eq!(6_i64.log(2), 3);
    assert_eq!(7_i64.log(2), 3);
    assert_eq!(8_i64.log(2), 3);
    assert_eq!(9_i64.log(2), 4);
    assert_eq!(571_787_i64.log(83), 3);
    assert_eq!(50_000_000_i64.log(6), 10);
}

#[test]
fn test_log_till_zero() {
    assert_eq!(0_i64.div_till_zero(2), 0);
    assert_eq!(1_i64.div_till_zero(2), 1);
    assert_eq!(2_i64.div_till_zero(2), 2);
    assert_eq!(3_i64.div_till_zero(2), 2);
    assert_eq!(4_i64.div_till_zero(2), 3);
    assert_eq!(5_i64.div_till_zero(2), 3);
    assert_eq!(6_i64.div_till_zero(2), 3);
    assert_eq!(7_i64.div_till_zero(2), 3);
    assert_eq!(8_i64.div_till_zero(2), 4);
    assert_eq!(9_i64.div_till_zero(2), 4);
    assert_eq!(571_787_i64.div_till_zero(83), 4);
    assert_eq!(50_000_000_i64.div_till_zero(6), 10);
}

#[test]
fn log_of_large_values() {
    assert_eq!(i64::MAX.log(2), 63);
    assert_eq!(i64::MAX.div_till_zero(2), 63);
    assert_eq!(i64::MAX.log(i64::MAX), 1);
}

#[test]
fn modulo_creation() {
    let test_cases = vec![
        (-1, 1_000_000_006),
        (-2_000_000_014, 0),
        (-2_000_000_013, 1),
        (i64::MIN, 708_828_003),
        (0, 0),
        (1_000_000_006, 1_000_000_006),
        (1_000_000_007, 0),
        (i64::MAX, i64::MAX % MODULUS),
    ];

    for &(val, expected) in test_cases.iter() {
        let m = Mod7::new(val);
        assert_eq!(m.val(), expected, "new()");
    }
}

#[test]
fn modulo_addition() {
    let test_cases = vec![
        (1, 2, 3),
        (1_000_000_006, 1, 0),
        (1_000_000_006, 1_000_000_006, 1_000_000_005),
        (1_000_000_006, 1_000_000_007, 1_000_000_006),
        (1_000_000_007, 1_000_000_007, 0),
        (1_000_000_007, 1_000_000_008, 1),
        (i64::MAX, 1, i64::MAX % MODULUS + 1),
        (i64::MAX, 1_000_000_007, i64::MAX % MODULUS),
        (i64::MAX, 1_000_000_008, i64::MAX % MODULUS + 1),
        (i64::MAX, i64::MAX, i64::MAX % MODULUS * 2 % MODULUS),
        (-1, 1, 0),
        (-1, -1, 1_000_000_005),
        (-1, -2, 1_000_000_004),
        (-1, -1_000_000_007, 1_000_000_006),
        (-1, -1_000_000_008, 1_000_000_005),
        (-1, i64::MIN, 708_828_002),
        (i64::MIN, i64::MIN, 417_655_999),
        (-1, -1_000_000_007, 1_000_000_006),
        (-1, -1_000_000_008, 1_000_000_005),
    ];

    for &(a, b, expected) in &test_cases {
        let m = Mod7::new(a).add(Mod7::new(b));
        assert_eq!(m.val(), expected, "add()");
    }

    for (a, b, expected) in test_cases {
        let mut m = Mod7::new(a);
        m.add_assign(Mod7::new(b));
        assert_eq!(m.val(), expected, "add_assign()");
    }
}

#[test]
fn modulo_subtraction() {
    let test_cases = vec![
        (1, 2, 1_000_000_006),
        (1_000_000_006, 1, 1_000_000_005),
        (1_000_000_006, 1_000_000_006, 0),
        (1_000_000_006, 1_000_000_007, 1_000_000_006),
        (1_000_000_007, 1_000_000_007, 0),
        (1_000_000_007, 1_000_000_008, 1_000_000_006),
        (i64::MAX, 1, i64::MAX % MODULUS - 1),
        (i64::MAX, 1_000_000_007, i64::MAX % MODULUS),
        (i64::MAX, 1_000_000_008, i64::MAX % MODULUS - 1),
        (i64::MAX, i64::MAX, 0),
        (-1, 1, 1_000_000_005),
        (-1, -1, 0),
        (-1, -2, 1),
        (-1, -1_000_000_007, 1_000_000_006),
        (-1, -1_000_000_008, 0),
        (-1, i64::MIN, 291_172_003),
        (i64::MIN, i64::MIN, 0),
        (-1, -1_000_000_007, 1_000_000_006),
        (-1, -1_000_000_008, 0),
    ];

    for &(a, b, expected) in &test_cases {
        let m = Mod7::new(a).sub(Mod7::new(b));
        assert_eq!(m.val(), expected, "sub()");
    }

    for (a, b, expected) in test_cases {
        let mut m = Mod7::new(a);
        m.sub_assign(Mod7::new(b));
        assert_eq!(m.val(), expected, "sub_assign()");
    }
}

#[test]
fn modulo_multiplication() {
    let test_cases = vec![
        (1, 2, 2),
        (1_000_000_006, 1, 1_000_000_006),
        (1_000_000_006, 2, 1_000_000_005),
        (1_000_000_006, 1_000_000_006, 1),
        (1_000_000_006, 1_000_000_007, 0),
        (1_000_000_007, 1_000_000_007, 0),
        (1_000_000_007, 1_000_000_008, 0),
        (i64::MAX, 1, i64::MAX % MODULUS),
        (i64::MAX, 1_000_000_007, 0),
        (i64::MAX, 1_000_000_008, 291_172_003),
        (i64::MAX, i64::MAX, 737_564_071),
        (-1, 1, 1_000_000_006),
        (-1, -1, 1),
        (-1, -2, 2),
        (-1, -1_000_000_007, 0),
        (-1, -1_000_000_008, 1),
        (-1, i64::MIN, 291_172_004),
        (i64::MIN, i64::MIN, 319_908_071),
        (-1, -1_000_000_007, 0),
        (-1, -1_000_000_008, 1),
    ];

    for &(a, b, expected) in &test_cases {
        let m = Mod7::new(a).mul(Mod7::new(b));
        assert_eq!(m.val(), expected, "mul()");
    }

    for (a, b, expected) in test_cases {
        let mut m = Mod7::new(a);
        m.mul_assign(Mod7::new(b));
        assert_eq!(m.val(), expected, "mul_assign()");
    }
}

#[test]
fn modulo_inverse() {
    let test_cases = vec![
        (1, 1),
        (2, 500000004),
        (1_000_000_006, 1_000_000_006),
        (1_000_000_008, 1),
        (i64::MAX, 933_137_596),
        (-1, 1_000_000_006),
        (-2, 500000003),
        (-1_000_000_008, 1_000_000_006),
    ];

    for &(val, expected) in &test_cases {
        let m = Mod7::new(val);
        let inv = m.inverse().unwrap();
        assert_eq!(inv.val(), expected, "inverse()");
        assert_eq!(m.mul(inv), Mod7::new(1), "inverse()");
    }
}

#[test]
fn modulo_inverse_of_zero() {
    assert_eq!(Mod7::new(0).inverse(), None);
    assert_eq!(Mod7::new(1_000_000_007).inverse(), None);
}

#[test]
fn modulo_division() {
    let test_cases = vec![
        (1, 1, 1),
        (2, 2, 1),
        (1_000_000_006, 1_000_000_006, 1),
        (1_000_000_008, 2, 500_000_004),
        (i64::MAX, 2, 645_586_005),
        (-1, 1, 1_000_000_006),
        (-2, 2, 1_000_000_006),
        (-1_000_000_008, 2, 500_000_003),
    ];

    for &(a, b, expected) in &test_cases {
        let m = Mod7::new(a).div(Mod7::new(b));
        assert_eq!(m.val(), expected, "div()");
    }

    for (a, b, expected) in test_cases {
        let mut m = Mod7::new(a);
        m.div_assign(Mod7::new(b));
        assert_eq!(m.val(), expected, "div_assign()");
    }
}

#[test]
fn modulo_negation() {
    let test_cases = vec![
        (1, 1_000_000_006),
        (1_000_000_006, 1),
        (1_000_000_008, 1_000_000_006),
        (i64::MAX, 708_828_004),
        (-1, 1),
        (-2, 2),
        (-1_000_000_008, 1),
    ];

    for &(val, expected) in &test_cases {
        let m = Mod7::new(val).neg();
        assert_eq!(m.val(), expected, "neg()");
    }
    assert_eq!(Mod7::new(0).neg().val(), 0);
}

#[test]
fn modulo_pow() {
    let test_cases = vec![
        (1, 0i64, 1),
        (1, 1, 1),
        (1, 2, 1),
        (1, 1_000_000_006, 1),
        (1, 1_000_000_008, 1),
        (1, i32::MAX as i64, 1),
        (2, 1, 2),
        (2, 5, 32),
        (2, 1_000_000_006, 1),
        (2, 1_000_000_008, 4),
        (2, i32::MAX as i64, 914_893_544),
        (i64::MAX, 1, 291_172_003),
        (i64::MAX, 2, 737_564_071),
        (i64::MAX, 1_000_000_006, 1),
        (i64::MAX, 1_000_000_008, 737_564_071),
        (i64::MAX, i32::MAX as i64, 840_154_026),
        (-1, 1, 1_000_000_006),
        (-1, 2, 1),
        (-1, 1_000_000_006, 1),
        (-1, i32::MAX as i64, 1_000_000_006),
        (-2, 1, 1_000_000_005),
        (-2, 5, 999_999_975),
        (-2, 1_000_000_006, 1),
        (-2, 1_000_000_008, 4),
        (-i64::MAX, 10, 394_962_753),
        (-i64::MAX, 1_000_000_006, 1),
        (-i64::MAX, 1_000_000_008, 737_564_071),
        (-i64::MAX, i32::MAX as i64, 159_845_981),
    ];

    for &(base, exp, expected) in &test_cases {
        let m = Mod7::new(base).pow(exp);
        assert_eq!(m.val(), expected, "pow()");
    }
}

#[test]
fn modulo_unchecked() {
    assert_eq!(Mod7::new_unchecked(5).val(), 5);
    assert_eq!(Mod7::new_unchecked(1_000_000_006), Mod7::new(-1));
}

#[test]
fn test_all_divisors() {
    let mut d30 = 30usize.factors();
    d30.sort();
    assert_eq!(d30, vec![1, 2, 3, 5, 6, 10, 15, 30]);
    let mut d60 = 60usize.factors();
    d60.sort();
    assert_eq!(d60, vec![1, 2, 3, 4, 5, 6, 10, 12, 15, 20, 30, 60]);
    let mut d90 = 90usize.factors();
    d90.sort();
    assert_eq!(d90, vec![1, 2, 3, 5, 6, 9, 10, 15, 18, 30, 45, 90]);

    assert_eq!(1usize.factors(), vec![1]);
}

#[test]
fn test_big_prime() {
    assert!(is_prime(1_000_000_007));

    let factors = factorize(1_000_000_000);
    assert_eq!(factors, vec![PrimeFactor(2, 9), PrimeFactor(5, 9),]);

    let divs = 1_000_000_000usize.factors();
    assert_eq!(divs.len(), 100);
}

#[test]
fn divisors_of_squares_and_zero() {
    assert_eq!(factors(36), vec![1, 2, 3, 4, 6, 9, 12, 18, 36]);
    assert_eq!(factors(0), vec![1]);
    assert_eq!(factors(13), vec![1, 13]);
}

#[test]
fn test_max_factors() {
    assert_eq!(
        30usize.max_prime_factors(),
        [
            0, 0, 2, 3, 2, 5, 3, 7, 2, 3, 5, 11, 3, 13, 7, 5, 2, 17, 3, 19, 5, 7, 11, 23, 3, 5, 13, 3, 7,
            29, 5
        ]
    );
}

#[test]
fn test_count_factors() {
    assert_eq!(
        30usize.count_prime_factors(),
        [
            0, 0, 1, 1, 1, 1, 2, 1, 1, 1, 2, 1, 2, 1, 2, 2, 1, 1, 2, 1, 2, 2, 2, 1, 2, 1, 2, 1, 2, 1,
            3
        ]
    );
}

#[test]
fn modulo_from_str() {
    let test_cases = vec![
        ("0".to_string(), 0),
        ("1".to_string(), 1),
        ("1000000006".to_string(), 1_000_000_006),
        ("1000000007".to_string(), 0),
        ("1000000008".to_string(), 1),
        ("1000000009".to_string(), 2),
        ("1000000010".to_string(), 3),
        (format!("{}", i64::MAX), i64::MAX % MODULUS),
    ];

    for (s, expected) in test_cases {
        let m: Mod7 = s.parse().unwrap();
        assert_eq!(m.val(), expected, "from_str()");
    }
}

#[test]
fn modulo_from_str_rejects() {
    assert!("".parse::<Mod7>().is_err());
    assert!("12a".parse::<Mod7>().is_err());
    assert!("9223372036854775808".parse::<Mod7>().is_err());
    assert_eq!("-1".parse::<Mod7>().unwrap().val(), 1_000_000_006);
    assert_eq!("-9223372036854775808".parse::<Mod7>().unwrap().val(), 708_828_003);
}
