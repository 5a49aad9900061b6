use num_modular::ModularOps;

#[test]
fn u64_basic_mod_test() {
    let a = rand::random::<u64>() % 100000;
    let m = rand::random::<u64>() % 100000;
    assert_eq!(a.addm(a, &m), (a + a) % m);
    assert_eq!(a.mulm(a, &m), (a * a) % m);
    assert_eq!(a.powm(3, &m), a.pow(3) % m);
}

const ADDM_CASES: [(u8, u8, u8, u8); 10] = [
    // [m, x, y, rem]: x + y = rem (mod m)
    (5, 0, 0, 0),
    (5, 1, 2, 3),
    (5, 2, 1, 3),
    (5, 2, 2, 4),
    (5, 3, 2, 0),
    (5, 2, 3, 0),
    (5, 6, 1, 2),
    (5, 1, 6, 2),
    (5, 11, 7, 3),
    (5, 7, 11, 3),
];

#[test]
fn addm_test() {
    for (m, x, y, r) in ADDM_CASES.iter() {
        assert_eq!(x.addm(y, &m), *r, "u8 x: {}, y: {}", x, y);
        assert_eq!((*x as u16).addm(*y as u16, &(*m as u16)), *r as u16);
        assert_eq!((*x as u32).addm(*y as u32, &(*m as u32)), *r as u32);
        assert_eq!((*x as u64).addm(*y as u64, &(*m as u64)), *r as u64);
        assert_eq!((*x as u128).addm(*y as u128, &(*m as u128)), *r as u128);
    }
}

const SUBM_CASES: [(u8, u8, u8, u8); 10] = [
    // [m, x, y, rem]: x - y = rem (mod m)
    (7, 0, 0, 0),
    (7, 11, 9, 2),
    (7, 5, 2, 3),
    (7, 2, 5, 4),
    (7, 6, 7, 6),
    (7, 1, 7, 1),
    (7, 7, 1, 6),
    (7, 0, 6, 1),
    (7, 15, 1, 0),
    (7, 1, 15, 0),
];

#[test]
fn subm_test() {
    for (m, x, y, r) in SUBM_CASES.iter() {
        assert_eq!(x.subm(y, &m), *r);
        assert_eq!((*x as u16).subm(*y as u16, &(*m as u16)), *r as u16);
        assert_eq!((*x as u32).subm(*y as u32, &(*m as u32)), *r as u32);
        assert_eq!((*x as u64).subm(*y as u64, &(*m as u64)), *r as u64);
        assert_eq!((*x as u128).subm(*y as u128, &(*m as u128)), *r as u128);
    }
}

#[test]
fn invm_test() {
    let test_cases: [(u64, u64, u64); 8] = [
        // [a, m, x] s.t. a*x = 1 (mod m) is satisfied
        (5, 11, 9),
        (8, 11, 7),
        (10, 11, 10),
        (3, 5000, 1667),
        (1667, 5000, 3),
        (999, 5000, 3999),
        (999, 9_223_372_036_854_775_807, 3_619_181_019_466_538_655),
        (
            9_223_372_036_854_775_804,
            9_223_372_036_854_775_807,
            3_074_457_345_618_258_602,
        ),
    ];

    for (a, m, x) in test_cases.iter() {
        assert_eq!(ModularOps::<&u64>::invm(a, m).unwrap(), *x);
    }
}

#[test]
fn jacobi_test() {
    let test_cases: [(u8, u8, i8); 15] = [
        (1, 1, 1),
        (15, 1, 1),
        (2, 3, -1),
        (29, 9, 1),
        (4, 11, 1),
        (17, 11, -1),
        (19, 29, -1),
        (10, 33, -1),
        (11, 33, 0),
        (12, 33, 0),
        (14, 33, -1),
        (15, 33, 0),
        (15, 37, -1),
        (29, 59, 1),
        (30, 59, -1),
    ];

    for (a, n, res) in test_cases.iter() {
        assert_eq!(ModularOps::<&u8>::jacobi(a, n), *res);
        assert_eq!(ModularOps::<&u16>::jacobi(&(*a as u16), &(*n as u16)), *res);
        assert_eq!(ModularOps::<&u32>::jacobi(&(*a as u32), &(*n as u32)), *res);
        assert_eq!(ModularOps::<&u64>::jacobi(&(*a as u64), &(*n as u64)), *res);
        assert_eq!(
            ModularOps::<&u128>::jacobi(&(*a as u128), &(*n as u128)),
            *res
        );
    }
}

#[test]
fn kronecker_test() {
    let test_cases: [(u8, u8, i8); 18] = [
        (0, 15, 0),
        (1, 15, 1),
        (2, 15, 1),
        (4, 15, 1),
        (7, 15, -1),
        (10, 15, 0),
        (0, 14, 0),
        (1, 14, 1),
        (2, 14, 0),
        (4, 14, 0),
        (9, 14, 1),
        (10, 14, 0),
        (0, 11, 0),
        (1, 11, 1),
        (2, 11, -1),
        (4, 11, 1),
        (9, 11, 1),
        (10, 11, -1),
    ];

    for (a, n, res) in test_cases.iter() {
        assert_eq!(ModularOps::<&u8>::kronecker(a, n), *res);
        assert_eq!(
            ModularOps::<&u16>::kronecker(&(*a as u16), &(*n as u16)),
            *res
        );
        assert_eq!(
            ModularOps::<&u32>::kronecker(&(*a as u32), &(*n as u32)),
            *res
        );
        assert_eq!(
            ModularOps::<&u64>::kronecker(&(*a as u64), &(*n as u64)),
            *res
        );
        assert_eq!(
            ModularOps::<&u128>::kronecker(&(*a as u128), &(*n as u128)),
            *res
        );
    }
}

#[test]
fn scenario_table() {
    assert_eq!(11u8.addm(7, &5), 3);
    assert_eq!(2u8.subm(5, &7), 4);
    assert_eq!(15u8.subm(1, &7), 0);
    assert_eq!(8u64.invm(&11), Some(7));
    assert_eq!(
        999u64.invm(&9223372036854775807),
        Some(3619181019466538655)
    );
    assert_eq!(29u8.jacobi(&9), 1);
    assert_eq!(11u8.jacobi(&33), 0);
    assert_eq!(19u8.jacobi(&29), -1);
    assert_eq!(7u8.kronecker(&15), -1);
    assert_eq!(2u8.kronecker(&14), 0);
    assert_eq!(2u8.kronecker(&11), -1);
}

#[test]
fn small_operations_match_plain_arithmetic() {
    for m in 1u16..=40 {
        for a in 0u16..=90 {
            for b in 0u16..=90 {
                assert_eq!(a.addm(b, &m), (a + b) % m);
                assert_eq!(a.mulm(b, &m), (a * b) % m);
                let diff = (a as i32 - b as i32).rem_euclid(m as i32) as u16;
                assert_eq!(a.subm(b, &m), diff);
            }
            assert_eq!(a.negm(&m), (-(a as i32)).rem_euclid(m as i32) as u16);
        }
    }
}

fn plain_power(a: u128, e: u32, m: u128) -> u128 {
    let mut r = 1 % m;
    for _ in 0..e {
        r = r * (a % m) % m;
    }
    r
}

#[test]
fn powm_matches_repeated_product() {
    for m in 1u32..=30 {
        for a in 0u32..=35 {
            for e in 0u32..=12 {
                assert_eq!(a.powm(e, &m) as u128, plain_power(a as u128, e, m as u128));
            }
        }
    }
}

#[test]
fn powm_exponents_zero_one_two() {
    assert_eq!(5u64.powm(0, &7), 1);
    assert_eq!(5u64.powm(0, &1), 0);
    assert_eq!(12u64.powm(1, &7), 5);
    assert_eq!(12u64.powm(2, &7), 4);
    assert_eq!(0u8.powm(0, &3), 1);
    assert_eq!(2u8.powm(2, &3), 1);
}

#[test]
fn powm_exact_values() {
    assert_eq!(2u64.powm(10, &1000), 24);
    assert_eq!(3u8.powm(200, &251), 149);
    assert_eq!(7u32.powm(4_000_000_000, &4_294_967_291), 373_489_118);
    assert_eq!((u64::MAX - 1).powm(u64::MAX, &u64::MAX), u64::MAX - 1);
    assert_eq!(2u128.powm(127, &(u128::MAX)), 1u128 << 127);
}

#[test]
fn operands_at_the_top_of_the_word() {
    assert_eq!(u8::MAX.addm(u8::MAX, &u8::MAX), 0);
    assert_eq!(254u8.addm(254, &255), 253);
    assert_eq!(u64::MAX.addm(u64::MAX, &(u64::MAX - 1)), 2);
    assert_eq!((u64::MAX - 1).mulm(u64::MAX - 1, &u64::MAX), 1);
    assert_eq!(u128::MAX.addm(u128::MAX, &(u128::MAX - 1)), 2);
    assert_eq!((u128::MAX - 1).addm(u128::MAX - 1, &u128::MAX), u128::MAX - 2);
    assert_eq!((u128::MAX - 1).mulm(u128::MAX - 1, &u128::MAX), 1);
    assert_eq!((u128::MAX - 2).mulm(u128::MAX - 3, &u128::MAX), 6);
    assert_eq!(0u128.subm(1, &u128::MAX), u128::MAX - 1);
    assert_eq!(1u64.negm(&u64::MAX), u64::MAX - 1);
    assert_eq!(u64::MAX.negm(&u64::MAX), 0);
}

#[test]
fn smallest_odd_modulus_and_largest_residue() {
    assert_eq!(2u8.addm(2, &3), 1);
    assert_eq!(2u8.mulm(2, &3), 1);
    assert_eq!(0u8.subm(2, &3), 1);
    assert_eq!(2u8.negm(&3), 1);
    assert_eq!(2u8.invm(&3), Some(2));
    assert_eq!(10u32.mulm(10, &11), 1);
    assert_eq!(10u32.invm(&11), Some(10));
}

#[test]
fn invm_of_one_is_one() {
    for m in 2u32..200 {
        assert_eq!(1u32.invm(&m), Some(1));
    }
    assert_eq!(1u128.invm(&u128::MAX), Some(1));
}

fn plain_gcd(a: u32, b: u32) -> u32 {
    if b == 0 {
        a
    } else {
        plain_gcd(b, a % b)
    }
}

#[test]
fn invm_is_present_exactly_for_coprime_operands() {
    for m in 2u32..=60 {
        for a in 0u32..=130 {
            match a.invm(&m) {
                Some(x) => {
                    assert!(x < m);
                    assert_eq!(a * x % m, 1);
                    assert_eq!(plain_gcd(a, m), 1);
                }
                None => assert_ne!(plain_gcd(a, m), 1),
            }
        }
    }
}

#[test]
fn invm_without_inverse() {
    assert_eq!(4u8.invm(&6), None);
    assert_eq!(0u8.invm(&5), None);
    assert_eq!(10u64.invm(&5000), None);
    assert_eq!(7u16.invm(&7), None);
}

#[test]
fn invm_modulo_one() {
    assert_eq!(0u8.invm(&1), Some(0));
    assert_eq!(9u64.invm(&1), Some(0));
}

#[test]
fn invm_reduces_large_operands() {
    assert_eq!(19u8.invm(&11), Some(7));
    assert_eq!(u64::MAX.invm(&11), 4u64.invm(&11));
}

#[test]
fn jacobi_of_zero() {
    assert_eq!(0u8.jacobi(&1), 1);
    assert_eq!(0u8.jacobi(&3), 0);
    assert_eq!(0u64.jacobi(&9_223_372_036_854_775_807), 0);
}

#[test]
fn jacobi_agrees_with_the_euler_criterion() {
    let primes: [u32; 12] = [3, 5, 7, 11, 13, 17, 19, 23, 29, 31, 101, 251];
    for p in primes.iter() {
        for a in 0u32..(2 * *p) {
            let euler = a.powm((*p - 1) / 2, p);
            let expected: i8 = if euler == 0 {
                0
            } else if euler == 1 {
                1
            } else {
                assert_eq!(euler, *p - 1);
                -1
            };
            assert_eq!(a.jacobi(p), expected);
        }
    }
}

#[test]
fn jacobi_is_multiplicative_in_both_arguments() {
    let odd: [u16; 6] = [3, 9, 15, 21, 35, 45];
    for n in odd.iter() {
        for a in 0u16..60 {
            for b in 0u16..20 {
                assert_eq!((a * b).jacobi(n), a.jacobi(n) * b.jacobi(n));
            }
            for k in odd.iter() {
                assert_eq!(a.jacobi(&(*n * *k)), a.jacobi(n) * a.jacobi(k));
            }
        }
    }
}

#[test]
fn jacobi_vanishes_on_common_factors() {
    for n in (1u32..100).step_by(2) {
        for a in 0u32..150 {
            assert_eq!(a.jacobi(&n) == 0, plain_gcd(a, n) != 1);
        }
    }
}

#[test]
fn kronecker_with_zero_below() {
    assert_eq!(0u8.kronecker(&0), 0);
    assert_eq!(1u8.kronecker(&0), 1);
    assert_eq!(2u8.kronecker(&0), 0);
    assert_eq!(255u8.kronecker(&0), 0);
}

#[test]
fn kronecker_of_powers_of_two() {
    let by_residue: [i8; 8] = [0, 1, 0, -1, 0, -1, 0, 1];
    for a in 0u32..64 {
        let two = by_residue[(a % 8) as usize];
        assert_eq!(a.kronecker(&2), two);
        assert_eq!(a.kronecker(&4), two * two);
        assert_eq!(a.kronecker(&8), two * two * two);
        assert_eq!(a.kronecker(&24), two * two * two * a.jacobi(&3));
    }
}

#[test]
fn kronecker_extends_jacobi() {
    for n in (1u16..80).step_by(2) {
        for a in 0u16..100 {
            assert_eq!(a.kronecker(&n), a.jacobi(&n));
        }
    }
}

#[test]
fn results_do_not_depend_on_the_width() {
    for m in 1u8..=255 {
        for a in [0u8, 1, 2, 3, 100, 128, 254, 255].iter() {
            for b in [0u8, 1, 7, 200, 255].iter() {
                let (a, b) = (*a, *b);
                let sum = a.addm(b, &m);
                assert_eq!((a as u16).addm(b as u16, &(m as u16)), sum as u16);
                assert_eq!((a as u32).addm(b as u32, &(m as u32)), sum as u32);
                assert_eq!((a as u64).addm(b as u64, &(m as u64)), sum as u64);
                assert_eq!((a as u128).addm(b as u128, &(m as u128)), sum as u128);
                assert_eq!((a as usize).addm(b as usize, &(m as usize)), sum as usize);
                let difference = a.subm(b, &m);
                assert_eq!((a as u32).subm(b as u32, &(m as u32)), difference as u32);
                assert_eq!((a as u128).subm(b as u128, &(m as u128)), difference as u128);
                let product = a.mulm(b, &m);
                assert_eq!((a as u16).mulm(b as u16, &(m as u16)), product as u16);
                assert_eq!((a as u64).mulm(b as u64, &(m as u64)), product as u64);
                assert_eq!((a as u128).mulm(b as u128, &(m as u128)), product as u128);
                assert_eq!((a as usize).mulm(b as usize, &(m as usize)), product as usize);
                let power = a.powm(b, &m);
                assert_eq!((a as u32).powm(b as u32, &(m as u32)), power as u32);
                assert_eq!((a as u128).powm(b as u128, &(m as u128)), power as u128);
            }
            let a = *a;
            assert_eq!((a as u64).negm(&(m as u64)), a.negm(&m) as u64);
            assert_eq!((a as u128).negm(&(m as u128)), a.negm(&m) as u128);
            assert_eq!(
                (a as u16).invm(&(m as u16)),
                a.invm(&m).map(|x| x as u16)
            );
            assert_eq!(
                (a as u128).invm(&(m as u128)),
                a.invm(&m).map(|x| x as u128)
            );
            assert_eq!((a as u32).kronecker(&(m as u32)), a.kronecker(&m));
            assert_eq!((a as usize).kronecker(&(m as usize)), a.kronecker(&m));
            assert_eq!(
                (a as usize).invm(&(m as usize)),
                a.invm(&m).map(|x| x as usize)
            );
            assert_eq!((a as u128).kronecker(&(m as u128)), a.kronecker(&m));
            if m % 2 == 1 {
                assert_eq!((a as u16).jacobi(&(m as u16)), a.jacobi(&m));
                assert_eq!((a as u64).jacobi(&(m as u64)), a.jacobi(&m));
            }
        }
    }
}

#[test]
fn operations_by_reference_and_by_value_agree() {
    let (a, b, m) = (123_456_789u64, 987_654_321u64, 1_000_000_007u64);
    assert_eq!((&a).addm(&b, &m), a.addm(b, &m));
    assert_eq!((&a).subm(&b, &m), a.subm(b, &m));
    assert_eq!((&a).mulm(&b, &m), a.mulm(b, &m));
    assert_eq!((&a).powm(&b, &m), a.powm(b, &m));
    assert_eq!((&a).negm(&m), a.negm(&m));
    assert_eq!((&a).invm(&m), a.invm(&m));
    assert_eq!((&a).jacobi(&m), a.jacobi(&m));
    assert_eq!((&a).kronecker(&m), a.kronecker(&m));
    assert_eq!(a.mulm(b, &m), 259_106_859);
}

#[test]
fn machine_word_operations() {
    let m = usize::MAX;
    assert_eq!((m - 1).addm(m - 1, &m), m - 2);
    assert_eq!((m - 1).mulm(m - 1, &m), 1);
    assert_eq!(2usize.subm(5, &7), 4);
    assert_eq!(3usize.powm(4, &7), 4);
    assert_eq!(3usize.negm(&7), 4);
    assert_eq!(8usize.invm(&11), Some(7));
    assert_eq!(19usize.jacobi(&29), -1);
    assert_eq!(7usize.kronecker(&15), -1);
}

#[test]
fn squares_have_symbol_one() {
    for n in (1u32..120).step_by(2) {
        for x in 1u32..60 {
            if x.jacobi(&n) != 0 {
                assert_eq!((x * x).jacobi(&n), 1);
            }
        }
    }
}

#[test]
fn reciprocity_of_odd_numbers() {
    for a in (1u32..100).step_by(2) {
        for n in (1u32..100).step_by(2) {
            let sign = if a % 4 == 3 && n % 4 == 3 { -1 } else { 1 };
            assert_eq!(a.jacobi(&n), sign * n.jacobi(&a));
        }
    }
}

#[test]
fn symbol_of_two() {
    for n in (1u32..200).step_by(2) {
        let sign = if n % 8 == 3 || n % 8 == 5 { -1 } else { 1 };
        assert_eq!(2u32.jacobi(&n), sign);
    }
}

#[test]
fn jacobi_tells_the_squares_modulo_a_prime() {
    let primes: [u32; 8] = [3, 5, 7, 11, 13, 17, 97, 251];
    for p in primes.iter() {
        let mut square = vec![false; *p as usize];
        for x in 0..*p {
            square[(x * x % *p) as usize] = true;
        }
        for a in 0..(3 * *p) {
            let expected: i8 = if a % *p == 0 {
                0
            } else if square[(a % *p) as usize] {
                1
            } else {
                -1
            };
            assert_eq!(a.jacobi(p), expected);
        }
    }
}

#[test]
fn jacobi_is_the_product_over_the_prime_factors() {
    // 45 = 3 * 3 * 5 and 1001 = 7 * 11 * 13
    for a in 0u32..200 {
        assert_eq!(a.jacobi(&45), a.jacobi(&3) * a.jacobi(&3) * a.jacobi(&5));
        assert_eq!(a.jacobi(&1001), a.jacobi(&7) * a.jacobi(&11) * a.jacobi(&13));
    }
}
