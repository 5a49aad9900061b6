use num_modular::monty::table::{seed_inverse, BINVERT_TABLE};
use num_modular::{ModularInteger, ModularOps, Montgomery, MontgomeryInt};

fn odd_at_least_three_u8() -> u8 {
    loop {
        let m = rand::random::<u8>();
        if m != 0 && m >> m.trailing_zeros() >= 3 {
            return m;
        }
    }
}

fn odd_at_least_three_u16() -> u16 {
    loop {
        let m = rand::random::<u16>();
        if m != 0 && m >> m.trailing_zeros() >= 3 {
            return m;
        }
    }
}

fn odd_at_least_three_u32() -> u32 {
    loop {
        let m = rand::random::<u32>();
        if m != 0 && m >> m.trailing_zeros() >= 3 {
            return m;
        }
    }
}

fn odd_at_least_three_u64() -> u64 {
    loop {
        let m = rand::random::<u64>();
        if m != 0 && m >> m.trailing_zeros() >= 3 {
            return m;
        }
    }
}

#[test]
fn monty_int_basic_test() {
    let a = rand::random::<u8>();
    let m = odd_at_least_three_u8();
    let m = m >> m.trailing_zeros();
    assert_eq!(MontgomeryInt::new(a, m).residue(), a % m);

    let a = rand::random::<u16>();
    let m = odd_at_least_three_u16();
    let m = m >> m.trailing_zeros();
    assert_eq!(MontgomeryInt::new(a, m).residue(), a % m);

    let a = rand::random::<u32>();
    let m = odd_at_least_three_u32();
    let m = m >> m.trailing_zeros();
    assert_eq!(MontgomeryInt::new(a, m).residue(), a % m);

    let a = rand::random::<u64>();
    let m = odd_at_least_three_u64();
    let m = m >> m.trailing_zeros();
    assert_eq!(MontgomeryInt::new(a, m).residue(), a % m);
}

const ADDM_CASES: [(u8, u8, u8, u8); 10] = [
    // [m, x, y, rem]: x + y = rem (mod m)
    (5, 0, 0, 0),
    (5, 1, 2, 3),
    (5, 2, 1, 3),
    (5, 2, 2, 4),
    (5, 3, 2, 0),
    (5, 2, 3, 0),
    (5, 6, 1, 2),
    (5, 1, 6, 2),
    (5, 11, 7, 3),
    (5, 7, 11, 3),
];

#[test]
fn monty_add_test() {
    for (m, x, y, r) in ADDM_CASES.iter() {
        let mx = MontgomeryInt::new(*x, *m as u8);
        let my = MontgomeryInt::new(*y, *m as u8);
        assert_eq!((mx + my).residue(), *r);

        // test the `new()` method
        let mx = MontgomeryInt::new(*x, *m as u8);
        let my = mx.new(*y);
        assert_eq!((mx + my).residue(), *r);

        let mx = MontgomeryInt::new(*x as u16, *m as u16);
        let my = MontgomeryInt::new(*y as u16, *m as u16);
        assert_eq!((mx + my).residue(), *r as u16);

        let mx = MontgomeryInt::new(*x as u32, *m as u32);
        let my = MontgomeryInt::new(*y as u32, *m as u32);
        assert_eq!((mx + my).residue(), *r as u32);

        let mx = MontgomeryInt::new(*x as u64, *m as u64);
        let my = MontgomeryInt::new(*y as u64, *m as u64);
        assert_eq!((mx + my).residue(), *r as u64);
    }
}

const SUBM_CASES: [(u8, u8, u8, u8); 10] = [
    // [m, x, y, rem]: x - y = rem (mod m)
    (7, 0, 0, 0),
    (7, 11, 9, 2),
    (7, 5, 2, 3),
    (7, 2, 5, 4),
    (7, 6, 7, 6),
    (7, 1, 7, 1),
    (7, 7, 1, 6),
    (7, 0, 6, 1),
    (7, 15, 1, 0),
    (7, 1, 15, 0),
];

#[test]
fn monty_sub_test() {
    for (m, x, y, r) in SUBM_CASES.iter() {
        let mx = MontgomeryInt::new(*x, *m as u8);
        let my = MontgomeryInt::new(*y, *m as u8);
        assert_eq!((mx - my).residue(), *r);

        // test the `new()` method
        let mx = MontgomeryInt::new(*x, *m as u8);
        let my = mx.new(*y);
        assert_eq!((mx - my).residue(), *r);

        let mx = MontgomeryInt::new(*x as u16, *m as u16);
        let my = MontgomeryInt::new(*y as u16, *m as u16);
        assert_eq!((mx - my).residue(), *r as u16);

        let mx = MontgomeryInt::new(*x as u32, *m as u32);
        let my = MontgomeryInt::new(*y as u32, *m as u32);
        assert_eq!((mx - my).residue(), *r as u32);

        let mx = MontgomeryInt::new(*x as u64, *m as u64);
        let my = MontgomeryInt::new(*y as u64, *m as u64);
        assert_eq!((mx - my).residue(), *r as u64);
    }
}

#[test]
fn residue_of_new_width_8() {
    assert_eq!(MontgomeryInt::new(130u8, 5u8).residue(), 0);
}

#[test]
fn handle_product_modulo_seven() {
    let five = MontgomeryInt::new(5u8, 7u8);
    let six = MontgomeryInt::new(6u8, 7u8);
    assert_eq!((five * six).residue(), 2);
    let five = MontgomeryInt::new(5u64, 7u64);
    let six = five.new(6);
    assert_eq!((five * six).residue(), 2);
}

#[test]
fn every_u8_round_trip() {
    for m in (3u8..=255).step_by(2) {
        let first = MontgomeryInt::new(0u8, m);
        assert_eq!(*first.modulus(), m);
        for x in 0u8..=255 {
            assert_eq!(MontgomeryInt::new(x, m).residue(), x % m);
            assert_eq!(first.new(x).residue(), x % m);
        }
    }
}

#[test]
fn every_u8_operation_modulo_some_moduli() {
    for m in [3u8, 5, 7, 85, 127, 129, 171, 251, 253, 255].iter() {
        let m = *m;
        for a in 0u8..=255 {
            let negative = -MontgomeryInt::new(a, m);
            assert_eq!(negative.residue(), a.negm(&m));
            for b in 0u8..=255 {
                let x = MontgomeryInt::new(a, m);
                let y = x.new(b);
                assert_eq!((x.clone() + y.clone()).residue(), a.addm(b, &m));
                assert_eq!((x.clone() - y.clone()).residue(), a.subm(b, &m));
                assert_eq!((x * y).residue(), a.mulm(b, &m));
            }
        }
    }
}

#[test]
fn neginv_is_the_negated_inverse() {
    for m in (1u8..=255).step_by(2) {
        let inv = <u8 as Montgomery>::neginv(&m);
        assert_eq!(m.wrapping_mul(inv), u8::MAX);
    }
    for m in (1u16..=65535).step_by(2) {
        let inv = <u16 as Montgomery>::neginv(&m);
        assert_eq!(m.wrapping_mul(inv), u16::MAX);
    }
    for k in 0u32..100_000 {
        let m = k.wrapping_mul(2_654_435_761) | 1;
        let inv = <u32 as Montgomery>::neginv(&m);
        assert_eq!(m.wrapping_mul(inv), u32::MAX);
        let m = (k as u64).wrapping_mul(0x9E37_79B9_7F4A_7C15) | 1;
        let inv = <u64 as Montgomery>::neginv(&m);
        assert_eq!(m.wrapping_mul(inv), u64::MAX);
    }
}

#[test]
fn neginv_exact_values() {
    assert_eq!(<u8 as Montgomery>::neginv(&1), 255);
    assert_eq!(<u8 as Montgomery>::neginv(&3), 85);
    assert_eq!(<u8 as Montgomery>::neginv(&7), 73);
    assert_eq!(<u16 as Montgomery>::neginv(&3), 21845);
    assert_eq!(<u32 as Montgomery>::neginv(&3), 1_431_655_765);
    assert_eq!(<u64 as Montgomery>::neginv(&3), 6_148_914_691_236_517_205);
    assert_eq!(<u64 as Montgomery>::neginv(&u64::MAX), 1);
}

#[test]
fn transform_exact_values() {
    assert_eq!(<u8 as Montgomery>::transform(1, &7), 4);
    assert_eq!(<u8 as Montgomery>::transform(130, &5), 0);
    assert_eq!(<u8 as Montgomery>::transform(255, &255), 0);
    assert_eq!(<u16 as Montgomery>::transform(1, &7), 2);
    assert_eq!(<u32 as Montgomery>::transform(1, &7), 4);
    assert_eq!(<u64 as Montgomery>::transform(1, &7), 2);
    assert_eq!(<u64 as Montgomery>::transform(u64::MAX, &(u64::MAX - 2)), 6);
    // the modulus may be even
    assert_eq!(<u8 as Montgomery>::transform(3, &6), 0);
    assert_eq!(<u8 as Montgomery>::transform(3, &10), 8);
}

#[test]
fn reduce_exact_values() {
    let minv = <u8 as Montgomery>::neginv(&7);
    assert_eq!(<u8 as Montgomery>::reduce(4, &7, &minv), 1);
    assert_eq!(<u8 as Montgomery>::reduce(0, &7, &minv), 0);
    assert_eq!(<u8 as Montgomery>::reduce(256, &7, &minv), 1);
    assert_eq!(<u8 as Montgomery>::reduce(7 * 256 - 1, &7, &minv), 5);
}

#[test]
fn reduce_compensates_the_carry() {
    // with a modulus near the top of the word, the sum t + u * m passes 2^(2W)
    let m = 255u8;
    let minv = <u8 as Montgomery>::neginv(&m);
    for t in 0u16..=(255 * 256 - 1) {
        let r = <u8 as Montgomery>::reduce(t, &m, &minv);
        assert!(r < m);
        assert_eq!((r as u32 * 256) % 255, t as u32 % 255);
    }
    let m = 65535u16;
    let minv = <u16 as Montgomery>::neginv(&m);
    for t in [0u32, 1, 65534, 65535, 65536, 0xFFFE_0000, 0xFFFE_FFFF].iter() {
        let r = <u16 as Montgomery>::reduce(*t, &m, &minv);
        assert!(r < m);
        assert_eq!((r as u64 * 65536) % 65535, *t as u64 % 65535);
    }
    let m = u32::MAX;
    let minv = <u32 as Montgomery>::neginv(&m);
    for t in [0u64, 1, 0xFFFF_FFFE_FFFF_FFFF, 0xFFFF_FFFE_0000_0001, 0x8000_0000_0000_0000].iter() {
        let r = <u32 as Montgomery>::reduce(*t, &m, &minv);
        assert!(r < m);
        assert_eq!((r as u128 * (1u128 << 32)) % (m as u128), *t as u128 % (m as u128));
    }
    let m = u64::MAX;
    let minv = <u64 as Montgomery>::neginv(&m);
    let top = ((m as u128) << 64) - 1;
    for t in [0u128, 1, top, top - 12345, 1u128 << 127].iter() {
        let r = <u64 as Montgomery>::reduce(*t, &m, &minv);
        assert!(r < m);
        assert_eq!((r as u128).mulm(1u128 << 64, &(m as u128)), *t % (m as u128));
    }
}

#[test]
fn every_u8_reduction_for_some_moduli() {
    for m in [3u8, 5, 7, 129, 253, 255].iter() {
        let m = *m;
        let minv = <u8 as Montgomery>::neginv(&m);
        for t in 0u16..(m as u16 * 256) {
            let r = <u8 as Montgomery>::reduce(t, &m, &minv);
            assert!(r < m);
            assert_eq!((r as u32 * 256) % m as u32, t as u32 % m as u32);
        }
    }
}

#[test]
fn products_near_the_top_of_the_double_word() {
    let m = u64::MAX;
    let a = MontgomeryInt::new(m - 1, m);
    let b = MontgomeryInt::new(m - 1, m);
    assert_eq!((a * b).residue(), 1);
    let m = u64::MAX - 58;
    let a = MontgomeryInt::new(m - 1, m);
    let b = a.new(m - 2);
    assert_eq!((a * b).residue(), 2);
    let m = u32::MAX;
    let a = MontgomeryInt::new(m - 1, m);
    let b = a.new(m - 3);
    assert_eq!((a * b).residue(), 3);
    let m = u16::MAX;
    let a = MontgomeryInt::new(m - 2, m);
    let b = a.new(m - 3);
    assert_eq!((a * b).residue(), 6);
}

#[test]
fn engine_arithmetic_on_residues() {
    assert_eq!(<u8 as Montgomery>::add(&3, &4, &7), 0);
    assert_eq!(<u8 as Montgomery>::add(&6, &6, &7), 5);
    assert_eq!(<u8 as Montgomery>::add(&254, &254, &255), 253);
    assert_eq!(<u64 as Montgomery>::add(&(u64::MAX - 1), &(u64::MAX - 1), &u64::MAX), u64::MAX - 2);
    assert_eq!(<u8 as Montgomery>::sub(&2, &5, &7), 4);
    assert_eq!(<u8 as Montgomery>::sub(&5, &2, &7), 3);
    assert_eq!(<u16 as Montgomery>::sub(&0, &6, &7), 1);
    assert_eq!(<u8 as Montgomery>::neg(&0, &7), 0);
    assert_eq!(<u8 as Montgomery>::neg(&1, &7), 6);
    assert_eq!(<u32 as Montgomery>::neg(&6, &7), 1);
}

#[test]
fn engine_product_exact_value() {
    // 5 and 6 modulo 7 have the forms 6 and 3 for R = 256; their product 2 has the form 1
    let minv = <u8 as Montgomery>::neginv(&7);
    let five = <u8 as Montgomery>::transform(5, &7);
    let six = <u8 as Montgomery>::transform(6, &7);
    assert_eq!((five, six), (6, 3));
    assert_eq!(<u8 as Montgomery>::mul(&five, &six, &7, &minv), 1);
}

#[test]
fn engine_power_matches_powm() {
    for m in [3u8, 7, 15, 101, 255].iter() {
        let m = *m;
        let minv = <u8 as Montgomery>::neginv(&m);
        for x in 0u8..m {
            let base = <u8 as Montgomery>::transform(x, &m);
            for e in 0u8..=20 {
                let power = <u8 as Montgomery>::pow(&base, &e, &m, &minv);
                assert_eq!(<u8 as Montgomery>::reduce(power as u16, &m, &minv), x.powm(e, &m));
            }
        }
    }
    let m = 0xFFFF_FFFF_FFFF_FFC5u64;
    let minv = <u64 as Montgomery>::neginv(&m);
    let base = <u64 as Montgomery>::transform(3, &m);
    for e in [0u64, 1, 2, 3, 1000, u64::MAX].iter() {
        let power = <u64 as Montgomery>::pow(&base, e, &m, &minv);
        assert_eq!(<u64 as Montgomery>::reduce(power as u128, &m, &minv), 3u64.powm(*e, &m));
    }
    let m = 0xFFFF_FFFBu32;
    let minv = <u32 as Montgomery>::neginv(&m);
    let base = <u32 as Montgomery>::transform(5, &m);
    let power = <u32 as Montgomery>::pow(&base, &1_000_003, &m, &minv);
    assert_eq!(<u32 as Montgomery>::reduce(power as u64, &m, &minv), 5u32.powm(1_000_003, &m));
    let m = 0xFFF1u16;
    let minv = <u16 as Montgomery>::neginv(&m);
    let base = <u16 as Montgomery>::transform(2, &m);
    let power = <u16 as Montgomery>::pow(&base, &40_000, &m, &minv);
    assert_eq!(<u16 as Montgomery>::reduce(power as u32, &m, &minv), 2u16.powm(40_000, &m));
}

#[test]
fn engine_power_of_exponent_zero_is_the_form_of_one() {
    let minv = <u8 as Montgomery>::neginv(&7);
    let base = <u8 as Montgomery>::transform(3, &7);
    assert_eq!(
        <u8 as Montgomery>::pow(&base, &0, &7, &minv),
        <u8 as Montgomery>::transform(1, &7)
    );
    assert_eq!(<u8 as Montgomery>::pow(&base, &1, &7, &minv), base);
    assert_eq!(
        <u8 as Montgomery>::pow(&base, &2, &7, &minv),
        <u8 as Montgomery>::transform(2, &7)
    );
}

#[test]
fn handles_of_one_ring() {
    let a = MontgomeryInt::new(10u32, 21u32);
    let b = a.new(31);
    let c = MontgomeryInt::new(10u32, 21u32);
    let d = MontgomeryInt::new(10u32, 23u32);
    assert!(a.same_modulus(&b));
    assert!(a.same_modulus(&c));
    assert!(!a.same_modulus(&d));
    assert!(a == b);
    assert!(a == c);
    assert!(a != d);
    assert!(a != a.new(11));
    assert_eq!(*b.modulus(), 21);
    assert_eq!(b.residue(), 10);
}

#[test]
fn clone_keeps_residue_and_ring() {
    let a = MontgomeryInt::new(200u8, 9u8);
    let b = a.clone();
    assert!(a == b);
    assert!(a.same_modulus(&b));
    assert_eq!(b.residue(), 2);
    assert_eq!(*b.modulus(), 9);
}

#[test]
fn negation_of_handles() {
    assert_eq!((-MontgomeryInt::new(0u16, 9u16)).residue(), 0);
    assert_eq!((-MontgomeryInt::new(1u16, 9u16)).residue(), 8);
    assert_eq!((-MontgomeryInt::new(8u64, 9u64)).residue(), 1);
    assert_eq!((-MontgomeryInt::new(2u8, 3u8)).residue(), 1);
}

#[test]
fn smallest_modulus() {
    let two = MontgomeryInt::new(2u8, 3u8);
    assert_eq!((two.clone() + two.clone()).residue(), 1);
    assert_eq!((two.clone() * two.clone()).residue(), 1);
    assert_eq!((two.new(0) - two).residue(), 1);
}

#[test]
fn seeds_invert_the_odd_bytes() {
    for index in 0usize..128 {
        let odd = 2 * index + 1;
        assert_eq!(seed_inverse(index) as usize * odd % 256, 1);
        assert_eq!(seed_inverse(index), BINVERT_TABLE[index]);
    }
    assert_eq!(seed_inverse(0), 1);
    assert_eq!(seed_inverse(1), 171);
    assert_eq!(seed_inverse(127), 255);
}
