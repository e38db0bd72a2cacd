use nimber::engine::{
    combine, high_part, level, low_part, nimber_inverse, nimber_mul_fermat, nimber_mul_nimber,
    nimber_sqrt, nimber_square,
};
use nimber::{Nim128, Nim16, Nim32, Nim64, Nim8, Nimber};

fn sample_u64() -> Vec<u64> {
    let mut v = vec![0u64, 1, 2, 3, 0xff, 0x100, 0xffff_ffff, 0x1_0000_0000, u64::MAX];
    let mut x: u64 = 0x9e37_79b9_7f4a_7c15;
    for _ in 0..24 {
        x = x.wrapping_mul(0x5851_f42d_4c95_7f2d).wrapping_add(0x1405_7b7e_f767_814f);
        v.push(x);
    }
    v
}

fn sample_u128() -> Vec<u128> {
    let small = sample_u64();
    let mut v = Vec::new();
    for i in 0..small.len() {
        let j = (i * 7 + 3) % small.len();
        v.push(((small[i] as u128) << 64) | small[j] as u128);
    }
    v.push(u128::MAX);
    v.push(1u128 << 64);
    v
}

#[test]
fn known_table_values() {
    assert_eq!((Nim8::from(3) * Nim8::from(3)).unwrap(), 2);
    assert_eq!((Nim8::from(4) * Nim8::from(4)).unwrap(), 6);
    assert_eq!((Nim8::from(7) * Nim8::from(9)).unwrap(), 8);
    assert_eq!((Nim8::from(7) * Nim8::from(3)).unwrap(), 14);
    assert_eq!((Nim8::from(15) * Nim8::from(15)).unwrap(), 9);
    assert_eq!((Nim8::from(2) * Nim8::from(8)).unwrap(), 12);
}

#[test]
fn fermat_powers_square_to_three_halves() {
    assert_eq!((Nim8::from(16) * Nim8::from(16)).unwrap(), 24);
    assert_eq!((Nim16::from(256) * Nim16::from(256)).unwrap(), 384);
    assert_eq!((Nim32::from(1 << 16) * Nim32::from(1 << 16)).unwrap(), 3 << 15);
    assert_eq!((Nim64::from(1 << 32) * Nim64::from(1 << 32)).unwrap(), 3 << 31);
    assert_eq!((Nim128::from(1 << 64) * Nim128::from(1 << 64)).unwrap(), 3 << 63);
    assert_eq!(Nim128::from(1 << 64).square().unwrap(), 3 << 63);
}

#[test]
fn distinct_fermat_powers_multiply_as_integers() {
    assert_eq!((Nim8::from(2) * Nim8::from(4)).unwrap(), 8);
    assert_eq!((Nim8::from(4) * Nim8::from(16)).unwrap(), 64);
    assert_eq!((Nim32::from(1 << 16) * Nim32::from(1 << 8)).unwrap(), 1 << 24);
    assert_eq!((Nim128::from(1 << 64) * Nim128::from(1 << 32)).unwrap(), 1 << 96);
}

#[test]
fn additive_group() {
    for a in u8::MIN..=u8::MAX {
        let n = Nim8::from(a);
        assert_eq!((n + n).unwrap(), 0);
        assert_eq!(n + Nim8::default(), n);
        for b in [0u8, 1, 7, 0x80, 0xff] {
            let m = Nim8::from(b);
            assert_eq!(n + m, m + n);
            let c = Nim8::from(0x5a);
            assert_eq!((n + m) + c, n + (m + c));
        }
    }
}

#[test]
fn default_is_zero() {
    assert_eq!(Nim64::default().unwrap(), 0);
    assert_eq!(Nimber::<usize>::default().unwrap(), 0);
}

#[test]
fn multiplicative_identity_and_zero() {
    for a in u8::MIN..=u8::MAX {
        assert_eq!(Nim8::from(a) * Nim8::from(1), Nim8::from(a));
        assert_eq!((Nim8::from(a) * Nim8::from(0)).unwrap(), 0);
    }
    for a in sample_u128() {
        assert_eq!(Nim128::from(a) * Nim128::from(1), Nim128::from(a));
    }
}

#[test]
fn products_stay_in_width() {
    for a in [0xffu8, 0xfe, 0x80, 0x7f] {
        for b in u8::MIN..=u8::MAX {
            let wide = (Nim128::from(a as u128) * Nim128::from(b as u128)).unwrap();
            assert!(wide <= 0xff);
            assert_eq!(wide as u8, (Nim8::from(a) * Nim8::from(b)).unwrap());
        }
    }
}

#[test]
fn inverse_law() {
    for a in 1..=u8::MAX {
        let n = Nim8::from(a);
        assert_eq!((n * n.recip()).unwrap(), 1);
    }
    for a in 1..=u16::MAX {
        let n = Nim16::from(a);
        assert_eq!((n * n.recip()).unwrap(), 1);
    }
    for a in sample_u128() {
        if a != 0 {
            let n = Nim128::from(a);
            assert_eq!((n * n.recip()).unwrap(), 1);
        }
    }
}

#[test]
fn inverse_of_small_values() {
    assert_eq!(Nim8::from(1).recip().unwrap(), 1);
    assert_eq!(Nim8::from(2).recip().unwrap(), 3);
    assert_eq!(Nim8::from(4).recip().unwrap(), 15);
}

#[test]
fn zero_has_no_reciprocal() {
    assert!(Nim8::from(0).checked_recip().is_none());
    assert!(Nim128::from(0).checked_recip().is_none());
    assert_eq!(Nim8::from(2).checked_recip().map(|r| r.unwrap()), Some(3));
}

#[test]
fn division_undoes_multiplication() {
    for a in u8::MIN..=u8::MAX {
        for b in 1..=u8::MAX {
            let q = Nim8::from(a).div(&Nim8::from(b));
            assert_eq!(q * Nim8::from(b), Nim8::from(a));
        }
    }
    let values = sample_u64();
    for &a in &values {
        for &b in &values {
            if b != 0 {
                let q = Nim64::from(a).div(&Nim64::from(b));
                assert_eq!(q * Nim64::from(b), Nim64::from(a));
            }
        }
    }
}

#[test]
fn division_by_zero_is_refused() {
    assert!(Nim8::from(5).checked_div(&Nim8::from(0)).is_none());
    assert_eq!(Nim8::from(6).checked_div(&Nim8::from(4)).map(|q| q.unwrap()), Some(4));
    assert_eq!(Nim8::from(14).checked_div(&Nim8::from(3)).map(|q| q.unwrap()), Some(7));
}

#[test]
fn squaring_matches_multiplication() {
    for a in u8::MIN..=u8::MAX {
        let n = Nim8::from(a);
        assert_eq!(n.square(), n * n);
    }
    for a in sample_u128() {
        let n = Nim128::from(a);
        assert_eq!(n.square(), n * n);
    }
}

#[test]
fn square_root_round_trip() {
    for a in u16::MIN..=u16::MAX {
        let n = Nim16::from(a);
        let r = n.sqrt();
        assert_eq!(r * r, n);
        assert_eq!(n.square().sqrt(), n);
    }
    for a in sample_u128() {
        let n = Nim128::from(a);
        let r = n.sqrt();
        assert_eq!(r * r, n);
        assert_eq!(n.square().sqrt(), n);
    }
}

#[test]
fn square_roots_of_small_values() {
    assert_eq!(Nim8::from(2).sqrt().unwrap(), 3);
    assert_eq!(Nim8::from(6).sqrt().unwrap(), 4);
    assert_eq!(Nim8::from(9).sqrt().unwrap(), 15);
}

#[test]
fn cross_width_products() {
    for a in u8::MIN..=u8::MAX {
        for b in [0u8, 1, 2, 3, 0x10, 0x55, 0xaa, 0xff] {
            let m8 = (Nim8::from(a) * Nim8::from(b)).unwrap();
            let m16 = (Nim16::from(a as u16) * Nim16::from(b as u16)).unwrap();
            let m32 = (Nim32::from(a as u32) * Nim32::from(b as u32)).unwrap();
            let m64 = (Nim64::from(a as u64) * Nim64::from(b as u64)).unwrap();
            let m128 = (Nim128::from(a as u128) * Nim128::from(b as u128)).unwrap();
            assert_eq!(m8 as u16, m16);
            assert_eq!(m8 as u32, m32);
            assert_eq!(m8 as u64, m64);
            assert_eq!(m8 as u128, m128);
        }
    }
}

#[test]
fn commutative_and_associative() {
    let values = sample_u64();
    for &a in &values {
        for &b in &values {
            let (x, y) = (Nim64::from(a), Nim64::from(b));
            assert_eq!(x * y, y * x);
            let z = Nim64::from(a ^ b.rotate_left(13));
            assert_eq!((x * y) * z, x * (y * z));
        }
    }
}

#[test]
fn distributive() {
    let values = sample_u128();
    for &a in &values {
        for &b in &values {
            let c = b.rotate_left(29) ^ a;
            let (x, y, z) = (Nim128::from(a), Nim128::from(b), Nim128::from(c));
            assert_eq!(x * (y + z), x * y + x * z);
        }
    }
}

#[test]
fn not_flips_every_bit_of_the_word() {
    assert_eq!((!Nim16::from(0)).unwrap(), 0xffff);
    assert_eq!((!Nim128::from(1)).unwrap(), u128::MAX - 1);
    assert_eq!((-Nim32::from(7)).unwrap(), 7);
}

#[test]
fn subtraction_assigns() {
    let mut n = Nim32::from(0b1100);
    n -= Nim32::from(0b1010);
    assert_eq!(n.unwrap(), 0b0110);
}

#[test]
fn level_is_smallest_field() {
    assert_eq!(level(0), 0);
    assert_eq!(level(1), 0);
    assert_eq!(level(2), 1);
    assert_eq!(level(3), 1);
    assert_eq!(level(4), 2);
    assert_eq!(level(255), 3);
    assert_eq!(level(256), 4);
    assert_eq!(level(u64::MAX as u128), 6);
    assert_eq!(level(1 << 64), 7);
    assert_eq!(level(u128::MAX), 7);
}

#[test]
fn halves_split_and_combine() {
    assert_eq!(high_part(0xabcd, 3), 0xab);
    assert_eq!(low_part(0xabcd, 3), 0xcd);
    assert_eq!(combine(0xab, 0xcd, 3), 0xabcd);
    assert_eq!(high_part(u128::MAX, 6), u64::MAX as u128);
    assert_eq!(low_part(1 << 64 | 5, 6), 5);
    assert_eq!(combine(1, 0, 6), 1 << 64);
}

#[test]
fn engine_at_explicit_levels() {
    // the Fermat element of level 3 is 2^7
    assert_eq!(nimber_mul_fermat(1, 3), 128);
    assert_eq!(nimber_mul_fermat(3, 1), 1);
    assert_eq!(nimber_mul_nimber(7, 3, 2), 14);
    assert_eq!(nimber_mul_nimber(7, 9, 5), 8);
    assert_eq!(nimber_square(4, 2), 6);
    assert_eq!(nimber_sqrt(6, 2), 4);
    assert_eq!(nimber_inverse(2, 1), 3);
    assert_eq!(nimber_inverse(4, 3), 15);
}

#[test]
fn bitwise_operators_act_on_the_words() {
    let (a, b) = (Nim8::from(0b1100), Nim8::from(0b1010));
    assert_eq!((a ^ b).unwrap(), 0b0110);
    assert_eq!((a & b).unwrap(), 0b1000);
    assert_eq!((a | b).unwrap(), 0b1110);
    assert_eq!(a ^ b, a + b);
}
