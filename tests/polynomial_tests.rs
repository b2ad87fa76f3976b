use bfv_core::arith::{add_mod, mul_mod};
use bfv_core::polynomial::{u64_msb, Element, Polynomial};
use bfv_core::sampling::{balanced_from_draw, ternary_from_draw};
use rand::rngs::StdRng;
use rand::SeedableRng;

fn poly(values: &[i64], modulus: u64) -> Polynomial {
    Polynomial::new(values.iter().map(|&v| Element::new(v, modulus)).collect())
}

#[test]
fn test_element_add_and_mul_mod_32() {
    let e = |v: i64| Element::new(v, 32);

    let x_1 = e(5);
    let y_1 = e(7);
    let x_2 = e(9);
    let y_2 = e(9);
    let x_3 = e(-8);
    let y_3 = e(-5);
    let x_4 = e(8);
    let y_4 = e(-8);

    let p_x = Polynomial::new(vec![x_1, x_2, x_3, x_4]);
    let p_y = Polynomial::new(vec![y_1, y_2, y_3, y_4]);

    let z_add = Polynomial::new(vec![e(5 + 7), e(9 + 9), e(-8 + -5), e(8 + -8)]);

    assert_eq!(p_x.add(&p_y), z_add);

    let z_mul_elementwise =
        Polynomial::new(vec![x_1.mul(y_1), x_2.mul(y_2), x_3.mul(y_3), x_4.mul(y_4)]);

    let coeffwise_product = Polynomial::new(vec![e(5 * 7), e(9 * 9), e(-8 * -5), e(8 * -8)]);

    assert_eq!(z_mul_elementwise, coeffwise_product);
}

#[test]
fn test_add_and_mul_mod_2() {
    let e = |v: i64| Element::new(v, 2);

    let x_1 = e(1);
    let y_1 = e(1);
    let x_2 = e(0);
    let y_2 = e(1);
    let x_3 = e(-1);
    let y_3 = e(-1);
    let x_4 = e(2);
    let y_4 = e(3);

    let p_x = Polynomial::new(vec![x_1, x_2, x_3, x_4]);
    let p_y = Polynomial::new(vec![y_1, y_2, y_3, y_4]);

    let z_add = Polynomial::new(vec![e(1 + 1), e(0 + 1), e(-1 + -1), e(2 + 3)]);

    assert_eq!(p_x.add(&p_y), z_add);

    let z_mul_elementwise =
        Polynomial::new(vec![x_1.mul(y_1), x_2.mul(y_2), x_3.mul(y_3), x_4.mul(y_4)]);

    let coeffwise_product = Polynomial::new(vec![e(1 * 1), e(0 * 1), e(-1 * -1), e(2 * 3)]);

    assert_eq!(z_mul_elementwise, coeffwise_product);
}

#[test]
fn test_polynomial_rand_mod_32() {
    let mut rng = StdRng::seed_from_u64(32);
    let poly = Polynomial::rand(4, 32, &mut rng);
    for elem in poly.coefficients().iter() {
        let val = elem.value();
        assert!(val < 32, "Value {} is not less than 32", val);
    }
}

#[test]
fn test_polynomial_rand_mod_2() {
    let mut rng = StdRng::seed_from_u64(2);
    let poly = Polynomial::rand(4, 2, &mut rng);
    for elem in poly.coefficients().iter() {
        let val = elem.value();
        assert!(val < 2, "Value {} is not less than 2", val);
    }
}

#[test]
fn element_values_stay_in_balanced_range() {
    for modulus in [1u64, 2, 3, 17, 32, 33, u64::MAX] {
        let low = -(((modulus - 1) / 2) as i128);
        let high = (modulus / 2) as i128;
        for v in [i64::MIN, -1000, -17, -16, -9, -8, -1, 0, 1, 8, 9, 15, 16, 17, 1000, i64::MAX] {
            let e = Element::new(v, modulus);
            let x = e.value() as i128;
            assert!(low <= x && x <= high, "{} mod {} gave {}", v, modulus, x);
            assert_eq!((x - v as i128).rem_euclid(modulus as i128), 0);
        }
    }
}

#[test]
fn element_far_outside_range_rebalances() {
    assert_eq!(Element::new(-1000, 17).value(), 3);
    assert_eq!(Element::new(1000, 17).value(), -3);
    assert_eq!(Element::new(16, 32).value(), 16);
    assert_eq!(Element::new(-16, 32).value(), 16);
    assert_eq!(Element::new(17, 32).value(), -15);
    assert_eq!(Element::new(-1, 2).value(), 1);
    assert_eq!(Element::new(2, 3).value(), -1);
}

#[test]
fn element_operations_wrap() {
    let a = Element::new(15, 32);
    let b = Element::new(3, 32);
    assert_eq!(a.add(b).value(), -14);
    assert_eq!(Element::new(-15, 32).sub(b).value(), 14);
    assert_eq!(Element::new(16, 32).neg().value(), 16);
    assert_eq!(a.neg().value(), -15);
    assert_eq!(a.mul(b).value(), 13);
    assert_eq!(Element::new(-1, 3).lift(32).value(), -1);
    assert_eq!(Element::new(20, 32).lift(17).value(), 5);
}

#[test]
fn element_mul_near_native_width() {
    let m = u64::MAX;
    let a = Element::new(i64::MAX, m);
    let b = Element::new(i64::MAX, m);
    let expected = ((i64::MAX as i128) * (i64::MAX as i128)).rem_euclid(m as i128);
    let half = ((m - 1) / 2) as i128;
    let expected = if expected > (m / 2) as i128 { expected - m as i128 } else { expected };
    assert!(expected >= -half);
    assert_eq!(a.mul(b).value() as i128, expected);
}

#[test]
fn negacyclic_product_wraps_with_sign() {
    // x^3 * x == x^4 == -1 in Z_32[x]/(x^4 + 1)
    let x3 = poly(&[0, 0, 0, 1], 32);
    let x1 = poly(&[0, 1, 0, 0], 32);
    assert_eq!(x3.mul(&x1), poly(&[-1, 0, 0, 0], 32));
    // (1 + 2x) * (3 + x^3) == 3 + 6x + x^3 + 2x^4 == 1 + 6x + x^3
    let a = poly(&[1, 2, 0, 0], 32);
    let b = poly(&[3, 0, 0, 1], 32);
    assert_eq!(a.mul(&b).values(), vec![1, 6, 0, 1]);
    // (5 + 7x + 9x^2 + 11x^3)^2 modulo 17
    let c = poly(&[5, 7, 9, 11], 17);
    assert_eq!(c.mul(&c).values(), vec![-6, 8, 1, -2]);
}

#[test]
fn ring_addition_and_distributivity_hold() {
    let p = poly(&[3, -7, 12, 16], 32);
    let q = poly(&[-15, 9, 4, 1], 32);
    let r = poly(&[8, 8, -3, -11], 32);
    assert_eq!(p.add(&q), q.add(&p));
    assert_eq!(p.add(&q).add(&r), p.add(&q.add(&r)));
    assert_eq!(p.add(&Polynomial::zero(4, 32)), p);
    assert_eq!(p.mul(&q.add(&r)), p.mul(&q).add(&p.mul(&r)));
}

#[test]
fn neg_and_scalar_multiplication() {
    let p = poly(&[3, -7, 16, 0], 32);
    assert_eq!(p.neg().values(), vec![-3, 7, 16, 0]);
    assert_eq!(p.mul_element(Element::new(3, 32)).values(), vec![9, 11, 16, 0]);
}

#[test]
fn lift_keeps_small_coefficients() {
    let mut rng = StdRng::seed_from_u64(11);
    let sk = Polynomial::rand(8, 2, &mut rng);
    let lifted = sk.lift(32);
    assert_eq!(lifted.modulus(), 32);
    assert_eq!(lifted.values(), sk.values());
    let t = poly(&[-1, 0, 1, 1], 3);
    assert_eq!(t.lift(128).values(), vec![-1, 0, 1, 1]);
    // a smaller modulus does rebalance
    assert_eq!(poly(&[16, -15, 3, 0], 32).lift(3).values(), vec![1, 0, 0, 0]);
}

#[test]
fn from_int_scaled_places_bits() {
    let p = Polynomial::from_int_scaled(4, 32, 0b1011, 16);
    assert_eq!(p.values(), vec![16, 16, 0, 16]);
    let p = Polynomial::from_int_scaled(4, 32, 0b1_0001, 3);
    assert_eq!(p.values(), vec![3, 0, 0, 0]);
    let p = Polynomial::from_int_scaled(70, 5, u64::MAX, 1);
    let values = p.values();
    assert!(values[..16].iter().all(|&v| v == 1));
    assert!(values[16..].iter().all(|&v| v == 0));
    let p = Polynomial::from_int_scaled(32, 32, 1 << 16, 1);
    assert!(p.values().iter().all(|&v| v == 0));
}

#[test]
fn decode_rounds_halves_up() {
    let p = poly(&[8, -8, 7, -9], 32);
    assert_eq!(p.decode(16, 2).values(), vec![1, 0, 0, 1]);
    let p = poly(&[16, -15, 24, 23], 32);
    assert_eq!(p.decode(16, 2).values(), vec![1, 1, 0, 1]);
    let p = poly(&[21, -22, 22, 64], 128);
    assert_eq!(p.decode(43, 3).values(), vec![0, -1, 1, 1]);
}

#[test]
fn ternary_error_is_small() {
    let mut rng = StdRng::seed_from_u64(5);
    let mut seen = [false; 3];
    for _ in 0..20 {
        let e = Polynomial::ternary_error(8, 32, &mut rng);
        assert_eq!(e.len(), 8);
        for v in e.values() {
            assert!((-1..=1).contains(&v), "{} is not in {{-1, 0, 1}}", v);
            seen[(v + 1) as usize] = true;
        }
    }
    assert!(seen.iter().all(|&s| s));
}

#[test]
fn rand_covers_the_balanced_range() {
    let mut rng = StdRng::seed_from_u64(9);
    let mut seen = [false; 5];
    for _ in 0..20 {
        let p = Polynomial::rand(8, 5, &mut rng);
        for v in p.values() {
            assert!((-2..=2).contains(&v));
            seen[(v + 2) as usize] = true;
        }
    }
    assert!(seen.iter().all(|&s| s));
}

#[test]
fn unsigned_residue_helpers() {
    assert_eq!(add_mod(60_000, 10_000, 65_537), 4_463);
    assert_eq!(add_mod(3, 4, 100), 7);
    assert_eq!(add_mod(u64::MAX - 1, u64::MAX - 1, u64::MAX), u64::MAX - 2);
    assert_eq!(mul_mod(65_536, 65_536, 65_537), 1);
    assert_eq!(mul_mod(u64::MAX, u64::MAX, 1_000_000_007), ((u64::MAX as u128 * u64::MAX as u128) % 1_000_000_007) as u64);
}

#[test]
fn top_bits() {
    assert_eq!(u64_msb(0b1000, 4), 1);
    assert_eq!(u64_msb(0b0111, 4), 0);
    assert_eq!(u64_msb(u64::MAX, 64), 1);
    assert_eq!(u64_msb(1, 1), 1);
    let p = poly(&[16, -15, 15, 0], 32);
    assert_eq!(p.msb().values(), vec![1, 1, 0, 0]);
    assert_eq!(p.msb().modulus(), 2);
    let p = poly(&[8, -8, 7, 0], 17);
    assert_eq!(p.msb().values(), vec![1, 1, 0, 0]);
}

#[test]
fn draws_map_onto_coefficients() {
    let got: Vec<i64> = (0..5).map(|r| balanced_from_draw(r, 5).value()).collect();
    assert_eq!(got, vec![-2, -1, 0, 1, 2]);
    let got: Vec<i64> = (0..32).map(|r| balanced_from_draw(r, 32).value()).collect();
    assert_eq!(got, (-15..=16).collect::<Vec<i64>>());
    assert_eq!(balanced_from_draw(1, 2).value(), 1);
    assert_eq!(balanced_from_draw(u64::MAX - 1, u64::MAX).value(), i64::MAX);
    let got: Vec<i64> = (0..3).map(|r| ternary_from_draw(r, 32).value()).collect();
    assert_eq!(got, vec![-1, 0, 1]);
    let got: Vec<i64> = (0..3).map(|r| ternary_from_draw(r, 2).value()).collect();
    assert_eq!(got, vec![1, 0, 1]);
}
