use bfv_core::bfv::{Bfv, BfvParams, ParamError};
use bfv_core::polynomial::{Element, Polynomial};
use rand::rngs::StdRng;
use rand::{Rng, SeedableRng};

fn poly(values: &[i64], modulus: u64) -> Polynomial {
    Polynomial::new(values.iter().map(|&v| Element::new(v, modulus)).collect())
}

fn params(n: usize, q: u64, t: u64) -> BfvParams {
    BfvParams::new(n, q, t).unwrap()
}

#[test]
fn test_bfv_add_xor_example() {
    const N: usize = 4;
    const T: u64 = 2;
    const Q: u64 = 32;
    let mut rng = StdRng::seed_from_u64(1);

    let (bfv, sk) = Bfv::keygen(params(N, Q, T), &mut rng);

    let m_a = poly(&[1, 0, 1, 0], T);
    println!("m_a {:?}", m_a.values());
    let enc_a = bfv.encrypt(&m_a, &mut rng);
    println!("enc_a_ct {:?}", enc_a.phase(&sk).values());

    let m_b = poly(&[0, 1, 1, 1], T);
    println!("m_b {:?}", m_b.values());
    let enc_b = bfv.encrypt(&m_b, &mut rng);
    println!("enc_b_ct {:?}", enc_b.phase(&sk).values());

    let enc_3 = enc_a.add(enc_b);
    println!("enc_3_ct {:?}", enc_3.phase(&sk).values());

    let dec = enc_3.decrypt(&sk);
    // expect 1, 1, 0, 1
    println!("dec d      = {:?}", dec.values());
    let raw_add = m_a.add(&m_b);
    println!("raw = {:?}", raw_add.values());
    assert_eq!(raw_add, dec);
}

#[test]
fn bfv_pke_test_bfv_add_t_2_example() {
    const T: u64 = 2;
    const N: usize = 4;
    const Q: u64 = 32;
    let e = |v: i64| Element::new(v, T);
    let mut rng = StdRng::seed_from_u64(2);

    let (bfv, sk) = Bfv::keygen(params(N, Q, T), &mut rng);

    let m_a = Polynomial::new(vec![e(1), e(0), e(1), e(0)]);
    println!("m_a {:?}", m_a.values());
    let enc_a = bfv.encrypt(&m_a, &mut rng);
    println!("enc_a_ct {:?}", enc_a.phase(&sk).values());

    let m_b = Polynomial::new(vec![e(0), e(1), e(1), e(1)]);
    println!("m_b {:?}", m_b.values());
    let enc_b = bfv.encrypt(&m_b, &mut rng);
    println!("enc_b_ct {:?}", enc_b.phase(&sk).values());

    let enc_3 = enc_a.add(enc_b);
    println!("enc_3_ct {:?}", enc_3.phase(&sk).values());

    let dec = enc_3.decrypt(&sk);
    println!("dec d      = {:?}", dec.values());
    let raw_add = m_a.add(&m_b);
    println!("raw = {:?}", raw_add.values());
    assert_eq!(raw_add, dec);
}

#[test]
fn test_bfv_add_t_3_example() {
    const T: u64 = 3;
    const N: usize = 4;
    const Q: u64 = 128;
    let e = |v: i64| Element::new(v, T);
    let mut rng = StdRng::seed_from_u64(3);

    let (bfv, sk) = Bfv::keygen(params(N, Q, T), &mut rng);

    let m_a = Polynomial::new(vec![e(1), e(2), e(1), e(0)]);
    println!("m_a {:?}", m_a.values());
    let enc_a = bfv.encrypt(&m_a, &mut rng);
    println!("enc_a_ct {:?}", enc_a.phase(&sk).values());

    let m_b = Polynomial::new(vec![e(0), e(2), e(2), e(1)]);
    println!("m_b {:?}", m_b.values());
    let enc_b = bfv.encrypt(&m_b, &mut rng);
    println!("enc_b_ct {:?}", enc_b.phase(&sk).values());

    let enc_3 = enc_a.add(enc_b);
    println!("enc_3_ct {:?}", enc_3.phase(&sk).values());

    let dec = enc_3.decrypt(&sk);
    println!("dec d      = {:?}", dec.values());
    let raw_add = m_a.add(&m_b);
    println!("raw = {:?}", raw_add.values());
    assert_eq!(raw_add, dec);
}

#[test]
fn bfv_ske_test_bfv_add_t_2_example() {
    const T: u64 = 2;
    const N: usize = 4;
    const Q: u64 = 32;
    let e = |v: i64| Element::new(v, T);
    let mut rng = StdRng::seed_from_u64(4);

    let (bfv, sk) = Bfv::keygen(params(N, Q, T), &mut rng);

    let m_a_coeffs: Vec<Element> = (0..N).map(|_| e(rng.random_range(0..T) as i64)).collect();
    let m_a = Polynomial::new(m_a_coeffs);
    println!("m_a {:?}", m_a.values());
    let enc_a = bfv.encrypt_symmetric(&m_a, &sk, &mut rng);

    let m_b_coeffs: Vec<Element> = (0..N).map(|_| e(rng.random_range(0..T) as i64)).collect();
    let m_b = Polynomial::new(m_b_coeffs);
    println!("m_b {:?}", m_b.values());
    let enc_b = bfv.encrypt_symmetric(&m_b, &sk, &mut rng);

    let enc_3 = enc_a.add(enc_b);

    let raw_add = m_a.add(&m_b);
    println!("expected = {:?}", raw_add.values());
    let dec = enc_3.decrypt(&sk);
    println!("actual = {:?}", dec.values());
    assert_eq!(raw_add, dec);
}

#[test]
fn public_key_round_trip_over_many_seeds() {
    let m = poly(&[1, 0, 1, 0], 2);
    for seed in 0..100u64 {
        let mut rng = StdRng::seed_from_u64(seed);
        let (bfv, sk) = Bfv::keygen(params(4, 32, 2), &mut rng);
        let c = bfv.encrypt(&m, &mut rng);
        assert_eq!(c.decrypt(&sk).values(), vec![1, 0, 1, 0], "seed {}", seed);
    }
}

#[test]
fn secret_key_round_trip_over_many_seeds() {
    let m = poly(&[1, 0, 1, 0], 2);
    for seed in 0..100u64 {
        let mut rng = StdRng::seed_from_u64(seed);
        let (bfv, sk) = Bfv::keygen(params(4, 32, 2), &mut rng);
        let c = bfv.encrypt_symmetric(&m, &sk, &mut rng);
        assert_eq!(c.decrypt(&sk).values(), vec![1, 0, 1, 0], "seed {}", seed);
    }
}

#[test]
fn homomorphic_addition_gives_xor() {
    let m_a = poly(&[1, 0, 1, 0], 2);
    let m_b = poly(&[0, 1, 1, 1], 2);
    for seed in 0..20u64 {
        let mut rng = StdRng::seed_from_u64(seed);
        let (bfv, sk) = Bfv::keygen(params(4, 32, 2), &mut rng);
        let a = bfv.encrypt_symmetric(&m_a, &sk, &mut rng);
        let b = bfv.encrypt_symmetric(&m_b, &sk, &mut rng);
        assert_eq!(a.add(b).decrypt(&sk).values(), vec![1, 1, 0, 1], "seed {}", seed);
    }
}

#[test]
fn plaintext_times_ciphertext_decrypts_to_product() {
    // multiplying by x rotates the message negacyclically: x * (1 + x^2 + x^3) = -1 + x + x^3
    let m = poly(&[1, 0, 1, 1], 3);
    let pt = poly(&[0, 1, 0, 0], 128);
    for seed in 0..20u64 {
        let mut rng = StdRng::seed_from_u64(seed);
        let (bfv, sk) = Bfv::keygen(params(4, 128, 3), &mut rng);
        let c = bfv.encrypt(&m, &mut rng);
        let product = c.mul_plain(&pt);
        let expected = m.mul(&pt.lift(3));
        assert_eq!(expected.values(), vec![-1, 1, 0, 1]);
        assert_eq!(product.decrypt(&sk), expected, "seed {}", seed);
    }
}

#[test]
fn ciphertext_product_has_ciphertext_shape() {
    let mut rng = StdRng::seed_from_u64(7);
    let (bfv, _sk) = Bfv::keygen(params(4, 32, 2), &mut rng);
    let a = bfv.encrypt(&poly(&[1, 0, 1, 0], 2), &mut rng);
    let b = bfv.encrypt(&poly(&[0, 1, 1, 1], 2), &mut rng);
    let c = a.mul(b);
    assert_eq!(c.c1().len(), 4);
    assert_eq!(c.c2().len(), 4);
    assert_eq!(c.c1().modulus(), 32);
    assert_eq!(c.c2().modulus(), 32);
    assert_eq!(c.params(), params(4, 32, 2));
}

#[test]
fn public_key_matches_its_definition() {
    let mut rng = StdRng::seed_from_u64(13);
    let (bfv, sk) = Bfv::keygen(params(8, 1024, 4), &mut rng);
    let (pk0, pk1) = bfv.public_key();
    // pk0 + pk1 * sk == -e, with e in {-1, 0, 1}
    let noise = pk0.add(&pk1.mul(&sk.lift(1024)));
    assert!(noise.values().iter().all(|v| (-1..=1).contains(v)));
    assert!(sk.values().iter().all(|v| (0..=1).contains(v)));
}

#[test]
fn explicit_randomness_gives_exact_ciphertexts() {
    let p = params(4, 32, 2);
    let sk = poly(&[1, 0, 1, 1], 2);
    let a = poly(&[5, -3, 12, 7], 32);
    let e = poly(&[1, 0, -1, 0], 32);
    let bfv = Bfv::keygen_with(p, &sk, a.clone(), &e);
    let (pk0, pk1) = bfv.public_key();
    assert_eq!(pk1, &a);
    assert_eq!(pk0, &a.mul(&sk.lift(32)).add(&e).neg());

    let m = poly(&[1, 1, 0, 1], 2);
    let u = poly(&[0, 1, 1, 0], 2);
    let e_1 = poly(&[0, 1, 0, -1], 32);
    let e_2 = poly(&[-1, 0, 0, 1], 32);
    let c = bfv.encrypt_with(&m, &u, &e_1, &e_2);
    let delta_m = poly(&[16, 16, 0, 16], 32);
    assert_eq!(c.c1(), &pk0.mul(&u.lift(32)).add(&e_1).add(&delta_m));
    assert_eq!(c.c2(), &pk1.mul(&u.lift(32)).add(&e_2));
    assert_eq!(c.decrypt(&sk), m);

    let c = bfv.encrypt_symmetric_with(&m, &sk, &a, &e);
    assert_eq!(c.c1(), &sk.lift(32).mul(&a).add(&delta_m).add(&e));
    assert_eq!(c.c2(), &a.neg());
    assert_eq!(c.phase(&sk).values(), vec![-15, 16, -1, 16]);
    assert_eq!(c.decrypt(&sk), m);
}

#[test]
fn parameter_errors() {
    assert_eq!(BfvParams::new(3, 32, 2), Err(ParamError::DimensionNotPowerOfTwo));
    assert_eq!(BfvParams::new(0, 32, 2), Err(ParamError::DimensionNotPowerOfTwo));
    assert_eq!(BfvParams::new(4, 32, 0), Err(ParamError::ZeroPlaintextModulus));
    assert_eq!(BfvParams::new(4, 32, 32), Err(ParamError::PlaintextModulusTooLarge));
    assert_eq!(BfvParams::new(4, 32, 33), Err(ParamError::PlaintextModulusTooLarge));
    let p = BfvParams::new(1024, 132120577, 16).unwrap();
    assert_eq!((p.n(), p.q(), p.t()), (1024, 132120577, 16));
    assert!(BfvParams::new(1, 2, 1).is_ok());
}

#[test]
fn scale_factor_rounds_up() {
    assert_eq!(params(4, 32, 2).delta(), 16);
    assert_eq!(params(4, 128, 3).delta(), 43);
    assert_eq!(params(4, 33, 2).delta(), 17);
    assert_eq!(params(4, u64::MAX, 2).delta(), 1 << 63);
}

#[test]
fn public_key_noise_beyond_half_delta_breaks_decryption() {
    // e1 + e2 * sk - e * u reaches 9 in coefficient 0, past delta / 2 == 8
    let p = params(4, 32, 2);
    let sk = poly(&[1, 1, 1, 1], 2);
    let a = poly(&[5, -3, 12, 7], 32);
    let e = poly(&[-1, 1, 1, 1], 32);
    let bfv = Bfv::keygen_with(p, &sk, a, &e);
    let m = poly(&[1, 0, 1, 0], 2);
    let u = poly(&[1, 1, 1, 1], 2);
    let e_1 = poly(&[1, 0, 0, 0], 32);
    let e_2 = poly(&[1, -1, -1, -1], 32);
    let c = bfv.encrypt_with(&m, &u, &e_1, &e_2);
    assert_eq!(c.phase(&sk).values(), vec![-7, 4, 16, -4]);
    assert_eq!(c.decrypt(&sk).values(), vec![0, 0, 1, 0]);
}
