use num_bigint::BigUint;
use rns_ring::context::Context;
use rns_ring::error::Error;
use rns_ring::poly::{Poly, Representation};
use rns_ring::rns::ScalingFactor;
use rns_ring::scaler::Scaler;
use std::rc::Rc;

fn q_moduli() -> Vec<u64> {
    vec![4611686018282684417, 4611686018326724609, 4611686018309947393]
}

fn p_moduli() -> Vec<u64> {
    vec![4611686018282684417, 4611686018309947393, 4611686018257518593]
}

#[test]
fn test_scaler() {
    let ntests = 100;
    let from = Rc::new(Context::new(&q_moduli(), 8).unwrap());
    let to = Rc::new(Context::new(&p_moduli(), 8).unwrap());

    for numerator in &[1u64, 2, 3, 100, 1000, 4611686018326724610] {
        for denominator in &[1u64, 2, 3, 4, 100, 101, 1000, 1001, 4611686018326724610] {
            let n = BigUint::from(*numerator);
            let d = BigUint::from(*denominator);

            let scaler = Scaler::new(&from, &to, ScalingFactor::new(&n, &d)).unwrap();

            for _ in 0..ntests {
                let mut poly = Poly::random(&from, Representation::PowerBasis);
                let poly_biguint = poly.coefficient_values();

                let scaled_poly = scaler.scale(&poly, true).unwrap();
                let scaled_biguint = scaled_poly.coefficient_values();

                let expected: Vec<BigUint> = poly_biguint
                    .iter()
                    .map(|i| {
                        if i >= &(from.modulus() >> 1usize) {
                            to.modulus()
                                - (&(&(from.modulus() - i) * &n + &d - 1u64) / &d)
                                    % to.modulus()
                        } else {
                            ((i * &n) / &d) % to.modulus()
                        }
                    })
                    .collect();
                assert_eq!(expected, scaled_biguint);

                poly.change_representation(Representation::Ntt);
                let mut scaled_poly = scaler.scale(&poly, true).unwrap();
                scaled_poly.change_representation(Representation::PowerBasis);
                let scaled_biguint = scaled_poly.coefficient_values();
                assert_eq!(expected, scaled_biguint);
            }
        }
    }
}

#[test]
fn literal_scenario_floor_three_quarters() {
    let from = Rc::new(Context::new(&q_moduli(), 8).unwrap());
    let to = Rc::new(Context::new(&p_moduli(), 8).unwrap());
    let factor = ScalingFactor::new(&BigUint::from(3u64), &BigUint::from(4u64));
    let scaler = Scaler::new(&from, &to, factor).unwrap();

    let poly = Poly::from_u64_coefficients(&from, &vec![1000u64; 8]);
    let scaled = scaler.scale(&poly, true).unwrap();

    // (1000 * 3) / 4 == 750, exactly, under every destination modulus.
    for i in 0..3usize {
        for j in 0..8usize {
            assert_eq!(scaled.coefficients.get(i, j), 750u64);
        }
    }
    let values = scaled.coefficient_values();
    for v in values {
        assert_eq!(v, BigUint::from(750u64));
    }
}

#[test]
fn round_mode_rounds_to_nearest() {
    let from = Rc::new(Context::new(&q_moduli(), 8).unwrap());
    let to = Rc::new(Context::new(&p_moduli(), 8).unwrap());
    let factor = ScalingFactor::new(&BigUint::from(3u64), &BigUint::from(4u64));
    let scaler = Scaler::new(&from, &to, factor).unwrap();

    // 2 * 3 / 4 == 1.5: floor mode gives 1, round mode gives 2.
    let poly = Poly::from_u64_coefficients(&from, &vec![2u64; 8]);
    let floored = scaler.scale(&poly, true).unwrap();
    let rounded = scaler.scale(&poly, false).unwrap();
    for j in 0..8usize {
        assert_eq!(floored.coefficients.get(2, j), 1u64);
        assert_eq!(rounded.coefficients.get(2, j), 2u64);
    }
}

#[test]
fn negative_centered_value_flips_sign() {
    // A single-modulus chain makes the centered value explicit: q - 1
    // stands for -1, and -1 scaled by 1/2 with floor is -1 (ceiling of the
    // magnitude), i.e. p - 1 modulo the destination modulus.
    let q: u64 = 4611686018282684417;
    let p: u64 = 4611686018257518593;
    let from = Rc::new(Context::new(&vec![q], 8).unwrap());
    let to = Rc::new(Context::new(&vec![p], 8).unwrap());
    let factor = ScalingFactor::new(&BigUint::from(1u64), &BigUint::from(2u64));
    let scaler = Scaler::new(&from, &to, factor).unwrap();

    let poly = Poly::from_u64_coefficients(&from, &vec![q - 1; 8]);
    let scaled = scaler.scale(&poly, true).unwrap();
    for j in 0..8usize {
        assert_eq!(scaled.coefficients.get(0, j), p - 1);
    }
}

#[test]
fn fast_path_copies_common_prefix() {
    // Q and P share their first modulus; with factor one its residues
    // must be copied verbatim.
    let from = Rc::new(Context::new(&q_moduli(), 8).unwrap());
    let to = Rc::new(Context::new(&p_moduli(), 8).unwrap());
    let scaler = Scaler::new(&from, &to, ScalingFactor::one()).unwrap();

    let poly = Poly::random(&from, Representation::PowerBasis);
    let scaled = scaler.scale(&poly, true).unwrap();
    for j in 0..8usize {
        assert_eq!(scaled.coefficients.get(0, j), poly.coefficients.get(0, j));
    }
}

#[test]
fn context_mismatch_is_rejected() {
    let from = Rc::new(Context::new(&q_moduli(), 8).unwrap());
    let to = Rc::new(Context::new(&p_moduli(), 8).unwrap());
    let scaler = Scaler::new(&from, &to, ScalingFactor::one()).unwrap();

    let foreign = Poly::random(&to, Representation::PowerBasis);
    let r = scaler.scale(&foreign, true);
    assert!(matches!(r, Err(Error::ContextMismatch)));
}

#[test]
fn identity_scaling_returns_input() {
    let from = Rc::new(Context::new(&q_moduli(), 8).unwrap());
    let to = Rc::new(Context::new(&q_moduli(), 8).unwrap());
    let factor = ScalingFactor::new(&BigUint::from(7u64), &BigUint::from(7u64));
    assert!(factor.is_one);
    let scaler = Scaler::new(&from, &to, factor).unwrap();

    for floor in [true, false] {
        let poly = Poly::random(&from, Representation::PowerBasis);
        let scaled = scaler.scale(&poly, floor).unwrap();
        for i in 0..3usize {
            for j in 0..8usize {
                assert_eq!(scaled.coefficients.get(i, j), poly.coefficients.get(i, j));
            }
        }
    }
}

#[test]
fn identity_scaling_in_transform_domain() {
    let from = Rc::new(Context::new(&q_moduli(), 8).unwrap());
    let to = Rc::new(Context::new(&q_moduli(), 8).unwrap());
    let scaler = Scaler::new(&from, &to, ScalingFactor::one()).unwrap();

    let poly = Poly::random(&from, Representation::Ntt);
    let scaled = scaler.scale(&poly, true).unwrap();
    assert!(matches!(scaled.representation, Representation::Ntt));
    for i in 0..3usize {
        for j in 0..8usize {
            assert_eq!(scaled.coefficients.get(i, j), poly.coefficients.get(i, j));
        }
    }
}

#[test]
fn invalid_parameters_are_rejected() {
    // Degree must be a power of two.
    assert!(matches!(
        Context::new(&q_moduli(), 7),
        Err(Error::ParameterError)
    ));
    assert!(matches!(Context::new(&q_moduli(), 0), Err(Error::ParameterError)));
    // Moduli must be odd primes above 2.
    assert!(matches!(Context::new(&vec![15u64], 8), Err(Error::ParameterError)));
    assert!(matches!(Context::new(&vec![4611686018282684418u64], 8), Err(Error::ParameterError)));
    assert!(matches!(Context::new(&vec![2u64], 8), Err(Error::ParameterError)));
    // A repeated modulus has no pairwise inverse.
    let q: u64 = 4611686018282684417;
    assert!(matches!(Context::new(&vec![q, q], 8), Err(Error::ParameterError)));
    // An empty chain describes no ring.
    assert!(matches!(Context::new(&vec![], 8), Err(Error::ParameterError)));
}

#[test]
fn scaler_requires_matching_degrees() {
    let from = Rc::new(Context::new(&q_moduli(), 8).unwrap());
    let to = Rc::new(Context::new(&p_moduli(), 16).unwrap());
    assert!(matches!(
        Scaler::new(&from, &to, ScalingFactor::one()),
        Err(Error::ParameterError)
    ));
}

#[test]
fn representation_roundtrip_preserves_coefficients() {
    let ctx = Rc::new(Context::new(&q_moduli(), 8).unwrap());
    let mut values: Vec<u64> = vec![0; 8];
    values[1] = 1;
    let mut poly = Poly::from_u64_coefficients(&ctx, &values);
    let before: Vec<BigUint> = poly.coefficient_values();

    poly.change_representation(Representation::Ntt);
    // The transform of (0, 1, 0, ...) is a vector of root powers, not the
    // input itself.
    let mut all_same = true;
    for j in 0..8usize {
        if poly.coefficients.get(0, j) != values[j] {
            all_same = false;
        }
    }
    assert!(!all_same);

    poly.change_representation(Representation::PowerBasis);
    assert_eq!(before, poly.coefficient_values());
}

#[test]
fn variable_time_transform_matches_constant_time() {
    let ctx = Rc::new(Context::new(&q_moduli(), 8).unwrap());
    let values: Vec<u64> = vec![5, 0, 17, 0, 0, 1, 2, 3];
    let mut ct = Poly::from_u64_coefficients(&ctx, &values);
    let mut vt = Poly::from_u64_coefficients(&ctx, &values);
    vt.set_allow_variable_time(true);

    ct.change_representation(Representation::Ntt);
    vt.change_representation(Representation::Ntt);
    for i in 0..3usize {
        for j in 0..8usize {
            assert_eq!(ct.coefficients.get(i, j), vt.coefficients.get(i, j));
        }
    }
}

#[test]
fn coefficient_values_recombine_exactly() {
    let ctx = Rc::new(Context::new(&q_moduli(), 8).unwrap());
    let values: Vec<u64> = vec![0, 1, 2, 1000, 999999999, 42, 7, 4611686018257518592];
    let poly = Poly::from_u64_coefficients(&ctx, &values);
    let got = poly.coefficient_values();
    for j in 0..8usize {
        assert_eq!(got[j], BigUint::from(values[j]));
    }
}

#[test]
fn scaling_factor_detects_one() {
    let one = ScalingFactor::new(&BigUint::from(12u64), &BigUint::from(12u64));
    assert!(one.is_one);
    let not_one = ScalingFactor::new(&BigUint::from(3u64), &BigUint::from(4u64));
    assert!(!not_one.is_one);
}
