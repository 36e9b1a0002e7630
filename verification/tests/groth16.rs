use ark_ec::{AffineRepr, CurveGroup, Group};
use ark_ff::{BigInteger, PrimeField};
use ark_serialize::CanonicalSerialize;
use num_bigint::BigUint;
use std::str::FromStr;
use winternitz_core::bn254::{g1_decompress, g2_decompress};
use winternitz_core::groth16::groth16_proof_verdict;
use winternitz_core::{
    generate_public_key, proof_message, sign_digits, verify_winternitz_and_groth16,
    ClaimConstants, Parameters,
};

type Fr = ark_bn254::Fr;

fn p() -> BigUint {
    BigUint::from_str(
        "21888242871839275222246405745257275088696311157297823662689037894645226208583",
    )
    .unwrap()
}

fn fq(v: ark_bn254::Fq) -> BigUint {
    BigUint::from_bytes_be(&v.into_bigint().to_bytes_be())
}

fn be32(v: &BigUint) -> Vec<u8> {
    let bytes = v.to_bytes_be();
    let mut out = vec![0u8; 32 - bytes.len()];
    out.extend_from_slice(&bytes);
    out
}

fn g1_coords(point: ark_bn254::G1Affine) -> [BigUint; 2] {
    [fq(point.x), fq(point.y)]
}

fn g2_coords(point: ark_bn254::G2Affine) -> [BigUint; 4] {
    [fq(point.x.c0), fq(point.x.c1), fq(point.y.c0), fq(point.y.c1)]
}

#[test]
fn g1_decompress_generator() {
    // x = 1 compresses to 2 (flag clear) or 3 (flag set); y is a root of 1 + 3
    let plain = g1_decompress(&be32(&BigUint::from(2u8))).unwrap();
    let flagged = g1_decompress(&be32(&BigUint::from(3u8))).unwrap();
    assert_eq!(plain[0], BigUint::from(1u8));
    assert_eq!(flagged[0], BigUint::from(1u8));
    assert_eq!((&plain[1] * &plain[1]) % p(), BigUint::from(4u8));
    assert_eq!((&plain[1] + &flagged[1]) % p(), BigUint::from(0u8));
    let ys = [plain[1].clone(), flagged[1].clone()];
    assert!(ys.contains(&BigUint::from(2u8)));
}

#[test]
fn decompress_rejects_other_lengths() {
    assert!(g1_decompress(&[0u8; 31]).is_none());
    assert!(g1_decompress(&[0u8; 64]).is_none());
    assert!(g2_decompress(&[0u8; 32]).is_none());
    assert!(g2_decompress(&[0u8; 65]).is_none());
}

#[test]
fn g2_decompress_generator() {
    let generator = ark_bn254::G2Affine::generator();
    let coords = g2_coords(generator);
    let x0 = &coords[0] << 2;
    let mut found = false;
    for flags in 0u8..4 {
        let mut compressed = be32(&(&x0 + BigUint::from(flags)));
        compressed.extend_from_slice(&be32(&coords[1]));
        let point = g2_decompress(&compressed).unwrap();
        assert_eq!(point[0], coords[0]);
        assert_eq!(point[1], coords[1]);
        let y = ark_bn254::Fq2::new(
            ark_bn254::Fq::from_be_bytes_mod_order(&point[2].to_bytes_be()),
            ark_bn254::Fq::from_be_bytes_mod_order(&point[3].to_bytes_be()),
        );
        if y == generator.y {
            found = true;
        }
    }
    assert!(found);
}

struct Fixture {
    key: Vec<u8>,
    a: [BigUint; 2],
    b: [BigUint; 4],
    c: [BigUint; 2],
    inputs: Vec<String>,
}

/// A key with alpha, beta, gamma, delta at the generators and the proof
/// A = (2 + s0 + sum x_i s_(i+1)) g1, B = g2, C = g1 that satisfies it.
fn fixture() -> Fixture {
    let g1 = ark_bn254::G1Projective::generator();
    let g2 = ark_bn254::G2Projective::generator();
    let scalars: Vec<Fr> = (0..6u64).map(|i| Fr::from(i * 7 + 3)).collect();
    let inputs: Vec<String> = (0..5u64).map(|i| (i * 1000 + 17).to_string()).collect();
    let values: Vec<Fr> = inputs.iter().map(|s| Fr::from_str(s).unwrap()).collect();
    let vk = ark_groth16::VerifyingKey::<ark_bn254::Bn254> {
        alpha_g1: g1.into_affine(),
        beta_g2: g2.into_affine(),
        gamma_g2: g2.into_affine(),
        delta_g2: g2.into_affine(),
        gamma_abc_g1: scalars.iter().map(|s| (g1 * s).into_affine()).collect(),
    };
    let mut exponent = Fr::from(2u64) + scalars[0];
    for (x, s) in values.iter().zip(scalars.iter().skip(1)) {
        exponent += *x * s;
    }
    let mut key = Vec::new();
    vk.serialize_uncompressed(&mut key).unwrap();
    Fixture {
        key,
        a: g1_coords((g1 * exponent).into_affine()),
        b: g2_coords(g2.into_affine()),
        c: g1_coords(g1.into_affine()),
        inputs,
    }
}

#[test]
fn groth16_verdict_accepts_valid_proof() {
    let f = fixture();
    assert_eq!(groth16_proof_verdict(&f.key, &f.a, &f.b, &f.c, &f.inputs), Some(true));
}

#[test]
fn groth16_verdict_rejects_wrong_proof() {
    let f = fixture();
    let other_c = g1_coords((ark_bn254::G1Projective::generator() * Fr::from(2u64)).into_affine());
    assert_eq!(groth16_proof_verdict(&f.key, &f.a, &f.b, &other_c, &f.inputs), Some(false));
    let mut inputs = f.inputs.clone();
    inputs[0] = "18".to_string();
    assert_eq!(groth16_proof_verdict(&f.key, &f.a, &f.b, &f.c, &inputs), Some(false));
}

#[test]
fn groth16_verdict_none_when_unusable() {
    let f = fixture();
    // a point off the curve
    let off = [BigUint::from(1u8), BigUint::from(1u8)];
    assert_eq!(groth16_proof_verdict(&f.key, &off, &f.b, &f.c, &f.inputs), None);
    // one input too few for the key
    let short: Vec<String> = f.inputs[..4].to_vec();
    assert_eq!(groth16_proof_verdict(&f.key, &f.a, &f.b, &f.c, &short), None);
    // an input that is no decimal numeral
    let mut bad = f.inputs.clone();
    bad[2] = "0x12".to_string();
    assert_eq!(groth16_proof_verdict(&f.key, &f.a, &f.b, &f.c, &bad), None);
    // a key that does not deserialize
    assert_eq!(groth16_proof_verdict(&vec![1, 2, 3], &f.a, &f.b, &f.c, &f.inputs), None);
}

#[test]
fn statement_carries_points_and_verdict() {
    let f = fixture();
    let constants = ClaimConstants {
        output_tag: hex::encode([0x11u8; 32]),
        assumptions: hex::encode([0u8; 32]),
        pre_state: hex::encode([0x22u8; 32]),
        post_state: hex::encode([0x33u8; 32]),
        input: hex::encode([0u8; 32]),
        claim_tag: hex::encode([0x44u8; 32]),
        bn254_control_id: hex::encode([5u8; 32]),
        verifying_key: f.key.clone(),
    };
    let mut proof = [0u8; 128];
    proof[..32].copy_from_slice(&be32(&BigUint::from(2u8)));
    proof[32..96].copy_from_slice(&[7u8; 64]);
    proof[96..128].copy_from_slice(&be32(&BigUint::from(3u8)));
    let message = proof_message(&proof, &[9u8; 16]);
    let ps = Parameters::new(144, 8);
    let sk = vec![4u8; 8];
    let pk = generate_public_key(&ps, &sk);
    let sig = sign_digits(&ps, &sk, &message);
    let statement = verify_winternitz_and_groth16(&pk, &sig, &message, &ps, &constants);
    assert_eq!(statement.a_point.to_vec(), g1_decompress(&proof[..32]).unwrap().to_vec());
    assert_eq!(statement.b_point.to_vec(), g2_decompress(&proof[32..96]).unwrap().to_vec());
    assert_eq!(statement.c_point.to_vec(), g1_decompress(&proof[96..]).unwrap().to_vec());
    let expected = groth16_proof_verdict(
        &f.key,
        &statement.a_point,
        &statement.b_point,
        &statement.c_point,
        &statement.public_inputs,
    );
    assert_eq!(statement.verdict, expected);
}

#[test]
fn g2_sign_bit_negates_y() {
    let coords = g2_coords(ark_bn254::G2Affine::generator());
    let x0 = &coords[0] << 2;
    let mut even = be32(&x0);
    even.extend_from_slice(&be32(&coords[1]));
    let mut odd = be32(&(&x0 + BigUint::from(1u8)));
    odd.extend_from_slice(&be32(&coords[1]));
    let e = g2_decompress(&even).unwrap();
    let o = g2_decompress(&odd).unwrap();
    assert_eq!((&e[2] + &o[2]) % p(), BigUint::from(0u8));
    assert_eq!((&e[3] + &o[3]) % p(), BigUint::from(0u8));
}
