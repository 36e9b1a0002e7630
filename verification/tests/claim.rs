use bitcoin::hashes::Hash as _;
use num_bigint::BigUint;
use sha2::{Digest, Sha256};
use winternitz_core::{
    claim_digest, generate_public_key, groth16_public_inputs, proof_message,
    public_key_commitment, sign_digits, verify_winternitz_and_groth16,
    verify_winternitz_and_groth16_checked, ClaimConstants,
    Parameters, StatementError,
};

fn hex_of(byte: u8) -> String {
    hex::encode([byte; 32])
}

fn constants() -> ClaimConstants {
    ClaimConstants {
        output_tag: hex_of(0x11),
        assumptions: hex_of(0x00),
        pre_state: hex_of(0x22),
        post_state: hex_of(0x33),
        input: hex_of(0x00),
        claim_tag: hex_of(0x44),
        bn254_control_id: "0102030405060708090a0b0c0d0e0f101112131415161718191a1b1c1d1e1f20"
            .to_string(),
        verifying_key: Vec::new(),
    }
}

fn expected_claim_digest(total_work: &[u8]) -> [u8; 32] {
    let work_digest = Sha256::digest(total_work);
    let mut output = Vec::new();
    output.extend_from_slice(&[0x11; 32]);
    output.extend_from_slice(&work_digest);
    output.extend_from_slice(&[0x00; 32]);
    output.extend_from_slice(&[2, 0]);
    assert_eq!(output.len(), 98);
    let output_digest = Sha256::digest(&output);
    let mut claim = Vec::new();
    claim.extend_from_slice(&[0x44; 32]);
    claim.extend_from_slice(&[0x00; 32]);
    claim.extend_from_slice(&[0x22; 32]);
    claim.extend_from_slice(&[0x33; 32]);
    claim.extend_from_slice(&output_digest);
    claim.extend_from_slice(&[0; 8]);
    claim.extend_from_slice(&[4, 0]);
    assert_eq!(claim.len(), 170);
    Sha256::digest(&claim).into()
}

fn decimal(bytes: &[u8]) -> String {
    BigUint::from_bytes_be(bytes).to_str_radix(10)
}

fn expected_inputs(root: &[u8; 32], total_work: &[u8]) -> Vec<String> {
    let mut root_rev = root.to_vec();
    root_rev.reverse();
    let mut claim_rev = expected_claim_digest(total_work).to_vec();
    claim_rev.reverse();
    let mut id = hex::decode(constants().bn254_control_id).unwrap();
    id.reverse();
    vec![
        decimal(&root_rev[16..32]),
        decimal(&root_rev[0..16]),
        decimal(&claim_rev[16..32]),
        decimal(&claim_rev[0..16]),
        decimal(&id),
    ]
}

#[test]
fn claim_digest_matches_receipt_claim_layout() {
    let total_work = [7u8; 16];
    assert_eq!(claim_digest(&constants(), &total_work), expected_claim_digest(&total_work));
}

#[test]
fn public_inputs_order_and_values() {
    let root: [u8; 32] = core::array::from_fn(|i| (i * 9 + 1) as u8);
    let total_work = [3u8; 16];
    let inputs = groth16_public_inputs(&constants(), &root, &total_work);
    assert_eq!(inputs, expected_inputs(&root, &total_work));
    // the reversed control id 0x201f..01 in decimal
    assert_eq!(
        inputs[4],
        "14528991250861404666834535435384615765856667510756806797353855100662256435713"
    );
}

#[test]
fn proof_message_layout() {
    let proof: [u8; 128] = core::array::from_fn(|i| i as u8);
    let work = [0xabu8; 16];
    let message = proof_message(&proof, &work);
    assert_eq!(message.len(), 144);
    assert_eq!(&message[..128], &proof[..]);
    assert_eq!(&message[128..], &work[..]);
}

#[test]
fn public_key_commitment_hashes_concatenation() {
    let ps = Parameters::new(3, 8);
    let pk = generate_public_key(&ps, &vec![1, 2, 3]);
    let concat: Vec<u8> = pk.iter().flat_map(|k| k.iter().copied()).collect();
    let expected = *bitcoin::hashes::hash160::Hash::hash(&concat).as_byte_array();
    assert_eq!(public_key_commitment(&pk), expected);
}

#[test]
fn statement_of_signed_proof_message() {
    let proof: [u8; 128] = core::array::from_fn(|i| (255 - i) as u8);
    let work: [u8; 16] = core::array::from_fn(|i| (i * 3) as u8);
    let message = proof_message(&proof, &work);
    let ps = Parameters::new(144, 8);
    let sk: Vec<u8> = (0..144).map(|i| (i * 5) as u8).collect();
    let pk = generate_public_key(&ps, &sk);
    let sig = sign_digits(&ps, &sk, &message);
    let statement = verify_winternitz_and_groth16(&pk, &sig, &message, &ps, &constants());
    assert_eq!(statement.a, proof[0..32].to_vec());
    assert_eq!(statement.b, proof[32..96].to_vec());
    assert_eq!(statement.c, proof[96..128].to_vec());
    assert_eq!(statement.total_work, work.to_vec());
    let root: [u8; 32] = risc0_zkvm::Groth16ReceiptVerifierParameters::default()
        .control_root
        .into();
    assert_eq!(statement.control_root, root);
    assert_eq!(statement.public_inputs, expected_inputs(&root, &work));
}

#[test]
fn statement_refused_for_bad_signature() {
    let message = vec![9u8; 144];
    let ps = Parameters::new(144, 8);
    let sk: Vec<u8> = vec![1; 32];
    let pk = generate_public_key(&ps, &sk);
    let mut sig = sign_digits(&ps, &sk, &message);
    sig[0][0] ^= 0x80;
    let result = verify_winternitz_and_groth16_checked(&pk, &sig, &message, &ps, &constants());
    assert_eq!(result.map(|r| r.err()), Some(Some(StatementError::SignatureRejected)));
}

#[test]
fn statement_carries_default_control_root() {
    let message = vec![0u8; 144];
    let ps = Parameters::new(144, 8);
    let sk: Vec<u8> = vec![2; 8];
    let pk = generate_public_key(&ps, &sk);
    let sig = sign_digits(&ps, &sk, &message);
    let statement = verify_winternitz_and_groth16(&pk, &sig, &message, &ps, &constants());
    assert_eq!(
        hex::encode(statement.control_root),
        "8cdad9242664be3112aba377c5425a4df735eb1c6966472b561d2855932c0469"
    );
}

#[test]
fn checked_statement_answers() {
    let ps = Parameters::new(144, 8);
    let sk: Vec<u8> = vec![3; 8];
    let message = vec![255u8; 144];
    let pk = generate_public_key(&ps, &sk);
    let sig = sign_digits(&ps, &sk, &message);
    let result = verify_winternitz_and_groth16_checked(&pk, &sig, &message, &ps, &constants());
    assert!(matches!(result, Some(Ok(_))));
    // zero key elements and unrelated signature elements
    let zero_key = vec![[0u8; 20]; 147];
    let ones = vec![vec![1u8; 20]; 147];
    let result = verify_winternitz_and_groth16_checked(&zero_key, &ones, &message, &ps, &constants());
    assert_eq!(result.map(|r| r.err()), Some(Some(StatementError::SignatureRejected)));
    // too short a message is refused before any check
    let ps = Parameters::new(20, 8);
    let short = vec![1u8; 20];
    let pk = generate_public_key(&ps, &sk);
    let sig = sign_digits(&ps, &sk, &short);
    assert!(verify_winternitz_and_groth16_checked(&pk, &sig, &short, &ps, &constants()).is_none());
}
