use bitcoin::hashes::Hash as _;
use winternitz_core::digits::{log_base_ceil, to_digits};
use winternitz_core::{
    digit_signature, generate_public_key, sign_digits, verify_signature, verify_signature_checked,
    Parameters,
};

fn hash160(data: &[u8]) -> [u8; 20] {
    *bitcoin::hashes::hash160::Hash::hash(data).as_byte_array()
}

fn chain(start: &[u8], steps: usize) -> Vec<u8> {
    let mut cur = start.to_vec();
    for _ in 0..steps {
        cur = hash160(&cur).to_vec();
    }
    cur
}

fn secret_key(len: usize) -> Vec<u8> {
    (0..len).map(|i| (i * 31 + 7) as u8).collect()
}

#[test]
fn parameters_for_144_bytes() {
    let ps = Parameters::new(144, 8);
    assert_eq!(ps.n0(), 144);
    assert_eq!(ps.log_d(), 8);
    assert_eq!(ps.d(), 255);
    assert_eq!(ps.n1(), 3);
    assert_eq!(ps.n(), 147);
}

#[test]
fn parameters_small_digits() {
    let ps = Parameters::new(4, 4);
    assert_eq!(ps.d(), 15);
    assert_eq!(ps.n1(), 3);
    assert_eq!(ps.n(), 7);
    let ps = Parameters::new(1, 4);
    assert_eq!(ps.n1(), 2);
    assert_eq!(ps.n(), 3);
}

#[test]
fn parameters_edge_counts() {
    let ps = Parameters::new(0, 8);
    assert_eq!(ps.n1(), 1);
    assert_eq!(ps.n(), 1);
    assert_eq!(Parameters::new(1, 8).n1(), 2);
    assert_eq!(Parameters::new(2, 8).n1(), 3);
    assert_eq!(Parameters::new(3, 5).d(), 31);
    assert_eq!(Parameters::new(3, 6).d(), 63);
    assert_eq!(Parameters::new(3, 7).d(), 127);
}

#[test]
fn log_base_ceil_values() {
    assert_eq!(log_base_ceil(0, 16), 0);
    assert_eq!(log_base_ceil(1, 2), 0);
    assert_eq!(log_base_ceil(2, 2), 1);
    assert_eq!(log_base_ceil(3, 2), 2);
    assert_eq!(log_base_ceil(1024, 2), 10);
    assert_eq!(log_base_ceil(1025, 2), 11);
    assert_eq!(log_base_ceil(u32::MAX, 16), 8);
    assert_eq!(log_base_ceil(36720, 256), 2);
}

#[test]
fn to_digits_values() {
    assert_eq!(to_digits(1000, 16, 3), vec![8, 14, 3]);
    assert_eq!(to_digits(5, 10, 0), Vec::<u8>::new());
    assert_eq!(to_digits(256, 256, 2), vec![0, 1]);
    assert_eq!(to_digits(300, 16, 1), vec![12]);
    assert_eq!(to_digits(507, 256, 3), vec![251, 1, 0]);
}

#[test]
fn to_digits_read_back() {
    let number: u32 = 123_456_789;
    let digits = to_digits(number, 10, 9);
    let mut value: u64 = 0;
    for d in digits.iter().rev() {
        value = value * 10 + *d as u64;
    }
    assert_eq!(value, number as u64);
}

#[test]
fn digit_signature_is_hash160_vector() {
    // RIPEMD160(SHA256(x)) of the uncompressed public key from the bitcoin_hashes tests.
    let input = hex::decode(
        "04a149d76c5de27a2ddbfaa1246c4adcd2b6f7aa2954c2e25303f55154caad9152e4f7e4b85df169c18a3c697fbb2dc4ecef94ac55fe8164ccf982a138691a5519",
    )
    .unwrap();
    let sk = input[..64].to_vec();
    let sig = digit_signature(&sk, 0x19, 0);
    assert_eq!(hex::encode(&sig.hash_bytes), "da0b3452b06fe341626ad0949c183fbda5676826");
    // only the low byte of the index enters the chain
    let sig_wide = digit_signature(&sk, 0x19 + 256, 0);
    assert_eq!(sig_wide.hash_bytes, sig.hash_bytes);
}

#[test]
fn digit_signature_chain_length() {
    let sk = secret_key(8);
    let mut start = sk.clone();
    start.push(3);
    let sig = digit_signature(&sk, 3, 5);
    assert_eq!(sig.hash_bytes, chain(&start, 6));
    assert_eq!(sig.hash_bytes.len(), 20);
}

#[test]
fn public_key_elements() {
    let ps = Parameters::new(2, 4);
    let sk = secret_key(5);
    let pk = generate_public_key(&ps, &sk);
    assert_eq!(pk.len(), ps.n() as usize);
    for (i, element) in pk.iter().enumerate() {
        let mut start = sk.clone();
        start.push(i as u8);
        assert_eq!(element.to_vec(), chain(&start, 16));
    }
}

#[test]
fn signature_layout_with_checksum() {
    let ps = Parameters::new(2, 8);
    let sk = secret_key(4);
    let digits = vec![1u8, 2u8];
    let sig = sign_digits(&ps, &sk, &digits);
    assert_eq!(sig.len(), 5);
    assert_eq!(sig[0], digit_signature(&sk, 0, 1).hash_bytes);
    assert_eq!(sig[1], digit_signature(&sk, 1, 2).hash_bytes);
    // checksum 2 * 255 - 3 = 507 = 251 + 1 * 256, in three base-256 digits
    assert_eq!(sig[2], digit_signature(&sk, 2, 251).hash_bytes);
    assert_eq!(sig[3], digit_signature(&sk, 3, 1).hash_bytes);
    assert_eq!(sig[4], digit_signature(&sk, 4, 0).hash_bytes);
}

#[test]
fn sign_then_verify_bytes() {
    let ps = Parameters::new(144, 8);
    let sk = secret_key(144);
    let message: Vec<u8> = (0..144).map(|i| (i * 7 + 3) as u8).collect();
    assert!(message.contains(&255));
    let pk = generate_public_key(&ps, &sk);
    let sig = sign_digits(&ps, &sk, &message);
    assert_eq!(verify_signature(&pk, &sig, message.clone(), &ps), Ok(true));
}

#[test]
fn sign_then_verify_small_digits() {
    let ps = Parameters::new(4, 4);
    let sk = secret_key(3);
    let message = vec![1u8, 2, 3, 4];
    let pk = generate_public_key(&ps, &sk);
    let sig = sign_digits(&ps, &sk, &message);
    assert_eq!(verify_signature(&pk, &sig, message, &ps), Ok(true));
}

#[test]
fn verify_rejects_other_message() {
    let ps = Parameters::new(16, 8);
    let sk = secret_key(16);
    let message: Vec<u8> = (0..16).collect();
    let pk = generate_public_key(&ps, &sk);
    let sig = sign_digits(&ps, &sk, &message);
    let mut other = message.clone();
    other[5] = 4;
    assert_eq!(verify_signature(&pk, &sig, other, &ps), Ok(false));
}

#[test]
fn verify_rejects_altered_signature() {
    let ps = Parameters::new(16, 8);
    let sk = secret_key(16);
    let message: Vec<u8> = (0..16).collect();
    let pk = generate_public_key(&ps, &sk);
    let mut sig = sign_digits(&ps, &sk, &message);
    sig[17][0] ^= 1;
    assert_eq!(verify_signature(&pk, &sig, message, &ps), Ok(false));
}

#[test]
fn verify_rejects_other_key() {
    let ps = Parameters::new(16, 8);
    let message: Vec<u8> = (0..16).collect();
    let pk = generate_public_key(&ps, &secret_key(17));
    let sig = sign_digits(&ps, &secret_key(16), &message);
    assert_eq!(verify_signature(&pk, &sig, message, &ps), Ok(false));
}

#[test]
fn verify_digit_255_compares_directly() {
    // with 4-bit digits a signed 255 is compared as it is, and does not match
    let ps = Parameters::new(17, 4);
    let sk = secret_key(6);
    let mut message = vec![0u8; 17];
    message[0] = 255;
    let pk = generate_public_key(&ps, &sk);
    let sig = sign_digits(&ps, &sk, &message);
    assert_eq!(verify_signature(&pk, &sig, message.clone(), &ps), Ok(false));
    // the same check passes when the element is the key element itself
    let mut forged = sig.clone();
    forged[0] = pk[0].to_vec();
    assert_eq!(verify_signature(&pk, &forged, message, &ps), Ok(true));
}

#[test]
fn raised_digit_lowers_checksum() {
    let ps = Parameters::new(2, 8);
    let sk = secret_key(4);
    let low = sign_digits(&ps, &sk, &vec![1u8, 2u8]);
    let high = sign_digits(&ps, &sk, &vec![1u8, 3u8]);
    // checksum 507 becomes 506: the lowest checksum digit drops from 251 to 250
    assert_eq!(low[2], digit_signature(&sk, 2, 251).hash_bytes);
    assert_eq!(high[2], digit_signature(&sk, 2, 250).hash_bytes);
    assert_eq!(high[3], low[3]);
}

#[test]
fn digit_chain_completes_to_key() {
    let ps = Parameters::new(4, 4);
    let sk = secret_key(9);
    let pk = generate_public_key(&ps, &sk);
    for m in 0..=15u8 {
        let sig = digit_signature(&sk, 2, m);
        assert_eq!(chain(&sig.hash_bytes, 15 - m as usize), pk[2].to_vec());
    }
}

#[test]
fn empty_message_signs_its_checksum() {
    let ps = Parameters::new(0, 8);
    let sk = secret_key(2);
    let pk = generate_public_key(&ps, &sk);
    let sig = sign_digits(&ps, &sk, &Vec::new());
    assert_eq!(sig.len(), 1);
    assert_eq!(sig[0], digit_signature(&sk, 0, 0).hash_bytes);
    assert_eq!(verify_signature(&pk, &sig, Vec::new(), &ps), Ok(true));
}

#[test]
fn signature_elements_have_twenty_bytes() {
    let ps = Parameters::new(5, 6);
    let sk = secret_key(7);
    let sig = sign_digits(&ps, &sk, &vec![0u8, 1, 62, 30, 7]);
    assert_eq!(sig.len(), ps.n() as usize);
    assert!(sig.iter().all(|e| e.len() == 20));
    assert_eq!(digit_signature(&sk, 0, 255).hash_bytes.len(), 20);
}

#[test]
fn top_digit_signature_is_key_element() {
    for log_d in 4..=8 {
        let ps = Parameters::new(3, log_d);
        let sk = secret_key(5);
        let pk = generate_public_key(&ps, &sk);
        for i in 0..ps.n() {
            let sig = digit_signature(&sk, i, ps.d() as u8);
            assert_eq!(sig.hash_bytes, pk[i as usize].to_vec());
        }
    }
}

#[test]
fn checksum_drops_by_raise() {
    // raising digit 0 by 9 lowers the checksum 507 to 498 = 242 + 1 * 256
    let ps = Parameters::new(2, 8);
    let sk = secret_key(4);
    let sig = sign_digits(&ps, &sk, &vec![10u8, 2u8]);
    assert_eq!(sig[2], digit_signature(&sk, 2, 242).hash_bytes);
    assert_eq!(sig[3], digit_signature(&sk, 3, 1).hash_bytes);
}

#[test]
fn raised_digits_with_old_checksum_rejected() {
    let ps = Parameters::new(8, 8);
    let sk = secret_key(8);
    let message: Vec<u8> = vec![3, 0, 200, 17, 9, 9, 1, 254];
    let pk = generate_public_key(&ps, &sk);
    let sig = sign_digits(&ps, &sk, &message);
    let mut raised = message.clone();
    raised[1] = 5;
    let mut forged = sig.clone();
    forged[1] = chain(&sig[1], 5);
    assert_eq!(verify_signature(&pk, &forged, raised.clone(), &ps), Ok(false));
    // the raised digit's own element is right: only the checksum fails
    let honest = sign_digits(&ps, &sk, &raised);
    assert_eq!(forged[1], honest[1]);
}

#[test]
fn checked_verification_answers() {
    let ps = Parameters::new(4, 8);
    let sk = secret_key(4);
    let message = vec![1u8, 2, 3, 255];
    let pk = generate_public_key(&ps, &sk);
    let sig = sign_digits(&ps, &sk, &message);
    assert_eq!(verify_signature_checked(&pk, &sig, message.clone(), &ps), Some(Ok(true)));
    let short: Vec<Vec<u8>> = sig[..6].to_vec();
    assert_eq!(verify_signature_checked(&pk, &short, message.clone(), &ps), None);
    assert_eq!(verify_signature_checked(&pk[..6].to_vec(), &sig, message, &ps), None);
}

#[test]
fn checked_verification_refuses_out_of_range_digits() {
    // with 4-bit digits the digit 15 equals d and cannot be checked
    let ps = Parameters::new(2, 4);
    let sk = secret_key(4);
    let pk = generate_public_key(&ps, &sk);
    let sig = sign_digits(&ps, &sk, &vec![15u8, 0]);
    assert_eq!(verify_signature_checked(&pk, &sig, vec![15u8, 0], &ps), None);
    // a digit sum above d * n0 cannot be checked either
    assert_eq!(verify_signature_checked(&pk, &sig, vec![200u8, 0], &ps), None);
    // one message of the law's failing kind: n0 1, digit 0, checksum digits [15, 0]
    let ps = Parameters::new(1, 4);
    let pk = generate_public_key(&ps, &sk);
    let sig = sign_digits(&ps, &sk, &vec![0u8]);
    assert_eq!(verify_signature_checked(&pk, &sig, vec![0u8], &ps), None);
    assert_eq!(verify_signature_checked(&pk, &sig, vec![1u8], &ps), Some(Ok(false)));
}
