//! Winternitz one-time signatures over HASH160 hash chains, and the Groth16
//! statement that a signed message commits to.

pub mod bn254;
pub mod claim;
pub mod digits;
pub mod encoding;
pub mod groth16;
pub mod hashes;
pub mod winternitz;

pub use claim::{
    claim_digest, groth16_public_inputs, proof_message, public_key_commitment,
    verify_winternitz_and_groth16, verify_winternitz_and_groth16_checked, ClaimConstants, Groth16Statement, StatementError,
};
pub use bn254::{g1_decompress, g2_decompress};
pub use encoding::to_decimal;
pub use groth16::groth16_proof_verdict;
pub use winternitz::{
    digit_signature, generate_public_key, sign_digits, verify_signature, verify_signature_checked,
    DigitSignature, HashOut,
    Parameters, PublicKey, SecretKey,
};
