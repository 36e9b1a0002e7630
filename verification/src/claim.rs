use vstd::prelude::*;

use num_bigint::BigUint;

use crate::bn254::{g1_decompress, g1_point, g2_decompress, g2_point};
use crate::encoding::{
    be_value, biguint_value, decimal_string, decode_hex, encode_hex, hex_decodable, hex_decoded,
    lemma_hex_numeral, to_decimal,
};
use crate::groth16::{char_strings_view, groth16_proof_verdict, proof_verdict};
use crate::hashes::{hash160, sha256, spec_hash160, spec_sha256};
use crate::winternitz::{
    key_view, lemma_checkable_everywhere_defined, signature_view, verification_checkable,
    verify_signature, HashOut, Parameters, PublicKey,
};

verus! {

/// The hex constants of the receipt claim that a Groth16 proof commits to,
/// each the hex of a 32-byte digest.
pub struct ClaimConstants {
    pub output_tag: String,
    pub assumptions: String,
    pub pre_state: String,
    pub post_state: String,
    pub input: String,
    pub claim_tag: String,
    pub bn254_control_id: String,
    /// The Groth16 verifying key, in the uncompressed form of
    /// `ark_groth16::VerifyingKey::<Bn254>`.
    pub verifying_key: Vec<u8>,
}

/// `s` is the hex of a 32-byte digest.
pub open spec fn digest_hex(s: Seq<char>) -> bool {
    s.len() == 64 && hex_decodable(s)
}

impl ClaimConstants {
    /// Every constant is the hex of a 32-byte digest.
    pub open spec fn well_formed(&self) -> bool {
        &&& digest_hex(self.output_tag@)
        &&& digest_hex(self.assumptions@)
        &&& digest_hex(self.pre_state@)
        &&& digest_hex(self.post_state@)
        &&& digest_hex(self.input@)
        &&& digest_hex(self.claim_tag@)
        &&& digest_hex(self.bn254_control_id@)
    }

    /// The digest of the claim's output: its tag, the digest of the journal
    /// (the total work), the assumptions digest and the count 2 in two
    /// little-endian bytes, hashed with SHA-256.
    pub open spec fn output_digest(&self, total_work: Seq<u8>) -> Seq<u8> {
        spec_sha256(
            hex_decoded(self.output_tag@) + spec_sha256(total_work) + hex_decoded(
                self.assumptions@,
            ) + seq![2u8, 0u8],
        )
    }

    /// The digest of the receipt claim: its tag, input, pre-state, post-state
    /// and output digests, two zero exit-code words and the count 4 in two
    /// little-endian bytes, hashed with SHA-256.
    pub open spec fn claim_digest(&self, total_work: Seq<u8>) -> Seq<u8> {
        spec_sha256(
            hex_decoded(self.claim_tag@) + hex_decoded(self.input@) + hex_decoded(self.pre_state@)
                + hex_decoded(self.post_state@) + self.output_digest(total_work) + Seq::new(
                8,
                |i: int| 0u8,
            ) + seq![4u8, 0u8],
        )
    }

    /// The five public inputs of the proof, as decimal numerals, in the order
    /// the verifier takes them: the two halves of the reversed control root
    /// (second half first), the two halves of the reversed claim digest
    /// (second half first), and the reversed BN254 control id.
    pub open spec fn public_inputs(&self, control_root: Seq<u8>, total_work: Seq<u8>) -> Seq<Seq<char>> {
        let root = control_root.reverse();
        let claim = self.claim_digest(total_work).reverse();
        let id = hex_decoded(self.bn254_control_id@).reverse();
        seq![
            decimal_string(be_value(root.subrange(16, 32))),
            decimal_string(be_value(root.subrange(0, 16))),
            decimal_string(be_value(claim.subrange(16, 32))),
            decimal_string(be_value(claim.subrange(0, 16))),
            decimal_string(be_value(id)),
        ]
    }
}

/// Why a signed message yields no Groth16 statement.
#[derive(Debug, PartialEq, Eq)]
pub enum StatementError {
    /// The Winternitz signature of the message does not verify.
    SignatureRejected,
}

/// What a signed message commits to: the compressed proof points and their
/// decompressed coordinates, the total work, the public inputs of the proof
/// as decimal numerals, and the verdict of the Groth16 check.
pub struct Groth16Statement {
    pub control_root: [u8; 32],
    pub a: Vec<u8>,
    pub b: Vec<u8>,
    pub c: Vec<u8>,
    pub total_work: Vec<u8>,
    pub public_inputs: Vec<String>,
    pub a_point: [BigUint; 2],
    pub b_point: [BigUint; 4],
    pub c_point: [BigUint; 2],
    pub verdict: Option<bool>,
}

/// `statement` is what `verify_winternitz_and_groth16` reads from `message`
/// under `constants`: the compressed points `a` (bytes 0..32), `b` (32..96)
/// and `c` (96..128) with their decompressed coordinates, the total work
/// (128..144), the default control root, the public inputs under that root,
/// and the verdict of the proof under the verifying key.
pub open spec fn statement_of(
    statement: Groth16Statement,
    message: Seq<u8>,
    constants: ClaimConstants,
) -> bool {
    &&& statement.control_root@ == default_control_root_bytes()
    &&& statement.a@ == message.subrange(0, 32)
    &&& statement.b@ == message.subrange(32, 96)
    &&& statement.c@ == message.subrange(96, 128)
    &&& statement.total_work@ == message.subrange(128, 144)
    &&& char_strings_view(statement.public_inputs@) == constants.public_inputs(
        statement.control_root@,
        statement.total_work@,
    )
    &&& (biguint_value(statement.a_point[0]), biguint_value(statement.a_point[1])) == g1_point(
        statement.a@,
    )
    &&& (
        biguint_value(statement.b_point[0]),
        biguint_value(statement.b_point[1]),
        biguint_value(statement.b_point[2]),
        biguint_value(statement.b_point[3]),
    ) == g2_point(statement.b@)
    &&& (biguint_value(statement.c_point[0]), biguint_value(statement.c_point[1])) == g1_point(
        statement.c@,
    )
    &&& statement.verdict == proof_verdict(
        constants.verifying_key@,
        g1_point(statement.a@),
        g2_point(statement.b@),
        g1_point(statement.c@),
        char_strings_view(statement.public_inputs@),
    )
}

/// The control root that the RISC Zero Groth16 verifier accepts by default:
/// the bytes of `ALLOWED_CONTROL_ROOT` of `risc0-circuit-recursion`.
pub open spec fn default_control_root_bytes() -> Seq<u8> {
    seq![
        0x8cu8, 0xdau8, 0xd9u8, 0x24u8, 0x26u8, 0x64u8, 0xbeu8, 0x31u8,
        0x12u8, 0xabu8, 0xa3u8, 0x77u8, 0xc5u8, 0x42u8, 0x5au8, 0x4du8,
        0xf7u8, 0x35u8, 0xebu8, 0x1cu8, 0x69u8, 0x66u8, 0x47u8, 0x2bu8,
        0x56u8, 0x1du8, 0x28u8, 0x55u8, 0x93u8, 0x2cu8, 0x04u8, 0x69u8,
    ]
}

/// Trusted: the control root of
/// `risc0_zkvm::Groth16ReceiptVerifierParameters::default()`, as its 32 bytes.
/// The contract states the bytes of the constant `ALLOWED_CONTROL_ROOT` that
/// `default()` puts there, in the order the digest holds them.
#[verifier::external_body]
fn default_control_root() -> (root: [u8; 32])
    ensures
        root@ == default_control_root_bytes(),
{
    let params = risc0_zkvm::Groth16ReceiptVerifierParameters::default();
    params.control_root.into()
}

/// Appends `src` to `dst`.
fn extend_bytes(dst: &mut Vec<u8>, src: &[u8])
    ensures
        final(dst)@ == old(dst)@ + src@,
{
    let mut i: usize = 0;
    while i < src.len()
        invariant
            i <= src@.len(),
            dst@ == old(dst)@ + src@.subrange(0, i as int),
        decreases src@.len() - i,
    {
        dst.push(src[i]);
        i = i + 1;
        proof {
            assert(src@.subrange(0, i as int) =~= src@.subrange(0, (i - 1) as int).push(src@[i - 1]));
        }
    }
    proof {
        assert(src@.subrange(0, i as int) =~= src@);
    }
}

/// The bytes in reverse order.
fn reversed(bytes: &[u8]) -> (rev: Vec<u8>)
    ensures
        rev@ == bytes@.reverse(),
{
    let mut rev: Vec<u8> = Vec::new();
    let mut i: usize = bytes.len();
    while i > 0
        invariant
            i <= bytes@.len(),
            rev@.len() == bytes@.len() - i,
            forall|j: int| 0 <= j < rev@.len() ==> rev@[j] == bytes@[bytes@.len() - 1 - j],
        decreases i,
    {
        i = i - 1;
        rev.push(bytes[i]);
    }
    proof {
        assert(rev@ =~= bytes@.reverse());
    }
    rev
}

/// The 32 bytes that the hex of a digest decodes to.
fn decode_digest(s: &String) -> (digest: Vec<u8>)
    requires
        digest_hex(s@),
    ensures
        digest@ == hex_decoded(s@),
        digest@.len() == 32,
{
    decode_hex(s.as_str()).unwrap()
}

/// The decimal numeral of big-endian bytes, through their hex.
fn decimal_of_bytes(bytes: &[u8]) -> (decimal: String)
    requires
        bytes@.len() > 0,
    ensures
        decimal@ == decimal_string(be_value(bytes@)),
{
    let hex = encode_hex(bytes);
    proof {
        lemma_hex_numeral(bytes@);
    }
    to_decimal(hex.as_str()).unwrap()
}

/// The claim digest that the proof commits to, for the journal `total_work`.
pub fn claim_digest(constants: &ClaimConstants, total_work: &[u8]) -> (digest: [u8; 32])
    requires
        constants.well_formed(),
    ensures
        digest@ == constants.claim_digest(total_work@),
{
    let output_tag = decode_digest(&constants.output_tag);
    let total_work_digest = sha256(total_work);
    let assumptions_bytes = decode_digest(&constants.assumptions);
    let len_output = decode_hex("0200");
    proof {
        reveal_strlit("0200");
        assert(hex_decodable("0200"@));
        assert(hex_decoded("0200"@) =~= seq![2u8, 0u8]);
    }
    let len_output = len_output.unwrap();
    let mut output_pre_digest: Vec<u8> = Vec::new();
    extend_bytes(&mut output_pre_digest, output_tag.as_slice());
    extend_bytes(&mut output_pre_digest, total_work_digest.as_slice());
    extend_bytes(&mut output_pre_digest, assumptions_bytes.as_slice());
    extend_bytes(&mut output_pre_digest, len_output.as_slice());
    let output_digest = sha256(output_pre_digest.as_slice());
    assert(output_digest@ == constants.output_digest(total_work@));

    let pre_state_bytes = decode_digest(&constants.pre_state);
    let post_state_bytes = decode_digest(&constants.post_state);
    let input_bytes = decode_digest(&constants.input);
    let claim_tag = decode_digest(&constants.claim_tag);
    let data: [u8; 8] = [0u8; 8];
    let claim_len: [u8; 2] = [4u8, 0u8];
    let mut claim_pre_digest: Vec<u8> = Vec::new();
    extend_bytes(&mut claim_pre_digest, claim_tag.as_slice());
    extend_bytes(&mut claim_pre_digest, input_bytes.as_slice());
    extend_bytes(&mut claim_pre_digest, pre_state_bytes.as_slice());
    extend_bytes(&mut claim_pre_digest, post_state_bytes.as_slice());
    extend_bytes(&mut claim_pre_digest, output_digest.as_slice());
    extend_bytes(&mut claim_pre_digest, data.as_slice());
    extend_bytes(&mut claim_pre_digest, claim_len.as_slice());
    proof {
        assert(data@ =~= Seq::new(8, |i: int| 0u8));
        assert(claim_len@ =~= seq![4u8, 0u8]);
    }
    sha256(claim_pre_digest.as_slice())
}

/// The public inputs of the proof for the control root `control_root` and
/// the journal `total_work`, as decimal numerals.
pub fn groth16_public_inputs(
    constants: &ClaimConstants,
    control_root: &[u8; 32],
    total_work: &[u8],
) -> (inputs: Vec<String>)
    requires
        constants.well_formed(),
    ensures
        char_strings_view(inputs@) == constants.public_inputs(control_root@, total_work@),
{
    let digest = claim_digest(constants, total_work);
    let claim_rev = reversed(digest.as_slice());
    let c0_dec = decimal_of_bytes(vstd::slice::slice_subrange(claim_rev.as_slice(), 0, 16));
    let c1_dec = decimal_of_bytes(vstd::slice::slice_subrange(claim_rev.as_slice(), 16, 32));

    let root_rev = reversed(control_root.as_slice());
    let a1_dec = decimal_of_bytes(vstd::slice::slice_subrange(root_rev.as_slice(), 0, 16));
    let a0_dec = decimal_of_bytes(vstd::slice::slice_subrange(root_rev.as_slice(), 16, 32));

    let control_id = decode_digest(&constants.bn254_control_id);
    let control_id_rev = reversed(control_id.as_slice());
    let control_id_dec = decimal_of_bytes(control_id_rev.as_slice());

    let mut inputs: Vec<String> = Vec::new();
    inputs.push(a0_dec);
    inputs.push(a1_dec);
    inputs.push(c1_dec);
    inputs.push(c0_dec);
    inputs.push(control_id_dec);
    proof {
        assert(char_strings_view(inputs@) =~= constants.public_inputs(control_root@, total_work@));
    }
    inputs
}

/// Reads from a message whose Winternitz signature verifies the Groth16
/// statement that it commits to: the compressed points `a` (bytes 0..32), `b`
/// (32..96) and `c` (96..128), the total work (128..144), the default control
/// root of the RISC Zero verifier, and the public inputs of the proof under
/// that root. A signature that does not verify is left out by `requires`, as
/// is a message shorter than 144 bytes; `verify_winternitz_and_groth16_checked`
/// tests both and answers the rejection. The proof itself is not checked here.
pub fn verify_winternitz_and_groth16(
    pub_key: &PublicKey,
    signature: &Vec<Vec<u8>>,
    message: &Vec<u8>,
    params: &Parameters,
    constants: &ClaimConstants,
) -> (statement: Groth16Statement)
    requires
        params.verification_defined(key_view(pub_key@), signature_view(signature@), message@),
        params.verifies(key_view(pub_key@), signature_view(signature@), message@),
        message@.len() >= 144,
        constants.well_formed(),
    ensures
        statement_of(statement, message@, *constants),
        statement.verdict == proof_verdict(
            constants.verifying_key@,
            g1_point(message@.subrange(0, 32)),
            g2_point(message@.subrange(32, 96)),
            g1_point(message@.subrange(96, 128)),
            constants.public_inputs(default_control_root_bytes(), message@.subrange(128, 144)),
        ),
{
    let a = vstd::slice::slice_to_vec(vstd::slice::slice_subrange(message.as_slice(), 0, 32));
    let b = vstd::slice::slice_to_vec(vstd::slice::slice_subrange(message.as_slice(), 32, 96));
    let c = vstd::slice::slice_to_vec(vstd::slice::slice_subrange(message.as_slice(), 96, 128));
    let total_work = vstd::slice::slice_to_vec(
        vstd::slice::slice_subrange(message.as_slice(), 128, 144),
    );
    let control_root = default_control_root();
    let public_inputs = groth16_public_inputs(constants, &control_root, total_work.as_slice());
    let a_point = g1_decompress(a.as_slice()).unwrap();
    let b_point = g2_decompress(b.as_slice()).unwrap();
    let c_point = g1_decompress(c.as_slice()).unwrap();
    let verdict = groth16_proof_verdict(
        &constants.verifying_key,
        &a_point,
        &b_point,
        &c_point,
        &public_inputs,
    );
    Groth16Statement {
        control_root,
        a,
        b,
        c,
        total_work,
        public_inputs,
        a_point,
        b_point,
        c_point,
        verdict,
    }
}

/// Checks the Winternitz signature of `message`, then reads the Groth16
/// statement that it commits to. `None` when the message is shorter than 144
/// bytes or its signature cannot be checked (the digit sum exceeds `d * n0`,
/// the key or the signature lacks an element for some position, or a signed
/// digit is neither 255 nor below `d`); `Err(SignatureRejected)` when the
/// signature does not verify; otherwise the statement that
/// `verify_winternitz_and_groth16` reads.
pub fn verify_winternitz_and_groth16_checked(
    pub_key: &PublicKey,
    signature: &Vec<Vec<u8>>,
    message: &Vec<u8>,
    params: &Parameters,
    constants: &ClaimConstants,
) -> (result: Option<Result<Groth16Statement, StatementError>>)
    requires
        constants.well_formed(),
    ensures
        result is Some <==> params.checkable_everywhere(pub_key@.len(), signature@.len(), message@)
            && message@.len() >= 144,
        result matches Some(statement) ==> {
            &&& !params.verifies(key_view(pub_key@), signature_view(signature@), message@) ==> (
            statement matches Err(StatementError::SignatureRejected))
            &&& params.verifies(key_view(pub_key@), signature_view(signature@), message@) ==> (
            statement matches Ok(s) && statement_of(s, message@, *constants) && s.verdict
                == proof_verdict(
                constants.verifying_key@,
                g1_point(message@.subrange(0, 32)),
                g2_point(message@.subrange(32, 96)),
                g1_point(message@.subrange(96, 128)),
                constants.public_inputs(default_control_root_bytes(), message@.subrange(128, 144)),
            ))
        },
{
    if message.len() < 144 || !verification_checkable(pub_key, signature, message, params) {
        return None;
    }
    proof {
        lemma_checkable_everywhere_defined(
            *params,
            key_view(pub_key@),
            signature_view(signature@),
            message@,
        );
    }
    let copy = message.clone();
    proof {
        assert(copy@ =~= message@);
    }
    let verified = verify_signature(pub_key, signature, copy, params);
    match verified {
        Ok(true) => {},
        _ => {
            return Some(Err(StatementError::SignatureRejected));
        },
    }
    Some(Ok(verify_winternitz_and_groth16(pub_key, signature, message, params, constants)))
}

/// The message that carries a compressed proof (`a`, `b` and `c` in 128
/// bytes) and the total work (16 bytes): the two one after the other.
pub fn proof_message(compressed_proof: &[u8; 128], total_work: &[u8; 16]) -> (message: Vec<u8>)
    ensures
        message@ == compressed_proof@ + total_work@,
{
    let mut message: Vec<u8> = Vec::new();
    extend_bytes(&mut message, compressed_proof.as_slice());
    extend_bytes(&mut message, total_work.as_slice());
    message
}

/// The commitment to a public key: HASH160 of its elements one after the
/// other.
pub fn public_key_commitment(pub_key: &PublicKey) -> (commitment: [u8; 20])
    ensures
        commitment@ == spec_hash160(key_bytes(pub_key@)),
{
    let mut concat: Vec<u8> = Vec::new();
    let mut i: usize = 0;
    while i < pub_key.len()
        invariant
            i <= pub_key@.len(),
            concat@ == key_bytes(pub_key@.subrange(0, i as int)),
        decreases pub_key@.len() - i,
    {
        extend_bytes(&mut concat, pub_key[i].as_slice());
        proof {
            assert(pub_key@.subrange(0, i + 1).drop_last() =~= pub_key@.subrange(0, i as int));
        }
        i = i + 1;
    }
    proof {
        assert(pub_key@.subrange(0, i as int) =~= pub_key@);
    }
    hash160(concat.as_slice())
}

/// The bytes of a public key's elements one after the other.
pub open spec fn key_bytes(key: Seq<HashOut>) -> Seq<u8>
    decreases key.len(),
{
    if key.len() == 0 {
        Seq::empty()
    } else {
        key_bytes(key.drop_last()) + key.last()@
    }
}

/// Law (reading back a proof message): the statement that
/// `verify_winternitz_and_groth16` reads from a message made by
/// `proof_message` holds the compressed points and the total work that went
/// into it.
pub proof fn lemma_proof_message_parts(compressed_proof: Seq<u8>, total_work: Seq<u8>)
    requires
        compressed_proof.len() == 128,
        total_work.len() == 16,
    ensures
        (compressed_proof + total_work).len() == 144,
        (compressed_proof + total_work).subrange(0, 32) == compressed_proof.subrange(0, 32),
        (compressed_proof + total_work).subrange(32, 96) == compressed_proof.subrange(32, 96),
        (compressed_proof + total_work).subrange(96, 128) == compressed_proof.subrange(96, 128),
        (compressed_proof + total_work).subrange(128, 144) == total_work,
{
    let m = compressed_proof + total_work;
    assert(m.subrange(0, 32) =~= compressed_proof.subrange(0, 32));
    assert(m.subrange(32, 96) =~= compressed_proof.subrange(32, 96));
    assert(m.subrange(96, 128) =~= compressed_proof.subrange(96, 128));
    assert(m.subrange(128, 144) =~= total_work);
}

/// Law (the proof checked is the message's proof, in its order): a statement
/// read from a message carries the Groth16 verdict on the proof whose `A` is
/// the point of bytes 0..32, whose `B` is the point of bytes 32..96 and whose
/// `C` is the point of bytes 96..128, under the default control root and the
/// total work of bytes 128..144.
pub proof fn lemma_statement_checks_message_proof(
    statement: Groth16Statement,
    message: Seq<u8>,
    constants: ClaimConstants,
)
    requires
        statement_of(statement, message, constants),
    ensures
        statement.verdict == proof_verdict(
            constants.verifying_key@,
            g1_point(message.subrange(0, 32)),
            g2_point(message.subrange(32, 96)),
            g1_point(message.subrange(96, 128)),
            constants.public_inputs(default_control_root_bytes(), message.subrange(128, 144)),
        ),
{
}

} // verus!
