use vstd::prelude::*;

use ark_bn254::{Bn254, Fq, Fq2, G1Affine, G2Affine};
use ark_ff::PrimeField;
use ark_serialize::{CanonicalDeserialize, CanonicalSerialize};
use num_bigint::BigUint;

use crate::bn254::{be_minimal, biguint_to_bytes_be};
use crate::encoding::biguint_value;

verus! {

/// What `ark_groth16::Proof::<Bn254>::serialize_uncompressed` writes for the
/// proof whose points have the big-endian coordinates `a` (x, y), `b`
/// (x.c0, x.c1, y.c0, y.c1) and `c`, each reduced modulo the base field;
/// `None` when a point is off its curve or outside its prime-order subgroup.
pub uninterp spec fn spec_proof_bytes(a: Seq<Seq<u8>>, b: Seq<Seq<u8>>, c: Seq<Seq<u8>>) -> Option<
    Seq<u8>,
>;

/// What `ark_groth16::Groth16::<Bn254>::verify_proof` answers for the
/// uncompressed verifying key `key`, the uncompressed proof `proof` and the
/// decimal public inputs `inputs`; `None` when the key or the proof does not
/// deserialize, an input is no decimal numeral of the scalar field, or the
/// number of inputs does not fit the key.
pub uninterp spec fn spec_groth16_verify(key: Seq<u8>, proof: Seq<u8>, inputs: Seq<Seq<char>>) -> Option<bool>;

/// Byte strings as sequences.
pub open spec fn byte_strings_view(strings: Seq<Vec<u8>>) -> Seq<Seq<u8>> {
    strings.map_values(|v: Vec<u8>| v@)
}

/// Strings as character sequences.
pub open spec fn char_strings_view(strings: Seq<String>) -> Seq<Seq<char>> {
    strings.map_values(|s: String| s@)
}

/// Trusted: builds an `ark_groth16::Proof::<Bn254>` from big-endian
/// coordinates (`Fq::from_be_bytes_mod_order`, `new_unchecked`), checks it
/// with `ark_serialize::Valid::check` (what `G1Affine::new` and
/// `G2Affine::new` assert), and writes it with `serialize_uncompressed`. The
/// contract says that the result is the value named `spec_proof_bytes` of the
/// coordinates.
#[verifier::external_body]
fn bn254_proof_bytes(a: &Vec<Vec<u8>>, b: &Vec<Vec<u8>>, c: &Vec<Vec<u8>>) -> (bytes: Option<Vec<u8>>)
    requires
        a@.len() == 2,
        b@.len() == 4,
        c@.len() == 2,
    ensures
        bytes is Some <==> spec_proof_bytes(byte_strings_view(a@), byte_strings_view(b@), byte_strings_view(c@)) is Some,
        bytes matches Some(v) ==> spec_proof_bytes(byte_strings_view(a@), byte_strings_view(b@), byte_strings_view(c@)) == Some(v@),
{
    let f = |v: &Vec<u8>| Fq::from_be_bytes_mod_order(v);
    let fq2 = |x: &Vec<u8>, y: &Vec<u8>| Fq2::new(f(x), f(y));
    let proof = ark_groth16::Proof::<Bn254> {
        a: G1Affine::new_unchecked(f(&a[0]), f(&a[1])),
        b: G2Affine::new_unchecked(fq2(&b[0], &b[1]), fq2(&b[2], &b[3])),
        c: G1Affine::new_unchecked(f(&c[0]), f(&c[1])),
    };
    ark_serialize::Valid::check(&proof).ok()?;
    let mut bytes = Vec::new();
    proof.serialize_uncompressed(&mut bytes).ok()?;
    Some(bytes)
}

/// Trusted: `ark_groth16::Groth16::<Bn254>::verify_proof` on the key and the
/// proof read with `deserialize_uncompressed` (the key prepared with
/// `prepare_verifying_key`) and the inputs read with `Fr::from_str`; a
/// failure to read, or the error of `verify_proof`, gives `None`. The
/// contract says that the answer is the value named `spec_groth16_verify` of
/// the three arguments.
#[verifier::external_body]
fn groth16_verify(key: &Vec<u8>, proof: &Vec<u8>, inputs: &Vec<String>) -> (verdict: Option<bool>)
    ensures
        verdict == spec_groth16_verify(key@, proof@, char_strings_view(inputs@)),
{
    let vk = ark_groth16::VerifyingKey::<Bn254>::deserialize_uncompressed(key.as_slice())
        .ok()?;
    let proof = ark_groth16::Proof::<Bn254>::deserialize_uncompressed(proof.as_slice())
        .ok()?;
    let inputs: Option<Vec<ark_bn254::Fr>> =
        inputs.iter().map(|s| <ark_bn254::Fr as std::str::FromStr>::from_str(s).ok()).collect();
    let pvk = ark_groth16::prepare_verifying_key(&vk);
    ark_groth16::Groth16::<Bn254>::verify_proof(&pvk, &proof, &inputs?).ok()
}

/// The Groth16 verdict on the proof with the points `a`, `b` and `c` (their
/// coordinates as numbers) under the uncompressed verifying key `key` and the
/// decimal public inputs `inputs`.
pub open spec fn proof_verdict(
    key: Seq<u8>,
    a: (nat, nat),
    b: (nat, nat, nat, nat),
    c: (nat, nat),
    inputs: Seq<Seq<char>>,
) -> Option<bool> {
    match spec_proof_bytes(
        seq![be_minimal(a.0), be_minimal(a.1)],
        seq![be_minimal(b.0), be_minimal(b.1), be_minimal(b.2), be_minimal(b.3)],
        seq![be_minimal(c.0), be_minimal(c.1)],
    ) {
        Some(proof) => spec_groth16_verify(key, proof, inputs),
        None => None,
    }
}

/// Checks the Groth16 proof with the points `a`, `b` and `c` under the
/// uncompressed verifying key `key` and the decimal public inputs `inputs`:
/// `None` where the proof cannot be built (a point off its curve or outside
/// its subgroup) or the check cannot be made (see `spec_groth16_verify`).
pub fn groth16_proof_verdict(
    key: &Vec<u8>,
    a: &[BigUint; 2],
    b: &[BigUint; 4],
    c: &[BigUint; 2],
    inputs: &Vec<String>,
) -> (verdict: Option<bool>)
    ensures
        verdict == proof_verdict(
            key@,
            (biguint_value(a[0]), biguint_value(a[1])),
            (biguint_value(b[0]), biguint_value(b[1]), biguint_value(b[2]), biguint_value(b[3])),
            (biguint_value(c[0]), biguint_value(c[1])),
            char_strings_view(inputs@),
        ),
{
    let mut a_bytes: Vec<Vec<u8>> = Vec::new();
    a_bytes.push(biguint_to_bytes_be(&a[0]));
    a_bytes.push(biguint_to_bytes_be(&a[1]));
    let mut b_bytes: Vec<Vec<u8>> = Vec::new();
    b_bytes.push(biguint_to_bytes_be(&b[0]));
    b_bytes.push(biguint_to_bytes_be(&b[1]));
    b_bytes.push(biguint_to_bytes_be(&b[2]));
    b_bytes.push(biguint_to_bytes_be(&b[3]));
    let mut c_bytes: Vec<Vec<u8>> = Vec::new();
    c_bytes.push(biguint_to_bytes_be(&c[0]));
    c_bytes.push(biguint_to_bytes_be(&c[1]));
    proof {
        assert(byte_strings_view(a_bytes@) =~= seq![
            be_minimal(biguint_value(a[0])),
            be_minimal(biguint_value(a[1])),
        ]);
        assert(byte_strings_view(b_bytes@) =~= seq![
            be_minimal(biguint_value(b[0])),
            be_minimal(biguint_value(b[1])),
            be_minimal(biguint_value(b[2])),
            be_minimal(biguint_value(b[3])),
        ]);
        assert(byte_strings_view(c_bytes@) =~= seq![
            be_minimal(biguint_value(c[0])),
            be_minimal(biguint_value(c[1])),
        ]);
    }
    match bn254_proof_bytes(&a_bytes, &b_bytes, &c_bytes) {
        Some(proof_bytes) => groth16_verify(key, &proof_bytes, inputs),
        None => None,
    }
}

/// Law (the verdict is on the proof `(A, B, C)` in that order): the verdict
/// on points `a`, `b`, `c` is what Groth16 verification answers for the proof
/// whose first point is `a` (its two coordinates, big-endian), whose second is
/// `b` (four coordinates) and whose third is `c`.
pub proof fn lemma_verdict_on_ordered_proof(
    key: Seq<u8>,
    a: (nat, nat),
    b: (nat, nat, nat, nat),
    c: (nat, nat),
    inputs: Seq<Seq<char>>,
)
    ensures
        spec_proof_bytes(
            seq![be_minimal(a.0), be_minimal(a.1)],
            seq![be_minimal(b.0), be_minimal(b.1), be_minimal(b.2), be_minimal(b.3)],
            seq![be_minimal(c.0), be_minimal(c.1)],
        ) matches Some(proof) ==> proof_verdict(key, a, b, c, inputs) == spec_groth16_verify(
            key,
            proof,
            inputs,
        ),
        spec_proof_bytes(
            seq![be_minimal(a.0), be_minimal(a.1)],
            seq![be_minimal(b.0), be_minimal(b.1), be_minimal(b.2), be_minimal(b.3)],
            seq![be_minimal(c.0), be_minimal(c.1)],
        ) is None ==> proof_verdict(key, a, b, c, inputs) is None,
{
}

} // verus!
