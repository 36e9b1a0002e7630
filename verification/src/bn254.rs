use vstd::prelude::*;

use num_bigint::BigUint;

use crate::digits::{lemma_power_positive, power};
use vstd::arithmetic::div_mod::{
    lemma_add_mod_noop, lemma_mod_bound, lemma_mod_multiples_vanish, lemma_mod_pos_bound, lemma_mod_twice,
    lemma_mul_mod_noop_general, lemma_small_mod, lemma_sub_mod_noop,
};
use vstd::arithmetic::power::pow;
use crate::encoding::{be_value, biguint_limbs, biguint_value, limbs_value};

verus! {

/// Bitwise AND of two natural numbers.
pub open spec fn nat_bitand(a: nat, b: nat) -> nat
    decreases a,
{
    if a == 0 || b == 0 {
        0
    } else {
        2 * nat_bitand(a / 2, b / 2) + (a % 2) * (b % 2)
    }
}

/// `a` shifted right by `n` bits.
pub open spec fn nat_shr(a: nat, n: nat) -> nat {
    a / power(2, n)
}

/// The base-field modulus `p` of BN254, big-endian.
pub open spec fn modulus_bytes() -> Seq<u8> {
    seq![
        0x30u8, 0x64u8, 0x4eu8, 0x72u8, 0xe1u8, 0x31u8, 0xa0u8, 0x29u8,
        0xb8u8, 0x50u8, 0x45u8, 0xb6u8, 0x81u8, 0x81u8, 0x58u8, 0x5du8,
        0x97u8, 0x81u8, 0x6au8, 0x91u8, 0x68u8, 0x71u8, 0xcau8, 0x8du8,
        0x3cu8, 0x20u8, 0x8cu8, 0x16u8, 0xd8u8, 0x7cu8, 0xfdu8, 0x47u8,
    ]
}

/// `27 / 82` in the base field, big-endian: the real part of the constant of
/// the twisted curve.
pub open spec fn fraction_27_82_bytes() -> Seq<u8> {
    seq![
        0x2bu8, 0x14u8, 0x9du8, 0x40u8, 0xceu8, 0xb8u8, 0xaau8, 0xaeu8,
        0x81u8, 0xbeu8, 0x18u8, 0x99u8, 0x1bu8, 0xe0u8, 0x6au8, 0xc3u8,
        0xb5u8, 0xb4u8, 0xc5u8, 0xe5u8, 0x59u8, 0xdbu8, 0xefu8, 0xa3u8,
        0x32u8, 0x67u8, 0xe6u8, 0xdcu8, 0x24u8, 0xa1u8, 0x38u8, 0xe5u8,
    ]
}

/// `3 / 82` in the base field, big-endian: the imaginary part of the
/// constant of the twisted curve, negated.
pub open spec fn fraction_3_82_bytes() -> Seq<u8> {
    seq![
        0x2fu8, 0xcdu8, 0x3au8, 0xc2u8, 0xa6u8, 0x40u8, 0xa1u8, 0x54u8,
        0xebu8, 0x23u8, 0x96u8, 0x08u8, 0x92u8, 0xa8u8, 0x5au8, 0x68u8,
        0xf0u8, 0x31u8, 0xcau8, 0x0cu8, 0x83u8, 0x44u8, 0xb2u8, 0x3au8,
        0x57u8, 0x7du8, 0xcfu8, 0x10u8, 0x52u8, 0xb9u8, 0xe7u8, 0x75u8,
    ]
}

/// The modulus `p`.
pub open spec fn bn254_modulus() -> nat {
    be_value(modulus_bytes())
}

/// The square root that `sqrt_fp` takes modulo `m`: `a^((m + 1) / 4) mod m`,
/// a square root of `a` whenever `a` is a square and `m` a prime `= 3 mod 4`.
pub open spec fn fp_sqrt(a: nat, m: nat) -> nat {
    power(a, nat_shr(m + 1, 2)) % m
}

/// `-a` modulo `m`, for `a <= m`.
pub open spec fn fp_negate(a: nat, m: nat) -> nat {
    ((m - a) as nat) % m
}

/// The square root that `sqrt_f2` takes of `a0 + a1 i` modulo `m`: the norm's
/// root `d` (negated when `hint` is set), then `x0 = sqrt((a0 + d) / 2)` and
/// `x1 = a1 / (2 x0)`, division by Fermat's inverse.
pub open spec fn fp2_sqrt(a0: nat, a1: nat, hint: bool, m: nat) -> (nat, nat) {
    let d0 = fp_sqrt(((a0 * a0) + (a1 * a1)) % m, m);
    let d = if hint {
        fp_negate(d0, m)
    } else {
        d0
    };
    let x0 = fp_sqrt(((a0 + d) * nat_shr(m + 1, 1)) % m, m);
    let x1 = (a1 * (power((x0 * 2) % m, (m - 2) as nat) % m)) % m;
    (x0, x1)
}

/// The point that 32 compressed bytes stand for: `x` is the big-endian value
/// without its low bit; `y` the root of `x^3 + 3`, negated when the low bit is
/// set.
pub open spec fn g1_point(compressed: Seq<u8>) -> (nat, nat) {
    let m = bn254_modulus();
    let cx = be_value(compressed);
    let x = nat_shr(cx, 1);
    let y = fp_sqrt((((x * x) * x) + 3) % m, m);
    (
        x,
        if nat_bitand(cx, 1) == 1 {
            fp_negate(y, m)
        } else {
            y
        },
    )
}

/// The point of the twisted curve that 64 compressed bytes stand for: `x0` is
/// the value of the first 32 bytes without its two low bits (bit 0 negates
/// the point, bit 1 is the root hint), `x1` the value of the last 32; `y`
/// the root of `x^3 + 3 / (9 + i)`.
pub open spec fn g2_point(compressed: Seq<u8>) -> (nat, nat, nat, nat) {
    let m = bn254_modulus();
    let cx0 = be_value(compressed.subrange(0, 32));
    let x1 = be_value(compressed.subrange(32, 64));
    let negate_point = nat_bitand(cx0, 1) == 1;
    let hint = nat_bitand(cx0, 2) == 2;
    let x0 = nat_shr(cx0, 2);
    let n3ab = ((x0 * x1) * ((m - 3) as nat)) % m;
    let a_3 = ((x0 * x0) * x0) % m;
    let b_3 = ((x1 * x1) * x1) % m;
    let y0 = ((be_value(fraction_27_82_bytes()) + a_3) + ((n3ab * x1) % m)) % m;
    let y1 = fp_negate(((be_value(fraction_3_82_bytes()) + b_3) + (n3ab * x0)) % m, m);
    let (r0, r1) = fp2_sqrt(y0, y1, hint, m);
    if negate_point {
        (x0, x1, fp_negate(r0, m), fp_negate(r1, m))
    } else {
        (x0, x1, r0, r1)
    }
}

/// Trusted: `BigUint::from_bytes_be`. The contract states the big-endian value.
#[verifier::external_body]
pub(crate) fn biguint_from_bytes_be(bytes: &[u8]) -> (n: BigUint)
    ensures
        limbs_value(biguint_limbs(n)) == be_value(bytes@),
{
    BigUint::from_bytes_be(bytes)
}

/// Trusted: `BigUint::from(u8)`. The contract states the value.
#[verifier::external_body]
pub(crate) fn biguint_from_u8(v: u8) -> (n: BigUint)
    ensures
        limbs_value(biguint_limbs(n)) == v,
{
    BigUint::from(v)
}

/// Trusted: `&BigUint + &BigUint`. The contract states the sum.
#[verifier::external_body]
pub(crate) fn biguint_add(a: &BigUint, b: &BigUint) -> (n: BigUint)
    ensures
        limbs_value(biguint_limbs(n)) == limbs_value(biguint_limbs(*a)) + limbs_value(
            biguint_limbs(*b),
        ),
{
    a + b
}

/// Trusted: `&BigUint - &BigUint`, which panics below zero; `requires` keeps
/// those inputs out. The contract states the difference.
#[verifier::external_body]
pub(crate) fn biguint_sub(a: &BigUint, b: &BigUint) -> (n: BigUint)
    requires
        limbs_value(biguint_limbs(*b)) <= limbs_value(biguint_limbs(*a)),
    ensures
        limbs_value(biguint_limbs(n)) == limbs_value(biguint_limbs(*a)) - limbs_value(
            biguint_limbs(*b),
        ),
{
    a - b
}

/// Trusted: `&BigUint * &BigUint`. The contract states the product.
#[verifier::external_body]
pub(crate) fn biguint_mul(a: &BigUint, b: &BigUint) -> (n: BigUint)
    ensures
        limbs_value(biguint_limbs(n)) == limbs_value(biguint_limbs(*a)) * limbs_value(
            biguint_limbs(*b),
        ),
{
    a * b
}

/// Trusted: `&BigUint % &BigUint`, which panics on a zero divisor; `requires`
/// keeps it out. The contract states the remainder.
#[verifier::external_body]
pub(crate) fn biguint_rem(a: &BigUint, m: &BigUint) -> (n: BigUint)
    requires
        limbs_value(biguint_limbs(*m)) > 0,
    ensures
        limbs_value(biguint_limbs(n)) == limbs_value(biguint_limbs(*a)) % limbs_value(
            biguint_limbs(*m),
        ),
{
    a % m
}

/// Trusted: `&BigUint >> usize`. The contract states the quotient by `2^bits`.
#[verifier::external_body]
pub(crate) fn biguint_shr(a: &BigUint, bits: usize) -> (n: BigUint)
    ensures
        limbs_value(biguint_limbs(n)) == limbs_value(biguint_limbs(*a)) / power(2, bits as nat),
{
    a >> bits
}

/// Trusted: `&BigUint & &BigUint`. The contract states the bitwise AND.
#[verifier::external_body]
pub(crate) fn biguint_bitand(a: &BigUint, b: &BigUint) -> (n: BigUint)
    ensures
        limbs_value(biguint_limbs(n)) == nat_bitand(
            limbs_value(biguint_limbs(*a)),
            limbs_value(biguint_limbs(*b)),
        ),
{
    a & b
}

/// Trusted: `BigUint::modpow`, which panics on a zero modulus; `requires`
/// keeps it out. The contract states `a^e mod m`.
#[verifier::external_body]
pub(crate) fn biguint_modpow(a: &BigUint, e: &BigUint, m: &BigUint) -> (n: BigUint)
    requires
        limbs_value(biguint_limbs(*m)) > 0,
    ensures
        limbs_value(biguint_limbs(n)) == power(
            limbs_value(biguint_limbs(*a)),
            limbs_value(biguint_limbs(*e)),
        ) % limbs_value(biguint_limbs(*m)),
{
    a.modpow(e, m)
}

/// Trusted: `PartialEq::eq` of two `BigUint`s. The contract states equality of
/// the values.
#[verifier::external_body]
pub(crate) fn biguint_eq(a: &BigUint, b: &BigUint) -> (eq: bool)
    ensures
        eq == (limbs_value(biguint_limbs(*a)) == limbs_value(biguint_limbs(*b))),
{
    a == b
}

/// The big-endian bytes of `n` without leading zero bytes (one zero byte for
/// zero).
pub open spec fn be_minimal(n: nat) -> Seq<u8>
    decreases n,
{
    if n < 256 {
        seq![n as u8]
    } else {
        be_minimal(n / 256).push((n % 256) as u8)
    }
}

/// Trusted: `BigUint::to_bytes_be`. The contract states the big-endian bytes
/// without leading zeros, a single zero byte for zero.
#[verifier::external_body]
pub(crate) fn biguint_to_bytes_be(n: &BigUint) -> (bytes: Vec<u8>)
    ensures
        bytes@ == be_minimal(limbs_value(biguint_limbs(*n))),
{
    n.to_bytes_be()
}

/// The modulus `p` as a number.
fn modulus() -> (m: BigUint)
    ensures
        biguint_value(m) == bn254_modulus(),
        biguint_value(m) >= 71,
{
    let bytes: [u8; 32] = [
        0x30u8, 0x64u8, 0x4eu8, 0x72u8, 0xe1u8, 0x31u8, 0xa0u8, 0x29u8,
        0xb8u8, 0x50u8, 0x45u8, 0xb6u8, 0x81u8, 0x81u8, 0x58u8, 0x5du8,
        0x97u8, 0x81u8, 0x6au8, 0x91u8, 0x68u8, 0x71u8, 0xcau8, 0x8du8,
        0x3cu8, 0x20u8, 0x8cu8, 0x16u8, 0xd8u8, 0x7cu8, 0xfdu8, 0x47u8,
    ];
    proof {
        assert(bytes@ =~= modulus_bytes());
        lemma_be_value_at_least_last(modulus_bytes());
    }
    biguint_from_bytes_be(bytes.as_slice())
}

proof fn lemma_be_value_at_least_last(bytes: Seq<u8>)
    requires
        bytes.len() > 0,
    ensures
        be_value(bytes) >= bytes.last(),
{
}

/// The number that big-endian bytes stand for.
pub fn bytes_to_bigint(bytes: &[u8]) -> (n: BigUint)
    ensures
        biguint_value(n) == be_value(bytes@),
{
    biguint_from_bytes_be(bytes)
}

/// `-a` modulo `m`.
pub fn negate_bigint(a: &BigUint, m: &BigUint) -> (n: BigUint)
    requires
        0 < biguint_value(*m),
        biguint_value(*a) <= biguint_value(*m),
    ensures
        biguint_value(n) == fp_negate(biguint_value(*a), biguint_value(*m)),
        biguint_value(n) < biguint_value(*m),
{
    biguint_rem(&biguint_sub(m, a), m)
}

/// The candidate square root `a^((m + 1) / 4) mod m`.
pub fn sqrt_fp(a: &BigUint, m: &BigUint) -> (root: BigUint)
    requires
        0 < biguint_value(*m),
    ensures
        biguint_value(root) == fp_sqrt(biguint_value(*a), biguint_value(*m)),
        biguint_value(root) < biguint_value(*m),
{
    let one = biguint_from_u8(1);
    let exponent = biguint_shr(&biguint_add(m, &one), 2);
    biguint_modpow(a, &exponent, m)
}

/// The square root of `a0 + a1 i` modulo `m` that `fp2_sqrt` describes.
pub fn sqrt_f2(a0: &BigUint, a1: &BigUint, hint: bool, m: &BigUint) -> (root: (BigUint, BigUint))
    requires
        3 <= biguint_value(*m),
    ensures
        (biguint_value(root.0), biguint_value(root.1)) == fp2_sqrt(
            biguint_value(*a0),
            biguint_value(*a1),
            hint,
            biguint_value(*m),
        ),
        biguint_value(root.0) < biguint_value(*m),
        biguint_value(root.1) < biguint_value(*m),
{
    let norm = biguint_rem(&biguint_add(&biguint_mul(a0, a0), &biguint_mul(a1, a1)), m);
    let d0 = sqrt_fp(&norm, m);
    let d = if hint {
        negate_bigint(&d0, m)
    } else {
        d0
    };
    let one = biguint_from_u8(1);
    let half = biguint_shr(&biguint_add(m, &one), 1);
    let x0 = sqrt_fp(&biguint_rem(&biguint_mul(&biguint_add(a0, &d), &half), m), m);
    let two = biguint_from_u8(2);
    let twice = biguint_rem(&biguint_mul(&x0, &two), m);
    let inverse = biguint_modpow(&twice, &biguint_sub(m, &two), m);
    let x1 = biguint_rem(&biguint_mul(a1, &inverse), m);
    (x0, x1)
}

/// Decompresses a point of the BN254 curve from 32 bytes; `None` for any
/// other length.
pub fn g1_decompress(compressed: &[u8]) -> (point: Option<[BigUint; 2]>)
    ensures
        point is None <==> compressed@.len() != 32,
        point matches Some(pt) ==> (biguint_value(pt[0]), biguint_value(pt[1])) == g1_point(
            compressed@,
        ),
{
    if compressed.len() != 32 {
        return None;
    }
    let modulus = modulus();
    let compressed_x = bytes_to_bigint(compressed);
    let one = biguint_from_u8(1);
    let negate_point = biguint_eq(&biguint_bitand(&compressed_x, &one), &one);
    let x = biguint_shr(&compressed_x, 1);
    let three = biguint_from_u8(3);
    let rhs = biguint_rem(&biguint_add(&biguint_mul(&biguint_mul(&x, &x), &x), &three), &modulus);
    let y = sqrt_fp(&rhs, &modulus);
    let y = if negate_point {
        negate_bigint(&y, &modulus)
    } else {
        y
    };
    Some([x, y])
}

/// Decompresses a point of the twisted BN254 curve from 64 bytes; `None`
/// for any other length.
pub fn g2_decompress(compressed: &[u8]) -> (point: Option<[BigUint; 4]>)
    ensures
        point is None <==> compressed@.len() != 64,
        point matches Some(pt) ==> (
            biguint_value(pt[0]),
            biguint_value(pt[1]),
            biguint_value(pt[2]),
            biguint_value(pt[3]),
        ) == g2_point(compressed@),
{
    if compressed.len() != 64 {
        return None;
    }
    let modulus = modulus();
    let compressed_x0 = bytes_to_bigint(vstd::slice::slice_subrange(compressed, 0, 32));
    let compressed_x1 = bytes_to_bigint(vstd::slice::slice_subrange(compressed, 32, 64));
    let one = biguint_from_u8(1);
    let two = biguint_from_u8(2);
    let three = biguint_from_u8(3);
    let negate_point = biguint_eq(&biguint_bitand(&compressed_x0, &one), &one);
    let hint = biguint_eq(&biguint_bitand(&compressed_x0, &two), &two);
    let x0 = biguint_shr(&compressed_x0, 2);
    let x1 = compressed_x1;
    let n3ab = biguint_rem(
        &biguint_mul(&biguint_mul(&x0, &x1), &biguint_sub(&modulus, &three)),
        &modulus,
    );
    let a_3 = biguint_rem(&biguint_mul(&biguint_mul(&x0, &x0), &x0), &modulus);
    let b_3 = biguint_rem(&biguint_mul(&biguint_mul(&x1, &x1), &x1), &modulus);
    let const_27_82 = fraction(true);
    let const_3_82 = fraction(false);
    let y0 = biguint_rem(
        &biguint_add(
            &biguint_add(&const_27_82, &a_3),
            &biguint_rem(&biguint_mul(&n3ab, &x1), &modulus),
        ),
        &modulus,
    );
    let y1 = negate_bigint(
        &biguint_rem(
            &biguint_add(&biguint_add(&const_3_82, &b_3), &biguint_mul(&n3ab, &x0)),
            &modulus,
        ),
        &modulus,
    );
    let (y0, y1) = sqrt_f2(&y0, &y1, hint, &modulus);
    if negate_point {
        let y1 = negate_bigint(&y1, &modulus);
        let y0 = negate_bigint(&y0, &modulus);
        return Some([x0, x1, y0, y1]);
    }
    Some([x0, x1, y0, y1])
}

/// `27 / 82` (for `true`) or `3 / 82` (for `false`) in the base field.
fn fraction(real_part: bool) -> (n: BigUint)
    ensures
        biguint_value(n) == be_value(
            if real_part {
                fraction_27_82_bytes()
            } else {
                fraction_3_82_bytes()
            },
        ),
{
    if real_part {
        let bytes: [u8; 32] = [
            0x2bu8, 0x14u8, 0x9du8, 0x40u8, 0xceu8, 0xb8u8, 0xaau8, 0xaeu8,
            0x81u8, 0xbeu8, 0x18u8, 0x99u8, 0x1bu8, 0xe0u8, 0x6au8, 0xc3u8,
            0xb5u8, 0xb4u8, 0xc5u8, 0xe5u8, 0x59u8, 0xdbu8, 0xefu8, 0xa3u8,
            0x32u8, 0x67u8, 0xe6u8, 0xdcu8, 0x24u8, 0xa1u8, 0x38u8, 0xe5u8,
        ];
        proof {
            assert(bytes@ =~= fraction_27_82_bytes());
        }
        biguint_from_bytes_be(bytes.as_slice())
    } else {
        let bytes: [u8; 32] = [
            0x2fu8, 0xcdu8, 0x3au8, 0xc2u8, 0xa6u8, 0x40u8, 0xa1u8, 0x54u8,
            0xebu8, 0x23u8, 0x96u8, 0x08u8, 0x92u8, 0xa8u8, 0x5au8, 0x68u8,
            0xf0u8, 0x31u8, 0xcau8, 0x0cu8, 0x83u8, 0x44u8, 0xb2u8, 0x3au8,
            0x57u8, 0x7du8, 0xcfu8, 0x10u8, 0x52u8, 0xb9u8, 0xe7u8, 0x75u8,
        ];
        proof {
            assert(bytes@ =~= fraction_3_82_bytes());
        }
        biguint_from_bytes_be(bytes.as_slice())
    }
}

/// The low bit of a number is its remainder by 2.
pub proof fn lemma_bitand_one(a: nat)
    ensures
        nat_bitand(a, 1) == a % 2,
{
    if a > 0 {
        assert(nat_bitand(a / 2, 0) == 0);
        assert(nat_bitand(a, 1) == 2 * nat_bitand(a / 2, 1nat / 2) + (a % 2) * (1nat % 2));
        assert(1nat / 2 == 0 && 1nat % 2 == 1);
    }
}

/// The second bit of a number, in place.
pub proof fn lemma_bitand_two(a: nat)
    ensures
        nat_bitand(a, 2) == 2 * ((a / 2) % 2),
{
    lemma_bitand_one(a / 2);
}

/// Law (the sign bit of a compressed point): setting the low bit of 32
/// compressed bytes keeps `x` and negates `y`.
pub proof fn lemma_g1_sign_bit(even: Seq<u8>, odd: Seq<u8>)
    requires
        be_value(even) % 2 == 0,
        be_value(odd) == be_value(even) + 1,
    ensures
        g1_point(odd).0 == g1_point(even).0,
        g1_point(odd).1 == fp_negate(g1_point(even).1, bn254_modulus()),
{
    reveal_with_fuel(power, 2);
    lemma_bitand_one(be_value(even));
    lemma_bitand_one(be_value(odd));
}

/// Law (the sign bit of a compressed point of the twisted curve): setting
/// the low bit of the first 32 of 64 compressed bytes keeps `x` and the root
/// hint, and negates both parts of `y`.
pub proof fn lemma_g2_sign_bit(even: Seq<u8>, odd: Seq<u8>)
    requires
        even.len() == 64,
        odd.len() == 64,
        odd.subrange(32, 64) == even.subrange(32, 64),
        be_value(even.subrange(0, 32)) % 2 == 0,
        be_value(odd.subrange(0, 32)) == be_value(even.subrange(0, 32)) + 1,
    ensures
        g2_point(odd).0 == g2_point(even).0,
        g2_point(odd).1 == g2_point(even).1,
        g2_point(odd).2 == fp_negate(g2_point(even).2, bn254_modulus()),
        g2_point(odd).3 == fp_negate(g2_point(even).3, bn254_modulus()),
{
    reveal_with_fuel(power, 3);
    let e = be_value(even.subrange(0, 32));
    let o = be_value(odd.subrange(0, 32));
    lemma_bitand_one(e);
    lemma_bitand_one(o);
    lemma_bitand_two(e);
    lemma_bitand_two(o);
    assert(o / 2 == e / 2);
    assert(o / 4 == e / 4);
}

/// Fermat's little theorem holds modulo `m`: every non-zero residue raised to
/// `m - 1` is 1. It holds for every prime `m`.
pub open spec fn fermat_holds(m: nat) -> bool {
    forall|r: nat| 0 < r < m ==> #[trigger] (power(r, (m - 1) as nat) % m) == 1
}

/// `a` is a square modulo `m`.
pub open spec fn is_square_mod(a: nat, m: nat) -> bool {
    exists|r: nat| #[trigger] ((r * r) % m) == a % m
}

proof fn lemma_power_is_pow(b: nat, e: nat)
    ensures
        power(b, e) as int == pow(b as int, e),
    decreases e,
{
    reveal(pow);
    if e > 0 {
        lemma_power_is_pow(b, (e - 1) as nat);
    }
}

/// The modulus leaves 3 when divided by 4.
pub proof fn lemma_modulus_three_mod_four()
    ensures
        bn254_modulus() % 4 == 3,
        bn254_modulus() > 3,
{
    let bytes = modulus_bytes();
    let rest = be_value(bytes.drop_last());
    assert(bytes.last() == 0x47u8);
    assert(bn254_modulus() == rest * 256 + 71);
    vstd::arithmetic::div_mod::lemma_mod_multiples_vanish((rest * 64) as int, 71, 4);
    assert(4 * (rest * 64) == rest * 256) by (nonlinear_arith);
}

/// `(m - y)^2 = y^2` modulo `m`.
proof fn lemma_negate_square(y: nat, m: nat)
    requires
        0 < m,
        y < m,
    ensures
        (fp_negate(y, m) * fp_negate(y, m)) % m == (y * y) % m,
{
    if y == 0 {
        vstd::arithmetic::div_mod::lemma_mod_self_0(m as int);
        assert(fp_negate(y, m) == 0);
    } else {
        let z = (m - y) as nat;
        vstd::arithmetic::div_mod::lemma_small_mod(z, m);
        assert(z * z == m * (m - 2 * y) + y * y) by (nonlinear_arith)
            requires
                z == m - y,
        ;
        vstd::arithmetic::div_mod::lemma_mod_multiples_vanish(
            (m - 2 * y) as int,
            (y * y) as int,
            m as int,
        );
    }
}

/// Law (square roots in the base field): for `m = 3 mod 4` where Fermat's
/// theorem holds (every prime), `a^((m + 1) / 4)` is a square root of every
/// square `a` below `m`.
pub proof fn lemma_fp_sqrt_is_root(a: nat, m: nat)
    requires
        m > 3,
        m % 4 == 3,
        fermat_holds(m),
        is_square_mod(a, m),
        a < m,
    ensures
        (fp_sqrt(a, m) * fp_sqrt(a, m)) % m == a,
{
    reveal_with_fuel(power, 3);
    let k = nat_shr(m + 1, 2);
    assert(k == (m + 1) / 4);
    let h = ((m - 1) / 2) as nat;
    assert(k + k == h + 1);
    let mi = m as int;
    let y = fp_sqrt(a, m);
    let pa = power(a, k);
    lemma_power_is_pow(a, k);
    lemma_power_is_pow(a, h);
    lemma_power_is_pow(a, k + k);
    vstd::arithmetic::div_mod::lemma_mul_mod_noop(pa as int, pa as int, mi);
    vstd::arithmetic::power::lemma_pow_adds(a as int, k, k);
    vstd::arithmetic::power::lemma_pow_adds(a as int, 1, h);
    vstd::arithmetic::power::lemma_pow1(a as int);
    // y * y = a^(k + k) = a * a^h (mod m)
    assert((y * y) % m == (a * power(a, h)) % m);
    let r = choose|r: nat| #[trigger] ((r * r) % m) == a % m;
    vstd::arithmetic::div_mod::lemma_small_mod(a, m);
    if a == 0 {
        lemma_power_is_pow(0, k);
        vstd::arithmetic::power::lemma0_pow(k);
        assert(y == 0);
    } else {
        let r0 = r % m;
        vstd::arithmetic::div_mod::lemma_mul_mod_noop(r as int, r as int, mi);
        assert((r0 * r0) % m == a);
        if r0 == 0 {
            assert(r0 * r0 == 0);
            vstd::arithmetic::div_mod::lemma_small_mod(0, m);
        }
        // a^h = (r0^2)^h = r0^(m - 1) = 1 (mod m)
        lemma_power_is_pow(r0 * r0, h);
        lemma_power_is_pow(r0, (m - 1) as nat);
        vstd::arithmetic::power::lemma_pow_mod_noop((r0 * r0) as int, h, mi);
        vstd::arithmetic::power::lemma_pow_distributes(r0 as int, r0 as int, h);
        vstd::arithmetic::power::lemma_pow_adds(r0 as int, h, h);
        assert(h + h == m - 1);
        assert(power(r0, (m - 1) as nat) % m == 1);
        assert(power(a, h) % m == 1);
        vstd::arithmetic::div_mod::lemma_mul_mod_noop(a as int, power(a, h) as int, mi);
        assert((a * power(a, h)) % m == (a * 1) % m);
    }
}

/// The root `a^((m + 1) / 4)` of a square is itself a square.
proof fn lemma_fp_sqrt_is_square(a: nat, m: nat)
    requires
        m > 0,
        is_square_mod(a, m),
    ensures
        is_square_mod(fp_sqrt(a, m), m),
{
    let mi = m as int;
    let k = nat_shr(m + 1, 2);
    let r = choose|r: nat| #[trigger] ((r * r) % m) == a % m;
    let s = power(r, k);
    lemma_power_is_pow(a, k);
    lemma_power_is_pow(r * r, k);
    lemma_power_is_pow(r, k);
    vstd::arithmetic::power::lemma_pow_mod_noop(a as int, k, mi);
    vstd::arithmetic::power::lemma_pow_mod_noop((r * r) as int, k, mi);
    vstd::arithmetic::power::lemma_pow_distributes(r as int, r as int, k);
    lemma_mod_twice(power(a, k) as int, mi);
    assert((s * s) % m == fp_sqrt(a, m) % m);
}

/// Negating twice gives back a number below `m`.
proof fn lemma_negate_twice(y: nat, m: nat)
    requires
        0 < m,
        y < m,
    ensures
        fp_negate(fp_negate(y, m), m) == y,
{
    if y == 0 {
        vstd::arithmetic::div_mod::lemma_mod_self_0(m as int);
    } else {
        lemma_small_mod((m - y) as nat, m);
        lemma_small_mod(y, m);
    }
}

/// Law (decompressed points lie on the curve): with Fermat's theorem for the
/// modulus (it is prime), the point decompressed from 32 bytes has `x` the
/// value of the bytes without its low bit, and, whenever `x^3 + 3` is a
/// square, `y^2 = x^3 + 3` modulo `p`, with `y` the root that is itself a
/// square when the low bit is clear and the other root when it is set.
pub proof fn lemma_g1_point_on_curve(compressed: Seq<u8>)
    requires
        fermat_holds(bn254_modulus()),
        is_square_mod(
            ((be_value(compressed) / 2) * (be_value(compressed) / 2) * (be_value(compressed) / 2) + 3)
                % bn254_modulus(),
            bn254_modulus(),
        ),
    ensures
        g1_point(compressed).0 == be_value(compressed) / 2,
        (g1_point(compressed).1 * g1_point(compressed).1) % bn254_modulus() == ((be_value(compressed)
            / 2) * (be_value(compressed) / 2) * (be_value(compressed) / 2) + 3) % bn254_modulus(),
        be_value(compressed) % 2 == 0 ==> is_square_mod(g1_point(compressed).1, bn254_modulus()),
        be_value(compressed) % 2 == 1 ==> is_square_mod(
            fp_negate(g1_point(compressed).1, bn254_modulus()),
            bn254_modulus(),
        ),
{
    reveal_with_fuel(power, 2);
    lemma_modulus_three_mod_four();
    let m = bn254_modulus();
    let x = be_value(compressed) / 2;
    let rhs = (x * x * x + 3) % m;
    vstd::arithmetic::div_mod::lemma_mod_pos_bound((x * x * x + 3) as int, m as int);
    lemma_fp_sqrt_is_root(rhs, m);
    let y = fp_sqrt(rhs, m);
    assert((y * y) % m == rhs);
    lemma_fp_sqrt_is_square(rhs, m);
    lemma_bitand_one(be_value(compressed));
    lemma_mod_pos_bound(power(rhs, nat_shr(m + 1, 2)) as int, m as int);
    if nat_bitand(be_value(compressed), 1) == 1 {
        lemma_negate_square(y, m);
        lemma_negate_twice(y, m);
    }
}

/// `a` and `b` leave the same remainder modulo `m`.
spec fn cong(a: int, b: int, m: int) -> bool {
    a % m == b % m
}

proof fn lemma_cong_mul(a: int, b: int, c: int, d: int, m: int)
    requires
        m > 0,
        cong(a, b, m),
        cong(c, d, m),
    ensures
        cong(a * c, b * d, m),
{
    lemma_mul_mod_noop_general(a, c, m);
    lemma_mul_mod_noop_general(b, d, m);
}

proof fn lemma_cong_add(a: int, b: int, c: int, d: int, m: int)
    requires
        m > 0,
        cong(a, b, m),
        cong(c, d, m),
    ensures
        cong(a + c, b + d, m),
        cong(a - c, b - d, m),
{
    lemma_add_mod_noop(a, c, m);
    lemma_add_mod_noop(b, d, m);
    lemma_sub_mod_noop(a, c, m);
    lemma_sub_mod_noop(b, d, m);
}

proof fn lemma_cong_mod(a: int, m: int)
    requires
        m > 0,
    ensures
        cong(a % m, a, m),
{
    lemma_mod_twice(a, m);
}

/// With Fermat's theorem, `t^(m - 2)` inverts every `t` that `m` does not
/// divide.
proof fn lemma_fermat_inverse(t: nat, m: nat)
    requires
        m > 2,
        fermat_holds(m),
        t % m != 0,
    ensures
        cong((t * power(t % m, (m - 2) as nat)) as int, 1, m as int),
{
    let mi = m as int;
    let r = t % m;
    let p = power(r, (m - 2) as nat);
    lemma_mod_pos_bound(t as int, mi);
    assert(power(r, (m - 1) as nat) % m == 1);
    assert(power(r, (m - 1) as nat) == r * p);
    lemma_cong_mod(t as int, mi);
    lemma_cong_mul(t as int, r as int, p as int, p as int, mi);
    lemma_small_mod(1, m);
}

/// With Fermat's theorem, a factor that `m` does not divide cancels from a
/// congruence.
proof fn lemma_cong_cancel(c: nat, u: int, v: int, m: nat)
    requires
        m > 2,
        fermat_holds(m),
        c % m != 0,
        cong(c as int * u, c as int * v, m as int),
    ensures
        cong(u, v, m as int),
{
    let mi = m as int;
    let ci = c as int;
    let p = power(c % m, (m - 2) as nat) as int;
    lemma_fermat_inverse(c, m);
    lemma_cong_mul(ci * p, 1, u, u, mi);
    lemma_cong_mul(ci * p, 1, v, v, mi);
    lemma_cong_mul(ci * u, ci * v, p, p, mi);
    assert((ci * p) * u == (ci * u) * p) by (nonlinear_arith);
    assert((ci * p) * v == (ci * v) * p) by (nonlinear_arith);
}

/// The product of `a.0 + a.1 i` and `b.0 + b.1 i` modulo `m`, where `i^2 = -1`.
pub open spec fn fq2_mul(a: (nat, nat), b: (nat, nat), m: nat) -> (nat, nat) {
    (
        ((a.0 * b.0 - a.1 * b.1) % (m as int)) as nat,
        (((a.0 * b.1 + a.1 * b.0) as int) % (m as int)) as nat,
    )
}

/// The hint fits `a0 + a1 i`: with `r` the root of the norm `a0^2 + a1^2`
/// and `d` that root negated when the hint is set, `(a0 + d) / 2` is a
/// non-zero square modulo `m`. A compressor sets the hint so that it fits.
pub open spec fn hint_fits(a0: nat, a1: nat, hint: bool, m: nat) -> bool {
    let r = fp_sqrt(((a0 * a0) + (a1 * a1)) % m, m);
    let d = if hint {
        fp_negate(r, m)
    } else {
        r
    };
    let h = ((a0 + d) * ((m + 1) / 2)) % m;
    h != 0 && is_square_mod(h, m)
}

/// Law (square roots in the quadratic extension): for `m = 3 mod 4` where
/// Fermat's theorem holds, `fp2_sqrt` squares back to `a0 + a1 i` whenever
/// the norm `a0^2 + a1^2` is a square and the hint fits.
#[verifier::rlimit(40)]
pub proof fn lemma_fp2_sqrt_is_root(a0: nat, a1: nat, hint: bool, m: nat)
    requires
        m > 3,
        m % 4 == 3,
        fermat_holds(m),
        a0 < m,
        a1 < m,
        is_square_mod(((a0 * a0) + (a1 * a1)) % m, m),
        hint_fits(a0, a1, hint, m),
    ensures
        fq2_mul(fp2_sqrt(a0, a1, hint, m), fp2_sqrt(a0, a1, hint, m), m) == (a0, a1),
{
    reveal_with_fuel(power, 2);
    let mi = m as int;
    let n = ((a0 * a0) + (a1 * a1)) % m;
    lemma_mod_pos_bound(((a0 * a0) + (a1 * a1)) as int, mi);
    lemma_fp_sqrt_is_root(n, m);
    let r = fp_sqrt(n, m);
    lemma_mod_pos_bound(power(n, nat_shr(m + 1, 2)) as int, mi);
    let d = if hint {
        fp_negate(r, m)
    } else {
        r
    };
    if hint {
        lemma_negate_square(r, m);
    }
    assert((d * d) % m == n);
    let half = (m + 1) / 2;
    assert(nat_shr(m + 1, 1) == half);
    assert(2 * half == m + 1);
    let h = ((a0 + d) * half) % m;
    lemma_mod_pos_bound(((a0 + d) * half) as int, mi);
    lemma_fp_sqrt_is_root(h, m);
    let x0 = fp_sqrt(h, m);
    lemma_mod_pos_bound(power(h, nat_shr(m + 1, 2)) as int, mi);
    assert((x0 * x0) % m == h);
    if x0 == 0 {
        assert(x0 * x0 == 0);
        lemma_small_mod(0, m);
    }
    let t = (x0 * 2) % m;
    if x0 * 2 < m {
        lemma_small_mod(x0 * 2, m);
    } else {
        vstd::arithmetic::div_mod::lemma_mod_sub_multiples_vanish((x0 * 2) as int, mi);
        lemma_small_mod((x0 * 2 - m) as nat, m);
    }
    assert(t != 0);
    lemma_small_mod(t, m);
    let p = power(t, (m - 2) as nat);
    lemma_fermat_inverse(t, m);
    let inv = p % m;
    let x1 = (a1 * inv) % m;
    assert(fp2_sqrt(a0, a1, hint, m) == (x0, x1));
    let (a0i, a1i, di, hi, x0i, x1i, ti, pi, invi, halfi) = (
        a0 as int,
        a1 as int,
        d as int,
        h as int,
        x0 as int,
        x1 as int,
        t as int,
        p as int,
        inv as int,
        half as int,
    );
    assert(cong(ti * pi, 1, mi));
    // x1 = a1 / t
    lemma_cong_mod(pi, mi);
    lemma_cong_mul(a1i, a1i, invi, pi, mi);
    lemma_cong_mod(a1i * invi, mi);
    assert(cong(x1i, a1i * pi, mi));
    lemma_cong_mod(x0i * 2, mi);
    assert(cong(ti, x0i * 2, mi));
    // imaginary part: 2 x0 x1 = t a1 / t = a1
    assert(x0i * x1i + x1i * x0i == (x0i * 2) * x1i) by (nonlinear_arith);
    lemma_cong_mul(x0i * 2, ti, x1i, a1i * pi, mi);
    assert(ti * (a1i * pi) == a1i * (ti * pi)) by (nonlinear_arith);
    lemma_cong_mul(a1i, a1i, ti * pi, 1, mi);
    lemma_small_mod(a1, m);
    assert(((x0 * x1 + x1 * x0) as int % mi) as nat == a1);
    // real part
    let ci = 2 * (a0i + di);
    lemma_cong_mod((a0i + di) * halfi, mi);
    assert(cong(hi, (a0i + di) * halfi, mi));
    lemma_cong_mul(2, 2, hi, (a0i + di) * halfi, mi);
    assert(2 * ((a0i + di) * halfi) == mi * (a0i + di) + (a0i + di)) by (nonlinear_arith)
        requires
            2 * halfi == mi + 1,
    ;
    lemma_mod_multiples_vanish(a0i + di, a0i + di, mi);
    assert(cong(2 * hi, a0i + di, mi));
    // t^2 = 4 x0^2 = 4 h = c
    lemma_cong_mul(ti, x0i * 2, ti, x0i * 2, mi);
    assert((x0i * 2) * (x0i * 2) == 4 * (x0i * x0i)) by (nonlinear_arith);
    lemma_cong_mod(x0i * x0i, mi);
    assert(cong(x0i * x0i, hi, mi));
    lemma_cong_mul(4, 4, x0i * x0i, hi, mi);
    lemma_cong_mul(2, 2, 2 * hi, a0i + di, mi);
    assert(4 * hi == 2 * (2 * hi));
    assert(cong(ti * ti, ci, mi));
    // c is not divisible by m, since h is not 0
    if ci % mi == 0 {
        lemma_small_mod(0, m);
        lemma_cong_mul(ci, 0, halfi, halfi, mi);
        assert(ci * halfi == mi * (a0i + di) + (a0i + di)) by (nonlinear_arith)
            requires
                ci == 2 * (a0i + di),
                2 * halfi == mi + 1,
        ;
        assert(cong(a0i + di, 0, mi));
        lemma_cong_mul(a0i + di, 0, halfi, halfi, mi);
        assert(h == 0);
    }
    // x1^2 c = a1^2
    lemma_cong_mul(x1i, a1i * pi, x1i, a1i * pi, mi);
    lemma_cong_mul(x1i * x1i, (a1i * pi) * (a1i * pi), ci, ti * ti, mi);
    assert(((a1i * pi) * (a1i * pi)) * (ti * ti) == (a1i * a1i) * ((ti * pi) * (ti * pi)))
        by (nonlinear_arith);
    lemma_cong_mul(ti * pi, 1, ti * pi, 1, mi);
    lemma_cong_mul(a1i * a1i, a1i * a1i, (ti * pi) * (ti * pi), 1, mi);
    assert(cong((x1i * x1i) * ci, a1i * a1i, mi));
    // (h - a0) c = (d - a0)(d + a0) = d^2 - a0^2 = a1^2
    assert((hi - a0i) * ci == (2 * hi - 2 * a0i) * (a0i + di)) by (nonlinear_arith)
        requires
            ci == 2 * (a0i + di),
    ;
    lemma_cong_add(2 * hi, a0i + di, 2 * a0i, 2 * a0i, mi);
    lemma_cong_mul(2 * hi - 2 * a0i, (a0i + di) - 2 * a0i, a0i + di, a0i + di, mi);
    assert(((a0i + di) - 2 * a0i) * (a0i + di) == di * di - a0i * a0i) by (nonlinear_arith);
    lemma_cong_mod(di * di, mi);
    lemma_cong_mod(a0i * a0i + a1i * a1i, mi);
    assert(cong(di * di, a0i * a0i + a1i * a1i, mi));
    lemma_cong_add(di * di, a0i * a0i + a1i * a1i, a0i * a0i, a0i * a0i, mi);
    assert(cong((hi - a0i) * ci, a1i * a1i, mi));
    // cancel c
    assert(ci * (x1i * x1i) == (x1i * x1i) * ci) by (nonlinear_arith);
    assert(ci * (hi - a0i) == (hi - a0i) * ci) by (nonlinear_arith);
    lemma_cong_cancel(ci as nat, x1i * x1i, hi - a0i, m);
    lemma_cong_add(x0i * x0i, hi, x1i * x1i, hi - a0i, mi);
    lemma_small_mod(a0, m);
    assert(((x0 * x0 - x1 * x1) % mi) as nat == a0);
}

/// The value of the first `k + 1` bytes, from that of the first `k`.
proof fn lemma_be_value_take(s: Seq<u8>, k: int)
    requires
        0 <= k < s.len(),
    ensures
        be_value(s.take(k + 1)) == be_value(s.take(k)) * 256 + s[k] as nat,
{
    assert(s.take(k + 1).drop_last() =~= s.take(k));
}

/// The modulus as a number.
pub proof fn lemma_modulus_value()
    ensures
        be_value(modulus_bytes()) == 21888242871839275222246405745257275088696311157297823662689037894645226208583,
{
    let s = modulus_bytes();
    assert(s.take(0).len() == 0);
    lemma_be_value_take(s, 0);
    assert(be_value(s.take(1)) == 48);
    lemma_be_value_take(s, 1);
    assert(be_value(s.take(2)) == 12388);
    lemma_be_value_take(s, 2);
    assert(be_value(s.take(3)) == 3171406);
    lemma_be_value_take(s, 3);
    assert(be_value(s.take(4)) == 811880050);
    lemma_be_value_take(s, 4);
    assert(be_value(s.take(5)) == 207841293025);
    lemma_be_value_take(s, 5);
    assert(be_value(s.take(6)) == 53207371014449);
    lemma_be_value_take(s, 6);
    assert(be_value(s.take(7)) == 13621086979699104);
    lemma_be_value_take(s, 7);
    assert(be_value(s.take(8)) == 3486998266802970665);
    lemma_be_value_take(s, 8);
    assert(be_value(s.take(9)) == 892671556301560490424);
    lemma_be_value_take(s, 9);
    assert(be_value(s.take(10)) == 228523918413199485548624);
    lemma_be_value_take(s, 10);
    assert(be_value(s.take(11)) == 58502123113779068300447813);
    lemma_be_value_take(s, 11);
    assert(be_value(s.take(12)) == 14976543517127441484914640310);
    lemma_be_value_take(s, 12);
    assert(be_value(s.take(13)) == 3833995140384625020138147919489);
    lemma_be_value_take(s, 13);
    assert(be_value(s.take(14)) == 981502755938464005155365867389313);
    lemma_be_value_take(s, 14);
    assert(be_value(s.take(15)) == 251264705520246785319773662051664216);
    lemma_be_value_take(s, 15);
    assert(be_value(s.take(16)) == 64323764613183177041862057485226039389);
    lemma_be_value_take(s, 16);
    assert(be_value(s.take(17)) == 16466883740974893322716686716217866083735);
    lemma_be_value_take(s, 17);
    assert(be_value(s.take(18)) == 4215522237689572690615471799351773717436289);
    lemma_be_value_take(s, 18);
    assert(be_value(s.take(19)) == 1079173692848530608797560780634054071663690090);
    lemma_be_value_take(s, 19);
    assert(be_value(s.take(20)) == 276268465369223835852175559842317842345904663185);
    lemma_be_value_take(s, 20);
    assert(be_value(s.take(21)) == 70724727134521301978156943319633367640551593775464);
    lemma_be_value_take(s, 21);
    assert(be_value(s.take(22)) == 18105530146437453306408177489826142115981208006518897);
    lemma_be_value_take(s, 22);
    assert(be_value(s.take(23)) == 4635015717487988046440493437395492381691189249668837834);
    lemma_be_value_take(s, 23);
    assert(be_value(s.take(24)) == 1186564023676924939888766319973246049712944447915222485645);
    lemma_be_value_take(s, 24);
    assert(be_value(s.take(25)) == 303760390061292784611524177913150988726513778666296956325180);
    lemma_be_value_take(s, 25);
    assert(be_value(s.take(26)) == 77762659855690952860550189545766653113987527338572020819246112);
    lemma_be_value_take(s, 26);
    assert(be_value(s.take(27)) == 19907240923056883932300848523716263197180806998674437329727004812);
    lemma_be_value_take(s, 27);
    assert(be_value(s.take(28)) == 5096253676302562286669017222071363378478286591660655956410113231894);
    lemma_be_value_take(s, 28);
    assert(be_value(s.take(29)) == 1304640941133455945387268408850269024890441367465127924840988987365080);
    lemma_be_value_take(s, 29);
    assert(be_value(s.take(30)) == 333988080930164722019140712665668870371952990071072748759293180765460604);
    lemma_be_value_take(s, 30);
    assert(be_value(s.take(31)) == 85500948718122168836900022442411230815219965458194623682379054275957914877);
    lemma_be_value_take(s, 31);
    assert(be_value(s.take(32)) == 21888242871839275222246405745257275088696311157297823662689037894645226208583);
    assert(s.take(32) =~= s);
}

/// The real part `27 / 82` of the twisted curve's constant as a number.
pub proof fn lemma_fraction_27_82_value()
    ensures
        be_value(fraction_27_82_bytes()) == 19485874751759354771024239261021720505790618469301721065564631296452457478373,
{
    let s = fraction_27_82_bytes();
    assert(s.take(0).len() == 0);
    lemma_be_value_take(s, 0);
    assert(be_value(s.take(1)) == 43);
    lemma_be_value_take(s, 1);
    assert(be_value(s.take(2)) == 11028);
    lemma_be_value_take(s, 2);
    assert(be_value(s.take(3)) == 2823325);
    lemma_be_value_take(s, 3);
    assert(be_value(s.take(4)) == 722771264);
    lemma_be_value_take(s, 4);
    assert(be_value(s.take(5)) == 185029443790);
    lemma_be_value_take(s, 5);
    assert(be_value(s.take(6)) == 47367537610424);
    lemma_be_value_take(s, 6);
    assert(be_value(s.take(7)) == 12126089628268714);
    lemma_be_value_take(s, 7);
    assert(be_value(s.take(8)) == 3104278944836790958);
    lemma_be_value_take(s, 8);
    assert(be_value(s.take(9)) == 794695409878218485377);
    lemma_be_value_take(s, 9);
    assert(be_value(s.take(10)) == 203442024928823932256702);
    lemma_be_value_take(s, 10);
    assert(be_value(s.take(11)) == 52081158381778926657715736);
    lemma_be_value_take(s, 11);
    assert(be_value(s.take(12)) == 13332776545735405224375228569);
    lemma_be_value_take(s, 12);
    assert(be_value(s.take(13)) == 3413190795708263737440058513691);
    lemma_be_value_take(s, 13);
    assert(be_value(s.take(14)) == 873776843701315516784654979505120);
    lemma_be_value_take(s, 14);
    assert(be_value(s.take(15)) == 223686871987536772296871674753310826);
    lemma_be_value_take(s, 15);
    assert(be_value(s.take(16)) == 57263839228809413707999148736847571651);
    lemma_be_value_take(s, 16);
    assert(be_value(s.take(17)) == 14659542842575209909247782076632978342837);
    lemma_be_value_take(s, 17);
    assert(be_value(s.take(18)) == 3752842967699253736767432211618042455766452);
    lemma_be_value_take(s, 18);
    assert(be_value(s.take(19)) == 960727799731008956612462646174218868676211909);
    lemma_be_value_take(s, 19);
    assert(be_value(s.take(20)) == 245946316731138292892790437420600030381110248933);
    lemma_be_value_take(s, 20);
    assert(be_value(s.take(21)) == 62962257083171402980554351979673607777564223726937);
    lemma_be_value_take(s, 21);
    assert(be_value(s.take(22)) == 16118337813291879163021914106796443591056441274096091);
    lemma_be_value_take(s, 22);
    assert(be_value(s.take(23)) == 4126294480202721065733610011339889559310448966168599535);
    lemma_be_value_take(s, 23);
    assert(be_value(s.take(24)) == 1056331386931896592827804162903011727183474935339161481123);
    lemma_be_value_take(s, 24);
    assert(be_value(s.take(25)) == 270420835054565527763917865703171002158969583446825339167538);
    lemma_be_value_take(s, 25);
    assert(be_value(s.take(26)) == 69227733773968775107562973620011776552696213362387286826889831);
    lemma_be_value_take(s, 26);
    assert(be_value(s.take(27)) == 17722299846136006427536121246723014797490230620771145427683796966);
    lemma_be_value_take(s, 27);
    assert(be_value(s.take(28)) == 4536908760610817645449247039161091788157499038917413229487052023516);
    lemma_be_value_take(s, 28);
    assert(be_value(s.take(29)) == 1161448642716369317235007242025239497768319753962857786748685318020132);
    lemma_be_value_take(s, 29);
    assert(be_value(s.take(30)) == 297330852535390545212161853958461311428689857014491593407663441413153953);
    lemma_be_value_take(s, 30);
    assert(be_value(s.take(31)) == 76116698249059979574313434613366095725744603395709847912361841001767412024);
    lemma_be_value_take(s, 31);
    assert(be_value(s.take(32)) == 19485874751759354771024239261021720505790618469301721065564631296452457478373);
    assert(s.take(32) =~= s);
}

/// The negated imaginary part `3 / 82` of the twisted curve's constant as a
/// number.
pub proof fn lemma_fraction_3_82_value()
    ensures
        be_value(fraction_3_82_bytes()) == 21621313080719284060999498358119991246151234191964923374119659383734918571893,
{
    let s = fraction_3_82_bytes();
    assert(s.take(0).len() == 0);
    lemma_be_value_take(s, 0);
    assert(be_value(s.take(1)) == 47);
    lemma_be_value_take(s, 1);
    assert(be_value(s.take(2)) == 12237);
    lemma_be_value_take(s, 2);
    assert(be_value(s.take(3)) == 3132730);
    lemma_be_value_take(s, 3);
    assert(be_value(s.take(4)) == 801979074);
    lemma_be_value_take(s, 4);
    assert(be_value(s.take(5)) == 205306643110);
    lemma_be_value_take(s, 5);
    assert(be_value(s.take(6)) == 52558500636224);
    lemma_be_value_take(s, 6);
    assert(be_value(s.take(7)) == 13454976162873505);
    lemma_be_value_take(s, 7);
    assert(be_value(s.take(8)) == 3444473897695617364);
    lemma_be_value_take(s, 8);
    assert(be_value(s.take(9)) == 881785317810078045419);
    lemma_be_value_take(s, 9);
    assert(be_value(s.take(10)) == 225737041359379979627299);
    lemma_be_value_take(s, 10);
    assert(be_value(s.take(11)) == 57788682588001274784588694);
    lemma_be_value_take(s, 11);
    assert(be_value(s.take(12)) == 14793902742528326344854705672);
    lemma_be_value_take(s, 12);
    assert(be_value(s.take(13)) == 3787239102087251544282804652178);
    lemma_be_value_take(s, 13);
    assert(be_value(s.take(14)) == 969533210134336395336397990957736);
    lemma_be_value_take(s, 14);
    assert(be_value(s.take(15)) == 248200501794390117206117885685180506);
    lemma_be_value_take(s, 15);
    assert(be_value(s.take(16)) == 63539328459363870004766178735406209640);
    lemma_be_value_take(s, 16);
    assert(be_value(s.take(17)) == 16266068085597150721220141756263989668080);
    lemma_be_value_take(s, 17);
    assert(be_value(s.take(18)) == 4164113429912870584632356289603581355028529);
    lemma_be_value_take(s, 18);
    assert(be_value(s.take(19)) == 1066013038057694869665883210138516826887303626);
    lemma_be_value_take(s, 19);
    assert(be_value(s.take(20)) == 272899337742769886634466101795460307683149728268);
    lemma_be_value_take(s, 20);
    assert(be_value(s.take(21)) == 69862230462149090978423322059637838766886330436739);
    lemma_be_value_take(s, 21);
    assert(be_value(s.take(22)) == 17884730998310167290476370447267286724322900591805252);
    lemma_be_value_take(s, 22);
    assert(be_value(s.take(23)) == 4578491135567402826361950834500425401426662551502144690);
    lemma_be_value_take(s, 23);
    assert(be_value(s.take(24)) == 1172093730705255123548659413632108902765225613184549040698);
    lemma_be_value_take(s, 24);
    assert(be_value(s.take(25)) == 300055995060545311628456809889819879107897756975244554418775);
    lemma_be_value_take(s, 25);
    assert(be_value(s.take(26)) == 76814334735499599776884943331793889051621825785662605931206525);
    lemma_be_value_take(s, 26);
    assert(be_value(s.take(27)) == 19664469692287897542882545492939235597215187401129627118388870607);
    lemma_be_value_take(s, 27);
    assert(be_value(s.take(28)) == 5034104241225701770977931646192444312887087974689184542307550875408);
    lemma_be_value_take(s, 28);
    assert(be_value(s.take(29)) == 1288730685753779653370350501425265744099094521520431242830733024104530);
    lemma_be_value_take(s, 29);
    assert(be_value(s.take(30)) == 329915055552967591262809728364868030489368197509230398164667654170759865);
    lemma_be_value_take(s, 30);
    assert(be_value(s.take(31)) == 84458254221559703363279290461406215805278258562362981930154919467714525671);
    lemma_be_value_take(s, 31);
    assert(be_value(s.take(32)) == 21621313080719284060999498358119991246151234191964923374119659383734918571893);
    assert(s.take(32) =~= s);
}

/// The constant `b` of the twisted curve `y^2 = x^3 + b`.
pub open spec fn twist_b() -> (nat, nat) {
    (be_value(fraction_27_82_bytes()), fp_negate(be_value(fraction_3_82_bytes()), bn254_modulus()))
}

/// Law (the twisted curve's constant): `b = 3 / (9 + i)`, that is
/// `(9 + i) b = 3` in the quadratic extension.
pub proof fn lemma_twist_b()
    ensures
        fq2_mul((9, 1), twist_b(), bn254_modulus()) == (3nat, 0nat),
{
    lemma_modulus_value();
    lemma_fraction_27_82_value();
    lemma_fraction_3_82_value();
}

/// `-a` modulo `m` is congruent to `-a`.
proof fn lemma_cong_negate(a: nat, m: nat)
    requires
        0 < m,
        a <= m,
    ensures
        cong(fp_negate(a, m) as int, -(a as int), m as int),
{
    let mi = m as int;
    lemma_cong_mod(mi - a, mi);
    lemma_mod_multiples_vanish(1, -(a as int), mi);
}

/// Negating both parts keeps the square in the quadratic extension.
proof fn lemma_fq2_negate_square(r0: nat, r1: nat, m: nat)
    requires
        0 < m,
        r0 <= m,
        r1 <= m,
    ensures
        fq2_mul(
            (fp_negate(r0, m), fp_negate(r1, m)),
            (fp_negate(r0, m), fp_negate(r1, m)),
            m,
        ) == fq2_mul((r0, r1), (r0, r1), m),
{
    let mi = m as int;
    let (n0, n1, r0i, r1i) = (fp_negate(r0, m) as int, fp_negate(r1, m) as int, r0 as int, r1 as int);
    lemma_cong_negate(r0, m);
    lemma_cong_negate(r1, m);
    lemma_cong_mul(n0, -r0i, n0, -r0i, mi);
    lemma_cong_mul(n1, -r1i, n1, -r1i, mi);
    lemma_cong_mul(n0, -r0i, n1, -r1i, mi);
    lemma_cong_mul(n1, -r1i, n0, -r0i, mi);
    assert((-r0i) * (-r0i) == r0i * r0i) by (nonlinear_arith);
    assert((-r1i) * (-r1i) == r1i * r1i) by (nonlinear_arith);
    assert((-r0i) * (-r1i) == r0i * r1i) by (nonlinear_arith);
    assert((-r1i) * (-r0i) == r1i * r0i) by (nonlinear_arith);
    lemma_cong_add(n0 * n0, r0i * r0i, n1 * n1, r1i * r1i, mi);
    lemma_cong_add(n0 * n1, r0i * r1i, n1 * n0, r1i * r0i, mi);
}

/// `x^3` in the quadratic extension is `(x0^3 - 3 x0 x1^2) + (3 x0^2 x1 - x1^3) i`.
proof fn lemma_fq2_cube(x0: nat, x1: nat, m: nat)
    requires
        m > 0,
    ensures
        cong(
            fq2_mul(fq2_mul((x0, x1), (x0, x1), m), (x0, x1), m).0 as int,
            (x0 as int) * x0 * x0 - 3 * (x0 as int) * x1 * x1,
            m as int,
        ),
        cong(
            fq2_mul(fq2_mul((x0, x1), (x0, x1), m), (x0, x1), m).1 as int,
            3 * (x0 as int) * x0 * x1 - (x1 as int) * x1 * x1,
            m as int,
        ),
{
    let mi = m as int;
    let (x0i, x1i) = (x0 as int, x1 as int);
    let sq0 = x0i * x0i - x1i * x1i;
    let sq1 = x0i * x1i + x1i * x0i;
    let s = fq2_mul((x0, x1), (x0, x1), m);
    lemma_mod_bound(sq0, mi);
    lemma_mod_bound(sq1, mi);
    let (s0, s1) = (s.0 as int, s.1 as int);
    lemma_cong_mod(sq0, mi);
    lemma_cong_mod(sq1, mi);
    lemma_mod_bound(s0 * x0i - s1 * x1i, mi);
    lemma_mod_bound(s0 * x1i + s1 * x0i, mi);
    lemma_cong_mod(s0 * x0i - s1 * x1i, mi);
    lemma_cong_mod(s0 * x1i + s1 * x0i, mi);
    lemma_cong_mul(s0, sq0, x0i, x0i, mi);
    lemma_cong_mul(s1, sq1, x1i, x1i, mi);
    lemma_cong_mul(s0, sq0, x1i, x1i, mi);
    lemma_cong_mul(s1, sq1, x0i, x0i, mi);
    lemma_cong_add(s0 * x0i, sq0 * x0i, s1 * x1i, sq1 * x1i, mi);
    lemma_cong_add(s0 * x1i, sq0 * x1i, s1 * x0i, sq1 * x0i, mi);
    assert(sq0 * x0i - sq1 * x1i == x0i * x0i * x0i - 3 * x0i * x1i * x1i) by (nonlinear_arith)
        requires
            sq0 == x0i * x0i - x1i * x1i,
            sq1 == x0i * x1i + x1i * x0i,
    ;
    assert(sq0 * x1i + sq1 * x0i == 3 * x0i * x0i * x1i - x1i * x1i * x1i) by (nonlinear_arith)
        requires
            sq0 == x0i * x0i - x1i * x1i,
            sq1 == x0i * x1i + x1i * x0i,
    ;
}

/// The `x` that 64 compressed bytes carry: the value of the first 32 bytes
/// without its two low bits, and the value of the last 32.
pub open spec fn g2_x(compressed: Seq<u8>) -> (nat, nat) {
    (be_value(compressed.subrange(0, 32)) / 4, be_value(compressed.subrange(32, 64)))
}

/// The right side `x^3 + b` of the twisted curve's equation.
pub open spec fn twist_rhs(x: (nat, nat)) -> (nat, nat) {
    let m = bn254_modulus();
    let x3 = fq2_mul(fq2_mul(x, x, m), x, m);
    ((x3.0 + twist_b().0) % m, (x3.1 + twist_b().1) % m)
}

/// The real part of `x^3 + b` as the decompression writes it.
#[verifier::rlimit(40)]
proof fn lemma_g2_rhs_real(x0: nat, x1: nat)
    ensures
        ({
            let m = bn254_modulus();
            let n3ab = ((x0 * x1) * ((m - 3) as nat)) % m;
            let a_3 = ((x0 * x0) * x0) % m;
            ((be_value(fraction_27_82_bytes()) + a_3) + ((n3ab * x1) % m)) % m
        }) == twist_rhs((x0, x1)).0,
{
    lemma_modulus_three_mod_four();
    let m = bn254_modulus();
    let mi = m as int;
    let rhs = twist_rhs((x0, x1));
    let (x0i, x1i) = (x0 as int, x1 as int);
    let b27 = be_value(fraction_27_82_bytes()) as int;
    let n3ab = ((x0 * x1) * ((m - 3) as nat)) % m;
    let a_3 = ((x0 * x0) * x0) % m;
    let y0 = ((be_value(fraction_27_82_bytes()) + a_3) + ((n3ab * x1) % m)) % m;
    let x3 = fq2_mul(fq2_mul((x0, x1), (x0, x1), m), (x0, x1), m);
    lemma_fq2_cube(x0, x1, m);
    let k = x0i * x1i;
    lemma_cong_mod(k * (mi - 3), mi);
    assert(k * (mi - 3) == mi * k + (-3 * k)) by (nonlinear_arith);
    lemma_mod_multiples_vanish(k, -3 * k, mi);
    assert(cong(n3ab as int, -3 * k, mi));
    lemma_cong_mul(n3ab as int, -3 * k, x1i, x1i, mi);
    lemma_cong_mod(n3ab * x1i, mi);
    lemma_cong_mod(x0i * x0i * x0i, mi);
    lemma_cong_add(b27, b27, a_3 as int, x0i * x0i * x0i, mi);
    lemma_cong_add(b27 + a_3, b27 + x0i * x0i * x0i, ((n3ab * x1) % m) as int, -3 * k * x1i, mi);
    lemma_cong_mod(b27 + a_3 + ((n3ab * x1) % m), mi);
    assert(cong(((n3ab * x1) % m) as int, -3 * k * x1i, mi));
    assert(cong(a_3 as int, x0i * x0i * x0i, mi));
    assert(cong(b27 + a_3 + ((n3ab * x1) % m), b27 + x0i * x0i * x0i + -3 * k * x1i, mi));
    assert(cong(y0 as int, b27 + a_3 + ((n3ab * x1) % m), mi));
    assert(b27 + x0i * x0i * x0i + -3 * k * x1i == x0i * x0i * x0i - 3 * x0i * x1i * x1i + b27)
        by (nonlinear_arith)
        requires
            k == x0i * x1i,
    ;
    assert(cong(y0 as int, x0i * x0i * x0i - 3 * x0i * x1i * x1i + b27, mi));
    lemma_cong_add(x3.0 as int, x0i * x0i * x0i - 3 * x0i * x1i * x1i, b27, b27, mi);
    lemma_cong_mod(x3.0 + b27, mi);
    lemma_mod_pos_bound(x3.0 + b27, mi);
    lemma_mod_pos_bound(b27 + a_3 + ((n3ab * x1) % m), mi);
    lemma_small_mod(y0, m);
    lemma_small_mod(rhs.0, m);
}

/// The imaginary part of `x^3 + b` as the decompression writes it.
#[verifier::rlimit(80)]
proof fn lemma_g2_rhs_imag(x0: nat, x1: nat)
    ensures
        ({
            let m = bn254_modulus();
            let n3ab = ((x0 * x1) * ((m - 3) as nat)) % m;
            let b_3 = ((x1 * x1) * x1) % m;
            fp_negate(((be_value(fraction_3_82_bytes()) + b_3) + (n3ab * x0)) % m, m)
        }) == twist_rhs((x0, x1)).1,
{
    lemma_modulus_three_mod_four();
    lemma_modulus_value();
    lemma_fraction_3_82_value();
    let m = bn254_modulus();
    let mi = m as int;
    let rhs = twist_rhs((x0, x1));
    let (x0i, x1i) = (x0 as int, x1 as int);
    let b3 = be_value(fraction_3_82_bytes());
    let n3ab = ((x0 * x1) * ((m - 3) as nat)) % m;
    let b_3 = ((x1 * x1) * x1) % m;
    let q = ((b3 + b_3) + (n3ab * x0)) % m;
    let y1 = fp_negate(q, m);
    let x3 = fq2_mul(fq2_mul((x0, x1), (x0, x1), m), (x0, x1), m);
    lemma_fq2_cube(x0, x1, m);
    let k = x0i * x1i;
    lemma_cong_mod(k * (mi - 3), mi);
    assert(k * (mi - 3) == mi * k + (-3 * k)) by (nonlinear_arith);
    lemma_mod_multiples_vanish(k, -3 * k, mi);
    assert(cong(n3ab as int, -3 * k, mi));
    lemma_cong_mul(n3ab as int, -3 * k, x0i, x0i, mi);
    lemma_cong_mod(x1i * x1i * x1i, mi);
    lemma_cong_add(b3 as int, b3 as int, b_3 as int, x1i * x1i * x1i, mi);
    lemma_cong_add((b3 + b_3) as int, b3 + x1i * x1i * x1i, n3ab * x0i, -3 * k * x0i, mi);
    lemma_cong_mod((b3 + b_3 + n3ab * x0) as int, mi);
    lemma_mod_pos_bound((b3 + b_3 + n3ab * x0) as int, mi);
    lemma_cong_negate(q, m);
    lemma_cong_add(0, 0, q as int, b3 + x1i * x1i * x1i + -3 * k * x0i, mi);
    assert(cong((n3ab * x0) as int, -3 * k * x0i, mi));
    assert(cong(b_3 as int, x1i * x1i * x1i, mi));
    assert(cong(q as int, b3 + x1i * x1i * x1i + -3 * k * x0i, mi));
    assert(cong(0 - q, 0 - (b3 + x1i * x1i * x1i + -3 * k * x0i), mi));
    assert(cong(y1 as int, -(q as int), mi));
    assert(0 - (b3 + x1i * x1i * x1i + -3 * k * x0i) == 3 * x0i * x0i * x1i - x1i * x1i * x1i - b3)
        by (nonlinear_arith)
        requires
            k == x0i * x1i,
    ;
    assert(cong(y1 as int, 3 * x0i * x0i * x1i - x1i * x1i * x1i - b3, mi));
    lemma_cong_negate(b3, m);
    lemma_cong_add(
        x3.1 as int,
        3 * x0i * x0i * x1i - x1i * x1i * x1i,
        twist_b().1 as int,
        -(b3 as int),
        mi,
    );
    lemma_cong_mod((x3.1 + twist_b().1) as int, mi);
    lemma_mod_pos_bound((x3.1 + twist_b().1) as int, mi);
    lemma_mod_pos_bound(mi - q, mi);
    lemma_small_mod(y1, m);
    lemma_small_mod(rhs.1, m);
}

/// Law (decompressed points lie on the twisted curve): with Fermat's theorem
/// for the modulus (it is prime), the point decompressed from 64 bytes has
/// the `x` that the bytes carry, and `y^2 = x^3 + b` whenever the norm of
/// `x^3 + b` is a square and the root hint (bit 1 of the first 32 bytes)
/// fits `x^3 + b`, as a compressor sets it; the real part of `y` is itself a
/// square when bit 0 is clear, and its negation is when bit 0 is set.
pub proof fn lemma_g2_point_on_twist(compressed: Seq<u8>)
    requires
        compressed.len() == 64,
        fermat_holds(bn254_modulus()),
        ({
            let rhs = twist_rhs(g2_x(compressed));
            let m = bn254_modulus();
            &&& is_square_mod(((rhs.0 * rhs.0) + (rhs.1 * rhs.1)) % m, m)
            &&& hint_fits(rhs.0, rhs.1, (be_value(compressed.subrange(0, 32)) / 2) % 2 == 1, m)
        }),
    ensures
        (g2_point(compressed).0, g2_point(compressed).1) == g2_x(compressed),
        fq2_mul(
            (g2_point(compressed).2, g2_point(compressed).3),
            (g2_point(compressed).2, g2_point(compressed).3),
            bn254_modulus(),
        ) == twist_rhs(g2_x(compressed)),
        be_value(compressed.subrange(0, 32)) % 2 == 0 ==> is_square_mod(
            g2_point(compressed).2,
            bn254_modulus(),
        ),
        be_value(compressed.subrange(0, 32)) % 2 == 1 ==> is_square_mod(
            fp_negate(g2_point(compressed).2, bn254_modulus()),
            bn254_modulus(),
        ),
{
    reveal_with_fuel(power, 3);
    lemma_modulus_three_mod_four();
    let m = bn254_modulus();
    let mi = m as int;
    let cx0 = be_value(compressed.subrange(0, 32));
    let x0 = cx0 / 4;
    let x1 = be_value(compressed.subrange(32, 64));
    assert(nat_shr(cx0, 2) == x0);
    let rhs = twist_rhs((x0, x1));
    lemma_g2_rhs_real(x0, x1);
    lemma_g2_rhs_imag(x0, x1);
    let (y0, y1) = rhs;
    lemma_bitand_two(cx0);
    lemma_bitand_one(cx0);
    let hint = nat_bitand(cx0, 2) == 2;
    assert(hint == ((cx0 / 2) % 2 == 1));
    lemma_mod_pos_bound((fq2_mul(fq2_mul((x0, x1), (x0, x1), m), (x0, x1), m).0 + twist_b().0) as int, mi);
    lemma_mod_pos_bound((fq2_mul(fq2_mul((x0, x1), (x0, x1), m), (x0, x1), m).1 + twist_b().1) as int, mi);
    lemma_fp2_sqrt_is_root(y0, y1, hint, m);
    let (r0, r1) = fp2_sqrt(y0, y1, hint, m);
    assert(g2_point(compressed).0 == x0 && g2_point(compressed).1 == x1);
    let d0 = fp_sqrt(((y0 * y0) + (y1 * y1)) % m, m);
    let d = if hint {
        fp_negate(d0, m)
    } else {
        d0
    };
    let h = ((y0 + d) * ((m + 1) / 2)) % m;
    assert(nat_shr(m + 1, 1) == (m + 1) / 2);
    assert(r0 == fp_sqrt(h, m));
    lemma_fp_sqrt_is_square(h, m);
    lemma_mod_pos_bound(power(h, nat_shr(m + 1, 2)) as int, mi);
    if nat_bitand(cx0, 1) == 1 {
        lemma_mod_pos_bound(r1 as int, mi);
        lemma_fq2_negate_square(r0, r1, m);
        lemma_negate_twice(r0, m);
    }
}

} // verus!
