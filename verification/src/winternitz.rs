use vstd::prelude::*;

use crate::digits::{
    digits_le, digits_value, is_log_base_ceil, lemma_digits_value, lemma_power_monotonic,
    lemma_power_positive, log_base_ceil, power, to_digits,
};
use crate::hashes::{bytes_equal, hash160_chain, hash_chain, lemma_hash_chain_adds};

verus! {

/// One element of a public key: a 20-byte HASH160 digest.
pub type HashOut = [u8; 20];

/// A public key: one digest per signed digit.
pub type PublicKey = Vec<HashOut>;

/// A secret key: arbitrary bytes.
pub type SecretKey = Vec<u8>;

/// Parameters of the one-time signature scheme.
///
/// Each of the `n0` message digits lies in `0..=d`, with `d = 2^log_d - 1`;
/// `n1` checksum digits in base `d + 1` follow them, `n = n0 + n1` in all.
#[derive(Clone, Copy, Debug, PartialEq, Eq, Hash)]
pub struct Parameters {
    n0: u32,
    log_d: u32,
    n1: u32,
    d: u32,
    n: u32,
}

/// The signature of one digit: the bytes of an element of a hash chain.
pub struct DigitSignature {
    pub hash_bytes: Vec<u8>,
}

impl Parameters {
    /// What every value of `Parameters` satisfies.
    #[verifier::type_invariant]
    pub closed spec fn valid(self) -> bool {
        &&& 4 <= self.log_d <= 8
        &&& self.d == max_digit(self.log_d as nat)
        &&& self.d * self.n0 <= u32::MAX
        &&& self.n1 >= 1
        &&& is_log_base_ceil((self.n1 - 1) as nat, (self.d * self.n0) as nat, (self.d + 1) as nat)
        &&& self.n == self.n0 + self.n1
    }

    /// Number of message digits.
    pub closed spec fn spec_n0(self) -> nat {
        self.n0 as nat
    }

    /// Bits per message digit.
    pub closed spec fn spec_log_d(self) -> nat {
        self.log_d as nat
    }

    /// Number of checksum digits.
    pub closed spec fn spec_n1(self) -> nat {
        self.n1 as nat
    }

    /// Largest digit value.
    pub closed spec fn spec_d(self) -> nat {
        self.d as nat
    }

    /// Number of signed digits in all.
    pub closed spec fn spec_n(self) -> nat {
        self.n as nat
    }

    /// Parameters for `n0` message digits of `log_d` bits each.
    pub fn new(n0: u32, log_d: u32) -> (ps: Self)
        requires
            4 <= log_d <= 8,
            max_digit(log_d as nat) * n0 <= u32::MAX,
        ensures
            ps.spec_n0() == n0,
            ps.spec_log_d() == log_d,
            ps.spec_d() == max_digit(log_d as nat),
            ps.spec_n1() >= 1,
            is_log_base_ceil((ps.spec_n1() - 1) as nat, ps.spec_d() * ps.spec_n0(), ps.spec_d() + 1),
            ps.spec_n() == ps.spec_n0() + ps.spec_n1(),
    {
        proof {
            lemma_shift_is_power(log_d);
        }
        let d: u32 = (1u32 << log_d) - 1;
        let product: u32 = d * n0;
        let k = log_base_ceil(product, d + 1);
        proof {
            lemma_log_base_ceil_small(k as nat, product as nat, (d + 1) as nat);
        }
        let n1: u32 = k + 1;
        assert(n0 <= 286331153) by (nonlinear_arith)
            requires
                d >= 15,
                d * n0 <= u32::MAX,
        ;
        let n: u32 = n0 + n1;
        Parameters { n0, log_d, n1, d, n }
    }
}

/// The largest digit of `log_d` bits, `2^log_d - 1`, for the widths from 4
/// to 8 that parameters allow.
pub open spec fn max_digit(log_d: nat) -> nat {
    if log_d == 4 {
        15
    } else if log_d == 5 {
        31
    } else if log_d == 6 {
        63
    } else if log_d == 7 {
        127
    } else {
        255
    }
}

/// `(1 << log_d) - 1` is the largest digit, and `2^log_d - 1`.
proof fn lemma_shift_is_power(log_d: u32)
    requires
        4 <= log_d <= 8,
    ensures
        (1u32 << log_d) as nat == max_digit(log_d as nat) + 1,
        max_digit(log_d as nat) == power(2, log_d as nat) - 1,
        15 <= max_digit(log_d as nat) <= 255,
{
    reveal_with_fuel(power, 9);
    if log_d == 4 {
        assert((1u32 << 4u32) == 16u32) by (bit_vector);
    } else if log_d == 5 {
        assert((1u32 << 5u32) == 32u32) by (bit_vector);
    } else if log_d == 6 {
        assert((1u32 << 6u32) == 64u32) by (bit_vector);
    } else if log_d == 7 {
        assert((1u32 << 7u32) == 128u32) by (bit_vector);
    } else {
        assert((1u32 << 8u32) == 256u32) by (bit_vector);
    }
}

/// With a base of at least 16, no number below `2^32` needs more than 8 digits.
proof fn lemma_log_base_ceil_small(k: nat, n: nat, base: nat)
    requires
        16 <= base,
        n <= u32::MAX,
        is_log_base_ceil(k, n, base),
    ensures
        k <= 8,
{
    if k > 8 {
        lemma_power_monotonic(base, 8, (k - 1) as nat);
        lemma_power_base_monotonic(16, base, 8);
        reveal_with_fuel(power, 9);
        assert(power(16, 8) == 4294967296);
    }
}

proof fn lemma_power_base_monotonic(b1: nat, b2: nat, e: nat)
    requires
        1 <= b1 <= b2,
    ensures
        power(b1, e) <= power(b2, e),
    decreases e,
{
    if e > 0 {
        lemma_power_base_monotonic(b1, b2, (e - 1) as nat);
        let p1 = power(b1, (e - 1) as nat);
        let p2 = power(b2, (e - 1) as nat);
        assert(b1 * p1 <= b2 * p2) by (nonlinear_arith)
            requires
                1 <= b1 <= b2,
                p1 <= p2,
                0 <= p1,
        ;
    }
}

/// Sum of a sequence of digits.
pub open spec fn digit_sum(digits: Seq<u8>) -> nat
    decreases digits.len(),
{
    if digits.len() == 0 {
        0
    } else {
        digit_sum(digits.drop_last()) + digits.last() as nat
    }
}

/// The bytes at the start of the hash chain of digit `index`: the secret key
/// followed by the low byte of the index.
pub open spec fn digit_secret(secret_key: Seq<u8>, index: u32) -> Seq<u8> {
    secret_key.push(index as u8)
}

/// A public key as byte strings.
pub open spec fn key_view(key: Seq<HashOut>) -> Seq<Seq<u8>> {
    key.map_values(|h: HashOut| h@)
}

/// A signature as byte strings.
pub open spec fn signature_view(signature: Seq<Vec<u8>>) -> Seq<Seq<u8>> {
    signature.map_values(|v: Vec<u8>| v@)
}

/// The digit that position `k` of a signature signs: the message digits
/// first, then the checksum digits.
pub open spec fn signed_digit(message: Seq<u8>, checksum: Seq<u8>, k: int) -> u8 {
    if k < message.len() {
        message[k]
    } else {
        checksum[k - message.len()]
    }
}

/// The check that verification makes at position `k`: the signature element,
/// hashed `d - digit` more times, gives the public key element; for the digit
/// 255 the two are compared as they are.
pub open spec fn position_verifies(
    key: Seq<Seq<u8>>,
    signature: Seq<Seq<u8>>,
    digit: u8,
    d: nat,
    k: int,
) -> bool {
    if digit == 255 {
        signature[k] == key[k]
    } else {
        hash_chain(signature[k], (d - digit) as nat) == key[k]
    }
}

/// Position `k` can be checked: both entries exist, and the digit is 255 or
/// below `d`.
pub open spec fn position_checkable(key_len: nat, signature_len: nat, digit: u8, d: nat, k: int) -> bool {
    &&& 0 <= k
    &&& k < key_len
    &&& k < signature_len
    &&& (digit == 255 || digit < d)
}

impl Parameters {
    /// The value of the checksum of `digits`.
    pub open spec fn checksum_value(self, digits: Seq<u8>) -> nat {
        (self.spec_d() * self.spec_n0() - digit_sum(digits)) as nat
    }

    /// The checksum of `digits` as `n1` digits in base `d + 1`, least
    /// significant first.
    pub open spec fn checksum_digits(self, digits: Seq<u8>) -> Seq<u8> {
        digits_le(self.checksum_value(digits), self.spec_d() + 1, self.spec_n1())
    }

    /// The public key of `secret_key`: element `k` is the start of chain `k`
    /// hashed `d + 1` times.
    pub open spec fn public_key_of(self, secret_key: Seq<u8>) -> Seq<Seq<u8>> {
        Seq::new(
            self.spec_n(),
            |k: int| hash_chain(digit_secret(secret_key, k as u32), self.spec_d() + 1),
        )
    }

    /// The signature of `digits`: element `k < n0` is chain `k` hashed
    /// `digits[k] + 1` times; element `n0 + i` is chain `i + len` (with `len`
    /// the number of digits) hashed once more than checksum digit `i`.
    pub open spec fn signature_of(self, secret_key: Seq<u8>, digits: Seq<u8>) -> Seq<Seq<u8>> {
        let checksum = self.checksum_digits(digits);
        Seq::new(
            self.spec_n0() + self.spec_n1(),
            |k: int|
                if k < self.spec_n0() {
                    hash_chain(digit_secret(secret_key, k as u32), digits[k] as nat + 1)
                } else {
                    hash_chain(
                        digit_secret(
                            secret_key,
                            (k - self.spec_n0() + (digits.len() as u32) as int) as u32,
                        ),
                        checksum[k - self.spec_n0()] as nat + 1,
                    )
                },
        )
    }

    /// Number of positions that verification of `message` checks.
    pub open spec fn positions(self, message: Seq<u8>) -> nat {
        message.len() + self.spec_n1()
    }

    /// The positions below `k` all pass their check.
    pub open spec fn verifies_below(
        self,
        key: Seq<Seq<u8>>,
        signature: Seq<Seq<u8>>,
        message: Seq<u8>,
        k: int,
    ) -> bool {
        forall|j: int|
            0 <= j < k ==> #[trigger] position_verifies(
                key,
                signature,
                signed_digit(message, self.checksum_digits(message), j),
                self.spec_d(),
                j,
            )
    }

    /// Verification runs to its end without a failed index or subtraction:
    /// every position that is reached, because all before it passed, can be
    /// checked.
    pub open spec fn verification_defined(
        self,
        key: Seq<Seq<u8>>,
        signature: Seq<Seq<u8>>,
        message: Seq<u8>,
    ) -> bool {
        &&& digit_sum(message) <= self.spec_d() * self.spec_n0()
        &&& forall|k: int|
            0 <= k < self.positions(message) && #[trigger] self.verifies_below(
                key,
                signature,
                message,
                k,
            ) ==> position_checkable(
                key.len(),
                signature.len(),
                signed_digit(message, self.checksum_digits(message), k),
                self.spec_d(),
                k,
            )
    }

    /// The answer of verification: every position passes.
    pub open spec fn verifies(self, key: Seq<Seq<u8>>, signature: Seq<Seq<u8>>, message: Seq<u8>) -> bool {
        self.verifies_below(key, signature, message, self.positions(message) as int)
    }
}

proof fn lemma_digit_sum_prefix(digits: Seq<u8>, i: int)
    requires
        0 <= i <= digits.len(),
    ensures
        digit_sum(digits.take(i)) <= digit_sum(digits),
    decreases digits.len(),
{
    if i < digits.len() {
        lemma_digit_sum_prefix(digits.drop_last(), i);
        assert(digits.drop_last().take(i) =~= digits.take(i));
    } else {
        assert(digits.take(i) =~= digits);
    }
}

/// The hash chain of digit `digit_index`, hashed `d + 1` times.
fn public_key_for_digit(ps: &Parameters, secret_key: &SecretKey, digit_index: u32) -> (hash: HashOut)
    ensures
        hash@ == hash_chain(digit_secret(secret_key@, digit_index), ps.spec_d() + 1),
{
    let mut secret_i = secret_key.clone();
    proof {
        assert(secret_i@ =~= secret_key@);
    }
    secret_i.push(digit_index as u8);
    hash160_chain(secret_i.as_slice(), ps.d)
}

/// The signature of one digit: the hash chain of `digit_index`, hashed
/// `message_digit + 1` times.
pub fn digit_signature(secret_key: &SecretKey, digit_index: u32, message_digit: u8) -> (sig: DigitSignature)
    ensures
        sig.hash_bytes@ == hash_chain(digit_secret(secret_key@, digit_index), message_digit as nat + 1),
        sig.hash_bytes@.len() == 20,
{
    let mut secret_i = secret_key.clone();
    proof {
        assert(secret_i@ =~= secret_key@);
    }
    secret_i.push(digit_index as u8);
    let hash = hash160_chain(secret_i.as_slice(), message_digit as u32);
    let hash_bytes = vstd::slice::slice_to_vec(hash.as_slice());
    DigitSignature { hash_bytes }
}

/// The public key of `secret_key`: one chain end for each of the `n` digits.
pub fn generate_public_key(ps: &Parameters, secret_key: &SecretKey) -> (public_key: PublicKey)
    ensures
        key_view(public_key@) == ps.public_key_of(secret_key@),
{
    let mut public_key: PublicKey = Vec::with_capacity(ps.n as usize);
    let mut i: u32 = 0;
    while i < ps.n
        invariant
            i <= ps.n,
            public_key@.len() == i,
            forall|k: int|
                0 <= k < i ==> (#[trigger] public_key@[k])@ == hash_chain(
                    digit_secret(secret_key@, k as u32),
                    ps.spec_d() + 1,
                ),
        decreases ps.n - i,
    {
        let hash = public_key_for_digit(ps, secret_key, i);
        public_key.push(hash);
        i = i + 1;
    }
    proof {
        assert(key_view(public_key@) =~= ps.public_key_of(secret_key@));
    }
    public_key
}

/// The checksum: `d * n0` less the sum of the digits.
fn checksum(ps: &Parameters, digits: Vec<u8>) -> (sum: u32)
    requires
        digit_sum(digits@) <= ps.spec_d() * ps.spec_n0(),
    ensures
        sum == ps.checksum_value(digits@),
{
    proof {
        use_type_invariant(ps);
    }
    let mut sum: u32 = 0;
    let mut i: usize = 0;
    while i < digits.len()
        invariant
            i <= digits@.len(),
            sum == digit_sum(digits@.take(i as int)),
            digit_sum(digits@) <= ps.spec_d() * ps.spec_n0(),
            ps.spec_d() * ps.spec_n0() <= u32::MAX,
        decreases digits@.len() - i,
    {
        proof {
            lemma_digit_sum_prefix(digits@, i + 1);
            assert(digits@.take(i + 1).drop_last() =~= digits@.take(i as int));
        }
        sum = sum + digits[i] as u32;
        i = i + 1;
    }
    proof {
        assert(digits@.take(i as int) =~= digits@);
    }
    ps.d * ps.n0 - sum
}

/// The checksum digits of `digits`.
fn add_message_checksum(ps: &Parameters, digits: &Vec<u8>) -> (checksum_digits: Vec<u8>)
    requires
        digit_sum(digits@) <= ps.spec_d() * ps.spec_n0(),
    ensures
        checksum_digits@ == ps.checksum_digits(digits@),
{
    proof {
        use_type_invariant(ps);
        lemma_shift_bounds(ps);
    }
    let copy = digits.clone();
    proof {
        assert(copy@ =~= digits@);
    }
    to_digits(checksum(ps, copy), ps.d + 1, ps.n1)
}

proof fn lemma_shift_bounds(ps: &Parameters)
    requires
        ps.valid(),
    ensures
        15 <= ps.spec_d() <= 255,
{
    lemma_shift_is_power(ps.log_d);
}

/// Signs the first `n0` digits and the checksum digits of `digits`.
pub fn sign_digits(ps: &Parameters, secret_key: &SecretKey, digits: &Vec<u8>) -> (signature: Vec<Vec<u8>>)
    requires
        digits@.len() >= ps.spec_n0(),
        digit_sum(digits@) <= ps.spec_d() * ps.spec_n0(),
        (digits@.len() as u32) + ps.spec_n1() <= u32::MAX + 1,
    ensures
        signature_view(signature@) == ps.signature_of(secret_key@, digits@),
        signature@.len() == ps.spec_n(),
        forall|k: int| 0 <= k < signature@.len() ==> (#[trigger] signature@[k])@.len() == 20,
{
    proof {
        use_type_invariant(ps);
    }
    let cheksum1 = add_message_checksum(ps, digits);
    let mut result: Vec<Vec<u8>> = Vec::with_capacity(ps.n as usize);
    let ghost target = ps.signature_of(secret_key@, digits@);
    let mut i: u32 = 0;
    while i < ps.n0
        invariant
            i <= ps.n0,
            ps.n0 <= digits@.len(),
            result@.len() == i,
            target == ps.signature_of(secret_key@, digits@),
            target.len() == ps.spec_n0() + ps.spec_n1(),
            forall|k: int| 0 <= k < i ==> (#[trigger] result@[k])@ == target[k],
            forall|k: int| 0 <= k < i ==> (#[trigger] result@[k])@.len() == 20,
        decreases ps.n0 - i,
    {
        let sig = digit_signature(secret_key, i, digits[i as usize]);
        result.push(sig.hash_bytes);
        i = i + 1;
    }
    let mut i: u32 = 0;
    while i < ps.n1
        invariant
            i <= ps.n1,
            cheksum1@ == ps.checksum_digits(digits@),
            cheksum1@.len() == ps.spec_n1(),
            (digits@.len() as u32) + ps.spec_n1() <= u32::MAX + 1,
            result@.len() == ps.spec_n0() + i,
            target == ps.signature_of(secret_key@, digits@),
            target.len() == ps.spec_n0() + ps.spec_n1(),
            forall|k: int| 0 <= k < ps.spec_n0() + i ==> (#[trigger] result@[k])@ == target[k],
            forall|k: int| 0 <= k < ps.spec_n0() + i ==> (#[trigger] result@[k])@.len() == 20,
        decreases ps.n1 - i,
    {
        let sig = digit_signature(secret_key, i + digits.len() as u32, cheksum1[i as usize]);
        result.push(sig.hash_bytes);
        i = i + 1;
    }
    proof {
        assert(signature_view(result@) =~= target);
    }
    result
}

/// The check at position `k`.
fn check_position(
    public_key: &PublicKey,
    signature: &Vec<Vec<u8>>,
    digit: u8,
    d: u32,
    k: usize,
) -> (passes: bool)
    requires
        position_checkable(public_key@.len(), signature@.len(), digit, d as nat, k as int),
    ensures
        passes == position_verifies(key_view(public_key@), signature_view(signature@), digit, d as nat, k as int),
{
    if digit == 255 {
        bytes_equal(signature[k].as_slice(), public_key[k].as_slice())
    } else {
        let hash_bytes = hash160_chain(signature[k].as_slice(), d - digit as u32 - 1);
        bytes_equal(hash_bytes.as_slice(), public_key[k].as_slice())
    }
}

/// Checks a signature of `message` against `public_key`: each signed digit's
/// element, hashed up to the end of its chain, must give the key's element.
/// The answer is always `Ok`.
pub fn verify_signature(
    public_key: &PublicKey,
    signature: &Vec<Vec<u8>>,
    message: Vec<u8>,
    ps: &Parameters,
) -> (result: Result<bool, String>)
    requires
        ps.verification_defined(key_view(public_key@), signature_view(signature@), message@),
    ensures
        result == Ok::<bool, String>(
            ps.verifies(key_view(public_key@), signature_view(signature@), message@),
        ),
{
    let ghost key = key_view(public_key@);
    let ghost sig = signature_view(signature@);
    let checksum = add_message_checksum(ps, &message);
    let mut i: usize = 0;
    while i < message.len()
        invariant
            i <= message@.len(),
            key == key_view(public_key@),
            sig == signature_view(signature@),
            checksum@ == ps.checksum_digits(message@),
            ps.verification_defined(key, sig, message@),
            ps.verifies_below(key, sig, message@, i as int),
        decreases message@.len() - i,
    {
        let digit = message[i];
        assert(ps.verifies_below(key, sig, message@, i as int));
        assert(position_checkable(
            key.len(),
            sig.len(),
            signed_digit(message@, checksum@, i as int),
            ps.spec_d(),
            i as int,
        ));
        if !check_position(public_key, signature, digit, ps.d, i) {
            assert(!position_verifies(key, sig, signed_digit(message@, checksum@, i as int), ps.spec_d(), i as int));
            return Ok(false);
        }
        i = i + 1;
    }
    let mut i: u32 = 0;
    while i < ps.n1
        invariant
            i <= ps.n1,
            key == key_view(public_key@),
            sig == signature_view(signature@),
            checksum@ == ps.checksum_digits(message@),
            checksum@.len() == ps.spec_n1(),
            ps.verification_defined(key, sig, message@),
            ps.verifies_below(key, sig, message@, message@.len() + i),
        decreases ps.n1 - i,
    {
        let digit = checksum[i as usize];
        let ghost k = message@.len() + i;
        assert(ps.verifies_below(key, sig, message@, k));
        assert(position_checkable(
            key.len(),
            sig.len(),
            signed_digit(message@, checksum@, k),
            ps.spec_d(),
            k,
        ));
        let key_len = public_key.len();
        assert(k < key_len);
        let ind = message.len() + i as usize;
        if !check_position(public_key, signature, digit, ps.d, ind) {
            assert(!position_verifies(key, sig, signed_digit(message@, checksum@, k), ps.spec_d(), k));
            return Ok(false);
        }
        i = i + 1;
    }
    Ok(true)
}

/// A digit that verification handles as signing intends: below `d`, or 255
/// when `d` is 255 itself.
pub open spec fn digit_in_range(digit: u8, d: nat) -> bool {
    digit < d || (digit == 255 && d == 255)
}

proof fn lemma_digit_sum_bound(digits: Seq<u8>, d: nat)
    requires
        forall|i: int| 0 <= i < digits.len() ==> digits[i] <= d,
    ensures
        digit_sum(digits) <= digits.len() * d,
    decreases digits.len(),
{
    if digits.len() > 0 {
        let rest = digits.drop_last();
        lemma_digit_sum_bound(rest, d);
        let len = digits.len();
        assert(rest.len() * d + d == len * d) by (nonlinear_arith)
            requires
                rest.len() + 1 == len,
        ;
    }
}

/// Law (sign, then verify): the signature that `sign_digits` makes of a
/// message of `n0` digits verifies against the public key that
/// `generate_public_key` makes from the same secret key, whenever every
/// signed digit (message and checksum) is below `d`, or 255 with `d` = 255.
/// Both calls are also defined on these inputs: the digit sum stays within
/// `d * n0`, and no position fails an index or a subtraction.
pub proof fn lemma_signature_verifies(ps: Parameters, secret_key: Seq<u8>, message: Seq<u8>)
    requires
        ps.valid(),
        message.len() == ps.spec_n0(),
        forall|k: int|
            0 <= k < ps.positions(message) ==> digit_in_range(
                #[trigger] signed_digit(message, ps.checksum_digits(message), k),
                ps.spec_d(),
            ),
    ensures
        digit_sum(message) <= ps.spec_d() * ps.spec_n0(),
        (message.len() as u32) + ps.spec_n1() <= u32::MAX + 1,
        ps.verification_defined(
            ps.public_key_of(secret_key),
            ps.signature_of(secret_key, message),
            message,
        ),
        ps.verifies(ps.public_key_of(secret_key), ps.signature_of(secret_key, message), message),
{
    let d = ps.spec_d();
    lemma_shift_is_power(ps.log_d);
    let key = ps.public_key_of(secret_key);
    let sig = ps.signature_of(secret_key, message);
    let checksum = ps.checksum_digits(message);
    assert forall|i: int| 0 <= i < message.len() implies message[i] <= d by {
        assert(signed_digit(message, checksum, i) == message[i]);
    }
    lemma_digit_sum_bound(message, d);
    assert(message.len() * d == d * ps.spec_n0()) by (nonlinear_arith)
        requires
            message.len() == ps.spec_n0(),
    ;
    assert forall|k: int| 0 <= k < ps.positions(message) implies position_checkable(
        key.len(),
        sig.len(),
        #[trigger] signed_digit(message, checksum, k),
        d,
        k,
    ) && position_verifies(key, sig, signed_digit(message, checksum, k), d, k) by {
        let digit = signed_digit(message, checksum, k);
        assert(digit_in_range(digit, d));
        let start = digit_secret(secret_key, k as u32);
        if k >= ps.spec_n0() {
            assert((k - ps.spec_n0() + (message.len() as u32) as int) as u32 == k as u32);
        }
        assert(sig[k] == hash_chain(start, digit as nat + 1));
        assert(key[k] == hash_chain(start, d + 1));
        assert(key.len() == ps.spec_n0() + ps.spec_n1());
        assert(sig.len() == ps.spec_n0() + ps.spec_n1());
        assert(position_checkable(key.len(), sig.len(), digit, d, k));
        if digit != 255 {
            lemma_hash_chain_adds(start, digit as nat + 1, (d - digit) as nat);
            assert(hash_chain(sig[k], (d - digit) as nat) == key[k]);
        } else {
            assert(sig[k] == key[k]);
        }
        assert(position_verifies(key, sig, digit, d, k));
    }
    assert forall|k: int|
        0 <= k < ps.positions(message) && #[trigger] ps.verifies_below(key, sig, message, k)
        implies position_checkable(
        key.len(),
        sig.len(),
        signed_digit(message, checksum, k),
        d,
        k,
    ) by {
        assert(position_checkable(key.len(), sig.len(), signed_digit(message, checksum, k), d, k));
    }
}

/// Law (sign, then verify, with 8-bit digits): for `log_d` = 8 every byte is a
/// digit, and the signature of any message of `n0` bytes verifies against the
/// public key of the same secret key.
pub proof fn lemma_byte_signature_verifies(ps: Parameters, secret_key: Seq<u8>, message: Seq<u8>)
    requires
        ps.valid(),
        ps.spec_log_d() == 8,
        message.len() == ps.spec_n0(),
    ensures
        digit_sum(message) <= ps.spec_d() * ps.spec_n0(),
        (message.len() as u32) + ps.spec_n1() <= u32::MAX + 1,
        ps.verification_defined(
            ps.public_key_of(secret_key),
            ps.signature_of(secret_key, message),
            message,
        ),
        ps.verifies(ps.public_key_of(secret_key), ps.signature_of(secret_key, message), message),
{
    lemma_shift_is_power(ps.log_d);
    reveal_with_fuel(power, 9);
    assert(ps.spec_d() == 255);
    lemma_signature_verifies(ps, secret_key, message);
}

/// Law (the checksum fits): the `n1` checksum digits that `Parameters::new`
/// provides for are enough; read back in base `d + 1` they give the checksum
/// itself, for every message whose digit sum stays within `d * n0`.
pub proof fn lemma_checksum_fits(ps: Parameters, digits: Seq<u8>)
    requires
        ps.valid(),
        digit_sum(digits) <= ps.spec_d() * ps.spec_n0(),
    ensures
        digits_value(ps.checksum_digits(digits), ps.spec_d() + 1) == ps.checksum_value(digits),
{
    lemma_shift_is_power(ps.log_d);
    let base = ps.spec_d() + 1;
    let k = (ps.spec_n1() - 1) as nat;
    lemma_power_positive(base, k);
    assert(power(base, ps.spec_n1()) == base * power(base, k));
    assert(power(base, k) < base * power(base, k)) by (nonlinear_arith)
        requires
            base >= 2,
            power(base, k) >= 1,
    ;
    lemma_digits_value(ps.checksum_value(digits), base, ps.spec_n1());
}

/// Law (a digit's chain completes to the key): the signature of digit `m`
/// at index `k`, hashed `d - m` more times, is element `k` of the public key
/// of the same secret key, for every digit up to `d`.
pub proof fn lemma_digit_chain_completes(ps: Parameters, secret_key: Seq<u8>, k: u32, m: u8)
    requires
        ps.valid(),
        k < ps.spec_n(),
        m <= ps.spec_d(),
    ensures
        hash_chain(hash_chain(digit_secret(secret_key, k), m as nat + 1), (ps.spec_d() - m) as nat)
            == ps.public_key_of(secret_key)[k as int],
{
    lemma_hash_chain_adds(digit_secret(secret_key, k), m as nat + 1, (ps.spec_d() - m) as nat);
}

proof fn lemma_digit_sum_monotonic(smaller: Seq<u8>, larger: Seq<u8>)
    requires
        smaller.len() == larger.len(),
        forall|i: int| 0 <= i < smaller.len() ==> smaller[i] <= larger[i],
    ensures
        digit_sum(smaller) <= digit_sum(larger),
        (exists|i: int| 0 <= i < smaller.len() && smaller[i] < larger[i]) ==> digit_sum(smaller)
            < digit_sum(larger),
    decreases smaller.len(),
{
    if smaller.len() > 0 {
        let (s, l) = (smaller.drop_last(), larger.drop_last());
        lemma_digit_sum_monotonic(s, l);
        if exists|i: int| 0 <= i < smaller.len() && smaller[i] < larger[i] {
            let i = choose|i: int| 0 <= i < smaller.len() && smaller[i] < larger[i];
            if i < smaller.len() - 1 {
                assert(s[i] < l[i]);
            }
        }
    }
}

/// Law (the checksum guards the digits): raising message digits lowers the
/// checksum. If every digit of `larger` is at least the digit of `smaller` at
/// the same place, the checksum of `larger` is at most that of `smaller`, and
/// below it as soon as one digit is larger; so the checksum part of a
/// signature cannot be reused for a message with raised digits.
pub proof fn lemma_checksum_decreases(ps: Parameters, smaller: Seq<u8>, larger: Seq<u8>)
    requires
        smaller.len() == larger.len(),
        forall|i: int| 0 <= i < smaller.len() ==> smaller[i] <= larger[i],
        digit_sum(larger) <= ps.spec_d() * ps.spec_n0(),
    ensures
        ps.checksum_value(larger) <= ps.checksum_value(smaller),
        (exists|i: int| 0 <= i < smaller.len() && smaller[i] < larger[i]) ==> ps.checksum_value(
            larger,
        ) < ps.checksum_value(smaller),
{
    lemma_digit_sum_monotonic(smaller, larger);
}

/// `b^k` leaves the remainder 1 when divided by `b - 1`.
proof fn lemma_power_mod_predecessor(b: nat, k: nat)
    requires
        b >= 3,
    ensures
        power(b, k) % ((b - 1) as nat) == 1,
    decreases k,
{
    let m = (b - 1) as nat;
    if k == 0 {
        vstd::arithmetic::div_mod::lemma_small_mod(1, m);
    } else {
        lemma_power_mod_predecessor(b, (k - 1) as nat);
        let p = power(b, (k - 1) as nat);
        assert(power(b, k) == b * p);
        assert(b * p == m * p + p) by (nonlinear_arith)
            requires
                m + 1 == b,
        ;
        vstd::arithmetic::div_mod::lemma_mod_multiples_vanish(p as int, p as int, m as int);
    }
}

/// Law (what parameters hold): every value of `Parameters` has `d = 2^log_d - 1`
/// with `log_d` from 4 to 8, so `15 <= d <= 255`; `n = n0 + n1` fits a `u32`;
/// and `n1 - 1` base-`(d + 1)` digits already exceed every checksum, strictly,
/// so a checksum always has `n1` digits whose top digit is 0.
pub proof fn lemma_parameters_facts(ps: Parameters)
    requires
        ps.valid(),
    ensures
        4 <= ps.spec_log_d() <= 8,
        ps.spec_d() == max_digit(ps.spec_log_d()),
        ps.spec_d() == power(2, ps.spec_log_d()) - 1,
        15 <= ps.spec_d() <= 255,
        ps.spec_d() * ps.spec_n0() <= u32::MAX,
        ps.spec_n1() >= 1,
        is_log_base_ceil((ps.spec_n1() - 1) as nat, ps.spec_d() * ps.spec_n0(), ps.spec_d() + 1),
        ps.spec_n() == ps.spec_n0() + ps.spec_n1(),
        ps.spec_n() <= u32::MAX,
        power(ps.spec_d() + 1, (ps.spec_n1() - 1) as nat) > ps.spec_d() * ps.spec_n0(),
        power(ps.spec_d() + 1, ps.spec_n1()) > ps.spec_d() * ps.spec_n0(),
{
    lemma_shift_is_power(ps.log_d);
    let d = ps.spec_d();
    let b = d + 1;
    let k = (ps.spec_n1() - 1) as nat;
    lemma_power_mod_predecessor(b, k);
    vstd::arithmetic::div_mod::lemma_mod_multiples_vanish(ps.spec_n0() as int, 0, d as int);
    assert(power(b, k) != d * ps.spec_n0());
    lemma_power_positive(b, k);
    assert(power(b, ps.spec_n1()) == b * power(b, k));
    assert(b * power(b, k) >= power(b, k)) by (nonlinear_arith)
        requires
            b >= 1,
    ;
}

/// Law (the largest digit signs as the key): the signature of the digit `d`
/// at index `k` is element `k` of the public key of the same secret key.
pub proof fn lemma_top_digit_signature_is_key(ps: Parameters, secret_key: Seq<u8>, k: u32)
    requires
        ps.valid(),
        k < ps.spec_n(),
    ensures
        ps.spec_d() <= 255,
        hash_chain(digit_secret(secret_key, k), (ps.spec_d() as u8) as nat + 1)
            == ps.public_key_of(secret_key)[k as int],
{
    lemma_shift_is_power(ps.log_d);
}

proof fn lemma_digit_sum_update(digits: Seq<u8>, i: int, v: u8)
    requires
        0 <= i < digits.len(),
    ensures
        digit_sum(digits.update(i, v)) + digits[i] == digit_sum(digits) + v,
    decreases digits.len(),
{
    let u = digits.update(i, v);
    if i < digits.len() - 1 {
        lemma_digit_sum_update(digits.drop_last(), i, v);
        assert(u.drop_last() =~= digits.drop_last().update(i, v));
    } else {
        assert(u.drop_last() =~= digits.drop_last());
    }
}

/// Law (the checksum falls by what a digit rises): raising digit `i` of a
/// message by `delta` lowers the checksum by exactly `delta`, as long as the
/// digit sum stays within `d * n0`.
pub proof fn lemma_checksum_exact_drop(ps: Parameters, digits: Seq<u8>, i: int, delta: u8)
    requires
        0 <= i < digits.len(),
        digits[i] + delta <= 255,
        digit_sum(digits) + delta <= ps.spec_d() * ps.spec_n0(),
    ensures
        ps.checksum_value(digits.update(i, (digits[i] + delta) as u8)) + delta
            == ps.checksum_value(digits),
{
    lemma_digit_sum_update(digits, i, (digits[i] + delta) as u8);
}

/// Within `bound` hashes, the chain from `start` never comes back to an
/// element it had: the elements hashed `a` and `b` times differ for
/// `a < b <= bound`.
pub open spec fn chain_acyclic(start: Seq<u8>, bound: nat) -> bool {
    forall|a: nat, b: nat|
        a < b <= bound ==> #[trigger] hash_chain(start, a) != #[trigger] hash_chain(start, b)
}

/// Every one of the first `count` digit chains of `secret_key` is acyclic
/// within `bound` hashes.
pub open spec fn chains_acyclic(secret_key: Seq<u8>, count: nat, bound: nat) -> bool {
    forall|k: int|
        0 <= k < count ==> #[trigger] chain_acyclic(digit_secret(secret_key, k as u32), bound)
}

/// With 8-bit digits, a position whose key element ends its chain fails its
/// check when the element was made for another digit than the one checked.
proof fn lemma_other_digit_fails(
    key: Seq<Seq<u8>>,
    signature: Seq<Seq<u8>>,
    start: Seq<u8>,
    k: int,
    signed: u8,
    checked: u8,
)
    requires
        0 <= k < key.len(),
        k < signature.len(),
        key[k] == hash_chain(start, 256),
        signature[k] == hash_chain(start, signed as nat + 1),
        signed != checked,
        chain_acyclic(start, 512),
    ensures
        !position_verifies(key, signature, checked, 255, k),
{
    if checked == 255 {
        assert(hash_chain(start, signed as nat + 1) != hash_chain(start, 256));
    } else {
        let steps = (255 - checked) as nat;
        lemma_hash_chain_adds(start, signed as nat + 1, steps);
        let total = signed as nat + 1 + steps;
        if total < 256 {
            assert(hash_chain(start, total) != hash_chain(start, 256));
        } else {
            assert(hash_chain(start, 256) != hash_chain(start, total));
        }
    }
}

/// Law (a signature binds its message): with 8-bit digits, the signature
/// that `sign_digits` makes of a message of `n0` digits does not verify for
/// any other message of `n0` digits against the key of the same secret key,
/// provided no digit chain of that key comes back to an earlier element within
/// 512 hashes. Verification of the other message is defined: it answers
/// `Ok(false)`.
pub proof fn lemma_signature_binds_message(
    ps: Parameters,
    secret_key: Seq<u8>,
    message: Seq<u8>,
    other: Seq<u8>,
)
    requires
        ps.valid(),
        ps.spec_log_d() == 8,
        message.len() == ps.spec_n0(),
        other.len() == ps.spec_n0(),
        other != message,
        chains_acyclic(secret_key, ps.spec_n(), 512),
    ensures
        ps.verification_defined(
            ps.public_key_of(secret_key),
            ps.signature_of(secret_key, message),
            other,
        ),
        !ps.verifies(ps.public_key_of(secret_key), ps.signature_of(secret_key, message), other),
{
    lemma_shift_is_power(ps.log_d);
    let key = ps.public_key_of(secret_key);
    let sig = ps.signature_of(secret_key, message);
    lemma_byte_digits_defined(ps, key, sig, other);
    let i = choose|i: int| 0 <= i < message.len() && message[i] != other[i];
    if !(exists|i: int| 0 <= i < message.len() && message[i] != other[i]) {
        assert(other =~= message);
    }
    let start = digit_secret(secret_key, i as u32);
    assert(chain_acyclic(digit_secret(secret_key, i as u32), 512));
    assert(signed_digit(other, ps.checksum_digits(other), i) == other[i]);
    lemma_other_digit_fails(key, sig, start, i, message[i], other[i]);
}

/// With 8-bit digits, verification of a message of `n0` digits is defined for
/// a key and a signature of `n` elements each.
proof fn lemma_byte_digits_defined(
    ps: Parameters,
    key: Seq<Seq<u8>>,
    signature: Seq<Seq<u8>>,
    message: Seq<u8>,
)
    requires
        ps.valid(),
        ps.spec_log_d() == 8,
        message.len() == ps.spec_n0(),
        key.len() == ps.spec_n(),
        signature.len() == ps.spec_n(),
    ensures
        ps.verification_defined(key, signature, message),
{
    lemma_shift_is_power(ps.log_d);
    lemma_digit_sum_bound(message, 255);
    assert(message.len() * 255 == 255 * ps.spec_n0()) by (nonlinear_arith)
        requires
            message.len() == ps.spec_n0(),
    ;
    let checksum = ps.checksum_digits(message);
    assert forall|k: int|
        0 <= k < ps.positions(message) && #[trigger] ps.verifies_below(key, signature, message, k)
        implies position_checkable(
        key.len(),
        signature.len(),
        signed_digit(message, checksum, k),
        ps.spec_d(),
        k,
    ) by {
        let digit = signed_digit(message, checksum, k);
        assert(digit == 255 || digit < 255);
    }
}

/// Law (the checksum stops raised digits): with 8-bit digits, raising some
/// digits of a signed message and hashing their signature elements forward
/// to match, while keeping the checksum part of the signature, gives a
/// signature that does not verify for the raised message, provided no digit
/// chain of the key comes back to an earlier element within 512 hashes.
pub proof fn lemma_raised_digits_rejected(
    ps: Parameters,
    secret_key: Seq<u8>,
    message: Seq<u8>,
    raised: Seq<u8>,
)
    requires
        ps.valid(),
        ps.spec_log_d() == 8,
        message.len() == ps.spec_n0(),
        raised.len() == ps.spec_n0(),
        forall|i: int| 0 <= i < message.len() ==> message[i] <= raised[i],
        raised != message,
        chains_acyclic(secret_key, ps.spec_n(), 512),
    ensures
        ps.verification_defined(
            ps.public_key_of(secret_key),
            forged_signature(ps.signature_of(secret_key, message), message, raised),
            raised,
        ),
        !ps.verifies(
            ps.public_key_of(secret_key),
            forged_signature(ps.signature_of(secret_key, message), message, raised),
            raised,
        ),
{
    lemma_shift_is_power(ps.log_d);
    let n0 = ps.spec_n0();
    let key = ps.public_key_of(secret_key);
    let sig = ps.signature_of(secret_key, message);
    let forged = forged_signature(sig, message, raised);
    lemma_byte_digits_defined(ps, key, forged, raised);
    lemma_byte_digits_defined(ps, key, sig, message);
    let i = choose|i: int| 0 <= i < message.len() && message[i] != raised[i];
    if !(exists|i: int| 0 <= i < message.len() && message[i] != raised[i]) {
        assert(raised =~= message);
    }
    assert(message[i] < raised[i]);
    lemma_checksum_decreases(ps, message, raised);
    lemma_checksum_fits(ps, message);
    lemma_checksum_fits(ps, raised);
    let cs1 = ps.checksum_digits(message);
    let cs2 = ps.checksum_digits(raised);
    let j = choose|j: int| 0 <= j < ps.spec_n1() && cs1[j] != cs2[j];
    if !(exists|j: int| 0 <= j < ps.spec_n1() && cs1[j] != cs2[j]) {
        assert(cs1 =~= cs2);
    }
    let k = n0 + j;
    assert((k - n0 + (message.len() as u32) as int) as u32 == k as u32);
    let start = digit_secret(secret_key, k as u32);
    assert(chain_acyclic(digit_secret(secret_key, k as u32), 512));
    assert(signed_digit(raised, cs2, k) == cs2[j]);
    lemma_other_digit_fails(key, forged, start, k, cs1[j], cs2[j]);
}

/// A signature of `message` carried over to `raised`: each message element is
/// hashed on by how much its digit rose, the checksum elements stay.
pub open spec fn forged_signature(
    signature: Seq<Seq<u8>>,
    message: Seq<u8>,
    raised: Seq<u8>,
) -> Seq<Seq<u8>> {
    Seq::new(
        signature.len(),
        |k: int|
            if k < message.len() {
                hash_chain(signature[k], (raised[k] - message[k]) as nat)
            } else {
                signature[k]
            },
    )
}

impl Parameters {
    /// A condition on lengths and digits alone under which verification of
    /// `message` is defined: the digit sum stays within `d * n0`, key and
    /// signature have an element for every position, and every signed digit
    /// is 255 or below `d`.
    pub open spec fn checkable_everywhere(self, key_len: nat, signature_len: nat, message: Seq<u8>) -> bool {
        &&& digit_sum(message) <= self.spec_d() * self.spec_n0()
        &&& key_len >= self.positions(message)
        &&& signature_len >= self.positions(message)
        &&& forall|k: int|
            0 <= k < self.positions(message) ==> {
                let digit = #[trigger] signed_digit(message, self.checksum_digits(message), k);
                digit == 255 || digit < self.spec_d()
            }
    }
}

/// The condition on lengths and digits makes verification defined.
pub proof fn lemma_checkable_everywhere_defined(
    ps: Parameters,
    key: Seq<Seq<u8>>,
    signature: Seq<Seq<u8>>,
    message: Seq<u8>,
)
    requires
        ps.checkable_everywhere(key.len(), signature.len(), message),
    ensures
        ps.verification_defined(key, signature, message),
{
    let checksum = ps.checksum_digits(message);
    assert forall|k: int|
        0 <= k < ps.positions(message) && #[trigger] ps.verifies_below(key, signature, message, k)
        implies position_checkable(
        key.len(),
        signature.len(),
        signed_digit(message, checksum, k),
        ps.spec_d(),
        k,
    ) by {
        let digit = signed_digit(message, checksum, k);
        assert(digit == 255 || digit < ps.spec_d());
    }
}

/// Tests the condition on lengths and digits under which verification is
/// defined.
pub(crate) fn verification_checkable(
    public_key: &PublicKey,
    signature: &Vec<Vec<u8>>,
    message: &Vec<u8>,
    ps: &Parameters,
) -> (checkable: bool)
    ensures
        checkable == ps.checkable_everywhere(public_key@.len(), signature@.len(), message@),
{
    proof {
        use_type_invariant(ps);
    }
    let bound: u64 = ps.d as u64 * ps.n0 as u64;
    let mut sum: u64 = 0;
    let mut i: usize = 0;
    while i < message.len()
        invariant
            i <= message@.len(),
            sum == digit_sum(message@.take(i as int)),
            sum <= bound,
            bound == ps.spec_d() * ps.spec_n0(),
            bound <= u32::MAX,
        decreases message@.len() - i,
    {
        proof {
            assert(message@.take(i + 1).drop_last() =~= message@.take(i as int));
        }
        sum = sum + message[i] as u64;
        i = i + 1;
        if sum > bound {
            proof {
                lemma_digit_sum_prefix(message@, i as int);
            }
            return false;
        }
    }
    proof {
        assert(message@.take(i as int) =~= message@);
    }
    if public_key.len() < message.len() || public_key.len() - message.len() < ps.n1 as usize {
        return false;
    }
    if signature.len() < message.len() || signature.len() - message.len() < ps.n1 as usize {
        return false;
    }
    let checksum = add_message_checksum(ps, message);
    let mut i: usize = 0;
    while i < message.len()
        invariant
            i <= message@.len(),
            checksum@ == ps.checksum_digits(message@),
            forall|k: int|
                0 <= k < i ==> {
                    let digit = #[trigger] signed_digit(message@, checksum@, k);
                    digit == 255 || digit < ps.spec_d()
                },
        decreases message@.len() - i,
    {
        let digit = message[i];
        if !(digit == 255 || (digit as u32) < ps.d) {
            assert(signed_digit(message@, checksum@, i as int) == digit);
            return false;
        }
        assert(signed_digit(message@, checksum@, i as int) == digit);
        i = i + 1;
    }
    let mut j: usize = 0;
    while j < checksum.len()
        invariant
            j <= checksum@.len(),
            checksum@ == ps.checksum_digits(message@),
            checksum@.len() == ps.spec_n1(),
            forall|k: int|
                0 <= k < message@.len() + j ==> {
                    let digit = #[trigger] signed_digit(message@, checksum@, k);
                    digit == 255 || digit < ps.spec_d()
                },
        decreases checksum@.len() - j,
    {
        let digit = checksum[j];
        let ghost k = message@.len() + j;
        assert(signed_digit(message@, checksum@, k) == digit);
        if !(digit == 255 || (digit as u32) < ps.d) {
            return false;
        }
        j = j + 1;
    }
    true
}

/// Verification with its conditions tested first: `None` when the digit sum
/// exceeds `d * n0`, when the key or the signature lacks an element for some
/// position, or when a signed digit is neither 255 nor below `d`; otherwise
/// what `verify_signature` answers.
pub fn verify_signature_checked(
    public_key: &PublicKey,
    signature: &Vec<Vec<u8>>,
    message: Vec<u8>,
    ps: &Parameters,
) -> (result: Option<Result<bool, String>>)
    ensures
        result is Some <==> ps.checkable_everywhere(public_key@.len(), signature@.len(), message@),
        result matches Some(r) ==> r == Ok::<bool, String>(
            ps.verifies(key_view(public_key@), signature_view(signature@), message@),
        ),
{
    if !verification_checkable(public_key, signature, &message, ps) {
        return None;
    }
    proof {
        lemma_checkable_everywhere_defined(
            *ps,
            key_view(public_key@),
            signature_view(signature@),
            message@,
        );
    }
    Some(verify_signature(public_key, signature, message, ps))
}

/// Law (where each chain starts): chain `k` starts from the secret key
/// followed by the single byte `k mod 256`; so the public key element `k` is
/// that start hashed `d + 1` times, and the signature of digit `m` at index
/// `k` is it hashed `m + 1` times.
pub proof fn lemma_chain_start_is_low_byte(ps: Parameters, secret_key: Seq<u8>, k: u32, m: u8)
    requires
        ps.valid(),
        k < ps.spec_n(),
    ensures
        digit_secret(secret_key, k) == secret_key + seq![(k % 256) as u8],
        ps.public_key_of(secret_key)[k as int] == hash_chain(
            secret_key + seq![(k % 256) as u8],
            ps.spec_d() + 1,
        ),
        hash_chain(digit_secret(secret_key, k), m as nat + 1) == hash_chain(
            secret_key + seq![(k % 256) as u8],
            m as nat + 1,
        ),
{
    assert((k as u8) == ((k % 256) as u8)) by (bit_vector);
    assert(digit_secret(secret_key, k) =~= secret_key + seq![(k % 256) as u8]);
}

/// Law (distinct chains): indexes that differ below 256 start distinct chains.
pub proof fn lemma_chain_starts_distinct(secret_key: Seq<u8>, i: u32, j: u32)
    requires
        i < 256,
        j < 256,
        i != j,
    ensures
        digit_secret(secret_key, i) != digit_secret(secret_key, j),
{
    assert((i as u8) as u32 == i) by (bit_vector)
        requires
            i < 256,
    ;
    assert((j as u8) as u32 == j) by (bit_vector)
        requires
            j < 256,
    ;
    assert(digit_secret(secret_key, i)[secret_key.len() as int] == i as u8);
    assert(digit_secret(secret_key, j)[secret_key.len() as int] == j as u8);
}

/// Law (every position is checked): for any parameters, a signature verifies
/// exactly when each of the `len + n1` positions (the message digits, then
/// the checksum digits) passes its check.
pub proof fn lemma_verifies_every_position(
    ps: Parameters,
    key: Seq<Seq<u8>>,
    signature: Seq<Seq<u8>>,
    message: Seq<u8>,
)
    ensures
        ps.verifies(key, signature, message) <==> (forall|k: int|
            0 <= k < message.len() + ps.spec_n1() ==> #[trigger] position_verifies(
                key,
                signature,
                signed_digit(message, ps.checksum_digits(message), k),
                ps.spec_d(),
                k,
            )),
{
}

/// Law (the checksum binds for every digit width): replacing one checksum
/// element of a signature by bytes that do not hash up to the key element
/// (or, for a checksum digit 255, that differ from it) makes the signature
/// fail, whatever the parameters.
pub proof fn lemma_tampered_checksum_rejected(
    ps: Parameters,
    key: Seq<Seq<u8>>,
    signature: Seq<Seq<u8>>,
    message: Seq<u8>,
    j: int,
    replacement: Seq<u8>,
)
    requires
        0 <= j < ps.spec_n1(),
        message.len() + j < signature.len(),
        ({
            let digit = ps.checksum_digits(message)[j];
            if digit == 255 {
                replacement != key[message.len() + j]
            } else {
                hash_chain(replacement, (ps.spec_d() - digit) as nat) != key[message.len() + j]
            }
        }),
    ensures
        !ps.verifies(key, signature.update(message.len() + j, replacement), message),
{
    let k = message.len() + j;
    let tampered = signature.update(k, replacement);
    assert(signed_digit(message, ps.checksum_digits(message), k) == ps.checksum_digits(message)[j]);
    assert(tampered[k] == replacement);
    assert(!position_verifies(
        key,
        tampered,
        signed_digit(message, ps.checksum_digits(message), k),
        ps.spec_d(),
        k,
    ));
}

impl Parameters {
    /// Number of message digits.
    pub fn n0(&self) -> (n0: u32)
        ensures
            n0 == self.spec_n0(),
    {
        self.n0
    }

    /// Bits per message digit.
    pub fn log_d(&self) -> (log_d: u32)
        ensures
            log_d == self.spec_log_d(),
    {
        self.log_d
    }

    /// Number of checksum digits.
    pub fn n1(&self) -> (n1: u32)
        ensures
            n1 == self.spec_n1(),
    {
        self.n1
    }

    /// Largest digit value.
    pub fn d(&self) -> (d: u32)
        ensures
            d == self.spec_d(),
    {
        self.d
    }

    /// Number of signed digits in all.
    pub fn n(&self) -> (n: u32)
        ensures
            n == self.spec_n(),
    {
        self.n
    }
}

} // verus!
