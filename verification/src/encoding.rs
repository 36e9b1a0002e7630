use vstd::prelude::*;

use num_bigint::BigUint;

verus! {

#[verifier::external_type_specification]
#[verifier::external_body]
pub struct ExBigUint(BigUint);

/// The base-`2^64` limbs that a `BigUint` holds, least significant first.
pub uninterp spec fn biguint_limbs(n: BigUint) -> Seq<u64>;

/// The number that little-endian base-`2^64` limbs stand for.
pub open spec fn limbs_value(limbs: Seq<u64>) -> nat
    decreases limbs.len(),
{
    if limbs.len() == 0 {
        0
    } else {
        limbs[0] as nat + 0x1_0000_0000_0000_0000 * limbs_value(limbs.drop_first())
    }
}

/// The number a `BigUint` stands for.
pub open spec fn biguint_value(n: BigUint) -> nat {
    limbs_value(biguint_limbs(n))
}

/// The number that big-endian bytes stand for.
pub open spec fn be_value(bytes: Seq<u8>) -> nat
    decreases bytes.len(),
{
    if bytes.len() == 0 {
        0
    } else {
        be_value(bytes.drop_last()) * 256 + bytes.last() as nat
    }
}

/// The lower-case hex digit of a value below 16.
pub open spec fn hex_char(nibble: nat) -> char {
    if nibble < 10 {
        (48 + nibble) as char
    } else {
        (87 + nibble) as char
    }
}

/// Lower-case hex encoding, two digits per byte, high nibble first.
pub open spec fn hex_lower(bytes: Seq<u8>) -> Seq<char>
    decreases bytes.len(),
{
    if bytes.len() == 0 {
        Seq::empty()
    } else {
        hex_lower(bytes.drop_last()) + seq![
            hex_char(bytes.last() as nat / 16),
            hex_char(bytes.last() as nat % 16),
        ]
    }
}

/// The value of a digit character in bases up to 36 (either case for
/// letters); 255 for any other character.
pub open spec fn char_digit(c: char) -> nat {
    if 48 <= c as int <= 57 {
        (c as int - 48) as nat
    } else if 97 <= c as int <= 122 {
        (c as int - 87) as nat
    } else if 65 <= c as int <= 90 {
        (c as int - 55) as nat
    } else {
        255
    }
}

/// `s` is hex that decodes: an even number of hex digits of either case.
pub open spec fn hex_decodable(s: Seq<char>) -> bool {
    &&& s.len() % 2 == 0
    &&& forall|i: int| 0 <= i < s.len() ==> char_digit(#[trigger] s[i]) < 16
}

/// The bytes that hex `s` decodes to, each from a pair of digits.
pub open spec fn hex_decoded(s: Seq<char>) -> Seq<u8> {
    Seq::new(
        s.len() / 2,
        |i: int| (char_digit(s[2 * i]) * 16 + char_digit(s[2 * i + 1])) as u8,
    )
}

/// A numeral without the single leading `+` that is allowed before it.
pub open spec fn strip_plus(s: Seq<char>) -> Seq<char> {
    if s.len() >= 1 && s[0] == '+' && (s.len() == 1 || s[1] != '+') {
        s.drop_first()
    } else {
        s
    }
}

/// `s` reads as a numeral in `radix`: after an optional `+`, a digit, then
/// digits and `_` separators.
pub open spec fn numeral_ok(s: Seq<char>, radix: nat) -> bool {
    let t = strip_plus(s);
    &&& t.len() > 0
    &&& t[0] != '_'
    &&& forall|i: int| 0 <= i < t.len() ==> #[trigger] t[i] == '_' || char_digit(t[i]) < radix
}

/// The value of big-endian digits in `radix`, `_` separators skipped.
pub open spec fn digits_be_value(t: Seq<char>, radix: nat) -> nat
    decreases t.len(),
{
    if t.len() == 0 {
        0
    } else if t.last() == '_' {
        digits_be_value(t.drop_last(), radix)
    } else {
        digits_be_value(t.drop_last(), radix) * radix + char_digit(t.last())
    }
}

/// The value of numeral `s` in `radix`.
pub open spec fn numeral_value(s: Seq<char>, radix: nat) -> nat {
    digits_be_value(strip_plus(s), radix)
}

/// The digit character for a value below 36: `0`-`9`, then `a`-`z`.
pub open spec fn digit_char(d: nat) -> char {
    if d < 10 {
        (48 + d) as char
    } else {
        (87 + d) as char
    }
}

/// `n` written in `radix` without leading zeros (`0` for zero).
pub open spec fn radix_string(n: nat, radix: nat) -> Seq<char>
    decreases n,
{
    if radix < 2 {
        Seq::empty()
    } else if n < radix {
        seq![digit_char(n)]
    } else {
        proof {
            vstd::arithmetic::div_mod::lemma_div_decreases(n as int, radix as int);
        }
        radix_string(n / radix, radix).push(digit_char(n % radix))
    }
}

/// `n` in decimal.
pub open spec fn decimal_string(n: nat) -> Seq<char> {
    radix_string(n, 10)
}

/// Trusted: `hex::ToHex::encode_hex` into a `String`. The contract states the
/// lower-case encoding, two digits per byte, high nibble first.
#[verifier::external_body]
pub(crate) fn encode_hex(data: &[u8]) -> (encoded: String)
    ensures
        encoded@ == hex_lower(data@),
{
    hex::ToHex::encode_hex(&data)
}

/// Trusted: `hex::decode`, its error mapped to `None`. The contract states
/// when decoding succeeds (an even number of hex digits of either case) and
/// the bytes it gives.
#[verifier::external_body]
pub(crate) fn decode_hex(s: &str) -> (decoded: Option<Vec<u8>>)
    ensures
        decoded is Some <==> hex_decodable(s@),
        decoded matches Some(bytes) ==> bytes@ == hex_decoded(s@),
{
    hex::decode(s).ok()
}

/// Trusted: `num_traits::Num::from_str_radix` for `BigUint`, its error mapped
/// to `None`. The contract states when the numeral reads (the rules of the
/// crate's source: one optional `+`, a leading digit, `_` separators) and the
/// value that the result holds.
#[verifier::external_body]
pub(crate) fn biguint_from_str_radix(s: &str, radix: u32) -> (n: Option<BigUint>)
    requires
        2 <= radix <= 36,
    ensures
        n is Some <==> numeral_ok(s@, radix as nat),
        n matches Some(v) ==> limbs_value(biguint_limbs(v)) == numeral_value(s@, radix as nat),
{
    <BigUint as num_traits::Num>::from_str_radix(s, radix).ok()
}

/// Trusted: `BigUint::to_str_radix`. The contract states the numeral of the
/// value in `radix`, without leading zeros, lower-case letters above 9.
#[verifier::external_body]
pub(crate) fn biguint_to_str_radix(n: &BigUint, radix: u32) -> (s: String)
    requires
        2 <= radix <= 36,
    ensures
        s@ == radix_string(limbs_value(biguint_limbs(*n)), radix as nat),
{
    n.to_str_radix(radix)
}

/// The decimal numeral of a hex numeral; `None` when `s` is no numeral in
/// base 16.
pub fn to_decimal(s: &str) -> (decimal: Option<String>)
    ensures
        decimal is Some <==> numeral_ok(s@, 16),
        decimal matches Some(d) ==> d@ == decimal_string(numeral_value(s@, 16)),
{
    let parsed = biguint_from_str_radix(s, 16);
    match parsed {
        Some(n) => Some(biguint_to_str_radix(&n, 10)),
        None => None,
    }
}

/// Law (hex reads back through `to_decimal`): lower-case hex of non-empty
/// bytes is a numeral in base 16 whose value is the big-endian value of the
/// bytes; so `to_decimal` of that hex answers `Some`, with the decimal numeral
/// of the bytes' value.
pub proof fn lemma_hex_numeral(bytes: Seq<u8>)
    requires
        bytes.len() > 0,
    ensures
        numeral_ok(hex_lower(bytes), 16),
        numeral_value(hex_lower(bytes), 16) == be_value(bytes),
{
    lemma_hex_digits(bytes);
    let h = hex_lower(bytes);
    assert(h.len() >= 2);
    assert(strip_plus(h) == h);
}

proof fn lemma_hex_char(nibble: nat)
    requires
        nibble < 16,
    ensures
        char_digit(hex_char(nibble)) == nibble,
        hex_char(nibble) != '_',
        hex_char(nibble) != '+',
{
}

proof fn lemma_hex_digits(bytes: Seq<u8>)
    ensures
        hex_lower(bytes).len() == 2 * bytes.len(),
        forall|i: int|
            0 <= i < hex_lower(bytes).len() ==> char_digit(#[trigger] hex_lower(bytes)[i]) < 16
                && hex_lower(bytes)[i] != '_' && hex_lower(bytes)[i] != '+',
        digits_be_value(hex_lower(bytes), 16) == be_value(bytes),
    decreases bytes.len(),
{
    if bytes.len() > 0 {
        let rest = bytes.drop_last();
        lemma_hex_digits(rest);
        let b = bytes.last() as nat;
        let hi = b / 16;
        let lo = b % 16;
        lemma_hex_char(hi);
        lemma_hex_char(lo);
        let h = hex_lower(bytes);
        let hr = hex_lower(rest);
        assert(h == hr + seq![hex_char(hi), hex_char(lo)]);
        assert(h.drop_last() =~= hr + seq![hex_char(hi)]);
        assert(h.drop_last().drop_last() =~= hr);
        let v = digits_be_value(hr, 16);
        assert(h.last() == hex_char(lo));
        assert(h.drop_last().last() == hex_char(hi));
        assert(digits_be_value(h.drop_last(), 16) == v * 16 + hi);
        assert(digits_be_value(h, 16) == (v * 16 + hi) * 16 + lo);
        assert((v * 16 + hi) * 16 + lo == v * 256 + (hi * 16 + lo)) by (nonlinear_arith);
        assert(hi * 16 + lo == b);
    }
}

/// The upper-case form of a numeral: letters `a`-`z` become `A`-`Z`.
pub open spec fn upper_case(s: Seq<char>) -> Seq<char> {
    s.map_values(|c: char| if 97 <= c as int <= 122 { (c as int - 32) as char } else { c })
}

/// `count` zero digits.
pub open spec fn zeros(count: nat) -> Seq<char> {
    Seq::new(count, |i: int| '0')
}

proof fn lemma_radix_string_digits(n: nat, radix: nat)
    requires
        2 <= radix <= 36,
    ensures
        radix_string(n, radix).len() >= 1,
        forall|i: int|
            0 <= i < radix_string(n, radix).len() ==> char_digit(#[trigger] radix_string(n, radix)[i])
                < radix,
        digits_be_value(radix_string(n, radix), radix) == n,
    decreases n,
{
    if n < radix {
        let s = radix_string(n, radix);
        assert(char_digit(digit_char(n)) == n);
        assert(s.last() == digit_char(n) && digit_char(n) != '_');
        assert(s.drop_last() =~= Seq::<char>::empty());
        assert(digits_be_value(s.drop_last(), radix) == 0);
        assert(digits_be_value(s, radix) == 0 * radix + n);
    } else {
        vstd::arithmetic::div_mod::lemma_div_decreases(n as int, radix as int);
        lemma_radix_string_digits(n / radix, radix);
        let s = radix_string(n, radix);
        let d = n % radix;
        assert(char_digit(digit_char(d)) == d);
        assert(s.drop_last() =~= radix_string(n / radix, radix));
        assert(s.last() == digit_char(d) && digit_char(d) != '_');
        vstd::arithmetic::div_mod::lemma_fundamental_div_mod(n as int, radix as int);
        assert(digits_be_value(s, radix) == (n / radix) * radix + d);
        assert((n / radix) * radix == radix * (n / radix)) by (nonlinear_arith);
    }
}

proof fn lemma_zeros_value(count: nat, radix: nat)
    ensures
        digits_be_value(zeros(count), radix) == 0,
    decreases count,
{
    if count > 0 {
        assert(zeros(count).drop_last() =~= zeros((count - 1) as nat));
        lemma_zeros_value((count - 1) as nat, radix);
        assert(zeros(count).last() == '0');
        assert(char_digit('0') == 0);
        assert(digits_be_value(zeros(count), radix) == 0 * radix + 0);
    }
}

proof fn lemma_zeros_prefix_value(count: nat, t: Seq<char>, radix: nat)
    ensures
        digits_be_value(zeros(count) + t, radix) == digits_be_value(t, radix),
    decreases t.len(),
{
    if t.len() == 0 {
        assert(zeros(count) + t =~= zeros(count));
        lemma_zeros_value(count, radix);
    } else {
        assert((zeros(count) + t).drop_last() =~= zeros(count) + t.drop_last());
        lemma_zeros_prefix_value(count, t.drop_last(), radix);
    }
}

proof fn lemma_upper_case_value(s: Seq<char>, radix: nat)
    ensures
        digits_be_value(upper_case(s), radix) == digits_be_value(s, radix),
    decreases s.len(),
{
    if s.len() > 0 {
        assert(upper_case(s).drop_last() =~= upper_case(s.drop_last()));
        lemma_upper_case_value(s.drop_last(), radix);
    }
}

/// Law (hex numerals read back through `to_decimal`): the hex numeral of any
/// number, in lower or upper case and with any number of leading zeros, is a
/// numeral in base 16 whose value is the number; so `to_decimal` answers
/// `Some` with the number's decimal numeral.
pub proof fn lemma_hex_numeral_of_number(n: nat, padding: nat)
    ensures
        numeral_ok(zeros(padding) + radix_string(n, 16), 16),
        numeral_value(zeros(padding) + radix_string(n, 16), 16) == n,
        numeral_ok(upper_case(zeros(padding) + radix_string(n, 16)), 16),
        numeral_value(upper_case(zeros(padding) + radix_string(n, 16)), 16) == n,
{
    lemma_radix_string_digits(n, 16);
    let t = radix_string(n, 16);
    let s = zeros(padding) + t;
    assert forall|i: int| 0 <= i < s.len() implies char_digit(#[trigger] s[i]) < 16 by {
        if i >= padding {
            assert(s[i] == t[i - padding]);
        }
    }
    assert(s[0] != '+' && s[0] != '_') by {
        assert(char_digit(s[0]) < 16);
    }
    assert(strip_plus(s) == s);
    lemma_zeros_prefix_value(padding, t, 16);
    let u = upper_case(s);
    assert forall|i: int| 0 <= i < u.len() implies char_digit(#[trigger] u[i]) < 16 by {
        assert(char_digit(s[i]) < 16);
    }
    assert(u[0] != '+' && u[0] != '_') by {
        assert(char_digit(u[0]) < 16);
    }
    assert(strip_plus(u) == u);
    lemma_upper_case_value(s, 16);
}

} // verus!
