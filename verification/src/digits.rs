use vstd::prelude::*;

verus! {

/// `base` raised to the power `e`.
pub open spec fn power(base: nat, e: nat) -> nat
    decreases e,
{
    if e == 0 {
        1
    } else {
        base * power(base, (e - 1) as nat)
    }
}

/// `k` is the least exponent for which `base^k` reaches `n`.
pub open spec fn is_log_base_ceil(k: nat, n: nat, base: nat) -> bool {
    &&& power(base, k) >= n
    &&& (k == 0 || power(base, (k - 1) as nat) < n)
}

/// The `count` least significant digits of `number` written in `base`,
/// least significant digit first.
pub open spec fn digits_le(number: nat, base: nat, count: nat) -> Seq<u8> {
    Seq::new(count, |j: int| ((number / power(base, j as nat)) % base) as u8)
}

/// The number whose digits in `base`, least significant first, are `digits`.
pub open spec fn digits_value(digits: Seq<u8>, base: nat) -> nat
    decreases digits.len(),
{
    if digits.len() == 0 {
        0
    } else {
        digits[0] as nat + base * digits_value(digits.drop_first(), base)
    }
}

pub proof fn lemma_power_positive(base: nat, e: nat)
    requires
        base >= 1,
    ensures
        power(base, e) >= 1,
    decreases e,
{
    if e > 0 {
        lemma_power_positive(base, (e - 1) as nat);
        assert(base * power(base, (e - 1) as nat) >= 1) by (nonlinear_arith)
            requires
                base >= 1,
                power(base, (e - 1) as nat) >= 1,
        ;
    }
}

pub proof fn lemma_power_monotonic(base: nat, e1: nat, e2: nat)
    requires
        base >= 1,
        e1 <= e2,
    ensures
        power(base, e1) <= power(base, e2),
    decreases e2,
{
    if e1 < e2 {
        lemma_power_monotonic(base, e1, (e2 - 1) as nat);
        lemma_power_positive(base, (e2 - 1) as nat);
        let p = power(base, (e2 - 1) as nat);
        assert(p <= base * p) by (nonlinear_arith)
            requires
                base >= 1,
                p >= 1,
        ;
    }
}

/// Repeated division: `(x / b^j) / b == x / b^(j + 1)`.
pub proof fn lemma_div_power_step(x: nat, base: nat, j: nat)
    requires
        base >= 1,
    ensures
        (x / power(base, j)) / base == x / power(base, j + 1),
{
    lemma_power_positive(base, j);
    let p = power(base, j);
    assert(power(base, j + 1) == base * p);
    vstd::arithmetic::div_mod::lemma_div_denominator(x as int, p as int, base as int);
    assert(p * base == base * p) by (nonlinear_arith);
}

/// Smallest `k` with `base^k >= n`.
pub fn log_base_ceil(n: u32, base: u32) -> (res: u32)
    requires
        base >= 2,
    ensures
        is_log_base_ceil(res as nat, n as nat, base as nat),
{
    let mut res: u32 = 0;
    let mut cur: u64 = 1;
    while cur < n as u64
        invariant
            base >= 2,
            cur as nat == power(base as nat, res as nat),
            res == 0 || power(base as nat, (res - 1) as nat) < n,
            1 <= cur,
            res as nat <= cur as nat,
            res == 0 || cur <= n as nat * base as nat,
        decreases u64::MAX - cur,
    {
        assert(cur * (base as u64) <= (n as u64) * (base as u64)) by (nonlinear_arith)
            requires
                cur < n as u64,
        ;
        assert((n as u64) * (base as u64) <= 0xffff_ffff * 0xffff_ffff) by (nonlinear_arith)
            requires
                n <= 0xffff_ffffu32,
                base <= 0xffff_ffffu32,
        ;
        assert(cur * (base as u64) >= 2 * cur) by (nonlinear_arith)
            requires
                base >= 2,
        ;
        let ghost old_cur = cur;
        cur = cur * (base as u64);
        res = res + 1;
        assert(power(base as nat, res as nat) == base as nat * power(base as nat, (res - 1) as nat));
        assert(cur as nat == base as nat * old_cur as nat) by (nonlinear_arith)
            requires
                cur == old_cur * (base as u64),
        ;
        assert(cur > old_cur);
    }
    res
}

/// The `digit_count` least significant digits of `number` in `base`,
/// least significant first.
pub fn to_digits(number: u32, base: u32, digit_count: u32) -> (digits: Vec<u8>)
    requires
        2 <= base <= 256,
    ensures
        digits@ == digits_le(number as nat, base as nat, digit_count as nat),
{
    let mut digits: Vec<u8> = Vec::new();
    let mut rest: u32 = number;
    let mut k: u32 = 0;
    proof {
        assert(power(base as nat, 0) == 1);
    }
    while k < digit_count
        invariant
            2 <= base <= 256,
            k <= digit_count,
            rest as nat == number as nat / power(base as nat, k as nat),
            digits@ == digits_le(number as nat, base as nat, k as nat),
        decreases digit_count - k,
    {
        let ghost r = rest;
        let digit = rest % base;
        proof {
            vstd::arithmetic::div_mod::lemma_fundamental_div_mod(r as int, base as int);
            assert(base * (r / base) >= 0) by (nonlinear_arith)
                requires
                    base >= 2,
            ;
        }
        rest = (rest - digit) / base;
        proof {
            vstd::arithmetic::div_mod::lemma_div_multiples_vanish((r / base) as int, base as int);
            assert(rest as nat == r as nat / base as nat);
            lemma_div_power_step(number as nat, base as nat, k as nat);
        }
        digits.push(digit as u8);
        k = k + 1;
        proof {
            assert(digits@ =~= digits_le(number as nat, base as nat, k as nat));
        }
    }
    digits
}

/// Law: the `count` digits that `to_digits` gives are the number reduced
/// modulo `base^count`; in particular they give the number back whenever it
/// is below `base^count`.
pub proof fn lemma_digits_value(number: nat, base: nat, count: nat)
    requires
        2 <= base <= 256,
    ensures
        digits_value(digits_le(number, base, count), base) == number % power(base, count),
        number < power(base, count) ==> digits_value(digits_le(number, base, count), base)
            == number,
    decreases count,
{
    lemma_power_positive(base, count);
    let digits = digits_le(number, base, count);
    if count == 0 {
        assert(number % 1 == 0);
    } else {
        let rest = digits_le(number / base, base, (count - 1) as nat);
        assert forall|j: int| 0 <= j < count - 1 implies digits.drop_first()[j] == rest[j] by {
            lemma_div_power_step(number, base, 0);
            assert(power(base, 0) == 1);
            assert(number / 1 == number);
            lemma_power_positive(base, j as nat);
            vstd::arithmetic::div_mod::lemma_div_denominator(
                number as int,
                base as int,
                power(base, j as nat) as int,
            );
            assert(power(base, (j + 1) as nat) == base * power(base, j as nat));
        }
        assert(digits.drop_first() =~= rest);
        lemma_digits_value(number / base, base, (count - 1) as nat);
        assert(power(base, 0) == 1);
        assert(number / 1 == number);
        lemma_power_positive(base, (count - 1) as nat);
        vstd::arithmetic::div_mod::lemma_mod_breakdown(
            number as int,
            base as int,
            power(base, (count - 1) as nat) as int,
        );
        assert(number % base < base);
        assert(digits[0] as nat == number % base);
        assert(power(base, count) == base * power(base, (count - 1) as nat));
        assert(digits_value(digits, base) == digits[0] as nat + base * digits_value(rest, base));
    }
    if number < power(base, count) {
        lemma_small_mod_nat(number, power(base, count));
    }
}

proof fn lemma_small_mod_nat(x: nat, m: nat)
    requires
        x < m,
    ensures
        x % m == x,
{
    vstd::arithmetic::div_mod::lemma_small_mod(x, m);
}

} // verus!
