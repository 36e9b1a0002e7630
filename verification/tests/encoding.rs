use winternitz_core::to_decimal;

#[test]
fn to_decimal_small_values() {
    assert_eq!(to_decimal("ff"), Some("255".to_string()));
    assert_eq!(to_decimal("FF"), Some("255".to_string()));
    assert_eq!(to_decimal("0"), Some("0".to_string()));
    assert_eq!(to_decimal("000a"), Some("10".to_string()));
    assert_eq!(to_decimal("10"), Some("16".to_string()));
}

#[test]
fn to_decimal_sign_and_separators() {
    assert_eq!(to_decimal("+ff"), Some("255".to_string()));
    assert_eq!(to_decimal("f_f"), Some("255".to_string()));
    assert_eq!(to_decimal("1_"), Some("1".to_string()));
}

#[test]
fn to_decimal_rejects_non_numerals() {
    assert_eq!(to_decimal(""), None);
    assert_eq!(to_decimal("+"), None);
    assert_eq!(to_decimal("_1"), None);
    assert_eq!(to_decimal("++1"), None);
    assert_eq!(to_decimal("g"), None);
    assert_eq!(to_decimal("12 "), None);
    assert_eq!(to_decimal("é"), None);
}

#[test]
fn to_decimal_wide_values() {
    assert_eq!(
        to_decimal("ffffffffffffffffffffffffffffffff"),
        Some("340282366920938463463374607431768211455".to_string())
    );
    assert_eq!(
        to_decimal("30644e72e131a029b85045b68181585d97816a916871ca8d3c208c16d87cfd47"),
        Some(
            "21888242871839275222246405745257275088696311157297823662689037894645226208583"
                .to_string()
        )
    );
}

#[test]
fn to_decimal_reads_any_hex_form() {
    for n in [0u128, 1, 15, 16, 255, 4096, 0xdead_beef, u64::MAX as u128, u128::MAX] {
        let decimal = Some(n.to_string());
        assert_eq!(to_decimal(&format!("{:x}", n)), decimal);
        assert_eq!(to_decimal(&format!("{:X}", n)), decimal);
        assert_eq!(to_decimal(&format!("{:032x}", n)), decimal);
        assert_eq!(to_decimal(&format!("{:040X}", n)), decimal);
    }
}
