use rcryptoport::codec::dec_from_text;
use rcryptoport::decimal::Dec;

#[test]
fn test_from_parts_normalizes() {
    // 1.50 and 1.5 are the same value and the same representation.
    let a = Dec::from_parts(150, 2).unwrap();
    let b = Dec::from_parts(15, 1).unwrap();
    assert_eq!(a, b);
    assert_eq!("1.5", a.to_text());
}

#[test]
fn test_from_parts_rejects_out_of_range() {
    assert!(Dec::from_parts(5, 10).is_none());
    assert!(Dec::from_parts(5_000_000_000, 0).is_none());
    assert!(Dec::from_parts(4_000_000_000, 0).is_some());
}

#[test]
fn test_add_sub_exact() {
    let a = Dec::from_parts(105, 2).unwrap(); // 1.05
    let b = Dec::from_parts(295, 2).unwrap(); // 2.95
    assert_eq!(Dec::from_int(4), a.add(b));
    let d = Dec::from_int(4).sub(a);
    assert_eq!(b, d);
}

#[test]
fn test_mul_exact_and_rounded() {
    let a = Dec::from_parts(15, 1).unwrap(); // 1.5
    let b = Dec::from_parts(65_000_12, 2).unwrap(); // 65000.12
    // 1.5 * 65000.12 = 97500.18, exactly.
    assert_eq!(Dec::from_parts(97_500_18, 2).unwrap(), a.mul(b));
    // 0.00001 * 0.00001 = 0.0000000001 needs ten places: rounded away
    // from zero to nine, giving 0.000000000.
    let tiny = Dec::from_parts(1, 5).unwrap();
    assert_eq!(Dec::zero(), tiny.mul(tiny));
    // 0.00003 * 0.00005 = 0.0000000015 rounds to 0.000000002.
    let x = Dec::from_parts(3, 5).unwrap();
    let y = Dec::from_parts(5, 5).unwrap();
    assert_eq!(Dec::from_parts(2, 9).unwrap(), x.mul(y));
}

#[test]
fn test_round_dp2() {
    let a = Dec::from_parts(1_005, 3).unwrap(); // 1.005 -> 1.01 (ties away)
    assert_eq!(Dec::from_parts(101, 2).unwrap(), a.round_dp2());
    let b = Dec::from_parts(1_004, 3).unwrap(); // 1.004 -> 1.00
    assert_eq!(Dec::from_int(1), b.round_dp2());
    let c = Dec::from_parts(-1_005, 3).unwrap(); // -1.005 -> -1.01
    assert_eq!(Dec::from_parts(-101, 2).unwrap(), c.round_dp2());
    // Already coarse values are untouched.
    assert_eq!(Dec::from_int(7), Dec::from_int(7).round_dp2());
}

#[test]
fn test_div() {
    let a = Dec::from_int(50);
    let b = Dec::from_int(200);
    assert_eq!(Dec::from_parts(25, 2).unwrap(), a.div(b));
    let c = Dec::from_int(1);
    let d = Dec::from_int(3);
    // 1/3 to nine places, rounded.
    assert_eq!(Dec::from_parts(333_333_333, 9).unwrap(), c.div(d));
}

#[test]
fn test_comparisons() {
    let a = Dec::from_parts(15, 1).unwrap();
    let b = Dec::from_int(2);
    assert!(a.lt(b));
    assert!(!b.lt(a));
    assert!(a.is_positive());
    assert!(!Dec::zero().is_positive());
    assert!(Dec::zero().is_zero());
    assert!(Dec::from_int(-3).lt(Dec::zero()));
}

#[test]
fn test_to_text() {
    assert_eq!("0", Dec::zero().to_text());
    assert_eq!("65000.12", Dec::from_parts(65_000_12, 2).unwrap().to_text());
    assert_eq!("-0.05", Dec::from_parts(-5, 2).unwrap().to_text());
    assert_eq!("42", Dec::from_int(42).to_text());
    assert_eq!("0.000000001", Dec::from_parts(1, 9).unwrap().to_text());
}

#[test]
fn test_dec_from_text_canonical_and_loose() {
    assert_eq!(Some(Dec::from_int(1)), dec_from_text(&"1".to_string()));
    assert_eq!(
        Some(Dec::from_parts(15, 1).unwrap()),
        dec_from_text(&"1.5".to_string())
    );
    // Loose numerals spell the same value: leading and trailing zeros
    // are insignificant.
    assert_eq!(Some(Dec::from_int(1)), dec_from_text(&"01".to_string()));
    assert_eq!(
        Some(Dec::from_parts(15, 1).unwrap()),
        dec_from_text(&"1.50".to_string())
    );
    assert_eq!(
        Some(Dec::from_parts(5, 1).unwrap()),
        dec_from_text(&"00.500".to_string())
    );
    assert_eq!(Some(Dec::zero()), dec_from_text(&"-0".to_string()));
}

#[test]
fn test_dec_from_text_rejects() {
    assert_eq!(None, dec_from_text(&"".to_string()));
    assert_eq!(None, dec_from_text(&"1.".to_string()));
    assert_eq!(None, dec_from_text(&".5".to_string()));
    assert_eq!(None, dec_from_text(&"1..2".to_string()));
    assert_eq!(None, dec_from_text(&"1.1234567890".to_string()));
    assert_eq!(None, dec_from_text(&"5000000000".to_string()));
}
