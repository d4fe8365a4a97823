use rcryptoport::decimal::Dec;
use rcryptoport::elapsed::hhhmmss;
use rcryptoport::percent::percent_change;

#[test]
fn test_hhhmmss() {
    assert_eq!("000:00:10", hhhmmss(10));
    assert_eq!("000:01:01", hhhmmss(61));
    assert_eq!("000:10:00", hhhmmss(10 * 60));
    assert_eq!("000:10:10", hhhmmss(10 * 60 + 10));
    assert_eq!("010:00:00", hhhmmss(10 * 60 * 60));
    assert_eq!("010:10:10", hhhmmss(10 * 60 * 60 + 10 * 60 + 10));
}

#[test]
fn test_hhhmmss_zero_and_large() {
    assert_eq!("000:00:00", hhhmmss(0));
    // Hours grow beyond three digits without truncation.
    assert_eq!("1000:00:00", hhhmmss(1000 * 60 * 60));
    assert_eq!("999:59:59", hhhmmss(1000 * 60 * 60 - 1));
}

#[test]
fn test_percent_change() {
    let change = percent_change(Dec::from_int(200), Dec::from_int(250));
    assert_eq!(Dec::from_int(25), change);
}

#[test]
fn test_percent_change_negative() {
    let change = percent_change(Dec::from_int(100), Dec::from_int(50));
    assert_eq!(Dec::from_int(-50), change);
}

#[test]
fn test_percent_change_zero_prior_is_zero() {
    // A zero prior price is the "no data" sentinel: the delta reads zero
    // instead of faulting on division.
    let change = percent_change(Dec::zero(), Dec::from_int(123));
    assert_eq!(Dec::zero(), change);
}

#[test]
fn test_percent_change_fractional() {
    // 80 -> 100 is +25%; 2.5 -> 5 is +100%.
    assert_eq!(
        Dec::from_int(25),
        percent_change(Dec::from_int(80), Dec::from_int(100))
    );
    let p = Dec::from_parts(25, 1).unwrap();
    assert_eq!(
        Dec::from_int(100),
        percent_change(p, Dec::from_int(5))
    );
}
