use exercises::coin_change::dp_rec_mc;
use exercises::converter::convert_base;
use exercises::conjecture::goldbach_conjecture;

#[test]
fn fewest_coins_values() {
    assert_eq!(dp_rec_mc(0), 0);
    assert_eq!(dp_rec_mc(1), 1);
    assert_eq!(dp_rec_mc(3), 2);
    assert_eq!(dp_rec_mc(40), 2);
    assert_eq!(dp_rec_mc(93), 5);
    assert_eq!(dp_rec_mc(100), 1);
}

#[test]
fn base_conversions() {
    assert_eq!(convert_base("10(2)", 10), Some("2".to_string()));
    assert_eq!(convert_base("255", 16), Some("ff".to_string()));
    assert_eq!(convert_base("ff(16)", 2), Some("11111111".to_string()));
    assert_eq!(convert_base("0(8)", 3), Some("0".to_string()));
    assert_eq!(convert_base("9(8)", 10), None);
    assert_eq!(convert_base("12(1)", 10), None);
    assert_eq!(convert_base("4294967296", 10), None);
    assert_eq!(convert_base("", 10), None);
    assert_eq!(convert_base("+10(+2)", 10), Some("2".to_string()));
    assert_eq!(convert_base("+", 10), None);
    assert_eq!(convert_base("-5", 10), None);
}

#[test]
fn goldbach_counterexamples() {
    assert_eq!(goldbach_conjecture(), Some("5777,5993".to_string()));
}
