use peg_solitaire::text::push_decimal;

fn decimal(v: i64) -> String {
    let mut s = String::new();
    push_decimal(&mut s, v);
    s
}

#[test]
fn decimal_of_small_numbers() {
    assert_eq!(decimal(0), "0");
    assert_eq!(decimal(7), "7");
    assert_eq!(decimal(10), "10");
    assert_eq!(decimal(-3), "-3");
}

#[test]
fn decimal_of_extremes() {
    assert_eq!(decimal(i64::MAX), "9223372036854775807");
    assert_eq!(decimal(i64::MIN), "-9223372036854775808");
}

#[test]
fn decimal_appends() {
    let mut s = String::from("n = ");
    push_decimal(&mut s, 42);
    assert_eq!(s, "n = 42");
}
