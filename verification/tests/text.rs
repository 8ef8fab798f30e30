use downloads_history::text::{decimal_len, push_decimal, push_signed, push_zero_padded};

#[test]
fn decimal_text() {
    let mut s = String::from("n=");
    push_decimal(&mut s, 0);
    assert_eq!(s, "n=0");
    let mut s = String::new();
    push_decimal(&mut s, u64::MAX);
    assert_eq!(s, u64::MAX.to_string());
    assert_eq!(decimal_len(0), 1);
    assert_eq!(decimal_len(9), 1);
    assert_eq!(decimal_len(10), 2);
    assert_eq!(decimal_len(u64::MAX), 20);
}

#[test]
fn zero_padding() {
    let mut s = String::new();
    push_zero_padded(&mut s, 7, 4);
    assert_eq!(s, "0007");
    let mut s = String::new();
    push_zero_padded(&mut s, 123456, 4);
    assert_eq!(s, "123456");
    let mut s = String::new();
    push_zero_padded(&mut s, 12, 2);
    assert_eq!(s, "12");
}

#[test]
fn signed_text() {
    for v in [0i64, 5, -5, 42, -42, i64::MAX, i64::MIN] {
        let mut s = String::new();
        push_signed(&mut s, v);
        assert_eq!(s, v.to_string());
    }
}
