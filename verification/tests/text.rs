use lzjd_batch::text::{push_decimal, push_decimal3};

fn decimal(n: u32) -> String {
    let mut out = String::new();
    push_decimal(&mut out, n);
    out
}

fn decimal3(n: u32) -> String {
    let mut out = String::new();
    push_decimal3(&mut out, n);
    out
}

#[test]
fn push_decimal_writes_the_digits() {
    assert_eq!(decimal(0), "0");
    assert_eq!(decimal(7), "7");
    assert_eq!(decimal(10), "10");
    assert_eq!(decimal(1234567890), "1234567890");
    assert_eq!(decimal(u32::MAX), "4294967295");
}

#[test]
fn push_decimal_appends() {
    let mut out = String::from("n=");
    push_decimal(&mut out, 42);
    push_decimal(&mut out, 0);
    assert_eq!(out, "n=420");
}

#[test]
fn push_decimal3_pads_with_zeros() {
    assert_eq!(decimal3(0), "000");
    assert_eq!(decimal3(1), "001");
    assert_eq!(decimal3(12), "012");
    assert_eq!(decimal3(123), "123");
    assert_eq!(decimal3(1000), "1000");
    for n in 0..2000u32 {
        assert_eq!(decimal3(n), format!("{:03}", n));
    }
}
