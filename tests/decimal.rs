use stack_machine::decimal::Bigint;
use std::str::FromStr;

#[test]
fn basic_display() {
    let bi = Bigint::from_str("1000").unwrap();
    assert_eq!(bi.to_string(), "1000");
    let bi = Bigint::from_str("0").unwrap();
    assert_eq!(bi.to_string(), "0");
    let bi = Bigint::from_str("15688454648").unwrap();
    assert_eq!(bi.to_string(), "15688454648");
    let bi = Bigint::from_str("15688454648").unwrap();
    assert_eq!(bi.delimited().to_string(), "15,688,454,648");
    let bi = Bigint::from_str("0").unwrap();
    assert_eq!(bi.delimited().to_string(), "0");
    let bi = Bigint::from_str("10").unwrap();
    assert_eq!(bi.delimited().to_string(), "10");
    let bi = Bigint::from_str("1000").unwrap();
    assert_eq!(bi.delimited().to_string(), "1,000");
    let bi = Bigint::from_str("10000").unwrap();
    assert_eq!(bi.delimited().to_string(), "10,000");
    let bi = Bigint::from_str("100000000000").unwrap();
    assert_eq!(bi.delimited().to_string(), "100,000,000,000");
    let bi = Bigint::from_str("10000000").unwrap();
    assert_eq!(bi.delimited().to_string(), "10,000,000");
    let bi = Bigint::from_str("1").unwrap();
    assert_eq!(bi.delimited().to_string(), "1");
}

#[test]
fn empty_and_invalid_digits() {
    let empty = Bigint::from_str("").unwrap();
    assert_eq!(empty.digits, Vec::<u8>::new());
    assert_eq!(empty.to_string(), "0");
    assert_eq!(empty.delimited().to_string(), "0");
    assert_eq!(Bigint::from_str("12a"), Err("Invalid input!"));
    assert_eq!(Bigint::from_str("-1"), Err("Invalid input!"));
    assert_eq!(Bigint::from_str("123456").unwrap().delimited().to_string(), "123,456");
}
