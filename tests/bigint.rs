use stack_machine::bigint::Bigint;
use std::cmp::Ordering;
use std::str::FromStr;

fn bigint(s: &str) -> Bigint {
    Bigint::from_str(s).unwrap()
}

#[test]
fn pos_neg() {
    let a = vec![1, 2, 3];
    let b = vec![1, 2, 3];

    let pos = Bigint { sign: 1, digits: a };
    let neg = Bigint { sign: -1, digits: b };

    assert_eq!(pos.is_negative(), false);
    assert_eq!(neg.is_negative(), true);
    assert_eq!(pos.is_positive(), true);
    assert_eq!(neg.is_positive(), false);

    let c = vec![0];
    let zero = Bigint { sign: 1, digits: c };
    assert_eq!(zero.is_positive(), false);
    assert_eq!(zero.is_negative(), false);
}

#[test]
fn test_from_string() {
    let a = Bigint::from_str("").unwrap();
    assert_eq!(a.digits, vec![0]);
    assert_eq!(a.sign, 1);

    let a = Bigint::from_str("123").unwrap();
    assert_eq!(a.digits, vec![1, 2, 3]);
    assert_eq!(a.sign, 1);

    let a = Bigint::from_str("-123").unwrap();
    assert_eq!(a.digits, vec![1, 2, 3]);
    assert_eq!(a.sign, -1);

    let a = Bigint::from_str("+123").unwrap();
    assert_eq!(a.digits, vec![1, 2, 3]);
    assert_eq!(a.sign, 1);

    let a = Bigint::from_str("-0").unwrap();
    assert_eq!(a, Bigint::new());
    assert_eq!(a.digits, vec![0]);
    assert_eq!(a.sign, 1);

    let a = Bigint::from_str("+0").unwrap();
    assert_eq!(a, Bigint::new());
    assert_eq!(a.digits, vec![0]);
    assert_eq!(a.sign, 1);

    let a = Bigint::from_str("+00000000013").unwrap();
    assert_eq!(a.digits, vec![1, 3]);
    assert_eq!(a.sign, 1);

    let a = Bigint::from_str("+0000").unwrap();
    assert_eq!(a, Bigint::new());
    assert_eq!(a.digits, vec![0]);
    assert_eq!(a.sign, 1);

    let a = Bigint::from_str("-0000").unwrap();
    assert_eq!(a, Bigint::new());
    assert_eq!(a.digits, vec![0]);
    assert_eq!(a.sign, 1);

    let a = Bigint::from_str("0").unwrap();
    assert_eq!(a.digits, vec![0]);
    assert_eq!(a.sign, 1);

    assert!(Bigint::from_str("abc").is_err());
    assert!(Bigint::from_str("1+2").is_err());
    assert!(Bigint::from_str("   12").is_err());
    assert!(Bigint::from_str("+1   ").is_err());
    assert!(Bigint::from_str("-").is_err());
}

#[test]
fn test_order() {
    let a = Bigint::from_str("-1").unwrap();
    let b = Bigint::from_str("2").unwrap();
    assert_eq!(a.cmp(&b), Ordering::Less);
    assert_eq!(b.cmp(&a), Ordering::Greater);

    let a = Bigint::from_str("1").unwrap();
    let b = Bigint::from_str("2").unwrap();
    assert_eq!(a.cmp(&b), Ordering::Less);

    let a = Bigint::from_str("-1").unwrap();
    let b = Bigint::from_str("-2").unwrap();
    assert_eq!(a.cmp(&b), Ordering::Greater);

    let a = Bigint::from_str("10").unwrap();
    let b = Bigint::from_str("2").unwrap();
    assert_eq!(a.cmp(&b), Ordering::Greater);
    assert_eq!(b.cmp(&a), Ordering::Less);

    let a = Bigint::from_str("-10").unwrap();
    let b = Bigint::from_str("-2").unwrap();
    assert_eq!(a.cmp(&b), Ordering::Less);
    assert_eq!(b.cmp(&a), Ordering::Greater);

    let a = Bigint::from_str("-0").unwrap();
    let b = Bigint::from_str("+0").unwrap();
    assert_eq!(a.cmp(&b), Ordering::Equal);

    let a = Bigint::from_str("0").unwrap();
    let b = Bigint::from_str("+0").unwrap();
    assert_eq!(a.cmp(&b), Ordering::Equal);

    let a = Bigint::from_str("0").unwrap();
    let b = Bigint::from_str("50").unwrap();
    assert_eq!(a.cmp(&b), Ordering::Less);

    let a = Bigint::from_str("+5000").unwrap();
    let b = Bigint::from_str("5000").unwrap();
    assert_eq!(a.cmp(&b), Ordering::Equal);
}

#[test]
fn test_add_and_sub() {
    assert_eq!(
        Bigint::from_str("21325").unwrap().add(Bigint::from_str("12").unwrap()).digits,
        vec![2, 1, 3, 3, 7]
    );
    assert_eq!(
        Bigint::from_str("123456").unwrap().add(Bigint::from_str("444").unwrap()).digits,
        vec![1, 2, 3, 9, 0, 0]
    );
    assert_eq!(
        Bigint::from_str("15").unwrap().add(Bigint::from_str("15").unwrap()).digits,
        vec![3, 0]
    );
    assert_eq!(
        Bigint::from_str("+25").unwrap().add(Bigint::from_str("17").unwrap()).digits,
        vec![4, 2]
    );
    assert_eq!(
        Bigint::from_str("-25").unwrap().add(Bigint::from_str("-17").unwrap()),
        Bigint { sign: -1, digits: vec![4, 2] }
    );
    assert_eq!(
        Bigint::from_str("21325").unwrap().add(Bigint::from_str("-12").unwrap()).digits,
        vec![2, 1, 3, 1, 3]
    );
    assert_eq!(
        Bigint::from_str("25").unwrap().add(Bigint::from_str("-12").unwrap()).digits,
        vec![1, 3]
    );
    assert_eq!(
        Bigint::from_str("325").unwrap().add(Bigint::from_str("-98").unwrap()).digits,
        vec![2, 2, 7]
    );
    assert_eq!(
        Bigint::from_str("25").unwrap().add(Bigint::from_str("-25").unwrap()).digits,
        vec![0]
    );
    assert_eq!(
        Bigint::from_str("100").unwrap().add(Bigint::from_str("-99").unwrap()),
        Bigint { sign: 1, digits: vec![1] }
    );
    assert_eq!(
        Bigint::from_str("-25").unwrap().add(Bigint::from_str("25").unwrap()),
        Bigint { sign: 1, digits: vec![0] }
    );

    assert_eq!(
        Bigint::from_str("17").unwrap().sub(Bigint::from_str("19").unwrap()),
        Bigint { sign: -1, digits: vec![2] }
    );
    assert_eq!(
        Bigint::from_str("325").unwrap().sub(Bigint::from_str("98").unwrap()).digits,
        vec![2, 2, 7]
    );
    assert_eq!(
        Bigint::from_str("-25").unwrap().sub(Bigint::from_str("-25").unwrap()).digits,
        vec![0]
    );
    assert_eq!(
        Bigint::from_str("325").unwrap().sub(Bigint::from_str("98").unwrap()).digits,
        vec![2, 2, 7]
    );
    assert_eq!(
        bigint("156483998155463").add(bigint("15482265487796")),
        bigint("171966263643259")
    );
    assert_eq!(bigint("1298975").add(bigint("6665")), bigint("1305640"));
    assert_eq!(bigint("1298975").add(bigint("6665")), bigint("1305640"));
    assert_eq!(bigint("752").sub(bigint("354")), bigint("398"));
    assert_eq!(
        bigint("340282366920938463463374607431768211456")
            .add(bigint("565784967567542754765764575735654656546546555")),
        bigint("565785307849909675704228039110262088314758011")
    );
    assert_eq!(
        bigint("340282366920938463463374607431768211456")
            .sub(bigint("565784967567542754765764575735654656546546555")),
        bigint("-565784627285175833827301112361047224778335099")
    );
}

#[test]
fn lib_test_basic() {
    assert_eq!(Bigint::new(), bigint("0"));
    assert!(Bigint::from_str("foobar").is_err());

    assert!(bigint("1").is_positive());
    assert!(bigint("-1").is_negative());

    assert_eq!(bigint("123").add(bigint("456")), bigint("579"));
    assert_eq!(bigint("579").sub(bigint("456")), bigint("123"));

    assert_eq!(bigint("123").cmp(&bigint("122")), Ordering::Greater);
}

#[test]
fn bigint_edges() {
    assert_eq!(bigint("999").add(bigint("1")), Bigint { sign: 1, digits: vec![1, 0, 0, 0] });
    assert_eq!(bigint("1000").sub(bigint("1")), Bigint { sign: 1, digits: vec![9, 9, 9] });
    assert_eq!(bigint("-5").sub(bigint("-5")), Bigint::new());
    assert_eq!(bigint("0").sub(bigint("7")), Bigint { sign: -1, digits: vec![7] });
    assert_eq!(bigint("-0").sub(bigint("0")), Bigint::new());
    assert!(Bigint::parse("+").is_err());
    assert!(Bigint::parse("12a").is_err());
    assert!(!bigint("0").is_positive());
}
