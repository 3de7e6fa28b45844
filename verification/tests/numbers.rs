use sal::num::{euclid, Int, Rat};
use sal::value::Value;

fn whole(i: i64) -> Int {
    Int::from_i64(i)
}

#[test]
fn integers() {
    let big = Int::parse("123456789012345678901234567890").unwrap();
    assert_eq!(big.text(), "123456789012345678901234567890");
    assert_eq!(big.plus(&whole(1)).text(), "123456789012345678901234567891");
    assert_eq!(big.minus(&big).text(), "0");
    assert_eq!(whole(-7).times(&whole(6)).text(), "-42");
    assert_eq!(whole(-7).quotient(&whole(2)).text(), "-3");
    assert_eq!(Int::parse_radix("1F", 16).unwrap().text(), "31");
    assert!(Int::parse("12a").is_none());
    assert_eq!(whole(9).to_u64(), Some(9));
    assert_eq!(whole(-9).to_u64(), None);
}

#[test]
fn division_leaves_no_negative_remainder() {
    for a in -7..8 {
        for b in [-3, -2, 2, 3] {
            let (q, r) = euclid(&whole(a), &whole(b));
            assert!(!r.is_negative());
            assert_eq!(q.times(&whole(b)).plus(&r).text(), a.to_string());
        }
    }
    let (q, r) = euclid(&whole(-7), &whole(2));
    assert_eq!((q.text(), r.text()), ("-4".to_string(), "1".to_string()));
}

#[test]
fn rationals() {
    let half = Rat::new(&whole(2), &whole(4));
    assert_eq!(half.numer().text(), "1");
    assert_eq!(half.denom().text(), "2");
    let third = Rat::new(&whole(-1), &whole(-3));
    assert_eq!(Value::num(half.plus(&third)).text(), "5/6");
    assert_eq!(Value::num(half.times(&third)).text(), "1/6");
    assert_eq!(Value::num(half.over(&third)).text(), "3/2");
    assert!(third.less(&half));
    assert!(half.minus(&half).is_zero());
}

#[test]
fn values() {
    assert_eq!(Value::integer(-3).text(), "-3");
    assert_eq!(Value::Bool(true).text(), "true");
    assert_eq!(Value::integer(5).as_usize(), Some(5));
    assert_eq!(Value::integer(-5).as_usize(), None);
    assert!(Value::Tuple(vec![Value::Bool(true)]).same(&Value::Tuple(vec![Value::Bool(true)])));
    assert!(!Value::Bool(true).same(&Value::Bool(false)));
}
