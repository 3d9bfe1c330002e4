use std::cmp::Ordering;

use eq::order::{compare, kind_rank};
use eq::value::Value;

fn s(text: &str) -> Value {
    Value::String(text.to_owned())
}

fn float(f: f64) -> Value {
    Value::Float(f.to_bits())
}

#[test]
fn kinds_in_rank_order() {
    let values = vec![
        Value::Nil,
        Value::Boolean(false),
        s("a"),
        Value::Char('a'),
        Value::Symbol("a".to_owned()),
        Value::Keyword("a".to_owned()),
        Value::Integer(0),
        float(0.0),
        Value::List(vec![]),
        Value::Vector(vec![]),
        Value::MapOf(vec![]),
        Value::SetOf(vec![]),
        Value::Tagged("t".to_owned(), Box::new(Value::Nil)),
    ];
    for (i, a) in values.iter().enumerate() {
        assert_eq!(kind_rank(a) as usize, i);
        for (j, b) in values.iter().enumerate() {
            assert_eq!(compare(a, b), i.cmp(&j));
        }
    }
}

#[test]
fn scalars_in_natural_order() {
    assert_eq!(compare(&Value::Integer(-5), &Value::Integer(3)), Ordering::Less);
    assert_eq!(compare(&Value::Boolean(true), &Value::Boolean(false)), Ordering::Greater);
    assert_eq!(compare(&s("abc"), &s("abd")), Ordering::Less);
    assert_eq!(compare(&s("ab"), &s("abc")), Ordering::Less);
    assert_eq!(compare(&s("\u{e9}"), &s("z")), Ordering::Greater);
    assert_eq!(compare(&Value::Char('b'), &Value::Char('a')), Ordering::Greater);
    assert_eq!(compare(&s("same"), &s("same")), Ordering::Equal);
}

#[test]
fn floats_in_numeric_order() {
    assert_eq!(compare(&float(-2.0), &float(-1.0)), Ordering::Less);
    assert_eq!(compare(&float(-1.0), &float(0.5)), Ordering::Less);
    assert_eq!(compare(&float(1.5), &float(0.5)), Ordering::Greater);
    assert_eq!(compare(&float(-0.0), &float(0.0)), Ordering::Less);
    assert_eq!(compare(&float(3.25), &float(3.25)), Ordering::Equal);
}

#[test]
fn sequences_lexicographic() {
    let a = Value::Vector(vec![Value::Integer(1), Value::Integer(2)]);
    let b = Value::Vector(vec![Value::Integer(1), Value::Integer(3)]);
    let c = Value::Vector(vec![Value::Integer(1)]);
    assert_eq!(compare(&a, &b), Ordering::Less);
    assert_eq!(compare(&c, &a), Ordering::Less);
    assert_eq!(compare(&a, &a), Ordering::Equal);
    let m1 = Value::MapOf(vec![(Value::Integer(1), s("x"))]);
    let m2 = Value::MapOf(vec![(Value::Integer(1), s("y"))]);
    assert_eq!(compare(&m1, &m2), Ordering::Less);
    let t1 = Value::Tagged("a".to_owned(), Box::new(Value::Integer(9)));
    let t2 = Value::Tagged("b".to_owned(), Box::new(Value::Integer(1)));
    assert_eq!(compare(&t1, &t2), Ordering::Less);
}
