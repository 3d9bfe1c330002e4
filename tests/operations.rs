use eq::operation::{Operation, OperationError};
use eq::value::{value_type_name, Value};

fn kw(name: &str) -> Value {
    Value::Keyword(name.to_owned())
}

fn integer(i: i64) -> Value {
    Value::Integer(i)
}

fn sample_map() -> Value {
    Value::MapOf(vec![(kw("a"), integer(1)), (kw("b"), integer(2))])
}

fn mismatch(op: &str, kind: &str) -> OperationError {
    OperationError(format!("Can not apply '{}' operation to {}", op, kind))
}

#[test]
fn identity_returns_input() {
    assert_eq!(Operation::Identity.execute(sample_map()), Ok(sample_map()));
    assert_eq!(Operation::Identity.execute(Value::Nil), Ok(Value::Nil));
    assert_eq!(
        Operation::Identity.execute(Value::Float((2.5f64).to_bits())),
        Ok(Value::Float((2.5f64).to_bits()))
    );
}

#[test]
fn get_present_and_absent_keys() {
    assert_eq!(Operation::Get(kw("a")).execute(sample_map()), Ok(integer(1)));
    assert_eq!(Operation::Get(kw("b")).execute(sample_map()), Ok(integer(2)));
    assert_eq!(Operation::Get(kw("c")).execute(sample_map()), Ok(Value::Nil));
    assert_eq!(
        Operation::Get(Value::Symbol("a".to_owned())).execute(sample_map()),
        Ok(Value::Nil)
    );
    assert_eq!(Operation::Get(kw("a")).execute(Value::MapOf(vec![])), Ok(Value::Nil));
}

#[test]
fn get_on_other_kinds_fails() {
    let cases = vec![
        (Value::Nil, "nil"),
        (Value::Boolean(true), "a boolean"),
        (Value::String("s".to_owned()), "a string"),
        (Value::Char('c'), "a character"),
        (Value::Symbol("s".to_owned()), "a symbol"),
        (kw("k"), "a keyword"),
        (integer(3), "an integer"),
        (Value::Float((1.0f64).to_bits()), "a float"),
        (Value::List(vec![]), "a list"),
        (Value::Vector(vec![sample_map()]), "a vector"),
        (Value::SetOf(vec![]), "a set"),
        (Value::Tagged("inst".to_owned(), Box::new(integer(1))), "a tagged"),
    ];
    for (v, kind) in cases {
        assert_eq!(Operation::Get(kw("a")).execute(v), Err(mismatch("get", kind)));
    }
}

#[test]
fn keys_and_values_of_empty_map() {
    assert_eq!(Operation::Keys.execute(Value::MapOf(vec![])), Ok(Value::Vector(vec![])));
    assert_eq!(Operation::Values.execute(Value::MapOf(vec![])), Ok(Value::Vector(vec![])));
}

#[test]
fn keys_and_values_line_up() {
    assert_eq!(
        Operation::Keys.execute(sample_map()),
        Ok(Value::Vector(vec![kw("a"), kw("b")]))
    );
    assert_eq!(
        Operation::Values.execute(sample_map()),
        Ok(Value::Vector(vec![integer(1), integer(2)]))
    );
}

#[test]
fn keys_and_values_need_a_map() {
    assert_eq!(Operation::Keys.execute(integer(1)), Err(mismatch("keys", "an integer")));
    assert_eq!(
        Operation::Values.execute(Value::List(vec![])),
        Err(mismatch("values", "a list"))
    );
}

#[test]
fn map_over_list_and_vector_keeps_order() {
    let op = Operation::MapEach(Box::new(Operation::Get(kw("a"))));
    let items = || {
        vec![
            Value::MapOf(vec![(kw("a"), integer(1))]),
            Value::MapOf(vec![(kw("a"), integer(2))]),
            Value::MapOf(vec![(kw("b"), integer(3))]),
        ]
    };
    let expected = Value::Vector(vec![integer(1), integer(2), Value::Nil]);
    assert_eq!(op.execute(Value::List(items())), Ok(expected));
    let expected = Value::Vector(vec![integer(1), integer(2), Value::Nil]);
    assert_eq!(op.execute(Value::Vector(items())), Ok(expected));
}

#[test]
fn map_over_set_in_canonical_order() {
    let op = Operation::MapEach(Box::new(Operation::Identity));
    let set = Value::SetOf(vec![integer(1), integer(2), integer(3)]);
    assert_eq!(op.execute(set), Ok(Value::Vector(vec![integer(1), integer(2), integer(3)])));
}

#[test]
fn map_stops_at_first_failure() {
    let op = Operation::MapEach(Box::new(Operation::Keys));
    let input = Value::Vector(vec![
        Value::MapOf(vec![(kw("a"), integer(1))]),
        integer(7),
        Value::String("x".to_owned()),
    ]);
    assert_eq!(op.execute(input), Err(mismatch("keys", "an integer")));
}

#[test]
fn map_needs_a_sequence() {
    let op = Operation::MapEach(Box::new(Operation::Identity));
    assert_eq!(op.execute(sample_map()), Err(mismatch("map", "a map")));
    assert_eq!(op.execute(Value::Nil), Err(mismatch("map", "nil")));
}

#[test]
fn nested_map() {
    let op = Operation::MapEach(Box::new(Operation::MapEach(Box::new(Operation::Identity))));
    let input = Value::List(vec![Value::Vector(vec![integer(1)]), Value::List(vec![integer(2), integer(3)])]);
    assert_eq!(
        op.execute(input),
        Ok(Value::Vector(vec![Value::Vector(vec![integer(1)]), Value::Vector(vec![integer(2), integer(3)])]))
    );
}

#[test]
fn kind_names() {
    assert_eq!(value_type_name(&Value::Nil), "nil");
    assert_eq!(value_type_name(&Value::Integer(0)), "an integer");
    assert_eq!(value_type_name(&Value::MapOf(vec![])), "a map");
    assert_eq!(value_type_name(&Value::Tagged("t".to_owned(), Box::new(Value::Nil))), "a tagged");
}
