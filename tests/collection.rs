use eq::collection::{map_insert, set_insert};
use eq::value::Value;

fn kw(name: &str) -> Value {
    Value::Keyword(name.to_owned())
}

fn integer(i: i64) -> Value {
    Value::Integer(i)
}

#[test]
fn map_insert_sorts_keys() {
    let mut entries = Vec::new();
    map_insert(&mut entries, kw("b"), integer(2));
    map_insert(&mut entries, kw("a"), integer(1));
    map_insert(&mut entries, integer(9), Value::Nil);
    // keywords rank before integers in the canonical order
    assert_eq!(entries, vec![(kw("a"), integer(1)), (kw("b"), integer(2)), (integer(9), Value::Nil)]);
}

#[test]
fn map_insert_replaces_equal_key() {
    let mut entries = Vec::new();
    map_insert(&mut entries, kw("a"), integer(1));
    map_insert(&mut entries, kw("b"), integer(2));
    map_insert(&mut entries, kw("a"), integer(3));
    assert_eq!(entries, vec![(kw("a"), integer(3)), (kw("b"), integer(2))]);
}

#[test]
fn set_insert_sorts_and_dedups() {
    let mut elems = Vec::new();
    set_insert(&mut elems, integer(3));
    set_insert(&mut elems, integer(1));
    set_insert(&mut elems, integer(3));
    set_insert(&mut elems, Value::Nil);
    set_insert(&mut elems, integer(2));
    assert_eq!(elems, vec![Value::Nil, integer(1), integer(2), integer(3)]);
}
