use eq::operation::{Operation, OperationError};
use eq::parser::ParseFailure;
use eq::transform::{parse_transform, transform_edn, transform_form, transform_forms, TransformError, TransformOptions};
use eq::value::Value;

fn kw(name: &str) -> Value {
    Value::Keyword(name.to_owned())
}

fn integer(i: i64) -> Value {
    Value::Integer(i)
}

fn options(expression: &str) -> TransformOptions {
    TransformOptions { expression: expression.to_owned() }
}

#[test]
fn get_keyword_end_to_end() {
    let form = Value::MapOf(vec![(kw("a"), integer(1)), (kw("b"), integer(2))]);
    assert_eq!(transform_edn(vec![form], &options(":a")), Ok(vec![integer(1)]));
}

#[test]
fn keys_applied_to_each_form() {
    let forms = vec![
        Value::MapOf(vec![(kw("a"), integer(1))]),
        Value::MapOf(vec![(kw("a"), integer(2))]),
    ];
    assert_eq!(
        transform_forms(forms, &vec![Operation::Keys]),
        Ok(vec![Value::Vector(vec![kw("a")]), Value::Vector(vec![kw("a")])])
    );
}

#[test]
fn map_identity_end_to_end() {
    let form = Value::Vector(vec![integer(1), integer(2), integer(3)]);
    assert_eq!(
        transform_edn(vec![form], &options("map(.)")),
        Ok(vec![Value::Vector(vec![integer(1), integer(2), integer(3)])])
    );
}

#[test]
fn parse_transform_takes_whole_expression() {
    assert_eq!(parse_transform("."), Ok(vec![Operation::Identity]));
    assert_eq!(parse_transform(". "), Err(ParseFailure { remaining: 1 }));
    assert_eq!(parse_transform(":abc def"), Err(ParseFailure { remaining: 4 }));
    assert_eq!(parse_transform(""), Err(ParseFailure { remaining: 0 }));
    assert_eq!(parse_transform("x"), Err(ParseFailure { remaining: 1 }));
}

#[test]
fn parse_failure_gates_evaluation() {
    assert_eq!(
        transform_edn(vec![integer(1)], &options("nope")),
        Err(TransformError::Parse(ParseFailure { remaining: 4 }))
    );
}

#[test]
fn batch_is_fail_fast() {
    let forms = vec![Value::MapOf(vec![(kw("a"), integer(1))]), integer(5), Value::MapOf(vec![])];
    assert_eq!(
        transform_edn(forms, &options(":a")),
        Err(TransformError::Operation(OperationError(
            "Can not apply 'get' operation to an integer".to_owned()
        )))
    );
}

#[test]
fn empty_batch() {
    assert_eq!(transform_edn(vec![], &options(".")), Ok(vec![]));
}

#[test]
fn pipeline_composes_left_to_right() {
    let ops = vec![Operation::Get(kw("a")), Operation::Keys];
    let form = Value::MapOf(vec![(kw("a"), Value::MapOf(vec![(kw("b"), integer(1))]))]);
    assert_eq!(transform_form(form, &ops), Ok(Value::Vector(vec![kw("b")])));
    let form = Value::MapOf(vec![(kw("a"), integer(1))]);
    assert_eq!(
        transform_form(form, &ops),
        Err(OperationError("Can not apply 'keys' operation to an integer".to_owned()))
    );
    assert_eq!(transform_form(integer(4), &vec![]), Ok(integer(4)));
}
