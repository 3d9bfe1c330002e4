use eq::operation::Operation;
use eq::parser::{expr, identity, is_whitespace, isnt_whitespace, keyword, map_call, ParseFailure};
use eq::value::Value;

fn kw(name: &str) -> Value {
    Value::Keyword(name.to_owned())
}

#[test]
fn test_identity() {
    assert_eq!(identity(b"."), Ok((&b""[..], Operation::Identity)));
    assert_eq!(identity(b".."), Ok((&b"."[..], Operation::Identity)));
}

#[test]
fn test_keyword() {
    assert_eq!(
        keyword(b":abc\n"),
        Ok((&b"\n"[..], Operation::Get(Value::Keyword("abc".to_owned()))))
    );
    assert_eq!(
        keyword(b":abc def"),
        Ok((&b" def"[..], Operation::Get(Value::Keyword("abc".to_owned()))))
    );
}

#[test]
fn step_dot_is_identity_of_one_byte() {
    assert_eq!(expr(b"."), Ok((&b""[..], Operation::Identity)));
}

#[test]
fn step_keyword_stops_at_separator() {
    assert_eq!(expr(b":abc"), Ok((&b""[..], Operation::Get(kw("abc")))));
    assert_eq!(expr(b":abc def"), Ok((&b" def"[..], Operation::Get(kw("abc")))));
    assert_eq!(expr(b":a,b"), Ok((&b",b"[..], Operation::Get(kw("a")))));
}

#[test]
fn step_without_rule_fails() {
    assert_eq!(expr(b"x"), Err(ParseFailure { remaining: 1 }));
    assert_eq!(expr(b""), Err(ParseFailure { remaining: 0 }));
}

#[test]
fn keyword_needs_a_token() {
    assert!(keyword(b":").is_err());
    assert!(keyword(b": abc").is_err());
    assert!(keyword(b"abc").is_err());
}

#[test]
fn keyword_token_must_be_utf8() {
    assert!(keyword(b":\xff\xfe").is_err());
    assert_eq!(
        keyword(":caf\u{e9}".as_bytes()),
        Ok((&b""[..], Operation::Get(kw("caf\u{e9}"))))
    );
}

#[test]
fn map_call_wraps_inner_step() {
    assert_eq!(
        map_call(b"map(.)"),
        Ok((&b""[..], Operation::MapEach(Box::new(Operation::Identity))))
    );
    assert_eq!(
        expr(b"map(map(.))!"),
        Ok((
            &b"!"[..],
            Operation::MapEach(Box::new(Operation::MapEach(Box::new(Operation::Identity))))
        ))
    );
    assert_eq!(
        expr(b"map(map(.)))"),
        Ok((
            &b")"[..],
            Operation::MapEach(Box::new(Operation::MapEach(Box::new(Operation::Identity))))
        ))
    );
}

#[test]
fn map_call_needs_closing_paren() {
    assert!(map_call(b"map(.").is_err());
    assert!(map_call(b"map(.]").is_err());
    // the token of a keyword runs up to a separator, so it takes the ')'
    assert!(expr(b"map(:a)").is_err());
    // nor is whitespace skipped before the ')'
    assert!(expr(b"map(:a )").is_err());
    assert!(expr(b"map( .)").is_err());
    assert!(map_call(b"mop(.)").is_err());
}

#[test]
fn separators() {
    for c in [b' ', b'\t', b'\n', b'\r', 0x0c, b','] {
        assert!(is_whitespace(c));
        assert!(!isnt_whitespace(c));
    }
    for c in [b'a', b'.', b')', 0x0b] {
        assert!(!is_whitespace(c));
        assert!(isnt_whitespace(c));
    }
}
