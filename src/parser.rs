use vstd::prelude::*;
use vstd::utf8::{decode_utf8, valid_utf8};
use crate::operation::{Operation, OperationView};
use crate::value::{Value, ValueView};

verus! {

/// Why an expression could not be parsed: `remaining` bytes of it were left
/// where no rule of the grammar applied.
#[derive(Clone, Copy, Debug, PartialEq, Eq)]
pub struct ParseFailure {
    pub remaining: usize,
}

/// ASCII whitespace, and the comma, separate tokens.
pub open spec fn is_space(c: u8) -> bool {
    c == 0x20 || c == 0x09 || c == 0x0a || c == 0x0c || c == 0x0d || c == 0x2c
}

/// The number of bytes before the first separator (or the end).
pub open spec fn token_len(b: Seq<u8>) -> int
    decreases b.len(),
{
    if b.len() == 0 || is_space(b[0]) {
        0
    } else {
        1 + token_len(b.drop_first())
    }
}

/// `'.'`: the identity step, one byte long.
pub open spec fn parse_identity(b: Seq<u8>) -> Option<(OperationView, int)> {
    if b.len() >= 1 && b[0] == 0x2e {
        Some((OperationView::Identity, 1))
    } else {
        None
    }
}

/// `':' token`: a lookup of the keyword spelled by the token, which must be
/// one or more bytes of well-formed UTF-8.
pub open spec fn parse_keyword(b: Seq<u8>) -> Option<(OperationView, int)> {
    if b.len() >= 1 && b[0] == 0x3a {
        let t = token_len(b.drop_first());
        let tok = b.subrange(1, 1 + t);
        if t > 0 && valid_utf8(tok) {
            Some((OperationView::Get(ValueView::Keyword(decode_utf8(tok))), 1 + t))
        } else {
            None
        }
    } else {
        None
    }
}

/// Whether the bytes start with `map(`.
pub open spec fn starts_with_map(b: Seq<u8>) -> bool {
    b.len() >= 4 && b[0] == 0x6d && b[1] == 0x61 && b[2] == 0x70 && b[3] == 0x28
}

/// `"map(" step ')'`: the inner step applied to each element.
pub open spec fn parse_map_call(b: Seq<u8>) -> Option<(OperationView, int)>
    decreases b.len(), 1int,
{
    if starts_with_map(b) {
        match parse_step(b.subrange(4, b.len() as int)) {
            Some((inner, n)) => if 4 + n < b.len() && b[4 + n] == 0x29 {
                Some((OperationView::MapEach(Box::new(inner)), 4 + n + 1))
            } else {
                None
            },
            None => None,
        }
    } else {
        None
    }
}

/// One step of the grammar: the first of identity, keyword and map call
/// that matches, with the number of bytes it consumed.
pub open spec fn parse_step(b: Seq<u8>) -> Option<(OperationView, int)>
    decreases b.len(), 2int,
{
    if parse_identity(b) is Some {
        parse_identity(b)
    } else if parse_keyword(b) is Some {
        parse_keyword(b)
    } else {
        parse_map_call(b)
    }
}

/// What an exec parser returned, against what the grammar says of its input.
pub open spec fn parsed_as(
    b: Seq<u8>,
    r: Result<(&[u8], Operation), ParseFailure>,
    expected: Option<(OperationView, int)>,
) -> bool {
    match r {
        Ok((rest, op)) => expected is Some && op@ == expected->Some_0.0
            && rest@ == b.subrange(expected->Some_0.1, b.len() as int),
        Err(_) => expected is None,
    }
}

/// Relies on std::str::from_utf8, which accepts exactly the well-formed
/// UTF-8 byte strings and reads them as the characters they encode.
#[verifier::external_body]
fn decode_text(bytes: &[u8]) -> (r: Option<String>)
    ensures
        match r {
            Some(s) => valid_utf8(bytes@) && s@ == decode_utf8(bytes@),
            None => !valid_utf8(bytes@),
        },
{
    match std::str::from_utf8(bytes) {
        Ok(s) => Some(s.to_owned()),
        Err(_) => None,
    }
}

/// The lookup of the keyword a token spells, if the token is well-formed
/// UTF-8.
pub fn keyword_to_get_op(keyword: &[u8]) -> (r: Option<Operation>)
    ensures
        match r {
            Some(op) => valid_utf8(keyword@) && op@ == OperationView::Get(
                ValueView::Keyword(decode_utf8(keyword@)),
            ),
            None => !valid_utf8(keyword@),
        },
{
    match decode_text(keyword) {
        Some(name) => Some(Operation::Get(Value::Keyword(name))),
        None => None,
    }
}

/// Whether a byte separates tokens: ASCII whitespace or a comma.
pub fn is_whitespace(c: u8) -> (r: bool)
    ensures
        r == is_space(c),
{
    c == 0x20 || c == 0x09 || c == 0x0a || c == 0x0c || c == 0x0d || c == 0x2c
}

/// Whether a byte can stand in a token.
pub fn isnt_whitespace(c: u8) -> (r: bool)
    ensures
        r == !is_space(c),
{
    !is_whitespace(c)
}

/// Parses `.`, the identity step.
pub fn identity(input: &[u8]) -> (r: Result<(&[u8], Operation), ParseFailure>)
    ensures
        parsed_as(input@, r, parse_identity(input@)),
{
    if input.len() >= 1 && input[0] == 0x2e {
        let (_, rest) = input.split_at(1);
        Ok((rest, Operation::Identity))
    } else {
        Err(ParseFailure { remaining: input.len() })
    }
}

proof fn lemma_token_len(b: Seq<u8>, i: int)
    requires
        0 <= i <= b.len(),
        forall|j: int| 0 <= j < i ==> !is_space(#[trigger] b[j]),
    ensures
        token_len(b) == i + token_len(b.subrange(i, b.len() as int)),
    decreases i,
{
    if i > 0 {
        lemma_token_len(b.drop_first(), i - 1);
        assert(b.drop_first().subrange(i - 1, b.drop_first().len() as int) =~= b.subrange(i, b.len() as int));
    } else {
        assert(b.subrange(0, b.len() as int) =~= b);
    }
}

/// Parses `:token`, a lookup of a keyword.
pub fn keyword(input: &[u8]) -> (r: Result<(&[u8], Operation), ParseFailure>)
    ensures
        parsed_as(input@, r, parse_keyword(input@)),
{
    if input.len() == 0 || input[0] != 0x3a {
        return Err(ParseFailure { remaining: input.len() });
    }
    let ghost b = input@.drop_first();
    let mut i: usize = 1;
    while i < input.len() && isnt_whitespace(input[i])
        invariant
            1 <= i <= input@.len(),
            b == input@.drop_first(),
            forall|j: int| 0 <= j < i - 1 ==> !is_space(#[trigger] b[j]),
        decreases input@.len() - i,
    {
        i = i + 1;
    }
    proof {
        lemma_token_len(b, i - 1);
        if i < input.len() {
            assert(b.subrange(i - 1, b.len() as int)[0] == input@[i as int]);
        } else {
            assert(b.subrange(i - 1, b.len() as int).len() == 0);
        }
        assert(token_len(b) == i - 1);
    }
    if i == 1 {
        return Err(ParseFailure { remaining: input.len() });
    }
    let (head, rest) = input.split_at(i);
    let (_, token) = head.split_at(1);
    assert(token@ =~= input@.subrange(1, i as int));
    match keyword_to_get_op(token) {
        Some(op) => Ok((rest, op)),
        None => Err(ParseFailure { remaining: input.len() }),
    }
}

/// A step consumes at least one byte and no more than there are.
pub proof fn lemma_parse_step_bounds(b: Seq<u8>)
    ensures
        parse_step(b) is Some ==> 0 < parse_step(b)->Some_0.1 <= b.len(),
        parse_map_call(b) is Some ==> 0 < parse_map_call(b)->Some_0.1 <= b.len(),
    decreases b.len(),
{
    if b.len() >= 1 && b[0] == 0x3a {
        lemma_token_len_bound(b.drop_first());
    }
    if starts_with_map(b) {
        lemma_parse_step_bounds(b.subrange(4, b.len() as int));
    }
}

proof fn lemma_token_len_bound(b: Seq<u8>)
    ensures
        0 <= token_len(b) <= b.len(),
    decreases b.len(),
{
    if b.len() > 0 {
        lemma_token_len_bound(b.drop_first());
    }
}

/// Parses `map(step)`, the mapped application of a nested step.
pub fn map_call(input: &[u8]) -> (r: Result<(&[u8], Operation), ParseFailure>)
    ensures
        parsed_as(input@, r, parse_map_call(input@)),
    decreases input@.len(), 1int,
{
    if !(input.len() >= 4 && input[0] == 0x6d && input[1] == 0x61 && input[2] == 0x70 && input[3] == 0x28) {
        return Err(ParseFailure { remaining: input.len() });
    }
    let (_, body) = input.split_at(4);
    proof {
        lemma_parse_step_bounds(body@);
    }
    match expr(body) {
        Ok((rest, inner)) => {
            if rest.len() >= 1 && rest[0] == 0x29 {
                let (_, after) = rest.split_at(1);
                proof {
                    let n = input@.len() - 4 - rest@.len();
                    assert(rest@ =~= input@.subrange(4 + n, input@.len() as int));
                    assert(rest@[0] == input@[4 + n]);
                    assert(after@ =~= input@.subrange(4 + n + 1, input@.len() as int));
                }
                Ok((after, Operation::MapEach(Box::new(inner))))
            } else {
                Err(ParseFailure { remaining: rest.len() })
            }
        },
        Err(e) => Err(e),
    }
}

/// Parses one step: identity, keyword lookup or map call, the first that
/// matches.
pub fn expr(input: &[u8]) -> (r: Result<(&[u8], Operation), ParseFailure>)
    ensures
        parsed_as(input@, r, parse_step(input@)),
    decreases input@.len(), 2int,
{
    match identity(input) {
        Ok(parsed) => {
            return Ok(parsed);
        },
        Err(_) => {},
    }
    match keyword(input) {
        Ok(parsed) => {
            return Ok(parsed);
        },
        Err(_) => {},
    }
    map_call(input)
}

/// An input that starts with `.` parses as the identity step and consumes
/// exactly that one byte.
pub proof fn law_parse_identity(b: Seq<u8>)
    requires
        b.len() >= 1,
        b[0] == 0x2e,
    ensures
        parse_step(b) == Some((OperationView::Identity, 1int)),
{
}

/// `:` followed by a token parses as a lookup of the keyword the token
/// spells; parsing stops at the first separator and leaves it unconsumed.
pub proof fn law_parse_keyword(tok: Seq<u8>, rest: Seq<u8>)
    requires
        tok.len() > 0,
        forall|i: int| 0 <= i < tok.len() ==> !is_space(#[trigger] tok[i]),
        valid_utf8(tok),
        rest.len() == 0 || is_space(rest[0]),
    ensures
        parse_step(seq![0x3au8] + tok + rest) == Some(
            (OperationView::Get(ValueView::Keyword(decode_utf8(tok))), 1 + tok.len() as int),
        ),
{
    let b = seq![0x3au8] + tok + rest;
    let t = tok + rest;
    assert(b.drop_first() =~= t);
    lemma_token_len(t, tok.len() as int);
    assert(t.subrange(tok.len() as int, t.len() as int) =~= rest);
    assert(b.subrange(1, 1 + tok.len() as int) =~= tok);
}

/// An input whose first byte starts no rule of the grammar does not parse.
pub proof fn law_parse_no_rule(b: Seq<u8>)
    requires
        b.len() == 0 || (b[0] != 0x2e && b[0] != 0x3a && b[0] != 0x6d),
    ensures
        parse_step(b) is None,
{
}

} // verus!
