use vstd::prelude::*;
use vstd::utf8::encode_utf8;
use crate::operation::{Operation, OperationError, OperationView, outcome_view, run_op};
use crate::parser::{ParseFailure, expr, lemma_parse_step_bounds, parse_step};
use crate::value::{Value, ValueView, elems_view, lemma_elems_view};

verus! {

/// What the user asked for: the query expression.
pub struct TransformOptions {
    pub expression: String,
}

/// Why a run produced no output.
#[derive(Debug, PartialEq)]
pub enum TransformError {
    /// The expression does not match the grammar, or has bytes left over.
    Parse(ParseFailure),
    /// An operation failed on one of the forms.
    Operation(OperationError),
}

/// A whole expression is one step that consumes every byte of it.
pub open spec fn parse_whole(b: Seq<u8>) -> Option<OperationView> {
    match parse_step(b) {
        Some((op, n)) => if n == b.len() {
            Some(op)
        } else {
            None
        },
        None => None,
    }
}

/// The operations of a pipeline, applied left to right, each to the result
/// of the one before; the first failure is the result.
pub open spec fn run_pipeline(ops: Seq<OperationView>, v: ValueView) -> Result<ValueView, Seq<char>>
    decreases ops.len(),
{
    if ops.len() == 0 {
        Ok(v)
    } else {
        match run_pipeline(ops.drop_last(), v) {
            Ok(w) => run_op(ops.last(), w),
            Err(e) => Err(e),
        }
    }
}

/// The pipeline applied to the first `n` forms: all the results, or the
/// first failure.
pub open spec fn run_batch(ops: Seq<OperationView>, forms: Seq<ValueView>, n: int) -> Result<Seq<ValueView>, Seq<char>>
    decreases n,
{
    if n <= 0 || n > forms.len() {
        Ok(Seq::empty())
    } else {
        match run_batch(ops, forms, n - 1) {
            Err(e) => Err(e),
            Ok(ys) => match run_pipeline(ops, forms[n - 1]) {
                Ok(y) => Ok(ys.push(y)),
                Err(e) => Err(e),
            },
        }
    }
}

/// The models of a pipeline's operations, in order.
pub open spec fn ops_view(ops: Seq<Operation>) -> Seq<OperationView> {
    ops.map_values(|op: Operation| op@)
}

/// Parses an expression into a pipeline of one step; fails unless the step
/// takes up the whole expression.
pub fn parse_transform(expression: &str) -> (r: Result<Vec<Operation>, ParseFailure>)
    ensures
        match r {
            Ok(ops) => parse_whole(encode_utf8(expression@)) is Some && ops@.len() == 1
                && ops@[0]@ == parse_whole(encode_utf8(expression@))->Some_0,
            Err(_) => parse_whole(encode_utf8(expression@)) is None,
        },
{
    let bytes = expression.as_bytes();
    proof {
        lemma_parse_step_bounds(bytes@);
    }
    match expr(bytes) {
        Ok((rest, op)) => {
            if rest.len() == 0 {
                let mut ops: Vec<Operation> = Vec::new();
                ops.push(op);
                Ok(ops)
            } else {
                Err(ParseFailure { remaining: rest.len() })
            }
        },
        Err(e) => Err(e),
    }
}

/// Applies every operation of the pipeline in turn to one form.
pub fn transform_form(form: Value, operations: &Vec<Operation>) -> (r: Result<Value, OperationError>)
    ensures
        outcome_view(r) == run_pipeline(ops_view(operations@), form@),
{
    let ghost ops = ops_view(operations@);
    let mut acc = form;
    let mut i: usize = 0;
    assert(ops.subrange(0, 0) =~= Seq::<OperationView>::empty());
    while i < operations.len()
        invariant
            i <= operations@.len(),
            ops == ops_view(operations@),
            ops.len() == operations@.len(),
            run_pipeline(ops.subrange(0, i as int), form@) == Ok::<ValueView, Seq<char>>(acc@),
        decreases operations@.len() - i,
    {
        let ghost before = acc@;
        let result = operations[i].execute(acc);
        proof {
            assert(ops.subrange(0, i + 1).drop_last() =~= ops.subrange(0, i as int));
            assert(ops.subrange(0, i + 1).last() == operations@[i as int]@);
        }
        match result {
            Ok(v) => {
                acc = v;
            },
            Err(e) => {
                proof {
                    lemma_pipeline_failure(ops, form@, i as int + 1);
                }
                return Err(e);
            },
        }
        i = i + 1;
    }
    assert(ops.subrange(0, ops.len() as int) =~= ops);
    Ok(acc)
}

/// Once a prefix of a pipeline fails, the whole pipeline fails the same way.
proof fn lemma_pipeline_failure(ops: Seq<OperationView>, v: ValueView, n: int)
    requires
        0 <= n <= ops.len(),
        run_pipeline(ops.subrange(0, n), v) is Err,
    ensures
        run_pipeline(ops, v) == run_pipeline(ops.subrange(0, n), v),
    decreases ops.len() - n,
{
    if n < ops.len() {
        assert(ops.subrange(0, n + 1).drop_last() =~= ops.subrange(0, n));
        lemma_pipeline_failure(ops, v, n + 1);
    } else {
        assert(ops.subrange(0, n) =~= ops);
    }
}

/// Once the batch fails on a prefix, it fails the same way on every longer one.
proof fn lemma_batch_failure(ops: Seq<OperationView>, forms: Seq<ValueView>, n: int, m: int)
    requires
        0 <= n <= m <= forms.len(),
        run_batch(ops, forms, n) is Err,
    ensures
        run_batch(ops, forms, m) == run_batch(ops, forms, n),
    decreases m - n,
{
    if m > n {
        lemma_batch_failure(ops, forms, n, m - 1);
    }
}

/// The model of a batch's outcome.
pub open spec fn batch_view(r: Result<Vec<Value>, OperationError>) -> Result<Seq<ValueView>, Seq<char>> {
    match r {
        Ok(vs) => Ok(elems_view(vs@)),
        Err(e) => Err(e.0@),
    }
}

/// Applies the pipeline to every form in order. The first failure aborts
/// the batch: no form is returned, only that error.
pub fn transform_forms(forms: Vec<Value>, operations: &Vec<Operation>) -> (r: Result<Vec<Value>, OperationError>)
    ensures
        batch_view(r) == run_batch(ops_view(operations@), elems_view(forms@), forms@.len() as int),
{
    let ghost ops = ops_view(operations@);
    let ghost s = forms@;
    let ghost fv = elems_view(forms@);
    proof {
        lemma_elems_view(forms@);
    }
    let mut out: Vec<Value> = Vec::new();
    for form in it: forms
        invariant
            it.seq() == s,
            ops == ops_view(operations@),
            fv == elems_view(s),
            fv.len() == s.len(),
            forall|j: int| 0 <= j < s.len() ==> #[trigger] fv[j] == s[j]@,
            it.index() <= s.len(),
            run_batch(ops, fv, it.index() as int) == Ok::<Seq<ValueView>, Seq<char>>(elems_view(out@)),
    {
        let ghost k = it.index();
        match transform_form(form, operations) {
            Ok(v) => {
                proof {
                    assert(out@.push(v).subrange(0, out@.len() as int) =~= out@);
                }
                out.push(v);
            },
            Err(e) => {
                proof {
                    lemma_batch_failure(ops, fv, k + 1, fv.len() as int);
                }
                return Err(e);
            },
        }
    }
    Ok(out)
}

/// Parses the expression, then applies it to every form. A parse failure
/// comes before any form is looked at; an operation failure on any form
/// leaves no output at all.
pub fn transform_edn(forms: Vec<Value>, transform: &TransformOptions) -> (r: Result<Vec<Value>, TransformError>)
    ensures
        match parse_whole(encode_utf8(transform.expression@)) {
            None => r matches Err(TransformError::Parse(_)),
            Some(op) => match run_batch(seq![op], elems_view(forms@), forms@.len() as int) {
                Ok(ys) => r matches Ok(vs) && elems_view(vs@) == ys,
                Err(m) => r matches Err(TransformError::Operation(e)) && e.0@ == m,
            },
        },
{
    let operations = match parse_transform(transform.expression.as_str()) {
        Ok(ops) => ops,
        Err(e) => {
            return Err(TransformError::Parse(e));
        },
    };
    assert(ops_view(operations@) =~= seq![operations@[0]@]);
    match transform_forms(forms, &operations) {
        Ok(vs) => Ok(vs),
        Err(e) => Err(TransformError::Operation(e)),
    }
}

proof fn lemma_batch_success(ops: Seq<OperationView>, forms: Seq<ValueView>, n: int)
    requires
        0 <= n <= forms.len(),
        forall|i: int| 0 <= i < forms.len() ==> (#[trigger] run_pipeline(ops, forms[i])) is Ok,
    ensures
        run_batch(ops, forms, n) is Ok,
        run_batch(ops, forms, n)->Ok_0.len() == n,
        forall|i: int|
            0 <= i < n ==> Ok::<ValueView, Seq<char>>(#[trigger] run_batch(ops, forms, n)->Ok_0[i])
                == run_pipeline(ops, forms[i]),
    decreases n,
{
    if n > 0 {
        lemma_batch_success(ops, forms, n - 1);
        assert(run_pipeline(ops, forms[n - 1]) is Ok);
    }
}

proof fn lemma_batch_same(ops: Seq<OperationView>, xs: Seq<ValueView>, ys: Seq<ValueView>, n: int)
    requires
        0 <= n <= xs.len(),
        n <= ys.len(),
        forall|i: int| 0 <= i < n ==> xs[i] == ys[i],
    ensures
        run_batch(ops, xs, n) == run_batch(ops, ys, n),
    decreases n,
{
    if n > 0 {
        lemma_batch_same(ops, xs, ys, n - 1);
    }
}

/// A batch either transforms every form, giving each form's result in
/// order, or fails with the error of the first form that fails, giving no
/// output.
pub proof fn law_batch_fail_fast(ops: Seq<OperationView>, forms: Seq<ValueView>)
    ensures
        (forall|i: int| 0 <= i < forms.len() ==> (#[trigger] run_pipeline(ops, forms[i])) is Ok) ==> {
            &&& run_batch(ops, forms, forms.len() as int) is Ok
            &&& run_batch(ops, forms, forms.len() as int)->Ok_0.len() == forms.len()
            &&& forall|i: int|
                0 <= i < forms.len() ==> Ok::<ValueView, Seq<char>>(
                    #[trigger] run_batch(ops, forms, forms.len() as int)->Ok_0[i],
                ) == run_pipeline(ops, forms[i])
        },
        forall|k: int|
            0 <= k < forms.len() && (forall|i: int| 0 <= i < k ==> (#[trigger] run_pipeline(ops, forms[i])) is Ok)
                && #[trigger] run_pipeline(ops, forms[k]) is Err ==> run_batch(ops, forms, forms.len() as int)
                == Err::<Seq<ValueView>, Seq<char>>(run_pipeline(ops, forms[k])->Err_0),
{
    if forall|i: int| 0 <= i < forms.len() ==> (#[trigger] run_pipeline(ops, forms[i])) is Ok {
        lemma_batch_success(ops, forms, forms.len() as int);
    }
    assert forall|k: int|
        0 <= k < forms.len() && (forall|i: int| 0 <= i < k ==> (#[trigger] run_pipeline(ops, forms[i])) is Ok)
            && #[trigger] run_pipeline(ops, forms[k]) is Err implies run_batch(ops, forms, forms.len() as int)
            == Err::<Seq<ValueView>, Seq<char>>(run_pipeline(ops, forms[k])->Err_0) by {
        let prefix = forms.subrange(0, k);
        assert forall|i: int| 0 <= i < prefix.len() implies (#[trigger] run_pipeline(ops, prefix[i])) is Ok by {
            assert(prefix[i] == forms[i]);
        }
        lemma_batch_success(ops, prefix, k);
        lemma_batch_same(ops, forms, prefix, k);
        lemma_batch_failure(ops, forms, k + 1, forms.len() as int);
    }
}

} // verus!
