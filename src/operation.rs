use vstd::prelude::*;
use core::cmp::Ordering;
use crate::order::{compare, elems_sorted, keys_sorted, lemma_cmp_equal, value_cmp};
use crate::value::{
    Value, ValueView, elems_view, entries_view, kind_name, lemma_elems_view, lemma_entries_view,
    value_type_name,
};

verus! {

/// One step of a pipeline.
#[derive(Debug, PartialEq)]
pub enum Operation {
    /// Returns its input unchanged.
    Identity,
    /// Looks a key up in a map; an absent key gives nil.
    Get(Value),
    /// The keys of a map, in canonical order, as a vector.
    Keys,
    /// The values of a map, in the canonical order of their keys, as a vector.
    Values,
    /// Applies the inner operation to each element of a list, vector or set.
    MapEach(Box<Operation>),
}

/// The mathematical model of an operation.
pub enum OperationView {
    Identity,
    Get(ValueView),
    Keys,
    Values,
    MapEach(Box<OperationView>),
}

impl View for Operation {
    type V = OperationView;

    open spec fn view(&self) -> OperationView
        decreases self,
    {
        match self {
            Operation::Identity => OperationView::Identity,
            Operation::Get(k) => OperationView::Get(k@),
            Operation::Keys => OperationView::Keys,
            Operation::Values => OperationView::Values,
            Operation::MapEach(inner) => OperationView::MapEach(Box::new((**inner).view())),
        }
    }
}

/// The failure of an operation, with a message for the user.
#[derive(Debug, PartialEq)]
pub struct OperationError(pub String);

/// The message of an operation applied to a value of the wrong kind.
pub open spec fn mismatch_message(operation: Seq<char>, v: ValueView) -> Seq<char> {
    "Can not apply '"@ + operation + "' operation to "@ + kind_name(v)
}

/// The value of the first entry whose key is `k`, or nil.
pub open spec fn lookup(es: Seq<(ValueView, ValueView)>, k: ValueView) -> ValueView
    decreases es.len(),
{
    if es.len() == 0 {
        ValueView::Nil
    } else if es[0].0 == k {
        es[0].1
    } else {
        lookup(es.drop_first(), k)
    }
}

/// The keys of a sequence of entries, in order.
pub open spec fn entry_keys(es: Seq<(ValueView, ValueView)>) -> Seq<ValueView> {
    es.map_values(|e: (ValueView, ValueView)| e.0)
}

/// The values of a sequence of entries, in order.
pub open spec fn entry_values(es: Seq<(ValueView, ValueView)>) -> Seq<ValueView> {
    es.map_values(|e: (ValueView, ValueView)| e.1)
}

/// What an operation does to a value: the new value, or the error message.
pub open spec fn run_op(op: OperationView, v: ValueView) -> Result<ValueView, Seq<char>>
    decreases op, 0int,
{
    match op {
        OperationView::Identity => Ok(v),
        OperationView::Get(k) => match v {
            ValueView::MapOf(es) => Ok(lookup(es, k)),
            _ => Err(mismatch_message("get"@, v)),
        },
        OperationView::Keys => match v {
            ValueView::MapOf(es) => Ok(ValueView::Vector(entry_keys(es))),
            _ => Err(mismatch_message("keys"@, v)),
        },
        OperationView::Values => match v {
            ValueView::MapOf(es) => Ok(ValueView::Vector(entry_values(es))),
            _ => Err(mismatch_message("values"@, v)),
        },
        OperationView::MapEach(inner) => match v {
            ValueView::List(xs) => map_all(*inner, xs),
            ValueView::Vector(xs) => map_all(*inner, xs),
            ValueView::SetOf(xs) => map_all(*inner, xs),
            _ => Err(mismatch_message("map"@, v)),
        },
    }
}

/// Applies `op` to each element in order and collects the results in a
/// vector; the first failure is the result.
pub open spec fn map_all(op: OperationView, xs: Seq<ValueView>) -> Result<ValueView, Seq<char>>
    decreases op, 1int,
{
    match map_prefix(op, xs, xs.len() as int) {
        Ok(ys) => Ok(ValueView::Vector(ys)),
        Err(e) => Err(e),
    }
}

/// The results of `op` on the first `n` elements, or the first failure among them.
pub open spec fn map_prefix(op: OperationView, xs: Seq<ValueView>, n: int) -> Result<Seq<ValueView>, Seq<char>>
    decreases op, 1int, n,
{
    if n <= 0 || n > xs.len() {
        Ok(Seq::empty())
    } else {
        match map_prefix(op, xs, n - 1) {
            Err(e) => Err(e),
            Ok(ys) => match run_op(op, xs[n - 1]) {
                Ok(y) => Ok(ys.push(y)),
                Err(e) => Err(e),
            },
        }
    }
}

/// The model of an operation's outcome.
pub open spec fn outcome_view(r: Result<Value, OperationError>) -> Result<ValueView, Seq<char>> {
    match r {
        Ok(v) => Ok(v@),
        Err(e) => Err(e.0@),
    }
}

/// The error of an operation applied to a value of the wrong kind.
fn mismatch_error(operation: &str, v: &Value) -> (e: OperationError)
    ensures
        e.0@ == mismatch_message(operation@, v@),
{
    let mut message = String::from_str("Can not apply '");
    message.append(operation);
    message.append("' operation to ");
    let name = value_type_name(v);
    message.append(name.as_str());
    OperationError(message)
}

/// The index of the entry whose value `lookup` gives, if a key matches.
fn find_key(key: &Value, es: &Vec<(Value, Value)>) -> (r: Option<usize>)
    ensures
        match r {
            Some(i) => i < es@.len() && lookup(entries_view(es@), key@) == es@[i as int].1@,
            None => lookup(entries_view(es@), key@) == ValueView::Nil,
        },
{
    let ghost ev = entries_view(es@);
    proof {
        lemma_entries_view(es@);
    }
    assert(ev.subrange(0, ev.len() as int) =~= ev);
    let mut i: usize = 0;
    while i < es.len()
        invariant
            i <= es@.len(),
            ev == entries_view(es@),
            ev.len() == es@.len(),
            forall|j: int| 0 <= j < es@.len() ==> #[trigger] ev[j] == (es@[j].0@, es@[j].1@),
            lookup(ev, key@) == lookup(ev.subrange(i as int, ev.len() as int), key@),
        decreases es@.len() - i,
    {
        let c = compare(key, &es[i].0);
        proof {
            lemma_cmp_equal(key@, es@[i as int].0@);
            assert(ev.subrange(i as int, ev.len() as int)[0] == ev[i as int]);
            assert(ev.subrange(i as int, ev.len() as int).drop_first() =~= ev.subrange(
                i + 1,
                ev.len() as int,
            ));
        }
        match c {
            Ordering::Equal => {
                return Some(i);
            },
            _ => {},
        }
        i = i + 1;
    }
    None
}

/// Runs `Get(key)`: moves the looked-up value out of the map.
fn get_entry(key: &Value, input: Value) -> (r: Result<Value, OperationError>)
    ensures
        outcome_view(r) == run_op(OperationView::Get(key@), input@),
{
    match input {
        Value::MapOf(mut es) => match find_key(key, &es) {
            Some(i) => {
                let entry = es.swap_remove(i);
                Ok(entry.1)
            },
            None => Ok(Value::Nil),
        },
        _ => Err(mismatch_error("get", &input)),
    }
}

/// Runs `Keys`.
fn keys_of(input: Value) -> (r: Result<Value, OperationError>)
    ensures
        outcome_view(r) == run_op(OperationView::Keys, input@),
{
    match input {
        Value::MapOf(es) => {
            let ghost s = es@;
            let ghost ev = entries_view(es@);
            proof {
                lemma_entries_view(es@);
            }
            let mut keys: Vec<Value> = Vec::new();
            for entry in it: es
                invariant
                    it.seq() == s,
                    ev.len() == s.len(),
                    forall|j: int| 0 <= j < s.len() ==> #[trigger] ev[j] == (s[j].0@, s[j].1@),
                    keys@.len() == it.index(),
                    forall|j: int| 0 <= j < it.index() ==> #[trigger] keys@[j]@ == ev[j].0,
            {
                keys.push(entry.0);
            }
            proof {
                lemma_elems_view(keys@);
                assert(elems_view(keys@) =~= entry_keys(ev));
            }
            Ok(Value::Vector(keys))
        },
        _ => Err(mismatch_error("keys", &input)),
    }
}

/// Runs `Values`.
fn values_of(input: Value) -> (r: Result<Value, OperationError>)
    ensures
        outcome_view(r) == run_op(OperationView::Values, input@),
{
    match input {
        Value::MapOf(es) => {
            let ghost s = es@;
            let ghost ev = entries_view(es@);
            proof {
                lemma_entries_view(es@);
            }
            let mut values: Vec<Value> = Vec::new();
            for entry in it: es
                invariant
                    it.seq() == s,
                    ev.len() == s.len(),
                    forall|j: int| 0 <= j < s.len() ==> #[trigger] ev[j] == (s[j].0@, s[j].1@),
                    values@.len() == it.index(),
                    forall|j: int| 0 <= j < it.index() ==> #[trigger] values@[j]@ == ev[j].1,
            {
                values.push(entry.1);
            }
            proof {
                lemma_elems_view(values@);
                assert(elems_view(values@) =~= entry_values(ev));
            }
            Ok(Value::Vector(values))
        },
        _ => Err(mismatch_error("values", &input)),
    }
}

/// Once a prefix of a mapping fails, every longer prefix fails the same way.
proof fn lemma_map_prefix_failure(op: OperationView, xs: Seq<ValueView>, n: int, m: int)
    requires
        0 <= n <= m <= xs.len(),
        map_prefix(op, xs, n) is Err,
    ensures
        map_prefix(op, xs, m) == map_prefix(op, xs, n),
    decreases m - n,
{
    if m > n {
        lemma_map_prefix_failure(op, xs, n, m - 1);
    }
}

proof fn lemma_elems_view_push(s: Seq<Value>, v: Value)
    ensures
        elems_view(s.push(v)) == elems_view(s).push(v@),
{
    assert(s.push(v).subrange(0, s.len() as int) =~= s);
}

/// Applies `inner` to each element in order, stopping at the first failure.
fn map_elements(inner: &Operation, xs: Vec<Value>) -> (r: Result<Value, OperationError>)
    ensures
        outcome_view(r) == map_all(inner@, elems_view(xs@)),
    decreases inner, 1int,
{
    let ghost s = xs@;
    let ghost ev = elems_view(xs@);
    proof {
        lemma_elems_view(xs@);
    }
    let mut out: Vec<Value> = Vec::new();
    for x in it: xs
        invariant
            it.seq() == s,
            ev == elems_view(s),
            ev.len() == s.len(),
            forall|j: int| 0 <= j < s.len() ==> #[trigger] ev[j] == s[j]@,
            it.index() <= s.len(),
            map_prefix(inner@, ev, it.index() as int) == Ok::<Seq<ValueView>, Seq<char>>(elems_view(out@)),
    {
        let ghost k = it.index();
        let result = inner.execute(x);
        match result {
            Ok(y) => {
                proof {
                    lemma_elems_view_push(out@, y);
                }
                out.push(y);
            },
            Err(e) => {
                proof {
                    lemma_map_prefix_failure(inner@, ev, k + 1, ev.len() as int);
                }
                return Err(e);
            },
        }
    }
    Ok(Value::Vector(out))
}

/// Runs `MapEach(inner)`: lists, vectors and sets are mapped, in their stored order.
fn map_each(inner: &Operation, input: Value) -> (r: Result<Value, OperationError>)
    ensures
        outcome_view(r) == run_op(OperationView::MapEach(Box::new(inner@)), input@),
    decreases inner, 2int,
{
    match input {
        Value::List(xs) => map_elements(inner, xs),
        Value::Vector(xs) => map_elements(inner, xs),
        Value::SetOf(xs) => map_elements(inner, xs),
        _ => Err(mismatch_error("map", &input)),
    }
}

impl Operation {
    /// Applies this operation to a value.
    pub fn execute(&self, input: Value) -> (r: Result<Value, OperationError>)
        ensures
            outcome_view(r) == run_op(self@, input@),
        decreases self, 0int,
    {
        match self {
            Operation::Identity => Ok(input),
            Operation::Get(key) => get_entry(key, input),
            Operation::Keys => keys_of(input),
            Operation::Values => values_of(input),
            Operation::MapEach(inner) => map_each(&**inner, input),
        }
    }
}

/// The identity operation returns every value unchanged.
pub proof fn law_identity(v: ValueView)
    ensures
        run_op(OperationView::Identity, v) == Ok::<ValueView, Seq<char>>(v),
{
}

/// With sorted keys, looking up a key that is present finds its entry.
pub proof fn lemma_lookup_present(es: Seq<(ValueView, ValueView)>, i: int)
    requires
        keys_sorted(es),
        0 <= i < es.len(),
    ensures
        lookup(es, es[i].0) == es[i].1,
    decreases es.len(),
{
    if i > 0 {
        lemma_cmp_equal(es[0].0, es[i].0);
        assert(keys_sorted(es.drop_first())) by {
            assert forall|a: int, b: int| 0 <= a < b < es.drop_first().len() implies value_cmp(
                #[trigger] es.drop_first()[a].0,
                #[trigger] es.drop_first()[b].0,
            ) == Ordering::Less by {
                assert(es.drop_first()[a] == es[a + 1]);
                assert(es.drop_first()[b] == es[b + 1]);
            }
        }
        lemma_lookup_present(es.drop_first(), i - 1);
    }
}

/// Looking up a key that no entry has gives nil.
pub proof fn lemma_lookup_absent(es: Seq<(ValueView, ValueView)>, k: ValueView)
    requires
        forall|i: int| 0 <= i < es.len() ==> #[trigger] es[i].0 != k,
    ensures
        lookup(es, k) == ValueView::Nil,
    decreases es.len(),
{
    if es.len() > 0 {
        assert forall|i: int| 0 <= i < es.drop_first().len() implies #[trigger] es.drop_first()[i].0 != k by {
            assert(es.drop_first()[i] == es[i + 1]);
        }
        lemma_lookup_absent(es.drop_first(), k);
    }
}

/// In a well-formed map, looking up a key that is present gives its value.
pub proof fn law_get_present(es: Seq<(ValueView, ValueView)>, i: int)
    requires
        keys_sorted(es),
        0 <= i < es.len(),
    ensures
        run_op(OperationView::Get(es[i].0), ValueView::MapOf(es)) == Ok::<ValueView, Seq<char>>(es[i].1),
{
    lemma_lookup_present(es, i);
}

/// Looking up a key that is absent gives nil, never an error.
pub proof fn law_get_absent(es: Seq<(ValueView, ValueView)>, k: ValueView)
    requires
        forall|i: int| 0 <= i < es.len() ==> #[trigger] es[i].0 != k,
    ensures
        run_op(OperationView::Get(k), ValueView::MapOf(es)) == Ok::<ValueView, Seq<char>>(ValueView::Nil),
{
    lemma_lookup_absent(es, k);
}

/// Looking a key up in anything but a map fails with a type-mismatch message.
pub proof fn law_get_requires_map(k: ValueView, v: ValueView)
    requires
        !(v is MapOf),
    ensures
        run_op(OperationView::Get(k), v) == Err::<ValueView, Seq<char>>(mismatch_message("get"@, v)),
{
}

/// The keys and the values of an empty map are both empty vectors.
pub proof fn law_keys_values_empty()
    ensures
        run_op(OperationView::Keys, ValueView::MapOf(Seq::empty())) == Ok::<ValueView, Seq<char>>(
            ValueView::Vector(Seq::empty()),
        ),
        run_op(OperationView::Values, ValueView::MapOf(Seq::empty())) == Ok::<ValueView, Seq<char>>(
            ValueView::Vector(Seq::empty()),
        ),
{
    assert(entry_keys(Seq::empty()) =~= Seq::empty());
    assert(entry_values(Seq::empty()) =~= Seq::empty());
}

/// Keys and values of a map line up: the i-th key and the i-th value form
/// the map's i-th entry, and in a well-formed map the keys come in
/// canonical order.
pub proof fn law_keys_values_pair(es: Seq<(ValueView, ValueView)>)
    ensures
        run_op(OperationView::Keys, ValueView::MapOf(es)) == Ok::<ValueView, Seq<char>>(
            ValueView::Vector(entry_keys(es)),
        ),
        run_op(OperationView::Values, ValueView::MapOf(es)) == Ok::<ValueView, Seq<char>>(
            ValueView::Vector(entry_values(es)),
        ),
        entry_keys(es).len() == es.len(),
        entry_values(es).len() == es.len(),
        forall|i: int| 0 <= i < es.len() ==> (#[trigger] entry_keys(es)[i], entry_values(es)[i]) == es[i],
        keys_sorted(es) ==> elems_sorted(entry_keys(es)),
{
    let ks = entry_keys(es);
    let vs = entry_values(es);
    assert(forall|i: int| 0 <= i < es.len() ==> (#[trigger] ks[i], vs[i]) == es[i]);
    if keys_sorted(es) {
        assert forall|i: int, j: int| 0 <= i < j < ks.len() implies value_cmp(#[trigger] ks[i], #[trigger] ks[j])
            == Ordering::Less by {
            assert(ks[i] == es[i].0);
            assert(ks[j] == es[j].0);
        }
    }
}

/// When `op` succeeds on every element, mapping it gives the results in the
/// elements' order.
proof fn lemma_map_prefix_success(op: OperationView, xs: Seq<ValueView>, n: int)
    requires
        0 <= n <= xs.len(),
        forall|i: int| 0 <= i < xs.len() ==> (#[trigger] run_op(op, xs[i])) is Ok,
    ensures
        map_prefix(op, xs, n) is Ok,
        map_prefix(op, xs, n)->Ok_0.len() == n,
        forall|i: int| 0 <= i < n ==> Ok::<ValueView, Seq<char>>(#[trigger] map_prefix(op, xs, n)->Ok_0[i]) == run_op(op, xs[i]),
    decreases n,
{
    if n > 0 {
        lemma_map_prefix_success(op, xs, n - 1);
        assert(run_op(op, xs[n - 1]) is Ok);
    }
}

/// When `op` fails on element `k` and succeeds on all before it, mapping it
/// fails with that same error.
proof fn lemma_map_prefix_first_failure(op: OperationView, xs: Seq<ValueView>, k: int, n: int)
    requires
        0 <= k < n <= xs.len(),
        forall|i: int| 0 <= i < k ==> (#[trigger] run_op(op, xs[i])) is Ok,
        run_op(op, xs[k]) is Err,
    ensures
        map_prefix(op, xs, n) == Err::<Seq<ValueView>, Seq<char>>(run_op(op, xs[k])->Err_0),
    decreases n,
{
    if n > k + 1 {
        lemma_map_prefix_first_failure(op, xs, k, n - 1);
    } else {
        assert forall|i: int| 0 <= i < k implies (#[trigger] run_op(op, xs.subrange(0, k)[i])) is Ok by {
            assert(xs.subrange(0, k)[i] == xs[i]);
        }
        lemma_map_prefix_success(op, xs.subrange(0, k), k);
        lemma_map_prefix_same(op, xs, xs.subrange(0, k), k);
    }
}

/// A prefix's mapping depends only on the elements in it.
proof fn lemma_map_prefix_same(op: OperationView, xs: Seq<ValueView>, ys: Seq<ValueView>, n: int)
    requires
        0 <= n <= xs.len(),
        n <= ys.len(),
        forall|i: int| 0 <= i < n ==> xs[i] == ys[i],
    ensures
        map_prefix(op, xs, n) == map_prefix(op, ys, n),
    decreases n,
{
    if n > 0 {
        lemma_map_prefix_same(op, xs, ys, n - 1);
    }
}

/// Mapping an operation that succeeds on every element of a list or vector
/// gives a vector of the results, in the input's order.
pub proof fn law_map_in_order(op: OperationView, xs: Seq<ValueView>)
    requires
        forall|i: int| 0 <= i < xs.len() ==> (#[trigger] run_op(op, xs[i])) is Ok,
    ensures
        exists|ys: Seq<ValueView>|
            {
                &&& run_op(OperationView::MapEach(Box::new(op)), ValueView::List(xs)) == Ok::<ValueView, Seq<char>>(ValueView::Vector(ys))
                &&& run_op(OperationView::MapEach(Box::new(op)), ValueView::Vector(xs)) == Ok::<ValueView, Seq<char>>(ValueView::Vector(ys))
                &&& ys.len() == xs.len()
                &&& forall|i: int| 0 <= i < xs.len() ==> Ok::<ValueView, Seq<char>>(#[trigger] ys[i]) == run_op(op, xs[i])
            },
{
    lemma_map_prefix_success(op, xs, xs.len() as int);
    let ys = map_prefix(op, xs, xs.len() as int)->Ok_0;
    assert(forall|i: int| 0 <= i < xs.len() ==> Ok::<ValueView, Seq<char>>(#[trigger] ys[i]) == run_op(op, xs[i]));
}

/// Mapping over a well-formed set visits its elements in canonical order:
/// the i-th result comes from the i-th smallest element.
pub proof fn law_map_set_in_canonical_order(op: OperationView, xs: Seq<ValueView>)
    requires
        elems_sorted(xs),
        forall|i: int| 0 <= i < xs.len() ==> (#[trigger] run_op(op, xs[i])) is Ok,
    ensures
        exists|ys: Seq<ValueView>|
            {
                &&& run_op(OperationView::MapEach(Box::new(op)), ValueView::SetOf(xs)) == Ok::<ValueView, Seq<char>>(ValueView::Vector(ys))
                &&& ys.len() == xs.len()
                &&& forall|i: int| 0 <= i < xs.len() ==> Ok::<ValueView, Seq<char>>(#[trigger] ys[i]) == run_op(op, xs[i])
            },
{
    lemma_map_prefix_success(op, xs, xs.len() as int);
    let ys = map_prefix(op, xs, xs.len() as int)->Ok_0;
    assert(forall|i: int| 0 <= i < xs.len() ==> Ok::<ValueView, Seq<char>>(#[trigger] ys[i]) == run_op(op, xs[i]));
}

/// When the operation fails on an element and on none before it, mapping
/// it over a list, vector or set fails with that same error and yields no
/// vector.
pub proof fn law_map_first_failure(op: OperationView, xs: Seq<ValueView>, k: int)
    requires
        0 <= k < xs.len(),
        forall|i: int| 0 <= i < k ==> (#[trigger] run_op(op, xs[i])) is Ok,
        run_op(op, xs[k]) is Err,
    ensures
        run_op(OperationView::MapEach(Box::new(op)), ValueView::List(xs)) == run_op(op, xs[k]),
        run_op(OperationView::MapEach(Box::new(op)), ValueView::Vector(xs)) == run_op(op, xs[k]),
        run_op(OperationView::MapEach(Box::new(op)), ValueView::SetOf(xs)) == run_op(op, xs[k]),
{
    lemma_map_prefix_first_failure(op, xs, k, xs.len() as int);
}

/// Values whose maps and sets, at every depth, hold their keys and elements
/// sorted and unique in the canonical order.
pub open spec fn well_formed(v: ValueView) -> bool
    decreases v,
{
    match v {
        ValueView::List(xs) => forall|i: int| 0 <= i < xs.len() ==> well_formed(#[trigger] xs[i]),
        ValueView::Vector(xs) => forall|i: int| 0 <= i < xs.len() ==> well_formed(#[trigger] xs[i]),
        ValueView::SetOf(xs) => elems_sorted(xs) && forall|i: int|
            0 <= i < xs.len() ==> well_formed(#[trigger] xs[i]),
        ValueView::MapOf(es) => keys_sorted(es) && forall|i: int|
            #![trigger es[i]]
            0 <= i < es.len() ==> well_formed(es[i].0) && well_formed(es[i].1),
        ValueView::Tagged(_, x) => well_formed(*x),
        _ => true,
    }
}

proof fn lemma_lookup_result(es: Seq<(ValueView, ValueView)>, k: ValueView)
    ensures
        lookup(es, k) == ValueView::Nil || exists|i: int| 0 <= i < es.len() && #[trigger] es[i].1 == lookup(es, k),
    decreases es.len(),
{
    if es.len() > 0 && es[0].0 != k {
        lemma_lookup_result(es.drop_first(), k);
        if lookup(es, k) != ValueView::Nil {
            let i = choose|i: int| 0 <= i < es.drop_first().len() && #[trigger] es.drop_first()[i].1 == lookup(es, k);
            assert(es[i + 1].1 == lookup(es, k));
        }
    } else if es.len() > 0 {
        assert(es[0].1 == lookup(es, k));
    }
}

/// Operations keep values well formed: applied to a well-formed value, an
/// operation that succeeds returns a well-formed value.
pub proof fn law_execute_keeps_well_formed(op: OperationView, v: ValueView)
    requires
        well_formed(v),
        run_op(op, v) is Ok,
    ensures
        well_formed(run_op(op, v)->Ok_0),
    decreases op, 0int,
{
    match op {
        OperationView::Get(k) => {
            if let ValueView::MapOf(es) = v {
                lemma_lookup_result(es, k);
                if lookup(es, k) != ValueView::Nil {
                    let i = choose|i: int| 0 <= i < es.len() && #[trigger] es[i].1 == lookup(es, k);
                    assert(well_formed(es[i].1));
                }
            }
        },
        OperationView::Keys => {
            if let ValueView::MapOf(es) = v {
                assert forall|i: int| 0 <= i < entry_keys(es).len() implies well_formed(#[trigger] entry_keys(es)[i]) by {
                    assert(entry_keys(es)[i] == es[i].0);
                }
            }
        },
        OperationView::Values => {
            if let ValueView::MapOf(es) = v {
                assert forall|i: int| 0 <= i < entry_values(es).len() implies well_formed(#[trigger] entry_values(es)[i]) by {
                    assert(entry_values(es)[i] == es[i].1);
                }
            }
        },
        OperationView::MapEach(inner) => {
            match v {
                ValueView::List(xs) => lemma_map_prefix_well_formed(*inner, xs, xs.len() as int),
                ValueView::Vector(xs) => lemma_map_prefix_well_formed(*inner, xs, xs.len() as int),
                ValueView::SetOf(xs) => lemma_map_prefix_well_formed(*inner, xs, xs.len() as int),
                _ => {},
            }
        },
        _ => {},
    }
}

proof fn lemma_map_prefix_well_formed(op: OperationView, xs: Seq<ValueView>, n: int)
    requires
        forall|i: int| 0 <= i < xs.len() ==> well_formed(#[trigger] xs[i]),
        map_prefix(op, xs, n) is Ok,
    ensures
        forall|i: int|
            0 <= i < map_prefix(op, xs, n)->Ok_0.len() ==> well_formed(#[trigger] map_prefix(op, xs, n)->Ok_0[i]),
    decreases op, 1int, n,
{
    if 0 < n <= xs.len() {
        lemma_map_prefix_well_formed(op, xs, n - 1);
        law_execute_keeps_well_formed(op, xs[n - 1]);
    }
}

} // verus!
