use vstd::prelude::*;

verus! {

/// A value of the data format: scalars, sequences, maps, sets and tagged
/// values, nested to any depth.
#[derive(Debug, PartialEq)]
pub enum Value {
    Nil,
    Boolean(bool),
    String(String),
    Char(char),
    Symbol(String),
    Keyword(String),
    Integer(i64),
    /// A 64-bit floating-point number, held as its IEEE 754 bit pattern.
    Float(u64),
    List(Vec<Value>),
    Vector(Vec<Value>),
    /// Key/value entries; in a well-formed value the keys are unique and in
    /// canonical order.
    MapOf(Vec<(Value, Value)>),
    /// Elements; in a well-formed value they are unique and in canonical order.
    SetOf(Vec<Value>),
    Tagged(String, Box<Value>),
}

/// The mathematical model of a value: text as a sequence of characters, an
/// integer as `int`, and nested values as sequences of models.
pub enum ValueView {
    Nil,
    Boolean(bool),
    String(Seq<char>),
    Char(char),
    Symbol(Seq<char>),
    Keyword(Seq<char>),
    Integer(int),
    Float(u64),
    List(Seq<ValueView>),
    Vector(Seq<ValueView>),
    MapOf(Seq<(ValueView, ValueView)>),
    SetOf(Seq<ValueView>),
    Tagged(Seq<char>, Box<ValueView>),
}

impl View for Value {
    type V = ValueView;

    open spec fn view(&self) -> ValueView
        decreases self,
    {
        match self {
            Value::Nil => ValueView::Nil,
            Value::Boolean(b) => ValueView::Boolean(*b),
            Value::String(s) => ValueView::String(s@),
            Value::Char(c) => ValueView::Char(*c),
            Value::Symbol(s) => ValueView::Symbol(s@),
            Value::Keyword(s) => ValueView::Keyword(s@),
            Value::Integer(i) => ValueView::Integer(*i as int),
            Value::Float(f) => ValueView::Float(*f),
            Value::List(l) => ValueView::List(elems_view(l@)),
            Value::Vector(l) => ValueView::Vector(elems_view(l@)),
            Value::MapOf(m) => ValueView::MapOf(entries_view(m@)),
            Value::SetOf(l) => ValueView::SetOf(elems_view(l@)),
            Value::Tagged(t, x) => ValueView::Tagged(t@, Box::new((**x).view())),
        }
    }
}

/// The views of a sequence of values, element by element.
pub open spec fn elems_view(l: Seq<Value>) -> Seq<ValueView>
    decreases l,
{
    if l.len() == 0 {
        Seq::empty()
    } else {
        elems_view(l.subrange(0, l.len() - 1)).push(l[l.len() - 1].view())
    }
}

/// The views of a sequence of map entries, entry by entry.
pub open spec fn entries_view(m: Seq<(Value, Value)>) -> Seq<(ValueView, ValueView)>
    decreases m,
{
    if m.len() == 0 {
        Seq::empty()
    } else {
        entries_view(m.subrange(0, m.len() - 1)).push(
            (m[m.len() - 1].0.view(), m[m.len() - 1].1.view()),
        )
    }
}

/// Each element's view sits at its index.
pub proof fn lemma_elems_view(l: Seq<Value>)
    ensures
        elems_view(l).len() == l.len(),
        forall|i: int| 0 <= i < l.len() ==> #[trigger] elems_view(l)[i] == l[i]@,
    decreases l.len(),
{
    if l.len() > 0 {
        assert(elems_view(l) == elems_view(l.subrange(0, l.len() - 1)).push(l[l.len() - 1]@));
        lemma_elems_view(l.subrange(0, l.len() - 1));
    }
}

/// Each entry's key and value views sit at its index.
pub proof fn lemma_entries_view(m: Seq<(Value, Value)>)
    ensures
        entries_view(m).len() == m.len(),
        forall|i: int| 0 <= i < m.len() ==> #[trigger] entries_view(m)[i] == (m[i].0@, m[i].1@),
    decreases m.len(),
{
    if m.len() > 0 {
        assert(entries_view(m) == entries_view(m.subrange(0, m.len() - 1)).push(
            (m[m.len() - 1].0@, m[m.len() - 1].1@),
        ));
        lemma_entries_view(m.subrange(0, m.len() - 1));
    }
}

/// The noun phrase that names a value's kind in diagnostics.
pub open spec fn kind_name(v: ValueView) -> Seq<char> {
    match v {
        ValueView::Nil => "nil"@,
        ValueView::Boolean(_) => "a boolean"@,
        ValueView::String(_) => "a string"@,
        ValueView::Char(_) => "a character"@,
        ValueView::Symbol(_) => "a symbol"@,
        ValueView::Keyword(_) => "a keyword"@,
        ValueView::Integer(_) => "an integer"@,
        ValueView::Float(_) => "a float"@,
        ValueView::List(_) => "a list"@,
        ValueView::Vector(_) => "a vector"@,
        ValueView::MapOf(_) => "a map"@,
        ValueView::SetOf(_) => "a set"@,
        ValueView::Tagged(_, _) => "a tagged"@,
    }
}

/// Names the kind of a value for diagnostics ("a string", "a map", ...).
pub fn value_type_name(value: &Value) -> (r: String)
    ensures
        r@ == kind_name(value@),
{
    let name = match value {
        Value::Nil => "nil",
        Value::Boolean(_) => "a boolean",
        Value::String(_) => "a string",
        Value::Char(_) => "a character",
        Value::Symbol(_) => "a symbol",
        Value::Keyword(_) => "a keyword",
        Value::Integer(_) => "an integer",
        Value::Float(_) => "a float",
        Value::List(_) => "a list",
        Value::Vector(_) => "a vector",
        Value::MapOf(_) => "a map",
        Value::SetOf(_) => "a set",
        Value::Tagged(_, _) => "a tagged",
    };
    String::from_str(name)
}

} // verus!
