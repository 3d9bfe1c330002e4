use vstd::prelude::*;
use vstd::utf8::{encode_utf8, encode_utf8_decode_utf8};
use core::cmp::Ordering;
use crate::value::{Value, ValueView, elems_view, entries_view, lemma_elems_view, lemma_entries_view};

verus! {

/// Position of each kind of value in the canonical order, from first to last.
pub open spec fn rank(v: ValueView) -> int {
    match v {
        ValueView::Nil => 0,
        ValueView::Boolean(_) => 1,
        ValueView::String(_) => 2,
        ValueView::Char(_) => 3,
        ValueView::Symbol(_) => 4,
        ValueView::Keyword(_) => 5,
        ValueView::Integer(_) => 6,
        ValueView::Float(_) => 7,
        ValueView::List(_) => 8,
        ValueView::Vector(_) => 9,
        ValueView::MapOf(_) => 10,
        ValueView::SetOf(_) => 11,
        ValueView::Tagged(_, _) => 12,
    }
}

/// The natural order of integers.
pub open spec fn int_cmp(a: int, b: int) -> Ordering {
    if a < b {
        Ordering::Less
    } else if a == b {
        Ordering::Equal
    } else {
        Ordering::Greater
    }
}

/// The result of a comparison with its operands swapped.
pub open spec fn flip(o: Ordering) -> Ordering {
    match o {
        Ordering::Less => Ordering::Greater,
        Ordering::Equal => Ordering::Equal,
        Ordering::Greater => Ordering::Less,
    }
}

/// The sign bit of an IEEE 754 double.
pub const SIGN_BIT: u64 = 0x8000_0000_0000_0000;

/// Maps the bit pattern of a double to an unsigned key whose order is the
/// IEEE 754 total order: negative values reversed below positive ones.
pub open spec fn float_key(bits: u64) -> u64 {
    if bits & SIGN_BIT != 0 {
        !bits
    } else {
        bits | SIGN_BIT
    }
}

/// Lexicographic order of two byte sequences, from index `i` on.
pub open spec fn bytes_cmp(x: Seq<u8>, y: Seq<u8>, i: int) -> Ordering
    decreases x.len() - i,
{
    if i < 0 || i >= x.len() {
        if i >= 0 && i < y.len() {
            Ordering::Less
        } else {
            Ordering::Equal
        }
    } else if i >= y.len() {
        Ordering::Greater
    } else if x[i] != y[i] {
        int_cmp(x[i] as int, y[i] as int)
    } else {
        bytes_cmp(x, y, i + 1)
    }
}

/// Text is ordered by its UTF-8 encoding, which orders it by code points.
pub open spec fn text_cmp(a: Seq<char>, b: Seq<char>) -> Ordering {
    bytes_cmp(encode_utf8(a), encode_utf8(b), 0)
}

/// The canonical total order over values: first by kind, then by content.
pub closed spec fn value_cmp(a: ValueView, b: ValueView) -> Ordering
    decreases a, 0int,
{
    if rank(a) != rank(b) {
        int_cmp(rank(a), rank(b))
    } else {
        match (a, b) {
            (ValueView::Boolean(x), ValueView::Boolean(y)) => int_cmp(
                if x { 1 } else { 0 },
                if y { 1 } else { 0 },
            ),
            (ValueView::String(x), ValueView::String(y)) => text_cmp(x, y),
            (ValueView::Char(x), ValueView::Char(y)) => int_cmp(x as int, y as int),
            (ValueView::Symbol(x), ValueView::Symbol(y)) => text_cmp(x, y),
            (ValueView::Keyword(x), ValueView::Keyword(y)) => text_cmp(x, y),
            (ValueView::Integer(x), ValueView::Integer(y)) => int_cmp(x, y),
            (ValueView::Float(x), ValueView::Float(y)) => int_cmp(
                float_key(x) as int,
                float_key(y) as int,
            ),
            (ValueView::List(x), ValueView::List(y)) => seq_cmp(x, y, 0),
            (ValueView::Vector(x), ValueView::Vector(y)) => seq_cmp(x, y, 0),
            (ValueView::MapOf(x), ValueView::MapOf(y)) => entries_cmp(x, y, 0),
            (ValueView::SetOf(x), ValueView::SetOf(y)) => seq_cmp(x, y, 0),
            (ValueView::Tagged(t, x), ValueView::Tagged(u, y)) => {
                let c = text_cmp(t, u);
                if c != Ordering::Equal {
                    c
                } else {
                    value_cmp(*x, *y)
                }
            },
            _ => Ordering::Equal,
        }
    }
}

/// Lexicographic order of two sequences of values, from index `i` on.
pub closed spec fn seq_cmp(x: Seq<ValueView>, y: Seq<ValueView>, i: int) -> Ordering
    decreases x, x.len() - i,
{
    if i < 0 || i >= x.len() {
        if i >= 0 && i < y.len() {
            Ordering::Less
        } else {
            Ordering::Equal
        }
    } else if i >= y.len() {
        Ordering::Greater
    } else {
        let c = value_cmp(x[i], y[i]);
        if c != Ordering::Equal {
            c
        } else {
            seq_cmp(x, y, i + 1)
        }
    }
}

/// Lexicographic order of two sequences of map entries, from index `i` on;
/// entries compare by key, then by value.
pub closed spec fn entries_cmp(x: Seq<(ValueView, ValueView)>, y: Seq<(ValueView, ValueView)>, i: int) -> Ordering
    decreases x, x.len() - i,
{
    if i < 0 || i >= x.len() {
        if i >= 0 && i < y.len() {
            Ordering::Less
        } else {
            Ordering::Equal
        }
    } else if i >= y.len() {
        Ordering::Greater
    } else {
        let c = value_cmp(x[i].0, y[i].0);
        if c != Ordering::Equal {
            c
        } else {
            let d = value_cmp(x[i].1, y[i].1);
            if d != Ordering::Equal {
                d
            } else {
                entries_cmp(x, y, i + 1)
            }
        }
    }
}

proof fn lemma_bytes_cmp_equal(x: Seq<u8>, y: Seq<u8>, i: int)
    requires
        0 <= i <= x.len(),
        i <= y.len(),
    ensures
        bytes_cmp(x, y, i) == Ordering::Equal <==> (x.len() == y.len() && forall|j: int|
            i <= j < x.len() ==> x[j] == y[j]),
    decreases x.len() - i,
{
    if i < x.len() && i < y.len() {
        lemma_bytes_cmp_equal(x, y, i + 1);
    }
}

proof fn lemma_text_cmp_equal(a: Seq<char>, b: Seq<char>)
    ensures
        text_cmp(a, b) == Ordering::Equal <==> a == b,
{
    let x = encode_utf8(a);
    let y = encode_utf8(b);
    lemma_bytes_cmp_equal(x, y, 0);
    if text_cmp(a, b) == Ordering::Equal {
        assert(x =~= y);
        encode_utf8_decode_utf8(a);
        encode_utf8_decode_utf8(b);
    }
}

proof fn lemma_float_key_injective(a: u64, b: u64)
    ensures
        float_key(a) == float_key(b) <==> a == b,
{
    assert(((if a & 0x8000_0000_0000_0000u64 != 0 { !a } else { a | 0x8000_0000_0000_0000u64 })
        == (if b & 0x8000_0000_0000_0000u64 != 0 { !b } else { b | 0x8000_0000_0000_0000u64 }))
        <==> a == b) by (bit_vector);
}

/// Two values are equal in the canonical order exactly when they are the
/// same value: the order is strict.
pub proof fn lemma_cmp_equal(a: ValueView, b: ValueView)
    ensures
        value_cmp(a, b) == Ordering::Equal <==> a == b,
    decreases a, 0int,
{
    if rank(a) == rank(b) {
        match (a, b) {
            (ValueView::String(x), ValueView::String(y)) => lemma_text_cmp_equal(x, y),
            (ValueView::Symbol(x), ValueView::Symbol(y)) => lemma_text_cmp_equal(x, y),
            (ValueView::Keyword(x), ValueView::Keyword(y)) => lemma_text_cmp_equal(x, y),
            (ValueView::Float(x), ValueView::Float(y)) => lemma_float_key_injective(x, y),
            (ValueView::List(x), ValueView::List(y)) => {
                lemma_seq_cmp_equal(x, y, 0);
                if value_cmp(a, b) == Ordering::Equal {
                    assert(x =~= y);
                }
            },
            (ValueView::Vector(x), ValueView::Vector(y)) => {
                lemma_seq_cmp_equal(x, y, 0);
                if value_cmp(a, b) == Ordering::Equal {
                    assert(x =~= y);
                }
            },
            (ValueView::SetOf(x), ValueView::SetOf(y)) => {
                lemma_seq_cmp_equal(x, y, 0);
                if value_cmp(a, b) == Ordering::Equal {
                    assert(x =~= y);
                }
            },
            (ValueView::MapOf(x), ValueView::MapOf(y)) => {
                lemma_entries_cmp_equal(x, y, 0);
                if value_cmp(a, b) == Ordering::Equal {
                    assert(x =~= y);
                }
            },
            (ValueView::Tagged(t, x), ValueView::Tagged(u, y)) => {
                lemma_text_cmp_equal(t, u);
                lemma_cmp_equal(*x, *y);
            },
            _ => {},
        }
    }
}

proof fn lemma_seq_cmp_equal(x: Seq<ValueView>, y: Seq<ValueView>, i: int)
    requires
        0 <= i <= x.len(),
        i <= y.len(),
    ensures
        seq_cmp(x, y, i) == Ordering::Equal <==> (x.len() == y.len() && forall|j: int|
            i <= j < x.len() ==> x[j] == y[j]),
    decreases x, x.len() - i,
{
    if i < x.len() && i < y.len() {
        lemma_cmp_equal(x[i], y[i]);
        lemma_seq_cmp_equal(x, y, i + 1);
    }
}

proof fn lemma_entries_cmp_equal(x: Seq<(ValueView, ValueView)>, y: Seq<(ValueView, ValueView)>, i: int)
    requires
        0 <= i <= x.len(),
        i <= y.len(),
    ensures
        entries_cmp(x, y, i) == Ordering::Equal <==> (x.len() == y.len() && forall|j: int|
            i <= j < x.len() ==> x[j] == y[j]),
    decreases x, x.len() - i,
{
    if i < x.len() && i < y.len() {
        lemma_cmp_equal(x[i].0, y[i].0);
        lemma_cmp_equal(x[i].1, y[i].1);
        lemma_entries_cmp_equal(x, y, i + 1);
    }
}

/// Map entries whose keys are strictly increasing in the canonical order,
/// hence unique.
pub open spec fn keys_sorted(es: Seq<(ValueView, ValueView)>) -> bool {
    forall|i: int, j: int|
        0 <= i < j < es.len() ==> value_cmp(#[trigger] es[i].0, #[trigger] es[j].0) == Ordering::Less
}

/// Set elements strictly increasing in the canonical order, hence unique.
pub open spec fn elems_sorted(s: Seq<ValueView>) -> bool {
    forall|i: int, j: int| 0 <= i < j < s.len() ==> value_cmp(#[trigger] s[i], #[trigger] s[j]) == Ordering::Less
}

proof fn lemma_bytes_cmp_flip(x: Seq<u8>, y: Seq<u8>, i: int)
    requires
        0 <= i,
    ensures
        bytes_cmp(y, x, i) == flip(bytes_cmp(x, y, i)),
    decreases x.len() - i,
{
    if i < x.len() && i < y.len() && x[i] == y[i] {
        lemma_bytes_cmp_flip(x, y, i + 1);
    }
}

proof fn lemma_bytes_cmp_trans(x: Seq<u8>, y: Seq<u8>, z: Seq<u8>, i: int)
    requires
        0 <= i,
        bytes_cmp(x, y, i) == Ordering::Less,
        bytes_cmp(y, z, i) == Ordering::Less,
    ensures
        bytes_cmp(x, z, i) == Ordering::Less,
    decreases x.len() - i,
{
    if i < x.len() && i < y.len() && i < z.len() && x[i] == y[i] && y[i] == z[i] {
        lemma_bytes_cmp_trans(x, y, z, i + 1);
    }
}

/// Swapping the operands of the canonical order flips the result.
pub proof fn lemma_cmp_flip(a: ValueView, b: ValueView)
    ensures
        value_cmp(b, a) == flip(value_cmp(a, b)),
    decreases a, 0int,
{
    if rank(a) == rank(b) {
        match (a, b) {
            (ValueView::String(x), ValueView::String(y)) => lemma_bytes_cmp_flip(encode_utf8(x), encode_utf8(y), 0),
            (ValueView::Symbol(x), ValueView::Symbol(y)) => lemma_bytes_cmp_flip(encode_utf8(x), encode_utf8(y), 0),
            (ValueView::Keyword(x), ValueView::Keyword(y)) => lemma_bytes_cmp_flip(encode_utf8(x), encode_utf8(y), 0),
            (ValueView::List(x), ValueView::List(y)) => lemma_seq_cmp_flip(x, y, 0),
            (ValueView::Vector(x), ValueView::Vector(y)) => lemma_seq_cmp_flip(x, y, 0),
            (ValueView::SetOf(x), ValueView::SetOf(y)) => lemma_seq_cmp_flip(x, y, 0),
            (ValueView::MapOf(x), ValueView::MapOf(y)) => lemma_entries_cmp_flip(x, y, 0),
            (ValueView::Tagged(t, x), ValueView::Tagged(u, y)) => {
                lemma_bytes_cmp_flip(encode_utf8(t), encode_utf8(u), 0);
                lemma_cmp_flip(*x, *y);
            },
            _ => {},
        }
    }
}

proof fn lemma_seq_cmp_flip(x: Seq<ValueView>, y: Seq<ValueView>, i: int)
    requires
        0 <= i,
    ensures
        seq_cmp(y, x, i) == flip(seq_cmp(x, y, i)),
    decreases x, x.len() - i,
{
    if i < x.len() && i < y.len() {
        lemma_cmp_flip(x[i], y[i]);
        lemma_seq_cmp_flip(x, y, i + 1);
    }
}

proof fn lemma_entries_cmp_flip(x: Seq<(ValueView, ValueView)>, y: Seq<(ValueView, ValueView)>, i: int)
    requires
        0 <= i,
    ensures
        entries_cmp(y, x, i) == flip(entries_cmp(x, y, i)),
    decreases x, x.len() - i,
{
    if i < x.len() && i < y.len() {
        lemma_cmp_flip(x[i].0, y[i].0);
        lemma_cmp_flip(x[i].1, y[i].1);
        lemma_entries_cmp_flip(x, y, i + 1);
    }
}

/// The canonical order is transitive.
pub proof fn lemma_cmp_trans(a: ValueView, b: ValueView, c: ValueView)
    requires
        value_cmp(a, b) == Ordering::Less,
        value_cmp(b, c) == Ordering::Less,
    ensures
        value_cmp(a, c) == Ordering::Less,
    decreases a, 0int,
{
    if rank(a) == rank(b) && rank(b) == rank(c) {
        match (a, b, c) {
            (ValueView::String(x), ValueView::String(y), ValueView::String(z)) => lemma_bytes_cmp_trans(
                encode_utf8(x),
                encode_utf8(y),
                encode_utf8(z),
                0,
            ),
            (ValueView::Symbol(x), ValueView::Symbol(y), ValueView::Symbol(z)) => lemma_bytes_cmp_trans(
                encode_utf8(x),
                encode_utf8(y),
                encode_utf8(z),
                0,
            ),
            (ValueView::Keyword(x), ValueView::Keyword(y), ValueView::Keyword(z)) => lemma_bytes_cmp_trans(
                encode_utf8(x),
                encode_utf8(y),
                encode_utf8(z),
                0,
            ),
            (ValueView::List(x), ValueView::List(y), ValueView::List(z)) => lemma_seq_cmp_trans(x, y, z, 0),
            (ValueView::Vector(x), ValueView::Vector(y), ValueView::Vector(z)) => lemma_seq_cmp_trans(x, y, z, 0),
            (ValueView::SetOf(x), ValueView::SetOf(y), ValueView::SetOf(z)) => lemma_seq_cmp_trans(x, y, z, 0),
            (ValueView::MapOf(x), ValueView::MapOf(y), ValueView::MapOf(z)) => lemma_entries_cmp_trans(x, y, z, 0),
            (ValueView::Tagged(t, x), ValueView::Tagged(u, y), ValueView::Tagged(w, z)) => {
                lemma_text_cmp_equal(t, u);
                lemma_text_cmp_equal(u, w);
                if text_cmp(t, u) == Ordering::Less && text_cmp(u, w) == Ordering::Less {
                    lemma_bytes_cmp_trans(encode_utf8(t), encode_utf8(u), encode_utf8(w), 0);
                } else if text_cmp(t, u) == Ordering::Equal && text_cmp(u, w) == Ordering::Equal {
                    lemma_cmp_trans(*x, *y, *z);
                }
            },
            _ => {},
        }
    }
}

proof fn lemma_seq_cmp_trans(x: Seq<ValueView>, y: Seq<ValueView>, z: Seq<ValueView>, i: int)
    requires
        0 <= i,
        seq_cmp(x, y, i) == Ordering::Less,
        seq_cmp(y, z, i) == Ordering::Less,
    ensures
        seq_cmp(x, z, i) == Ordering::Less,
    decreases x, x.len() - i,
{
    if i < x.len() && i < y.len() && i < z.len() {
        lemma_cmp_equal(x[i], y[i]);
        lemma_cmp_equal(y[i], z[i]);
        if value_cmp(x[i], y[i]) == Ordering::Less && value_cmp(y[i], z[i]) == Ordering::Less {
            lemma_cmp_trans(x[i], y[i], z[i]);
        } else if value_cmp(x[i], y[i]) == Ordering::Equal && value_cmp(y[i], z[i]) == Ordering::Equal {
            lemma_seq_cmp_trans(x, y, z, i + 1);
        }
    }
}

proof fn lemma_entries_cmp_trans(
    x: Seq<(ValueView, ValueView)>,
    y: Seq<(ValueView, ValueView)>,
    z: Seq<(ValueView, ValueView)>,
    i: int,
)
    requires
        0 <= i,
        entries_cmp(x, y, i) == Ordering::Less,
        entries_cmp(y, z, i) == Ordering::Less,
    ensures
        entries_cmp(x, z, i) == Ordering::Less,
    decreases x, x.len() - i,
{
    if i < x.len() && i < y.len() && i < z.len() {
        lemma_cmp_equal(x[i].0, y[i].0);
        lemma_cmp_equal(y[i].0, z[i].0);
        lemma_cmp_equal(x[i].1, y[i].1);
        lemma_cmp_equal(y[i].1, z[i].1);
        if value_cmp(x[i].0, y[i].0) == Ordering::Less && value_cmp(y[i].0, z[i].0) == Ordering::Less {
            lemma_cmp_trans(x[i].0, y[i].0, z[i].0);
        } else if value_cmp(x[i].0, y[i].0) == Ordering::Equal && value_cmp(y[i].0, z[i].0) == Ordering::Equal {
            if value_cmp(x[i].1, y[i].1) == Ordering::Less && value_cmp(y[i].1, z[i].1) == Ordering::Less {
                lemma_cmp_trans(x[i].1, y[i].1, z[i].1);
            } else if value_cmp(x[i].1, y[i].1) == Ordering::Equal && value_cmp(y[i].1, z[i].1)
                == Ordering::Equal {
                lemma_entries_cmp_trans(x, y, z, i + 1);
            }
        }
    }
}

fn compare_bytes(x: &[u8], y: &[u8]) -> (r: Ordering)
    ensures
        r == bytes_cmp(x@, y@, 0),
{
    let mut i: usize = 0;
    while i < x.len() && i < y.len()
        invariant
            i <= x@.len(),
            i <= y@.len(),
            bytes_cmp(x@, y@, 0) == bytes_cmp(x@, y@, i as int),
        decreases x@.len() - i,
    {
        if x[i] != y[i] {
            return if x[i] < y[i] {
                Ordering::Less
            } else {
                Ordering::Greater
            };
        }
        i = i + 1;
    }
    if i < y.len() {
        Ordering::Less
    } else if i < x.len() {
        Ordering::Greater
    } else {
        Ordering::Equal
    }
}

fn compare_text(a: &String, b: &String) -> (r: Ordering)
    ensures
        r == text_cmp(a@, b@),
{
    compare_bytes(a.as_str().as_bytes(), b.as_str().as_bytes())
}

fn compare_int(a: i64, b: i64) -> (r: Ordering)
    ensures
        r == int_cmp(a as int, b as int),
{
    if a < b {
        Ordering::Less
    } else if a == b {
        Ordering::Equal
    } else {
        Ordering::Greater
    }
}

fn float_order_key(bits: u64) -> (r: u64)
    ensures
        r == float_key(bits),
{
    if bits & SIGN_BIT != 0 {
        !bits
    } else {
        bits | SIGN_BIT
    }
}

/// The position of the value's kind in the canonical order.
pub fn kind_rank(v: &Value) -> (r: u8)
    ensures
        r as int == rank(v@),
{
    match v {
        Value::Nil => 0,
        Value::Boolean(_) => 1,
        Value::String(_) => 2,
        Value::Char(_) => 3,
        Value::Symbol(_) => 4,
        Value::Keyword(_) => 5,
        Value::Integer(_) => 6,
        Value::Float(_) => 7,
        Value::List(_) => 8,
        Value::Vector(_) => 9,
        Value::MapOf(_) => 10,
        Value::SetOf(_) => 11,
        Value::Tagged(_, _) => 12,
    }
}

/// Compares two values in the canonical order.
pub fn compare(a: &Value, b: &Value) -> (r: Ordering)
    ensures
        r == value_cmp(a@, b@),
    decreases a, 0int,
{
    let ra = kind_rank(a);
    let rb = kind_rank(b);
    if ra != rb {
        return compare_int(ra as i64, rb as i64);
    }
    match (a, b) {
        (Value::Boolean(x), Value::Boolean(y)) => compare_int(
            if *x { 1 } else { 0 },
            if *y { 1 } else { 0 },
        ),
        (Value::String(x), Value::String(y)) => compare_text(x, y),
        (Value::Char(x), Value::Char(y)) => compare_int(*x as u32 as i64, *y as u32 as i64),
        (Value::Symbol(x), Value::Symbol(y)) => compare_text(x, y),
        (Value::Keyword(x), Value::Keyword(y)) => compare_text(x, y),
        (Value::Integer(x), Value::Integer(y)) => compare_int(*x, *y),
        (Value::Float(x), Value::Float(y)) => {
            let kx = float_order_key(*x);
            let ky = float_order_key(*y);
            if kx < ky {
                Ordering::Less
            } else if kx == ky {
                Ordering::Equal
            } else {
                Ordering::Greater
            }
        },
        (Value::List(x), Value::List(y)) => compare_elems(x, y),
        (Value::Vector(x), Value::Vector(y)) => compare_elems(x, y),
        (Value::MapOf(x), Value::MapOf(y)) => compare_entries(x, y),
        (Value::SetOf(x), Value::SetOf(y)) => compare_elems(x, y),
        (Value::Tagged(t, x), Value::Tagged(u, y)) => {
            match compare_text(t, u) {
                Ordering::Equal => compare(&**x, &**y),
                c => c,
            }
        },
        _ => Ordering::Equal,
    }
}

fn compare_elems(x: &Vec<Value>, y: &Vec<Value>) -> (r: Ordering)
    ensures
        r == seq_cmp(elems_view(x@), elems_view(y@), 0),
    decreases x, 1int,
{
    let ghost ex = elems_view(x@);
    let ghost ey = elems_view(y@);
    proof {
        lemma_elems_view(x@);
        lemma_elems_view(y@);
    }
    let mut i: usize = 0;
    while i < x.len() && i < y.len()
        invariant
            ex == elems_view(x@),
            ey == elems_view(y@),
            ex.len() == x@.len(),
            ey.len() == y@.len(),
            forall|j: int| 0 <= j < x@.len() ==> #[trigger] ex[j] == x@[j]@,
            forall|j: int| 0 <= j < y@.len() ==> #[trigger] ey[j] == y@[j]@,
            i <= x@.len(),
            i <= y@.len(),
            seq_cmp(ex, ey, 0) == seq_cmp(ex, ey, i as int),
        decreases x@.len() - i,
    {
        let c = compare(&x[i], &y[i]);
        assert(seq_cmp(ex, ey, i as int) == if c != Ordering::Equal {
            c
        } else {
            seq_cmp(ex, ey, i + 1)
        });
        match c {
            Ordering::Equal => {},
            _ => {
                return c;
            },
        }
        i = i + 1;
    }
    if i < y.len() {
        Ordering::Less
    } else if i < x.len() {
        Ordering::Greater
    } else {
        Ordering::Equal
    }
}

fn compare_entries(x: &Vec<(Value, Value)>, y: &Vec<(Value, Value)>) -> (r: Ordering)
    ensures
        r == entries_cmp(entries_view(x@), entries_view(y@), 0),
    decreases x, 1int,
{
    let ghost ex = entries_view(x@);
    let ghost ey = entries_view(y@);
    proof {
        lemma_entries_view(x@);
        lemma_entries_view(y@);
    }
    let mut i: usize = 0;
    while i < x.len() && i < y.len()
        invariant
            ex == entries_view(x@),
            ey == entries_view(y@),
            ex.len() == x@.len(),
            ey.len() == y@.len(),
            forall|j: int| 0 <= j < x@.len() ==> #[trigger] ex[j] == (x@[j].0@, x@[j].1@),
            forall|j: int| 0 <= j < y@.len() ==> #[trigger] ey[j] == (y@[j].0@, y@[j].1@),
            i <= x@.len(),
            i <= y@.len(),
            entries_cmp(ex, ey, 0) == entries_cmp(ex, ey, i as int),
        decreases x@.len() - i,
    {
        let c = compare(&x[i].0, &y[i].0);
        let d = compare(&x[i].1, &y[i].1);
        assert(ex[i as int] == (x@[i as int].0@, x@[i as int].1@));
        assert(ey[i as int] == (y@[i as int].0@, y@[i as int].1@));
        assert(entries_cmp(ex, ey, i as int) == if c != Ordering::Equal {
            c
        } else if d != Ordering::Equal {
            d
        } else {
            entries_cmp(ex, ey, i + 1)
        });
        match c {
            Ordering::Equal => {},
            _ => {
                return c;
            },
        }
        match d {
            Ordering::Equal => {},
            _ => {
                return d;
            },
        }
        i = i + 1;
    }
    if i < y.len() {
        Ordering::Less
    } else if i < x.len() {
        Ordering::Greater
    } else {
        Ordering::Equal
    }
}

} // verus!
