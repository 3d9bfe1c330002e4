use vstd::prelude::*;
use core::cmp::Ordering;
use crate::operation::{lookup, lemma_lookup_absent, lemma_lookup_present};
use crate::order::{compare, elems_sorted, keys_sorted, lemma_cmp_equal, lemma_cmp_flip, lemma_cmp_trans, value_cmp};
use crate::value::{Value, ValueView, elems_view, entries_view, lemma_elems_view, lemma_entries_view};

verus! {

/// Whether some entry has key `k`.
pub open spec fn has_key(es: Seq<(ValueView, ValueView)>, k: ValueView) -> bool {
    exists|i: int| 0 <= i < es.len() && #[trigger] es[i].0 == k
}

/// Whether `x` is one of the elements.
pub open spec fn has_elem(s: Seq<ValueView>, x: ValueView) -> bool {
    exists|i: int| 0 <= i < s.len() && #[trigger] s[i] == x
}

/// Where `k` belongs among sorted keys: the first position whose key is not
/// below it.
fn key_position(entries: &Vec<(Value, Value)>, key: &Value) -> (p: usize)
    ensures
        p <= entries@.len(),
        forall|j: int| 0 <= j < p ==> value_cmp(#[trigger] entries@[j].0@, key@) == Ordering::Less,
        p < entries@.len() ==> value_cmp(entries@[p as int].0@, key@) != Ordering::Less,
{
    let mut p: usize = 0;
    while p < entries.len()
        invariant
            p <= entries@.len(),
            forall|j: int| 0 <= j < p ==> value_cmp(#[trigger] entries@[j].0@, key@) == Ordering::Less,
        decreases entries@.len() - p,
    {
        match compare(&entries[p].0, key) {
            Ordering::Less => {},
            _ => {
                return p;
            },
        }
        p = p + 1;
    }
    p
}

/// Adds the entry `key -> value` to a map's sorted entries, replacing the
/// entry of an equal key; the keys stay sorted and unique.
pub fn map_insert(entries: &mut Vec<(Value, Value)>, key: Value, value: Value)
    requires
        keys_sorted(entries_view(old(entries)@)),
    ensures
        keys_sorted(entries_view(final(entries)@)),
        forall|k: ValueView|
            #[trigger] has_key(entries_view(final(entries)@), k) <==> (k == key@ || has_key(
                entries_view(old(entries)@),
                k,
            )),
        forall|k: ValueView|
            #[trigger] lookup(entries_view(final(entries)@), k) == if k == key@ {
                value@
            } else {
                lookup(entries_view(old(entries)@), k)
            },
{
    let ghost ov = entries_view(entries@);
    let ghost kv = key@;
    let ghost vv = value@;
    proof {
        lemma_entries_view(entries@);
    }
    let p = key_position(entries, &key);
    let replace = p < entries.len() && match compare(&entries[p].0, &key) {
        Ordering::Equal => true,
        _ => false,
    };
    if replace {
        proof {
            lemma_cmp_equal(ov[p as int].0, kv);
        }
        entries.remove(p);
        entries.insert(p, (key, value));
        proof {
            lemma_entries_view(entries@);
            let nv = entries_view(entries@);
            assert(ov[p as int].0 == kv);
            assert(nv =~= ov.update(p as int, (ov[p as int].0, vv)));
            lemma_update_keeps_lookup(ov, p as int, vv);
            assert(has_key(ov, kv));
        }
    } else {
        entries.insert(p, (key, value));
        proof {
            lemma_entries_view(entries@);
            let nv = entries_view(entries@);
            assert(nv =~= ov.insert(p as int, (kv, vv)));
            if p < ov.len() {
                lemma_cmp_flip(ov[p as int].0, kv);
            }
            lemma_insert_keeps_lookup(ov, p as int, kv, vv);
        }
    }
}

/// Replacing the value of entry `p` keeps the keys; lookups of other keys
/// are unchanged.
proof fn lemma_update_keeps_lookup(es: Seq<(ValueView, ValueView)>, p: int, v: ValueView)
    requires
        keys_sorted(es),
        0 <= p < es.len(),
    ensures
        keys_sorted(es.update(p, (es[p].0, v))),
        forall|k: ValueView| #[trigger] has_key(es.update(p, (es[p].0, v)), k) <==> has_key(es, k),
        forall|k: ValueView|
            #[trigger] lookup(es.update(p, (es[p].0, v)), k) == if k == es[p].0 {
                v
            } else {
                lookup(es, k)
            },
{
    let ns = es.update(p, (es[p].0, v));
    assert(keys_sorted(ns)) by {
        assert forall|i: int, j: int| 0 <= i < j < ns.len() implies value_cmp(#[trigger] ns[i].0, #[trigger] ns[j].0)
            == Ordering::Less by {
            assert(ns[i].0 == es[i].0);
            assert(ns[j].0 == es[j].0);
        }
    }
    assert forall|k: ValueView| has_key(ns, k) <==> has_key(es, k) by {
        if has_key(es, k) {
            let i = choose|i: int| 0 <= i < es.len() && #[trigger] es[i].0 == k;
            assert(ns[i].0 == k);
        }
        if has_key(ns, k) {
            let i = choose|i: int| 0 <= i < ns.len() && #[trigger] ns[i].0 == k;
            assert(es[i].0 == k);
        }
    }
    assert forall|k: ValueView| #[trigger] lookup(ns, k) == if k == es[p].0 {
        v
    } else {
        lookup(es, k)
    } by {
        if k == es[p].0 {
            lemma_lookup_present(ns, p);
        } else if has_key(es, k) {
            let i = choose|i: int| 0 <= i < es.len() && #[trigger] es[i].0 == k;
            lemma_lookup_present(es, i);
            lemma_lookup_present(ns, i);
        } else {
            assert forall|i: int| 0 <= i < es.len() implies #[trigger] es[i].0 != k by {}
            assert forall|i: int| 0 <= i < ns.len() implies #[trigger] ns[i].0 != k by {
                assert(ns[i].0 == es[i].0);
            }
            lemma_lookup_absent(es, k);
            lemma_lookup_absent(ns, k);
        }
    }
}

/// Inserting a new key at its sorted position keeps the keys sorted; lookups
/// of other keys are unchanged.
proof fn lemma_insert_keeps_lookup(es: Seq<(ValueView, ValueView)>, p: int, k0: ValueView, v: ValueView)
    requires
        keys_sorted(es),
        0 <= p <= es.len(),
        forall|j: int| 0 <= j < p ==> value_cmp(#[trigger] es[j].0, k0) == Ordering::Less,
        p < es.len() ==> value_cmp(k0, es[p].0) == Ordering::Less,
    ensures
        keys_sorted(es.insert(p, (k0, v))),
        forall|k: ValueView| #[trigger] has_key(es.insert(p, (k0, v)), k) <==> (k == k0 || has_key(es, k)),
        forall|k: ValueView|
            #[trigger] lookup(es.insert(p, (k0, v)), k) == if k == k0 {
                v
            } else {
                lookup(es, k)
            },
{
    let ns = es.insert(p, (k0, v));
    assert forall|j: int| p <= j < es.len() implies value_cmp(k0, #[trigger] es[j].0) == Ordering::Less by {
        if j > p {
            lemma_cmp_trans(k0, es[p].0, es[j].0);
        }
    }
    assert(keys_sorted(ns)) by {
        assert forall|i: int, j: int| 0 <= i < j < ns.len() implies value_cmp(#[trigger] ns[i].0, #[trigger] ns[j].0)
            == Ordering::Less by {
            if i < p {
                assert(ns[i] == es[i]);
                if j == p {
                } else if j < p {
                    assert(ns[j] == es[j]);
                } else {
                    assert(ns[j] == es[j - 1]);
                }
            } else if i == p {
                assert(ns[j] == es[j - 1]);
            } else {
                assert(ns[i] == es[i - 1]);
                assert(ns[j] == es[j - 1]);
            }
        }
    }
    assert forall|j: int| 0 <= j < es.len() implies #[trigger] es[j].0 != k0 by {
        lemma_cmp_equal(es[j].0, k0);
        if j >= p {
            lemma_cmp_equal(k0, es[j].0);
        }
    }
    assert forall|k: ValueView| has_key(ns, k) <==> (k == k0 || has_key(es, k)) by {
        assert(ns[p].0 == k0);
        if has_key(es, k) {
            let i = choose|i: int| 0 <= i < es.len() && #[trigger] es[i].0 == k;
            if i < p {
                assert(ns[i].0 == k);
            } else {
                assert(ns[i + 1].0 == k);
            }
        }
        if has_key(ns, k) && k != k0 {
            let i = choose|i: int| 0 <= i < ns.len() && #[trigger] ns[i].0 == k;
            if i < p {
                assert(es[i].0 == k);
            } else {
                assert(es[i - 1].0 == k);
            }
        }
    }
    assert forall|k: ValueView| #[trigger] lookup(ns, k) == if k == k0 {
        v
    } else {
        lookup(es, k)
    } by {
        if k == k0 {
            lemma_lookup_present(ns, p);
        } else if has_key(es, k) {
            let i = choose|i: int| 0 <= i < es.len() && #[trigger] es[i].0 == k;
            lemma_lookup_present(es, i);
            if i < p {
                assert(ns[i] == es[i]);
                lemma_lookup_present(ns, i);
            } else {
                assert(ns[i + 1] == es[i]);
                lemma_lookup_present(ns, i + 1);
            }
        } else {
            assert forall|i: int| 0 <= i < es.len() implies #[trigger] es[i].0 != k by {}
            assert forall|i: int| 0 <= i < ns.len() implies #[trigger] ns[i].0 != k by {
                if i < p {
                    assert(ns[i] == es[i]);
                } else if i > p {
                    assert(ns[i] == es[i - 1]);
                }
            }
            lemma_lookup_absent(es, k);
            lemma_lookup_absent(ns, k);
        }
    }
}

/// Where `x` belongs among sorted elements: the first position whose element
/// is not below it.
fn elem_position(elems: &Vec<Value>, x: &Value) -> (p: usize)
    ensures
        p <= elems@.len(),
        forall|j: int| 0 <= j < p ==> value_cmp(#[trigger] elems@[j]@, x@) == Ordering::Less,
        p < elems@.len() ==> value_cmp(elems@[p as int]@, x@) != Ordering::Less,
{
    let mut p: usize = 0;
    while p < elems.len()
        invariant
            p <= elems@.len(),
            forall|j: int| 0 <= j < p ==> value_cmp(#[trigger] elems@[j]@, x@) == Ordering::Less,
        decreases elems@.len() - p,
    {
        match compare(&elems[p], x) {
            Ordering::Less => {},
            _ => {
                return p;
            },
        }
        p = p + 1;
    }
    p
}

/// Adds `x` to a set's sorted elements unless an equal element is there;
/// the elements stay sorted and unique.
pub fn set_insert(elems: &mut Vec<Value>, x: Value)
    requires
        elems_sorted(elems_view(old(elems)@)),
    ensures
        elems_sorted(elems_view(final(elems)@)),
        forall|y: ValueView|
            #[trigger] has_elem(elems_view(final(elems)@), y) <==> (y == x@ || has_elem(
                elems_view(old(elems)@),
                y,
            )),
{
    let ghost ov = elems_view(elems@);
    let ghost xv = x@;
    proof {
        lemma_elems_view(elems@);
    }
    let p = elem_position(elems, &x);
    let present = p < elems.len() && match compare(&elems[p], &x) {
        Ordering::Equal => true,
        _ => false,
    };
    if present {
        proof {
            lemma_cmp_equal(ov[p as int], xv);
            assert(has_elem(ov, xv));
        }
    } else {
        elems.insert(p, x);
        proof {
            lemma_elems_view(elems@);
            assert(elems_view(elems@) =~= ov.insert(p as int, xv));
            if p < ov.len() {
                lemma_cmp_flip(ov[p as int], xv);
            }
            lemma_insert_sorted_elem(ov, p as int, xv);
        }
    }
}

/// Inserting a new element at its sorted position keeps the elements sorted.
proof fn lemma_insert_sorted_elem(s: Seq<ValueView>, p: int, x: ValueView)
    requires
        elems_sorted(s),
        0 <= p <= s.len(),
        forall|j: int| 0 <= j < p ==> value_cmp(#[trigger] s[j], x) == Ordering::Less,
        p < s.len() ==> value_cmp(x, s[p]) == Ordering::Less,
    ensures
        elems_sorted(s.insert(p, x)),
        forall|y: ValueView| #[trigger] has_elem(s.insert(p, x), y) <==> (y == x || has_elem(s, y)),
{
    let ns = s.insert(p, x);
    assert forall|j: int| p <= j < s.len() implies value_cmp(x, #[trigger] s[j]) == Ordering::Less by {
        if j > p {
            lemma_cmp_trans(x, s[p], s[j]);
        }
    }
    assert(elems_sorted(ns)) by {
        assert forall|i: int, j: int| 0 <= i < j < ns.len() implies value_cmp(#[trigger] ns[i], #[trigger] ns[j])
            == Ordering::Less by {
            if i < p {
                assert(ns[i] == s[i]);
                if j < p {
                    assert(ns[j] == s[j]);
                } else if j > p {
                    assert(ns[j] == s[j - 1]);
                }
            } else if i == p {
                assert(ns[j] == s[j - 1]);
            } else {
                assert(ns[i] == s[i - 1]);
                assert(ns[j] == s[j - 1]);
            }
        }
    }
    assert forall|y: ValueView| #[trigger] has_elem(ns, y) <==> (y == x || has_elem(s, y)) by {
        assert(ns[p] == x);
        if has_elem(s, y) {
            let i = choose|i: int| 0 <= i < s.len() && #[trigger] s[i] == y;
            if i < p {
                assert(ns[i] == y);
            } else {
                assert(ns[i + 1] == y);
            }
        }
        if has_elem(ns, y) && y != x {
            let i = choose|i: int| 0 <= i < ns.len() && #[trigger] ns[i] == y;
            if i < p {
                assert(s[i] == y);
            } else {
                assert(s[i - 1] == y);
            }
        }
    }
}

} // verus!
