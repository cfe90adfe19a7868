//! Small tables: values by keys, in the order in which the keys were first put in.

use vstd::prelude::*;

use crate::meta::first_from;
use crate::meta::first_such;
use crate::meta::lemma_first_from;

verus! {

/// What can be a key.
pub trait Key: Copy {
    /// Whether two keys are the same.
    fn same(&self, other: &Self) -> (r: bool)
        ensures
            r == (*self == *other),
    ;
}

impl Key for i32 {
    fn same(&self, other: &Self) -> (r: bool) {
        *self == *other
    }
}

impl Key for u64 {
    fn same(&self, other: &Self) -> (r: bool) {
        *self == *other
    }
}

/// The position of a key.
pub open spec fn position<K, V>(t: Seq<(K, V)>, k: K) -> Option<int> {
    first_such(t.len(), |i: int| t[i].0 == k)
}

/// Whether there is a value for a key.
pub open spec fn holds_key<K, V>(t: Seq<(K, V)>, k: K) -> bool {
    position(t, k) is Some
}

/// The value for a key.
pub open spec fn value_of<K, V>(t: Seq<(K, V)>, k: K) -> Option<V> {
    match position(t, k) {
        Some(i) => Some(t[i].1),
        None => None,
    }
}

/// The table with a value for a key: in the place of the value that it had, or at the end.
pub open spec fn with_value<K, V>(t: Seq<(K, V)>, k: K, v: V) -> Seq<(K, V)> {
    match position(t, k) {
        Some(i) => t.update(i, (k, v)),
        None => t.push((k, v)),
    }
}

/// The table without a key.
pub open spec fn without<K, V>(t: Seq<(K, V)>, k: K) -> Seq<(K, V)> {
    match position(t, k) {
        Some(i) => t.remove(i),
        None => t,
    }
}

/// Whether no key stands in the table twice.
pub open spec fn distinct<K, V>(t: Seq<(K, V)>) -> bool {
    forall|i: int, j: int| 0 <= i < j < t.len() ==> (#[trigger] t[i]).0 != (#[trigger] t[j]).0
}

/// What the position of a key is.
pub proof fn lemma_position<K, V>(t: Seq<(K, V)>, k: K)
    ensures
        match position(t, k) {
            Some(i) => 0 <= i < t.len() && t[i].0 == k,
            None => forall|j: int| 0 <= j < t.len() ==> (#[trigger] t[j]).0 != k,
        },
{
    let wanted = |i: int| t[i].0 == k;
    lemma_first_from(t.len() as int, wanted, 0);
    if position(t, k) is None {
        assert forall|j: int| 0 <= j < t.len() implies (#[trigger] t[j]).0 != k by {
            assert(!wanted(j));
        }
    }
}

/// The first entry with a key is at its position.
pub proof fn lemma_first_entry<K, V>(t: Seq<(K, V)>, k: K, i: int)
    requires
        0 <= i < t.len(),
        t[i].0 == k,
        forall|j: int| 0 <= j < i ==> (#[trigger] t[j]).0 != k,
    ensures
        position(t, k) == Some(i),
{
    let wanted = |i: int| t[i].0 == k;
    lemma_first_from(t.len() as int, wanted, 0);
    assert(wanted(i));
    if let Some(p) = position(t, k) {
        if p < i {
            assert(t[p].0 != k);
        }
    }
}

/// In a table without repeated keys, every entry is the value of its key.
pub proof fn lemma_entry<K, V>(t: Seq<(K, V)>, i: int)
    requires
        distinct(t),
        0 <= i < t.len(),
    ensures
        holds_key(t, t[i].0),
        value_of(t, t[i].0) == Some(t[i].1),
{
    lemma_position(t, t[i].0);
    let p = position(t, t[i].0);
    if p is Some && p.unwrap() != i {
        if p.unwrap() < i {
            assert(t[p.unwrap()].0 != t[i].0);
        } else {
            assert(t[i].0 != t[p.unwrap()].0);
        }
    }
}

/// Putting a value in gives the key that value, leaves every other key alone and repeats none.
pub proof fn lemma_with_value<K, V>(t: Seq<(K, V)>, k: K, v: V, other: K)
    ensures
        distinct(t) ==> distinct(with_value(t, k, v)),
        value_of(with_value(t, k, v), k) == Some(v),
        other != k ==> value_of(with_value(t, k, v), other) == value_of(t, other),
        holds_key(with_value(t, k, v), other) == (holds_key(t, other) || other == k),
        with_value(t, k, v).len() == (if holds_key(t, k) {
            t.len()
        } else {
            t.len() + 1
        }),
{
    let r = with_value(t, k, v);
    lemma_position(t, k);
    lemma_position(t, other);
    lemma_position(r, k);
    lemma_position(r, other);
    lemma_first_from(t.len() as int, |i: int| t[i].0 == k, 0);
    lemma_first_from(t.len() as int, |i: int| t[i].0 == other, 0);
    lemma_first_from(r.len() as int, |i: int| r[i].0 == k, 0);
    lemma_first_from(r.len() as int, |i: int| r[i].0 == other, 0);
    if distinct(t) {
        assert forall|i: int, j: int| 0 <= i < j < r.len() implies (#[trigger] r[i]).0 != (#[trigger] r[j]).0 by {
            if j < t.len() {
                assert(t[i].0 == r[i].0 && t[j].0 == r[j].0);
            } else {
                assert(t[i].0 == r[i].0);
            }
        }
    }
    match position(t, k) {
        Some(p) => {
            assert(forall|i: int| 0 <= i < t.len() ==> (#[trigger] r[i]).0 == t[i].0);
            let q = position(r, k).unwrap();
            if q != p {
                assert(r[p].0 == k && t[q].0 == k);
                let wt = |i: int| t[i].0 == k;
                let wr = |i: int| r[i].0 == k;
                if q < p {
                    assert(wt(q));
                } else {
                    assert(wr(p));
                }
            }
        },
        None => {
            assert(r[t.len() as int] == (k, v));
            let q = position(r, k).unwrap();
            if q != t.len() {
                assert(t[q].0 == k);
            }
        },
    }
    if other != k {
        let wt = |i: int| t[i].0 == other;
        let wr = |i: int| r[i].0 == other;
        match position(t, other) {
            Some(a) => {
                assert(r[a].0 == other);
                let b = position(r, other).unwrap();
                if b != a {
                    if b < a {
                        assert(wt(b));
                    } else {
                        assert(wr(a));
                    }
                }
            },
            None => {
                if position(r, other) is Some {
                    let b = position(r, other).unwrap();
                    assert(t[b].0 == other);
                }
            },
        }
    }
}

/// Taking a key out takes out no other, and repeats none.
pub proof fn lemma_without<K, V>(t: Seq<(K, V)>, k: K, other: K)
    requires
        distinct(t),
    ensures
        distinct(without(t, k)),
        !holds_key(without(t, k), k),
        other != k ==> value_of(without(t, k), other) == value_of(t, other),
        other != k ==> holds_key(without(t, k), other) == holds_key(t, other),
        without(t, k).len() == (if holds_key(t, k) {
            t.len() - 1
        } else {
            t.len() as int
        }),
{
    let r = without(t, k);
    lemma_position(t, k);
    match position(t, k) {
        Some(p) => {
            assert forall|i: int, j: int| 0 <= i < j < r.len() implies (#[trigger] r[i]).0 != (#[trigger] r[j]).0 by {
                let a = if i < p { i } else { i + 1 };
                let b = if j < p { j } else { j + 1 };
                assert(r[i] == t[a] && r[j] == t[b]);
            }
            lemma_position(r, k);
            if holds_key(r, k) {
                let q = position(r, k).unwrap();
                let b = if q < p { q } else { q + 1 };
                assert(r[q] == t[b]);
                if b < p {
                    assert(t[b].0 != t[p].0);
                } else {
                    assert(t[p].0 != t[b].0);
                }
            }
            if other != k {
                lemma_position(t, other);
                lemma_position(r, other);
                if let Some(a) = position(t, other) {
                    let i = if a < p { a } else { a - 1 };
                    assert(r[i] == t[a]);
                    lemma_entry(r, i);
                    lemma_entry(t, a);
                }
                if let Some(q) = position(r, other) {
                    let b = if q < p { q } else { q + 1 };
                    assert(r[q] == t[b]);
                    lemma_entry(t, b);
                }
            }
        },
        None => {},
    }
}

/// Where a key stands in a table.
pub fn find<K: Key, V: Copy>(t: &Vec<(K, V)>, k: K) -> (r: Option<usize>)
    ensures
        match r {
            Some(i) => i < t.len() && position(t@, k) == Some(i as int),
            None => position(t@, k) is None,
        },
{
    let ghost wanted = |i: int| t@[i].0 == k;
    let mut i: usize = 0;
    while i < t.len()
        invariant
            i <= t.len(),
            wanted == |i: int| t@[i].0 == k,
            position(t@, k) == first_from(t.len() as int, wanted, i as int),
        decreases t.len() - i,
    {
        let key: K = t[i].0;
        if key.same(&k) {
            return Some(i);
        }
        i += 1;
    }
    None
}

/// The value for a key.
pub fn get<K: Key, V: Copy>(t: &Vec<(K, V)>, k: K) -> (r: Option<V>)
    ensures
        r == value_of(t@, k),
{
    match find(t, k) {
        Some(i) => Some(t[i].1),
        None => None,
    }
}

/// Puts in a value for a key.
pub fn put<K: Key, V: Copy>(t: &mut Vec<(K, V)>, k: K, v: V)
    ensures
        final(t)@ == with_value(old(t)@, k, v),
{
    match find(t, k) {
        Some(i) => {
            t.set(i, (k, v));
        },
        None => {
            t.push((k, v));
        },
    }
}

/// Takes a key out.
pub fn remove<K: Key, V: Copy>(t: &mut Vec<(K, V)>, k: K)
    ensures
        final(t)@ == without(old(t)@, k),
{
    if let Some(i) = find(t, k) {
        let _ = t.remove(i);
    }
}

} // verus!
