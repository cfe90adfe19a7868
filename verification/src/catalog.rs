//! Collections of named things, kept in the order of their names.

use vstd::prelude::*;

use crate::meta::views;
use crate::meta::Function;
use crate::meta::FunctionV;
use crate::meta::TypeLayout;
use crate::meta::TypeV;
use crate::meta::Variable;
use crate::meta::VariableV;
use crate::text::lemma_text_order;
use crate::text::same_text;
use crate::text::sorts_before;
use crate::text::text_lt;
use crate::text::Text;

verus! {

/// A thing with a name.
pub trait Named: View + Sized {
    /// The name.
    spec fn key(v: Self::V) -> Text;

    /// The name.
    fn name(&self) -> (r: &str)
        ensures
            r@ == Self::key(self@),
    ;
}

impl Named for Function {
    open spec fn key(v: FunctionV) -> Text {
        v.name
    }

    fn name(&self) -> (r: &str) {
        self.name.as_str()
    }
}

impl Named for TypeLayout {
    open spec fn key(v: TypeV) -> Text {
        v.name
    }

    fn name(&self) -> (r: &str) {
        self.name.as_str()
    }
}

impl Named for Variable {
    open spec fn key(v: VariableV) -> Text {
        v.name
    }

    fn name(&self) -> (r: &str) {
        self.name.as_str()
    }
}

/// Whether the names of a list come in strictly increasing order.
pub open spec fn in_name_order<T: Named>(list: Seq<T::V>) -> bool {
    forall|i: int, j: int|
        0 <= i < j < list.len() ==> text_lt(T::key(#[trigger] list[i]), T::key(#[trigger] list[j]))
}

/// Whether `list` holds what `m` holds, each thing once, in the order of their names.
pub open spec fn lists<T: Named>(list: Seq<T::V>, m: Map<Text, T::V>) -> bool {
    &&& in_name_order::<T>(list)
    &&& forall|i: int|
        0 <= i < list.len() ==> m.contains_key(T::key(#[trigger] list[i])) && m[T::key(list[i])] == list[i]
    &&& forall|k: Text| #[trigger]
        m.contains_key(k) ==> exists|i: int| 0 <= i < list.len() && T::key(#[trigger] list[i]) == k
}

/// A collection of named things, at most one of each name.
pub struct Catalog<T: Named> {
    items: Vec<T>,
    contents: Ghost<Map<Text, T::V>>,
}

impl<T: Named> View for Catalog<T> {
    type V = Map<Text, T::V>;

    closed spec fn view(&self) -> Map<Text, T::V> {
        self.contents@
    }
}

impl<T: Named> Catalog<T> {
    /// Whether the collection is in order.
    pub closed spec fn wf(&self) -> bool {
        lists::<T>(views(self.items@), self@)
    }

    /// The empty collection.
    pub fn new() -> (r: Self)
        ensures
            r.wf(),
            r@ == Map::<Text, T::V>::empty(),
    {
        Catalog { items: Vec::new(), contents: Ghost(Map::empty()) }
    }

    /// The things of the collection, in the order of their names.
    pub fn into_list(self) -> (r: Vec<T>)
        requires
            self.wf(),
        ensures
            lists::<T>(views(r@), self@),
    {
        self.items
    }

    /// Where `name` stands, or would have to stand: whether it is there, and its position.
    fn find(&self, name: &str) -> (r: (bool, usize))
        requires
            self.wf(),
        ensures
            r.1 <= self.items.len(),
            r.0 == self@.contains_key(name@),
            r.0 ==> r.1 < self.items.len() && T::key(self.items@[r.1 as int]@) == name@,
            forall|i: int| 0 <= i < r.1 ==> text_lt(T::key(#[trigger] self.items@[i]@), name@),
            !r.0 ==> forall|i: int|
                r.1 <= i < self.items.len() ==> text_lt(name@, T::key(#[trigger] self.items@[i]@)),
    {
        let ghost list = views(self.items@);
        let mut lo: usize = 0;
        let mut hi: usize = self.items.len();
        while lo < hi
            invariant
                self.wf(),
                list == views(self.items@),
                lo <= hi <= self.items.len(),
                forall|i: int| 0 <= i < lo ==> text_lt(T::key(#[trigger] self.items@[i]@), name@),
                forall|i: int|
                    hi <= i < self.items.len() ==> text_lt(name@, T::key(#[trigger] self.items@[i]@)),
            decreases hi - lo,
        {
            let mid: usize = lo + (hi - lo) / 2;
            let ghost at = T::key(self.items@[mid as int]@);
            assert(list[mid as int] == self.items@[mid as int]@);
            if sorts_before(self.items[mid].name(), name) {
                assert forall|i: int| 0 <= i < mid + 1 implies text_lt(
                    T::key(#[trigger] self.items@[i]@),
                    name@,
                ) by {
                    if i < mid {
                        assert(list[i] == self.items@[i]@);
                        lemma_text_order(T::key(list[i]), at, name@);
                    }
                }
                lo = mid + 1;
            } else if same_text(self.items[mid].name(), name) {
                assert forall|i: int| 0 <= i < mid implies text_lt(
                    T::key(#[trigger] self.items@[i]@),
                    name@,
                ) by {
                    assert(list[i] == self.items@[i]@);
                }
                return (true, mid);
            } else {
                proof {
                    lemma_text_order(at, name@, at);
                }
                assert forall|i: int| mid <= i < self.items.len() implies text_lt(
                    name@,
                    T::key(#[trigger] self.items@[i]@),
                ) by {
                    if i > mid {
                        assert(list[i] == self.items@[i]@);
                        lemma_text_order(name@, at, T::key(list[i]));
                    }
                }
                hi = mid;
            }
        }
        proof {
            if self@.contains_key(name@) {
                let i = choose|i: int| 0 <= i < list.len() && T::key(#[trigger] list[i]) == name@;
                assert(list[i] == self.items@[i]@);
                lemma_text_order(name@, name@, name@);
            }
        }
        (false, lo)
    }

    /// Puts `item` at `at`, where its name has to stand.
    fn insert_at(&mut self, at: usize, item: T)
        requires
            old(self).wf(),
            at <= old(self).items.len(),
            !old(self)@.contains_key(T::key(item@)),
            forall|i: int|
                0 <= i < at ==> text_lt(T::key(#[trigger] old(self).items@[i]@), T::key(item@)),
            forall|i: int|
                at <= i < old(self).items.len() ==> text_lt(
                    T::key(item@),
                    T::key(#[trigger] old(self).items@[i]@),
                ),
        ensures
            final(self).wf(),
            final(self)@ == old(self)@.insert(T::key(item@), item@),
    {
        let ghost before = views(self.items@);
        let ghost m = self@;
        let ghost name = T::key(item@);
        let ghost v = item@;
        self.items.insert(at, item);
        self.contents = Ghost(m.insert(name, v));
        proof {
            let list = views(self.items@);
            assert(list =~= before.insert(at as int, v));
            assert forall|i: int, j: int| 0 <= i < j < list.len() implies text_lt(
                T::key(#[trigger] list[i]),
                T::key(#[trigger] list[j]),
            ) by {
                let a = if i < at { i } else { i - 1 };
                let b = if j < at { j } else { j - 1 };
                if i != at {
                    assert(list[i] == before[a]);
                    assert(before[a] == old(self).items@[a]@);
                }
                if j != at {
                    assert(list[j] == before[b]);
                    assert(before[b] == old(self).items@[b]@);
                }
            }
            assert forall|i: int| 0 <= i < list.len() implies self@.contains_key(T::key(#[trigger] list[i]))
                && self@[T::key(list[i])] == list[i] by {
                if i != at {
                    let a = if i < at { i } else { i - 1 };
                    assert(list[i] == before[a]);
                    assert(before[a] == old(self).items@[a]@);
                    lemma_text_order(T::key(before[a]), name, name);
                    lemma_text_order(name, T::key(before[a]), name);
                }
            }
            assert forall|k: Text| #[trigger] self@.contains_key(k) implies exists|i: int|
                0 <= i < list.len() && T::key(#[trigger] list[i]) == k by {
                if k == name {
                    assert(list[at as int] == v);
                } else {
                    let a = choose|i: int| 0 <= i < before.len() && T::key(#[trigger] before[i]) == k;
                    let i = if a < at { a } else { a + 1 };
                    assert(list[i] == before[a]);
                }
            }
        }
    }

    /// Adds `item`, unless there is something of its name already.
    pub fn add_new(&mut self, item: T)
        requires
            old(self).wf(),
        ensures
            final(self).wf(),
            final(self)@ == added_new::<T>(old(self)@, item@),
    {
        let (found, at) = self.find(item.name());
        if !found {
            self.insert_at(at, item);
        }
    }
}

/// What `m` becomes when `v` is added: the same, where there is something of its name already.
pub open spec fn added_new<T: Named>(m: Map<Text, T::V>, v: T::V) -> Map<Text, T::V> {
    if m.contains_key(T::key(v)) {
        m
    } else {
        m.insert(T::key(v), v)
    }
}

// ---- functions ----

/// What is known of a function after `e` was known of it and `f` is learned. Code of its own is taken
/// over once, with its size and parameters; a linkage name that is known stays. Inlined copies add up.
pub open spec fn merged(e: FunctionV, f: FunctionV) -> FunctionV {
    let gains = e.address is None && f.address is Some;
    FunctionV {
        name: e.name,
        linkage_name: if gains && e.linkage_name is None {
            f.linkage_name
        } else {
            e.linkage_name
        },
        address: if gains { f.address } else { e.address },
        size: if gains { f.size } else { e.size },
        inlined_at: e.inlined_at + f.inlined_at,
        params: if gains { f.params } else { e.params },
    }
}

/// What the functions become when `f` is learned.
pub open spec fn merged_in(m: Map<Text, FunctionV>, f: FunctionV) -> Map<Text, FunctionV> {
    if m.contains_key(f.name) {
        m.insert(f.name, merged(m[f.name], f))
    } else {
        m.insert(f.name, f)
    }
}

/// A function of which nothing is known but one inlined copy.
pub open spec fn inlined_only(name: Text, at: u64) -> FunctionV {
    FunctionV {
        name,
        linkage_name: None,
        address: None,
        size: None,
        inlined_at: seq![at],
        params: Seq::empty(),
    }
}

/// Adds to `existing` what `f` says of the same function.
fn merge_into(existing: &mut Function, f: Function)
    ensures
        final(existing)@ == merged(old(existing)@, f@),
{
    let Function { name: _, linkage_name, address, size, inlined_at, params } = f;
    if existing.address.is_none() && address.is_some() {
        existing.address = address;
        existing.size = size;
        existing.params = params;
        if existing.linkage_name.is_none() {
            existing.linkage_name = linkage_name;
        }
    }
    let mut more: Vec<u64> = inlined_at;
    existing.inlined_at.append(&mut more);
    assert(existing@ =~= merged(old(existing)@, f@));
}

/// Learns of a function: a new one is added, and one that is known gains what it lacked.
pub fn merge_fn(map: &mut Catalog<Function>, f: Function)
    requires
        old(map).wf(),
    ensures
        final(map).wf(),
        final(map)@ == merged_in(old(map)@, f@),
{
    let (found, at) = map.find(f.name());
    if found {
        let ghost before = views(map.items@);
        let ghost m = map@;
        let ghost name = f@.name;
        let ghost v = merged(m[name], f@);
        assert(before[at as int] == map.items@[at as int]@);
        merge_into(&mut map.items[at], f);
        map.contents = Ghost(m.insert(name, v));
        proof {
            let list = views(map.items@);
            assert(list =~= before.update(at as int, v));
            assert(forall|i: int| 0 <= i < list.len() ==> (#[trigger] list[i]).name == before[i].name);
            assert forall|i: int, j: int| 0 <= i < j < list.len() implies text_lt(
                Function::key(#[trigger] list[i]),
                Function::key(#[trigger] list[j]),
            ) by {
                assert(text_lt(Function::key(before[i]), Function::key(before[j])));
            }
            assert forall|i: int| 0 <= i < list.len() implies map@.contains_key(
                Function::key(#[trigger] list[i]),
            ) && map@[Function::key(list[i])] == list[i] by {
                if i != at {
                    assert(list[i] == before[i]);
                    lemma_text_order(before[i].name, before[at as int].name, name);
                    lemma_text_order(before[at as int].name, before[i].name, name);
                }
            }
            assert forall|k: Text| #[trigger] map@.contains_key(k) implies exists|i: int|
                0 <= i < list.len() && Function::key(#[trigger] list[i]) == k by {
                if k == name {
                    assert(Function::key(list[at as int]) == k);
                } else {
                    let i = choose|i: int| 0 <= i < before.len() && Function::key(#[trigger] before[i]) == k;
                    assert(list[i].name == k);
                }
            }
        }
    } else {
        map.insert_at(at, f);
    }
}

/// Learns that the function called `name` was inlined at an address.
pub fn note_inlined(map: &mut Catalog<Function>, name: String, at: u64)
    requires
        old(map).wf(),
    ensures
        final(map).wf(),
        final(map)@ == merged_in(old(map)@, inlined_only(name@, at)),
{
    let mut inlined_at: Vec<u64> = Vec::new();
    inlined_at.push(at);
    let f = Function { name, linkage_name: None, address: None, size: None, inlined_at, params: Vec::new() };
    assert(f@ =~= inlined_only(name@, at));
    merge_fn(map, f);
}

// ---- laws ----

/// Learning of a function never loses one, and never takes away code, parameters or inlined copies
/// that are known of any.
pub proof fn law_merge_keeps(m: Map<Text, FunctionV>, f: FunctionV, k: Text)
    requires
        m.contains_key(k),
    ensures
        merged_in(m, f).contains_key(k),
        m[k].address is Some ==> merged_in(m, f)[k].address == m[k].address && merged_in(m, f)[k].size
            == m[k].size && merged_in(m, f)[k].params == m[k].params,
        m[k].linkage_name is Some ==> merged_in(m, f)[k].linkage_name == m[k].linkage_name,
        m[k].inlined_at.is_prefix_of(merged_in(m, f)[k].inlined_at),
        k != f.name ==> merged_in(m, f)[k] == m[k],
{
}

/// After a function with code of its own was learned, its name leads to code.
pub proof fn law_merge_learns(m: Map<Text, FunctionV>, f: FunctionV)
    requires
        f.address is Some,
    ensures
        merged_in(m, f).contains_key(f.name),
        merged_in(m, f)[f.name].address is Some,
        (!m.contains_key(f.name) || m[f.name].address is None) ==> merged_in(m, f)[f.name].address
            == f.address && merged_in(m, f)[f.name].params == f.params,
{
}

/// A list in the order of its names is determined by what it lists.
pub proof fn law_listing_unique<T: Named>(a: Seq<T::V>, b: Seq<T::V>, m: Map<Text, T::V>)
    requires
        lists::<T>(a, m),
        lists::<T>(b, m),
    ensures
        a == b,
    decreases a.len(),
{
    if a.len() == 0 {
        if b.len() > 0 {
            let k = T::key(b[0]);
            assert(m.contains_key(k));
        }
        assert(a =~= b);
    } else {
        assert(m.contains_key(T::key(a[0])));
        let last = a.last();
        let k = T::key(last);
        assert(m.contains_key(T::key(a[a.len() - 1])));
        let j = choose|i: int| 0 <= i < b.len() && T::key(#[trigger] b[i]) == k;
        // The greatest name of one list is the greatest of the other.
        assert(j == b.len() - 1) by {
            if j < b.len() - 1 {
                let g = T::key(b[b.len() - 1]);
                assert(m.contains_key(g));
                let i = choose|i: int| 0 <= i < a.len() && T::key(#[trigger] a[i]) == g;
                assert(text_lt(k, g)) by {
                    assert(text_lt(T::key(b[j]), T::key(b[b.len() - 1])));
                }
                lemma_text_order(k, g, k);
                if i < a.len() - 1 {
                    assert(text_lt(T::key(a[i]), T::key(a[a.len() - 1])));
                }
            }
        }
        assert(b.last() == last);
        let rest = m.remove(k);
        let a0 = a.drop_last();
        let b0 = b.drop_last();
        assert forall|i: int| 0 <= i < a0.len() implies rest.contains_key(T::key(#[trigger] a0[i]))
            && rest[T::key(a0[i])] == a0[i] by {
            assert(a0[i] == a[i]);
            assert(text_lt(T::key(a[i]), T::key(a[a.len() - 1])));
            lemma_text_order(T::key(a[i]), k, k);
        }
        assert forall|i: int| 0 <= i < b0.len() implies rest.contains_key(T::key(#[trigger] b0[i]))
            && rest[T::key(b0[i])] == b0[i] by {
            assert(b0[i] == b[i]);
            assert(text_lt(T::key(b[i]), T::key(b[b.len() - 1])));
            lemma_text_order(T::key(b[i]), k, k);
        }
        assert forall|x: Text| #[trigger] rest.contains_key(x) implies exists|i: int|
            0 <= i < a0.len() && T::key(#[trigger] a0[i]) == x by {
            let i = choose|i: int| 0 <= i < a.len() && T::key(#[trigger] a[i]) == x;
            assert(a0[i] == a[i]);
        }
        assert forall|x: Text| #[trigger] rest.contains_key(x) implies exists|i: int|
            0 <= i < b0.len() && T::key(#[trigger] b0[i]) == x by {
            let i = choose|i: int| 0 <= i < b.len() && T::key(#[trigger] b[i]) == x;
            assert(b0[i] == b[i]);
        }
        assert(in_name_order::<T>(a0)) by {
            assert forall|i: int, j: int| 0 <= i < j < a0.len() implies text_lt(
                T::key(#[trigger] a0[i]),
                T::key(#[trigger] a0[j]),
            ) by {
                assert(text_lt(T::key(a[i]), T::key(a[j])));
            }
        }
        assert(in_name_order::<T>(b0)) by {
            assert forall|i: int, j: int| 0 <= i < j < b0.len() implies text_lt(
                T::key(#[trigger] b0[i]),
                T::key(#[trigger] b0[j]),
            ) by {
                assert(text_lt(T::key(b[i]), T::key(b[j])));
            }
        }
        law_listing_unique::<T>(a0, b0, rest);
        assert(a =~= a0.push(last));
        assert(b =~= b0.push(last));
    }
}

} // verus!
