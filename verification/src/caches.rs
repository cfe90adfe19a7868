//! What a mod keeps between hooks: numbers under names, and the results of calls.

use vstd::hash_map::StringHashMap;
use vstd::prelude::*;

use crate::table::lemma_first_entry;
use crate::table::lemma_position;
use crate::table::lemma_with_value;
use crate::table::position;
use crate::table::value_of;
use crate::table::with_value;
use crate::text::same_text;
use crate::text::Text;

verus! {

/// Numbers under names.
pub struct StateStore {
    numbers: StringHashMap<i64>,
}

impl View for StateStore {
    type V = Map<Text, i64>;

    closed spec fn view(&self) -> Map<Text, i64> {
        self.numbers@
    }
}

/// The number under a name; zero where there is none.
pub open spec fn number_under(store: Map<Text, i64>, key: Text) -> i64 {
    if store.contains_key(key) {
        store[key]
    } else {
        0
    }
}

impl StateStore {
    /// No numbers.
    pub fn new() -> (r: StateStore)
        ensures
            r@ == Map::<Text, i64>::empty(),
    {
        StateStore { numbers: StringHashMap::new() }
    }

    /// Puts a number under a name.
    pub fn set_state(&mut self, key: &str, value: i64)
        ensures
            final(self)@ == old(self)@.insert(key@, value),
    {
        self.numbers.insert(key.to_string(), value);
    }

    /// The number under a name; zero where there is none.
    pub fn get_state(&self, key: &str) -> (r: i64)
        ensures
            r == number_under(self@, key@),
    {
        match self.numbers.get(key) {
            Some(v) => *v,
            None => 0,
        }
    }
}

/// What was put under a name is what is found there, and what is under other names stays.
pub proof fn law_state(store: Map<Text, i64>, key: Text, value: i64, other: Text)
    ensures
        number_under(store.insert(key, value), key) == value,
        other != key ==> number_under(store.insert(key, value), other) == number_under(store, other),
{
}

/// The result of a call, by the name of the function and the numbers that it was called with.
pub struct Remembered {
    pub name: String,
    pub numbers: Vec<i64>,
    pub result: i64,
}

/// What the results of calls are kept under.
pub type CallKey = (Text, Seq<i64>);

impl View for Remembered {
    type V = (CallKey, i64);

    open spec fn view(&self) -> (CallKey, i64) {
        ((self.name@, self.numbers@), self.result)
    }
}

/// The results of calls.
pub struct CallCache {
    pub calls: Vec<Remembered>,
}

impl View for CallCache {
    type V = Seq<(CallKey, i64)>;

    open spec fn view(&self) -> Seq<(CallKey, i64)> {
        self.calls@.map_values(|c: Remembered| c@)
    }
}

/// A copy of a list of numbers.
fn copy_numbers(list: &Vec<i64>) -> (r: Vec<i64>)
    ensures
        r@ == list@,
{
    let mut r: Vec<i64> = Vec::new();
    let mut i: usize = 0;
    while i < list.len()
        invariant
            i <= list.len(),
            r@ == list@.take(i as int),
        decreases list.len() - i,
    {
        r.push(list[i]);
        assert(list@.take(i + 1) =~= list@.take(i as int).push(list@[i as int]));
        i += 1;
    }
    assert(list@.take(i as int) =~= list@);
    r
}

/// Whether two lists of numbers are the same.
fn same_numbers(a: &Vec<i64>, b: &Vec<i64>) -> (r: bool)
    ensures
        r == (a@ == b@),
{
    if a.len() != b.len() {
        return false;
    }
    let mut i: usize = 0;
    while i < a.len()
        invariant
            i <= a.len(),
            a.len() == b.len(),
            forall|j: int| 0 <= j < i ==> a@[j] == b@[j],
        decreases a.len() - i,
    {
        if a[i] != b[i] {
            return false;
        }
        i += 1;
    }
    assert(a@ =~= b@);
    true
}

impl CallCache {
    /// No results.
    pub fn new() -> (r: CallCache)
        ensures
            r@ == Seq::<(CallKey, i64)>::empty(),
    {
        let r = CallCache { calls: Vec::new() };
        assert(r@ =~= Seq::<(CallKey, i64)>::empty());
        r
    }

    /// Where the result of a call stands.
    fn find(&self, name: &str, numbers: &Vec<i64>) -> (r: Option<usize>)
        ensures
            match r {
                Some(i) => i < self.calls.len() && position(self@, (name@, numbers@)) == Some(i as int),
                None => position(self@, (name@, numbers@)) is None,
            },
    {
        let ghost all = self@;
        let ghost key = (name@, numbers@);
        let mut i: usize = 0;
        while i < self.calls.len()
            invariant
                i <= self.calls.len(),
                all == self@,
                key == (name@, numbers@),
                forall|j: int| 0 <= j < i ==> (#[trigger] all[j]).0 != key,
            decreases self.calls.len() - i,
        {
            let call: &Remembered = &self.calls[i];
            assert(all[i as int] == call@);
            if same_text(call.name.as_str(), name) && same_numbers(&call.numbers, numbers) {
                proof {
                    lemma_first_entry(all, key, i as int);
                }
                return Some(i);
            }
            i += 1;
        }
        proof {
            lemma_position(all, key);
        }
        None
    }

    /// The result of a call, if it is known.
    pub fn recall(&self, name: &str, numbers: &Vec<i64>) -> (r: Option<i64>)
        ensures
            r == value_of(self@, (name@, numbers@)),
    {
        match self.find(name, numbers) {
            Some(i) => Some(self.calls[i].result),
            None => None,
        }
    }

    /// Keeps the result of a call.
    pub fn remember(&mut self, name: &str, numbers: &Vec<i64>, result: i64)
        ensures
            final(self)@ == with_value(old(self)@, (name@, numbers@), result),
    {
        let call = Remembered { name: name.to_string(), numbers: copy_numbers(numbers), result };
        match self.find(name, numbers) {
            Some(i) => {
                self.calls.set(i, call);
                assert(self@ =~= old(self)@.update(i as int, call@));
            },
            None => {
                self.calls.push(call);
                assert(self@ =~= old(self)@.push(call@));
            },
        }
    }
}

/// A result that was kept is what is recalled of that call, and what is kept of other calls stays.
pub proof fn law_call_cache(calls: Seq<(CallKey, i64)>, key: CallKey, result: i64, other: CallKey)
    ensures
        value_of(with_value(calls, key, result), key) == Some(result),
        other != key ==> value_of(with_value(calls, key, result), other) == value_of(calls, other),
{
    lemma_with_value(calls, key, result, other);
}

} // verus!
