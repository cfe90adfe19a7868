//! Addresses of the target's functions and variables, and the names of addresses.

use vstd::prelude::*;

use crate::inferior::advance;
use crate::inferior::plus;
use crate::inferior::Inferior;
use crate::meta::first_from;
use crate::meta::lemma_first_from;
use crate::meta::views;
use crate::meta::Metadata;
use crate::meta::MetadataV;
use crate::meta::Variable;
use crate::meta::VariableV;
use crate::peek::retreat;
use crate::session::last_such;
use crate::session::lemma_last_such;
use crate::text::decimal;
use crate::text::push_decimal;
use crate::text::same_text;
use crate::text::Text;
use crate::words::law_signs;
use crate::words::signed;
use crate::words::to_signed;
use crate::words::to_unsigned;
use crate::words::unsigned;

verus! {

// ---- addresses of names ----

/// The address in the binary of the first function called `name` that has code.
pub open spec fn code_of(meta: MetadataV, name: Text) -> Option<u64> {
    match meta.code_at(name) {
        Some(i) => meta.functions[i].address,
        None => None,
    }
}

/// The address in the process of the function called `name`.
pub open spec fn entry_of(meta: MetadataV, load_base: u64, name: Text) -> Option<u64> {
    match code_of(meta, name) {
        Some(a) => Some(plus(a, load_base as int)),
        None => None,
    }
}

/// The address in the process of the variable called `name`.
pub open spec fn variable_in(meta: MetadataV, load_base: u64, name: Text) -> Option<u64> {
    match meta.variable_at(name) {
        Some(i) => Some(plus(meta.variables[i].address, load_base as int)),
        None => None,
    }
}

/// An optional address as a mod gets it.
pub open spec fn as_number(a: Option<u64>) -> Option<i64> {
    match a {
        Some(a) => Some(signed(a)),
        None => None,
    }
}

/// The address in the process of the first function called `name` that has code.
pub fn entry_address(meta: &Metadata, inferior: &Inferior, name: &str) -> (r: Option<u64>)
    ensures
        r == entry_of(meta@, inferior@.load_base, name@),
{
    let ghost functions = meta@.functions;
    let ghost wanted = |i: int| functions[i].name == name@ && functions[i].address is Some;
    let mut i: usize = 0;
    while i < meta.functions.len()
        invariant
            i <= meta.functions.len(),
            functions == meta@.functions,
            wanted == |i: int| functions[i].name == name@ && functions[i].address is Some,
            meta@.code_at(name@) == first_from(functions.len() as int, wanted, i as int),
        decreases meta.functions.len() - i,
    {
        if let Some(a) = meta.functions[i].address {
            if same_text(meta.functions[i].name.as_str(), name) {
                return Some(advance(a, inferior.load_base()));
            }
        }
        assert(!wanted(i as int));
        i += 1;
    }
    None
}

/// The address of a function, as a mod gets it; none where no function of that name has code.
pub fn func_addr(meta: &Metadata, inferior: &Inferior, name: &str) -> (r: Option<i64>)
    ensures
        r == as_number(entry_of(meta@, inferior@.load_base, name@)),
{
    match entry_address(meta, inferior, name) {
        Some(a) => Some(to_signed(a)),
        None => None,
    }
}

/// The address of a variable, as a mod gets it; none where there is no such variable.
pub fn static_addr(meta: &Metadata, inferior: &Inferior, name: &str) -> (r: Option<i64>)
    ensures
        r == as_number(variable_in(meta@, inferior@.load_base, name@)),
{
    proof {
        lemma_variable_at(meta@, name@);
    }
    match meta.variable_by_name(name) {
        Some(v) => Some(to_signed(advance(v.address, inferior.load_base()))),
        None => None,
    }
}

/// Where a variable is found, there is one, and its name or its linkage name is the one that was
/// looked for.
proof fn lemma_variable_at(meta: MetadataV, name: Text)
    ensures
        meta.variable_at(name) matches Some(i) ==> {
            &&& 0 <= i < meta.variables.len()
            &&& meta.variables[i].name == name || meta.variables[i].linkage_name == Some(name)
        },
{
    lemma_first_from(meta.variables.len() as int, |i: int| meta.variables[i].name == name, 0);
    lemma_first_from(meta.variables.len() as int, |i: int| meta.variables[i].linkage_name == Some(name), 0);
}

// ---- names of addresses ----

/// Whether a variable takes up space.
pub open spec fn takes_space(v: VariableV) -> bool {
    v.size matches Some(n) && n > 0
}

/// The last variable at an address.
pub open spec fn exactly_at(variables: Seq<VariableV>, a: u64) -> Option<int> {
    last_such(variables.len() as int, |i: int| variables[i].address == a)
}

/// The variable that begins nearest below an address, of those that take up space: the last of them
/// where several begin there.
pub open spec fn nearest_below(variables: Seq<VariableV>, a: u64) -> Option<int>
    decreases variables.len(),
{
    if variables.len() == 0 {
        None
    } else {
        let before = nearest_below(variables.drop_last(), a);
        let v = variables.last();
        if takes_space(v) && v.address < a && (before matches Some(i) ==> variables[i].address <= v.address) {
            Some(variables.len() - 1)
        } else {
            before
        }
    }
}

/// The name of an address of the binary: that of the variable there, or that of the variable that it
/// lies in, with the distance from its beginning; nothing where it lies in none.
pub open spec fn name_of(variables: Seq<VariableV>, a: u64) -> Text {
    match exactly_at(variables, a) {
        Some(i) => variables[i].name,
        None => match nearest_below(variables, a) {
            Some(i) => if a < plus(variables[i].address, variables[i].size.unwrap() as int) {
                variables[i].name + "+"@ + decimal((a - variables[i].address) as nat)
            } else {
                Seq::empty()
            },
            None => Seq::empty(),
        },
    }
}

/// An address of the process as one of the binary.
pub open spec fn in_binary(addr: i64, load_base: u64) -> u64 {
    plus(unsigned(addr), -(load_base as int))
}

/// The last variable at an address.
fn find_exact(variables: &Vec<Variable>, a: u64) -> (r: Option<usize>)
    ensures
        match r {
            Some(i) => i < variables.len() && exactly_at(views(variables@), a) == Some(i as int),
            None => exactly_at(views(variables@), a) is None,
        },
{
    let ghost all = views(variables@);
    let ghost wanted = |i: int| all[i].address == a;
    let mut i: usize = variables.len();
    while i > 0
        invariant
            i <= variables.len(),
            all == views(variables@),
            wanted == |i: int| all[i].address == a,
            exactly_at(all, a) == last_such(i as int, wanted),
        decreases i,
    {
        if variables[i - 1].address == a {
            return Some(i - 1);
        }
        i -= 1;
    }
    None
}

/// Below an address lies a variable that takes up space.
proof fn lemma_nearest_below(variables: Seq<VariableV>, a: u64)
    ensures
        nearest_below(variables, a) matches Some(i) ==> {
            &&& 0 <= i < variables.len()
            &&& takes_space(variables[i])
            &&& variables[i].address < a
        },
    decreases variables.len(),
{
    if variables.len() > 0 {
        lemma_nearest_below(variables.drop_last(), a);
    }
}

/// The variable that begins nearest below an address.
fn find_below(variables: &Vec<Variable>, a: u64) -> (r: Option<usize>)
    ensures
        match r {
            Some(i) => i < variables.len() && nearest_below(views(variables@), a) == Some(i as int),
            None => nearest_below(views(variables@), a) is None,
        },
{
    let ghost all = views(variables@);
    let mut best: Option<usize> = None;
    let mut i: usize = 0;
    while i < variables.len()
        invariant
            i <= variables.len(),
            all == views(variables@),
            match best {
                Some(k) => k < i && nearest_below(all.take(i as int), a) == Some(k as int),
                None => nearest_below(all.take(i as int), a) is None,
            },
        decreases variables.len() - i,
    {
        proof {
            assert(all.take(i + 1).drop_last() =~= all.take(i as int));
            assert(all.take(i + 1).last() == variables@[i as int]@);
        }
        let sized: bool = match variables[i].size {
            Some(n) => n > 0,
            None => false,
        };
        let nearer: bool = match best {
            Some(k) => variables[k].address <= variables[i].address,
            None => true,
        };
        if sized && variables[i].address < a && nearer {
            best = Some(i);
        }
        i += 1;
    }
    assert(all.take(i as int) =~= all);
    best
}

/// The name of an address of the process.
pub fn static_name(meta: &Metadata, inferior: &Inferior, addr: i64) -> (r: String)
    ensures
        r@ == name_of(meta@.variables, in_binary(addr, inferior@.load_base)),
{
    let a: u64 = retreat(to_unsigned(addr), inferior.load_base());
    if let Some(i) = find_exact(&meta.variables, a) {
        return meta.variables[i].name.clone();
    }
    proof {
        lemma_nearest_below(meta@.variables, a);
    }
    if let Some(i) = find_below(&meta.variables, a) {
        let v: &Variable = &meta.variables[i];
        let size: u64 = match v.size {
            Some(n) => n,
            None => 0,
        };
        if a < advance(v.address, size) {
            let mut name: String = v.name.clone();
            name.append("+");
            push_decimal(&mut name, a - v.address);
            return name;
        }
    }
    String::new()
}

// ---- laws ----

/// The name of the address of a variable is the name of that variable, if no other lies there.
pub proof fn law_name_of_address(meta: MetadataV, load_base: u64, name: Text)
    requires
        meta.variable_at(name) is Some,
        forall|j: int|
            0 <= j < meta.variables.len() && j != meta.variable_at(name).unwrap() ==> (#[trigger] meta.variables[j]).address
                != meta.variables[meta.variable_at(name).unwrap()].address,
    ensures
        ({
            let addr = as_number(variable_in(meta, load_base, name)).unwrap();
            name_of(meta.variables, in_binary(addr, load_base)) == meta.variables[meta.variable_at(name).unwrap()].name
        }),
{
    lemma_variable_at(meta, name);
    let i = meta.variable_at(name).unwrap();
    let a = meta.variables[i].address;
    law_signs(plus(a, load_base as int), 0);
    let wanted = |j: int| meta.variables[j].address == a;
    lemma_last_such(meta.variables.len() as int, wanted);
    assert(wanted(i));
    assert(in_binary(signed(plus(a, load_base as int)), load_base) == a) by {
        if a + load_base < 0x1_0000_0000_0000_0000 {
            assert(plus(a, load_base as int) == a + load_base);
        } else {
            assert(plus(a, load_base as int) == a + load_base - 0x1_0000_0000_0000_0000);
        }
    }
    let k = exactly_at(meta.variables, a).unwrap();
    assert(wanted(k));
}

/// Nothing that takes up space begins between the nearest variable below an address and the address.
proof fn lemma_nearest(variables: Seq<VariableV>, a: u64, i: int)
    requires
        0 <= i < variables.len(),
        takes_space(variables[i]),
        variables[i].address < a,
        forall|j: int|
            0 <= j < variables.len() && j != i && takes_space(#[trigger] variables[j]) ==> variables[j].address
                < variables[i].address || variables[j].address >= a,
    ensures
        nearest_below(variables, a) == Some(i),
    decreases variables.len(),
{
    let front = variables.drop_last();
    lemma_nearest_below(front, a);
    if i < variables.len() - 1 {
        assert forall|j: int| 0 <= j < front.len() && j != i && takes_space(#[trigger] front[j]) implies front[j].address
            < front[i].address || front[j].address >= a by {
            assert(variables[j] == front[j]);
        }
        lemma_nearest(front, a, i);
        assert(variables.last() == variables[variables.len() - 1]);
    } else {
        if let Some(k) = nearest_below(front, a) {
            assert(variables[k] == front[k]);
        }
    }
}

/// An address inside a variable is named after that variable, with the distance from its beginning, if
/// no variable lies there and none that takes up space begins in between.
pub proof fn law_name_inside(variables: Seq<VariableV>, i: int, a: u64)
    requires
        0 <= i < variables.len(),
        takes_space(variables[i]),
        variables[i].address < a < variables[i].address + variables[i].size.unwrap() < 0x1_0000_0000_0000_0000,
        forall|j: int| 0 <= j < variables.len() ==> (#[trigger] variables[j]).address != a,
        forall|j: int|
            0 <= j < variables.len() && j != i && takes_space(#[trigger] variables[j]) ==> variables[j].address
                < variables[i].address || variables[j].address >= a,
    ensures
        name_of(variables, a) == variables[i].name + "+"@ + decimal((a - variables[i].address) as nat),
{
    lemma_nearest(variables, a, i);
    lemma_last_such(variables.len() as int, |j: int| variables[j].address == a);
    assert(plus(variables[i].address, variables[i].size.unwrap() as int) == variables[i].address
        + variables[i].size.unwrap());
}

} // verus!
