//! Laws of what is found in metadata and among hooks, by name and by address.

use vstd::prelude::*;

use crate::hooks::addresses;
use crate::hooks::inlined_copies;
use crate::hooks::note_of;
use crate::hooks::notes_of;
use crate::hooks::plan_of;
use crate::hooks::HookNoteV;
use crate::hooks::HookV;
use crate::hooks::PlannedV;
use crate::inferior::Stop;
use crate::meta::field_found;
use crate::meta::first_such;
use crate::meta::law_positions;
use crate::meta::lemma_first_from;
use crate::meta::positions;
use crate::meta::FieldV;
use crate::meta::FunctionV;
use crate::meta::MetadataV;
use crate::meta::VariableV;
use crate::session::callback_of;
use crate::session::entered_at;
use crate::session::hook_at;
use crate::session::last_such;
use crate::session::next_after;
use crate::session::placed_as;
use crate::session::NextV;
use crate::session::PlacedV;
use crate::statics::as_number;
use crate::statics::code_of;
use crate::statics::entry_of;
use crate::statics::exactly_at;
use crate::statics::in_binary;
use crate::statics::name_of;
use crate::statics::nearest_below;
use crate::statics::takes_space;
use crate::statics::variable_in;
use crate::text::Text;
use crate::words::law_sign_range;
use crate::words::law_signs;

verus! {

// ---- metadata ----

/// A type is found by its name, the first of that name.
pub proof fn law_type_found(meta: MetadataV, name: Text)
    ensures
        match meta.type_at(name) {
            Some(i) => {
                &&& 0 <= i < meta.types.len()
                &&& meta.types[i].name == name
                &&& forall|j: int| 0 <= j < i ==> (#[trigger] meta.types[j]).name != name
            },
            None => forall|j: int| 0 <= j < meta.types.len() ==> (#[trigger] meta.types[j]).name != name,
        },
{
    let wanted = |i: int| meta.types[i].name == name;
    lemma_first_from(meta.types.len() as int, wanted, 0);
    assert forall|j: int| 0 <= j < meta.types.len() && !wanted(j) implies (#[trigger] meta.types[j]).name != name by {}
}

/// Whether the field at `k` is the first of its name.
pub open spec fn first_field(fields: Seq<FieldV>, name: Text, k: int) -> bool {
    &&& 0 <= k < fields.len()
    &&& fields[k].name == name
    &&& forall|j: int| 0 <= j < k ==> (#[trigger] fields[j]).name != name
}

/// A field is found by its name and that of its type: where it lies in the type, its size, and how a value
/// of it is read.
pub proof fn law_field_found(meta: MetadataV, type_called: Text, field: Text)
    ensures
        match field_found(meta, type_called, field) {
            Some(found) => {
                &&& meta.type_at(type_called) is Some
                &&& exists|k: int|
                    first_field(meta.types[meta.type_at(type_called).unwrap()].fields, field, k) && {
                        let f = #[trigger] meta.types[meta.type_at(type_called).unwrap()].fields[k];
                        found.0 == f.offset && found.1 == f.size && found.2 == f.kind
                    }
            },
            None => meta.type_at(type_called) matches Some(t) ==> forall|k: int|
                0 <= k < meta.types[t].fields.len() ==> (#[trigger] meta.types[t].fields[k]).name != field,
        },
{
    if let Some(t) = meta.type_at(type_called) {
        let fields = meta.types[t].fields;
        let wanted = |i: int| fields[i].name == field;
        lemma_first_from(fields.len() as int, wanted, 0);
        assert forall|j: int| 0 <= j < fields.len() && !wanted(j) implies (#[trigger] fields[j]).name != field by {}
        if let Some(k) = first_such(fields.len(), wanted) {
            assert(first_field(fields, field, k));
        }
    }
}

/// A variable is found by its name, and only if none has it by its linkage name; each time the first.
pub proof fn law_variable_found(meta: MetadataV, name: Text)
    ensures
        match meta.variable_at(name) {
            Some(i) => {
                &&& 0 <= i < meta.variables.len()
                &&& {
                    ||| {
                        &&& meta.variables[i].name == name
                        &&& forall|j: int| 0 <= j < i ==> (#[trigger] meta.variables[j]).name != name
                    }
                    ||| {
                        &&& forall|j: int| 0 <= j < meta.variables.len() ==> (#[trigger] meta.variables[j]).name != name
                        &&& meta.variables[i].linkage_name == Some(name)
                        &&& forall|j: int| 0 <= j < i ==> (#[trigger] meta.variables[j]).linkage_name != Some(name)
                    }
                }
            },
            None => forall|j: int|
                0 <= j < meta.variables.len() ==> (#[trigger] meta.variables[j]).name != name
                    && meta.variables[j].linkage_name != Some(name),
        },
{
    let n = meta.variables.len() as int;
    let named = |i: int| meta.variables[i].name == name;
    let linked = |i: int| meta.variables[i].linkage_name == Some(name);
    lemma_first_from(n, named, 0);
    lemma_first_from(n, linked, 0);
    assert forall|j: int| 0 <= j < n && !named(j) implies (#[trigger] meta.variables[j]).name != name by {}
    assert forall|j: int| 0 <= j < n && !linked(j) implies (#[trigger] meta.variables[j]).linkage_name != Some(
        name,
    ) by {}
}

/// The code of a function is that of the first function of its name that has any, moved by where the
/// binary was loaded.
pub proof fn law_code_found(meta: MetadataV, load_base: u64, name: Text)
    ensures
        match entry_of(meta, load_base, name) {
            Some(a) => exists|i: int|
                {
                    &&& 0 <= i < meta.functions.len()
                    &&& (#[trigger] meta.functions[i]).name == name
                    &&& meta.functions[i].address matches Some(at) && (at + load_base) % 0x1_0000_0000_0000_0000 == a
                    &&& forall|j: int|
                        0 <= j < i ==> (#[trigger] meta.functions[j]).name != name || meta.functions[j].address is None
                },
            None => forall|j: int|
                0 <= j < meta.functions.len() ==> (#[trigger] meta.functions[j]).name != name
                    || meta.functions[j].address is None,
        },
        code_of(meta, name) == entry_of(meta, 0, name),
{
    let wanted = |i: int| meta.functions[i].name == name && meta.functions[i].address is Some;
    lemma_first_from(meta.functions.len() as int, wanted, 0);
    assert forall|j: int| 0 <= j < meta.functions.len() && !wanted(j) implies (#[trigger] meta.functions[j]).name
        != name || meta.functions[j].address is None by {}
    if let Some(i) = meta.code_at(name) {
        assert(meta.functions[i].name == name);
    }
}

/// The address of a variable is that in the binary, moved by where the binary was loaded; and what it is
/// in the binary is found back from it.
pub proof fn law_variable_address(meta: MetadataV, load_base: u64, name: Text)
    ensures
        match variable_in(meta, load_base, name) {
            Some(a) => {
                &&& meta.variable_at(name) is Some
                &&& (meta.variables[meta.variable_at(name).unwrap()].address + load_base) % 0x1_0000_0000_0000_0000 == a
                &&& as_number(Some(a)) matches Some(n) && {
                    &&& in_binary(n, load_base) == meta.variables[meta.variable_at(name).unwrap()].address
                    &&& n == a || n == a - 0x1_0000_0000_0000_0000
                }
            },
            None => meta.variable_at(name) is None,
        },
        as_number(None) is None,
{
    if let Some(a) = variable_in(meta, load_base, name) {
        law_signs(a, 0);
        law_sign_range(a);
    }
}

/// The last of some positions.
proof fn lemma_last_such(len: int, wanted: spec_fn(int) -> bool)
    ensures
        match last_such(len, wanted) {
            Some(i) => 0 <= i < len && wanted(i) && forall|j: int| i < j < len ==> !#[trigger] wanted(j),
            None => forall|j: int| 0 <= j < len ==> !#[trigger] wanted(j),
        },
    decreases len,
{
    if len > 0 && !wanted(len - 1) {
        lemma_last_such(len - 1, wanted);
    }
}

/// The nearest variable below an address takes space, begins before the address, and no other such
/// variable begins behind it; of those that begin where it does, it is the last.
pub proof fn law_nearest_below(variables: Seq<VariableV>, a: u64)
    ensures
        match nearest_below(variables, a) {
            Some(i) => {
                &&& 0 <= i < variables.len()
                &&& takes_space(variables[i])
                &&& variables[i].address < a
                &&& forall|j: int|
                    0 <= j < variables.len() && takes_space(#[trigger] variables[j]) && variables[j].address < a
                        ==> variables[j].address < variables[i].address || variables[j].address == variables[i].address
                        && j <= i
            },
            None => forall|j: int|
                0 <= j < variables.len() && takes_space(#[trigger] variables[j]) ==> variables[j].address >= a,
        },
    decreases variables.len(),
{
    if variables.len() > 0 {
        let short = variables.drop_last();
        law_nearest_below(short, a);
        assert forall|j: int| 0 <= j < short.len() implies #[trigger] variables[j] == short[j] by {}
        assert(variables[variables.len() - 1] == variables.last());
    }
}

/// An address is told by the last variable that begins at it; else by the nearest variable below it, and
/// how far behind its start, if the address is inside of it; else by nothing.
pub proof fn law_address_told(variables: Seq<VariableV>, a: u64, i: int)
    requires
        0 <= i < variables.len(),
    ensures
        variables[i].address == a && (forall|j: int| i < j < variables.len() ==> (#[trigger] variables[j]).address != a)
            ==> name_of(variables, a) == variables[i].name,
        (forall|j: int| 0 <= j < variables.len() ==> (#[trigger] variables[j]).address != a) && (nearest_below(
            variables,
            a,
        ) matches Some(k) ==> variables[k].address + variables[k].size.unwrap() <= a) ==> name_of(variables, a)
            == Seq::<char>::empty(),
        variables[i].size matches Some(n) ==> (takes_space(variables[i]) <==> n > 0),
        variables[i].size is None ==> !takes_space(variables[i]),
{
    let wanted = |i: int| variables[i].address == a;
    lemma_last_such(variables.len() as int, wanted);
    law_nearest_below(variables, a);
    if variables[i].address == a && (forall|j: int|
        i < j < variables.len() ==> (#[trigger] variables[j]).address != a) {
        assert(wanted(i));
        let e = exactly_at(variables, a).unwrap();
        assert(wanted(e));
        if e < i {
            assert(!wanted(i));
        }
        if e > i {
            assert(variables[e].address != a);
        }
    }
    if forall|j: int| 0 <= j < variables.len() ==> (#[trigger] variables[j]).address != a {
        if let Some(e) = exactly_at(variables, a) {
            assert(wanted(e));
        }
    }
}

// ---- hooks ----

/// Where the code of the functions of a name begins, in order.
pub open spec fn code_named(functions: Seq<FunctionV>, name: Text) -> Seq<u64> {
    addresses(functions, positions(functions, name))
}

/// How many inlined copies the functions of a name have together.
pub open spec fn copies_named(functions: Seq<FunctionV>, name: Text) -> nat {
    inlined_copies(functions, positions(functions, name))
}

/// A function more does not change what stands at the positions before it.
proof fn lemma_at_positions(functions: Seq<FunctionV>, f: FunctionV, at: Seq<usize>)
    requires
        forall|k: int| 0 <= k < at.len() ==> (#[trigger] at[k]) < functions.len(),
    ensures
        addresses(functions.push(f), at) == addresses(functions, at),
        inlined_copies(functions.push(f), at) == inlined_copies(functions, at),
    decreases at.len(),
{
    if at.len() > 0 {
        let short = at.drop_last();
        assert forall|k: int| 0 <= k < short.len() implies (#[trigger] short[k]) < functions.len() by {
            assert(at[k] < functions.len());
        }
        assert(at[at.len() - 1] < functions.len());
        lemma_at_positions(functions, f, short);
    }
}

/// Each function of a name adds its address, if it has one, behind those of the functions before it, and
/// its inlined copies; functions of other names add nothing.
pub proof fn law_functions_named(functions: Seq<FunctionV>, f: FunctionV, name: Text)
    requires
        functions.len() < usize::MAX,
    ensures
        code_named(Seq::empty(), name).len() == 0,
        copies_named(Seq::empty(), name) == 0,
        code_named(functions.push(f), name) == code_named(functions, name) + (if f.name == name && f.address is Some {
            seq![f.address.unwrap()]
        } else {
            Seq::empty()
        }),
        copies_named(functions.push(f), name) == copies_named(functions, name) + (if f.name == name {
            f.inlined_at.len()
        } else {
            0
        }),
{
    let more = functions.push(f);
    let at = positions(functions, name);
    law_positions(functions, name);
    assert(more.drop_last() =~= functions);
    lemma_at_positions(functions, f, at);
    if f.name == name {
        let n = functions.len() as usize;
        assert(positions(more, name) == at.push(n));
        assert(at.push(n).drop_last() =~= at);
        assert(more[n as int] == f);
    }
}

/// What is told of a hook: that no function has its name; that those that have it have no code, and how
/// many inlined copies there are; that several have code, and how many; or nothing, where one has.
pub proof fn law_note(functions: Seq<FunctionV>, hook: HookV)
    requires
        functions.len() <= usize::MAX,
    ensures
        ({
            let known = exists|i: int| 0 <= i < functions.len() && (#[trigger] functions[i]).name == hook.symbol;
            let n = code_named(functions, hook.symbol).len();
            note_of(functions, hook) == (if !known {
                Some(HookNoteV::Unresolved(hook.symbol))
            } else if n == 0 {
                Some(HookNoteV::InlineOnly(hook.symbol, copies_named(functions, hook.symbol)))
            } else if n == 1 {
                None
            } else {
                Some(HookNoteV::Several(hook.symbol, n))
            })
        }),
{
    let at = positions(functions, hook.symbol);
    law_positions(functions, hook.symbol);
    if at.len() > 0 {
        let p = at[0];
        assert(functions[p as int].name == hook.symbol);
    }
    if exists|i: int| 0 <= i < functions.len() && (#[trigger] functions[i]).name == hook.symbol {
        let i = choose|i: int| 0 <= i < functions.len() && (#[trigger] functions[i]).name == hook.symbol;
        assert(at.contains(i as usize));
    }
}

/// Hooks are planned and told of one after the other, each for all functions of its name that have code,
/// in the order of the functions.
pub proof fn law_plan_in_order(functions: Seq<FunctionV>, hooks: Seq<HookV>, hook: HookV)
    ensures
        plan_of(functions, Seq::empty()).len() == 0,
        notes_of(functions, Seq::empty()).len() == 0,
        ({
            let before = plan_of(functions, hooks);
            let after = plan_of(functions, hooks.push(hook));
            let code = code_named(functions, hook.symbol);
            &&& after.len() == before.len() + code.len()
            &&& after.take(before.len() as int) == before
            &&& forall|k: int|
                0 <= k < code.len() ==> #[trigger] after[before.len() + k] == (PlannedV { address: code[k], hook })
        }),
        notes_of(functions, hooks.push(hook)) == (match note_of(functions, hook) {
            Some(n) => notes_of(functions, hooks) + seq![n],
            None => notes_of(functions, hooks),
        }),
{
    let more = hooks.push(hook);
    assert(more.drop_last() =~= hooks);
    assert(more.last() == hook);
    let before = plan_of(functions, hooks);
    let after = plan_of(functions, more);
    assert(after.take(before.len() as int) =~= before);
    if let Some(n) = note_of(functions, hook) {
        assert(notes_of(functions, more) =~= notes_of(functions, hooks) + seq![n]);
    }
}

/// A hook is placed under its own name, with its callback, for the first function that has its name and
/// its address.
pub proof fn law_placed_as(functions: Seq<FunctionV>, planned: PlannedV, runtime: u64)
    ensures
        ({
            let p = placed_as(functions, planned, runtime);
            &&& p.runtime == runtime
            &&& p.symbol == planned.hook.symbol
            &&& p.callback == planned.hook.callback
            &&& match p.function {
                Some(i) => {
                    &&& 0 <= i < functions.len()
                    &&& functions[i].name == planned.hook.symbol
                    &&& functions[i].address == Some(planned.address)
                    &&& forall|j: int|
                        0 <= j < i ==> !((#[trigger] functions[j]).name == planned.hook.symbol && functions[j].address
                            == Some(planned.address))
                },
                None => forall|j: int|
                    0 <= j < functions.len() ==> !((#[trigger] functions[j]).name == planned.hook.symbol
                        && functions[j].address == Some(planned.address)),
            }
        }),
{
    let wanted = |i: int| functions[i].name == planned.hook.symbol && functions[i].address == Some(planned.address);
    lemma_first_from(functions.len() as int, wanted, 0);
    assert forall|j: int| 0 <= j < functions.len() && !wanted(j) implies !((#[trigger] functions[j]).name
        == planned.hook.symbol && functions[j].address == Some(planned.address)) by {}
}

/// What a breakpoint calls is the callback of the hook that was placed last at its address, and the
/// function that is entered there is that of the last such hook that has one.
pub proof fn law_last_hook(placed: Seq<PlacedV>, addr: u64, i: int)
    requires
        0 <= i < placed.len(),
    ensures
        placed[i].runtime == addr && (forall|j: int| i < j < placed.len() ==> (#[trigger] placed[j]).runtime != addr)
            ==> callback_of(placed, addr) == Some(placed[i].callback),
        placed[i].runtime == addr && placed[i].function is Some && (forall|j: int|
            i < j < placed.len() ==> (#[trigger] placed[j]).runtime != addr || placed[j].function is None)
            ==> entered_at(placed, addr) == placed[i].function,
        (forall|j: int| 0 <= j < placed.len() ==> (#[trigger] placed[j]).runtime != addr) ==> callback_of(
            placed,
            addr,
        ) is None && entered_at(placed, addr) is None,
{
    let wanted = |i: int| placed[i].runtime == addr;
    let entered = |i: int| placed[i].runtime == addr && placed[i].function is Some;
    let n = placed.len() as int;
    lemma_last_such(n, wanted);
    lemma_last_such(n, entered);
    assert(wanted(i) <==> placed[i].runtime == addr);
    assert(entered(i) <==> placed[i].runtime == addr && placed[i].function is Some);
    if let Some(k) = hook_at(placed, addr) {
        assert(placed[k].runtime == addr);
    }
    if let Some(k) = last_such(n, entered) {
        assert(placed[k].runtime == addr && placed[k].function is Some);
    }
}

/// After a hit, the callback of the hook there is called; after an interrupt, the process runs again;
/// after its end, all is finished.
pub proof fn law_what_is_next(placed: Seq<PlacedV>, stop: Stop)
    ensures
        next_after(placed, stop) matches NextV::Handle(tid, addr, callback) ==> stop == Stop::Hit(tid, addr) && callback
            == callback_of(placed, addr),
        next_after(placed, stop) == NextV::Finished <==> stop == Stop::Exited,
        next_after(placed, stop) == NextV::RunAgain <==> stop == Stop::Interrupted,
{
}

} // verus!
