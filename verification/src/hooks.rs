//! The hooks of a mod: what it declares, and the breakpoints that this asks for.

use vstd::prelude::*;

use crate::meta::index_of;
use crate::meta::law_positions;
use crate::meta::positions;
use crate::meta::views;
use crate::meta::FunctionIndex;
use crate::meta::FunctionV;
use crate::meta::Metadata;
use crate::text::Text;

verus! {

/// A hook: the function that it is on, the mod's function that it calls, and whether its breakpoint is
/// armed from the start.
pub struct Hook {
    pub symbol: String,
    pub callback: String,
    pub armed: bool,
}

#[verifier::ext_equal]
pub struct HookV {
    pub symbol: Text,
    pub callback: Text,
    pub armed: bool,
}

impl View for Hook {
    type V = HookV;

    open spec fn view(&self) -> HookV {
        HookV { symbol: self.symbol@, callback: self.callback@, armed: self.armed }
    }
}

impl Hook {
    /// A copy.
    pub fn copy(&self) -> (r: Hook)
        ensures
            r@ == self@,
    {
        Hook { symbol: self.symbol.clone(), callback: self.callback.clone(), armed: self.armed }
    }
}

/// Declares a hook after those that were declared before.
pub fn declare_hook(hooks: &mut Vec<Hook>, symbol: &str, callback: &str, armed: bool)
    ensures
        views(final(hooks)@) == views(old(hooks)@).push(
            HookV { symbol: symbol@, callback: callback@, armed },
        ),
{
    hooks.push(Hook { symbol: symbol.to_string(), callback: callback.to_string(), armed });
    assert(views(hooks@) =~= views(old(hooks)@).push(HookV { symbol: symbol@, callback: callback@, armed }));
}

/// A breakpoint that a hook asks for, at an address of the binary.
pub struct Planned {
    pub address: u64,
    pub hook: Hook,
}

#[verifier::ext_equal]
pub struct PlannedV {
    pub address: u64,
    pub hook: HookV,
}

impl View for Planned {
    type V = PlannedV;

    open spec fn view(&self) -> PlannedV {
        PlannedV { address: self.address, hook: self.hook@ }
    }
}

/// What is worth telling of a hook.
pub enum HookNote {
    /// There is no function of that name.
    Unresolved(String),
    /// Functions of that name have no code of their own, only so many inlined copies.
    InlineOnly(String, u128),
    /// Several functions of that name have code; all of them get the hook.
    Several(String, usize),
}

pub enum HookNoteV {
    Unresolved(Text),
    InlineOnly(Text, nat),
    Several(Text, nat),
}

impl View for HookNote {
    type V = HookNoteV;

    open spec fn view(&self) -> HookNoteV {
        match self {
            HookNote::Unresolved(s) => HookNoteV::Unresolved(s@),
            HookNote::InlineOnly(s, n) => HookNoteV::InlineOnly(s@, *n as nat),
            HookNote::Several(s, n) => HookNoteV::Several(s@, *n as nat),
        }
    }
}

/// The addresses of the functions at some positions, of those that have code of their own.
pub open spec fn addresses(functions: Seq<FunctionV>, at: Seq<usize>) -> Seq<u64>
    decreases at.len(),
{
    if at.len() == 0 {
        Seq::empty()
    } else {
        let before = addresses(functions, at.drop_last());
        match functions[at.last() as int].address {
            Some(a) => before.push(a),
            None => before,
        }
    }
}

/// How many inlined copies the functions at some positions have.
pub open spec fn inlined_copies(functions: Seq<FunctionV>, at: Seq<usize>) -> nat
    decreases at.len(),
{
    if at.len() == 0 {
        0
    } else {
        inlined_copies(functions, at.drop_last()) + functions[at.last() as int].inlined_at.len()
    }
}

/// The breakpoints that one hook asks for: one for each function of its name that has code.
pub open spec fn planned_for(functions: Seq<FunctionV>, hook: HookV) -> Seq<PlannedV> {
    addresses(functions, positions(functions, hook.symbol)).map_values(
        |a: u64| PlannedV { address: a, hook },
    )
}

/// What is worth telling of one hook, if anything.
pub open spec fn note_of(functions: Seq<FunctionV>, hook: HookV) -> Option<HookNoteV> {
    let at = positions(functions, hook.symbol);
    let found = addresses(functions, at);
    if at.len() == 0 {
        Some(HookNoteV::Unresolved(hook.symbol))
    } else if found.len() == 0 {
        Some(HookNoteV::InlineOnly(hook.symbol, inlined_copies(functions, at)))
    } else if found.len() > 1 {
        Some(HookNoteV::Several(hook.symbol, found.len()))
    } else {
        None
    }
}

/// The breakpoints that hooks ask for, hook by hook.
pub open spec fn plan_of(functions: Seq<FunctionV>, hooks: Seq<HookV>) -> Seq<PlannedV>
    decreases hooks.len(),
{
    if hooks.len() == 0 {
        Seq::empty()
    } else {
        plan_of(functions, hooks.drop_last()) + planned_for(functions, hooks.last())
    }
}

/// What is worth telling of hooks, hook by hook.
pub open spec fn notes_of(functions: Seq<FunctionV>, hooks: Seq<HookV>) -> Seq<HookNoteV>
    decreases hooks.len(),
{
    if hooks.len() == 0 {
        Seq::empty()
    } else {
        let before = notes_of(functions, hooks.drop_last());
        match note_of(functions, hooks.last()) {
            Some(n) => before.push(n),
            None => before,
        }
    }
}

/// The addresses of the functions at some positions, of those that have code, and how many inlined
/// copies all of them have.
fn gather(meta: &Metadata, at: &Vec<usize>) -> (r: (Vec<u64>, u128))
    requires
        forall|k: int| 0 <= k < at.len() ==> #[trigger] at@[k] < meta.functions.len(),
    ensures
        r.0@ == addresses(meta@.functions, at@),
        r.1 == inlined_copies(meta@.functions, at@),
{
    let ghost functions = meta@.functions;
    let mut found: Vec<u64> = Vec::new();
    let mut copies: u128 = 0;
    let mut k: usize = 0;
    while k < at.len()
        invariant
            k <= at.len(),
            functions == meta@.functions,
            forall|k: int| 0 <= k < at.len() ==> #[trigger] at@[k] < meta.functions.len(),
            found@ == addresses(functions, at@.take(k as int)),
            copies == inlined_copies(functions, at@.take(k as int)),
            copies <= k * 0xffff_ffff_ffff_ffff,
        decreases at.len() - k,
    {
        assert(at@.take(k + 1).drop_last() =~= at@.take(k as int));
        assert(at@[k as int] < meta.functions.len());
        if let Some(a) = meta.functions[at[k]].address {
            found.push(a);
        }
        copies = copies + meta.functions[at[k]].inlined_at.len() as u128;
        k += 1;
    }
    assert(at@.take(k as int) =~= at@);
    (found, copies)
}

/// Plans the breakpoints of one hook, after those that were planned before.
fn plan_hook(meta: &Metadata, index: &FunctionIndex, hook: &Hook, plan: &mut Vec<Planned>, notes: &mut Vec<HookNote>)
    requires
        index@ == index_of(meta@.functions),
    ensures
        views(final(plan)@) == views(old(plan)@) + planned_for(meta@.functions, hook@),
        views(final(notes)@) == (match note_of(meta@.functions, hook@) {
            Some(n) => views(old(notes)@).push(n),
            None => views(old(notes)@),
        }),
{
    let ghost functions = meta@.functions;
    proof {
        assert(functions.len() == meta.functions.len());
        law_positions(functions, hook.symbol@);
    }
    let at: &Vec<usize> = match index.get(hook.symbol.as_str()) {
        Some(at) => at,
        None => {
            notes.push(HookNote::Unresolved(hook.symbol.clone()));
            proof {
                assert(positions(functions, hook.symbol@) =~= Seq::<usize>::empty());
                assert(views(plan@) =~= views(old(plan)@) + planned_for(functions, hook@));
                assert(views(notes@) =~= views(old(notes)@).push(HookNoteV::Unresolved(hook.symbol@)));
            }
            return;
        },
    };
    let (found, copies) = gather(meta, at);
    if found.len() == 0 {
        notes.push(HookNote::InlineOnly(hook.symbol.clone(), copies));
        assert(views(notes@) =~= views(old(notes)@).push(HookNoteV::InlineOnly(hook.symbol@, copies as nat)));
    } else if found.len() > 1 {
        notes.push(HookNote::Several(hook.symbol.clone(), found.len()));
        assert(views(notes@) =~= views(old(notes)@).push(HookNoteV::Several(hook.symbol@, found@.len())));
    }
    let ghost whole = planned_for(functions, hook@);
    let mut k: usize = 0;
    assert(views(plan@) =~= views(old(plan)@) + whole.take(0));
    while k < found.len()
        invariant
            k <= found.len(),
            whole == found@.map_values(|a: u64| PlannedV { address: a, hook: hook@ }),
            views(plan@) == views(old(plan)@) + whole.take(k as int),
        decreases found.len() - k,
    {
        let ghost before = plan@;
        plan.push(Planned { address: found[k], hook: hook.copy() });
        proof {
            assert(whole.take(k + 1) =~= whole.take(k as int).push(whole[k as int]));
            assert(views(plan@) =~= views(before).push(whole[k as int]));
            assert(views(plan@) =~= views(old(plan)@) + whole.take(k + 1));
        }
        k += 1;
    }
    assert(whole.take(k as int) =~= whole);
}

/// The breakpoints that hooks ask for, and what is worth telling of them. No plan, where no hook asks
/// for a breakpoint.
pub fn plan_hooks(meta: &Metadata, hooks: &Vec<Hook>) -> (r: (Option<Vec<Planned>>, Vec<HookNote>))
    ensures
        r.0 is None <==> plan_of(meta@.functions, views(hooks@)).len() == 0,
        r.0 matches Some(plan) ==> views(plan@) == plan_of(meta@.functions, views(hooks@)),
        views(r.1@) == notes_of(meta@.functions, views(hooks@)),
{
    let ghost functions = meta@.functions;
    let ghost all = views(hooks@);
    let index: FunctionIndex = meta.function_index();
    let mut plan: Vec<Planned> = Vec::new();
    let mut notes: Vec<HookNote> = Vec::new();
    let mut i: usize = 0;
    proof {
        assert(all.take(0) =~= Seq::<HookV>::empty());
        assert(views(plan@) =~= Seq::<PlannedV>::empty());
        assert(views(notes@) =~= Seq::<HookNoteV>::empty());
    }
    while i < hooks.len()
        invariant
            i <= hooks.len(),
            functions == meta@.functions,
            all == views(hooks@),
            index@ == index_of(functions),
            views(plan@) == plan_of(functions, all.take(i as int)),
            views(notes@) == notes_of(functions, all.take(i as int)),
        decreases hooks.len() - i,
    {
        assert(all.take(i + 1).drop_last() =~= all.take(i as int));
        assert(all.take(i + 1).last() == hooks@[i as int]@);
        plan_hook(meta, &index, &hooks[i], &mut plan, &mut notes);
        i += 1;
    }
    assert(all.take(i as int) =~= all);
    assert(views(plan@).len() == plan@.len());
    if plan.len() == 0 {
        (None, notes)
    } else {
        (Some(plan), notes)
    }
}

// ---- laws ----

/// Every address of a function with code at one of the positions is listed, and nothing else is.
proof fn lemma_addresses(functions: Seq<FunctionV>, at: Seq<usize>)
    ensures
        forall|k: int|
            0 <= k < at.len() && functions[#[trigger] at[k] as int].address is Some ==> addresses(
                functions,
                at,
            ).contains(functions[at[k] as int].address.unwrap()),
        forall|a: u64| #[trigger]
            addresses(functions, at).contains(a) ==> exists|k: int|
                0 <= k < at.len() && functions[#[trigger] at[k] as int].address == Some(a),
    decreases at.len(),
{
    if at.len() > 0 {
        let front = at.drop_last();
        lemma_addresses(functions, front);
        let list = addresses(functions, at);
        let before = addresses(functions, front);
        assert forall|k: int| 0 <= k < at.len() && functions[#[trigger] at[k] as int].address is Some implies list.contains(
            functions[at[k] as int].address.unwrap(),
        ) by {
            let a = functions[at[k] as int].address.unwrap();
            if k < front.len() {
                assert(front[k] == at[k]);
                assert(before.contains(a));
                let j = choose|j: int| 0 <= j < before.len() && before[j] == a;
                assert(list[j] == a);
            } else {
                assert(list[before.len() as int] == a);
            }
        }
        assert forall|a: u64| #[trigger] list.contains(a) implies exists|k: int|
            0 <= k < at.len() && functions[#[trigger] at[k] as int].address == Some(a) by {
            let j = choose|j: int| 0 <= j < list.len() && list[j] == a;
            if j < before.len() {
                assert(before[j] == a);
                assert(before.contains(a));
                let k = choose|k: int| 0 <= k < front.len() && functions[#[trigger] front[k] as int].address == Some(a);
                assert(at[k] == front[k]);
            } else {
                assert(functions[at[at.len() - 1] as int].address == Some(a));
            }
        }
    }
}

/// Every function that has code and the name of a hook gets that hook.
pub proof fn law_plan_covers(functions: Seq<FunctionV>, hooks: Seq<HookV>, h: int, i: int)
    requires
        functions.len() <= usize::MAX,
        0 <= h < hooks.len(),
        0 <= i < functions.len(),
        functions[i].name == hooks[h].symbol,
        functions[i].address is Some,
    ensures
        plan_of(functions, hooks).contains(PlannedV { address: functions[i].address.unwrap(), hook: hooks[h] }),
    decreases hooks.len(),
{
    let entry = PlannedV { address: functions[i].address.unwrap(), hook: hooks[h] };
    let plan = plan_of(functions, hooks);
    let before = plan_of(functions, hooks.drop_last());
    let own = planned_for(functions, hooks.last());
    if h < hooks.len() - 1 {
        law_plan_covers(functions, hooks.drop_last(), h, i);
        let j = choose|j: int| 0 <= j < before.len() && before[j] == entry;
        assert(plan[j] == entry);
    } else {
        let at = positions(functions, hooks[h].symbol);
        law_positions(functions, hooks[h].symbol);
        lemma_addresses(functions, at);
        assert(at.contains(i as usize));
        let k = choose|k: int| 0 <= k < at.len() && at[k] == i as usize;
        assert(functions[at[k] as int].address is Some);
        let found = addresses(functions, at);
        assert(found.contains(functions[i].address.unwrap()));
        let j = choose|j: int| 0 <= j < found.len() && found[j] == functions[i].address.unwrap();
        assert(own[j] == entry);
        assert(plan[before.len() + j] == entry);
    }
}

/// Every breakpoint of a plan is one that a declared hook asks for, at a function of its name.
pub proof fn law_plan_sound(functions: Seq<FunctionV>, hooks: Seq<HookV>, k: int)
    requires
        functions.len() <= usize::MAX,
        0 <= k < plan_of(functions, hooks).len(),
    ensures
        ({
            let entry = plan_of(functions, hooks)[k];
            &&& hooks.contains(entry.hook)
            &&& exists|i: int|
                0 <= i < functions.len() && (#[trigger] functions[i]).name == entry.hook.symbol && functions[i].address
                    == Some(entry.address)
        }),
    decreases hooks.len(),
{
    let plan = plan_of(functions, hooks);
    let before = plan_of(functions, hooks.drop_last());
    let own = planned_for(functions, hooks.last());
    if k < before.len() {
        law_plan_sound(functions, hooks.drop_last(), k);
        assert(plan[k] == before[k]);
        let front = hooks.drop_last();
        let h = choose|h: int| 0 <= h < front.len() && front[h] == before[k].hook;
        assert(hooks[h] == before[k].hook);
    } else {
        let at = positions(functions, hooks.last().symbol);
        law_positions(functions, hooks.last().symbol);
        lemma_addresses(functions, at);
        let found = addresses(functions, at);
        let a = found[k - before.len()];
        assert(plan[k] == own[k - before.len()]);
        assert(found.contains(a));
        let p = choose|p: int| 0 <= p < at.len() && functions[#[trigger] at[p] as int].address == Some(a);
        let i = at[p] as int;
        assert(functions[i].name == hooks.last().symbol);
        assert(hooks[hooks.len() - 1] == hooks.last());
    }
}

} // verus!
