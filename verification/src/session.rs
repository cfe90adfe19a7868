//! A session with a target: the hooks that were placed in it, and what is to be done when it stops.

use vstd::prelude::*;

use crate::hooks::Planned;
use crate::hooks::PlannedV;
use crate::inferior::breakpoint_set;
use crate::inferior::ended;
use crate::inferior::Inferior;
use crate::inferior::InferiorV;
use crate::inferior::Ran;
use crate::inferior::Stop;
use crate::meta::first_from;
use crate::meta::first_such;
use crate::meta::views;
use crate::meta::FunctionV;
use crate::meta::Metadata;
use crate::text::opt_text;
use crate::text::same_text;
use crate::text::Text;
use crate::trace::Halt;
use crate::trace::Reply;
use crate::trace::Transcript;

verus! {

/// A hook whose breakpoint was set: where it lies in the process, and the function that it is on, by
/// its position in the metadata.
pub struct Placed {
    pub runtime: u64,
    pub symbol: String,
    pub callback: String,
    pub function: Option<usize>,
}

#[verifier::ext_equal]
pub struct PlacedV {
    pub runtime: u64,
    pub symbol: Text,
    pub callback: Text,
    pub function: Option<int>,
}

impl View for Placed {
    type V = PlacedV;

    open spec fn view(&self) -> PlacedV {
        PlacedV {
            runtime: self.runtime,
            symbol: self.symbol@,
            callback: self.callback@,
            function: match self.function {
                Some(i) => Some(i as int),
                None => None,
            },
        }
    }
}

/// The last position before `len` that satisfies `wanted`.
pub open spec fn last_such(len: int, wanted: spec_fn(int) -> bool) -> Option<int>
    decreases len,
{
    if len <= 0 {
        None
    } else if wanted(len - 1) {
        Some(len - 1)
    } else {
        last_such(len - 1, wanted)
    }
}

/// The last such position is one that satisfies the condition, and none after it does; where there is
/// none, no position satisfies it.
pub proof fn lemma_last_such(len: int, wanted: spec_fn(int) -> bool)
    ensures
        match last_such(len, wanted) {
            Some(k) => 0 <= k < len && wanted(k) && forall|j: int| k < j < len ==> !#[trigger] wanted(j),
            None => forall|j: int| 0 <= j < len ==> !#[trigger] wanted(j),
        },
    decreases len,
{
    if len > 0 && !wanted(len - 1) {
        lemma_last_such(len - 1, wanted);
    }
}

/// The position of the function of some name with code at an address.
pub open spec fn function_of(functions: Seq<FunctionV>, symbol: Text, address: u64) -> Option<int> {
    first_such(
        functions.len(),
        |i: int| functions[i].name == symbol && functions[i].address == Some(address),
    )
}

/// The hook whose callback is called when a thread reaches an address: the last that was placed there.
pub open spec fn hook_at(placed: Seq<PlacedV>, addr: u64) -> Option<int> {
    last_such(placed.len() as int, |i: int| placed[i].runtime == addr)
}

/// The callback for an address.
pub open spec fn callback_of(placed: Seq<PlacedV>, addr: u64) -> Option<Text> {
    match hook_at(placed, addr) {
        Some(i) => Some(placed[i].callback),
        None => None,
    }
}

/// The function whose entry lies at an address, as far as a placed hook tells.
pub open spec fn entered_at(placed: Seq<PlacedV>, addr: u64) -> Option<int> {
    match last_such(placed.len() as int, |i: int| placed[i].runtime == addr && placed[i].function is Some) {
        Some(i) => placed[i].function,
        None => None,
    }
}

/// The addresses at which hooks on functions of some name were placed, in order.
pub open spec fn addresses_for(placed: Seq<PlacedV>, symbol: Text) -> Seq<u64>
    decreases placed.len(),
{
    if placed.len() == 0 {
        Seq::empty()
    } else {
        let before = addresses_for(placed.drop_last(), symbol);
        if placed.last().symbol == symbol {
            before.push(placed.last().runtime)
        } else {
            before
        }
    }
}

/// The hooks that were placed in a target.
pub struct HookTable {
    pub placed: Vec<Placed>,
}

impl View for HookTable {
    type V = Seq<PlacedV>;

    open spec fn view(&self) -> Seq<PlacedV> {
        views(self.placed@)
    }
}

/// A planned hook once its breakpoint was set.
pub open spec fn placed_as(functions: Seq<FunctionV>, planned: PlannedV, runtime: u64) -> PlacedV {
    PlacedV {
        runtime,
        symbol: planned.hook.symbol,
        callback: planned.hook.callback,
        function: function_of(functions, planned.hook.symbol, planned.address),
    }
}

/// The position of the function of some name with code at an address.
fn find_function(meta: &Metadata, symbol: &str, address: u64) -> (r: Option<usize>)
    ensures
        match r {
            Some(i) => function_of(meta@.functions, symbol@, address) == Some(i as int) && i < meta.functions.len(),
            None => function_of(meta@.functions, symbol@, address) is None,
        },
{
    let ghost functions = meta@.functions;
    let ghost wanted = |i: int| functions[i].name == symbol@ && functions[i].address == Some(address);
    let mut i: usize = 0;
    while i < meta.functions.len()
        invariant
            i <= meta.functions.len(),
            functions == meta@.functions,
            wanted == |i: int| functions[i].name == symbol@ && functions[i].address == Some(address),
            function_of(functions, symbol@, address) == first_from(
                functions.len() as int,
                wanted,
                i as int,
            ),
        decreases meta.functions.len() - i,
    {
        let here: bool = match meta.functions[i].address {
            Some(a) => a == address,
            None => false,
        };
        if here && same_text(meta.functions[i].name.as_str(), symbol) {
            return Some(i);
        }
        assert(!wanted(i as int));
        i += 1;
    }
    None
}

impl HookTable {
    /// No hooks.
    pub fn new() -> (r: HookTable)
        ensures
            r@ == Seq::<PlacedV>::empty(),
    {
        let r = HookTable { placed: Vec::new() };
        assert(r@ =~= Seq::<PlacedV>::empty());
        r
    }

    /// Notes that the breakpoint of a planned hook was set.
    pub fn place(&mut self, meta: &Metadata, planned: &Planned, runtime: u64)
        ensures
            final(self)@ == old(self)@.push(placed_as(meta@.functions, planned@, runtime)),
    {
        let function: Option<usize> = find_function(meta, planned.hook.symbol.as_str(), planned.address);
        self.placed.push(
            Placed {
                runtime,
                symbol: planned.hook.symbol.clone(),
                callback: planned.hook.callback.clone(),
                function,
            },
        );
        assert(self@ =~= old(self)@.push(placed_as(meta@.functions, planned@, runtime)));
    }

    /// The callback for an address.
    pub fn callback_at(&self, addr: u64) -> (r: Option<String>)
        ensures
            opt_text(r) == callback_of(self@, addr),
    {
        let ghost placed = self@;
        let ghost wanted = |i: int| placed[i].runtime == addr;
        let mut i: usize = self.placed.len();
        while i > 0
            invariant
                i <= self.placed.len(),
                placed == self@,
                wanted == |i: int| placed[i].runtime == addr,
                hook_at(placed, addr) == last_such(i as int, wanted),
            decreases i,
        {
            if self.placed[i - 1].runtime == addr {
                return Some(self.placed[i - 1].callback.clone());
            }
            i -= 1;
        }
        None
    }

    /// The function whose entry lies at an address, by its position in the metadata.
    pub fn function_at(&self, addr: u64) -> (r: Option<usize>)
        ensures
            match r {
                Some(i) => entered_at(self@, addr) == Some(i as int),
                None => entered_at(self@, addr) is None,
            },
    {
        let ghost placed = self@;
        let ghost wanted = |i: int| placed[i].runtime == addr && placed[i].function is Some;
        let mut i: usize = self.placed.len();
        while i > 0
            invariant
                i <= self.placed.len(),
                placed == self@,
                wanted == |i: int| placed[i].runtime == addr && placed[i].function is Some,
                last_such(placed.len() as int, wanted) == last_such(i as int, wanted),
            decreases i,
        {
            if self.placed[i - 1].runtime == addr && self.placed[i - 1].function.is_some() {
                return self.placed[i - 1].function;
            }
            i -= 1;
        }
        None
    }

    /// The addresses at which hooks on functions of some name were placed; none where no hook on such
    /// a function was.
    pub fn addresses_of(&self, symbol: &str) -> (r: Option<Vec<u64>>)
        ensures
            match r {
                Some(list) => list@ == addresses_for(self@, symbol@) && list@.len() > 0,
                None => addresses_for(self@, symbol@).len() == 0,
            },
    {
        let ghost placed = self@;
        let mut list: Vec<u64> = Vec::new();
        let mut i: usize = 0;
        while i < self.placed.len()
            invariant
                i <= self.placed.len(),
                placed == self@,
                list@ == addresses_for(placed.take(i as int), symbol@),
            decreases self.placed.len() - i,
        {
            assert(placed.take(i + 1).drop_last() =~= placed.take(i as int));
            assert(placed.take(i + 1).last() == self.placed@[i as int]@);
            if same_text(self.placed[i].symbol.as_str(), symbol) {
                list.push(self.placed[i].runtime);
            }
            i += 1;
        }
        assert(placed.take(i as int) =~= placed);
        if list.len() == 0 {
            None
        } else {
            Some(list)
        }
    }
}

// ---- placing ----

/// What comes of placing hooks one after the other, and which were placed.
pub open spec fn placing(
    s: InferiorV,
    functions: Seq<FunctionV>,
    plan: Seq<PlannedV>,
    placed: Seq<PlacedV>,
    replies: Seq<Reply>,
) -> (Ran<()>, Seq<PlacedV>)
    decreases plan.len(),
{
    if plan.len() == 0 {
        (Ran::Gives((), s, replies), placed)
    } else {
        match breakpoint_set(s, plan[0].address, plan[0].hook.armed, replies) {
            Ran::Waits(q) => (Ran::Waits(q), placed),
            Ran::Fails(e, s1, rest) => (Ran::Fails(e, s1, rest), placed),
            Ran::Gives(runtime, s1, rest) => placing(
                s1,
                functions,
                plan.drop_first(),
                placed.push(placed_as(functions, plan[0], runtime)),
                rest,
            ),
        }
    }
}

/// Places hooks one after the other: sets the breakpoint of each, and notes it.
pub fn place_hooks(
    inferior: &mut Inferior,
    io: &mut Transcript,
    meta: &Metadata,
    plan: &Vec<Planned>,
    table: &mut HookTable,
) -> (r: Result<(), Halt>)
    ensures
        ({
            let wanted = placing(old(inferior)@, meta@.functions, views(plan@), old(table)@, old(io).rest());
            &&& ended(r, final(inferior)@, *final(io), wanted.0)
            &&& final(table)@ == wanted.1
        }),
{
    let ghost functions = meta@.functions;
    let ghost all = views(plan@);
    let ghost whole = placing(inferior@, functions, all, table@, io.rest());
    let mut i: usize = 0;
    assert(all.skip(0) =~= all);
    while i < plan.len()
        invariant
            i <= plan.len(),
            functions == meta@.functions,
            all == views(plan@),
            whole == placing(old(inferior)@, functions, all, old(table)@, old(io).rest()),
            whole == placing(inferior@, functions, all.skip(i as int), table@, io.rest()),
        decreases plan.len() - i,
    {
        assert(all.skip(i as int).drop_first() =~= all.skip(i + 1));
        assert(all.skip(i as int)[0] == plan@[i as int]@);
        let runtime: u64 = inferior.set_breakpoint(io, plan[i].address, plan[i].hook.armed)?;
        table.place(meta, &plan[i], runtime);
        i += 1;
    }
    assert(all.skip(i as int) =~= Seq::<PlannedV>::empty());
    Ok(())
}

// ---- running ----

/// What is to be done once the target has stopped.
pub enum Next {
    /// To let it run again.
    RunAgain,
    /// Nothing: it has ended.
    Finished,
    /// To handle the hook of a thread that reached an address, by calling a callback if there is one.
    Handle(i32, u64, Option<String>),
}

pub enum NextV {
    RunAgain,
    Finished,
    Handle(i32, u64, Option<Text>),
}

impl View for Next {
    type V = NextV;

    open spec fn view(&self) -> NextV {
        match self {
            Next::RunAgain => NextV::RunAgain,
            Next::Finished => NextV::Finished,
            Next::Handle(tid, addr, callback) => NextV::Handle(*tid, *addr, opt_text(*callback)),
        }
    }
}

/// What is to be done once the target has stopped for some reason.
pub open spec fn next_after(placed: Seq<PlacedV>, stop: Stop) -> NextV {
    match stop {
        Stop::Hit(tid, addr) => NextV::Handle(tid, addr, callback_of(placed, addr)),
        Stop::Exited => NextV::Finished,
        Stop::Interrupted => NextV::RunAgain,
    }
}

/// What is to be done once the hook of a thread was handled.
#[derive(Clone, Copy, PartialEq, Eq, Structural)]
pub enum After {
    /// Nothing: the target has ended meanwhile.
    Finished,
    /// To step the thread past the address that it reached.
    StepOver(i32, u64),
}

/// A session: whether the target was asked to shut down.
pub struct Session {
    pub asked_to_end: bool,
}

/// Whether the target is to be asked to shut down.
pub open spec fn end_asked(asked: bool, interrupted: bool) -> bool {
    interrupted && !asked
}

/// Whether the target was asked to shut down by now.
pub open spec fn asked_by_now(asked: bool, interrupted: bool) -> bool {
    interrupted || asked
}

/// What is to be done once the hook of a thread was handled.
pub open spec fn after_hook(s: InferiorV, tid: i32, addr: u64) -> After {
    if s.threads.len() == 0 {
        After::Finished
    } else {
        After::StepOver(tid, addr)
    }
}

/// The exit code that is told of a target that has ended.
pub open spec fn exit_told(s: InferiorV) -> i32 {
    match s.exit_code {
        Some(code) => code,
        None => 0i32,
    }
}

impl Session {
    /// The start of a session.
    pub fn new() -> (r: Session)
        ensures
            !r.asked_to_end,
    {
        Session { asked_to_end: false }
    }

    /// Decides what is to be done once the target has stopped: whether it is to be asked to shut down,
    /// which it is once, when the session was interrupted; and what comes next.
    pub fn on_stop(&mut self, table: &HookTable, stop: Stop, interrupted: bool) -> (r: (bool, Next))
        ensures
            r.0 == end_asked(old(self).asked_to_end, interrupted),
            final(self).asked_to_end == asked_by_now(old(self).asked_to_end, interrupted),
            r.1@ == next_after(table@, stop),
    {
        let ask: bool = interrupted && !self.asked_to_end;
        if ask {
            self.asked_to_end = true;
        }
        let next: Next = match stop {
            Stop::Hit(tid, addr) => Next::Handle(tid, addr, table.callback_at(addr)),
            Stop::Exited => Next::Finished,
            Stop::Interrupted => Next::RunAgain,
        };
        (ask, next)
    }

    /// Decides what is to be done once the hook of a thread was handled. Whether there was a callback,
    /// and whether it failed, makes no difference: the session ends where no thread of the target is
    /// left, and else the thread is stepped past the address.
    pub fn after_callback(&self, inferior: &Inferior, tid: i32, addr: u64) -> (r: After)
        ensures
            r == after_hook(inferior@, tid, addr),
    {
        if inferior.is_alive() {
            After::StepOver(tid, addr)
        } else {
            After::Finished
        }
    }
}

/// What is told of a target that has ended: its exit code, zero where it is not known, and the most
/// threads that were traced at a time.
pub fn outcome(inferior: &Inferior) -> (r: (i32, usize))
    ensures
        r.0 == exit_told(inferior@),
        r.1 == inferior@.peak_threads,
{
    let code: i32 = match inferior.exit_code {
        Some(code) => code,
        None => 0,
    };
    (code, inferior.peak_threads)
}

} // verus!
