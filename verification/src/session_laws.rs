//! Laws of a session: what placing hooks leaves behind, and what hooks are then answered with.

use vstd::prelude::*;

use crate::hooks::PlannedV;
use crate::inferior::breakpoint_set;
use crate::inferior::plus;
use crate::inferior::Breakpoint;
use crate::inferior::InferiorV;
use crate::inferior::Ran;
use crate::inferior::Stop;
use crate::meta::FunctionV;
use crate::orderly::law_set_breakpoint_orderly;
use crate::orderly::orderly;
use crate::orderly::stays_orderly;
use crate::replay::ends_with;
use crate::replay::law_again_breakpoint_set;
use crate::replay::lemma_used_twice;
use crate::replay::ran_done;
use crate::replay::ran_rest;
use crate::replay::ran_with;
use crate::replay::used;
use crate::session::after_hook;
use crate::session::asked_by_now;
use crate::session::end_asked;
use crate::session::entered_at;
use crate::session::exit_told;
use crate::session::function_of;
use crate::session::hook_at;
use crate::session::lemma_last_such;
use crate::session::next_after;
use crate::session::placed_as;
use crate::session::placing;
use crate::session::After;
use crate::session::NextV;
use crate::session::PlacedV;
use crate::table::holds_key;
use crate::table::lemma_position;
use crate::table::lemma_with_value;
use crate::table::value_of;
use crate::threads::status_handled;
use crate::trace::word_read;
use crate::trace::Io;
use crate::trace::Reply;
use crate::trace::WaitStatus;

verus! {

/// A hook that was planned, as it stands once it was placed in a process.
pub open spec fn placed_in(s: InferiorV, functions: Seq<FunctionV>, planned: PlannedV) -> PlacedV {
    placed_as(functions, planned, plus(planned.address, s.load_base as int))
}

/// Setting a breakpoint takes away none that is there.
proof fn lemma_breakpoint_kept(s: InferiorV, static_addr: u64, armed: bool, replies: Seq<Reply>, other: u64)
    requires
        holds_key(s.breakpoints, other),
    ensures
        breakpoint_set(s, static_addr, armed, replies) matches Ran::Gives(_, s1, _) ==> {
            &&& holds_key(s1.breakpoints, other)
            &&& s1.load_base == s.load_base
        },
{
    let addr = plus(static_addr, s.load_base as int);
    if let Some(bp) = value_of(s.breakpoints, addr) {
        lemma_with_value(s.breakpoints, addr, Breakpoint { armed: true, ..bp }, other);
    } else {
        match word_read(s.tracee(), addr, replies) {
            Io::Gives(word, rest) => {
                let bp = Breakpoint { original_byte: (word % 0x100) as u8, armed: false };
                let s1 = s.with_breakpoint(addr, bp);
                lemma_with_value(s.breakpoints, addr, bp, other);
                lemma_with_value(s1.breakpoints, addr, Breakpoint { armed: true, ..bp }, other);
                lemma_with_value(s.breakpoints, addr, bp, addr);
            },
            _ => {},
        }
    }
}

/// Placing hooks leaves the state in order. Once it has succeeded, every hook of the plan was placed,
/// in order and after those that were placed before, each at its address in the process, and there is a
/// breakpoint at each of those addresses.
pub proof fn law_placing(
    s: InferiorV,
    functions: Seq<FunctionV>,
    plan: Seq<PlannedV>,
    placed: Seq<PlacedV>,
    replies: Seq<Reply>,
)
    requires
        orderly(s),
    ensures
        stays_orderly(placing(s, functions, plan, placed, replies).0),
        placing(s, functions, plan, placed, replies).0 matches Ran::Gives(_, s1, _) ==> {
            &&& s1.load_base == s.load_base
            &&& placing(s, functions, plan, placed, replies).1 == placed + plan.map_values(
                |p: PlannedV| placed_in(s, functions, p),
            )
            &&& forall|k: int|
                0 <= k < plan.len() ==> holds_key(
                    s1.breakpoints,
                    plus((#[trigger] plan[k]).address, s.load_base as int),
                )
            &&& forall|a: u64| #[trigger] holds_key(s.breakpoints, a) ==> holds_key(s1.breakpoints, a)
        },
    decreases plan.len(),
{
    let whole = placing(s, functions, plan, placed, replies);
    let named = plan.map_values(|p: PlannedV| placed_in(s, functions, p));
    if plan.len() == 0 {
        assert(placed + named =~= placed);
    } else {
        let first = plan[0];
        law_set_breakpoint_orderly(s, first.address, first.hook.armed, replies);
        match breakpoint_set(s, first.address, first.hook.armed, replies) {
            Ran::Gives(addr, s1, rest) => {
                let placed1 = placed.push(placed_as(functions, first, addr));
                let tail = plan.drop_first();
                law_placing(s1, functions, tail, placed1, rest);
                lemma_load_base_kept(s, first.address, first.hook.armed, replies);
                if let Ran::Gives(_, s2, _) = whole.0 {
                    let tail_named = tail.map_values(|p: PlannedV| placed_in(s1, functions, p));
                    assert(placed1 + tail_named =~= placed + named);
                    assert forall|k: int| 0 <= k < plan.len() implies holds_key(
                        s2.breakpoints,
                        plus((#[trigger] plan[k]).address, s.load_base as int),
                    ) by {
                        if k > 0 {
                            assert(tail[k - 1] == plan[k]);
                        }
                    }
                    assert forall|a: u64| #[trigger] holds_key(s.breakpoints, a) implies holds_key(s2.breakpoints, a) by {
                        lemma_breakpoint_kept(s, first.address, first.hook.armed, replies, a);
                    }
                }
            },
            _ => {},
        }
    }
}

/// Setting a breakpoint does not move the process.
proof fn lemma_load_base_kept(s: InferiorV, static_addr: u64, armed: bool, replies: Seq<Reply>)
    ensures
        breakpoint_set(s, static_addr, armed, replies) matches Ran::Gives(_, s1, _) ==> s1.load_base == s.load_base,
{
}

/// Once the hooks of a plan were placed, a thread that reaches the entry of a hooked function is
/// answered with the callback of a hook on that address, and the function is known.
pub proof fn law_hooks_answered(
    s: InferiorV,
    functions: Seq<FunctionV>,
    plan: Seq<PlannedV>,
    replies: Seq<Reply>,
    k: int,
    tid: i32,
)
    requires
        orderly(s),
        placing(s, functions, plan, Seq::empty(), replies).0 is Gives,
        0 <= k < plan.len(),
        function_of(functions, plan[k].hook.symbol, plan[k].address) is Some,
    ensures
        ({
            let placed = placing(s, functions, plan, Seq::empty(), replies).1;
            let addr = plus(plan[k].address, s.load_base as int);
            &&& exists|j: int|
                k <= j < plan.len() && plus(plan[j].address, s.load_base as int) == addr && next_after(
                    placed,
                    Stop::Hit(tid, addr),
                ) == NextV::Handle(tid, addr, Some((#[trigger] plan[j]).hook.callback))
            &&& entered_at(placed, addr) is Some
        }),
{
    law_placing(s, functions, plan, Seq::empty(), replies);
    let placed = placing(s, functions, plan, Seq::empty(), replies).1;
    let addr = plus(plan[k].address, s.load_base as int);
    let named = plan.map_values(|p: PlannedV| placed_in(s, functions, p));
    assert(placed =~= named);
    assert(placed[k] == placed_in(s, functions, plan[k]));
    let wanted = |i: int| placed[i].runtime == addr;
    lemma_last_such(placed.len() as int, wanted);
    assert(wanted(k));
    let j = hook_at(placed, addr).unwrap();
    assert(placed[j] == placed_in(s, functions, plan[j]));
    assert(next_after(placed, Stop::Hit(tid, addr)) == NextV::Handle(tid, addr, Some(plan[j].hook.callback)));
    let known = |i: int| placed[i].runtime == addr && placed[i].function is Some;
    lemma_last_such(placed.len() as int, known);
    assert(known(k));
}

/// Placing hooks goes the same way again.
pub proof fn law_again_placing(
    s: InferiorV,
    functions: Seq<FunctionV>,
    plan: Seq<PlannedV>,
    placed: Seq<PlacedV>,
    replies: Seq<Reply>,
    x: Seq<Reply>,
)
    ensures
        ran_done(placing(s, functions, plan, placed, replies).0) ==> {
            let r = placing(s, functions, plan, placed, replies);
            let rest = ran_rest(r.0);
            &&& ends_with(replies, rest)
            &&& placing(s, functions, plan, placed, used(replies, rest) + x) == (ran_with(r.0, x), r.1)
        },
    decreases plan.len(),
{
    if plan.len() == 0 {
        assert(replies =~= used(replies, replies) + replies);
        assert(used(replies, replies) + x =~= x);
    } else {
        let first = plan[0];
        law_again_breakpoint_set(s, first.address, first.hook.armed, replies, x);
        match breakpoint_set(s, first.address, first.hook.armed, replies) {
            Ran::Gives(addr, s1, rest) => {
                let placed1 = placed.push(placed_as(functions, first, addr));
                let tail = placing(s1, functions, plan.drop_first(), placed1, rest);
                law_again_placing(s1, functions, plan.drop_first(), placed1, rest, x);
                if ran_done(tail.0) {
                    let end = ran_rest(tail.0);
                    law_again_breakpoint_set(s, first.address, first.hook.armed, replies, used(rest, end) + x);
                    lemma_used_twice(replies, rest, end, x);
                }
            },
            _ => {},
        }
    }
}

/// Whether the target was asked to shut down in the course of some stops, at some of which the session was
/// interrupted.
pub open spec fn asked_after(interrupts: Seq<bool>) -> bool
    decreases interrupts.len(),
{
    interrupts.len() > 0 && asked_by_now(asked_after(interrupts.drop_last()), interrupts.last())
}

/// However often a session is interrupted, the target is asked to shut down once: at the first interrupt.
pub proof fn law_asked_once(interrupts: Seq<bool>, k: int)
    requires
        0 <= k < interrupts.len(),
    ensures
        end_asked(asked_after(interrupts.take(k)), interrupts[k]) <==> interrupts[k] && forall|j: int|
            0 <= j < k ==> !#[trigger] interrupts[j],
{
    lemma_asked(interrupts.take(k));
    assert forall|j: int| 0 <= j < k implies interrupts.take(k)[j] == #[trigger] interrupts[j] by {}
    if asked_after(interrupts.take(k)) {
        let j = choose|j: int| 0 <= j < k && #[trigger] interrupts.take(k)[j];
        assert(interrupts[j]);
    }
    if !(forall|j: int| 0 <= j < k ==> !#[trigger] interrupts[j]) {
        let j = choose|j: int| 0 <= j < k && #[trigger] interrupts[j];
        assert(interrupts.take(k)[j]);
    }
}

/// The target was asked to shut down once there was an interrupt.
proof fn lemma_asked(interrupts: Seq<bool>)
    ensures
        asked_after(interrupts) <==> exists|j: int| 0 <= j < interrupts.len() && #[trigger] interrupts[j],
    decreases interrupts.len(),
{
    if interrupts.len() > 0 {
        let short = interrupts.drop_last();
        lemma_asked(short);
        if asked_after(short) {
            let j = choose|j: int| 0 <= j < short.len() && #[trigger] short[j];
            assert(interrupts[j]);
        }
        if interrupts.last() {
            assert(interrupts[interrupts.len() - 1]);
        }
        if exists|j: int| 0 <= j < interrupts.len() && #[trigger] interrupts[j] {
            let j = choose|j: int| 0 <= j < interrupts.len() && #[trigger] interrupts[j];
            if j < short.len() {
                assert(short[j]);
            }
        }
    }
}

/// Once a hook was handled, its thread is stepped past its address, as long as any thread is left; and
/// only without one is all finished.
pub proof fn law_after_hook(s: InferiorV, tid: i32, addr: u64, t: i32)
    ensures
        holds_key(s.threads, t) ==> after_hook(s, tid, addr) == After::StepOver(tid, addr),
        after_hook(s, tid, addr) == After::Finished ==> !holds_key(s.threads, t),
        s.threads.len() == 0 ==> after_hook(s, tid, addr) == After::Finished,
{
    lemma_position(s.threads, t);
}

/// The exit code that is told is the one with which the first thread exited, whatever other threads exit
/// with before or after; 0 where it has not.
pub proof fn law_exit_told(s: InferiorV, tid: i32, code: i32, replies: Seq<Reply>)
    ensures
        s.exit_code is None ==> exit_told(s) == 0,
        status_handled(s, WaitStatus::Exited(tid, code), replies) matches Ran::Gives(_, s1, _) && exit_told(s1) == (
        if tid == s.pid {
            code
        } else {
            exit_told(s)
        }),
{
}

} // verus!
