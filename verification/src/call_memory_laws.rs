//! Laws of what calls of the target's own functions do to its memory.

use vstd::prelude::*;

use crate::call_laws::law_call_entry;
use crate::call_laws::law_set_aside;
use crate::calls::bytes_set;
use crate::calls::call_awaited;
use crate::calls::call_begun;
use crate::calls::call_concluded;
use crate::calls::call_ended;
use crate::calls::call_lasted;
use crate::calls::call_made;
use crate::calls::call_stack;
use crate::calls::call_status;
use crate::calls::call_trapped;
use crate::calls::call_undone;
use crate::calls::is_armed;
use crate::calls::others_armed;
use crate::calls::others_set_aside;
use crate::calls::regs_restored;
use crate::calls::trap_readied;
use crate::calls::traps;
use crate::code_laws::about_memory;
use crate::code_laws::code_after;
use crate::code_laws::coherent;
use crate::code_laws::ended_among;
use crate::code_laws::law_step_memory;
use crate::code_laws::law_switch_memory;
use crate::code_laws::lemma_code_in_parts;
use crate::code_laws::lemma_code_then;
use crate::code_laws::lemma_code_to_end;
use crate::code_laws::lemma_no_memory;
use crate::code_laws::lemma_only_memory;
use crate::code_laws::lemma_resumed_quiet;
use crate::code_laws::lemma_same_code;
use crate::code_laws::lemma_status_quiet;
use crate::code_laws::lemma_stop_quiet;
use crate::code_laws::lemma_waited_quiet;
use crate::code_laws::replays;
use crate::code_laws::tells_end;
use crate::code_laws::Asks;
use crate::inferior::after;
use crate::inferior::after_io;
use crate::inferior::armed_at;
use crate::inferior::byte_set;
use crate::inferior::disarmed_at;
use crate::inferior::plus;
use crate::inferior::Breakpoint;
use crate::inferior::Call;
use crate::inferior::InferiorV;
use crate::inferior::Ran;
use crate::inferior::TRAP_BYTE;
use crate::memory_laws::distance;
use crate::memory_laws::law_put_bytes;
use crate::memory_laws::lemma_distance;
use crate::memory_laws::memory_after;
use crate::memory_laws::memory_with;
use crate::memory_laws::open_io;
use crate::memory_laws::open_ran;
use crate::memory_laws::Memory;
use crate::orderly::law_arm_orderly;
use crate::orderly::law_call_await_orderly;
use crate::orderly::law_call_begun;
use crate::orderly::law_resume_orderly;
use crate::orderly::law_stop_world_orderly;
use crate::orderly::lemma_lasted_orderly;
use crate::orderly::orderly;
use crate::replay::law_again_armed_at;
use crate::replay::law_again_call_awaited;
use crate::replay::law_again_call_begun;
use crate::replay::law_again_disarmed_at;
use crate::replay::law_again_world_stopped;
use crate::replay::lemma_again_bytes_set;
use crate::replay::lemma_again_call_lasted;
use crate::replay::lemma_again_resumed;
use crate::replay::lemma_again_waited;
use crate::replay::lemma_call_awaited_shorter;
use crate::replay::ran_rest;
use crate::replay::used;
use crate::stepping::stepped_over;
use crate::switches::switched_at;
use crate::table::distinct;
use crate::table::holds_key;
use crate::table::lemma_entry;
use crate::table::lemma_position;
use crate::table::lemma_with_value;
use crate::table::position;
use crate::table::value_of;
use crate::threads::all_resumed;
use crate::threads::tids_where;
use crate::threads::world_stopped;
use crate::trace::waited;
use crate::trace::Io;
use crate::trace::Reply;
use crate::trace::Request;
use crate::trace::SIGTRAP;
use crate::trace::WaitStatus;
use crate::words::law_word_of_bytes;
use crate::words::le_bytes;

verus! {

// ---- bytes at addresses ----

/// What memory holds at an address once bytes were put at some addresses.
proof fn lemma_memory_after(m: Memory, list: Seq<(u64, u8)>, a: u64, byte: u8)
    requires
        forall|i: int| 0 <= i < list.len() && (#[trigger] list[i]).0 == a ==> list[i].1 == byte,
    ensures
        memory_after(m, list)(a) == (if exists|i: int| 0 <= i < list.len() && (#[trigger] list[i]).0 == a {
            byte
        } else {
            m(a)
        }),
    decreases list.len(),
{
    if list.len() > 0 {
        let rest = list.drop_first();
        let m1 = memory_with(m, list[0].0, seq![list[0].1]);
        assert forall|i: int| 0 <= i < rest.len() && (#[trigger] rest[i]).0 == a implies rest[i].1 == byte by {
            assert(list[i + 1].0 == a);
        }
        lemma_memory_after(m1, rest, a, byte);
        lemma_distance(list[0].0, a, 8);
        if exists|i: int| 0 <= i < rest.len() && (#[trigger] rest[i]).0 == a {
            let i = choose|i: int| 0 <= i < rest.len() && (#[trigger] rest[i]).0 == a;
            assert(list[i + 1].0 == a);
        } else if list[0].0 == a {
            assert(list[0].1 == byte);
        } else {
            if exists|i: int| 0 <= i < list.len() && (#[trigger] list[i]).0 == a {
                let i = choose|i: int| 0 <= i < list.len() && (#[trigger] list[i]).0 == a;
                assert(rest[i - 1].0 == a);
            }
        }
    }
}

/// Putting bytes at addresses, as an operation on the state.
pub open spec fn bytes_put(s: InferiorV, tid: i32, list: Seq<(u64, u8)>, replies: Seq<Reply>) -> Ran<()> {
    after_io(bytes_set(tid, list, replies), s, |u: (), rest: Seq<Reply>| Ran::Gives((), s, rest))
}

/// Putting bytes at addresses puts just these bytes.
proof fn lemma_code_bytes(asks: Asks, tid: i32, list: Seq<(u64, u8)>, replies: Seq<Reply>, m: Memory)
    requires
        forall|y: Seq<Reply>| #[trigger] asks(y) == open_io(bytes_set(tid, list, y)),
        bytes_set(tid, list, replies) is Gives,
        code_after(asks, replies, m) is Some,
    ensures
        code_after(asks, replies, m) == Some(memory_after(m, list)),
{
    let put = |r: Seq<Reply>| open_io(bytes_set(tid, list, r));
    assert forall|k: int| 0 <= k < replies.len() implies asks(#[trigger] replies.take(k)) == put(replies.take(k)) by {}
    lemma_same_code(asks, put, replies, m);
    assert forall|y: Seq<Reply>| (#[trigger] put(y)) matches Some(q) ==> about_memory(q) by {
        lemma_bytes_ask(tid, list, y);
    }
    lemma_only_memory(put, replies, m);
    law_put_bytes(tid, list, replies, m);
}

/// Putting bytes at addresses asks of nothing but memory.
proof fn lemma_bytes_ask(tid: i32, list: Seq<(u64, u8)>, replies: Seq<Reply>)
    ensures
        bytes_set(tid, list, replies) matches Io::Waits(q) ==> about_memory(q),
    decreases list.len(),
{
    if list.len() > 0 {
        if let Io::Gives(_, rest) = byte_set(tid, list[0].0, list[0].1, replies) {
            lemma_bytes_ask(tid, list.drop_first(), rest);
        }
    }
}

/// Which breakpoints are set aside, by address.
proof fn lemma_aside(breakpoints: Seq<(u64, Breakpoint)>, keep: u64, a: u64)
    requires
        distinct(breakpoints),
    ensures
        ({
            let list = others_armed(breakpoints, keep);
            let aside = a != keep && (value_of(breakpoints, a) matches Some(bp) && bp.armed);
            &&& (exists|i: int| 0 <= i < list.len() && (#[trigger] list[i]).0 == a) <==> aside
            &&& forall|i: int|
                0 <= i < list.len() && (#[trigger] list[i]).0 == a ==> aside && list[i].1 == value_of(
                    breakpoints,
                    a,
                ).unwrap().original_byte
        }),
{
    let list = others_armed(breakpoints, keep);
    assert forall|i: int| 0 <= i < list.len() && (#[trigger] list[i]).0 == a implies a != keep && (value_of(
        breakpoints,
        a,
    ) matches Some(bp) && bp.armed && list[i].1 == bp.original_byte) by {
        assert(list[i] == (a, list[i].1));
        assert(list.contains((a, list[i].1)));
        law_set_aside(breakpoints, keep, a, list[i].1);
        let j = choose|j: int|
            0 <= j < breakpoints.len() && (#[trigger] breakpoints[j]).0 == a && breakpoints[j].1.armed
                && breakpoints[j].1.original_byte == list[i].1;
        lemma_entry(breakpoints, j);
    }
    if a != keep && (value_of(breakpoints, a) matches Some(bp) && bp.armed) {
        lemma_position(breakpoints, a);
        let j = position(breakpoints, a).unwrap();
        assert(breakpoints[j].0 == a);
        let byte = breakpoints[j].1.original_byte;
        law_set_aside(breakpoints, keep, a, byte);
        assert(list.contains((a, byte)));
        let i = choose|i: int| 0 <= i < list.len() && list[i] == (a, byte);
        assert(list[i].0 == a);
    }
}

// ---- while a call is on its way ----

/// Whether a call is on its way, and memory holds at the breakpoint that it returns to the instruction of
/// the breakpoint, and at every other breakpoint the byte that it takes the place of.
pub open spec fn calling(s: InferiorV, m: Memory) -> bool {
    s.call matches Some(call) && {
        &&& is_armed(s, call.trap)
        &&& s.set_aside == others_armed(s.breakpoints, call.trap)
        &&& forall|a: u64|
            (#[trigger] value_of(s.breakpoints, a)) matches Some(bp) ==> m(a) == (if a == call.trap {
                TRAP_BYTE
            } else {
                bp.original_byte
            })
    }
}

/// Getting the other breakpoints out of the way.
proof fn lemma_aside_memory(asks: Asks, s: InferiorV, call: Call, replies: Seq<Reply>, m: Memory)
    requires
        orderly(s),
        coherent(s, m),
        is_armed(s, call.trap),
        forall|y: Seq<Reply>| #[trigger] asks(y) == open_ran(others_set_aside(s, call, y)),
        others_set_aside(s, call, replies) is Gives,
        code_after(asks, replies, m) is Some,
    ensures
        ({
            let s1 = others_set_aside(s, call, replies)->Gives_1;
            let m1 = code_after(asks, replies, m).unwrap();
            &&& calling(s1, m1)
            &&& forall|a: u64| value_of(s.breakpoints, a) is None ==> #[trigger] m1(a) == m(a)
        }),
{
    let list = others_armed(s.breakpoints, call.trap);
    lemma_code_bytes(asks, s.tracee(), list, replies, m);
    let m1 = memory_after(m, list);
    let s1 = others_set_aside(s, call, replies)->Gives_1;
    assert(s1.breakpoints == s.breakpoints);
    assert forall|a: u64| (#[trigger] value_of(s1.breakpoints, a)) matches Some(bp) ==> m1(a) == (if a == call.trap {
        TRAP_BYTE
    } else {
        bp.original_byte
    }) by {
        if let Some(bp) = value_of(s1.breakpoints, a) {
            lemma_aside(s.breakpoints, call.trap, a);
            lemma_memory_after(m, list, a, bp.original_byte);
        }
    }
    assert forall|a: u64| value_of(s.breakpoints, a) is None implies #[trigger] m1(a) == m(a) by {
        lemma_aside(s.breakpoints, call.trap, a);
        lemma_memory_after(m, list, a, 0);
    }
}

/// Making the breakpoint ready, and getting the others out of the way.
proof fn lemma_ready_memory(asks: Asks, s: InferiorV, call: Call, replies: Seq<Reply>, m: Memory)
    requires
        orderly(s),
        coherent(s, m),
        holds_key(s.breakpoints, call.trap),
        call.trap_was_armed == is_armed(s, call.trap),
        forall|y: Seq<Reply>| #[trigger] asks(y) == open_ran(trap_readied(s, call, y)),
        trap_readied(s, call, replies) is Gives,
        code_after(asks, replies, m) is Some,
    ensures
        ({
            let s1 = trap_readied(s, call, replies)->Gives_1;
            let m1 = code_after(asks, replies, m).unwrap();
            &&& calling(s1, m1)
            &&& forall|a: u64| value_of(s.breakpoints, a) is None ==> #[trigger] m1(a) == m(a)
        }),
{
    if call.trap_was_armed {
        lemma_aside_memory(asks, s, call, replies, m);
    } else {
        let f = |y: Seq<Reply>| armed_at(s, call.trap, y);
        assert forall|r: Seq<Reply>, x: Seq<Reply>| #[trigger] replays(f, r, x) by {
            law_again_armed_at(s, call.trap, r, x);
        }
        let rest = ran_rest(f(replies));
        let first = used(replies, rest);
        let s1 = f(replies)->Gives_1;
        let then = |x: Seq<Reply>| open_ran(others_set_aside(s1, call, x));
        assert forall|x: Seq<Reply>| #[trigger] asks(first + x) == then(x) by {
            assert(replays(f, replies, x));
        }
        lemma_code_then(asks, f, then, replies, m);
        let arms = |y: Seq<Reply>| open_ran(f(y));
        let switches = |r: Seq<Reply>| open_ran(switched_at(s, call.trap, true, r));
        assert forall|k: int| 0 <= k < first.len() implies arms(#[trigger] first.take(k)) == switches(
            first.take(k),
        ) by {}
        lemma_same_code(arms, switches, first, m);
        assert(switched_at(s, call.trap, true, first) == f(first));
        law_switch_memory(s, call.trap, true, first, m);
        let ma = code_after(arms, first, m).unwrap();
        law_arm_orderly(s, call.trap, replies);
        lemma_aside_memory(then, s1, call, rest, ma);
        let m1 = code_after(then, rest, ma).unwrap();
        assert forall|a: u64| value_of(s.breakpoints, a) is None implies #[trigger] m1(a) == m(a) by {
            assert(value_of(s1.breakpoints, a) is None);
            lemma_position(s.breakpoints, call.trap);
            assert(ma(a) == m(a));
        }
    }
}

/// Once a call has begun, memory holds at the breakpoint that it returns to the instruction of the
/// breakpoint, and at every other breakpoint the byte that it takes the place of; the return address lies
/// where the stack pointer is set to; and every other byte is as it was.
pub proof fn law_call_begin_memory(s: InferiorV, func: u64, args: Seq<u64>, replies: Seq<Reply>, m: Memory)
    requires
        orderly(s),
        coherent(s, m),
        call_begun(s, func, args, replies) is Gives,
        code_after(|r: Seq<Reply>| open_ran(call_begun(s, func, args, r)), replies, m) is Some,
        ({
            let r = open_ran(call_begun(s, func, args, replies.take(2)));
            r matches Some(Request::SetRegs(_, regs)) ==> forall|a: u64| #[trigger]
                value_of(s.breakpoints, a) is Some ==> distance(regs.rsp, a) >= 8
        }),
    ensures
        ({
            let s1 = call_begun(s, func, args, replies)->Gives_1;
            let m1 = code_after(|r: Seq<Reply>| open_ran(call_begun(s, func, args, r)), replies, m).unwrap();
            &&& calling(s1, m1)
            &&& open_ran(call_begun(s, func, args, replies.take(2))) matches Some(Request::SetRegs(_, regs)) && {
                &&& forall|k: int| 0 <= k < 8 && value_of(s.breakpoints, plus(regs.rsp, k)) is None ==> #[trigger] m1(
                    plus(regs.rsp, k),
                ) == le_bytes(s.current_bp.unwrap())[k]
                &&& forall|a: u64|
                    value_of(s.breakpoints, a) is None && distance(regs.rsp, a) >= 8 ==> #[trigger] m1(a) == m(a)
            }
        }),
{
    let asks = |r: Seq<Reply>| open_ran(call_begun(s, func, args, r));
    law_call_entry(s, func, args, replies, 0);
    law_call_begun(s, func, args, replies);
    let tid = s.current.unwrap();
    let trap = s.current_bp.unwrap();
    let saved = replies[0]->Regs_0;
    let slot = plus(call_stack(saved.rsp), -8);
    let call = Call {
        tid,
        trap,
        expected_rsp: call_stack(saved.rsp),
        saved,
        trap_was_armed: is_armed(s, trap),
    };
    let first = replies.take(3);
    let rest = replies.skip(3);
    assert(replies =~= first + rest);
    let then = |x: Seq<Reply>| open_ran(trap_readied(s, call, x));
    assert forall|x: Seq<Reply>| #[trigger] asks(first + x) == then(x) by {
        let y = first + x;
        assert(y[0] == replies[0]);
        assert(y.drop_first()[0] == replies[1]);
        assert(y.drop_first().drop_first()[0] == replies[2]);
        assert(y.drop_first().drop_first().drop_first() =~= x);
        assert(replies.drop_first()[0] == replies[1]);
        assert(replies.drop_first().drop_first()[0] == replies[2]);
    }
    lemma_code_in_parts(asks, then, first, rest, m);
    assert(replies.drop_first().drop_first().drop_first() =~= rest);
    assert(call_begun(s, func, args, replies) == trap_readied(s, call, rest));
    let none = Seq::<Reply>::empty();
    assert(first.drop_last() =~= replies.take(2));
    assert(replies.take(2).drop_last() =~= replies.take(1));
    assert(replies.take(1).drop_last() =~= none);
    assert(replies.take(0) =~= none);
    let ma = memory_with(m, slot, le_bytes(trap));
    assert(code_after(asks, none, m) == Some(m));
    assert(code_after(asks, replies.take(1), m) == Some(m));
    assert(code_after(asks, replies.take(2), m) == Some(ma));
    assert(code_after(asks, first, m) == Some(ma));
    law_word_of_bytes(trap);
    assert(coherent(s, ma)) by {
        assert forall|a: u64| (#[trigger] value_of(s.breakpoints, a)) matches Some(bp) ==> ma(a) == m(a) by {}
    }
    lemma_position(s.breakpoints, trap);
    lemma_ready_memory(then, s, call, rest, ma);
    let m1 = code_after(then, rest, ma).unwrap();
    assert forall|k: int| 0 <= k < 8 && value_of(s.breakpoints, plus(slot, k)) is None implies #[trigger] m1(
        plus(slot, k),
    ) == le_bytes(trap)[k] by {
        assert(distance(slot, plus(slot, k)) == k);
    }
}

// ---- the end of a call ----

/// Setting the registers again leaves memory as it is.
proof fn lemma_restore_memory(asks: Asks, s: InferiorV, call: Call, replies: Seq<Reply>, m: Memory)
    requires
        forall|y: Seq<Reply>| #[trigger] asks(y) == open_ran(regs_restored(s, call, None, y)),
        code_after(asks, replies, m) is Some,
    ensures
        code_after(asks, replies, m) == Some(m),
{
    assert forall|y: Seq<Reply>| (#[trigger] asks(y)) matches Some(q) ==> !about_memory(q) by {}
    lemma_no_memory(asks, replies, m);
}

/// What is asked once the other breakpoints are back.
pub open spec fn trap_undone(s: InferiorV, call: Call, replies: Seq<Reply>) -> Ran<()> {
    if call.trap_was_armed {
        regs_restored(s, call, None, replies)
    } else {
        after(
            disarmed_at(s, call.trap, replies),
            |u: (), s1: InferiorV, rest: Seq<Reply>| regs_restored(s1, call, None, rest),
        )
    }
}

/// Making the breakpoint what it was, and setting the registers again.
proof fn lemma_trap_undone(asks: Asks, s: InferiorV, call: Call, replies: Seq<Reply>, m: Memory)
    requires
        coherent(s, m),
        forall|y: Seq<Reply>| #[trigger] asks(y) == open_ran(trap_undone(s, call, y)),
        trap_undone(s, call, replies) is Gives,
        code_after(asks, replies, m) is Some,
        holds_key(s.breakpoints, call.trap),
    ensures
        ({
            let s1 = trap_undone(s, call, replies)->Gives_1;
            let m1 = code_after(asks, replies, m).unwrap();
            &&& coherent(s1, m1)
            &&& forall|a: u64| value_of(s.breakpoints, a) is None ==> #[trigger] m1(a) == m(a)
        }),
{
    if call.trap_was_armed {
        lemma_restore_memory(asks, s, call, replies, m);
    } else {
        let f = |y: Seq<Reply>| disarmed_at(s, call.trap, y);
        assert forall|r: Seq<Reply>, x: Seq<Reply>| #[trigger] replays(f, r, x) by {
            law_again_disarmed_at(s, call.trap, r, x);
        }
        let rest = ran_rest(f(replies));
        let first = used(replies, rest);
        let s1 = f(replies)->Gives_1;
        let then = |x: Seq<Reply>| open_ran(regs_restored(s1, call, None, x));
        assert forall|x: Seq<Reply>| #[trigger] asks(first + x) == then(x) by {
            assert(replays(f, replies, x));
        }
        lemma_code_then(asks, f, then, replies, m);
        let disarms = |y: Seq<Reply>| open_ran(f(y));
        let switches = |r: Seq<Reply>| open_ran(switched_at(s, call.trap, false, r));
        assert forall|k: int| 0 <= k < first.len() implies disarms(#[trigger] first.take(k)) == switches(
            first.take(k),
        ) by {}
        lemma_same_code(disarms, switches, first, m);
        assert(switched_at(s, call.trap, false, first) == f(first));
        law_switch_memory(s, call.trap, false, first, m);
        let ma = code_after(disarms, first, m).unwrap();
        lemma_restore_memory(then, s1, call, rest, ma);
        assert forall|a: u64| value_of(s.breakpoints, a) is None implies #[trigger] ma(a) == m(a) by {
            lemma_position(s.breakpoints, call.trap);
        }
    }
}

/// Putting the other breakpoints back, and then the rest.
proof fn lemma_undone_memory(asks: Asks, s: InferiorV, call: Call, list: Seq<(u64, u8)>, replies: Seq<Reply>, m: Memory)
    requires
        orderly(s),
        holds_key(s.breakpoints, call.trap),
        is_armed(s, call.trap),
        list == others_armed(s.breakpoints, call.trap),
        forall|a: u64|
            (#[trigger] value_of(s.breakpoints, a)) matches Some(bp) ==> m(a) == (if a == call.trap {
                TRAP_BYTE
            } else {
                bp.original_byte
            }),
        forall|y: Seq<Reply>| #[trigger] asks(y) == open_ran(call_undone(s, call, list, None, y)),
        call_undone(s, call, list, None, replies) is Gives,
        code_after(asks, replies, m) is Some,
    ensures
        ({
            let s1 = call_undone(s, call, list, None, replies)->Gives_1;
            let m1 = code_after(asks, replies, m).unwrap();
            &&& coherent(s1, m1)
            &&& forall|a: u64| value_of(s.breakpoints, a) is None ==> #[trigger] m1(a) == m(a)
        }),
{
    let back = traps(list);
    let tid = s.tracee();
    let f = |y: Seq<Reply>| bytes_put(s, tid, back, y);
    assert forall|r: Seq<Reply>, x: Seq<Reply>| #[trigger] replays(f, r, x) by {
        lemma_again_bytes_set(tid, back, r, x);
    }
    let rest = ran_rest(f(replies));
    let first = used(replies, rest);
    let then = |x: Seq<Reply>| open_ran(trap_undone(s, call, x));
    assert forall|x: Seq<Reply>| #[trigger] asks(first + x) == then(x) by {
        assert(replays(f, replies, x));
    }
    lemma_code_then(asks, f, then, replies, m);
    let puts = |y: Seq<Reply>| open_ran(f(y));
    assert(f(first) is Gives);
    lemma_code_bytes(puts, tid, back, first, m);
    let ma = memory_after(m, back);
    assert forall|a: u64| true implies ({
        &&& #[trigger] ma(a) == (if a != call.trap && (value_of(s.breakpoints, a) matches Some(bp) && bp.armed) {
            TRAP_BYTE
        } else {
            m(a)
        })
    }) by {
        lemma_aside(s.breakpoints, call.trap, a);
        assert forall|i: int| 0 <= i < back.len() && (#[trigger] back[i]).0 == a implies back[i].1 == TRAP_BYTE by {}
        lemma_memory_after(m, back, a, TRAP_BYTE);
        if exists|i: int| 0 <= i < list.len() && (#[trigger] list[i]).0 == a {
            let i = choose|i: int| 0 <= i < list.len() && (#[trigger] list[i]).0 == a;
            assert(back[i].0 == a);
        }
        if exists|i: int| 0 <= i < back.len() && (#[trigger] back[i]).0 == a {
            let i = choose|i: int| 0 <= i < back.len() && (#[trigger] back[i]).0 == a;
            assert(list[i].0 == a);
        }
    }
    assert(coherent(s, ma));
    lemma_trap_undone(then, s, call, rest, ma);
}

/// Once a call has ended, memory holds at every breakpoint what it is to hold: the instruction of the
/// breakpoint if it is armed, as it was before the call, and the byte that it takes the place of if it is
/// not. Every other byte is as it was.
pub proof fn law_call_end_memory(s: InferiorV, replies: Seq<Reply>, m: Memory)
    requires
        orderly(s),
        calling(s, m),
        call_ended(s, replies) is Gives,
        code_after(|r: Seq<Reply>| open_ran(call_ended(s, r)), replies, m) is Some,
    ensures
        ({
            let s1 = call_ended(s, replies)->Gives_1;
            let m1 = code_after(|r: Seq<Reply>| open_ran(call_ended(s, r)), replies, m).unwrap();
            &&& coherent(s1, m1)
            &&& forall|a: u64| value_of(s.breakpoints, a) is None ==> #[trigger] m1(a) == m(a)
        }),
{
    let asks = |r: Seq<Reply>| open_ran(call_ended(s, r));
    let call = s.call.unwrap();
    let list = s.set_aside;
    let s0 = InferiorV { call: None, set_aside: Seq::empty(), ..s };
    assert(orderly(s0));
    law_stop_world_orderly(s0, replies);
    let f = |y: Seq<Reply>| world_stopped(s0, y);
    assert forall|r: Seq<Reply>, x: Seq<Reply>| #[trigger] replays(f, r, x) by {
        law_again_world_stopped(s0, r, x);
    }
    assert(f(replies) is Gives);
    let rest = ran_rest(f(replies));
    let first = used(replies, rest);
    let s1 = f(replies)->Gives_1;
    let then = |x: Seq<Reply>| open_ran(call_undone(s1, call, list, None, x));
    assert forall|x: Seq<Reply>| #[trigger] asks(first + x) == then(x) by {
        assert(replays(f, replies, x));
    }
    lemma_code_then(asks, f, then, replies, m);
    let stops = |y: Seq<Reply>| open_ran(f(y));
    assert forall|y: Seq<Reply>| (#[trigger] stops(y)) matches Some(q) ==> !about_memory(q) by {
        lemma_stop_quiet(s0, y);
    }
    lemma_no_memory(stops, first, m);
    lemma_position(s.breakpoints, call.trap);
    lemma_undone_memory(then, s1, call, list, rest, m);
}

// ---- waiting for a call ----

/// What is told at the end of the replies is told in them.
proof fn lemma_ended_later(first: Seq<Reply>, rest: Seq<Reply>)
    requires
        !ended_among(first + rest),
    ensures
        !ended_among(rest),
{
    if ended_among(rest) {
        let i = choose|i: int| 0 <= i < rest.len() && tells_end(#[trigger] rest[i]);
        assert((first + rest)[i + first.len()] == rest[i]);
    }
}

/// A trap of the thread of a call leaves memory as it is, also where the thread is let past the
/// breakpoint.
#[verifier::rlimit(40)]
proof fn lemma_trapped_memory(asks: Asks, s: InferiorV, call: Call, replies: Seq<Reply>, m: Memory)
    requires
        is_armed(s, call.trap),
        m(call.trap) == TRAP_BYTE,
        forall|y: Seq<Reply>| #[trigger] asks(y) == open_ran(call_trapped(s, call, y)),
        call_trapped(s, call, replies) is Gives,
        code_after(asks, replies, m) is Some,
        !ended_among(replies),
    ensures
        code_after(asks, replies, m) == Some(m),
{
    let s1 = s.with_stopped(call.tid);
    let none = Seq::<Reply>::empty();
    let regs = replies[0]->Regs_0;
    assert(replies.take(1).drop_last() =~= none);
    assert(asks(none) == Some(Request::GetRegs(call.tid)));
    assert(code_after(asks, none, m) == Some(m));
    assert(code_after(asks, replies.take(1), m) == Some(m));
    if plus(regs.rip, -1) != call.trap || regs.rsp == call.expected_rsp {
        let first = replies.take(1);
        let rest = replies.skip(1);
        let then = |x: Seq<Reply>| None::<Request>;
        assert forall|x: Seq<Reply>| #[trigger] asks(first + x) == then(x) by {
            assert((first + x)[0] == replies[0]);
        }
        lemma_code_in_parts(asks, then, first, rest, m);
        assert(first + rest =~= replies);
        lemma_code_to_end(then, rest, m);
    } else {
        let first = replies.take(2);
        let rest = replies.skip(2);
        let then = |x: Seq<Reply>| open_ran(stepped_over(s1, call.tid, call.trap, x));
        assert(replies.drop_first()[0] == replies[1]);
        assert forall|x: Seq<Reply>| #[trigger] asks(first + x) == then(x) by {
            let y = first + x;
            assert(y[0] == replies[0]);
            assert(y.drop_first()[0] == replies[1]);
            assert(y.drop_first().drop_first() =~= x);
        }
        assert(first + rest =~= replies);
        assert(first.drop_last() =~= replies.take(1));
        assert(replies.take(1).drop_first() =~= none);
        assert(code_after(asks, first, m) == Some(m));
        lemma_code_in_parts(asks, then, first, rest, m);
        assert(replies.drop_first().drop_first() =~= rest);
        lemma_ended_later(first, rest);
        law_step_memory(s1, call.tid, call.trap, rest, m);
        let same = memory_with(m, call.trap, seq![TRAP_BYTE]);
        assert forall|a: u64| #[trigger] same(a) == m(a) by {
            lemma_distance(call.trap, a, 8);
        }
        assert(same =~= m);
    }
}

/// What becomes of a thread during a call leaves memory as it is.
proof fn lemma_call_status_memory(
    asks: Asks,
    s: InferiorV,
    call: Call,
    status: WaitStatus,
    replies: Seq<Reply>,
    m: Memory,
)
    requires
        is_armed(s, call.trap),
        m(call.trap) == TRAP_BYTE,
        forall|y: Seq<Reply>| #[trigger] asks(y) == open_ran(call_status(s, call, status, y)),
        call_status(s, call, status, replies) is Gives,
        code_after(asks, replies, m) is Some,
        !ended_among(replies),
    ensures
        code_after(asks, replies, m) == Some(m),
{
    if status == WaitStatus::Stopped(call.tid, SIGTRAP) {
        lemma_trapped_memory(asks, s, call, replies, m);
    } else {
        assert forall|y: Seq<Reply>| (#[trigger] asks(y)) matches Some(q) ==> !about_memory(q) by {
            lemma_status_quiet(s, status, y);
        }
        lemma_no_memory(asks, replies, m);
    }
}

/// Waiting for any thread, as an operation on the state.
pub open spec fn any_waited(s: InferiorV, replies: Seq<Reply>) -> Ran<WaitStatus> {
    after_io(
        waited(Request::WaitAny, replies),
        s,
        |status: WaitStatus, rest: Seq<Reply>| Ran::Gives(status, s, rest),
    )
}

/// What comes of waiting for any thread during a call.
pub open spec fn call_waited(s: InferiorV, call: Call, replies: Seq<Reply>) -> Ran<Option<(u64, u64)>> {
    after_io(
        waited(Request::WaitAny, replies),
        s,
        |status: WaitStatus, rest: Seq<Reply>| call_status(s, call, status, rest),
    )
}

/// Waiting for any thread during a call leaves memory as it is.
proof fn lemma_call_waited_memory(asks: Asks, s: InferiorV, call: Call, replies: Seq<Reply>, m: Memory)
    requires
        is_armed(s, call.trap),
        m(call.trap) == TRAP_BYTE,
        forall|y: Seq<Reply>| #[trigger] asks(y) == open_ran(call_waited(s, call, y)),
        call_waited(s, call, replies) is Gives,
        code_after(asks, replies, m) is Some,
        !ended_among(replies),
    ensures
        code_after(asks, replies, m) == Some(m),
{
    let f = |y: Seq<Reply>| any_waited(s, y);
    assert forall|r: Seq<Reply>, x: Seq<Reply>| #[trigger] replays(f, r, x) by {
        lemma_again_waited(Request::WaitAny, r, x);
    }
    let rest = ran_rest(f(replies));
    let first = used(replies, rest);
    let status = f(replies)->Gives_0;
    let then = |x: Seq<Reply>| open_ran(call_status(s, call, status, x));
    assert forall|x: Seq<Reply>| #[trigger] asks(first + x) == then(x) by {
        assert(replays(f, replies, x));
    }
    lemma_code_then(asks, f, then, replies, m);
    let waits = |y: Seq<Reply>| open_ran(f(y));
    assert forall|y: Seq<Reply>| (#[trigger] waits(y)) matches Some(q) ==> !about_memory(q) by {
        lemma_waited_quiet(Request::WaitAny, y);
    }
    lemma_no_memory(waits, first, m);
    lemma_ended_later(first, rest);
    lemma_call_status_memory(then, s, call, status, rest, m);
}

/// A round of waiting for a call leaves memory as it is.
proof fn lemma_round_memory(asks: Asks, s: InferiorV, replies: Seq<Reply>, m: Memory)
    requires
        orderly(s),
        calling(s, m),
        forall|y: Seq<Reply>| #[trigger] asks(y) == open_ran(call_awaited(s, y)),
        call_awaited(s, replies) is Gives,
        code_after(asks, replies, m) is Some,
        !ended_among(replies),
    ensures
        code_after(asks, replies, m) == Some(m),
{
    let call = s.call.unwrap();
    let tids = tids_where(s.threads, false);
    lemma_position(s.breakpoints, call.trap);
    assert(m(call.trap) == TRAP_BYTE) by {
        assert(value_of(s.breakpoints, call.trap) is Some);
    }
    let f = |y: Seq<Reply>| all_resumed(s, y);
    assert forall|r: Seq<Reply>, x: Seq<Reply>| #[trigger] replays(f, r, x) by {
        lemma_again_resumed(s, tids, r, x);
    }
    let rest = ran_rest(f(replies));
    let first = used(replies, rest);
    let s1 = f(replies)->Gives_1;
    law_resume_orderly(s, tids, replies);
    let then = |x: Seq<Reply>| open_ran(call_waited(s1, call, x));
    assert forall|x: Seq<Reply>| #[trigger] asks(first + x) == then(x) by {
        assert(replays(f, replies, x));
    }
    lemma_code_then(asks, f, then, replies, m);
    let resumes = |y: Seq<Reply>| open_ran(f(y));
    assert forall|y: Seq<Reply>| (#[trigger] resumes(y)) matches Some(q) ==> !about_memory(q) by {
        lemma_resumed_quiet(s, tids, y);
    }
    lemma_no_memory(resumes, first, m);
    lemma_ended_later(first, rest);
    lemma_call_waited_memory(then, s1, call, rest, m);
}

/// While a call is waited for, memory stays as it is but for what the target itself does, and the call is
/// still on its way; unless a thread is told to have ended meanwhile.
pub proof fn law_call_wait_memory(s: InferiorV, replies: Seq<Reply>, m: Memory)
    requires
        orderly(s),
        calling(s, m),
        call_lasted(s, replies) is Gives,
        code_after(|r: Seq<Reply>| open_ran(call_lasted(s, r)), replies, m) is Some,
        !ended_among(replies),
    ensures
        code_after(|r: Seq<Reply>| open_ran(call_lasted(s, r)), replies, m) == Some(m),
        calling(call_lasted(s, replies)->Gives_1, m),
        orderly(call_lasted(s, replies)->Gives_1),
    decreases replies.len(),
{
    let asks = |r: Seq<Reply>| open_ran(call_lasted(s, r));
    law_call_await_orderly(s, replies);
    let f = |y: Seq<Reply>| call_awaited(s, y);
    assert forall|r: Seq<Reply>, x: Seq<Reply>| #[trigger] replays(f, r, x) by {
        law_again_call_awaited(s, r, x);
    }
    assert(f(replies) is Gives);
    let rest = ran_rest(f(replies));
    let first = used(replies, rest);
    let s1 = f(replies)->Gives_1;
    lemma_call_awaited_shorter(s, replies);
    let then = |x: Seq<Reply>|
        if f(replies)->Gives_0 is Some {
            None::<Request>
        } else {
            open_ran(call_lasted(s1, x))
        };
    assert forall|x: Seq<Reply>| #[trigger] asks(first + x) == then(x) by {
        assert(replays(f, replies, x));
        assert(x.len() < (first + x).len());
    }
    lemma_code_then(asks, f, then, replies, m);
    let rounds = |y: Seq<Reply>| open_ran(f(y));
    assert(f(first) is Gives);
    assert(!ended_among(first)) by {
        if ended_among(first) {
            let i = choose|i: int| 0 <= i < first.len() && tells_end(#[trigger] first[i]);
            assert(replies[i] == first[i]);
        }
    }
    lemma_round_memory(rounds, s, first, m);
    assert(first + rest == replies);
    lemma_ended_later(first, rest);
    if f(replies)->Gives_0 is Some {
        lemma_code_to_end(then, rest, m);
    } else {
        let later = |r: Seq<Reply>| open_ran(call_lasted(s1, r));
        assert forall|k: int| 0 <= k < rest.len() implies then(#[trigger] rest.take(k)) == later(rest.take(k)) by {}
        lemma_same_code(then, later, rest, m);
        law_call_wait_memory(s1, rest, m);
    }
}

// ---- a call as a whole ----

/// What comes of waiting for a call that has begun, and of ending it.
pub open spec fn call_carried_on(s: InferiorV, replies: Seq<Reply>) -> Ran<(u64, u64)> {
    match call_lasted(s, replies) {
        Ran::Waits(q) => Ran::Waits(q),
        Ran::Fails(e, s2, rest) => call_concluded(Err(e), s2, rest),
        Ran::Gives(v, s2, rest) => call_concluded(Ok(v), s2, rest),
    }
}

/// Waiting for a call that has begun, and ending it, leaves memory as it is to be.
proof fn lemma_carried_on_memory(asks: Asks, s: InferiorV, replies: Seq<Reply>, m: Memory)
    requires
        orderly(s),
        calling(s, m),
        forall|y: Seq<Reply>| #[trigger] asks(y) == open_ran(call_carried_on(s, y)),
        call_carried_on(s, replies) is Gives,
        code_after(asks, replies, m) is Some,
        !ended_among(replies),
    ensures
        ({
            let s1 = call_carried_on(s, replies)->Gives_1;
            let m1 = code_after(asks, replies, m).unwrap();
            &&& coherent(s1, m1)
            &&& forall|a: u64| value_of(s.breakpoints, a) is None ==> #[trigger] m1(a) == m(a)
        }),
{
    let f = |y: Seq<Reply>| call_lasted(s, y);
    assert forall|r: Seq<Reply>, x: Seq<Reply>| #[trigger] replays(f, r, x) by {
        lemma_again_call_lasted(s, r, x);
    }
    assert(f(replies) is Gives);
    let rest = ran_rest(f(replies));
    let first = used(replies, rest);
    let s1 = f(replies)->Gives_1;
    let v = f(replies)->Gives_0;
    let then = |x: Seq<Reply>| open_ran(call_concluded(Ok(v), s1, x));
    assert forall|x: Seq<Reply>| #[trigger] asks(first + x) == then(x) by {
        assert(replays(f, replies, x));
    }
    lemma_code_then(asks, f, then, replies, m);
    let lasts = |y: Seq<Reply>| open_ran(f(y));
    let waits = |r: Seq<Reply>| open_ran(call_lasted(s, r));
    assert forall|k: int| 0 <= k < first.len() implies lasts(#[trigger] first.take(k)) == waits(first.take(k)) by {}
    lemma_same_code(lasts, waits, first, m);
    assert(f(first) is Gives);
    assert(first + rest == replies);
    assert(!ended_among(first)) by {
        if ended_among(first) {
            let i = choose|i: int| 0 <= i < first.len() && tells_end(#[trigger] first[i]);
            assert(replies[i] == first[i]);
        }
    }
    law_call_wait_memory(s, first, m);
    lemma_lasted_orderly(s, replies);
    let ends = |r: Seq<Reply>| open_ran(call_ended(s1, r));
    assert forall|k: int| 0 <= k < rest.len() implies then(#[trigger] rest.take(k)) == ends(rest.take(k)) by {}
    lemma_same_code(then, ends, rest, m);
    law_call_end_memory(s1, rest, m);
}

/// A function of the target that was called, and returned without a thread being told to have ended,
/// leaves behind memory that holds at every breakpoint what it is to hold. Beside the breakpoints, and
/// beside what the target itself does, memory is different only where the return address lay.
pub proof fn law_call_coherent(s: InferiorV, func: u64, args: Seq<u64>, replies: Seq<Reply>, m: Memory)
    requires
        orderly(s),
        coherent(s, m),
        call_made(s, func, args, replies) is Gives,
        code_after(|r: Seq<Reply>| open_ran(call_made(s, func, args, r)), replies, m) is Some,
        !ended_among(replies),
        ({
            let r = open_ran(call_begun(s, func, args, replies.take(2)));
            r matches Some(Request::SetRegs(_, regs)) ==> forall|a: u64| #[trigger]
                value_of(s.breakpoints, a) is Some ==> distance(regs.rsp, a) >= 8
        }),
    ensures
        ({
            let s1 = call_made(s, func, args, replies)->Gives_1;
            let m1 = code_after(|r: Seq<Reply>| open_ran(call_made(s, func, args, r)), replies, m).unwrap();
            &&& coherent(s1, m1)
            &&& open_ran(call_begun(s, func, args, replies.take(2))) matches Some(Request::SetRegs(_, regs)) && {
                forall|a: u64|
                    value_of(s.breakpoints, a) is None && distance(regs.rsp, a) >= 8 ==> #[trigger] m1(a) == m(a)
            }
        }),
{
    let asks = |r: Seq<Reply>| open_ran(call_made(s, func, args, r));
    let f = |y: Seq<Reply>| call_begun(s, func, args, y);
    assert forall|r: Seq<Reply>, x: Seq<Reply>| #[trigger] replays(f, r, x) by {
        law_again_call_begun(s, func, args, r, x);
    }
    assert(f(replies) is Gives);
    let rest = ran_rest(f(replies));
    let first = used(replies, rest);
    let s1 = f(replies)->Gives_1;
    let then = |x: Seq<Reply>| open_ran(call_carried_on(s1, x));
    assert forall|x: Seq<Reply>| #[trigger] asks(first + x) == then(x) by {
        assert(replays(f, replies, x));
    }
    lemma_code_then(asks, f, then, replies, m);
    let begins = |y: Seq<Reply>| open_ran(f(y));
    let starts = |r: Seq<Reply>| open_ran(call_begun(s, func, args, r));
    assert forall|k: int| 0 <= k < first.len() implies begins(#[trigger] first.take(k)) == starts(first.take(k)) by {}
    lemma_same_code(begins, starts, first, m);
    assert(f(first) is Gives);
    law_call_entry(s, func, args, first, 0);
    assert(first + rest == replies);
    assert(first.take(2) =~= replies.take(2));
    law_call_begin_memory(s, func, args, first, m);
    law_call_begun(s, func, args, replies);
    let ma = code_after(starts, first, m).unwrap();
    lemma_ended_later(first, rest);
    lemma_carried_on_memory(then, s1, rest, ma);
    let m1 = code_after(then, rest, ma).unwrap();
    let trap = s.current_bp.unwrap();
    assert forall|a: u64| value_of(s.breakpoints, a) is None implies value_of(s1.breakpoints, a) is None by {
        lemma_position(s.breakpoints, trap);
        if let Some(bp) = value_of(s.breakpoints, trap) {
            lemma_with_value(s.breakpoints, trap, Breakpoint { armed: true, ..bp }, a);
        }
    }
}

} // verus!
