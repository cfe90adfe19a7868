//! Laws of calls of the target's own functions: how they are entered, what they give, and what they
//! set aside.

use vstd::prelude::*;

use crate::calls::call_awaited;
use crate::calls::call_begun;
use crate::calls::call_ended;
use crate::calls::call_lasted;
use crate::calls::call_made;
use crate::calls::call_stack;
use crate::calls::call_status;
use crate::calls::call_undone;
use crate::calls::law_entry_regs;
use crate::calls::others_armed;
use crate::calls::unusual_during_call;
use crate::inferior::plus;
use crate::inferior::Breakpoint;
use crate::inferior::Call;
use crate::inferior::InferiorV;
use crate::inferior::Ran;
use crate::memory_laws::open_ran;
use crate::orderly::law_call_await_orderly;
use crate::orderly::law_call_begun;
use crate::orderly::law_resume_orderly;
use crate::orderly::orderly;
use crate::regs::argument_register;
use crate::regs::Regs;
use crate::replay::ends_with;
use crate::replay::law_again_call_awaited;
use crate::replay::law_again_call_begun;
use crate::replay::lemma_again_resumed;
use crate::replay::lemma_again_waited;
use crate::replay::used;
use crate::stepping::stepped_over;
use crate::table::holds_key;
use crate::threads::all_resumed;
use crate::threads::status_handled;
use crate::threads::tids_where;
use crate::threads::world_stopped;
use crate::trace::waited;
use crate::trace::Io;
use crate::trace::Reply;
use crate::trace::Request;
use crate::trace::SIGSTOP;
use crate::trace::TraceError;
use crate::trace::WaitStatus;
use crate::trace::SIGTRAP;

verus! {

// ---- how a function is entered ----

/// Beginning a call asks first for the registers of the thread whose hook is handled; then puts the
/// address of the breakpoint that is handled, as the return address, at the stack pointer that the
/// function is entered with; and then sets the registers: the arguments in order in the registers that
/// functions are passed integers in, the instruction pointer to the function, an aligned stack pointer
/// below that of the thread, and a clear accumulator.
pub proof fn law_call_entry(s: InferiorV, func: u64, args: Seq<u64>, replies: Seq<Reply>, k: int)
    requires
        call_begun(s, func, args, replies) is Gives,
    ensures
        s.current is Some,
        s.current_bp is Some,
        args.len() <= 6,
        replies.len() >= 3,
        replies[0] is Regs,
        ({
            let tid = s.current.unwrap();
            let saved = replies[0]->Regs_0;
            &&& open_ran(call_begun(s, func, args, replies.take(0))) == Some(Request::GetRegs(tid))
            &&& open_ran(call_begun(s, func, args, replies.take(2))) matches Some(Request::SetRegs(t, r)) && {
                &&& t == tid
                &&& r.rip == func
                &&& r.rax == 0
                &&& (r.rsp + 8) % 16 == 0
                &&& saved.rsp >= 1048 ==> r.rsp < saved.rsp - 1024
                &&& 0 <= k < args.len() ==> r.value_of(argument_register(k)) == Some(args[k])
                &&& args.len() <= k < 6 ==> r.value_of(argument_register(k)) == saved.value_of(argument_register(k))
                &&& r.rbx == saved.rbx && r.rbp == saved.rbp && r.r10 == saved.r10 && r.r11 == saved.r11
                &&& r.r12 == saved.r12 && r.r13 == saved.r13 && r.r14 == saved.r14 && r.r15 == saved.r15
                &&& r.eflags == saved.eflags && r.fs_base == saved.fs_base && r.gs_base == saved.gs_base
                &&& open_ran(call_begun(s, func, args, replies.take(1))) == Some(
                    Request::WriteWord(tid, r.rsp, s.current_bp.unwrap()),
                )
            }
        }),
{
    let saved = replies[0]->Regs_0;
    assert(replies.take(0) =~= Seq::<Reply>::empty());
    assert(replies.take(1).drop_first() =~= Seq::<Reply>::empty());
    assert(replies.take(2).drop_first() =~= seq![replies[1]]);
    assert(replies.take(2).drop_first().drop_first() =~= Seq::<Reply>::empty());
    law_entry_regs(saved, func, args, k);
}

/// A call is refused, with nothing asked, if it has more arguments than fit in registers, if no hook is
/// handled, or if the target or the thread is gone.
pub proof fn law_call_refused(s: InferiorV, func: u64, args: Seq<u64>, replies: Seq<Reply>)
    ensures
        (args.len() > 6 || s.current is None || s.current_bp is None || s.threads.len() == 0 || !holds_key(
            s.threads,
            s.current.unwrap(),
        )) <==> call_begun(s, func, args, Seq::empty()) is Fails,
        call_begun(s, func, args, Seq::empty()) is Fails ==> (call_begun(s, func, args, replies) matches Ran::Fails(
            _,
            s1,
            rest,
        ) && s1 == s && rest == replies),
{
}

// ---- what a call gives ----

/// Whether a reply is the registers of a thread that has returned from a call: it has just executed the
/// breakpoint at `trap`, with the stack pointer `rsp`, and the two results in its registers.
pub open spec fn returned_with(reply: Reply, trap: u64, rsp: u64, v: (u64, u64)) -> bool {
    match reply {
        Reply::Regs(r) => {
            &&& r.rip == plus(trap, 1)
            &&& r.rsp == rsp
            &&& v.0 == r.rax
            &&& v.1 == r.rdx
        },
        _ => false,
    }
}

/// Whether one of the replies is the registers of a thread that has returned from a call.
pub open spec fn return_seen(replies: Seq<Reply>, trap: u64, rsp: u64, v: (u64, u64)) -> bool {
    exists|i: int| 0 <= i < replies.len() && returned_with(#[trigger] replies[i], trap, rsp, v)
}

/// What is seen at the end of the replies is seen in all of them.
proof fn lemma_return_seen(replies: Seq<Reply>, rest: Seq<Reply>, trap: u64, rsp: u64, v: (u64, u64))
    requires
        ends_with(replies, rest),
        return_seen(rest, trap, rsp, v),
    ensures
        return_seen(replies, trap, rsp, v),
{
    let i = choose|i: int| 0 <= i < rest.len() && returned_with(#[trigger] rest[i], trap, rsp, v);
    let first = used(replies, rest);
    assert((first + rest)[i + first.len()] == rest[i]);
    assert(returned_with(replies[i + first.len()], trap, rsp, v));
}

/// A round of waiting for a call gives what a thread has returned with.
proof fn lemma_awaited_gives(s: InferiorV, replies: Seq<Reply>)
    requires
        orderly(s),
    ensures
        call_awaited(s, replies) matches Ran::Gives(Some(v), _, _) ==> s.call is Some && return_seen(
            replies,
            s.call.unwrap().trap,
            s.call.unwrap().expected_rsp,
            v,
        ),
{
    if let Some(call) = s.call {
        law_resume_orderly(s, tids_where(s.threads, false), replies);
        if let Ran::Gives(_, s1, rest) = all_resumed(s, replies) {
            lemma_again_resumed(s, tids_where(s.threads, false), replies, Seq::empty());
            lemma_again_waited(Request::WaitAny, rest, Seq::empty());
            if let Io::Gives(status, rest2) = waited(Request::WaitAny, rest) {
                if let Ran::Gives(Some(v), _, _) = call_status(s1, call, status, rest2) {
                    assert(status == WaitStatus::Stopped(call.tid, SIGTRAP));
                    assert(returned_with(rest2[0], call.trap, call.expected_rsp, v));
                    assert(return_seen(rest2, call.trap, call.expected_rsp, v));
                    lemma_return_seen(rest, rest2, call.trap, call.expected_rsp, v);
                    lemma_return_seen(replies, rest, call.trap, call.expected_rsp, v);
                }
            }
        }
    }
}

/// Waiting for a call gives what a thread has returned with.
proof fn lemma_lasted_gives(s: InferiorV, replies: Seq<Reply>)
    requires
        orderly(s),
    ensures
        call_lasted(s, replies) matches Ran::Gives(v, _, _) ==> s.call is Some && return_seen(
            replies,
            s.call.unwrap().trap,
            s.call.unwrap().expected_rsp,
            v,
        ),
    decreases replies.len(),
{
    lemma_awaited_gives(s, replies);
    law_call_await_orderly(s, replies);
    law_again_call_awaited(s, replies, Seq::empty());
    if let Ran::Gives(None, s1, rest) = call_awaited(s, replies) {
        if rest.len() < replies.len() {
            lemma_lasted_gives(s1, rest);
            if let Ran::Gives(v, _, _) = call_lasted(s1, rest) {
                lemma_return_seen(replies, rest, s.call.unwrap().trap, s.call.unwrap().expected_rsp, v);
            }
        }
    }
}

/// What a call gives is what the accumulator and the register for the third argument held when the
/// thread had executed the breakpoint that is handled, with the stack pointer just above the place where
/// the return address was put: not when another call of that function reached it.
pub proof fn law_call_gives(s: InferiorV, func: u64, args: Seq<u64>, replies: Seq<Reply>)
    requires
        orderly(s),
    ensures
        call_made(s, func, args, replies) matches Ran::Gives(v, _, _) ==> {
            &&& s.current_bp is Some
            &&& open_ran(call_begun(s, func, args, replies.take(2))) matches Some(Request::SetRegs(_, r))
                && return_seen(replies, s.current_bp.unwrap(), plus(r.rsp, 8), v)
        },
{
    law_call_begun(s, func, args, replies);
    law_again_call_begun(s, func, args, replies, Seq::empty());
    if let Ran::Gives(_, s1, rest) = call_begun(s, func, args, replies) {
        law_call_entry(s, func, args, replies, 0);
        let saved = replies[0]->Regs_0;
        law_entry_regs(saved, func, args, 0);
        lemma_lasted_gives(s1, rest);
        if let Ran::Gives(v, _, _) = call_lasted(s1, rest) {
            lemma_return_seen(replies, rest, s.current_bp.unwrap(), call_stack(saved.rsp), v);
        }
    }
}

// ---- what is set aside ----

/// While a call is on its way, exactly the armed breakpoints but the one that it returns to are set
/// aside, each with the byte that it stands for.
pub proof fn law_set_aside(breakpoints: Seq<(u64, Breakpoint)>, keep: u64, addr: u64, byte: u8)
    ensures
        others_armed(breakpoints, keep).contains((addr, byte)) <==> addr != keep && exists|i: int|
            0 <= i < breakpoints.len() && (#[trigger] breakpoints[i]).0 == addr && breakpoints[i].1.armed
                && breakpoints[i].1.original_byte == byte,
        others_armed(breakpoints, keep).len() <= breakpoints.len(),
    decreases breakpoints.len(),
{
    if breakpoints.len() > 0 {
        let short = breakpoints.drop_last();
        let last = breakpoints.last();
        let before = others_armed(short, keep);
        law_set_aside(short, keep, addr, byte);
        let list = others_armed(breakpoints, keep);
        if list.contains((addr, byte)) {
            let j = choose|j: int| 0 <= j < list.len() && list[j] == (addr, byte);
            if j < before.len() {
                assert(before[j] == (addr, byte));
                let i = choose|i: int|
                    0 <= i < short.len() && (#[trigger] short[i]).0 == addr && short[i].1.armed
                        && short[i].1.original_byte == byte;
                assert(breakpoints[i] == short[i]);
            } else {
                assert(breakpoints[breakpoints.len() - 1] == last);
            }
        }
        if addr != keep && exists|i: int|
            0 <= i < breakpoints.len() && (#[trigger] breakpoints[i]).0 == addr && breakpoints[i].1.armed
                && breakpoints[i].1.original_byte == byte {
            let i = choose|i: int|
                0 <= i < breakpoints.len() && (#[trigger] breakpoints[i]).0 == addr && breakpoints[i].1.armed
                    && breakpoints[i].1.original_byte == byte;
            if i < short.len() {
                assert(short[i] == breakpoints[i]);
                let j = choose|j: int| 0 <= j < before.len() && before[j] == (addr, byte);
                assert(list[j] == (addr, byte));
            } else {
                assert(list[before.len() as int] == (addr, byte));
            }
        }
    }
}

// ---- what becomes of a call ----

/// Where the thread of a call executed the breakpoint that the call returns to, but with another stack
/// pointer, the function was entered again from elsewhere: the thread is set back to the breakpoint, with
/// every other register as it is, and steps past it; the call goes on. It goes on as well where the
/// thread trapped anywhere else, with nothing asked but its registers.
pub proof fn law_call_reentered(s: InferiorV, call: Call, replies: Seq<Reply>, regs: Regs)
    requires
        replies.len() > 0,
        replies[0] == Reply::Regs(regs),
    ensures
        ({
            let at_trap = (call.trap + 1) % 0x1_0000_0000_0000_0000 == regs.rip;
            let status = WaitStatus::Stopped(call.tid, SIGTRAP);
            let r = call_status(s, call, status, replies);
            &&& open_ran(call_status(s, call, status, Seq::empty())) == Some(Request::GetRegs(call.tid))
            &&& !at_trap ==> (r matches Ran::Gives(None, _, rest) && rest == replies.drop_first())
            &&& at_trap && regs.rsp == call.expected_rsp ==> (r matches Ran::Gives(Some(v), _, rest) && v == (
                regs.rax,
                regs.rdx,
            ) && rest == replies.drop_first())
            &&& at_trap && regs.rsp != call.expected_rsp ==> {
                &&& open_ran(call_status(s, call, status, replies.take(1))) == Some(
                    Request::SetRegs(call.tid, Regs { rip: call.trap, ..regs }),
                )
                &&& !(r matches Ran::Gives(Some(_), _, _))
                &&& replies.len() > 1 && replies[1] == Reply::Done ==> {
                    let step = stepped_over(s.with_stopped(call.tid), call.tid, call.trap, replies.skip(2));
                    &&& open_ran(r) == open_ran(step)
                    &&& step matches Ran::Gives(_, s1, rest) ==> r == Ran::Gives(None::<(u64, u64)>, s1, rest)
                }
            }
        }),
{
    assert(replies.take(1).drop_first() =~= Seq::<Reply>::empty());
    assert(replies.take(1)[0] == replies[0]);
    if replies.len() > 1 {
        assert(replies.drop_first()[0] == replies[1]);
        assert(replies.drop_first().drop_first() =~= replies.skip(2));
    }
}

/// What becomes of any other thread during a call, and of the thread of the call otherwise, is as always;
/// but the end of the last thread is an error.
pub proof fn law_call_status_else(s: InferiorV, call: Call, status: WaitStatus, replies: Seq<Reply>)
    requires
        status != WaitStatus::Stopped(call.tid, SIGTRAP),
    ensures
        ({
            let usual = status_handled(s, status, replies);
            let r = call_status(s, call, status, replies);
            &&& open_ran(r) == open_ran(usual)
            &&& usual matches Ran::Gives(over, s1, rest) ==> r == (if over {
                Ran::Fails(TraceError::ExitedDuringCall, s1, rest)
            } else {
                Ran::Gives(None::<(u64, u64)>, s1, rest)
            })
            &&& usual matches Ran::Fails(e, s1, rest) ==> r == Ran::<Option<(u64, u64)>>::Fails(e, s1, rest)
        }),
{
}

/// A call that failed on its way is ended all the same, and what failed is told once it is.
pub proof fn law_failed_call_ended(s: InferiorV, func: u64, args: Seq<u64>, replies: Seq<Reply>)
    ensures
        call_begun(s, func, args, replies) matches Ran::Gives(_, s1, rest) ==> call_lasted(s1, rest) matches Ran::Fails(
            e,
            s2,
            rest2,
        ) ==> {
            &&& open_ran(call_made(s, func, args, replies)) == open_ran(call_ended(s2, rest2))
            &&& call_ended(s2, rest2) matches Ran::Gives(_, s3, rest3) ==> call_made(s, func, args, replies) == Ran::<
                (u64, u64),
            >::Fails(e, s3, rest3)
        },
{
}

/// A call is undone also where not every thread could be stopped; that is told once it is.
pub proof fn law_undone_anyway(s: InferiorV, replies: Seq<Reply>)
    requires
        s.call is Some,
    ensures
        ({
            let call = s.call.unwrap();
            let s0 = InferiorV { call: None, set_aside: Seq::empty(), ..s };
            world_stopped(s0, replies) matches Ran::Fails(e, s1, rest) ==> {
                let undone = call_undone(s1, call, s.set_aside, None, rest);
                &&& open_ran(call_ended(s, replies)) == open_ran(undone)
                &&& undone matches Ran::Gives(_, s2, rest2) ==> call_ended(s, replies) == Ran::<()>::Fails(e, s2, rest2)
            }
        }),
{
}

/// During a call it is in order that any thread stops at an event or is stopped by the tracer, and that
/// the thread of the call traps; all else is out of the ordinary.
pub proof fn law_unusual(status: WaitStatus, tid: i32)
    ensures
        status matches WaitStatus::Event(_, _) ==> !unusual_during_call(status, tid),
        status matches WaitStatus::Stopped(t, signal) ==> (unusual_during_call(status, tid) <==> signal != SIGSTOP && (
        signal != SIGTRAP || t != tid)),
        !(status is Event) && !(status is Stopped) ==> unusual_during_call(status, tid),
{
}

} // verus!
