//! Laws of the traced process: what holds of its state whatever the kernel replies.

use vstd::prelude::*;

use crate::calls::bytes_set;
use crate::calls::call_awaited;
use crate::calls::call_begun;
use crate::calls::call_ended;
use crate::calls::call_lasted;
use crate::calls::call_made;
use crate::calls::call_stack;
use crate::calls::call_undone;
use crate::calls::entry_regs;
use crate::calls::is_armed;
use crate::calls::others_armed;
use crate::calls::others_set_aside;
use crate::calls::traps;
use crate::inferior::armed_at;
use crate::inferior::breakpoint_set;
use crate::inferior::disarmed_at;
use crate::inferior::new_thread;
use crate::inferior::plus;
use crate::inferior::started;
use crate::inferior::untouched;
use crate::inferior::Breakpoint;
use crate::inferior::Call;
use crate::inferior::InferiorV;
use crate::inferior::Ran;
use crate::inferior::Thread;
use crate::regs::Regs;
use crate::stepping::step_tried;
use crate::stepping::stepped;
use crate::stepping::stepped_over;
use crate::stepping::StepTaken;
use crate::stepping::MAX_STEPS;
use crate::table::distinct;
use crate::table::holds_key;
use crate::table::lemma_position;
use crate::table::lemma_with_value;
use crate::table::lemma_without;
use crate::table::value_of;
use crate::table::without;
use crate::threads::all_resumed;
use crate::threads::awaited;
use crate::threads::has_hit;
use crate::threads::hits_without;
use crate::threads::interrupted;
use crate::threads::lemma_status_shorter;
use crate::threads::one_resumed;
use crate::threads::resumed;
use crate::threads::round_run;
use crate::threads::runs;
use crate::threads::status_handled;
use crate::threads::tids_where;
use crate::threads::world_stopped;
use crate::trace::lemma_waited_shorter;
use crate::trace::regs_read;
use crate::trace::regs_written;
use crate::trace::waited;
use crate::trace::word_written;
use crate::trace::Io;
use crate::trace::Reply;
use crate::trace::Request;
use crate::trace::WaitStatus;

verus! {

/// Whether the state of a traced process is in order: no thread and no breakpoint stands in it twice,
/// the most threads are no fewer than there are, every hit that was not handled yet is one of a thread
/// that is there, at a breakpoint that is there, and the breakpoint that is handled is there too.
pub open spec fn orderly(s: InferiorV) -> bool {
    &&& distinct(s.threads)
    &&& distinct(s.breakpoints)
    &&& s.threads.len() <= s.peak_threads
    &&& forall|i: int|
        0 <= i < s.pending_hits.len() ==> holds_key(s.threads, (#[trigger] s.pending_hits[i]).0) && holds_key(
            s.breakpoints,
            s.pending_hits[i].1,
        )
    &&& s.current_bp matches Some(addr) ==> holds_key(s.breakpoints, addr)
    &&& s.call matches Some(call) ==> holds_key(s.breakpoints, call.trap)
}

/// Whether what comes of an operation leaves the state in order.
pub open spec fn stays_orderly<T>(r: Ran<T>) -> bool {
    match r {
        Ran::Waits(_) => true,
        Ran::Fails(_, s, _) => orderly(s),
        Ran::Gives(_, s, _) => orderly(s),
    }
}

/// Whether two states agree in their breakpoints, in the call that is on its way, and in what is known
/// of the process as a whole: its number, and where it was loaded.
pub open spec fn same_but_threads(s: InferiorV, s1: InferiorV) -> bool {
    &&& s1.breakpoints == s.breakpoints
    &&& s1.call == s.call
    &&& s1.set_aside == s.set_aside
    &&& s1.pid == s.pid
    &&& s1.load_base == s.load_base
}

/// Whether what comes of an operation leaves the breakpoints as they were, the call that is on its way,
/// and what is known of the process as a whole.
pub open spec fn keeps_breakpoints<T>(s: InferiorV, r: Ran<T>) -> bool {
    match r {
        Ran::Waits(_) => true,
        Ran::Fails(_, s1, _) => same_but_threads(s, s1),
        Ran::Gives(_, s1, _) => same_but_threads(s, s1),
    }
}

// ---- changes of the state ----

/// A change to a thread that is there.
proof fn lemma_known_thread(s: InferiorV, tid: i32, t: Thread)
    requires
        orderly(s),
        holds_key(s.threads, tid),
    ensures
        orderly(s.with_thread(tid, t)),
        holds_key(s.with_thread(tid, t).threads, tid),
{
    lemma_with_value(s.threads, tid, t, tid);
    assert forall|i: int| 0 <= i < s.pending_hits.len() implies holds_key(
        s.with_thread(tid, t).threads,
        (#[trigger] s.pending_hits[i]).0,
    ) by {
        lemma_with_value(s.threads, tid, t, s.pending_hits[i].0);
    }
}

/// A thread that may be new.
proof fn lemma_any_thread(s: InferiorV, tid: i32, t: Thread)
    requires
        orderly(s),
    ensures
        orderly(s.with_thread(tid, t).counted()),
        holds_key(s.with_thread(tid, t).counted().threads, tid),
{
    lemma_with_value(s.threads, tid, t, tid);
    assert forall|i: int| 0 <= i < s.pending_hits.len() implies holds_key(
        s.with_thread(tid, t).threads,
        (#[trigger] s.pending_hits[i]).0,
    ) by {
        lemma_with_value(s.threads, tid, t, s.pending_hits[i].0);
    }
}

/// A breakpoint that is set, armed or disarmed.
proof fn lemma_breakpoint(s: InferiorV, addr: u64, bp: Breakpoint)
    requires
        orderly(s),
    ensures
        orderly(s.with_breakpoint(addr, bp)),
        value_of(s.with_breakpoint(addr, bp).breakpoints, addr) == Some(bp),
{
    lemma_with_value(s.breakpoints, addr, bp, addr);
    assert forall|i: int| 0 <= i < s.pending_hits.len() implies holds_key(
        s.with_breakpoint(addr, bp).breakpoints,
        (#[trigger] s.pending_hits[i]).1,
    ) by {
        lemma_with_value(s.breakpoints, addr, bp, s.pending_hits[i].1);
    }
    if let Some(at) = s.current_bp {
        lemma_with_value(s.breakpoints, addr, bp, at);
    }
    if let Some(call) = s.call {
        lemma_with_value(s.breakpoints, addr, bp, call.trap);
    }
}

/// The hits of all threads but one are hits of other threads.
proof fn lemma_hits_without(hits: Seq<(i32, u64)>, tid: i32)
    ensures
        forall|i: int|
            0 <= i < hits_without(hits, tid).len() ==> (#[trigger] hits_without(hits, tid)[i]).0 != tid
                && hits.contains(hits_without(hits, tid)[i]),
    decreases hits.len(),
{
    if hits.len() > 0 {
        let before = hits.drop_last();
        lemma_hits_without(before, tid);
        let r = hits_without(hits, tid);
        let r0 = hits_without(before, tid);
        assert forall|i: int| 0 <= i < r.len() implies (#[trigger] r[i]).0 != tid && hits.contains(r[i]) by {
            if i < r0.len() {
                assert(r[i] == r0[i]);
                let k = choose|k: int| 0 <= k < before.len() && before[k] == r0[i];
                assert(hits[k] == r[i]);
            } else {
                assert(r[i] == hits.last());
                assert(hits[hits.len() - 1] == r[i]);
            }
        }
    }
}

/// A thread that is forgotten.
proof fn lemma_forgotten(s: InferiorV, tid: i32)
    requires
        orderly(s),
    ensures
        orderly(s.forgotten(tid)),
        !holds_key(s.forgotten(tid).threads, tid),
        !has_hit(s.forgotten(tid).pending_hits, tid),
{
    lemma_without(s.threads, tid, tid);
    lemma_hits_without(s.pending_hits, tid);
    let s1 = s.forgotten(tid);
    assert forall|i: int| 0 <= i < s1.pending_hits.len() implies holds_key(
        s1.threads,
        (#[trigger] s1.pending_hits[i]).0,
    ) && holds_key(s1.breakpoints, s1.pending_hits[i].1) by {
        let hit = s1.pending_hits[i];
        assert(hits_without(s.pending_hits, tid)[i] == hit);
        let k = choose|k: int| 0 <= k < s.pending_hits.len() && s.pending_hits[k] == hit;
        assert(holds_key(s.threads, s.pending_hits[k].0));
        lemma_without(s.threads, tid, hit.0);
    }
}

/// A thread that has no hit and is taken out.
proof fn lemma_taken_out(s: InferiorV, tid: i32)
    requires
        orderly(s),
        !has_hit(s.pending_hits, tid),
    ensures
        orderly((InferiorV { threads: without(s.threads, tid), ..s })),
{
    lemma_without(s.threads, tid, tid);
    let s1 = InferiorV { threads: without(s.threads, tid), ..s };
    assert forall|i: int| 0 <= i < s1.pending_hits.len() implies holds_key(
        s1.threads,
        (#[trigger] s1.pending_hits[i]).0,
    ) && holds_key(s1.breakpoints, s1.pending_hits[i].1) by {
        assert(s.pending_hits[i].0 != tid);
        lemma_without(s.threads, tid, s.pending_hits[i].0);
    }
}

/// A thread that is known to have stopped.
proof fn lemma_stopped(s: InferiorV, tid: i32)
    requires
        orderly(s),
    ensures
        orderly(s.with_stopped(tid)),
        holds_key(s.with_stopped(tid).threads, tid),
        s.with_stopped(tid).breakpoints == s.breakpoints,
{
    match value_of(s.threads, tid) {
        Some(t) => {
            lemma_known_thread(s, tid, Thread { running: false, ..t });
        },
        None => {
            lemma_any_thread(s, tid, new_thread());
        },
    }
}

/// A change to a thread, if it is known.
proof fn lemma_changed(s: InferiorV, tid: i32, change: spec_fn(Thread) -> Thread)
    requires
        orderly(s),
    ensures
        orderly(s.with_changed(tid, change)),
{
    if let Some(t) = value_of(s.threads, tid) {
        lemma_known_thread(s, tid, change(t));
    }
}

/// A thread that was started.
proof fn lemma_new(s: InferiorV, tid: i32)
    requires
        orderly(s),
    ensures
        orderly(s.with_new(tid)),
{
    lemma_any_thread(s, tid, new_thread());
}

// ---- laws ----

/// A process of which nothing is known is in order.
pub proof fn law_untouched_orderly(pid: i32)
    ensures
        orderly(untouched(pid)),
{
}

/// Waiting for the start of the process leaves the state in order.
pub proof fn law_start_orderly(s: InferiorV, replies: Seq<Reply>)
    requires
        orderly(s),
    ensures
        stays_orderly(started(s, replies)),
        keeps_breakpoints(s, started(s, replies)),
{
    lemma_any_thread(s, s.pid, crate::inferior::first_thread());
}

/// Arming and disarming leave the state in order.
pub proof fn law_arm_orderly(s: InferiorV, addr: u64, replies: Seq<Reply>)
    requires
        orderly(s),
    ensures
        stays_orderly(armed_at(s, addr, replies)),
        stays_orderly(disarmed_at(s, addr, replies)),
{
    if let Some(bp) = value_of(s.breakpoints, addr) {
        lemma_breakpoint(s, addr, Breakpoint { armed: true, ..bp });
        lemma_breakpoint(s, addr, Breakpoint { armed: false, ..bp });
    }
}

/// Setting a breakpoint leaves the state in order, and once it has succeeded the breakpoint is there,
/// armed if that was wanted.
pub proof fn law_set_breakpoint_orderly(s: InferiorV, static_addr: u64, armed: bool, replies: Seq<Reply>)
    requires
        orderly(s),
    ensures
        stays_orderly(breakpoint_set(s, static_addr, armed, replies)),
        breakpoint_set(s, static_addr, armed, replies) matches Ran::Gives(addr, s1, rest) ==> {
            &&& addr == plus(static_addr, s.load_base as int)
            &&& holds_key(s1.breakpoints, addr)
            &&& armed ==> is_armed(s1, addr)
        },
{
    let addr = plus(static_addr, s.load_base as int);
    law_arm_orderly(s, addr, replies);
    if let Some(bp) = value_of(s.breakpoints, addr) {
        lemma_with_value(s.breakpoints, addr, Breakpoint { armed: true, ..bp }, addr);
    } else {
        match crate::trace::word_read(s.tracee(), addr, replies) {
            Io::Gives(word, rest) => {
                let bp = Breakpoint { original_byte: (word % 0x100) as u8, armed: false };
                let s1 = s.with_breakpoint(addr, bp);
                lemma_breakpoint(s, addr, bp);
                law_arm_orderly(s1, addr, rest);
                lemma_with_value(s1.breakpoints, addr, Breakpoint { armed: true, ..bp }, addr);
            },
            _ => {},
        }
    }
}

/// Learning what became of a thread leaves the state in order and the breakpoints as they are. A
/// thread that ended is gone, and its hits with it.
pub proof fn law_status_orderly(s: InferiorV, status: WaitStatus, replies: Seq<Reply>)
    requires
        orderly(s),
    ensures
        stays_orderly(status_handled(s, status, replies)),
        keeps_breakpoints(s, status_handled(s, status, replies)),
        status matches WaitStatus::Exited(tid, code) ==> {
            &&& status_handled(s, status, replies) matches Ran::Gives(left, s1, rest)
            &&& !holds_key(s1.threads, tid)
            &&& !has_hit(s1.pending_hits, tid)
            &&& tid == s.pid ==> s1.exit_code == Some(code)
        },
{
    match status {
        WaitStatus::Exited(tid, code) => {
            lemma_forgotten(s, tid);
        },
        WaitStatus::Signaled(tid, signal) => {
            lemma_forgotten(s, tid);
        },
        WaitStatus::Event(tid, event) => {
            lemma_stopped(s, tid);
            let s1 = s.with_stopped(tid);
            match crate::trace::message_read(tid, replies) {
                Io::Gives(m, rest) => {
                    lemma_new(s1, m as i32);
                },
                _ => {},
            }
        },
        WaitStatus::Stopped(tid, signal) => {
            lemma_stopped(s, tid);
            let s1 = s.with_stopped(tid);
            if let Some(t) = value_of(s1.threads, tid) {
                lemma_known_thread(s1, tid, Thread { sigstop_sent: false, ..t });
                lemma_known_thread(s1, tid, Thread { pending_signal: Some(signal), ..t });
            }
        },
        WaitStatus::Other => {},
    }
}

/// Letting a thread go on leaves the state in order.
proof fn lemma_one_resumed(s: InferiorV, tid: i32, replies: Seq<Reply>)
    requires
        orderly(s),
    ensures
        stays_orderly(one_resumed(s, tid, replies)),
        keeps_breakpoints(s, one_resumed(s, tid, replies)),
{
    if !has_hit(s.pending_hits, tid) {
        if let Some(t) = value_of(s.threads, tid) {
            let quiet = Thread { pending_signal: None, ..t };
            lemma_known_thread(s, tid, quiet);
            let s1 = s.with_thread(tid, quiet);
            lemma_known_thread(s1, tid, Thread { running: true, pending_signal: None, ..t });
            lemma_taken_out(s1, tid);
        }
    }
}

/// Letting threads go on leaves the state in order and the breakpoints as they are.
pub proof fn law_resume_orderly(s: InferiorV, tids: Seq<i32>, replies: Seq<Reply>)
    requires
        orderly(s),
    ensures
        stays_orderly(resumed(s, tids, replies)),
        keeps_breakpoints(s, resumed(s, tids, replies)),
    decreases tids.len(),
{
    if tids.len() > 0 {
        lemma_one_resumed(s, tids[0], replies);
        match one_resumed(s, tids[0], replies) {
            Ran::Gives(_, s1, rest) => {
                law_resume_orderly(s1, tids.drop_first(), rest);
            },
            _ => {},
        }
    }
}

/// Asking for threads to be stopped leaves the state in order.
proof fn lemma_interrupted(s: InferiorV, tids: Seq<i32>, replies: Seq<Reply>)
    requires
        orderly(s),
    ensures
        stays_orderly(interrupted(s, tids, replies)),
        keeps_breakpoints(s, interrupted(s, tids, replies)),
    decreases tids.len(),
{
    if tids.len() > 0 && replies.len() > 0 {
        let change = |t: Thread| Thread { sigstop_sent: true, ..t };
        lemma_changed(s, tids[0], change);
        let s1 = if replies[0] == Reply::Done {
            s.with_changed(tids[0], change)
        } else {
            s
        };
        lemma_interrupted(s1, tids.drop_first(), replies.drop_first());
    }
}

/// Waiting for threads to stop leaves the state in order; once it has succeeded, the first of them
/// does not run, unless another was waited for after it.
proof fn lemma_awaited(s: InferiorV, tids: Seq<i32>, replies: Seq<Reply>)
    requires
        orderly(s),
    ensures
        stays_orderly(awaited(s, tids, replies)),
        keeps_breakpoints(s, awaited(s, tids, replies)),
    decreases replies.len(), tids.len(),
{
    if tids.len() > 0 {
        if !runs(s, tids[0]) {
            lemma_awaited(s, tids.drop_first(), replies);
        } else {
            lemma_waited_shorter(Request::WaitThread(tids[0]), replies);
            match waited(Request::WaitThread(tids[0]), replies) {
                Io::Gives(status, rest) => {
                    law_status_orderly(s, status, rest);
                    lemma_status_shorter(s, status, rest);
                    match status_handled(s, status, rest) {
                        Ran::Gives(_, s1, rest) => {
                            lemma_awaited(s1, tids, rest);
                        },
                        _ => {},
                    }
                },
                _ => {},
            }
        }
    }
}

/// Stopping all threads leaves the state in order and the breakpoints as they are.
pub proof fn law_stop_world_orderly(s: InferiorV, replies: Seq<Reply>)
    requires
        orderly(s),
    ensures
        stays_orderly(world_stopped(s, replies)),
        keeps_breakpoints(s, world_stopped(s, replies)),
{
    let tids = tids_where(s.threads, true);
    lemma_interrupted(s, tids, replies);
    match interrupted(s, tids, replies) {
        Ran::Gives(_, s1, rest) => {
            lemma_awaited(s1, tids, rest);
        },
        _ => {},
    }
}

/// Running leaves the state in order and the breakpoints as they are. A hit that is reported is one at
/// a breakpoint, of a thread that is there.
pub proof fn law_run_orderly(s: InferiorV, replies: Seq<Reply>)
    requires
        orderly(s),
    ensures
        stays_orderly(round_run(s, replies)),
        keeps_breakpoints(s, round_run(s, replies)),
        round_run(s, replies) matches Ran::Gives(Some(crate::inferior::Stop::Hit(tid, addr)), s1, rest) ==> {
            &&& holds_key(s1.threads, tid)
            &&& holds_key(s1.breakpoints, addr)
            &&& s1.current == Some(tid)
            &&& s1.current_bp == Some(addr)
        },
{
    if s.pending_hits.len() > 0 {
        let s1 = crate::threads::hit_taken(s);
        assert(holds_key(s.threads, s.pending_hits[0].0));
        assert forall|i: int| 0 <= i < s1.pending_hits.len() implies holds_key(
            s1.threads,
            (#[trigger] s1.pending_hits[i]).0,
        ) && holds_key(s1.breakpoints, s1.pending_hits[i].1) by {
            assert(s1.pending_hits[i] == s.pending_hits[i + 1]);
        }
    } else if s.threads.len() > 0 {
        law_resume_orderly(s, tids_where(s.threads, false), replies);
        match all_resumed(s, replies) {
            Ran::Gives(_, s1, rest) => {
                if rest.len() > 0 {
                    if let Reply::Status(status) = rest[0] {
                        law_status_orderly(s1, status, rest.drop_first());
                        match status_handled(s1, status, rest.drop_first()) {
                            Ran::Gives(_, s2, rest) => {
                                law_stop_world_orderly(s2, rest);
                            },
                            _ => {},
                        }
                    }
                }
            },
            _ => {},
        }
    }
}

/// Asking a thread to step leaves the state in order.
pub proof fn lemma_step_tried(s: InferiorV, tid: i32, replies: Seq<Reply>)
    requires
        orderly(s),
    ensures
        stays_orderly(step_tried(s, tid, replies)),
        keeps_breakpoints(s, step_tried(s, tid, replies)),
{
    match crate::trace::asked(Request::Step(tid), replies, |r: Reply| crate::trace::as_done(r)) {
        Io::Gives(_, rest) => match waited(Request::WaitThread(tid), rest) {
            Io::Gives(status, rest) => {
                match status {
                    WaitStatus::Exited(t, code) => {
                        lemma_forgotten(s, t);
                    },
                    WaitStatus::Stopped(_, signal) => {
                        if let Some(t) = value_of(s.threads, tid) {
                            lemma_known_thread(s, tid, Thread { sigstop_sent: false, ..t });
                            lemma_known_thread(s, tid, Thread { pending_signal: Some(signal), ..t });
                        }
                    },
                    WaitStatus::Event(_, event) => match crate::trace::message_read(tid, rest) {
                        Io::Gives(m, rest) => {
                            lemma_new(s, m as i32);
                        },
                        _ => {},
                    },
                    _ => {},
                }
            },
            _ => {},
        },
        _ => {},
    }
}

/// Asking a thread to step, again and again, leaves the state in order.
proof fn lemma_stepped(s: InferiorV, tid: i32, addr: u64, tries: nat, replies: Seq<Reply>)
    requires
        orderly(s),
    ensures
        stays_orderly(stepped(s, tid, addr, tries, replies)),
        keeps_breakpoints(s, stepped(s, tid, addr, tries, replies)),
    decreases tries,
{
    if tries > 0 {
        lemma_step_tried(s, tid, replies);
        match step_tried(s, tid, replies) {
            Ran::Gives(StepTaken::Again, s1, rest) => {
                lemma_stepped(s1, tid, addr, (tries - 1) as nat, rest);
            },
            _ => {},
        }
    }
}

/// Stepping a thread past a breakpoint leaves the state in order and the breakpoints as they are.
pub proof fn law_step_orderly(s: InferiorV, tid: i32, addr: u64, replies: Seq<Reply>)
    requires
        orderly(s),
    ensures
        stays_orderly(stepped_over(s, tid, addr, replies)),
        keeps_breakpoints(s, stepped_over(s, tid, addr, replies)),
{
    if let Some(bp) = value_of(s.breakpoints, addr) {
        match crate::inferior::byte_set(tid, addr, bp.original_byte, replies) {
            Io::Gives(_, rest) => {
                lemma_stepped(s, tid, addr, MAX_STEPS as nat, rest);
                match stepped(s, tid, addr, MAX_STEPS as nat, rest) {
                    Ran::Gives(there, s1, rest) => {
                        lemma_changed(s1, tid, |t: Thread| Thread { running: false, ..t });
                    },
                    _ => {},
                }
            },
            _ => {},
        }
    }
}

// ---- calls ----

/// Once a call has begun, the thread and the breakpoint that are handled are those of the call, and the
/// breakpoint is armed. Nothing else of the breakpoints has changed.
pub proof fn law_call_begun(s: InferiorV, func: u64, args: Seq<u64>, replies: Seq<Reply>)
    requires
        orderly(s),
    ensures
        stays_orderly(call_begun(s, func, args, replies)),
        call_begun(s, func, args, replies) matches Ran::Gives(_, s1, rest) ==> {
            &&& s1.call matches Some(call)
            &&& s.current == Some(call.tid)
            &&& s.current_bp == Some(call.trap)
            &&& call.trap_was_armed == is_armed(s, call.trap)
            &&& is_armed(s1, call.trap)
            &&& s1.breakpoints == s.with_armed(call.trap, true).breakpoints
            &&& call.trap_was_armed ==> s1.breakpoints == s.breakpoints
            &&& s1.set_aside == others_armed(s1.breakpoints, call.trap)
        },
{
    if s.current is Some && s.current_bp is Some {
        let tid = s.current.unwrap();
        let trap = s.current_bp.unwrap();
        lemma_position(s.breakpoints, trap);
        if let Some(bp) = value_of(s.breakpoints, trap) {
            lemma_breakpoint(s, trap, Breakpoint { armed: true, ..bp });
            lemma_with_value(s.breakpoints, trap, Breakpoint { armed: true, ..bp }, trap);
            if bp.armed {
                assert(s.with_armed(trap, true).breakpoints =~= s.breakpoints);
            }
        }
        match regs_read(tid, replies) {
            Io::Gives(saved, rest) => match word_written(tid, plus(call_stack(saved.rsp), -8), trap, rest) {
                Io::Gives(_, rest) => match regs_written(tid, entry_regs(saved, func, args), rest) {
                    Io::Gives(_, rest) => {
                        let call = Call {
                            tid,
                            trap,
                            expected_rsp: call_stack(saved.rsp),
                            saved,
                            trap_was_armed: is_armed(s, trap),
                        };
                        lemma_set_aside_orderly(s, call, rest);
                        match armed_at(s, trap, rest) {
                            Ran::Gives(_, s1, rest) => {
                                lemma_set_aside_orderly(s1, call, rest);
                            },
                            _ => {},
                        }
                    },
                    _ => {},
                },
                _ => {},
            },
            _ => {},
        }
    }
}

/// Getting the other breakpoints out of the way leaves the state in order.
proof fn lemma_set_aside_orderly(s: InferiorV, call: Call, replies: Seq<Reply>)
    requires
        orderly(s),
        holds_key(s.breakpoints, call.trap),
    ensures
        stays_orderly(others_set_aside(s, call, replies)),
        others_set_aside(s, call, replies) matches Ran::Gives(_, s1, rest) ==> {
            &&& s1.breakpoints == s.breakpoints
            &&& s1.call == Some(call)
            &&& s1.set_aside == others_armed(s.breakpoints, call.trap)
        },
{
    let list = others_armed(s.breakpoints, call.trap);
    let s1 = InferiorV { call: Some(call), set_aside: list, ..s };
    assert(orderly(s1));
    lemma_changed(s1, call.tid, |t: Thread| Thread { running: false, ..t });
}

/// Waiting for a call leaves the state in order and the breakpoints as they are.
pub proof fn law_call_await_orderly(s: InferiorV, replies: Seq<Reply>)
    requires
        orderly(s),
    ensures
        stays_orderly(call_awaited(s, replies)),
        keeps_breakpoints(s, call_awaited(s, replies)),
{
    if let Some(call) = s.call {
        law_resume_orderly(s, tids_where(s.threads, false), replies);
        match all_resumed(s, replies) {
            Ran::Gives(_, s1, rest) => match waited(Request::WaitAny, rest) {
                Io::Gives(status, rest) => {
                    law_status_orderly(s1, status, rest);
                    lemma_stopped(s1, call.tid);
                    let s2 = s1.with_stopped(call.tid);
                    match regs_read(call.tid, rest) {
                        Io::Gives(regs, rest) => match regs_written(
                            call.tid,
                            Regs { rip: call.trap, ..regs },
                            rest,
                        ) {
                            Io::Gives(_, rest) => {
                                law_step_orderly(s2, call.tid, call.trap, rest);
                            },
                            _ => {},
                        },
                        _ => {},
                    }
                },
                _ => {},
            },
            _ => {},
        }
    }
}

/// Ending a call leaves the state in order, and no call behind.
pub proof fn law_call_end_orderly(s: InferiorV, replies: Seq<Reply>)
    requires
        orderly(s),
        s.call is Some,
    ensures
        stays_orderly(call_ended(s, replies)),
{
    let call = s.call.unwrap();
    let s0 = InferiorV { call: None, set_aside: Seq::empty(), ..s };
    assert(orderly(s0));
    law_stop_world_orderly(s0, replies);
    match world_stopped(s0, replies) {
        Ran::Waits(_) => {},
        Ran::Fails(e, s1, rest) => {
            lemma_undone_orderly(s1, call, s.set_aside, Some(e), rest);
        },
        Ran::Gives(_, s1, rest) => {
            lemma_undone_orderly(s1, call, s.set_aside, None, rest);
        },
    }
}

/// Putting breakpoints and registers back leaves the state in order.
proof fn lemma_undone_orderly(
    s: InferiorV,
    call: Call,
    list: Seq<(u64, u8)>,
    stopped: Option<crate::trace::TraceError>,
    replies: Seq<Reply>,
)
    requires
        orderly(s),
    ensures
        stays_orderly(call_undone(s, call, list, stopped, replies)),
{
    match bytes_set(s.tracee(), traps(list), replies) {
        Io::Gives(_, rest) => {
            law_arm_orderly(s, call.trap, rest);
        },
        _ => {},
    }
}

/// A call leaves the breakpoints as they were: `s` is the state before it, `s1` that once it has begun,
/// and `s2` that in which it is ended, with whatever became of the threads in between.
pub proof fn law_call_keeps_breakpoints(
    s: InferiorV,
    func: u64,
    args: Seq<u64>,
    replies: Seq<Reply>,
    s1: InferiorV,
    rest: Seq<Reply>,
    s2: InferiorV,
    more: Seq<Reply>,
)
    requires
        orderly(s),
        orderly(s2),
        call_begun(s, func, args, replies) == Ran::Gives((), s1, rest),
        s2.breakpoints == s1.breakpoints,
        s2.call == s1.call,
    ensures
        call_ended(s2, more) matches Ran::Gives(_, s3, left) ==> s3.breakpoints == s.breakpoints,
{
    law_call_begun(s, func, args, replies);
    let call = s1.call.unwrap();
    let s0 = InferiorV { call: None, set_aside: Seq::empty(), ..s2 };
    assert(orderly(s0));
    law_stop_world_orderly(s0, more);
    match world_stopped(s0, more) {
        Ran::Gives(_, s3, left) => {
            assert(s3.breakpoints == s1.breakpoints);
            if !call.trap_was_armed {
                let bp = value_of(s.breakpoints, call.trap).unwrap();
                lemma_position(s.breakpoints, call.trap);
                let on = Breakpoint { armed: true, ..bp };
                lemma_with_value(s.breakpoints, call.trap, on, call.trap);
                assert(value_of(s3.breakpoints, call.trap) == Some(on));
                lemma_armed_and_back(s, s3, call.trap);
            }
        },
        _ => {},
    }
}

/// A breakpoint that is armed and disarmed again is as it was.
proof fn lemma_armed_and_back(s: InferiorV, s3: InferiorV, addr: u64)
    requires
        orderly(s),
        value_of(s.breakpoints, addr) matches Some(bp) && !bp.armed,
        s3.breakpoints == s.with_armed(addr, true).breakpoints,
    ensures
        s3.with_armed(addr, false).breakpoints == s.breakpoints,
{
    let bp = value_of(s.breakpoints, addr).unwrap();
    let on = Breakpoint { armed: true, ..bp };
    lemma_position(s.breakpoints, addr);
    let i = crate::table::position(s.breakpoints, addr).unwrap();
    lemma_with_value(s.breakpoints, addr, on, addr);
    let on_list = s3.breakpoints;
    assert(on_list =~= s.breakpoints.update(i, (addr, on)));
    lemma_position(on_list, addr);
    let k = crate::table::position(on_list, addr).unwrap();
    if k != i {
        if k < i {
            assert(on_list[k].0 != on_list[i].0);
        } else {
            assert(on_list[i].0 != on_list[k].0);
        }
    }
    assert(s3.with_armed(addr, false).breakpoints =~= s.breakpoints);
}

// ---- stopping ----

/// Learning what became of a thread never makes one run.
proof fn lemma_status_runs(s: InferiorV, status: WaitStatus, replies: Seq<Reply>, tid: i32)
    requires
        orderly(s),
    ensures
        match status_handled(s, status, replies) {
            Ran::Gives(_, s1, _) => runs(s1, tid) ==> runs(s, tid),
            _ => true,
        },
{
    match status {
        WaitStatus::Exited(t, _) => {
            lemma_without(s.threads, t, tid);
        },
        WaitStatus::Signaled(t, _) => {
            lemma_without(s.threads, t, tid);
        },
        WaitStatus::Event(t, _) => {
            lemma_stopped_runs(s, t, tid);
            let s1 = s.with_stopped(t);
            match crate::trace::message_read(t, replies) {
                Io::Gives(m, rest) => {
                    lemma_with_value(s1.threads, m as i32, new_thread(), tid);
                    lemma_with_value(s1.threads, m as i32, new_thread(), m as i32);
                },
                _ => {},
            }
        },
        WaitStatus::Stopped(t, signal) => {
            lemma_stopped_runs(s, t, tid);
            let s1 = s.with_stopped(t);
            if let Some(th) = value_of(s1.threads, t) {
                lemma_with_value(s1.threads, t, Thread { sigstop_sent: false, ..th }, tid);
                lemma_with_value(s1.threads, t, Thread { pending_signal: Some(signal), ..th }, tid);
                lemma_with_value(s1.threads, t, Thread { sigstop_sent: false, ..th }, t);
                lemma_with_value(s1.threads, t, Thread { pending_signal: Some(signal), ..th }, t);
            }
        },
        WaitStatus::Other => {},
    }
}

/// A thread that has stopped makes no other run.
proof fn lemma_stopped_runs(s: InferiorV, t: i32, tid: i32)
    ensures
        runs(s.with_stopped(t), tid) ==> runs(s, tid),
{
    match value_of(s.threads, t) {
        Some(th) => {
            lemma_with_value(s.threads, t, Thread { running: false, ..th }, tid);
            lemma_with_value(s.threads, t, Thread { running: false, ..th }, t);
        },
        None => {
            lemma_with_value(s.threads, t, new_thread(), tid);
            lemma_with_value(s.threads, t, new_thread(), t);
        },
    }
}

/// Once some threads were waited for, only those run that ran and are not among them.
proof fn lemma_awaited_runs(s: InferiorV, tids: Seq<i32>, replies: Seq<Reply>, tid: i32)
    requires
        orderly(s),
    ensures
        match awaited(s, tids, replies) {
            Ran::Gives(_, s1, _) => runs(s1, tid) ==> runs(s, tid) && !tids.contains(tid),
            _ => true,
        },
    decreases replies.len(), tids.len(),
{
    if tids.len() > 0 {
        if !runs(s, tids[0]) {
            lemma_awaited_runs(s, tids.drop_first(), replies, tid);
            if tids.contains(tid) && tid != tids[0] {
                let i = choose|i: int| 0 <= i < tids.len() && tids[i] == tid;
                assert(tids.drop_first()[i - 1] == tid);
            }
        } else {
            lemma_waited_shorter(Request::WaitThread(tids[0]), replies);
            match waited(Request::WaitThread(tids[0]), replies) {
                Io::Gives(status, rest) => {
                    law_status_orderly(s, status, rest);
                    lemma_status_shorter(s, status, rest);
                    lemma_status_runs(s, status, rest, tid);
                    match status_handled(s, status, rest) {
                        Ran::Gives(_, s1, rest) => {
                            lemma_awaited_runs(s1, tids, rest, tid);
                        },
                        _ => {},
                    }
                },
                _ => {},
            }
        }
    }
}

/// Asking for threads to be stopped makes none run.
proof fn lemma_interrupted_runs(s: InferiorV, tids: Seq<i32>, replies: Seq<Reply>, tid: i32)
    requires
        orderly(s),
    ensures
        match interrupted(s, tids, replies) {
            Ran::Gives(_, s1, _) => runs(s1, tid) ==> runs(s, tid),
            _ => true,
        },
    decreases tids.len(),
{
    if tids.len() > 0 && replies.len() > 0 {
        let change = |t: Thread| Thread { sigstop_sent: true, ..t };
        lemma_changed(s, tids[0], change);
        let s1 = if replies[0] == Reply::Done {
            s.with_changed(tids[0], change)
        } else {
            s
        };
        if let Some(t) = value_of(s.threads, tids[0]) {
            lemma_with_value(s.threads, tids[0], Thread { sigstop_sent: true, ..t }, tid);
            lemma_with_value(s.threads, tids[0], Thread { sigstop_sent: true, ..t }, tids[0]);
        }
        lemma_interrupted_runs(s1, tids.drop_first(), replies.drop_first(), tid);
    }
}

/// Every thread that runs is among those that run.
proof fn lemma_tids_where(threads: Seq<(i32, Thread)>, i: int)
    requires
        0 <= i < threads.len(),
    ensures
        tids_where(threads, threads[i].1.running).contains(threads[i].0),
    decreases threads.len(),
{
    let running = threads[i].1.running;
    let before = threads.drop_last();
    let r = tids_where(threads, running);
    let r0 = tids_where(before, running);
    if i < threads.len() - 1 {
        lemma_tids_where(before, i);
        let k = choose|k: int| 0 <= k < r0.len() && r0[k] == threads[i].0;
        assert(r[k] == threads[i].0);
    } else {
        assert(r.last() == threads[i].0);
        assert(r[r.len() - 1] == threads[i].0);
    }
}

/// Once all threads were stopped, none runs.
pub proof fn law_stopped_world(s: InferiorV, replies: Seq<Reply>)
    requires
        orderly(s),
    ensures
        world_stopped(s, replies) matches Ran::Gives(_, s1, rest) ==> forall|tid: i32| !#[trigger] runs(s1, tid),
{
    let tids = tids_where(s.threads, true);
    match world_stopped(s, replies) {
        Ran::Gives(_, s1, rest) => {
            assert forall|tid: i32| !#[trigger] runs(s1, tid) by {
                lemma_interrupted(s, tids, replies);
                lemma_interrupted_runs(s, tids, replies, tid);
                match interrupted(s, tids, replies) {
                    Ran::Gives(_, s0, rest0) => {
                        lemma_awaited_runs(s0, tids, rest0, tid);
                        if runs(s, tid) {
                            lemma_position(s.threads, tid);
                            lemma_tids_where(s.threads, crate::table::position(s.threads, tid).unwrap());
                        }
                    },
                    _ => {},
                }
            }
        },
        _ => {},
    }
}

/// Waiting for a call until it has given something leaves the state in order and the breakpoints as they
/// are.
pub proof fn lemma_lasted_orderly(s: InferiorV, replies: Seq<Reply>)
    requires
        orderly(s),
    ensures
        stays_orderly(call_lasted(s, replies)),
        keeps_breakpoints(s, call_lasted(s, replies)),
    decreases replies.len(),
{
    law_call_await_orderly(s, replies);
    if let Ran::Gives(None, s1, rest) = call_awaited(s, replies) {
        if rest.len() < replies.len() {
            lemma_lasted_orderly(s1, rest);
        }
    }
}

/// Ending a call leaves none on its way.
proof fn lemma_ended_none(s: InferiorV, replies: Seq<Reply>)
    requires
        orderly(s),
    ensures
        call_ended(s, replies) matches Ran::Gives(_, s1, _) ==> s1.call is None && s1.load_base == s.load_base,
{
    let s0 = InferiorV { call: None, set_aside: Seq::empty(), ..s };
    assert(orderly(s0));
    law_stop_world_orderly(s0, replies);
}

/// Calling a function leaves the state in order. Once the function has returned, no call is on its way
/// and the breakpoints are as they were before.
pub proof fn law_call_made(s: InferiorV, func: u64, args: Seq<u64>, replies: Seq<Reply>)
    requires
        orderly(s),
    ensures
        stays_orderly(call_made(s, func, args, replies)),
        call_made(s, func, args, replies) matches Ran::Gives(_, s1, _) ==> {
            &&& s1.breakpoints == s.breakpoints
            &&& s1.load_base == s.load_base
            &&& s1.call is None
        },
{
    law_call_begun(s, func, args, replies);
    if let Ran::Gives(_, s1, rest) = call_begun(s, func, args, replies) {
        lemma_begun_base(s, func, args, replies);
        lemma_lasted_orderly(s1, rest);
        match call_lasted(s1, rest) {
            Ran::Waits(_) => {},
            Ran::Fails(_, s2, rest2) => {
                law_call_end_orderly(s2, rest2);
            },
            Ran::Gives(_, s2, rest2) => {
                law_call_end_orderly(s2, rest2);
                lemma_ended_none(s2, rest2);
                law_call_keeps_breakpoints(s, func, args, replies, s1, rest, s2, rest2);
            },
        }
    }
}

/// Beginning a call does not move the process.
proof fn lemma_begun_base(s: InferiorV, func: u64, args: Seq<u64>, replies: Seq<Reply>)
    ensures
        call_begun(s, func, args, replies) matches Ran::Gives(_, s1, _) ==> s1.load_base == s.load_base,
{
}

} // verus!
