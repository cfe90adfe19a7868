//! Laws of stopping: while a hook is handled, no thread of the target runs.

use vstd::prelude::*;

use crate::calls::bytes_set;
use crate::calls::call_begun;
use crate::calls::call_ended;
use crate::calls::call_lasted;
use crate::calls::call_made;
use crate::calls::call_undone;
use crate::calls::traps;
use crate::inferior::byte_set;
use crate::inferior::disarmed_at;
use crate::inferior::new_thread;
use crate::inferior::Call;
use crate::inferior::InferiorV;
use crate::inferior::Ran;
use crate::inferior::Stop;
use crate::inferior::Thread;
use crate::orderly::law_call_begun;
use crate::orderly::law_resume_orderly;
use crate::orderly::law_status_orderly;
use crate::orderly::law_stop_world_orderly;
use crate::orderly::law_stopped_world;
use crate::orderly::lemma_lasted_orderly;
use crate::orderly::lemma_step_tried;
use crate::orderly::orderly;
use crate::stepping::step_tried;
use crate::stepping::stepped;
use crate::stepping::stepped_over;
use crate::stepping::with_halted;
use crate::stepping::StepTaken;
use crate::stepping::MAX_STEPS;
use crate::table::lemma_position;
use crate::table::lemma_with_value;
use crate::table::lemma_without;
use crate::table::value_of;
use crate::threads::one_resumed;
use crate::threads::resumed;
use crate::threads::round_run;
use crate::threads::runs;
use crate::threads::status_handled;
use crate::threads::tids_where;
use crate::threads::world_stopped;
use crate::trace::as_status;
use crate::trace::message_read;
use crate::trace::waited;
use crate::trace::Io;
use crate::trace::Reply;
use crate::trace::Request;
use crate::trace::TraceError;
use crate::trace::WaitStatus;

verus! {

/// Whether no thread runs.
pub open spec fn all_stopped(s: InferiorV) -> bool {
    forall|tid: i32| !#[trigger] runs(s, tid)
}

/// Whether no thread runs while a hit is still to be handled.
pub open spec fn stopped_at_hits(s: InferiorV) -> bool {
    s.pending_hits.len() > 0 ==> all_stopped(s)
}

/// Letting threads go on adds no hits.
proof fn lemma_resumed_hits(s: InferiorV, tids: Seq<i32>, replies: Seq<Reply>)
    ensures
        resumed(s, tids, replies) matches Ran::Gives(_, s1, _) ==> s1.pending_hits == s.pending_hits,
    decreases tids.len(),
{
    if tids.len() > 0 {
        if let Ran::Gives(_, s1, rest) = one_resumed(s, tids[0], replies) {
            lemma_resumed_hits(s1, tids.drop_first(), rest);
        }
    }
}

/// Where there are no threads, none runs.
proof fn lemma_none_runs(s: InferiorV)
    requires
        s.threads.len() == 0,
    ensures
        all_stopped(s),
{
    assert forall|tid: i32| !#[trigger] runs(s, tid) by {
        lemma_position(s.threads, tid);
    }
}

/// When a round of running has led to a hit, no thread runs; and none runs as long as hits are still to
/// be handled.
pub proof fn law_hit_stops_all(s: InferiorV, replies: Seq<Reply>)
    requires
        orderly(s),
        stopped_at_hits(s),
    ensures
        round_run(s, replies) matches Ran::Gives(stop, s1, _) ==> {
            &&& stopped_at_hits(s1)
            &&& stop matches Some(Stop::Hit(_, _)) ==> all_stopped(s1)
        },
{
    if s.pending_hits.len() > 0 {
        if let Ran::Gives(_, s1, _) = round_run(s, replies) {
            assert forall|tid: i32| !#[trigger] runs(s1, tid) by {
                assert(!runs(s, tid));
            }
        }
    } else if s.threads.len() > 0 {
        let tids = tids_where(s.threads, false);
        law_resume_orderly(s, tids, replies);
        lemma_resumed_hits(s, tids, replies);
        if let Ran::Gives(_, s1, rest) = resumed(s, tids, replies) {
            if rest.len() > 0 {
                if let Ok(status) = as_status(rest[0]) {
                    law_status_orderly(s1, status, rest.drop_first());
                    if let Ran::Gives(exited, s2, rest2) = status_handled(s1, status, rest.drop_first()) {
                        if exited {
                            lemma_exited(s1, status, rest.drop_first());
                            lemma_none_runs(s2);
                        } else if s2.pending_hits.len() > 0 {
                            law_stopped_world(s2, rest2);
                        }
                    }
                }
            }
        }
    }
}

/// Where the process is said to have ended, no thread is left.
proof fn lemma_exited(s: InferiorV, status: WaitStatus, replies: Seq<Reply>)
    ensures
        status_handled(s, status, replies) matches Ran::Gives(true, s1, _) ==> s1.threads.len() == 0,
{
}

/// A thread that is put in and does not run makes none run.
proof fn lemma_put_in(s: InferiorV, tid: i32, t: Thread)
    requires
        all_stopped(s),
        !t.running,
    ensures
        all_stopped(s.with_thread(tid, t)),
        all_stopped(s.with_thread(tid, t).counted()),
{
    let s1 = s.with_thread(tid, t);
    assert forall|other: i32| !#[trigger] runs(s1, other) by {
        lemma_with_value(s.threads, tid, t, other);
        assert(!runs(s, other));
    }
    assert forall|other: i32| !#[trigger] runs(s1.counted(), other) by {
        assert(!runs(s1, other));
    }
}

/// Asking a thread to step makes no thread run.
proof fn lemma_step_tried_stopped(s: InferiorV, tid: i32, replies: Seq<Reply>)
    requires
        orderly(s),
        all_stopped(s),
    ensures
        step_tried(s, tid, replies) matches Ran::Gives(_, s1, _) ==> all_stopped(s1) && orderly(s1),
{
    lemma_step_tried(s, tid, replies);
    if replies.len() > 0 {
        if let Io::Gives(status, rest) = waited(Request::WaitThread(tid), replies.drop_first()) {
            match status {
                WaitStatus::Exited(t, code) => {
                    let s1 = s.forgotten(t);
                    assert forall|other: i32| !#[trigger] runs(s1, other) by {
                        lemma_without(s.threads, t, other);
                        assert(!runs(s, other));
                    }
                    assert forall|other: i32| !#[trigger] runs(InferiorV { exit_code: Some(code), ..s1 }, other) by {
                        assert(!runs(s1, other));
                    }
                },
                WaitStatus::Stopped(_, signal) => {
                    if let Some(t) = value_of(s.threads, tid) {
                        assert(!runs(s, tid));
                        lemma_put_in(s, tid, Thread { sigstop_sent: false, ..t });
                        lemma_put_in(s, tid, Thread { pending_signal: Some(signal), ..t });
                    }
                },
                WaitStatus::Event(_, event) => {
                    if let Io::Gives(m, _) = message_read(tid, rest) {
                        lemma_put_in(s, m as i32, new_thread());
                        assert forall|other: i32| !#[trigger] runs(s.counted(), other) by {
                            assert(!runs(s, other));
                        }
                    }
                },
                _ => {},
            }
        }
    }
}

/// Making a thread step makes no thread run.
proof fn lemma_stepped_stopped(s: InferiorV, tid: i32, addr: u64, tries: nat, replies: Seq<Reply>)
    requires
        orderly(s),
        all_stopped(s),
    ensures
        stepped(s, tid, addr, tries, replies) matches Ran::Gives(_, s1, _) ==> all_stopped(s1),
    decreases tries,
{
    if tries > 0 {
        lemma_step_tried_stopped(s, tid, replies);
        if let Ran::Gives(StepTaken::Again, s1, rest) = step_tried(s, tid, replies) {
            lemma_stepped_stopped(s1, tid, addr, (tries - 1) as nat, rest);
        }
    }
}

/// Stepping a thread past a breakpoint makes no thread run: all are stopped before and after.
pub proof fn law_step_keeps_stopped(s: InferiorV, tid: i32, addr: u64, replies: Seq<Reply>)
    requires
        orderly(s),
        all_stopped(s),
    ensures
        stepped_over(s, tid, addr, replies) matches Ran::Gives(_, s1, _) ==> all_stopped(s1),
{
    if let Some(bp) = value_of(s.breakpoints, addr) {
        if let Io::Gives(_, rest) = byte_set(tid, addr, bp.original_byte, replies) {
            lemma_stepped_stopped(s, tid, addr, MAX_STEPS as nat, rest);
            if let Ran::Gives(_, s1, _) = stepped(s, tid, addr, MAX_STEPS as nat, rest) {
                if let Some(t) = value_of(s1.threads, tid) {
                    lemma_put_in(s1, tid, Thread { running: false, ..t });
                }
                assert(all_stopped(with_halted(s1, tid)));
            }
        }
    }
}

/// Putting breakpoints and registers back after a call changes no thread.
proof fn lemma_undone_threads(s: InferiorV, call: Call, list: Seq<(u64, u8)>, stopped: Option<TraceError>, replies: Seq<Reply>)
    ensures
        call_undone(s, call, list, stopped, replies) matches Ran::Gives(_, s1, _) ==> s1.threads == s.threads,
{
    if let Io::Gives(_, rest) = bytes_set(s.tracee(), traps(list), replies) {
        if let Ran::Gives(_, s1, _) = disarmed_at(s, call.trap, rest) {
            assert(s1.threads == s.threads);
        }
    }
}

/// Once a function was called and has returned, no thread runs.
pub proof fn law_call_stops_all(s: InferiorV, func: u64, args: Seq<u64>, replies: Seq<Reply>)
    requires
        orderly(s),
    ensures
        call_made(s, func, args, replies) matches Ran::Gives(_, s1, _) ==> all_stopped(s1),
{
    law_call_begun(s, func, args, replies);
    if let Ran::Gives(_, s1, rest) = call_begun(s, func, args, replies) {
        lemma_lasted_orderly(s1, rest);
        if let Ran::Gives(_, s2, rest2) = call_lasted(s1, rest) {
            if let Ran::Gives(_, s3, _) = call_ended(s2, rest2) {
                let call = s2.call.unwrap();
                let s0 = InferiorV { call: None, set_aside: Seq::empty(), ..s2 };
                assert(orderly(s0));
                law_stop_world_orderly(s0, rest2);
                law_stopped_world(s0, rest2);
                match world_stopped(s0, rest2) {
                    Ran::Gives(_, s4, rest4) => {
                        lemma_undone_threads(s4, call, s2.set_aside, None, rest4);
                        assert forall|tid: i32| !#[trigger] runs(s3, tid) by {
                            assert(!runs(s4, tid));
                        }
                    },
                    _ => {},
                }
            }
        }
    }
}

} // verus!
