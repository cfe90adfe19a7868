//! Laws of the threads of a traced process: what becomes of each of them when the kernel tells of one,
//! when they go on, and when they are stopped.

use vstd::prelude::*;

use crate::inferior::first_thread;
use crate::inferior::new_thread;
use crate::inferior::started;
use crate::inferior::untouched;
use crate::inferior::InferiorV;
use crate::inferior::Ran;
use crate::inferior::Stop;
use crate::inferior::Thread;
use crate::memory_laws::open_ran;
use crate::orderly::law_resume_orderly;
use crate::orderly::orderly;
use crate::regs::Regs;
use crate::replay::lemma_again_resumed;
use crate::replay::used;
use crate::stepping::step_seen;
use crate::stepping::step_tried;
use crate::stepping::stepped;
use crate::stepping::stepped_over;
use crate::stepping::StepTaken;
use crate::table::holds_key;
use crate::table::lemma_position;
use crate::table::lemma_with_value;
use crate::table::lemma_without;
use crate::table::position;
use crate::table::value_of;
use crate::threads::all_resumed;
use crate::threads::before_it;
use crate::threads::has_hit;
use crate::threads::hits_without;
use crate::threads::interrupted;
use crate::threads::one_resumed;
use crate::threads::resumed;
use crate::threads::round_run;
use crate::threads::status_handled;
use crate::threads::tids_where;
use crate::trace::as_done;
use crate::trace::as_message;
use crate::trace::as_regs;
use crate::trace::as_status;
use crate::trace::as_word;
use crate::trace::waited;
use crate::trace::Io;
use crate::trace::Reply;
use crate::trace::Request;
use crate::trace::TraceError;
use crate::trace::WaitStatus;
use crate::trace::EINTR;
use crate::trace::ESRCH;
use crate::trace::EVENT_CLONE;
use crate::trace::SIGSTOP;
use crate::trace::SIGTRAP;

verus! {

// ---- what the kernel tells of a thread ----

/// The hits of the other threads stay, in their order, and none of the thread does.
proof fn lemma_hits_without(hits: Seq<(i32, u64)>, tid: i32)
    ensures
        hits_without(hits, tid) == hits.filter(|h: (i32, u64)| h.0 != tid),
    decreases hits.len(),
{
    reveal(Seq::filter);
    if hits.len() > 0 {
        lemma_hits_without(hits.drop_last(), tid);
    }
}

/// Whether all threads but one are as they were.
pub open spec fn others_same(s: InferiorV, s1: InferiorV, tid: i32) -> bool {
    forall|t: i32| t != tid ==> #[trigger] value_of(s1.threads, t) == value_of(s.threads, t)
}

/// Whether nothing is different but the threads, the most of them, and their hits.
pub open spec fn rest_same(s: InferiorV, s1: InferiorV) -> bool {
    s1 == (InferiorV {
        threads: s1.threads,
        peak_threads: s1.peak_threads,
        pending_hits: s1.pending_hits,
        exit_code: s1.exit_code,
        ..s
    })
}

/// Whether the most threads are up to date.
pub open spec fn peak_kept(s: InferiorV, s1: InferiorV) -> bool {
    &&& s1.peak_threads >= s.peak_threads
    &&& s1.threads.len() <= s1.peak_threads
    &&& s1.peak_threads == s.peak_threads || s1.peak_threads == s1.threads.len()
}

/// A thread of which the kernel tells that it has exited, or was ended by a signal, is known no more, nor
/// are the breakpoints that it had reached; the other threads and their hits stay. The process has ended
/// once no thread is left. The exit code of the process is that of its first thread, whose end by a
/// signal is an error.
pub proof fn law_thread_ended(s: InferiorV, tid: i32, code: i32, signal: i32, replies: Seq<Reply>)
    requires
        orderly(s),
    ensures
        status_handled(s, WaitStatus::Exited(tid, code), replies) matches Ran::Gives(over, s1, rest) && {
            &&& rest == replies
            &&& value_of(s1.threads, tid) is None
            &&& others_same(s, s1, tid)
            &&& s1.pending_hits == s.pending_hits.filter(|h: (i32, u64)| h.0 != tid)
            &&& over <==> s1.threads.len() == 0
            &&& s1.exit_code == (if tid == s.pid { Some(code) } else { s.exit_code })
            &&& s1.peak_threads == s.peak_threads
            &&& rest_same(s, s1)
        },
        tid != s.pid ==> (status_handled(s, WaitStatus::Signaled(tid, signal), replies) matches Ran::Gives(
            over,
            s1,
            rest,
        ) && {
            &&& rest == replies
            &&& value_of(s1.threads, tid) is None
            &&& others_same(s, s1, tid)
            &&& s1.pending_hits == s.pending_hits.filter(|h: (i32, u64)| h.0 != tid)
            &&& over <==> s1.threads.len() == 0
            &&& s1.exit_code == s.exit_code
            &&& s1.peak_threads == s.peak_threads
            &&& rest_same(s, s1)
        }),
        tid == s.pid ==> status_handled(s, WaitStatus::Signaled(tid, signal), replies) is Fails,
{
    lemma_hits_without(s.pending_hits, tid);
    lemma_without(s.threads, tid, tid);
    assert forall|t: i32| t != tid implies #[trigger] value_of(s.forgotten(tid).threads, t) == value_of(
        s.threads,
        t,
    ) by {
        lemma_without(s.threads, tid, t);
    }
}

/// A thread as it is known before it is first told of: the kernel stops it before it runs.
pub open spec fn known_as(s: InferiorV, tid: i32) -> Thread {
    match value_of(s.threads, tid) {
        Some(t) => t,
        None => Thread { running: false, pending_signal: None, sigstop_sent: true },
    }
}

/// A thread of which the kernel tells that it stopped with a signal does not run, and is to get the
/// signal when it goes on, unless the signal is the stop that the tracer itself had sent: that one is
/// used up. The other threads and all hits stay.
pub proof fn law_thread_signalled(s: InferiorV, tid: i32, signal: i32, replies: Seq<Reply>)
    requires
        orderly(s),
        signal != SIGTRAP,
    ensures
        status_handled(s, WaitStatus::Stopped(tid, signal), replies) matches Ran::Gives(over, s1, rest) && {
            let was = known_as(s, tid);
            let own = signal == SIGSTOP && was.sigstop_sent;
            &&& !over
            &&& rest == replies
            &&& value_of(s1.threads, tid) matches Some(t) && {
                &&& !t.running
                &&& t.pending_signal == (if own { was.pending_signal } else { Some(signal) })
                &&& t.sigstop_sent == (was.sigstop_sent && !own)
            }
            &&& others_same(s, s1, tid)
            &&& s1.pending_hits == s.pending_hits
            &&& s1.exit_code == s.exit_code
            &&& peak_kept(s, s1)
            &&& rest_same(s, s1)
        },
{
    let a = s.with_stopped(tid);
    let b = a.with_signal(tid, signal);
    let was = known_as(s, tid);
    lemma_with_value(s.threads, tid, Thread { running: false, ..was }, tid);
    let t0 = value_of(a.threads, tid).unwrap();
    let t1 = if signal == SIGSTOP && t0.sigstop_sent {
        Thread { sigstop_sent: false, ..t0 }
    } else {
        Thread { pending_signal: Some(signal), ..t0 }
    };
    lemma_with_value(a.threads, tid, t1, tid);
    assert forall|t: i32| t != tid implies #[trigger] value_of(b.threads, t) == value_of(s.threads, t) by {
        lemma_with_value(s.threads, tid, Thread { running: false, ..was }, t);
        lemma_with_value(a.threads, tid, t1, t);
    }
}

/// A thread of which the kernel tells that it stopped with a trap does not run. Its registers are asked
/// for. Where the instruction before the one that it is to execute next is a breakpoint, armed or not,
/// the thread is set back to it with every other register as it is, and the hit comes after those that
/// were not handled yet. The other threads stay.
pub proof fn law_thread_trapped(s: InferiorV, tid: i32, replies: Seq<Reply>)
    requires
        orderly(s),
        status_handled(s, WaitStatus::Stopped(tid, SIGTRAP), replies) is Gives,
    ensures
        ({
            let status = WaitStatus::Stopped(tid, SIGTRAP);
            let was = known_as(s, tid);
            &&& replies.len() > 0
            &&& open_ran(status_handled(s, status, Seq::empty())) == Some(Request::GetRegs(tid))
            &&& replies[0] matches Reply::Regs(regs) && status_handled(s, status, replies) matches Ran::Gives(
                over,
                s1,
                rest,
            ) && {
                let reached = exists|i: int|
                    0 <= i < s.breakpoints.len() && ((#[trigger] s.breakpoints[i]).0 + 1) % 0x1_0000_0000_0000_0000
                        == regs.rip;
                &&& !over
                &&& value_of(s1.threads, tid) == Some(Thread { running: false, ..was })
                &&& others_same(s, s1, tid)
                &&& s1.exit_code == s.exit_code
                &&& peak_kept(s, s1)
                &&& rest_same(s, s1)
                &&& !reached ==> s1.pending_hits == s.pending_hits && rest == replies.drop_first()
                &&& reached ==> {
                    &&& replies.len() > 1
                    &&& rest == replies.drop_first().drop_first()
                    &&& s1.pending_hits.len() == s.pending_hits.len() + 1
                    &&& s1.pending_hits.drop_last() == s.pending_hits
                    &&& s1.pending_hits.last().0 == tid
                    &&& (s1.pending_hits.last().1 + 1) % 0x1_0000_0000_0000_0000 == regs.rip
                    &&& open_ran(status_handled(s, status, replies.take(1))) == Some(
                        Request::SetRegs(tid, Regs { rip: s1.pending_hits.last().1, ..regs }),
                    )
                }
            }
        }),
{
    let was = known_as(s, tid);
    let a = s.with_stopped(tid);
    lemma_with_value(s.threads, tid, Thread { running: false, ..was }, tid);
    assert forall|t: i32| t != tid implies #[trigger] value_of(a.threads, t) == value_of(s.threads, t) by {
        lemma_with_value(s.threads, tid, Thread { running: false, ..was }, t);
    }
    assert(replies[0] is Regs);
    let regs = replies[0]->Regs_0;
    let addr = before_it(regs.rip);
    assert((addr + 1) % 0x1_0000_0000_0000_0000 == regs.rip);
    assert forall|i: int|
        0 <= i < s.breakpoints.len() && ((#[trigger] s.breakpoints[i]).0 + 1) % 0x1_0000_0000_0000_0000
            == regs.rip implies s.breakpoints[i].0 == addr by {
        let b = s.breakpoints[i].0;
        assert(b == addr);
    }
    lemma_position(s.breakpoints, addr);
    if let Some(i) = position(s.breakpoints, addr) {
        assert(s.breakpoints[i].0 == addr);
    }
    assert(replies.take(1).drop_first() =~= Seq::<Reply>::empty());
    if let Ran::Gives(_, s1, _) = status_handled(s, WaitStatus::Stopped(tid, SIGTRAP), replies) {
        if holds_key(a.breakpoints, addr) {
            assert(s1.pending_hits.drop_last() =~= s.pending_hits);
        }
    }
}

/// A thread of which the kernel tells that it stopped at an event does not run. Where it started a
/// thread, that one is known from then on as one that the kernel stops before it runs, if it was not known
/// already. The other threads and all hits stay.
pub proof fn law_thread_event(s: InferiorV, tid: i32, event: i32, replies: Seq<Reply>, t: i32)
    requires
        orderly(s),
        status_handled(s, WaitStatus::Event(tid, event), replies) is Gives,
    ensures
        ({
            let status = WaitStatus::Event(tid, event);
            &&& status_handled(s, status, replies) matches Ran::Gives(over, s1, rest) && {
                &&& !over
                &&& s1.pending_hits == s.pending_hits
                &&& s1.exit_code == s.exit_code
                &&& peak_kept(s, s1)
                &&& rest_same(s, s1)
                &&& value_of(s1.threads, tid) == Some(Thread { running: false, ..known_as(s, tid) })
                &&& event != EVENT_CLONE ==> others_same(s, s1, tid) && rest == replies
                &&& event == EVENT_CLONE ==> {
                    &&& open_ran(status_handled(s, status, Seq::empty())) == Some(Request::EventMessage(tid))
                    &&& replies.len() > 0
                    &&& rest == replies.drop_first()
                    &&& replies[0] matches Reply::Message(m) && {
                        &&& m as i32 != tid ==> value_of(s1.threads, m as i32) == Some(known_as(s, m as i32))
                        &&& t != tid && t != m as i32 ==> value_of(s1.threads, t) == value_of(s.threads, t)
                    }
                }
            }
        }),
{
    let was = known_as(s, tid);
    let halted = Thread { running: false, ..was };
    let a = s.with_stopped(tid);
    lemma_with_value(s.threads, tid, halted, tid);
    lemma_with_value(s.threads, tid, halted, t);
    assert forall|o: i32| o != tid implies #[trigger] value_of(a.threads, o) == value_of(s.threads, o) by {
        lemma_with_value(s.threads, tid, halted, o);
    }
    if event == EVENT_CLONE {
        let m = replies[0]->Message_0 as i32;
        lemma_with_value(s.threads, tid, halted, m);
        lemma_with_value(a.threads, m, new_thread(), m);
        lemma_with_value(a.threads, m, new_thread(), tid);
        lemma_with_value(a.threads, m, new_thread(), t);
    }
}

// ---- going on and stopping ----

/// A thread that does not run goes on with the signal that was kept for it, which is then kept no more;
/// one that reached a breakpoint that was not handled yet does not, and nothing is asked for it. One that
/// the kernel does not know any more is forgotten. The other threads stay.
pub proof fn law_goes_on(s: InferiorV, tid: i32, replies: Seq<Reply>)
    requires
        orderly(s),
    ensures
        open_ran(one_resumed(s, tid, Seq::empty())) == (if has_hit(s.pending_hits, tid) || !holds_key(s.threads, tid) {
            None
        } else {
            Some(Request::Resume(tid, known_as(s, tid).pending_signal))
        }),
        one_resumed(s, tid, replies) matches Ran::Gives(_, s1, rest) ==> {
            let asks = !has_hit(s.pending_hits, tid) && holds_key(s.threads, tid);
            &&& others_same(s, s1, tid)
            &&& s1 == (InferiorV { threads: s1.threads, ..s })
            &&& !asks ==> s1 == s && rest == replies
            &&& asks ==> replies.len() > 0 && rest == replies.drop_first()
            &&& asks && replies[0] == Reply::Done ==> value_of(s1.threads, tid) == Some(
                Thread { running: true, pending_signal: None, ..known_as(s, tid) },
            )
            &&& asks && replies[0] != Reply::Done ==> replies[0] == Reply::Failed(ESRCH) && value_of(
                s1.threads,
                tid,
            ) is None
        },
{
    if let Some(t) = value_of(s.threads, tid) {
        let kept = Thread { pending_signal: None, ..t };
        let going = Thread { running: true, pending_signal: None, ..t };
        let a = s.with_thread(tid, kept);
        lemma_with_value(s.threads, tid, kept, tid);
        lemma_with_value(a.threads, tid, going, tid);
        lemma_without(a.threads, tid, tid);
        if let Ran::Gives(_, s1, _) = one_resumed(s, tid, replies) {
            assert forall|o: i32| o != tid implies #[trigger] value_of(s1.threads, o) == value_of(s.threads, o) by {
                lemma_with_value(s.threads, tid, kept, o);
                lemma_with_value(a.threads, tid, going, o);
                lemma_without(a.threads, tid, o);
            }
        }
    }
}

/// Every thread of a list goes on, but for those with a hit.
proof fn lemma_resumed(s: InferiorV, tids: Seq<i32>, replies: Seq<Reply>, t: i32)
    requires
        orderly(s),
    ensures
        resumed(s, tids, replies) matches Ran::Gives(_, s1, _) ==> {
            &&& s1 == (InferiorV { threads: s1.threads, ..s })
            &&& value_of(s1.threads, t) matches Some(th) ==> {
                &&& holds_key(s.threads, t)
                &&& th.running || has_hit(s.pending_hits, t) || (!tids.contains(t) && th == known_as(s, t))
                &&& has_hit(s.pending_hits, t) ==> th == known_as(s, t)
                &&& known_as(s, t).running ==> th.running
            }
        },
    decreases tids.len(),
{
    if tids.len() > 0 {
        let first = tids[0];
        law_goes_on(s, first, replies);
        law_resume_orderly(s, seq![first], replies);
        if let Ran::Gives(_, s1, rest) = one_resumed(s, first, replies) {
            assert(seq![first].drop_first() =~= Seq::<i32>::empty());
            assert(resumed(s1, Seq::<i32>::empty(), rest) == Ran::Gives((), s1, rest));
            assert(seq![first][0] == first);
            assert(resumed(s, seq![first], replies) == resumed(s1, Seq::<i32>::empty(), rest));
            assert(orderly(s1));
            lemma_resumed(s1, tids.drop_first(), rest, t);
            if tids.contains(t) && t != first {
                let k = choose|k: int| 0 <= k < tids.len() && tids[k] == t;
                assert(tids.drop_first()[k - 1] == t);
            }
            if tids.drop_first().contains(t) {
                let k = choose|k: int| 0 <= k < tids.drop_first().len() && tids.drop_first()[k] == t;
                assert(tids[k + 1] == t);
            }
        }
    }
}

/// The threads that run, or those that do not, are those that are listed.
proof fn lemma_tids_where(threads: Seq<(i32, Thread)>, running: bool, tid: i32)
    ensures
        tids_where(threads, running).contains(tid) <==> exists|i: int|
            0 <= i < threads.len() && (#[trigger] threads[i]).0 == tid && threads[i].1.running == running,
    decreases threads.len(),
{
    if threads.len() > 0 {
        let short = threads.drop_last();
        let before = tids_where(short, running);
        let list = tids_where(threads, running);
        lemma_tids_where(short, running, tid);
        if list.contains(tid) {
            let j = choose|j: int| 0 <= j < list.len() && list[j] == tid;
            if j < before.len() {
                assert(before[j] == tid);
                let i = choose|i: int|
                    0 <= i < short.len() && (#[trigger] short[i]).0 == tid && short[i].1.running == running;
                assert(threads[i] == short[i]);
            } else {
                assert(threads[threads.len() - 1].0 == tid);
            }
        }
        if exists|i: int| 0 <= i < threads.len() && (#[trigger] threads[i]).0 == tid && threads[i].1.running == running {
            let i = choose|i: int|
                0 <= i < threads.len() && (#[trigger] threads[i]).0 == tid && threads[i].1.running == running;
            if i < short.len() {
                assert(short[i] == threads[i]);
                let j = choose|j: int| 0 <= j < before.len() && before[j] == tid;
                assert(list[j] == tid);
            } else {
                assert(list[before.len() as int] == tid);
            }
        }
    }
}

/// Once the threads go on, every thread that is there runs, but for those with a hit that was not handled
/// yet: these are as they were.
pub proof fn law_all_go_on(s: InferiorV, replies: Seq<Reply>, t: i32)
    requires
        orderly(s),
    ensures
        all_resumed(s, replies) matches Ran::Gives(_, s1, _) ==> {
            &&& s1 == (InferiorV { threads: s1.threads, ..s })
            &&& value_of(s1.threads, t) matches Some(th) ==> {
                &&& holds_key(s.threads, t)
                &&& th.running || has_hit(s.pending_hits, t)
                &&& has_hit(s.pending_hits, t) ==> th == known_as(s, t)
            }
        },
{
    lemma_resumed(s, tids_where(s.threads, false), replies, t);
    lemma_tids_where(s.threads, false, t);
    lemma_position(s.threads, t);
}

/// Stopping threads asks for each of them in turn, and remembers of those for which the kernel says that
/// it is done that the stop is the tracer's own.
pub proof fn law_interrupts(s: InferiorV, tids: Seq<i32>, replies: Seq<Reply>, k: int)
    requires
        0 <= k < tids.len(),
        replies.len() >= tids.len(),
    ensures
        open_ran(interrupted(s, tids, replies.take(k))) == Some(Request::Interrupt(tids[k])),
        interrupted(s, tids, replies) matches Ran::Gives(_, s1, rest) && {
            &&& rest == replies.skip(tids.len() as int)
            &&& s1 == (InferiorV { threads: s1.threads, ..s })
            &&& holds_key(s.threads, tids[k]) ==> value_of(s1.threads, tids[k]) == Some(
                Thread {
                    sigstop_sent: known_as(s, tids[k]).sigstop_sent || exists|j: int|
                        0 <= j < tids.len() && tids[j] == tids[k] && #[trigger] replies[j] == Reply::Done,
                    ..known_as(s, tids[k])
                },
            )
        },
{
    lemma_interrupts_asks(s, tids, replies, k);
    lemma_interrupts(s, tids, replies, tids[k]);
}

/// Which request stopping threads comes to.
proof fn lemma_interrupts_asks(s: InferiorV, tids: Seq<i32>, replies: Seq<Reply>, k: int)
    requires
        0 <= k < tids.len(),
        replies.len() >= tids.len(),
    ensures
        open_ran(interrupted(s, tids, replies.take(k))) == Some(Request::Interrupt(tids[k])),
    decreases k,
{
    if k > 0 {
        let s1 = if replies[0] == Reply::Done {
            s.with_changed(tids[0], |t: Thread| Thread { sigstop_sent: true, ..t })
        } else {
            s
        };
        assert(replies.take(k).drop_first() =~= replies.drop_first().take(k - 1));
        assert(replies.take(k)[0] == replies[0]);
        lemma_interrupts_asks(s1, tids.drop_first(), replies.drop_first(), k - 1);
    }
}

/// What stopping threads remembers of one of them.
proof fn lemma_interrupts(s: InferiorV, tids: Seq<i32>, replies: Seq<Reply>, t: i32)
    requires
        replies.len() >= tids.len(),
    ensures
        interrupted(s, tids, replies) matches Ran::Gives(_, s1, rest) && {
            &&& rest == replies.skip(tids.len() as int)
            &&& s1 == (InferiorV { threads: s1.threads, ..s })
            &&& holds_key(s.threads, t) ==> value_of(s1.threads, t) == Some(
                Thread {
                    sigstop_sent: known_as(s, t).sigstop_sent || exists|j: int|
                        0 <= j < tids.len() && tids[j] == t && #[trigger] replies[j] == Reply::Done,
                    ..known_as(s, t)
                },
            )
            &&& !holds_key(s.threads, t) ==> !holds_key(s1.threads, t)
        },
    decreases tids.len(),
{
    if tids.len() == 0 {
        assert(replies.skip(0) =~= replies);
    } else {
        let s1 = if replies[0] == Reply::Done {
            s.with_changed(tids[0], |t: Thread| Thread { sigstop_sent: true, ..t })
        } else {
            s
        };
        if let Some(old) = value_of(s.threads, tids[0]) {
            lemma_with_value(s.threads, tids[0], Thread { sigstop_sent: true, ..old }, t);
        }
        let less = tids.drop_first();
        let later = replies.drop_first();
        lemma_interrupts(s1, less, later, t);
        assert(later.skip(less.len() as int) =~= replies.skip(tids.len() as int));
        if exists|j: int| 0 <= j < tids.len() && tids[j] == t && #[trigger] replies[j] == Reply::Done {
            let j = choose|j: int| 0 <= j < tids.len() && tids[j] == t && #[trigger] replies[j] == Reply::Done;
            if j > 0 {
                assert(less[j - 1] == t && later[j - 1] == Reply::Done);
            }
        }
        if exists|j: int| 0 <= j < less.len() && less[j] == t && #[trigger] later[j] == Reply::Done {
            let j = choose|j: int| 0 <= j < less.len() && less[j] == t && #[trigger] later[j] == Reply::Done;
            assert(tids[j + 1] == t && replies[j + 1] == Reply::Done);
        }
    }
}

// ---- rounds ----

/// Hits are handled in the order in which they came, before any thread goes on: a round then asks
/// nothing, and says which thread reached which breakpoint.
pub proof fn law_hits_in_order(s: InferiorV, replies: Seq<Reply>)
    requires
        s.pending_hits.len() > 0,
    ensures
        round_run(s, replies) matches Ran::Gives(Some(Stop::Hit(tid, addr)), s1, rest) && {
            &&& rest == replies
            &&& seq![(tid, addr)] + s1.pending_hits == s.pending_hits
            &&& s1.current == Some(tid)
            &&& s1.current_bp == Some(addr)
            &&& s1 == (InferiorV {
                pending_hits: s1.pending_hits,
                current: s1.current,
                current_bp: s1.current_bp,
                ..s
            })
        },
{
    assert(seq![s.pending_hits[0]] + s.pending_hits.drop_first() =~= s.pending_hits);
}

/// Without a hit to handle, the process has ended when no thread is left, and only then; a round is
/// interrupted when the kernel says so, and only then.
pub proof fn law_round_tells(s: InferiorV, replies: Seq<Reply>)
    requires
        s.pending_hits.len() == 0,
    ensures
        round_run(s, replies) matches Ran::Gives(stop, s1, _) ==> {
            &&& stop matches Some(Stop::Exited) ==> s1.threads.len() == 0
            &&& !(stop matches Some(Stop::Hit(_, _)))
            &&& stop matches Some(Stop::Interrupted) ==> exists|i: int|
                0 <= i < replies.len() && #[trigger] replies[i] == Reply::Failed(EINTR)
        },
        s.threads.len() == 0 ==> round_run(s, replies) == Ran::Gives(Some(Stop::Exited), s, replies),
{
    lemma_again_resumed(s, tids_where(s.threads, false), replies, Seq::empty());
    if let Ran::Gives(_, _, rest) = all_resumed(s, replies) {
        let first = used(replies, rest);
        assert(first + rest == replies);
        if rest.len() > 0 {
            assert((first + rest)[first.len() as int] == rest[0]);
        }
    }
}

// ---- stepping ----

/// A thread that was to step has stepped when it stopped with a trap; it is gone when it exited; after
/// any other stop it is to be asked again, with what it stopped with kept for it as always.
pub proof fn law_step_outcome(s: InferiorV, tid: i32, signal: i32, code: i32, replies: Seq<Reply>)
    requires
        orderly(s),
        holds_key(s.threads, tid),
    ensures
        step_seen(s, tid, WaitStatus::Stopped(tid, SIGTRAP), replies) == Ran::Gives(StepTaken::Stepped, s, replies),
        signal != SIGTRAP ==> (step_seen(s, tid, WaitStatus::Stopped(tid, signal), replies) matches Ran::Gives(
            taken,
            s1,
            rest,
        ) && {
            let was = known_as(s, tid);
            let own = signal == SIGSTOP && was.sigstop_sent;
            &&& taken == StepTaken::Again
            &&& rest == replies
            &&& others_same(s, s1, tid)
            &&& s1 == (InferiorV { threads: s1.threads, ..s })
            &&& value_of(s1.threads, tid) == Some(
                Thread {
                    pending_signal: if own { was.pending_signal } else { Some(signal) },
                    sigstop_sent: was.sigstop_sent && !own,
                    ..was
                },
            )
        }),
        step_seen(s, tid, WaitStatus::Exited(tid, code), replies) matches Ran::Gives(taken, s1, rest) && {
            &&& taken == StepTaken::Gone
            &&& rest == replies
            &&& value_of(s1.threads, tid) is None
            &&& others_same(s, s1, tid)
            &&& s1.pending_hits == s.pending_hits.filter(|h: (i32, u64)| h.0 != tid)
            &&& s1.exit_code == (if tid == s.pid { Some(code) } else { s.exit_code })
        },
{
    law_thread_ended(s, tid, code, signal, replies);
    let was = known_as(s, tid);
    let next = if signal == SIGSTOP && was.sigstop_sent {
        Thread { sigstop_sent: false, ..was }
    } else {
        Thread { pending_signal: Some(signal), ..was }
    };
    lemma_with_value(s.threads, tid, next, tid);
    assert forall|t: i32| t != tid implies #[trigger] value_of(s.with_thread(tid, next).threads, t) == value_of(
        s.threads,
        t,
    ) by {
        lemma_with_value(s.threads, tid, next, t);
    }
}

// ---- the start ----

/// A process is started by waiting for it to stop with a trap, and by then asking to be told of the
/// threads that it starts. From then on its first thread is known: it does not run, and no signal is kept
/// for it.
pub proof fn law_started(s: InferiorV, replies: Seq<Reply>)
    ensures
        open_ran(started(s, Seq::empty())) == Some(Request::WaitStart(s.pid)),
        started(s, replies) matches Ran::Gives(_, s1, rest) ==> {
            &&& replies.len() >= 2
            &&& rest == replies.skip(2)
            &&& replies[0] matches Reply::Status(WaitStatus::Stopped(_, signal)) && signal == SIGTRAP
            &&& replies[1] == Reply::Done
            &&& open_ran(started(s, replies.take(1))) == Some(Request::TraceClones(s.pid))
            &&& value_of(s1.threads, s.pid) == Some(
                Thread { running: false, pending_signal: None, sigstop_sent: false },
            )
            &&& others_same(s, s1, s.pid)
            &&& s1 == (InferiorV { threads: s1.threads, peak_threads: s1.peak_threads, ..s })
            &&& peak_kept(s, s1)
        },
        replies.len() > 0 && !(replies[0] matches Reply::Status(WaitStatus::Stopped(_, SIGTRAP))) ==> started(
            s,
            replies,
        ) is Fails,
{
    if let Ran::Gives(_, s1, rest) = started(s, replies) {
        assert(replies.take(1).drop_first() =~= Seq::<Reply>::empty());
        assert(replies.drop_first()[0] == replies[1]);
        assert(replies.drop_first().drop_first() =~= replies.skip(2));
        lemma_with_value(s.threads, s.pid, first_thread(), s.pid);
        assert forall|t: i32| t != s.pid implies #[trigger] value_of(s1.threads, t) == value_of(s.threads, t) by {
            lemma_with_value(s.threads, s.pid, first_thread(), t);
        }
    }
}

// ---- replies ----

/// A reply is taken for what was asked for; one that says that the request failed is that error, and any
/// other is not expected.
pub proof fn law_replies(reply: Reply, e: i32)
    ensures
        as_word(reply) matches Ok(w) ==> reply == Reply::Word(w),
        as_done(reply) is Ok ==> reply == Reply::Done,
        as_regs(reply) matches Ok(regs) ==> reply == Reply::Regs(regs),
        as_message(reply) matches Ok(m) ==> reply == Reply::Message(m),
        as_status(reply) matches Ok(status) ==> reply == Reply::Status(status),
        reply == Reply::Failed(e) ==> as_word(reply) == Err::<u64, TraceError>(TraceError::System(e)) && as_done(reply)
            == Err::<(), TraceError>(TraceError::System(e)) && as_regs(reply) == Err::<Regs, TraceError>(
            TraceError::System(e),
        ) && as_message(reply) == Err::<i64, TraceError>(TraceError::System(e)) && as_status(reply) == Err::<
            WaitStatus,
            TraceError,
        >(TraceError::System(e)),
        !(reply is Failed) && !(reply is Word) ==> as_word(reply) == Err::<u64, TraceError>(
            TraceError::UnexpectedReply,
        ),
        !(reply is Failed) && !(reply is Done) ==> as_done(reply) == Err::<(), TraceError>(TraceError::UnexpectedReply),
        !(reply is Failed) && !(reply is Regs) ==> as_regs(reply) == Err::<Regs, TraceError>(
            TraceError::UnexpectedReply,
        ),
        !(reply is Failed) && !(reply is Message) ==> as_message(reply) == Err::<i64, TraceError>(
            TraceError::UnexpectedReply,
        ),
        !(reply is Failed) && !(reply is Status) ==> as_status(reply) == Err::<WaitStatus, TraceError>(
            TraceError::UnexpectedReply,
        ),
{
}

/// Waiting that a signal interrupts is done again, with the same request, any number of times; what comes
/// of it then is the first reply that is not an interrupt.
pub proof fn law_waits_again(request: Request, n: nat, reply: Reply, rest: Seq<Reply>)
    requires
        reply != Reply::Failed(EINTR),
    ensures
        ({
            let interrupts = Seq::new(n, |i: int| Reply::Failed(EINTR));
            &&& waited(request, interrupts) == Io::<WaitStatus>::Waits(request)
            &&& waited(request, interrupts + seq![reply] + rest) == (match as_status(reply) {
                Ok(status) => Io::Gives(status, rest),
                Err(e) => Io::Fails(e, rest),
            })
        }),
    decreases n,
{
    let interrupts = Seq::new(n, |i: int| Reply::Failed(EINTR));
    let all = interrupts + seq![reply] + rest;
    if n == 0 {
        assert(all[0] == reply);
        assert(all.drop_first() =~= rest);
    } else {
        let less = Seq::new((n - 1) as nat, |i: int| Reply::Failed(EINTR));
        law_waits_again(request, (n - 1) as nat, reply, rest);
        assert(interrupts.drop_first() =~= less);
        assert(all.drop_first() =~= less + seq![reply] + rest);
        assert(all[0] == Reply::Failed(EINTR));
    }
}

/// Of a process that was not touched yet nothing is known but its number.
pub proof fn law_untouched(pid: i32, tid: i32, addr: u64)
    ensures
        ({
            let s = untouched(pid);
            &&& s.pid == pid
            &&& value_of(s.threads, tid) is None
            &&& value_of(s.breakpoints, addr) is None
            &&& s.pending_hits.len() == 0
            &&& s.current is None && s.current_bp is None && s.exit_code is None && s.call is None
            &&& s.load_base == 0
            &&& s.peak_threads == 0
            &&& s.set_aside.len() == 0
        }),
{
    lemma_position(untouched(pid).threads, tid);
    lemma_position(untouched(pid).breakpoints, addr);
}

/// What the kernel says of steps of a thread that a signal comes in the way of, a number of times.
pub open spec fn hindered(n: nat, tid: i32, signal: i32) -> Seq<Reply> {
    Seq::new(
        2 * n,
        |i: int|
            if i % 2 == 0 {
                Reply::Done
            } else {
                Reply::Status(WaitStatus::Stopped(tid, signal))
            },
    )
}

/// A thread is asked again as often as a signal came in the way, as long as tries are left.
proof fn lemma_patience(s: InferiorV, tid: i32, addr: u64, n: nat, tries: nat, signal: i32)
    requires
        signal != SIGTRAP,
    ensures
        n < tries ==> open_ran(stepped(s, tid, addr, tries, hindered(n, tid, signal))) == Some(Request::Step(tid)),
        n >= tries ==> (stepped(s, tid, addr, tries, hindered(n, tid, signal)) matches Ran::Fails(e, _, _) && e
            == TraceError::NotStepped(tid, addr)),
    decreases n,
{
    let replies = hindered(n, tid, signal);
    if n > 0 && tries > 0 {
        let s1 = s.with_signal(tid, signal);
        let less = hindered((n - 1) as nat, tid, signal);
        assert(replies[0] == Reply::Done);
        assert(replies.drop_first()[0] == Reply::Status(WaitStatus::Stopped(tid, signal)));
        assert(replies.drop_first().drop_first() =~= less);
        assert(step_tried(s, tid, replies) == Ran::Gives(StepTaken::Again, s1, less));
        lemma_patience(s1, tid, addr, (n - 1) as nat, (tries - 1) as nat, signal);
    }
}

/// A thread that is to step past a breakpoint is asked up to sixty-four times, where a signal comes in the
/// way each time; it is an error if it has not stepped then.
pub proof fn law_step_patience(s: InferiorV, tid: i32, addr: u64, n: nat, signal: i32, word: u64)
    requires
        holds_key(s.breakpoints, addr),
        holds_key(s.threads, tid),
        signal != SIGTRAP,
    ensures
        ({
            let replies = seq![Reply::Word(word), Reply::Done] + hindered(n, tid, signal);
            &&& n < 64 ==> open_ran(stepped_over(s, tid, addr, replies)) == Some(Request::Step(tid))
            &&& n >= 64 ==> (stepped_over(s, tid, addr, replies) matches Ran::Fails(e, _, _) && e
                == TraceError::NotStepped(tid, addr))
        }),
{
    let more = hindered(n, tid, signal);
    let replies = seq![Reply::Word(word), Reply::Done] + more;
    assert(replies[0] == Reply::Word(word));
    assert(replies.drop_first()[0] == Reply::Done);
    assert(replies.drop_first().drop_first() =~= more);
    lemma_patience(s, tid, addr, n, 64, signal);
}

/// A thread that was to step and stopped at an event instead is to be asked again; where it started a
/// thread, that one is known from then on. A thread that was ended by a signal is an error.
pub proof fn law_step_event(s: InferiorV, tid: i32, event: i32, signal: i32, replies: Seq<Reply>, t: i32)
    requires
        orderly(s),
    ensures
        event != EVENT_CLONE ==> step_seen(s, tid, WaitStatus::Event(tid, event), replies) == Ran::Gives(
            StepTaken::Again,
            s,
            replies,
        ),
        open_ran(step_seen(s, tid, WaitStatus::Event(tid, EVENT_CLONE), Seq::empty())) == Some(
            Request::EventMessage(tid),
        ),
        step_seen(s, tid, WaitStatus::Event(tid, EVENT_CLONE), replies) matches Ran::Gives(taken, s1, rest) ==> {
            &&& taken == StepTaken::Again
            &&& replies.len() > 0
            &&& rest == replies.drop_first()
            &&& replies[0] matches Reply::Message(m) && {
                &&& value_of(s1.threads, m as i32) == Some(known_as(s, m as i32))
                &&& t != m as i32 ==> value_of(s1.threads, t) == value_of(s.threads, t)
            }
            &&& s1 == (InferiorV { threads: s1.threads, peak_threads: s1.peak_threads, ..s })
            &&& peak_kept(s, s1)
        },
        step_seen(s, tid, WaitStatus::Signaled(tid, signal), replies) is Fails,
        step_seen(s, tid, WaitStatus::Other, replies) is Fails,
{
    if replies.len() > 0 {
        if let Reply::Message(m) = replies[0] {
            lemma_with_value(s.threads, m as i32, new_thread(), m as i32);
            lemma_with_value(s.threads, m as i32, new_thread(), t);
        }
    }
}

} // verus!
