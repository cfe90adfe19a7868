//! The threads of a traced process: what becomes of them, and how they are stopped and let go on
//! together.

use vstd::prelude::*;

use crate::inferior::after;
use crate::inferior::after_io;
use crate::inferior::ended;
use crate::inferior::new_thread;
use crate::inferior::plus;
use crate::inferior::Inferior;
use crate::inferior::InferiorV;
use crate::inferior::Ran;
use crate::inferior::Stop;
use crate::inferior::Thread;
use crate::regs::Regs;
use crate::table::get;
use crate::table::holds_key;
use crate::table::put;
use crate::table::remove;
use crate::table::value_of;
use crate::table::without;
use crate::trace::as_status;
use crate::trace::lemma_waited_shorter;
use crate::trace::message_read;
use crate::trace::read_message;
use crate::trace::read_regs;
use crate::trace::regs_read;
use crate::trace::regs_written;
use crate::trace::wait_thread;
use crate::trace::waited;
use crate::trace::write_regs;
use crate::trace::Halt;
use crate::trace::Io;
use crate::trace::Reply;
use crate::trace::Request;
use crate::trace::TraceError;
use crate::trace::Transcript;
use crate::trace::WaitStatus;
use crate::trace::EINTR;
use crate::trace::ESRCH;
use crate::trace::EVENT_CLONE;
use crate::trace::SIGSTOP;
use crate::trace::SIGTRAP;

verus! {

// ---- what becomes of a thread ----

/// The hits of all threads but one.
pub open spec fn hits_without(hits: Seq<(i32, u64)>, tid: i32) -> Seq<(i32, u64)>
    decreases hits.len(),
{
    if hits.len() == 0 {
        Seq::empty()
    } else {
        let before = hits_without(hits.drop_last(), tid);
        if hits.last().0 == tid {
            before
        } else {
            before.push(hits.last())
        }
    }
}

/// Whether a thread has reached a breakpoint that was not handled yet.
pub open spec fn has_hit(hits: Seq<(i32, u64)>, tid: i32) -> bool {
    exists|i: int| 0 <= i < hits.len() && (#[trigger] hits[i]).0 == tid
}

/// The address one byte before.
pub open spec fn before_it(addr: u64) -> u64 {
    plus(addr, -1)
}

impl InferiorV {
    /// The state without a thread, and without its hits.
    pub open spec fn forgotten(self, tid: i32) -> InferiorV {
        InferiorV {
            threads: without(self.threads, tid),
            pending_hits: hits_without(self.pending_hits, tid),
            ..self
        }
    }

    /// The state with a thread changed, if it is known.
    pub open spec fn with_changed(self, tid: i32, change: spec_fn(Thread) -> Thread) -> InferiorV {
        match value_of(self.threads, tid) {
            Some(t) => self.with_thread(tid, change(t)),
            None => self,
        }
    }

    /// The state with a thread that does not run; one that was not known is new.
    pub open spec fn with_stopped(self, tid: i32) -> InferiorV {
        match value_of(self.threads, tid) {
            Some(t) => self.with_thread(tid, Thread { running: false, ..t }),
            None => self.with_thread(tid, new_thread()).counted(),
        }
    }

    /// The state with a new thread, unless it is known already.
    pub open spec fn with_new(self, tid: i32) -> InferiorV {
        if holds_key(self.threads, tid) {
            self.counted()
        } else {
            self.with_thread(tid, new_thread()).counted()
        }
    }

    /// The state once the thread has got a signal, which it is to have when it goes on. A stop that the
    /// tracer asked for is used up.
    pub open spec fn with_signal(self, tid: i32, signal: i32) -> InferiorV {
        self.with_changed(
            tid,
            |t: Thread|
                if signal == SIGSTOP && t.sigstop_sent {
                    Thread { sigstop_sent: false, ..t }
                } else {
                    Thread { pending_signal: Some(signal), ..t }
                },
        )
    }
}

/// What comes of a thread that stopped with a trap. If it reached a breakpoint, it is set back to it,
/// and the hit is kept.
pub open spec fn trap_handled(s: InferiorV, tid: i32, replies: Seq<Reply>) -> Ran<bool> {
    let s1 = s.with_stopped(tid);
    after_io(
        regs_read(tid, replies),
        s1,
        |regs: Regs, rest: Seq<Reply>|
            {
                let addr = before_it(regs.rip);
                if holds_key(s1.breakpoints, addr) {
                    after_io(
                        regs_written(tid, Regs { rip: addr, ..regs }, rest),
                        s1,
                        |u: (), rest: Seq<Reply>|
                            Ran::Gives(
                                false,
                                InferiorV { pending_hits: s1.pending_hits.push((tid, addr)), ..s1 },
                                rest,
                            ),
                    )
                } else {
                    Ran::Gives(false, s1, rest)
                }
            },
    )
}

/// What comes of a thread that stopped at an event. A thread that it started is known from then on.
pub open spec fn event_handled(s: InferiorV, tid: i32, event: i32, replies: Seq<Reply>) -> Ran<bool> {
    let s1 = s.with_stopped(tid);
    if event == EVENT_CLONE {
        after_io(
            message_read(tid, replies),
            s1,
            |m: i64, rest: Seq<Reply>| Ran::Gives(false, s1.with_new(m as i32), rest),
        )
    } else {
        Ran::Gives(false, s1, replies)
    }
}

/// What comes of learning what became of a thread: whether no thread is left by it.
pub open spec fn status_handled(s: InferiorV, status: WaitStatus, replies: Seq<Reply>) -> Ran<bool> {
    match status {
        WaitStatus::Exited(tid, code) => {
            let s1 = s.forgotten(tid);
            let s2 = if tid == s.pid {
                InferiorV { exit_code: Some(code), ..s1 }
            } else {
                s1
            };
            Ran::Gives(s2.threads.len() == 0, s2, replies)
        },
        WaitStatus::Signaled(tid, signal) => {
            let s1 = s.forgotten(tid);
            if tid == s.pid {
                Ran::Fails(TraceError::Killed(signal), s1, replies)
            } else {
                Ran::Gives(s1.threads.len() == 0, s1, replies)
            }
        },
        WaitStatus::Event(tid, event) => event_handled(s, tid, event, replies),
        WaitStatus::Stopped(tid, signal) => if signal == SIGTRAP {
            trap_handled(s, tid, replies)
        } else {
            Ran::Gives(false, s.with_stopped(tid).with_signal(tid, signal), replies)
        },
        WaitStatus::Other => Ran::Fails(TraceError::UnexpectedStatus(status), s, replies),
    }
}

/// Learning what became of a thread adds no replies.
pub proof fn lemma_status_shorter(s: InferiorV, status: WaitStatus, replies: Seq<Reply>)
    ensures
        match status_handled(s, status, replies) {
            Ran::Waits(_) => true,
            Ran::Fails(_, _, rest) => rest.len() <= replies.len(),
            Ran::Gives(_, _, rest) => rest.len() <= replies.len(),
        },
{
}

impl Inferior {
    /// Forgets a thread, and its hits.
    pub(crate) fn forget(&mut self, tid: i32)
        ensures
            final(self)@ == old(self)@.forgotten(tid),
    {
        remove(&mut self.threads, tid);
        let mut kept: Vec<(i32, u64)> = Vec::new();
        let mut i: usize = 0;
        while i < self.pending_hits.len()
            invariant
                i <= self.pending_hits.len(),
                self@ == (InferiorV { threads: without(old(self)@.threads, tid), ..old(self)@ }),
                kept@ == hits_without(self.pending_hits@.take(i as int), tid),
            decreases self.pending_hits.len() - i,
        {
            let hit: (i32, u64) = self.pending_hits[i];
            assert(self.pending_hits@.take(i + 1).drop_last() =~= self.pending_hits@.take(i as int));
            if hit.0 != tid {
                kept.push(hit);
            }
            i += 1;
        }
        assert(self.pending_hits@.take(i as int) =~= self.pending_hits@);
        self.pending_hits = kept;
        assert(self@ =~= old(self)@.forgotten(tid));
    }

    /// Notes that a thread does not run.
    pub(crate) fn mark_stopped(&mut self, tid: i32)
        ensures
            final(self)@ == old(self)@.with_stopped(tid),
    {
        match get(&self.threads, tid) {
            Some(t) => {
                put(
                    &mut self.threads,
                    tid,
                    Thread { running: false, pending_signal: t.pending_signal, sigstop_sent: t.sigstop_sent },
                );
                assert(self@ =~= old(self)@.with_stopped(tid));
            },
            None => {
                put(&mut self.threads, tid, Thread::newly_seen());
                assert(self@ =~= old(self)@.with_thread(tid, new_thread()));
                self.note_thread_count();
            },
        }
    }

    /// Notes a thread that was started.
    pub(crate) fn mark_new(&mut self, tid: i32)
        ensures
            final(self)@ == old(self)@.with_new(tid),
    {
        if get(&self.threads, tid).is_none() {
            put(&mut self.threads, tid, Thread::newly_seen());
            assert(self@ =~= old(self)@.with_thread(tid, new_thread()));
        }
        self.note_thread_count();
    }

    /// Notes a signal that a thread has got.
    pub(crate) fn mark_signal(&mut self, tid: i32, signal: i32)
        ensures
            final(self)@ == old(self)@.with_signal(tid, signal),
    {
        if let Some(t) = get(&self.threads, tid) {
            let changed = if signal == SIGSTOP && t.sigstop_sent {
                Thread { running: t.running, pending_signal: t.pending_signal, sigstop_sent: false }
            } else {
                Thread { running: t.running, pending_signal: Some(signal), sigstop_sent: t.sigstop_sent }
            };
            put(&mut self.threads, tid, changed);
        }
        assert(self@ =~= old(self)@.with_signal(tid, signal));
    }

    /// Learns what became of a thread. Gives whether no thread is left by it.
    pub fn handle_status(&mut self, io: &mut Transcript, status: WaitStatus) -> (r: Result<bool, Halt>)
        ensures
            ended(r, final(self)@, *final(io), status_handled(old(self)@, status, old(io).rest())),
    {
        match status {
            WaitStatus::Exited(tid, code) => {
                self.forget(tid);
                if tid == self.pid {
                    self.exit_code = Some(code);
                }
                Ok(self.threads.len() == 0)
            },
            WaitStatus::Signaled(tid, signal) => {
                self.forget(tid);
                if tid == self.pid {
                    return Err(Halt::Failed(TraceError::Killed(signal)));
                }
                Ok(self.threads.len() == 0)
            },
            WaitStatus::Event(tid, event) => {
                self.mark_stopped(tid);
                if event == EVENT_CLONE {
                    let message: i64 = read_message(io, tid)?;
                    self.mark_new(#[verifier::truncate] (message as i32));
                }
                Ok(false)
            },
            WaitStatus::Stopped(tid, signal) => {
                self.mark_stopped(tid);
                if signal == SIGTRAP {
                    let mut regs: Regs = read_regs(io, tid)?;
                    let addr: u64 = regs.rip.wrapping_sub(1);
                    assert(addr == before_it(regs.rip));
                    if get(&self.breakpoints, addr).is_some() {
                        let ghost before = self@;
                        regs.rip = addr;
                        write_regs(io, tid, regs)?;
                        self.pending_hits.push((tid, addr));
                        assert(self@ =~= InferiorV {
                            pending_hits: before.pending_hits.push((tid, addr)),
                            ..before
                        });
                    }
                } else {
                    self.mark_signal(tid, signal);
                }
                Ok(false)
            },
            WaitStatus::Other => Err(Halt::Failed(TraceError::UnexpectedStatus(status))),
        }
    }
}

// ---- all threads together ----

/// The threads that run, or those that do not, in order.
pub open spec fn tids_where(threads: Seq<(i32, Thread)>, running: bool) -> Seq<i32>
    decreases threads.len(),
{
    if threads.len() == 0 {
        Seq::empty()
    } else {
        let before = tids_where(threads.drop_last(), running);
        if threads.last().1.running == running {
            before.push(threads.last().0)
        } else {
            before
        }
    }
}

/// The threads that run, or those that do not.
fn list_tids(threads: &Vec<(i32, Thread)>, running: bool) -> (r: Vec<i32>)
    ensures
        r@ == tids_where(threads@, running),
{
    let mut r: Vec<i32> = Vec::new();
    let mut i: usize = 0;
    while i < threads.len()
        invariant
            i <= threads.len(),
            r@ == tids_where(threads@.take(i as int), running),
        decreases threads.len() - i,
    {
        assert(threads@.take(i + 1).drop_last() =~= threads@.take(i as int));
        let t: (i32, Thread) = threads[i];
        if t.1.running == running {
            r.push(t.0);
        }
        i += 1;
    }
    assert(threads@.take(i as int) =~= threads@);
    r
}

/// What comes of letting one thread go on, unless it has a hit to be handled first or is gone. It gets
/// the signal that was kept for it.
pub open spec fn one_resumed(s: InferiorV, tid: i32, replies: Seq<Reply>) -> Ran<()> {
    if has_hit(s.pending_hits, tid) {
        Ran::Gives((), s, replies)
    } else {
        match value_of(s.threads, tid) {
            None => Ran::Gives((), s, replies),
            Some(t) => {
                let s1 = s.with_thread(tid, Thread { pending_signal: None, ..t });
                if replies.len() == 0 {
                    Ran::Waits(Request::Resume(tid, t.pending_signal))
                } else {
                    let rest = replies.drop_first();
                    match replies[0] {
                        Reply::Done => Ran::Gives(
                            (),
                            s1.with_thread(tid, Thread { running: true, pending_signal: None, ..t }),
                            rest,
                        ),
                        Reply::Failed(e) => if e == ESRCH {
                            Ran::Gives((), InferiorV { threads: without(s1.threads, tid), ..s1 }, rest)
                        } else {
                            Ran::Fails(TraceError::System(e), s1, rest)
                        },
                        _ => Ran::Fails(TraceError::UnexpectedReply, s1, rest),
                    }
                }
            },
        }
    }
}

/// What comes of letting some threads go on, one after the other.
pub open spec fn resumed(s: InferiorV, tids: Seq<i32>, replies: Seq<Reply>) -> Ran<()>
    decreases tids.len(),
{
    if tids.len() == 0 {
        Ran::Gives((), s, replies)
    } else {
        match one_resumed(s, tids[0], replies) {
            Ran::Waits(q) => Ran::Waits(q),
            Ran::Fails(e, s1, rest) => Ran::Fails(e, s1, rest),
            Ran::Gives(_, s1, rest) => resumed(s1, tids.drop_first(), rest),
        }
    }
}

/// What comes of letting every thread go on that does not run.
pub open spec fn all_resumed(s: InferiorV, replies: Seq<Reply>) -> Ran<()> {
    resumed(s, tids_where(s.threads, false), replies)
}

/// What comes of asking for some threads to be stopped. Those that cannot be are left alone.
pub open spec fn interrupted(s: InferiorV, tids: Seq<i32>, replies: Seq<Reply>) -> Ran<()>
    decreases tids.len(),
{
    if tids.len() == 0 {
        Ran::Gives((), s, replies)
    } else if replies.len() == 0 {
        Ran::Waits(Request::Interrupt(tids[0]))
    } else {
        let s1 = if replies[0] == Reply::Done {
            s.with_changed(tids[0], |t: Thread| Thread { sigstop_sent: true, ..t })
        } else {
            s
        };
        interrupted(s1, tids.drop_first(), replies.drop_first())
    }
}

/// Whether a thread is known to run.
pub open spec fn runs(s: InferiorV, tid: i32) -> bool {
    value_of(s.threads, tid) matches Some(t) && t.running
}

/// What comes of waiting until none of some threads runs.
pub open spec fn awaited(s: InferiorV, tids: Seq<i32>, replies: Seq<Reply>) -> Ran<()>
    decreases replies.len(), tids.len(),
{
    if tids.len() == 0 {
        Ran::Gives((), s, replies)
    } else if !runs(s, tids[0]) {
        awaited(s, tids.drop_first(), replies)
    } else {
        proof {
            lemma_waited_shorter(Request::WaitThread(tids[0]), replies);
        }
        match waited(Request::WaitThread(tids[0]), replies) {
            Io::Waits(q) => Ran::Waits(q),
            Io::Fails(e, rest) => Ran::Fails(e, s, rest),
            Io::Gives(status, rest) => {
                proof {
                    lemma_status_shorter(s, status, rest);
                }
                match status_handled(s, status, rest) {
                    Ran::Waits(q) => Ran::Waits(q),
                    Ran::Fails(e, s1, rest) => Ran::Fails(e, s1, rest),
                    Ran::Gives(_, s1, rest) => awaited(s1, tids, rest),
                }
            },
        }
    }
}

/// What comes of stopping every thread that runs.
pub open spec fn world_stopped(s: InferiorV, replies: Seq<Reply>) -> Ran<()> {
    let tids = tids_where(s.threads, true);
    after(
        interrupted(s, tids, replies),
        |u: (), s1: InferiorV, rest: Seq<Reply>| awaited(s1, tids, rest),
    )
}

impl Inferior {
    /// Whether a thread has reached a breakpoint that was not handled yet.
    fn hit_pending(&self, tid: i32) -> (r: bool)
        ensures
            r == has_hit(self@.pending_hits, tid),
    {
        let mut i: usize = 0;
        while i < self.pending_hits.len()
            invariant
                i <= self.pending_hits.len(),
                forall|k: int| 0 <= k < i ==> (#[trigger] self.pending_hits@[k]).0 != tid,
            decreases self.pending_hits.len() - i,
        {
            if self.pending_hits[i].0 == tid {
                assert(self@.pending_hits[i as int].0 == tid);
                return true;
            }
            i += 1;
        }
        false
    }

    /// Lets one thread go on.
    fn resume_one(&mut self, io: &mut Transcript, tid: i32) -> (r: Result<(), Halt>)
        ensures
            ended(r, final(self)@, *final(io), one_resumed(old(self)@, tid, old(io).rest())),
    {
        if self.hit_pending(tid) {
            return Ok(());
        }
        let t: Thread = match get(&self.threads, tid) {
            Some(t) => t,
            None => {
                return Ok(());
            },
        };
        let ghost before = self@;
        let waiting = Thread { running: t.running, pending_signal: None, sigstop_sent: t.sigstop_sent };
        put(&mut self.threads, tid, waiting);
        assert(self@ =~= before.with_thread(tid, waiting));
        match io.ask(Request::Resume(tid, t.pending_signal)) {
            None => Err(Halt::Waiting),
            Some(Reply::Done) => {
                let going = Thread { running: true, pending_signal: None, sigstop_sent: t.sigstop_sent };
                put(&mut self.threads, tid, going);
                assert(self@ =~= before.with_thread(tid, waiting).with_thread(tid, going));
                Ok(())
            },
            Some(Reply::Failed(e)) => {
                if e == ESRCH {
                    remove(&mut self.threads, tid);
                    let ghost s1 = before.with_thread(tid, waiting);
                    assert(self@ =~= InferiorV { threads: without(s1.threads, tid), ..s1 });
                    Ok(())
                } else {
                    Err(Halt::Failed(TraceError::System(e)))
                }
            },
            Some(_) => Err(Halt::Failed(TraceError::UnexpectedReply)),
        }
    }

    /// Lets every thread go on that does not run.
    pub(crate) fn resume_all(&mut self, io: &mut Transcript) -> (r: Result<(), Halt>)
        ensures
            ended(r, final(self)@, *final(io), all_resumed(old(self)@, old(io).rest())),
    {
        let tids: Vec<i32> = list_tids(&self.threads, false);
        let ghost whole = all_resumed(self@, io.rest());
        let mut i: usize = 0;
        assert(tids@.skip(0) =~= tids@);
        while i < tids.len()
            invariant
                i <= tids.len(),
                whole == all_resumed(old(self)@, old(io).rest()),
                whole == resumed(self@, tids@.skip(i as int), io.rest()),
            decreases tids.len() - i,
        {
            assert(tids@.skip(i as int).drop_first() =~= tids@.skip(i + 1));
            self.resume_one(io, tids[i])?;
            i += 1;
        }
        assert(tids@.skip(i as int) =~= Seq::<i32>::empty());
        Ok(())
    }

    /// Asks for some threads to be stopped.
    fn interrupt(&mut self, io: &mut Transcript, tids: &Vec<i32>) -> (r: Result<(), Halt>)
        ensures
            ended(r, final(self)@, *final(io), interrupted(old(self)@, tids@, old(io).rest())),
    {
        let ghost whole = interrupted(self@, tids@, io.rest());
        let mut i: usize = 0;
        assert(tids@.skip(0) =~= tids@);
        while i < tids.len()
            invariant
                i <= tids.len(),
                whole == interrupted(old(self)@, tids@, old(io).rest()),
                whole == interrupted(self@, tids@.skip(i as int), io.rest()),
            decreases tids.len() - i,
        {
            assert(tids@.skip(i as int).drop_first() =~= tids@.skip(i + 1));
            let ghost before = self@;
            let tid: i32 = tids[i];
            match io.ask(Request::Interrupt(tid)) {
                None => {
                    return Err(Halt::Waiting);
                },
                Some(Reply::Done) => {
                    if let Some(t) = get(&self.threads, tid) {
                        put(
                            &mut self.threads,
                            tid,
                            Thread { running: t.running, pending_signal: t.pending_signal, sigstop_sent: true },
                        );
                    }
                    assert(self@ =~= before.with_changed(tid, |t: Thread| Thread { sigstop_sent: true, ..t }));
                },
                Some(_) => {},
            }
            i += 1;
        }
        assert(tids@.skip(i as int) =~= Seq::<i32>::empty());
        Ok(())
    }

    /// Waits until none of some threads runs.
    fn await_stops(&mut self, io: &mut Transcript, tids: &Vec<i32>) -> (r: Result<(), Halt>)
        ensures
            ended(r, final(self)@, *final(io), awaited(old(self)@, tids@, old(io).rest())),
    {
        let ghost whole = awaited(self@, tids@, io.rest());
        let mut i: usize = 0;
        assert(tids@.skip(0) =~= tids@);
        while i < tids.len()
            invariant
                i <= tids.len(),
                whole == awaited(old(self)@, tids@, old(io).rest()),
                whole == awaited(self@, tids@.skip(i as int), io.rest()),
            decreases io.rest().len(), tids.len() - i,
        {
            let tid: i32 = tids[i];
            assert(tids@.skip(i as int).drop_first() =~= tids@.skip(i + 1));
            let running: bool = match get(&self.threads, tid) {
                Some(t) => t.running,
                None => false,
            };
            if running {
                let ghost s = self@;
                proof {
                    lemma_waited_shorter(Request::WaitThread(tid), io.rest());
                }
                let status: WaitStatus = wait_thread(io, tid)?;
                proof {
                    lemma_status_shorter(s, status, io.rest());
                }
                self.handle_status(io, status)?;
            } else {
                i += 1;
            }
        }
        assert(tids@.skip(i as int) =~= Seq::<i32>::empty());
        Ok(())
    }

    /// Stops every thread that runs.
    pub(crate) fn stop_world(&mut self, io: &mut Transcript) -> (r: Result<(), Halt>)
        ensures
            ended(r, final(self)@, *final(io), world_stopped(old(self)@, old(io).rest())),
    {
        let tids: Vec<i32> = list_tids(&self.threads, true);
        self.interrupt(io, &tids)?;
        self.await_stops(io, &tids)
    }
}

// ---- running ----

/// What comes of the first hit that was not handled yet.
pub open spec fn hit_taken(s: InferiorV) -> InferiorV {
    InferiorV {
        pending_hits: s.pending_hits.drop_first(),
        current: Some(s.pending_hits[0].0),
        current_bp: Some(s.pending_hits[0].1),
        ..s
    }
}

/// What comes of having waited for any thread while all run.
pub open spec fn round_ended(s: InferiorV, replies: Seq<Reply>) -> Ran<Option<Stop>> {
    if replies.len() == 0 {
        Ran::Waits(Request::WaitAny)
    } else if replies[0] == Reply::Failed(EINTR) {
        Ran::Gives(Some(Stop::Interrupted), s, replies.drop_first())
    } else {
        match as_status(replies[0]) {
            Err(e) => Ran::Fails(e, s, replies.drop_first()),
            Ok(status) => after(
                status_handled(s, status, replies.drop_first()),
                |exited: bool, s1: InferiorV, rest: Seq<Reply>|
                    if exited {
                        Ran::Gives(Some(Stop::Exited), s1, rest)
                    } else if s1.pending_hits.len() > 0 {
                        after(
                            world_stopped(s1, rest),
                            |u: (), s2: InferiorV, rest: Seq<Reply>| Ran::Gives(None, s2, rest),
                        )
                    } else {
                        Ran::Gives(None, s1, rest)
                    },
            ),
        }
    }
}

/// What comes of a round of running: why the process stopped, or nothing where another round is due.
/// A hit that was not handled yet comes first. Else all threads go on until something becomes of one;
/// once a breakpoint is reached, all are stopped.
pub open spec fn round_run(s: InferiorV, replies: Seq<Reply>) -> Ran<Option<Stop>> {
    if s.pending_hits.len() > 0 {
        Ran::Gives(
            Some(Stop::Hit(s.pending_hits[0].0, s.pending_hits[0].1)),
            hit_taken(s),
            replies,
        )
    } else if s.threads.len() == 0 {
        Ran::Gives(Some(Stop::Exited), s, replies)
    } else {
        after(
            all_resumed(s, replies),
            |u: (), s1: InferiorV, rest: Seq<Reply>| round_ended(s1, rest),
        )
    }
}

impl Inferior {
    /// Runs the process for a round on the way to a breakpoint. Gives why it stopped, or nothing where
    /// another round is due.
    pub fn run_to_breakpoint(&mut self, io: &mut Transcript) -> (r: Result<Option<Stop>, Halt>)
        ensures
            ended(r, final(self)@, *final(io), round_run(old(self)@, old(io).rest())),
    {
        if self.pending_hits.len() > 0 {
            let ghost before = self@;
            let hit: (i32, u64) = self.pending_hits.remove(0);
            self.current = Some(hit.0);
            self.current_bp = Some(hit.1);
            assert(before.pending_hits.remove(0) =~= before.pending_hits.drop_first());
            assert(self@ =~= hit_taken(before));
            return Ok(Some(Stop::Hit(hit.0, hit.1)));
        }
        if self.threads.len() == 0 {
            return Ok(Some(Stop::Exited));
        }
        self.resume_all(io)?;
        let status: WaitStatus = match io.ask(Request::WaitAny) {
            None => {
                return Err(Halt::Waiting);
            },
            Some(Reply::Status(status)) => status,
            Some(Reply::Failed(e)) => {
                if e == EINTR {
                    return Ok(Some(Stop::Interrupted));
                }
                return Err(Halt::Failed(TraceError::System(e)));
            },
            Some(_) => {
                return Err(Halt::Failed(TraceError::UnexpectedReply));
            },
        };
        if self.handle_status(io, status)? {
            return Ok(Some(Stop::Exited));
        }
        if self.pending_hits.len() > 0 {
            self.stop_world(io)?;
        }
        Ok(None)
    }
}

} // verus!
