//! Stepping a thread past a breakpoint.

use vstd::prelude::*;

use crate::inferior::after;
use crate::inferior::after_io;
use crate::inferior::byte_set;
use crate::inferior::ended;
use crate::inferior::set_byte;
use crate::inferior::Inferior;
use crate::inferior::InferiorV;
use crate::inferior::Ran;
use crate::inferior::Thread;
use crate::inferior::TRAP_BYTE;
use crate::table::get;
use crate::table::holds_key;
use crate::table::put;
use crate::table::value_of;
use crate::trace::as_done;
use crate::trace::asked;
use crate::trace::done;
use crate::trace::message_read;
use crate::trace::read_message;
use crate::trace::wait_thread;
use crate::trace::waited;
use crate::trace::Halt;
use crate::trace::Reply;
use crate::trace::Request;
use crate::trace::TraceError;
use crate::trace::Transcript;
use crate::trace::WaitStatus;
use crate::trace::EVENT_CLONE;
use crate::trace::SIGTRAP;

verus! {

/// How often a thread is asked to step before it is given up.
pub const MAX_STEPS: u32 = 64;

/// What comes of what became of a thread that was to step: whether it stepped, or nothing where it is
/// to be asked again; and whether it is still there.
pub enum StepTaken {
    Stepped,
    Gone,
    Again,
}

/// What comes of learning what became of a thread that was to step.
pub open spec fn step_seen(s: InferiorV, tid: i32, status: WaitStatus, replies: Seq<Reply>) -> Ran<StepTaken> {
    match status {
        WaitStatus::Exited(t, code) => {
            let s1 = s.forgotten(t);
            Ran::Gives(
                StepTaken::Gone,
                if t == s.pid {
                    InferiorV { exit_code: Some(code), ..s1 }
                } else {
                    s1
                },
                replies,
            )
        },
        WaitStatus::Stopped(_, signal) => if signal == SIGTRAP {
            Ran::Gives(StepTaken::Stepped, s, replies)
        } else {
            Ran::Gives(StepTaken::Again, s.with_signal(tid, signal), replies)
        },
        WaitStatus::Event(_, event) => if event == EVENT_CLONE {
            after_io(
                message_read(tid, replies),
                s,
                |m: i64, rest: Seq<Reply>| Ran::Gives(StepTaken::Again, s.with_new(m as i32), rest),
            )
        } else {
            Ran::Gives(StepTaken::Again, s, replies)
        },
        _ => Ran::Fails(TraceError::UnexpectedStatus(status), s, replies),
    }
}

/// What comes of asking a thread to step once.
pub open spec fn step_tried(s: InferiorV, tid: i32, replies: Seq<Reply>) -> Ran<StepTaken> {
    after_io(
        asked(Request::Step(tid), replies, |r: Reply| as_done(r)),
        s,
        |u: (), rest: Seq<Reply>|
            after_io(
                waited(Request::WaitThread(tid), rest),
                s,
                |status: WaitStatus, rest: Seq<Reply>| step_seen(s, tid, status, rest),
            ),
    )
}

/// What comes of asking a thread to step, again and again: whether it is still there.
pub open spec fn stepped(s: InferiorV, tid: i32, addr: u64, tries: nat, replies: Seq<Reply>) -> Ran<bool>
    decreases tries,
{
    if tries == 0 {
        Ran::Fails(TraceError::NotStepped(tid, addr), s, replies)
    } else {
        match step_tried(s, tid, replies) {
            Ran::Waits(q) => Ran::Waits(q),
            Ran::Fails(e, s1, rest) => Ran::Fails(e, s1, rest),
            Ran::Gives(StepTaken::Stepped, s1, rest) => Ran::Gives(true, s1, rest),
            Ran::Gives(StepTaken::Gone, s1, rest) => Ran::Gives(false, s1, rest),
            Ran::Gives(StepTaken::Again, s1, rest) => stepped(s1, tid, addr, (tries - 1) as nat, rest),
        }
    }
}

/// The state once a thread has stepped.
pub open spec fn with_halted(s: InferiorV, tid: i32) -> InferiorV {
    s.with_changed(tid, |t: Thread| Thread { running: false, ..t })
}

/// What comes of putting the instruction of a breakpoint back, if the breakpoint is armed.
pub open spec fn trap_restored(s: InferiorV, tid: i32, addr: u64, replies: Seq<Reply>) -> Ran<()> {
    if value_of(s.breakpoints, addr) matches Some(bp) && bp.armed {
        after_io(
            byte_set(tid, addr, TRAP_BYTE, replies),
            s,
            |u: (), rest: Seq<Reply>| Ran::Gives((), with_halted(s, tid), rest),
        )
    } else {
        Ran::Gives((), with_halted(s, tid), replies)
    }
}

/// What comes of stepping a thread past a breakpoint: the byte that was there is put back, the thread
/// steps, and an armed breakpoint is put in again. Nothing, where there is no such breakpoint or thread.
pub open spec fn stepped_over(s: InferiorV, tid: i32, addr: u64, replies: Seq<Reply>) -> Ran<()> {
    match value_of(s.breakpoints, addr) {
        None => Ran::Gives((), s, replies),
        Some(bp) => if !holds_key(s.threads, tid) {
            Ran::Gives((), s, replies)
        } else {
            after_io(
                byte_set(tid, addr, bp.original_byte, replies),
                s,
                |u: (), rest: Seq<Reply>|
                    after(
                        stepped(s, tid, addr, MAX_STEPS as nat, rest),
                        |there: bool, s1: InferiorV, rest: Seq<Reply>|
                            if there {
                                trap_restored(s1, tid, addr, rest)
                            } else {
                                Ran::Gives((), s1, rest)
                            },
                    ),
            )
        },
    }
}

impl Inferior {
    /// Learns what became of a thread that was to step.
    fn see_step(&mut self, io: &mut Transcript, tid: i32, status: WaitStatus) -> (r: Result<StepTaken, Halt>)
        ensures
            ended(r, final(self)@, *final(io), step_seen(old(self)@, tid, status, old(io).rest())),
    {
        match status {
            WaitStatus::Exited(t, code) => {
                self.forget(t);
                if t == self.pid {
                    self.exit_code = Some(code);
                }
                Ok(StepTaken::Gone)
            },
            WaitStatus::Stopped(_, signal) => {
                if signal == SIGTRAP {
                    return Ok(StepTaken::Stepped);
                }
                self.mark_signal(tid, signal);
                Ok(StepTaken::Again)
            },
            WaitStatus::Event(_, event) => {
                if event == EVENT_CLONE {
                    let message: i64 = read_message(io, tid)?;
                    self.mark_new(#[verifier::truncate] (message as i32));
                }
                Ok(StepTaken::Again)
            },
            _ => Err(Halt::Failed(TraceError::UnexpectedStatus(status))),
        }
    }

    /// Asks a thread to step, again and again. Gives whether it is still there.
    fn step_thread(&mut self, io: &mut Transcript, tid: i32, addr: u64) -> (r: Result<bool, Halt>)
        ensures
            ended(r, final(self)@, *final(io), stepped(old(self)@, tid, addr, MAX_STEPS as nat, old(io).rest())),
    {
        let ghost whole = stepped(self@, tid, addr, MAX_STEPS as nat, io.rest());
        let mut tries: u32 = MAX_STEPS;
        while tries > 0
            invariant
                whole == stepped(old(self)@, tid, addr, MAX_STEPS as nat, old(io).rest()),
                whole == stepped(self@, tid, addr, tries as nat, io.rest()),
            decreases tries,
        {
            done(io, Request::Step(tid))?;
            let status: WaitStatus = wait_thread(io, tid)?;
            match self.see_step(io, tid, status)? {
                StepTaken::Stepped => {
                    return Ok(true);
                },
                StepTaken::Gone => {
                    return Ok(false);
                },
                StepTaken::Again => {},
            }
            tries = tries - 1;
        }
        Err(Halt::Failed(TraceError::NotStepped(tid, addr)))
    }

    /// Steps a thread past a breakpoint.
    pub(crate) fn step_thread_over(&mut self, io: &mut Transcript, tid: i32, runtime_addr: u64) -> (r: Result<
        (),
        Halt,
    >)
        ensures
            ended(r, final(self)@, *final(io), stepped_over(old(self)@, tid, runtime_addr, old(io).rest())),
    {
        let original_byte: u8 = match get(&self.breakpoints, runtime_addr) {
            Some(bp) => bp.original_byte,
            None => {
                return Ok(());
            },
        };
        if get(&self.threads, tid).is_none() {
            return Ok(());
        }
        set_byte(io, tid, runtime_addr, original_byte)?;
        if !self.step_thread(io, tid, runtime_addr)? {
            return Ok(());
        }
        let armed: bool = match get(&self.breakpoints, runtime_addr) {
            Some(bp) => bp.armed,
            None => false,
        };
        if armed {
            set_byte(io, tid, runtime_addr, TRAP_BYTE)?;
        }
        self.halt(tid);
        Ok(())
    }

    /// Notes that a thread does not run, if it is known.
    pub(crate) fn halt(&mut self, tid: i32)
        ensures
            final(self)@ == with_halted(old(self)@, tid),
    {
        if let Some(t) = get(&self.threads, tid) {
            put(
                &mut self.threads,
                tid,
                Thread { running: false, pending_signal: t.pending_signal, sigstop_sent: t.sigstop_sent },
            );
        }
        assert(self@ =~= with_halted(old(self)@, tid));
    }

    /// Steps a thread past the breakpoint that was handled.
    pub fn step_over(&mut self, io: &mut Transcript, tid: i32, runtime_addr: u64) -> (r: Result<(), Halt>)
        ensures
            ended(
                r,
                final(self)@,
                *final(io),
                stepped_over(
                    InferiorV { current: None, current_bp: None, ..old(self)@ },
                    tid,
                    runtime_addr,
                    old(io).rest(),
                ),
            ),
    {
        self.current = None;
        self.current_bp = None;
        assert(self@ =~= (InferiorV { current: None, current_bp: None, ..old(self)@ }));
        self.step_thread_over(io, tid, runtime_addr)
    }
}

} // verus!
