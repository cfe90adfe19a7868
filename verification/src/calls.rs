//! Calls of the target's own functions, put into a thread that stopped at a breakpoint.

use vstd::prelude::*;

use crate::inferior::after;
use crate::inferior::after_io;
use crate::inferior::armed_at;
use crate::inferior::byte_set;
use crate::inferior::disarmed_at;
use crate::inferior::ended;
use crate::inferior::plus;
use crate::inferior::set_byte;
use crate::inferior::Breakpoint;
use crate::inferior::Call;
use crate::inferior::Inferior;
use crate::inferior::InferiorV;
use crate::inferior::Ran;
use crate::inferior::TRAP_BYTE;
use crate::regs::argument_register;
use crate::regs::law_register_read;
use crate::regs::Regs;
use crate::replay::lemma_call_awaited_shorter;
use crate::stepping::stepped_over;
use crate::stepping::with_halted;
use crate::table::get;
use crate::table::holds_key;
use crate::table::value_of;
use crate::threads::all_resumed;
use crate::threads::before_it;
use crate::threads::status_handled;
use crate::threads::world_stopped;
use crate::trace::read_regs;
use crate::trace::regs_read;
use crate::trace::regs_written;
use crate::trace::told;
use crate::trace::wait_any;
use crate::trace::waited;
use crate::trace::word_written;
use crate::trace::write_regs;
use crate::trace::write_word;
use crate::trace::Halt;
use crate::trace::Io;
use crate::trace::Reply;
use crate::trace::Request;
use crate::trace::TraceError;
use crate::trace::Transcript;
use crate::trace::WaitStatus;
use crate::trace::SIGSTOP;
use crate::trace::SIGTRAP;

verus! {

/// The most arguments of a call: those that are passed in registers.
pub const MAX_CALL_ARGS: usize = 6;

/// How far below the stack pointer a call has its stack.
pub const CALL_STACK_GAP: u64 = 1024;

// ---- breakpoints out of the way ----

/// The armed breakpoints but one, with the bytes that they take the place of.
pub open spec fn others_armed(breakpoints: Seq<(u64, Breakpoint)>, keep: u64) -> Seq<(u64, u8)>
    decreases breakpoints.len(),
{
    if breakpoints.len() == 0 {
        Seq::empty()
    } else {
        let before = others_armed(breakpoints.drop_last(), keep);
        let last = breakpoints.last();
        if last.0 != keep && last.1.armed {
            before.push((last.0, last.1.original_byte))
        } else {
            before
        }
    }
}

/// What comes of putting bytes at addresses, one after the other.
pub open spec fn bytes_set(tid: i32, list: Seq<(u64, u8)>, replies: Seq<Reply>) -> Io<()>
    decreases list.len(),
{
    if list.len() == 0 {
        Io::Gives((), replies)
    } else {
        match byte_set(tid, list[0].0, list[0].1, replies) {
            Io::Waits(q) => Io::Waits(q),
            Io::Fails(e, rest) => Io::Fails(e, rest),
            Io::Gives(_, rest) => bytes_set(tid, list.drop_first(), rest),
        }
    }
}

/// The instruction of a breakpoint for each address of a list.
pub open spec fn traps(list: Seq<(u64, u8)>) -> Seq<(u64, u8)> {
    list.map_values(|p: (u64, u8)| (p.0, TRAP_BYTE))
}

/// The armed breakpoints but one.
fn list_others(breakpoints: &Vec<(u64, Breakpoint)>, keep: u64) -> (r: Vec<(u64, u8)>)
    ensures
        r@ == others_armed(breakpoints@, keep),
{
    let mut r: Vec<(u64, u8)> = Vec::new();
    let mut i: usize = 0;
    while i < breakpoints.len()
        invariant
            i <= breakpoints.len(),
            r@ == others_armed(breakpoints@.take(i as int), keep),
        decreases breakpoints.len() - i,
    {
        assert(breakpoints@.take(i + 1).drop_last() =~= breakpoints@.take(i as int));
        let bp: (u64, Breakpoint) = breakpoints[i];
        if bp.0 != keep && bp.1.armed {
            r.push((bp.0, bp.1.original_byte));
        }
        i += 1;
    }
    assert(breakpoints@.take(i as int) =~= breakpoints@);
    r
}

/// Puts bytes at addresses, one after the other.
fn set_bytes(io: &mut Transcript, tid: i32, list: &Vec<(u64, u8)>) -> (r: Result<(), Halt>)
    ensures
        told(r, *final(io), bytes_set(tid, list@, old(io).rest())),
{
    let ghost whole = bytes_set(tid, list@, io.rest());
    let mut i: usize = 0;
    assert(list@.skip(0) =~= list@);
    while i < list.len()
        invariant
            i <= list.len(),
            whole == bytes_set(tid, list@, old(io).rest()),
            whole == bytes_set(tid, list@.skip(i as int), io.rest()),
        decreases list.len() - i,
    {
        assert(list@.skip(i as int).drop_first() =~= list@.skip(i + 1));
        let one: (u64, u8) = list[i];
        set_byte(io, tid, one.0, one.1)?;
        i += 1;
    }
    assert(list@.skip(i as int) =~= Seq::<(u64, u8)>::empty());
    Ok(())
}

/// The instruction of a breakpoint for each address of a list.
fn list_traps(list: &Vec<(u64, u8)>) -> (r: Vec<(u64, u8)>)
    ensures
        r@ == traps(list@),
{
    let mut r: Vec<(u64, u8)> = Vec::new();
    let mut i: usize = 0;
    while i < list.len()
        invariant
            i <= list.len(),
            r@ == traps(list@).take(i as int),
        decreases list.len() - i,
    {
        r.push((list[i].0, TRAP_BYTE));
        assert(traps(list@).take(i + 1) =~= traps(list@).take(i as int).push(traps(list@)[i as int]));
        i += 1;
    }
    assert(traps(list@).take(i as int) =~= traps(list@));
    r
}

// ---- the start of a call ----

/// The stack pointer of a call once it has returned: some way below that of the thread, aligned.
pub open spec fn call_stack(rsp: u64) -> u64 {
    let low = plus(rsp, -(CALL_STACK_GAP as int));
    (low - low % 16) as u64
}

/// The registers with the arguments of a call in place.
pub open spec fn with_args(regs: Regs, args: Seq<u64>) -> Regs {
    Regs {
        rdi: if args.len() > 0 { args[0] } else { regs.rdi },
        rsi: if args.len() > 1 { args[1] } else { regs.rsi },
        rdx: if args.len() > 2 { args[2] } else { regs.rdx },
        rcx: if args.len() > 3 { args[3] } else { regs.rcx },
        r8: if args.len() > 4 { args[4] } else { regs.r8 },
        r9: if args.len() > 5 { args[5] } else { regs.r9 },
        ..regs
    }
}

/// The registers with which a thread enters a function: its arguments in place, the return address on
/// top of the stack, and a clear accumulator.
pub open spec fn entry_regs(saved: Regs, func: u64, args: Seq<u64>) -> Regs {
    Regs { rsp: plus(call_stack(saved.rsp), -8), rip: func, rax: 0, ..with_args(saved, args) }
}

/// What comes of getting the other breakpoints out of the way of a call, and of its being on its way.
pub open spec fn others_set_aside(s: InferiorV, call: Call, replies: Seq<Reply>) -> Ran<()> {
    let list = others_armed(s.breakpoints, call.trap);
    after_io(
        bytes_set(s.tracee(), list, replies),
        s,
        |u: (), rest: Seq<Reply>|
            Ran::Gives(
                (),
                with_halted(InferiorV { call: Some(call), set_aside: list, ..s }, call.tid),
                rest,
            ),
    )
}

/// What comes of making the breakpoint that a call returns to an armed one, and then going on.
pub open spec fn trap_readied(s: InferiorV, call: Call, replies: Seq<Reply>) -> Ran<()> {
    if call.trap_was_armed {
        others_set_aside(s, call, replies)
    } else {
        after(
            armed_at(s, call.trap, replies),
            |u: (), s1: InferiorV, rest: Seq<Reply>| others_set_aside(s1, call, rest),
        )
    }
}

/// Whether the breakpoint at an address is armed.
pub open spec fn is_armed(s: InferiorV, addr: u64) -> bool {
    value_of(s.breakpoints, addr) matches Some(bp) && bp.armed
}

/// What comes of entering a function: the return address is put on the stack and the registers are
/// set.
pub open spec fn entered(s: InferiorV, tid: i32, trap: u64, func: u64, args: Seq<u64>, replies: Seq<Reply>) -> Ran<()> {
    after_io(
        regs_read(tid, replies),
        s,
        |saved: Regs, rest: Seq<Reply>|
            after_io(
                word_written(tid, plus(call_stack(saved.rsp), -8), trap, rest),
                s,
                |u: (), rest: Seq<Reply>|
                    after_io(
                        regs_written(tid, entry_regs(saved, func, args), rest),
                        s,
                        |u: (), rest: Seq<Reply>|
                            trap_readied(
                                s,
                                Call {
                                    tid,
                                    trap,
                                    expected_rsp: call_stack(saved.rsp),
                                    saved,
                                    trap_was_armed: is_armed(s, trap),
                                },
                                rest,
                            ),
                    ),
            ),
    )
}

/// What comes of beginning a call of the function at `func`, in the thread whose breakpoint is handled.
pub open spec fn call_begun(s: InferiorV, func: u64, args: Seq<u64>, replies: Seq<Reply>) -> Ran<()> {
    if args.len() > MAX_CALL_ARGS {
        Ran::Fails(TraceError::TooManyArgs, s, replies)
    } else if s.current is None {
        Ran::Fails(TraceError::NoCurrentThread, s, replies)
    } else if s.current_bp is None {
        Ran::Fails(TraceError::NoCurrentBreakpoint, s, replies)
    } else if s.threads.len() == 0 {
        Ran::Fails(TraceError::TargetGone, s, replies)
    } else if !holds_key(s.threads, s.current.unwrap()) {
        Ran::Fails(TraceError::ThreadGone(s.current.unwrap()), s, replies)
    } else {
        entered(s, s.current.unwrap(), s.current_bp.unwrap(), func, args, replies)
    }
}

/// The registers with which a thread enters a function.
fn make_entry_regs(saved: Regs, func: u64, args: &Vec<u64>) -> (r: Regs)
    ensures
        r == entry_regs(saved, func, args@),
{
    let mut regs: Regs = saved;
    if args.len() > 0 {
        regs.rdi = args[0];
    }
    if args.len() > 1 {
        regs.rsi = args[1];
    }
    if args.len() > 2 {
        regs.rdx = args[2];
    }
    if args.len() > 3 {
        regs.rcx = args[3];
    }
    if args.len() > 4 {
        regs.r8 = args[4];
    }
    if args.len() > 5 {
        regs.r9 = args[5];
    }
    regs.rsp = return_slot(saved.rsp);
    regs.rip = func;
    regs.rax = 0;
    regs
}

/// The stack pointer of a call once it has returned.
fn make_call_stack(rsp: u64) -> (r: u64)
    ensures
        r == call_stack(rsp),
{
    let low: u64 = rsp.wrapping_sub(CALL_STACK_GAP);
    assert(low == plus(rsp, -(CALL_STACK_GAP as int)));
    low - low % 16
}

/// Where the return address of a call lies.
fn return_slot(rsp: u64) -> (r: u64)
    ensures
        r == plus(call_stack(rsp), -8),
{
    let top: u64 = make_call_stack(rsp);
    let r: u64 = top.wrapping_sub(8);
    assert(r == plus(top, -8));
    r
}

impl Inferior {
    /// Begins a call of the function at `func`, with arguments in registers, in the thread whose
    /// breakpoint is handled. The call returns to that breakpoint; all others are out of its way.
    fn begin_call(&mut self, io: &mut Transcript, func: u64, args: &Vec<u64>) -> (r: Result<(), Halt>)
        ensures
            ended(r, final(self)@, *final(io), call_begun(old(self)@, func, args@, old(io).rest())),
    {
        if args.len() > MAX_CALL_ARGS {
            return Err(Halt::Failed(TraceError::TooManyArgs));
        }
        let tid: i32 = match self.current {
            Some(tid) => tid,
            None => {
                return Err(Halt::Failed(TraceError::NoCurrentThread));
            },
        };
        let trap: u64 = match self.current_bp {
            Some(addr) => addr,
            None => {
                return Err(Halt::Failed(TraceError::NoCurrentBreakpoint));
            },
        };
        if self.threads.len() == 0 {
            return Err(Halt::Failed(TraceError::TargetGone));
        }
        if get(&self.threads, tid).is_none() {
            return Err(Halt::Failed(TraceError::ThreadGone(tid)));
        }
        let saved: Regs = read_regs(io, tid)?;
        write_word(io, tid, return_slot(saved.rsp), trap)?;
        write_regs(io, tid, make_entry_regs(saved, func, args))?;
        let trap_was_armed: bool = match get(&self.breakpoints, trap) {
            Some(bp) => bp.armed,
            None => false,
        };
        if !trap_was_armed {
            self.arm(io, trap)?;
        }
        let call = Call { tid, trap, expected_rsp: make_call_stack(saved.rsp), saved, trap_was_armed };
        self.set_others_aside(io, call)
    }

    /// Gets the other breakpoints out of the way of a call.
    fn set_others_aside(&mut self, io: &mut Transcript, call: Call) -> (r: Result<(), Halt>)
        ensures
            ended(r, final(self)@, *final(io), others_set_aside(old(self)@, call, old(io).rest())),
    {
        let list: Vec<(u64, u8)> = list_others(&self.breakpoints, call.trap);
        set_bytes(io, self.ptrace_pid(), &list)?;
        let ghost before = self@;
        self.call = Some(call);
        self.set_aside = list;
        assert(self@ =~= (InferiorV { call: Some(call), set_aside: list@, ..before }));
        self.halt(call.tid);
        Ok(())
    }
}

// ---- the end of a call ----

/// What comes of the thread of a call having stopped with a trap. At the breakpoint that the call
/// returns to, with the stack pointer where it is once it has returned, it is over, and gives two
/// registers. At that breakpoint with another stack pointer, the function was entered again from
/// elsewhere, and is let past.
pub open spec fn call_trapped(s: InferiorV, call: Call, replies: Seq<Reply>) -> Ran<Option<(u64, u64)>> {
    let s1 = s.with_stopped(call.tid);
    after_io(
        regs_read(call.tid, replies),
        s1,
        |regs: Regs, rest: Seq<Reply>|
            if before_it(regs.rip) != call.trap {
                Ran::Gives(None, s1, rest)
            } else if regs.rsp == call.expected_rsp {
                Ran::Gives(Some((regs.rax, regs.rdx)), s1, rest)
            } else {
                after_io(
                    regs_written(call.tid, Regs { rip: call.trap, ..regs }, rest),
                    s1,
                    |u: (), rest: Seq<Reply>|
                        after(
                            stepped_over(s1, call.tid, call.trap, rest),
                            |u: (), s2: InferiorV, rest: Seq<Reply>| Ran::Gives(None, s2, rest),
                        ),
                )
            },
    )
}

/// What comes of learning what became of a thread during a call.
pub open spec fn call_status(s: InferiorV, call: Call, status: WaitStatus, replies: Seq<Reply>) -> Ran<
    Option<(u64, u64)>,
> {
    if status == WaitStatus::Stopped(call.tid, SIGTRAP) {
        call_trapped(s, call, replies)
    } else {
        after(
            status_handled(s, status, replies),
            |exited: bool, s1: InferiorV, rest: Seq<Reply>|
                if exited {
                    Ran::Fails(TraceError::ExitedDuringCall, s1, rest)
                } else {
                    Ran::Gives(None, s1, rest)
                },
        )
    }
}

/// What comes of a round of waiting for a call: what it gave, or nothing where another round is due.
pub open spec fn call_awaited(s: InferiorV, replies: Seq<Reply>) -> Ran<Option<(u64, u64)>> {
    match s.call {
        None => Ran::Fails(TraceError::NoCall, s, replies),
        Some(call) => after(
            all_resumed(s, replies),
            |u: (), s1: InferiorV, rest: Seq<Reply>|
                after_io(
                    waited(Request::WaitAny, rest),
                    s1,
                    |status: WaitStatus, rest: Seq<Reply>| call_status(s1, call, status, rest),
                ),
        ),
    }
}

/// What comes of the last step of ending a call: the registers are as they were before it.
pub open spec fn regs_restored(s: InferiorV, call: Call, stopped: Option<TraceError>, replies: Seq<Reply>) -> Ran<()> {
    after_io(
        regs_written(call.tid, call.saved, replies),
        s,
        |u: (), rest: Seq<Reply>|
            match stopped {
                Some(e) => Ran::Fails(e, s, rest),
                None => Ran::Gives((), s, rest),
            },
    )
}

/// What comes of putting the breakpoints back as they were before a call, and then the registers.
pub open spec fn call_undone(
    s: InferiorV,
    call: Call,
    list: Seq<(u64, u8)>,
    stopped: Option<TraceError>,
    replies: Seq<Reply>,
) -> Ran<()> {
    after_io(
        bytes_set(s.tracee(), traps(list), replies),
        s,
        |u: (), rest: Seq<Reply>|
            if call.trap_was_armed {
                regs_restored(s, call, stopped, rest)
            } else {
                after(
                    disarmed_at(s, call.trap, rest),
                    |u: (), s1: InferiorV, rest: Seq<Reply>| regs_restored(s1, call, stopped, rest),
                )
            },
    )
}

/// What comes of ending a call, whether it has returned or not: every thread is stopped, and
/// breakpoints and registers are put back as they were. That not every thread could be stopped is told
/// in the end.
pub open spec fn call_ended(s: InferiorV, replies: Seq<Reply>) -> Ran<()> {
    match s.call {
        None => Ran::Fails(TraceError::NoCall, s, replies),
        Some(call) => {
            let list = s.set_aside;
            let s0 = InferiorV { call: None, set_aside: Seq::empty(), ..s };
            match world_stopped(s0, replies) {
                Ran::Waits(q) => Ran::Waits(q),
                Ran::Fails(e, s1, rest) => call_undone(s1, call, list, Some(e), rest),
                Ran::Gives(_, s1, rest) => call_undone(s1, call, list, None, rest),
            }
        },
    }
}

/// What comes of waiting for a call, round after round, until it has given something.
pub open spec fn call_lasted(s: InferiorV, replies: Seq<Reply>) -> Ran<(u64, u64)>
    decreases replies.len(),
{
    match call_awaited(s, replies) {
        Ran::Waits(q) => Ran::Waits(q),
        Ran::Fails(e, s1, rest) => Ran::Fails(e, s1, rest),
        Ran::Gives(Some(v), s1, rest) => Ran::Gives(v, s1, rest),
        Ran::Gives(None, s1, rest) => if rest.len() < replies.len() {
            call_lasted(s1, rest)
        } else {
            Ran::Fails(TraceError::NoCall, s1, rest)
        },
    }
}

/// What comes of ending a call that gave something, or failed.
pub open spec fn call_concluded(given: Result<(u64, u64), TraceError>, s: InferiorV, replies: Seq<Reply>) -> Ran<
    (u64, u64),
> {
    after(
        call_ended(s, replies),
        |u: (), s1: InferiorV, rest: Seq<Reply>|
            match given {
                Ok(v) => Ran::Gives(v, s1, rest),
                Err(e) => Ran::Fails(e, s1, rest),
            },
    )
}

/// What comes of calling the function at `func` in the thread whose breakpoint is handled: what the
/// function gave in two registers.
pub open spec fn call_made(s: InferiorV, func: u64, args: Seq<u64>, replies: Seq<Reply>) -> Ran<(u64, u64)> {
    after(
        call_begun(s, func, args, replies),
        |u: (), s1: InferiorV, rest: Seq<Reply>|
            match call_lasted(s1, rest) {
                Ran::Waits(q) => Ran::Waits(q),
                Ran::Fails(e, s2, rest) => call_concluded(Err(e), s2, rest),
                Ran::Gives(v, s2, rest) => call_concluded(Ok(v), s2, rest),
            },
    )
}

/// Whether what became of a thread during a call is out of the ordinary.
pub open spec fn unusual_during_call(status: WaitStatus, tid: i32) -> bool {
    match status {
        WaitStatus::Event(_, _) => false,
        WaitStatus::Stopped(t, signal) => signal != SIGSTOP && !(signal == SIGTRAP && t == tid),
        _ => true,
    }
}

/// Whether what became of a thread during a call is worth telling.
pub fn worth_telling(status: WaitStatus, tid: i32) -> (r: bool)
    ensures
        r == unusual_during_call(status, tid),
{
    match status {
        WaitStatus::Event(_, _) => false,
        WaitStatus::Stopped(t, signal) => signal != SIGSTOP && !(signal == SIGTRAP && t == tid),
        _ => true,
    }
}

impl Inferior {
    /// The thread of a call stopped with a trap.
    fn handle_call_trap(&mut self, io: &mut Transcript, call: Call) -> (r: Result<Option<(u64, u64)>, Halt>)
        ensures
            ended(r, final(self)@, *final(io), call_trapped(old(self)@, call, old(io).rest())),
    {
        self.mark_stopped(call.tid);
        let mut regs: Regs = read_regs(io, call.tid)?;
        let at: u64 = regs.rip.wrapping_sub(1);
        assert(at == before_it(regs.rip));
        if at != call.trap {
            return Ok(None);
        }
        if regs.rsp == call.expected_rsp {
            return Ok(Some((regs.rax, regs.rdx)));
        }
        regs.rip = call.trap;
        write_regs(io, call.tid, regs)?;
        self.step_thread_over(io, call.tid, call.trap)?;
        Ok(None)
    }

    /// Waits for a call for a round. Gives what it gave, or nothing where another round is due.
    fn await_call_return(&mut self, io: &mut Transcript) -> (r: Result<Option<(u64, u64)>, Halt>)
        ensures
            ended(r, final(self)@, *final(io), call_awaited(old(self)@, old(io).rest())),
    {
        let call: Call = match self.call {
            Some(call) => call,
            None => {
                return Err(Halt::Failed(TraceError::NoCall));
            },
        };
        self.resume_all(io)?;
        let status: WaitStatus = wait_any(io)?;
        let ours: bool = match status {
            WaitStatus::Stopped(t, signal) => t == call.tid && signal == SIGTRAP,
            _ => false,
        };
        if ours {
            return self.handle_call_trap(io, call);
        }
        if self.handle_status(io, status)? {
            return Err(Halt::Failed(TraceError::ExitedDuringCall));
        }
        Ok(None)
    }

    /// Ends a call, whether it has returned or not: stops every thread, and puts breakpoints and
    /// registers back as they were.
    fn finish_call(&mut self, io: &mut Transcript) -> (r: Result<(), Halt>)
        ensures
            ended(r, final(self)@, *final(io), call_ended(old(self)@, old(io).rest())),
    {
        let call: Call = match self.call {
            Some(call) => call,
            None => {
                return Err(Halt::Failed(TraceError::NoCall));
            },
        };
        let list: Vec<(u64, u8)> = list_traps(&self.set_aside);
        self.call = None;
        self.set_aside = Vec::new();
        assert(self@ =~= (InferiorV { call: None, set_aside: Seq::empty(), ..old(self)@ }));
        let stopped: Option<TraceError> = match self.stop_world(io) {
            Ok(()) => None,
            Err(Halt::Failed(e)) => Some(e),
            Err(Halt::Waiting) => {
                return Err(Halt::Waiting);
            },
        };
        set_bytes(io, self.ptrace_pid(), &list)?;
        if !call.trap_was_armed {
            self.disarm(io, call.trap)?;
        }
        write_regs(io, call.tid, call.saved)?;
        match stopped {
            Some(e) => Err(Halt::Failed(e)),
            None => Ok(()),
        }
    }

    /// Waits for a call, round after round, until it has given something.
    fn await_call(&mut self, io: &mut Transcript) -> (r: Result<(u64, u64), Halt>)
        ensures
            ended(r, final(self)@, *final(io), call_lasted(old(self)@, old(io).rest())),
    {
        let ghost whole = call_lasted(self@, io.rest());
        loop
            invariant
                whole == call_lasted(old(self)@, old(io).rest()),
                whole == call_lasted(self@, io.rest()),
            decreases io.rest().len(),
        {
            proof {
                lemma_call_awaited_shorter(self@, io.rest());
            }
            if let Some(v) = self.await_call_return(io)? {
                return Ok(v);
            }
        }
    }

    /// Calls the function at `func`, with arguments in registers, in the thread whose breakpoint is
    /// handled, and waits for it to return. Gives what it returned in two registers. Every thread is
    /// stopped then, and breakpoints and registers are as they were.
    pub fn call_function(&mut self, io: &mut Transcript, func: u64, args: &Vec<u64>) -> (r: Result<(u64, u64), Halt>)
        ensures
            ended(r, final(self)@, *final(io), call_made(old(self)@, func, args@, old(io).rest())),
    {
        self.begin_call(io, func, args)?;
        let given: Result<(u64, u64), TraceError> = match self.await_call(io) {
            Ok(v) => Ok(v),
            Err(Halt::Failed(e)) => Err(e),
            Err(Halt::Waiting) => {
                return Err(Halt::Waiting);
            },
        };
        self.finish_call(io)?;
        match given {
            Ok(v) => Ok(v),
            Err(e) => Err(Halt::Failed(e)),
        }
    }
}

// ---- how a function is entered ----

/// A function is entered with its arguments, in order, in the registers in which functions are passed
/// integers; with its address as the instruction pointer; with a clear accumulator; and with a stack
/// pointer below that of the thread, aligned as functions expect it, at which the return address lies.
/// Every other register is as it was.
pub proof fn law_entry_regs(saved: Regs, func: u64, args: Seq<u64>, k: int)
    requires
        args.len() <= MAX_CALL_ARGS,
    ensures
        ({
            let r = entry_regs(saved, func, args);
            &&& 0 <= k < args.len() ==> r.value_of(argument_register(k)) == Some(args[k])
            &&& args.len() <= k < MAX_CALL_ARGS ==> r.value_of(argument_register(k)) == saved.value_of(
                argument_register(k),
            )
            &&& r.rip == func
            &&& r.rax == 0
            &&& (r.rsp + 8) % 16 == 0
            &&& saved.rsp >= CALL_STACK_GAP + 24 ==> r.rsp + 8 + CALL_STACK_GAP <= saved.rsp < r.rsp + 8
                + CALL_STACK_GAP + 16
            &&& plus(r.rsp, 8) == call_stack(saved.rsp)
            &&& r == (Regs {
                rdi: r.rdi,
                rsi: r.rsi,
                rdx: r.rdx,
                rcx: r.rcx,
                r8: r.r8,
                r9: r.r9,
                rax: r.rax,
                rip: r.rip,
                rsp: r.rsp,
                ..saved
            })
        }),
{
    law_register_read(saved, argument_register(k));
    law_register_read(entry_regs(saved, func, args), argument_register(k));
    let low = plus(saved.rsp, -(CALL_STACK_GAP as int));
    let top = call_stack(saved.rsp);
    assert(top % 16 == 0);
    let rsp = plus(top, -8);
    if top == 0 {
        assert(rsp == 0xffff_ffff_ffff_fff8);
    } else {
        assert(top >= 16);
        assert(rsp == top - 8);
    }
    assert((rsp + 8) % 16 == 0);
    assert(plus(rsp, 8) == top);
}

} // verus!
