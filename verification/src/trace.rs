//! The conversation with the kernel about traced threads: what is asked of it, what it replies, and
//! how far a conversation has come.
//!
//! An operation on a traced process is a function of the replies so far. Run on too few of them, it
//! stops at the request that it needs a reply to; run again with that reply added, it gets one step
//! further.

use vstd::prelude::*;

use crate::regs::Regs;

verus! {

/// The signal that a breakpoint raises.
pub const SIGTRAP: i32 = 5;

/// The signal that stops a thread.
pub const SIGSTOP: i32 = 19;

/// The event of a thread that starts another.
pub const EVENT_CLONE: i32 = 3;

/// The error of a call that a signal interrupted.
pub const EINTR: i32 = 4;

/// The error of a call on a thread that does not exist.
pub const ESRCH: i32 = 3;

/// What became of a thread that was waited for.
#[derive(Debug, Clone, Copy, PartialEq, Eq, Structural)]
pub enum WaitStatus {
    /// The thread ended with an exit code.
    Exited(i32, i32),
    /// A signal killed the thread.
    Signaled(i32, i32),
    /// A signal stopped the thread.
    Stopped(i32, i32),
    /// The thread stopped at an event.
    Event(i32, i32),
    /// Anything else.
    Other,
}

/// What is asked of the kernel.
#[derive(Debug, Clone, Copy, PartialEq, Eq, Structural)]
pub enum Request {
    /// To read the eight bytes at an address, as a thread sees it.
    ReadWord(i32, u64),
    /// To write eight bytes to an address.
    WriteWord(i32, u64, u64),
    /// For the registers of a thread.
    GetRegs(i32),
    /// To set the registers of a thread.
    SetRegs(i32, Regs),
    /// To let a thread go on, with a signal to deliver.
    Resume(i32, Option<i32>),
    /// To let a thread go on for one instruction.
    Step(i32),
    /// To stop a thread.
    Interrupt(i32),
    /// To wait for any thread.
    WaitAny,
    /// To wait for one thread.
    WaitThread(i32),
    /// For the message of the event at which a thread stopped.
    EventMessage(i32),
    /// To wait for the start of a process.
    WaitStart(i32),
    /// To be told of the threads that a process starts, and to end it with its tracer.
    TraceClones(i32),
}

/// What the kernel replies.
#[derive(Debug, Clone, Copy, PartialEq, Eq, Structural)]
pub enum Reply {
    Done,
    Word(u64),
    Regs(Regs),
    Status(WaitStatus),
    Message(i64),
    /// The request failed, with the number of an error.
    Failed(i32),
}

/// Why an operation failed.
#[derive(Debug, Clone, Copy, PartialEq, Eq, Structural)]
pub enum TraceError {
    /// The kernel refused a request, with the number of an error.
    System(i32),
    /// A reply was not one to the request.
    UnexpectedReply,
    /// There is no breakpoint at the address.
    NoBreakpoint(u64),
    /// A call can have no more arguments than fit in registers.
    TooManyArgs,
    /// A call can only be made while a hook is handled.
    NoCurrentThread,
    /// A call has to return to a breakpoint.
    NoCurrentBreakpoint,
    /// The process is gone.
    TargetGone,
    /// The thread is gone.
    ThreadGone(i32),
    /// A thread was found in a state that does not fit the operation.
    UnexpectedStatus(WaitStatus),
    /// A signal killed the process.
    Killed(i32),
    /// The thread would not step past the breakpoint.
    NotStepped(i32, u64),
    /// The process ended during a call.
    ExitedDuringCall,
    /// There is no call to wait for.
    NoCall,
    /// There is no such register.
    UnknownRegister,
    /// The register cannot be set.
    FixedRegister,
}

/// Why an operation did not come to a result.
#[derive(Debug, Clone, Copy, PartialEq, Eq, Structural)]
pub enum Halt {
    /// It needs the reply to a request.
    Waiting,
    Failed(TraceError),
}

/// The replies of the kernel, as far as they are known, and how many of them were used.
pub struct Transcript {
    replies: Vec<Reply>,
    used: usize,
    request: Option<Request>,
}

impl Transcript {
    #[verifier::type_invariant]
    spec fn inv(self) -> bool {
        self.used <= self.replies.len()
    }

    /// The replies that were not used yet.
    pub closed spec fn rest(&self) -> Seq<Reply> {
        self.replies@.skip(self.used as int)
    }

    /// All the replies.
    pub closed spec fn all(&self) -> Seq<Reply> {
        self.replies@
    }

    /// The request that has no reply yet.
    pub closed spec fn open_request(&self) -> Option<Request> {
        self.request
    }

    /// A conversation with some replies known in advance.
    pub fn new(replies: Vec<Reply>) -> (r: Transcript)
        ensures
            r.rest() == replies@,
            r.all() == replies@,
            r.open_request() is None,
    {
        let r = Transcript { replies, used: 0, request: None };
        assert(r.rest() =~= replies@);
        r
    }

    /// The request that has no reply yet, and the replies so far.
    pub fn into_parts(self) -> (r: (Option<Request>, Vec<Reply>))
        ensures
            r.0 == self.open_request(),
            r.1@ == self.all(),
    {
        (self.request, self.replies)
    }

    /// The reply to a request, if it is known.
    pub fn ask(&mut self, request: Request) -> (r: Option<Reply>)
        ensures
            final(self).all() == old(self).all(),
            match r {
                Some(reply) => {
                    &&& old(self).rest().len() > 0
                    &&& reply == old(self).rest()[0]
                    &&& final(self).rest() == old(self).rest().drop_first()
                    &&& final(self).open_request() == old(self).open_request()
                },
                None => {
                    &&& old(self).rest().len() == 0
                    &&& final(self).rest() == old(self).rest()
                    &&& final(self).open_request() == Some(request)
                },
            },
    {
        proof {
            use_type_invariant(&*self);
        }
        if self.used < self.replies.len() {
            let reply = self.replies[self.used];
            self.used = self.used + 1;
            assert(self.rest() =~= old(self).rest().drop_first());
            Some(reply)
        } else {
            self.request = Some(request);
            None
        }
    }
}

/// What comes of asking the kernel: the request that is still open, or how it went and what replies
/// are left.
pub enum Io<T> {
    Waits(Request),
    Fails(TraceError, Seq<Reply>),
    Gives(T, Seq<Reply>),
}

/// Whether a result, with what is left of the replies, is what comes of asking.
pub open spec fn told<T>(r: Result<T, Halt>, io: Transcript, wanted: Io<T>) -> bool {
    match r {
        Ok(t) => wanted == Io::Gives(t, io.rest()),
        Err(Halt::Failed(e)) => wanted == Io::<T>::Fails(e, io.rest()),
        Err(Halt::Waiting) => io.open_request() is Some && wanted == Io::<T>::Waits(
            io.open_request().unwrap(),
        ),
    }
}

/// A reply that is the word that was asked for.
pub open spec fn as_word(r: Reply) -> Result<u64, TraceError> {
    match r {
        Reply::Word(w) => Ok(w),
        Reply::Failed(e) => Err(TraceError::System(e)),
        _ => Err(TraceError::UnexpectedReply),
    }
}

/// A reply that says that it was done.
pub open spec fn as_done(r: Reply) -> Result<(), TraceError> {
    match r {
        Reply::Done => Ok(()),
        Reply::Failed(e) => Err(TraceError::System(e)),
        _ => Err(TraceError::UnexpectedReply),
    }
}

/// A reply that is the registers that were asked for.
pub open spec fn as_regs(r: Reply) -> Result<Regs, TraceError> {
    match r {
        Reply::Regs(regs) => Ok(regs),
        Reply::Failed(e) => Err(TraceError::System(e)),
        _ => Err(TraceError::UnexpectedReply),
    }
}

/// A reply that is the message that was asked for.
pub open spec fn as_message(r: Reply) -> Result<i64, TraceError> {
    match r {
        Reply::Message(m) => Ok(m),
        Reply::Failed(e) => Err(TraceError::System(e)),
        _ => Err(TraceError::UnexpectedReply),
    }
}

/// A reply that is the status that was waited for.
pub open spec fn as_status(r: Reply) -> Result<WaitStatus, TraceError> {
    match r {
        Reply::Status(s) => Ok(s),
        Reply::Failed(e) => Err(TraceError::System(e)),
        _ => Err(TraceError::UnexpectedReply),
    }
}

/// What comes of one request, by what its reply is taken to say.
pub open spec fn asked<T>(
    request: Request,
    replies: Seq<Reply>,
    says: spec_fn(Reply) -> Result<T, TraceError>,
) -> Io<T> {
    if replies.len() == 0 {
        Io::Waits(request)
    } else {
        match says(replies[0]) {
            Ok(t) => Io::Gives(t, replies.drop_first()),
            Err(e) => Io::Fails(e, replies.drop_first()),
        }
    }
}

/// What comes of asking for the word at an address.
pub open spec fn word_read(tid: i32, addr: u64, replies: Seq<Reply>) -> Io<u64> {
    asked(Request::ReadWord(tid, addr), replies, |r: Reply| as_word(r))
}

/// What comes of writing a word to an address.
pub open spec fn word_written(tid: i32, addr: u64, word: u64, replies: Seq<Reply>) -> Io<()> {
    asked(Request::WriteWord(tid, addr, word), replies, |r: Reply| as_done(r))
}

/// What comes of asking for the registers of a thread.
pub open spec fn regs_read(tid: i32, replies: Seq<Reply>) -> Io<Regs> {
    asked(Request::GetRegs(tid), replies, |r: Reply| as_regs(r))
}

/// What comes of setting the registers of a thread.
pub open spec fn regs_written(tid: i32, regs: Regs, replies: Seq<Reply>) -> Io<()> {
    asked(Request::SetRegs(tid, regs), replies, |r: Reply| as_done(r))
}

/// What comes of asking for the message of an event.
pub open spec fn message_read(tid: i32, replies: Seq<Reply>) -> Io<i64> {
    asked(Request::EventMessage(tid), replies, |r: Reply| as_message(r))
}

/// What comes of waiting, again and again where a signal interrupts it.
pub open spec fn waited(request: Request, replies: Seq<Reply>) -> Io<WaitStatus>
    decreases replies.len(),
{
    if replies.len() > 0 && replies[0] == Reply::Failed(EINTR) {
        waited(request, replies.drop_first())
    } else {
        asked(request, replies, |r: Reply| as_status(r))
    }
}

/// A conversation uses up the replies that it goes by.
pub proof fn lemma_waited_shorter(request: Request, replies: Seq<Reply>)
    ensures
        match waited(request, replies) {
            Io::Waits(_) => true,
            Io::Fails(_, rest) => rest.len() < replies.len(),
            Io::Gives(_, rest) => rest.len() < replies.len(),
        },
    decreases replies.len(),
{
    if replies.len() > 0 && replies[0] == Reply::Failed(EINTR) {
        lemma_waited_shorter(request, replies.drop_first());
    }
}

/// Reads the word at an address.
pub fn read_word(io: &mut Transcript, tid: i32, addr: u64) -> (r: Result<u64, Halt>)
    ensures
        told(r, *final(io), word_read(tid, addr, old(io).rest())),
{
    match io.ask(Request::ReadWord(tid, addr)) {
        None => Err(Halt::Waiting),
        Some(Reply::Word(w)) => Ok(w),
        Some(Reply::Failed(e)) => Err(Halt::Failed(TraceError::System(e))),
        Some(_) => Err(Halt::Failed(TraceError::UnexpectedReply)),
    }
}

/// Writes a word to an address.
pub fn write_word(io: &mut Transcript, tid: i32, addr: u64, word: u64) -> (r: Result<(), Halt>)
    ensures
        told(r, *final(io), word_written(tid, addr, word, old(io).rest())),
{
    done(io, Request::WriteWord(tid, addr, word))
}

/// Makes a request that is only to be done.
pub fn done(io: &mut Transcript, request: Request) -> (r: Result<(), Halt>)
    ensures
        told(r, *final(io), asked(request, old(io).rest(), |r: Reply| as_done(r))),
{
    match io.ask(request) {
        None => Err(Halt::Waiting),
        Some(Reply::Done) => Ok(()),
        Some(Reply::Failed(e)) => Err(Halt::Failed(TraceError::System(e))),
        Some(_) => Err(Halt::Failed(TraceError::UnexpectedReply)),
    }
}

/// Reads the registers of a thread.
pub fn read_regs(io: &mut Transcript, tid: i32) -> (r: Result<Regs, Halt>)
    ensures
        told(r, *final(io), regs_read(tid, old(io).rest())),
{
    match io.ask(Request::GetRegs(tid)) {
        None => Err(Halt::Waiting),
        Some(Reply::Regs(regs)) => Ok(regs),
        Some(Reply::Failed(e)) => Err(Halt::Failed(TraceError::System(e))),
        Some(_) => Err(Halt::Failed(TraceError::UnexpectedReply)),
    }
}

/// Sets the registers of a thread.
pub fn write_regs(io: &mut Transcript, tid: i32, regs: Regs) -> (r: Result<(), Halt>)
    ensures
        told(r, *final(io), regs_written(tid, regs, old(io).rest())),
{
    done(io, Request::SetRegs(tid, regs))
}

/// Reads the message of the event at which a thread stopped.
pub fn read_message(io: &mut Transcript, tid: i32) -> (r: Result<i64, Halt>)
    ensures
        told(r, *final(io), message_read(tid, old(io).rest())),
{
    match io.ask(Request::EventMessage(tid)) {
        None => Err(Halt::Waiting),
        Some(Reply::Message(m)) => Ok(m),
        Some(Reply::Failed(e)) => Err(Halt::Failed(TraceError::System(e))),
        Some(_) => Err(Halt::Failed(TraceError::UnexpectedReply)),
    }
}

/// Waits once.
pub fn wait_once(io: &mut Transcript, request: Request) -> (r: Result<WaitStatus, Halt>)
    ensures
        told(r, *final(io), asked(request, old(io).rest(), |r: Reply| as_status(r))),
{
    match io.ask(request) {
        None => Err(Halt::Waiting),
        Some(Reply::Status(s)) => Ok(s),
        Some(Reply::Failed(e)) => Err(Halt::Failed(TraceError::System(e))),
        Some(_) => Err(Halt::Failed(TraceError::UnexpectedReply)),
    }
}

/// Waits, again and again where a signal interrupts it.
fn wait_out(io: &mut Transcript, request: Request) -> (r: Result<WaitStatus, Halt>)
    ensures
        told(r, *final(io), waited(request, old(io).rest())),
{
    let ghost start = io.rest();
    loop
        invariant
            start == old(io).rest(),
            waited(request, start) == waited(request, io.rest()),
        decreases io.rest().len(),
    {
        match io.ask(request) {
            None => {
                return Err(Halt::Waiting);
            },
            Some(Reply::Status(s)) => {
                return Ok(s);
            },
            Some(Reply::Failed(e)) => {
                if e != EINTR {
                    return Err(Halt::Failed(TraceError::System(e)));
                }
            },
            Some(_) => {
                return Err(Halt::Failed(TraceError::UnexpectedReply));
            },
        }
    }
}

/// Waits for one thread.
pub fn wait_thread(io: &mut Transcript, tid: i32) -> (r: Result<WaitStatus, Halt>)
    ensures
        told(r, *final(io), waited(Request::WaitThread(tid), old(io).rest())),
{
    wait_out(io, Request::WaitThread(tid))
}

/// Waits for any thread.
pub fn wait_any(io: &mut Transcript) -> (r: Result<WaitStatus, Halt>)
    ensures
        told(r, *final(io), waited(Request::WaitAny, old(io).rest())),
{
    wait_out(io, Request::WaitAny)
}

} // verus!
