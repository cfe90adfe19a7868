//! A traced process: its threads and breakpoints, and what can be done to its memory and registers.

use vstd::prelude::*;

use crate::regs::named_values;
use crate::regs::Regs;
use crate::table::get;
use crate::table::holds_key;
use crate::table::put;
use crate::table::value_of;
use crate::table::with_value;
use crate::text::Text;
use crate::trace::as_done;
use crate::trace::as_status;
use crate::trace::asked;
use crate::trace::done;
use crate::trace::read_regs;
use crate::trace::read_word;
use crate::trace::regs_read;
use crate::trace::regs_written;
use crate::trace::told;
use crate::trace::wait_once;
use crate::trace::word_read;
use crate::trace::word_written;
use crate::trace::write_regs;
use crate::trace::write_word;
use crate::trace::Halt;
use crate::trace::Io;
use crate::trace::Reply;
use crate::trace::Request;
use crate::trace::TraceError;
use crate::trace::Transcript;
use crate::trace::WaitStatus;
use crate::trace::SIGTRAP;
use crate::words::from_bytes;
use crate::words::le_bytes;
use crate::words::le_word;
use crate::words::to_bytes;
use crate::words::with_low_byte;

verus! {

/// The instruction of a breakpoint.
pub const TRAP_BYTE: u8 = 0xcc;

/// How far below the stack pointer a mod finds space of its own.
pub const SCRATCH_OFFSET: u64 = 512;

/// How much space of its own a mod finds there.
pub const SCRATCH_SIZE: u64 = 256;

/// Why the traced process stopped.
#[derive(Debug, Clone, Copy, PartialEq, Eq, Structural)]
pub enum Stop {
    /// A thread reached a breakpoint.
    Hit(i32, u64),
    /// The process ended.
    Exited,
    /// A signal interrupted the tracer.
    Interrupted,
}

/// A breakpoint: the byte that it takes the place of, and whether it does.
#[derive(Debug, Clone, Copy, PartialEq, Eq, Structural)]
pub struct Breakpoint {
    pub original_byte: u8,
    pub armed: bool,
}

/// A thread of the traced process.
#[derive(Debug, Clone, Copy, PartialEq, Eq, Structural)]
pub struct Thread {
    pub running: bool,
    /// A signal that it is to get when it goes on.
    pub pending_signal: Option<i32>,
    /// Whether it is about to be stopped on the tracer's behalf.
    pub sigstop_sent: bool,
}

/// The first thread of a process.
pub open spec fn first_thread() -> Thread {
    Thread { running: false, pending_signal: None, sigstop_sent: false }
}

/// A thread that was just seen: the kernel stops it before it runs.
pub open spec fn new_thread() -> Thread {
    Thread { running: false, pending_signal: None, sigstop_sent: true }
}

impl Thread {
    /// A thread that was just seen.
    pub fn newly_seen() -> (r: Thread)
        ensures
            r == new_thread(),
    {
        Thread { running: false, pending_signal: None, sigstop_sent: true }
    }
}

/// A call that was put into a thread and has not returned yet.
#[derive(Debug, Clone, Copy, PartialEq, Eq, Structural)]
pub struct Call {
    pub tid: i32,
    /// The breakpoint that the call returns to.
    pub trap: u64,
    /// Where the stack pointer is once it has returned.
    pub expected_rsp: u64,
    /// The registers as they were before.
    pub saved: Regs,
    pub trap_was_armed: bool,
}

/// A traced process.
pub struct Inferior {
    pub pid: i32,
    pub threads: Vec<(i32, Thread)>,
    pub breakpoints: Vec<(u64, Breakpoint)>,
    pub pending_hits: Vec<(i32, u64)>,
    pub current: Option<i32>,
    pub current_bp: Option<u64>,
    pub load_base: u64,
    pub peak_threads: usize,
    pub exit_code: Option<i32>,
    pub call: Option<Call>,
    /// The breakpoints that are out of the way for the call, and the bytes in their place.
    pub set_aside: Vec<(u64, u8)>,
}

#[verifier::ext_equal]
pub struct InferiorV {
    pub pid: i32,
    pub threads: Seq<(i32, Thread)>,
    pub breakpoints: Seq<(u64, Breakpoint)>,
    pub pending_hits: Seq<(i32, u64)>,
    pub current: Option<i32>,
    pub current_bp: Option<u64>,
    pub load_base: u64,
    pub peak_threads: nat,
    pub exit_code: Option<i32>,
    pub call: Option<Call>,
    pub set_aside: Seq<(u64, u8)>,
}

impl View for Inferior {
    type V = InferiorV;

    open spec fn view(&self) -> InferiorV {
        InferiorV {
            pid: self.pid,
            threads: self.threads@,
            breakpoints: self.breakpoints@,
            pending_hits: self.pending_hits@,
            current: self.current,
            current_bp: self.current_bp,
            load_base: self.load_base,
            peak_threads: self.peak_threads as nat,
            exit_code: self.exit_code,
            call: self.call,
            set_aside: self.set_aside@,
        }
    }
}

/// What comes of an operation: the request that is still open, or how it went, the state of the
/// process after it, and what replies are left.
pub enum Ran<T> {
    Waits(Request),
    Fails(TraceError, InferiorV, Seq<Reply>),
    Gives(T, InferiorV, Seq<Reply>),
}

/// Whether a result, with the state after it and what is left of the replies, is what comes of an
/// operation. Nothing is said of the state where a request is open: the operation is to be run again
/// from its start.
pub open spec fn ended<T>(r: Result<T, Halt>, s: InferiorV, io: Transcript, wanted: Ran<T>) -> bool {
    match r {
        Ok(t) => wanted == Ran::Gives(t, s, io.rest()),
        Err(Halt::Failed(e)) => wanted == Ran::<T>::Fails(e, s, io.rest()),
        Err(Halt::Waiting) => io.open_request() is Some && wanted == Ran::<T>::Waits(
            io.open_request().unwrap(),
        ),
    }
}

/// What comes of asking the kernel and going on with what it gave.
pub open spec fn after_io<A, B>(r: Io<A>, s: InferiorV, next: spec_fn(A, Seq<Reply>) -> Ran<B>) -> Ran<B> {
    match r {
        Io::Waits(q) => Ran::Waits(q),
        Io::Fails(e, rest) => Ran::Fails(e, s, rest),
        Io::Gives(a, rest) => next(a, rest),
    }
}

/// What comes of an operation and going on with what it gave.
pub open spec fn after<A, B>(r: Ran<A>, next: spec_fn(A, InferiorV, Seq<Reply>) -> Ran<B>) -> Ran<B> {
    match r {
        Ran::Waits(q) => Ran::Waits(q),
        Ran::Fails(e, s, rest) => Ran::Fails(e, s, rest),
        Ran::Gives(a, s, rest) => next(a, s, rest),
    }
}

// ---- state ----

impl InferiorV {
    /// The thread through which the process is looked at: the one that is handled, or else the first,
    /// or any that is left.
    pub open spec fn tracee(self) -> i32 {
        if self.current matches Some(c) && holds_key(self.threads, c) {
            self.current.unwrap()
        } else if holds_key(self.threads, self.pid) || self.threads.len() == 0 {
            self.pid
        } else {
            self.threads[0].0
        }
    }

    /// The state with a breakpoint at an address.
    pub open spec fn with_breakpoint(self, addr: u64, bp: Breakpoint) -> InferiorV {
        InferiorV { breakpoints: with_value(self.breakpoints, addr, bp), ..self }
    }

    /// The state with another breakpoint armed, or disarmed.
    pub open spec fn with_armed(self, addr: u64, armed: bool) -> InferiorV {
        match value_of(self.breakpoints, addr) {
            Some(bp) => self.with_breakpoint(addr, Breakpoint { armed, ..bp }),
            None => self,
        }
    }
}

/// The state of a process of which nothing is known but its number.
pub open spec fn untouched(pid: i32) -> InferiorV {
    InferiorV {
        pid,
        threads: Seq::empty(),
        breakpoints: Seq::empty(),
        pending_hits: Seq::empty(),
        current: None,
        current_bp: None,
        load_base: 0,
        peak_threads: 0,
        exit_code: None,
        call: None,
        set_aside: Seq::empty(),
    }
}

/// A copy of a list.
fn copy_list<T: Copy>(v: &Vec<T>) -> (r: Vec<T>)
    ensures
        r@ == v@,
{
    let mut r: Vec<T> = Vec::new();
    let mut i: usize = 0;
    while i < v.len()
        invariant
            i <= v.len(),
            r@ == v@.take(i as int),
        decreases v.len() - i,
    {
        r.push(v[i]);
        assert(v@.take(i + 1) =~= v@.take(i as int).push(v@[i as int]));
        i += 1;
    }
    assert(v@.take(i as int) =~= v@);
    r
}

impl Inferior {
    /// A process of which nothing is known but its number.
    pub fn new(pid: i32) -> (r: Inferior)
        ensures
            r@ == untouched(pid),
    {
        let r = Inferior {
            pid,
            threads: Vec::new(),
            breakpoints: Vec::new(),
            pending_hits: Vec::new(),
            current: None,
            current_bp: None,
            load_base: 0,
            peak_threads: 0,
            exit_code: None,
            call: None,
            set_aside: Vec::new(),
        };
        assert(r@ =~= untouched(pid));
        r
    }

    /// A copy, to try an operation on.
    pub fn copy(&self) -> (r: Inferior)
        ensures
            r@ == self@,
    {
        Inferior {
            pid: self.pid,
            threads: copy_list(&self.threads),
            breakpoints: copy_list(&self.breakpoints),
            pending_hits: copy_list(&self.pending_hits),
            current: self.current,
            current_bp: self.current_bp,
            load_base: self.load_base,
            peak_threads: self.peak_threads,
            exit_code: self.exit_code,
            call: self.call,
            set_aside: copy_list(&self.set_aside),
        }
    }

    /// Where the binary was loaded.
    pub fn load_base(&self) -> (r: u64)
        ensures
            r == self@.load_base,
    {
        self.load_base
    }

    /// Whether any thread of the process is left.
    pub fn is_alive(&self) -> (r: bool)
        ensures
            r == (self@.threads.len() > 0),
    {
        self.threads.len() > 0
    }

    /// The breakpoint that is handled.
    pub fn current_bp(&self) -> (r: Option<u64>)
        ensures
            r == self@.current_bp,
    {
        self.current_bp
    }

    /// The most threads that were traced at a time.
    pub fn peak_threads(&self) -> (r: usize)
        ensures
            r == self@.peak_threads,
    {
        self.peak_threads
    }

    /// Sets where the binary was loaded.
    pub(crate) fn set_load_base(&mut self, base: u64)
        ensures
            final(self)@ == (InferiorV { load_base: base, ..old(self)@ }),
    {
        self.load_base = base;
    }

    /// The thread through which the process is looked at.
    pub(crate) fn ptrace_pid(&self) -> (r: i32)
        ensures
            r == self@.tracee(),
    {
        if let Some(c) = self.current {
            if get(&self.threads, c).is_some() {
                return c;
            }
        }
        if get(&self.threads, self.pid).is_some() || self.threads.len() == 0 {
            self.pid
        } else {
            self.threads[0].0
        }
    }
}

// ---- bytes ----

/// What comes of putting a byte at an address.
pub open spec fn byte_set(tid: i32, addr: u64, byte: u8, replies: Seq<Reply>) -> Io<()> {
    match word_read(tid, addr, replies) {
        Io::Waits(q) => Io::Waits(q),
        Io::Fails(e, rest) => Io::Fails(e, rest),
        Io::Gives(word, rest) => word_written(tid, addr, with_low_byte(word, byte), rest),
    }
}

/// Puts a byte at an address, and leaves the bytes around it.
pub(crate) fn set_byte(io: &mut Transcript, tid: i32, addr: u64, byte: u8) -> (r: Result<(), Halt>)
    ensures
        told(r, *final(io), byte_set(tid, addr, byte, old(io).rest())),
{
    let word: u64 = read_word(io, tid, addr)?;
    write_word(io, tid, addr, word - word % 0x100 + byte as u64)
}

/// The address some bytes on, around the end of the address space.
pub open spec fn plus(addr: u64, n: int) -> u64 {
    ((addr + n) % 0x1_0000_0000_0000_0000) as u64
}

/// What comes of reading bytes of memory, word by word.
pub open spec fn mem_read(tid: i32, addr: u64, len: nat, replies: Seq<Reply>) -> Io<Seq<u8>>
    decreases len,
{
    if len == 0 {
        Io::Gives(Seq::empty(), replies)
    } else {
        match word_read(tid, addr, replies) {
            Io::Waits(q) => Io::Waits(q),
            Io::Fails(e, rest) => Io::Fails(e, rest),
            Io::Gives(word, rest) => if len <= 8 {
                Io::Gives(le_bytes(word).take(len as int), rest)
            } else {
                match mem_read(tid, plus(addr, 8), (len - 8) as nat, rest) {
                    Io::Waits(q) => Io::Waits(q),
                    Io::Fails(e, rest) => Io::Fails(e, rest),
                    Io::Gives(bytes, rest) => Io::Gives(le_bytes(word) + bytes, rest),
                }
            },
        }
    }
}

/// Eight bytes with others over the first of them.
pub open spec fn overlaid(under: Seq<u8>, over: Seq<u8>) -> Seq<u8> {
    Seq::new(
        8,
        |k: int|
            if k < over.len() {
                over[k]
            } else {
                under[k]
            },
    )
}

/// What comes of writing bytes to memory, word by word.
pub open spec fn mem_written(tid: i32, addr: u64, bytes: Seq<u8>, replies: Seq<Reply>) -> Io<()>
    decreases bytes.len(),
{
    if bytes.len() == 0 {
        Io::Gives((), replies)
    } else {
        match word_read(tid, addr, replies) {
            Io::Waits(q) => Io::Waits(q),
            Io::Fails(e, rest) => Io::Fails(e, rest),
            Io::Gives(word, rest) => match word_written(
                tid,
                addr,
                le_word(overlaid(le_bytes(word), bytes)),
                rest,
            ) {
                Io::Waits(q) => Io::Waits(q),
                Io::Fails(e, rest) => Io::Fails(e, rest),
                Io::Gives(_, rest) => if bytes.len() <= 8 {
                    Io::Gives((), rest)
                } else {
                    mem_written(tid, plus(addr, 8), bytes.skip(8), rest)
                },
            },
        }
    }
}

/// Bytes that were read, by their view.
pub open spec fn told_bytes(r: Result<Vec<u8>, Halt>, io: Transcript, wanted: Io<Seq<u8>>) -> bool {
    match r {
        Ok(v) => wanted == Io::Gives(v@, io.rest()),
        Err(Halt::Failed(e)) => wanted == Io::<Seq<u8>>::Fails(e, io.rest()),
        Err(Halt::Waiting) => io.open_request() is Some && wanted == Io::<Seq<u8>>::Waits(
            io.open_request().unwrap(),
        ),
    }
}

/// The address some bytes on, around the end of the address space.
pub(crate) fn advance(addr: u64, n: u64) -> (r: u64)
    ensures
        r == plus(addr, n as int),
{
    let r: u64 = addr.wrapping_add(n);
    proof {
        if addr + n < 0x1_0000_0000_0000_0000 {
            assert(plus(addr, n as int) == addr + n);
        } else {
            assert(plus(addr, n as int) == addr + n - 0x1_0000_0000_0000_0000);
        }
    }
    r
}

/// What goes before bytes that are still to be read.
pub open spec fn bytes_before(front: Seq<u8>, r: Io<Seq<u8>>) -> Io<Seq<u8>> {
    match r {
        Io::Waits(q) => Io::Waits(q),
        Io::Fails(e, rest) => Io::Fails(e, rest),
        Io::Gives(bytes, rest) => Io::Gives(front + bytes, rest),
    }
}

/// Reads bytes of memory, word by word.
fn read_bytes(io: &mut Transcript, tid: i32, addr: u64, len: usize) -> (r: Result<Vec<u8>, Halt>)
    ensures
        told_bytes(r, *final(io), mem_read(tid, addr, len as nat, old(io).rest())),
{
    let ghost whole = mem_read(tid, addr, len as nat, io.rest());
    let mut out: Vec<u8> = Vec::new();
    let mut cur: u64 = addr;
    let mut left: usize = len;
    proof {
        match whole {
            Io::Gives(bytes, rest) => {
                assert(out@ + bytes =~= bytes);
            },
            _ => {},
        }
    }
    while left > 0
        invariant
            whole == mem_read(tid, addr, len as nat, old(io).rest()),
            whole == bytes_before(out@, mem_read(tid, cur, left as nat, io.rest())),
        decreases left,
    {
        let ghost before = out@;
        let ghost here = io.rest();
        let word: u64 = read_word(io, tid, cur)?;
        let bytes: [u8; 8] = to_bytes(word);
        let n: usize = if left < 8 { left } else { 8 };
        let mut k: usize = 0;
        while k < n
            invariant
                k <= n <= 8,
                bytes@ == le_bytes(word),
                out@ == before + bytes@.take(k as int),
            decreases n - k,
        {
            out.push(bytes[k]);
            assert(bytes@.take(k + 1) =~= bytes@.take(k as int).push(bytes@[k as int]));
            k += 1;
        }
        proof {
            let chunk = le_bytes(word).take(n as int);
            if left <= 8 {
                assert(before + chunk =~= out@);
                assert(mem_read(tid, plus(cur, 8), 0, io.rest()) == Io::Gives(Seq::<u8>::empty(), io.rest()));
                assert(out@ + Seq::<u8>::empty() =~= out@);
            } else {
                assert(chunk =~= le_bytes(word));
                match mem_read(tid, plus(cur, 8), (left - 8) as nat, io.rest()) {
                    Io::Gives(tail, rest) => {
                        assert(before + (le_bytes(word) + tail) =~= out@ + tail);
                    },
                    _ => {},
                }
            }
        }
        cur = advance(cur, 8);
        left = left - n;
    }
    assert(out@ + Seq::<u8>::empty() =~= out@);
    Ok(out)
}

/// A word with some bytes over the first of it.
fn patch_word(word: u64, bytes: &[u8], from: usize) -> (r: u64)
    requires
        from <= bytes.len(),
    ensures
        r == le_word(overlaid(le_bytes(word), bytes@.skip(from as int))),
{
    let ghost over = bytes@.skip(from as int);
    let mut patched: [u8; 8] = to_bytes(word);
    let ghost under = patched@;
    let n: usize = if bytes.len() - from < 8 { bytes.len() - from } else { 8 };
    let mut k: usize = 0;
    while k < n
        invariant
            k <= n <= 8,
            n <= bytes.len() - from,
            from <= bytes.len(),
            over == bytes@.skip(from as int),
            under.len() == 8,
            patched@.len() == 8,
            forall|j: int| 0 <= j < k ==> patched@[j] == over[j],
            forall|j: int| k <= j < 8 ==> patched@[j] == under[j],
        decreases n - k,
    {
        patched[k] = bytes[from + k];
        k += 1;
    }
    assert(patched@ =~= overlaid(under, over));
    from_bytes(&patched)
}

/// Writes bytes to memory, word by word, and leaves the bytes around them.
fn write_bytes(io: &mut Transcript, tid: i32, addr: u64, bytes: &[u8]) -> (r: Result<(), Halt>)
    ensures
        told(r, *final(io), mem_written(tid, addr, bytes@, old(io).rest())),
{
    let ghost whole = mem_written(tid, addr, bytes@, io.rest());
    let mut i: usize = 0;
    let mut cur: u64 = addr;
    assert(bytes@.skip(0) =~= bytes@);
    while i < bytes.len()
        invariant
            i <= bytes.len(),
            whole == mem_written(tid, addr, bytes@, old(io).rest()),
            whole == mem_written(tid, cur, bytes@.skip(i as int), io.rest()),
        decreases bytes.len() - i,
    {
        let ghost left = bytes@.skip(i as int);
        let word: u64 = read_word(io, tid, cur)?;
        let patched: u64 = patch_word(word, bytes, i);
        write_word(io, tid, cur, patched)?;
        if bytes.len() - i <= 8 {
            return Ok(());
        }
        assert(left.skip(8) =~= bytes@.skip(i + 8));
        cur = advance(cur, 8);
        i += 8;
    }
    assert(bytes@.skip(i as int) =~= Seq::<u8>::empty());
    Ok(())
}

impl Inferior {
    /// Reads bytes of the process's memory.
    pub fn read_mem(&self, io: &mut Transcript, addr: u64, len: usize) -> (r: Result<Vec<u8>, Halt>)
        ensures
            told_bytes(r, *final(io), mem_read(self@.tracee(), addr, len as nat, old(io).rest())),
    {
        read_bytes(io, self.ptrace_pid(), addr, len)
    }

    /// Writes bytes to the process's memory.
    pub fn write_mem(&self, io: &mut Transcript, addr: u64, bytes: &[u8]) -> (r: Result<(), Halt>)
        ensures
            told(r, *final(io), mem_written(self@.tracee(), addr, bytes@, old(io).rest())),
    {
        write_bytes(io, self.ptrace_pid(), addr, bytes)
    }
}

// ---- breakpoints ----

/// What comes of arming the breakpoint at an address.
pub open spec fn armed_at(s: InferiorV, addr: u64, replies: Seq<Reply>) -> Ran<()> {
    match value_of(s.breakpoints, addr) {
        None => Ran::Fails(TraceError::NoBreakpoint(addr), s, replies),
        Some(bp) => if bp.armed {
            Ran::Gives((), s, replies)
        } else {
            after_io(
                byte_set(s.tracee(), addr, TRAP_BYTE, replies),
                s,
                |u: (), rest: Seq<Reply>| Ran::Gives((), s.with_armed(addr, true), rest),
            )
        },
    }
}

/// What comes of disarming the breakpoint at an address.
pub open spec fn disarmed_at(s: InferiorV, addr: u64, replies: Seq<Reply>) -> Ran<()> {
    match value_of(s.breakpoints, addr) {
        None => Ran::Fails(TraceError::NoBreakpoint(addr), s, replies),
        Some(bp) => if !bp.armed {
            Ran::Gives((), s, replies)
        } else {
            after_io(
                byte_set(s.tracee(), addr, bp.original_byte, replies),
                s,
                |u: (), rest: Seq<Reply>| Ran::Gives((), s.with_armed(addr, false), rest),
            )
        },
    }
}

/// What comes of arming a breakpoint only if that is wanted, on the way to a result.
pub open spec fn armed_if(wanted: bool, s: InferiorV, addr: u64, replies: Seq<Reply>) -> Ran<u64> {
    if wanted {
        after(
            armed_at(s, addr, replies),
            |u: (), s1: InferiorV, rest: Seq<Reply>| Ran::Gives(addr, s1, rest),
        )
    } else {
        Ran::Gives(addr, s, replies)
    }
}

/// What comes of setting a breakpoint at an address of the binary: the address at which it lies in the
/// process.
pub open spec fn breakpoint_set(s: InferiorV, static_addr: u64, armed: bool, replies: Seq<Reply>) -> Ran<u64> {
    let runtime = plus(static_addr, s.load_base as int);
    if holds_key(s.breakpoints, runtime) {
        armed_if(armed, s, runtime, replies)
    } else {
        after_io(
            word_read(s.tracee(), runtime, replies),
            s,
            |word: u64, rest: Seq<Reply>|
                armed_if(
                    armed,
                    s.with_breakpoint(
                        runtime,
                        Breakpoint { original_byte: (word % 0x100) as u8, armed: false },
                    ),
                    runtime,
                    rest,
                ),
        )
    }
}

impl Inferior {
    /// Notes that the breakpoint at an address is armed, or is not.
    fn note_armed(&mut self, addr: u64, armed: bool)
        ensures
            final(self)@ == old(self)@.with_armed(addr, armed),
    {
        if let Some(bp) = get(&self.breakpoints, addr) {
            put(&mut self.breakpoints, addr, Breakpoint { original_byte: bp.original_byte, armed });
        }
        assert(self@ =~= old(self)@.with_armed(addr, armed));
    }

    /// Arms the breakpoint at an address: puts its instruction there.
    pub fn arm(&mut self, io: &mut Transcript, runtime_addr: u64) -> (r: Result<(), Halt>)
        ensures
            ended(r, final(self)@, *final(io), armed_at(old(self)@, runtime_addr, old(io).rest())),
    {
        let bp: Breakpoint = match get(&self.breakpoints, runtime_addr) {
            Some(bp) => bp,
            None => {
                return Err(Halt::Failed(TraceError::NoBreakpoint(runtime_addr)));
            },
        };
        if bp.armed {
            return Ok(());
        }
        set_byte(io, self.ptrace_pid(), runtime_addr, TRAP_BYTE)?;
        self.note_armed(runtime_addr, true);
        Ok(())
    }

    /// Disarms the breakpoint at an address: puts back what its instruction took the place of.
    pub fn disarm(&mut self, io: &mut Transcript, runtime_addr: u64) -> (r: Result<(), Halt>)
        ensures
            ended(r, final(self)@, *final(io), disarmed_at(old(self)@, runtime_addr, old(io).rest())),
    {
        let bp: Breakpoint = match get(&self.breakpoints, runtime_addr) {
            Some(bp) => bp,
            None => {
                return Err(Halt::Failed(TraceError::NoBreakpoint(runtime_addr)));
            },
        };
        if !bp.armed {
            return Ok(());
        }
        set_byte(io, self.ptrace_pid(), runtime_addr, bp.original_byte)?;
        self.note_armed(runtime_addr, false);
        Ok(())
    }

    /// Sets a breakpoint at an address of the binary, and arms it if that is wanted. Gives the address
    /// at which it lies in the process.
    pub fn set_breakpoint(&mut self, io: &mut Transcript, static_addr: u64, armed: bool) -> (r: Result<u64, Halt>)
        ensures
            ended(r, final(self)@, *final(io), breakpoint_set(old(self)@, static_addr, armed, old(io).rest())),
    {
        let runtime: u64 = advance(static_addr, self.load_base);
        if get(&self.breakpoints, runtime).is_none() {
            let word: u64 = read_word(io, self.ptrace_pid(), runtime)?;
            let ghost before = self@;
            let bp = Breakpoint { original_byte: (word % 0x100) as u8, armed: false };
            put(&mut self.breakpoints, runtime, bp);
            assert(self@ =~= before.with_breakpoint(runtime, bp));
        }
        if armed {
            self.arm(io, runtime)?;
        }
        Ok(runtime)
    }
}

// ---- registers ----

/// What comes of asking for the register called `name`.
pub open spec fn reg_read(s: InferiorV, name: Text, replies: Seq<Reply>) -> Io<u64> {
    match regs_read(s.tracee(), replies) {
        Io::Waits(q) => Io::Waits(q),
        Io::Fails(e, rest) => Io::Fails(e, rest),
        Io::Gives(regs, rest) => match regs.value_of(name) {
            Some(v) => Io::Gives(v, rest),
            None => Io::Fails(TraceError::UnknownRegister, rest),
        },
    }
}

/// What comes of setting the register called `name`.
pub open spec fn reg_written(s: InferiorV, name: Text, value: u64, replies: Seq<Reply>) -> Io<()> {
    match regs_read(s.tracee(), replies) {
        Io::Waits(q) => Io::Waits(q),
        Io::Fails(e, rest) => Io::Fails(e, rest),
        Io::Gives(regs, rest) => match regs.with_value(name, value) {
            Some(changed) => regs_written(s.tracee(), changed, rest),
            None => Io::Fails(TraceError::FixedRegister, rest),
        },
    }
}

/// What comes of asking for the registers that are shown.
pub open spec fn regs_listed(s: InferiorV, replies: Seq<Reply>) -> Io<Seq<(Text, u64)>> {
    match regs_read(s.tracee(), replies) {
        Io::Waits(q) => Io::Waits(q),
        Io::Fails(e, rest) => Io::Fails(e, rest),
        Io::Gives(regs, rest) => Io::Gives(regs.listed(), rest),
    }
}

impl Inferior {
    /// What the register called `name` holds.
    pub fn get_reg(&self, io: &mut Transcript, name: &str) -> (r: Result<u64, Halt>)
        ensures
            told(r, *final(io), reg_read(self@, name@, old(io).rest())),
    {
        let regs: Regs = read_regs(io, self.ptrace_pid())?;
        match regs.get(name) {
            Some(v) => Ok(v),
            None => Err(Halt::Failed(TraceError::UnknownRegister)),
        }
    }

    /// Sets the register called `name`.
    pub fn set_reg(&self, io: &mut Transcript, name: &str, value: u64) -> (r: Result<(), Halt>)
        ensures
            told(r, *final(io), reg_written(self@, name@, value, old(io).rest())),
    {
        let tid: i32 = self.ptrace_pid();
        let regs: Regs = read_regs(io, tid)?;
        match regs.set(name, value) {
            Some(changed) => write_regs(io, tid, changed),
            None => Err(Halt::Failed(TraceError::FixedRegister)),
        }
    }

    /// The registers, with their names, in the order in which they are shown.
    pub fn dump_regs(&self, io: &mut Transcript) -> (r: Result<Vec<(&'static str, u64)>, Halt>)
        ensures
            match r {
                Ok(list) => regs_listed(self@, old(io).rest()) == Io::Gives(named_values(list@), final(io).rest()),
                Err(Halt::Failed(e)) => regs_listed(self@, old(io).rest()) == Io::<Seq<(Text, u64)>>::Fails(
                    e,
                    final(io).rest(),
                ),
                Err(Halt::Waiting) => final(io).open_request() is Some && regs_listed(self@, old(io).rest()) == Io::<
                    Seq<(Text, u64)>,
                >::Waits(final(io).open_request().unwrap()),
            },
    {
        let regs: Regs = read_regs(io, self.ptrace_pid())?;
        Ok(regs.list())
    }
}

// ---- the start ----

impl InferiorV {
    /// The state with the most threads brought up to date.
    pub open spec fn counted(self) -> InferiorV {
        InferiorV {
            peak_threads: if self.peak_threads < self.threads.len() {
                self.threads.len()
            } else {
                self.peak_threads
            },
            ..self
        }
    }

    /// The state with a thread.
    pub open spec fn with_thread(self, tid: i32, t: Thread) -> InferiorV {
        InferiorV { threads: with_value(self.threads, tid, t), ..self }
    }
}

/// What comes of waiting for the start of the process: it must stop with a trap, and is then followed.
pub open spec fn started(s: InferiorV, replies: Seq<Reply>) -> Ran<()> {
    after_io(
        asked(Request::WaitStart(s.pid), replies, |r: Reply| as_status(r)),
        s,
        |status: WaitStatus, rest: Seq<Reply>|
            match status {
                WaitStatus::Stopped(_, signal) => if signal == SIGTRAP {
                    after_io(
                        asked(Request::TraceClones(s.pid), rest, |r: Reply| as_done(r)),
                        s,
                        |u: (), rest: Seq<Reply>|
                            Ran::Gives((), s.with_thread(s.pid, first_thread()).counted(), rest),
                    )
                } else {
                    Ran::Fails(TraceError::UnexpectedStatus(status), s, rest)
                },
                _ => Ran::Fails(TraceError::UnexpectedStatus(status), s, rest),
            },
    )
}

impl Inferior {
    /// Brings the most threads up to date.
    pub(crate) fn note_thread_count(&mut self)
        ensures
            final(self)@ == old(self)@.counted(),
    {
        if self.peak_threads < self.threads.len() {
            self.peak_threads = self.threads.len();
        }
        assert(self@ =~= old(self)@.counted());
    }

    /// Waits for the start of the process.
    pub fn wait_initial(&mut self, io: &mut Transcript) -> (r: Result<(), Halt>)
        ensures
            ended(r, final(self)@, *final(io), started(old(self)@, old(io).rest())),
    {
        let status: WaitStatus = wait_once(io, Request::WaitStart(self.pid))?;
        match status {
            WaitStatus::Stopped(_, signal) => {
                if signal != SIGTRAP {
                    return Err(Halt::Failed(TraceError::UnexpectedStatus(status)));
                }
            },
            _ => {
                return Err(Halt::Failed(TraceError::UnexpectedStatus(status)));
            },
        }
        done(io, Request::TraceClones(self.pid))?;
        let ghost before = self@;
        put(&mut self.threads, self.pid, Thread { running: false, pending_signal: None, sigstop_sent: false });
        assert(self@ =~= before.with_thread(before.pid, first_thread()));
        self.note_thread_count();
        Ok(())
    }
}

} // verus!
