//! Laws of running an operation again: it goes the same way, however many replies are known in
//! advance.
//!
//! Each law says of an operation that came to an end that the replies it left unused are the last ones,
//! and that with any others in their place it comes to the same end and leaves those.

use vstd::prelude::*;

use crate::calls::bytes_set;
use crate::calls::call_awaited;
use crate::calls::call_begun;
use crate::calls::call_concluded;
use crate::calls::call_ended;
use crate::calls::call_lasted;
use crate::calls::call_made;
use crate::calls::call_stack;
use crate::calls::call_status;
use crate::calls::call_trapped;
use crate::calls::call_undone;
use crate::calls::entered;
use crate::calls::entry_regs;
use crate::calls::is_armed;
use crate::calls::others_armed;
use crate::calls::others_set_aside;
use crate::calls::regs_restored;
use crate::calls::trap_readied;
use crate::calls::traps;
use crate::inferior::armed_at;
use crate::inferior::breakpoint_set;
use crate::inferior::byte_set;
use crate::inferior::disarmed_at;
use crate::inferior::mem_read;
use crate::inferior::mem_written;
use crate::inferior::overlaid;
use crate::inferior::plus;
use crate::inferior::reg_read;
use crate::inferior::reg_written;
use crate::inferior::started;
use crate::inferior::Breakpoint;
use crate::inferior::Call;
use crate::inferior::InferiorV;
use crate::inferior::Ran;
use crate::inferior::Thread;
use crate::inferior::TRAP_BYTE;
use crate::orderly::law_call_begun;
use crate::orderly::lemma_lasted_orderly;
use crate::orderly::orderly;
use crate::regs::Regs;
use crate::stepping::step_seen;
use crate::stepping::step_tried;
use crate::stepping::stepped;
use crate::stepping::stepped_over;
use crate::stepping::trap_restored;
use crate::stepping::StepTaken;
use crate::stepping::MAX_STEPS;
use crate::table::holds_key;
use crate::table::value_of;
use crate::text::Text;
use crate::threads::awaited;
use crate::threads::before_it;
use crate::threads::interrupted;
use crate::threads::lemma_status_shorter;
use crate::threads::one_resumed;
use crate::threads::resumed;
use crate::threads::round_ended;
use crate::threads::round_run;
use crate::threads::runs;
use crate::threads::status_handled;
use crate::threads::tids_where;
use crate::threads::trap_handled;
use crate::threads::world_stopped;
use crate::trace::lemma_waited_shorter;
use crate::trace::message_read;
use crate::trace::regs_read;
use crate::trace::regs_written;
use crate::trace::waited;
use crate::trace::word_read;
use crate::trace::word_written;
use crate::trace::Io;
use crate::trace::Reply;
use crate::trace::Request;
use crate::trace::TraceError;
use crate::trace::WaitStatus;
use crate::trace::EINTR;
use crate::trace::SIGTRAP;
use crate::words::le_bytes;
use crate::words::le_word;
use crate::words::with_low_byte;

verus! {

/// Whether asking came to an end.
pub open spec fn io_done<T>(r: Io<T>) -> bool {
    !(r is Waits)
}

/// The replies that were not used.
pub open spec fn io_rest<T>(r: Io<T>) -> Seq<Reply> {
    match r {
        Io::Waits(_) => Seq::empty(),
        Io::Fails(_, rest) => rest,
        Io::Gives(_, rest) => rest,
    }
}

/// The same end, with other replies left.
pub open spec fn io_with<T>(r: Io<T>, x: Seq<Reply>) -> Io<T> {
    match r {
        Io::Waits(q) => Io::Waits(q),
        Io::Fails(e, _) => Io::Fails(e, x),
        Io::Gives(t, _) => Io::Gives(t, x),
    }
}

/// Whether an operation came to an end.
pub open spec fn ran_done<T>(r: Ran<T>) -> bool {
    !(r is Waits)
}

/// The replies that were not used.
pub open spec fn ran_rest<T>(r: Ran<T>) -> Seq<Reply> {
    match r {
        Ran::Waits(_) => Seq::empty(),
        Ran::Fails(_, _, rest) => rest,
        Ran::Gives(_, _, rest) => rest,
    }
}

/// The same end, with other replies left.
pub open spec fn ran_with<T>(r: Ran<T>, x: Seq<Reply>) -> Ran<T> {
    match r {
        Ran::Waits(q) => Ran::Waits(q),
        Ran::Fails(e, s, _) => Ran::Fails(e, s, x),
        Ran::Gives(t, s, _) => Ran::Gives(t, s, x),
    }
}

/// The replies that were used.
pub open spec fn used(replies: Seq<Reply>, rest: Seq<Reply>) -> Seq<Reply> {
    replies.take(replies.len() - rest.len())
}

/// Whether `rest` is what is left of `replies` when the first of them are used.
pub open spec fn ends_with(replies: Seq<Reply>, rest: Seq<Reply>) -> bool {
    rest.len() <= replies.len() && replies == used(replies, rest) + rest
}

/// Where one reply is used.
proof fn lemma_one(replies: Seq<Reply>, x: Seq<Reply>)
    ensures
        replies.len() > 0 ==> {
            let one = used(replies, replies.drop_first());
            &&& ends_with(replies, replies.drop_first())
            &&& (one + x).len() > 0
            &&& (one + x)[0] == replies[0]
            &&& (one + x).drop_first() == x
        },
{
    if replies.len() > 0 {
        let one = used(replies, replies.drop_first());
        assert(replies =~= one + replies.drop_first());
        assert((one + x).drop_first() =~= x);
    }
}

/// Where no reply is used.
proof fn lemma_zero(replies: Seq<Reply>, x: Seq<Reply>)
    ensures
        ends_with(replies, replies),
        used(replies, replies) + x == x,
{
    assert(replies =~= used(replies, replies) + replies);
    assert(used(replies, replies) + x =~= x);
}

/// Where replies are used in two steps.
pub proof fn lemma_used_twice(replies: Seq<Reply>, rest: Seq<Reply>, end: Seq<Reply>, x: Seq<Reply>)
    requires
        ends_with(replies, rest),
        ends_with(rest, end),
    ensures
        ends_with(replies, end),
        used(replies, end) + x == used(replies, rest) + (used(rest, end) + x),
{
    let a = used(replies, rest);
    let b = used(rest, end);
    assert(replies =~= a + (b + end));
    assert(used(replies, end) =~= a + b);
    assert(used(replies, end) + end =~= replies);
    assert((a + b) + x =~= a + (b + x));
}

/// Reading a word.
pub proof fn lemma_again_word_read(tid: i32, addr: u64, replies: Seq<Reply>, x: Seq<Reply>)
    ensures
        io_done(word_read(tid, addr, replies)) ==> {
            let rest = io_rest(word_read(tid, addr, replies));
            &&& ends_with(replies, rest)
            &&& word_read(tid, addr, used(replies, rest) + x) == io_with(word_read(tid, addr, replies), x)
        },
{
    lemma_one(replies, x);
}

/// Writing a word.
pub proof fn lemma_again_word_written(tid: i32, addr: u64, word: u64, replies: Seq<Reply>, x: Seq<Reply>)
    ensures
        io_done(word_written(tid, addr, word, replies)) ==> {
            let rest = io_rest(word_written(tid, addr, word, replies));
            &&& ends_with(replies, rest)
            &&& word_written(tid, addr, word, used(replies, rest) + x) == io_with(word_written(tid, addr, word, replies), x)
        },
{
    lemma_one(replies, x);
}

/// Reading registers.
pub proof fn lemma_again_regs_read(tid: i32, replies: Seq<Reply>, x: Seq<Reply>)
    ensures
        io_done(regs_read(tid, replies)) ==> {
            let rest = io_rest(regs_read(tid, replies));
            &&& ends_with(replies, rest)
            &&& regs_read(tid, used(replies, rest) + x) == io_with(regs_read(tid, replies), x)
        },
{
    lemma_one(replies, x);
}

/// Setting registers.
pub proof fn lemma_again_regs_written(tid: i32, regs: Regs, replies: Seq<Reply>, x: Seq<Reply>)
    ensures
        io_done(regs_written(tid, regs, replies)) ==> {
            let rest = io_rest(regs_written(tid, regs, replies));
            &&& ends_with(replies, rest)
            &&& regs_written(tid, regs, used(replies, rest) + x) == io_with(regs_written(tid, regs, replies), x)
        },
{
    lemma_one(replies, x);
}

/// Reading a message.
pub proof fn lemma_again_message_read(tid: i32, replies: Seq<Reply>, x: Seq<Reply>)
    ensures
        io_done(message_read(tid, replies)) ==> {
            let rest = io_rest(message_read(tid, replies));
            &&& ends_with(replies, rest)
            &&& message_read(tid, used(replies, rest) + x) == io_with(message_read(tid, replies), x)
        },
{
    lemma_one(replies, x);
}

/// Waiting.
pub proof fn lemma_again_waited(request: Request, replies: Seq<Reply>, x: Seq<Reply>)
    ensures
        io_done(waited(request, replies)) ==> {
            let rest = io_rest(waited(request, replies));
            &&& ends_with(replies, rest)
            &&& waited(request, used(replies, rest) + x) == io_with(waited(request, replies), x)
        },
    decreases replies.len(),
{
    lemma_one(replies, x);
    if replies.len() > 0 && replies[0] == Reply::Failed(EINTR) {
        let rest = replies.drop_first();
        let end = waited(request, rest);
        lemma_again_waited(request, rest, x);
        if io_done(end) {
            let u2 = used(rest, io_rest(end));
            lemma_one(replies, u2 + x);
            lemma_used_twice(replies, rest, io_rest(end), x);
        }
    }
}

/// Putting a byte.
pub proof fn lemma_again_byte_set(tid: i32, addr: u64, byte: u8, replies: Seq<Reply>, x: Seq<Reply>)
    ensures
        io_done(byte_set(tid, addr, byte, replies)) ==> {
            let rest = io_rest(byte_set(tid, addr, byte, replies));
            &&& ends_with(replies, rest)
            &&& byte_set(tid, addr, byte, used(replies, rest) + x) == io_with(byte_set(tid, addr, byte, replies), x)
        },
{
    match word_read(tid, addr, replies) {
        Io::Gives(word, rest) => {
            let end = word_written(tid, addr, with_low_byte(word, byte), rest);
            if io_done(end) {
                let u2 = used(rest, io_rest(end));
                lemma_again_word_read(tid, addr, replies, u2 + x);
                lemma_again_word_written(tid, addr, with_low_byte(word, byte), rest, x);
                lemma_used_twice(replies, rest, io_rest(end), x);
            }
        },
        _ => {
            lemma_again_word_read(tid, addr, replies, x);
        },
    }
}

/// Putting bytes.
pub proof fn lemma_again_bytes_set(tid: i32, list: Seq<(u64, u8)>, replies: Seq<Reply>, x: Seq<Reply>)
    ensures
        io_done(bytes_set(tid, list, replies)) ==> {
            let rest = io_rest(bytes_set(tid, list, replies));
            &&& ends_with(replies, rest)
            &&& bytes_set(tid, list, used(replies, rest) + x) == io_with(bytes_set(tid, list, replies), x)
        },
    decreases list.len(),
{
    if list.len() == 0 {
        lemma_zero(replies, x);
    } else {
        match byte_set(tid, list[0].0, list[0].1, replies) {
            Io::Gives(_, rest) => {
                let end = bytes_set(tid, list.drop_first(), rest);
                if io_done(end) {
                    let u2 = used(rest, io_rest(end));
                    lemma_again_byte_set(tid, list[0].0, list[0].1, replies, u2 + x);
                    lemma_again_bytes_set(tid, list.drop_first(), rest, x);
                    lemma_used_twice(replies, rest, io_rest(end), x);
                }
            },
            _ => {
                lemma_again_byte_set(tid, list[0].0, list[0].1, replies, x);
            },
        }
    }
}

/// Arming a breakpoint goes the same way again.
pub proof fn law_again_armed_at(s: InferiorV, addr: u64, replies: Seq<Reply>, x: Seq<Reply>)
    ensures
        ran_done(armed_at(s, addr, replies)) ==> {
            let rest = ran_rest(armed_at(s, addr, replies));
            &&& ends_with(replies, rest)
            &&& armed_at(s, addr, used(replies, rest) + x) == ran_with(armed_at(s, addr, replies), x)
        },
{
    lemma_zero(replies, x);
    if let Some(bp) = value_of(s.breakpoints, addr) {
        lemma_again_byte_set(s.tracee(), addr, TRAP_BYTE, replies, x);
    }
}

/// Disarming a breakpoint goes the same way again.
pub proof fn law_again_disarmed_at(s: InferiorV, addr: u64, replies: Seq<Reply>, x: Seq<Reply>)
    ensures
        ran_done(disarmed_at(s, addr, replies)) ==> {
            let rest = ran_rest(disarmed_at(s, addr, replies));
            &&& ends_with(replies, rest)
            &&& disarmed_at(s, addr, used(replies, rest) + x) == ran_with(disarmed_at(s, addr, replies), x)
        },
{
    lemma_zero(replies, x);
    if let Some(bp) = value_of(s.breakpoints, addr) {
        lemma_again_byte_set(s.tracee(), addr, bp.original_byte, replies, x);
    }
}

/// Setting a breakpoint goes the same way again.
pub proof fn law_again_breakpoint_set(s: InferiorV, static_addr: u64, armed: bool, replies: Seq<Reply>, x: Seq<Reply>)
    ensures
        ran_done(breakpoint_set(s, static_addr, armed, replies)) ==> {
            let rest = ran_rest(breakpoint_set(s, static_addr, armed, replies));
            &&& ends_with(replies, rest)
            &&& breakpoint_set(s, static_addr, armed, used(replies, rest) + x) == ran_with(breakpoint_set(s, static_addr, armed, replies), x)
        },
{
    let runtime = plus(static_addr, s.load_base as int);
    lemma_zero(replies, x);
    if holds_key(s.breakpoints, runtime) {
        law_again_armed_at(s, runtime, replies, x);
    } else {
        lemma_again_word_read(s.tracee(), runtime, replies, x);
        match word_read(s.tracee(), runtime, replies) {
            Io::Gives(word, rest) => {
                let s1 = s.with_breakpoint(
                    runtime,
                    Breakpoint { original_byte: (word % 0x100) as u8, armed: false },
                );
                let end = armed_at(s1, runtime, rest);
                if armed && ran_done(end) {
                    let u2 = used(rest, ran_rest(end));
                    lemma_again_word_read(s.tracee(), runtime, replies, u2 + x);
                    law_again_armed_at(s1, runtime, rest, x);
                    lemma_used_twice(replies, rest, ran_rest(end), x);
                }
            },
            _ => {},
        }
    }
}

/// A thread that stopped with a trap.
pub proof fn lemma_again_trap_handled(s: InferiorV, tid: i32, replies: Seq<Reply>, x: Seq<Reply>)
    ensures
        ran_done(trap_handled(s, tid, replies)) ==> {
            let rest = ran_rest(trap_handled(s, tid, replies));
            &&& ends_with(replies, rest)
            &&& trap_handled(s, tid, used(replies, rest) + x) == ran_with(trap_handled(s, tid, replies), x)
        },
{
    lemma_again_regs_read(tid, replies, x);
    match regs_read(tid, replies) {
        Io::Gives(regs, rest) => {
            let set = Regs { rip: before_it(regs.rip), ..regs };
            let end = regs_written(tid, set, rest);
            if io_done(end) {
                let u2 = used(rest, io_rest(end));
                lemma_again_regs_read(tid, replies, u2 + x);
                lemma_again_regs_written(tid, set, rest, x);
                lemma_used_twice(replies, rest, io_rest(end), x);
            }
        },
        _ => {},
    }
}

/// Learning what became of a thread goes the same way again.
pub proof fn law_again_status_handled(s: InferiorV, status: WaitStatus, replies: Seq<Reply>, x: Seq<Reply>)
    ensures
        ran_done(status_handled(s, status, replies)) ==> {
            let rest = ran_rest(status_handled(s, status, replies));
            &&& ends_with(replies, rest)
            &&& status_handled(s, status, used(replies, rest) + x) == ran_with(status_handled(s, status, replies), x)
        },
{
    lemma_zero(replies, x);
    match status {
        WaitStatus::Event(tid, event) => {
            lemma_again_message_read(tid, replies, x);
        },
        WaitStatus::Stopped(tid, signal) => {
            if signal == SIGTRAP {
                lemma_again_trap_handled(s, tid, replies, x);
            }
        },
        _ => {},
    }
}

/// Letting a thread go on.
pub proof fn lemma_again_one_resumed(s: InferiorV, tid: i32, replies: Seq<Reply>, x: Seq<Reply>)
    ensures
        ran_done(one_resumed(s, tid, replies)) ==> {
            let rest = ran_rest(one_resumed(s, tid, replies));
            &&& ends_with(replies, rest)
            &&& one_resumed(s, tid, used(replies, rest) + x) == ran_with(one_resumed(s, tid, replies), x)
        },
{
    lemma_zero(replies, x);
    lemma_one(replies, x);
}

/// Letting threads go on.
pub proof fn lemma_again_resumed(s: InferiorV, tids: Seq<i32>, replies: Seq<Reply>, x: Seq<Reply>)
    ensures
        ran_done(resumed(s, tids, replies)) ==> {
            let rest = ran_rest(resumed(s, tids, replies));
            &&& ends_with(replies, rest)
            &&& resumed(s, tids, used(replies, rest) + x) == ran_with(resumed(s, tids, replies), x)
        },
    decreases tids.len(),
{
    if tids.len() == 0 {
        lemma_zero(replies, x);
    } else {
        match one_resumed(s, tids[0], replies) {
            Ran::Gives(_, s1, rest) => {
                let end = resumed(s1, tids.drop_first(), rest);
                if ran_done(end) {
                    let u2 = used(rest, ran_rest(end));
                    lemma_again_one_resumed(s, tids[0], replies, u2 + x);
                    lemma_again_resumed(s1, tids.drop_first(), rest, x);
                    lemma_used_twice(replies, rest, ran_rest(end), x);
                }
            },
            _ => {
                lemma_again_one_resumed(s, tids[0], replies, x);
            },
        }
    }
}

/// Asking for threads to be stopped.
pub proof fn lemma_again_interrupted(s: InferiorV, tids: Seq<i32>, replies: Seq<Reply>, x: Seq<Reply>)
    ensures
        ran_done(interrupted(s, tids, replies)) ==> {
            let rest = ran_rest(interrupted(s, tids, replies));
            &&& ends_with(replies, rest)
            &&& interrupted(s, tids, used(replies, rest) + x) == ran_with(interrupted(s, tids, replies), x)
        },
    decreases tids.len(),
{
    if tids.len() == 0 {
        lemma_zero(replies, x);
    } else if replies.len() > 0 {
        let s1 = if replies[0] == Reply::Done {
            s.with_changed(tids[0], |t: Thread| Thread { sigstop_sent: true, ..t })
        } else {
            s
        };
        let rest = replies.drop_first();
        let end = interrupted(s1, tids.drop_first(), rest);
        if ran_done(end) {
            let u2 = used(rest, ran_rest(end));
            lemma_one(replies, u2 + x);
            lemma_again_interrupted(s1, tids.drop_first(), rest, x);
            lemma_used_twice(replies, rest, ran_rest(end), x);
        }
    }
}

/// Waiting for threads to stop.
pub proof fn lemma_again_awaited(s: InferiorV, tids: Seq<i32>, replies: Seq<Reply>, x: Seq<Reply>)
    ensures
        ran_done(awaited(s, tids, replies)) ==> {
            let rest = ran_rest(awaited(s, tids, replies));
            &&& ends_with(replies, rest)
            &&& awaited(s, tids, used(replies, rest) + x) == ran_with(awaited(s, tids, replies), x)
        },
    decreases replies.len(), tids.len(),
{
    if tids.len() == 0 {
        lemma_zero(replies, x);
    } else if !runs(s, tids[0]) {
        lemma_again_awaited(s, tids.drop_first(), replies, x);
    } else {
        let wait = Request::WaitThread(tids[0]);
        lemma_waited_shorter(wait, replies);
        match waited(wait, replies) {
            Io::Gives(status, rest) => {
                lemma_status_shorter(s, status, rest);
                match status_handled(s, status, rest) {
                    Ran::Gives(left, s1, rest2) => {
                        let end = awaited(s1, tids, rest2);
                        if ran_done(end) {
                            let u3 = used(rest2, ran_rest(end));
                            lemma_again_awaited(s1, tids, rest2, x);
                            law_again_status_handled(s, status, rest, u3 + x);
                            let u2 = used(rest, rest2);
                            lemma_again_waited(wait, replies, u2 + (u3 + x));
                            lemma_used_twice(rest, rest2, ran_rest(end), x);
                            lemma_used_twice(replies, rest, ran_rest(end), x);
                            let again = used(replies, ran_rest(end)) + x;
                            assert(again == used(replies, rest) + (u2 + (u3 + x)));
                            lemma_waited_shorter(wait, again);
                            assert(waited(wait, again) == Io::Gives(status, u2 + (u3 + x)));
                            lemma_status_shorter(s, status, u2 + (u3 + x));
                            assert(status_handled(s, status, u2 + (u3 + x)) == Ran::Gives(left, s1, u3 + x));
                            assert(awaited(s, tids, again) == awaited(s1, tids, u3 + x));
                        }
                    },
                    Ran::Fails(e, s1, rest2) => {
                        law_again_status_handled(s, status, rest, x);
                        let u2 = used(rest, rest2);
                        lemma_again_waited(wait, replies, u2 + x);
                        lemma_used_twice(replies, rest, rest2, x);
                        let again = used(replies, rest2) + x;
                        lemma_waited_shorter(wait, again);
                        assert(waited(wait, again) == Io::Gives(status, u2 + x));
                    },
                    Ran::Waits(_) => {},
                }
            },
            _ => {
                lemma_again_waited(wait, replies, x);
            },
        }
    }
}

/// Stopping all threads goes the same way again.
pub proof fn law_again_world_stopped(s: InferiorV, replies: Seq<Reply>, x: Seq<Reply>)
    ensures
        ran_done(world_stopped(s, replies)) ==> {
            let rest = ran_rest(world_stopped(s, replies));
            &&& ends_with(replies, rest)
            &&& world_stopped(s, used(replies, rest) + x) == ran_with(world_stopped(s, replies), x)
        },
{
    let tids = tids_where(s.threads, true);
    match interrupted(s, tids, replies) {
        Ran::Gives(_, s1, rest) => {
            let end = awaited(s1, tids, rest);
            if ran_done(end) {
                let u2 = used(rest, ran_rest(end));
                lemma_again_interrupted(s, tids, replies, u2 + x);
                lemma_again_awaited(s1, tids, rest, x);
                lemma_used_twice(replies, rest, ran_rest(end), x);
            }
        },
        _ => {
            lemma_again_interrupted(s, tids, replies, x);
        },
    }
}

/// The end of a round of running.
pub proof fn lemma_again_round_ended(s: InferiorV, replies: Seq<Reply>, x: Seq<Reply>)
    ensures
        ran_done(round_ended(s, replies)) ==> {
            let rest = ran_rest(round_ended(s, replies));
            &&& ends_with(replies, rest)
            &&& round_ended(s, used(replies, rest) + x) == ran_with(round_ended(s, replies), x)
        },
{
    lemma_one(replies, x);
    if replies.len() > 0 {
        if let Reply::Status(status) = replies[0] {
            let rest = replies.drop_first();
            match status_handled(s, status, rest) {
                Ran::Gives(exited, s1, rest2) => {
                    if !exited && s1.pending_hits.len() > 0 {
                        let end = world_stopped(s1, rest2);
                        if ran_done(end) {
                            let u3 = used(rest2, ran_rest(end));
                            law_again_world_stopped(s1, rest2, x);
                            law_again_status_handled(s, status, rest, u3 + x);
                            let u2 = used(rest, rest2);
                            lemma_one(replies, u2 + (u3 + x));
                            lemma_used_twice(rest, rest2, ran_rest(end), x);
                            lemma_used_twice(replies, rest, ran_rest(end), x);
                        }
                    } else {
                        law_again_status_handled(s, status, rest, x);
                        lemma_one(replies, used(rest, rest2) + x);
                        lemma_used_twice(replies, rest, rest2, x);
                    }
                },
                Ran::Fails(e, s1, rest2) => {
                    law_again_status_handled(s, status, rest, x);
                    lemma_one(replies, used(rest, rest2) + x);
                    lemma_used_twice(replies, rest, rest2, x);
                },
                Ran::Waits(_) => {},
            }
        }
    }
}

/// A round of running goes the same way again.
pub proof fn law_again_round_run(s: InferiorV, replies: Seq<Reply>, x: Seq<Reply>)
    ensures
        ran_done(round_run(s, replies)) ==> {
            let rest = ran_rest(round_run(s, replies));
            &&& ends_with(replies, rest)
            &&& round_run(s, used(replies, rest) + x) == ran_with(round_run(s, replies), x)
        },
{
    lemma_zero(replies, x);
    if s.pending_hits.len() == 0 && s.threads.len() > 0 {
        let tids = tids_where(s.threads, false);
        match resumed(s, tids, replies) {
            Ran::Gives(_, s1, rest) => {
                let end = round_ended(s1, rest);
                if ran_done(end) {
                    let u2 = used(rest, ran_rest(end));
                    lemma_again_resumed(s, tids, replies, u2 + x);
                    lemma_again_round_ended(s1, rest, x);
                    lemma_used_twice(replies, rest, ran_rest(end), x);
                }
            },
            _ => {
                lemma_again_resumed(s, tids, replies, x);
            },
        }
    }
}

/// Learning of a step.
pub proof fn lemma_again_step_seen(s: InferiorV, tid: i32, status: WaitStatus, replies: Seq<Reply>, x: Seq<Reply>)
    ensures
        ran_done(step_seen(s, tid, status, replies)) ==> {
            let rest = ran_rest(step_seen(s, tid, status, replies));
            &&& ends_with(replies, rest)
            &&& step_seen(s, tid, status, used(replies, rest) + x) == ran_with(step_seen(s, tid, status, replies), x)
        },
{
    lemma_zero(replies, x);
    if let WaitStatus::Event(_, event) = status {
        lemma_again_message_read(tid, replies, x);
    }
}

/// Asking a thread to step.
pub proof fn lemma_again_step_tried(s: InferiorV, tid: i32, replies: Seq<Reply>, x: Seq<Reply>)
    ensures
        ran_done(step_tried(s, tid, replies)) ==> {
            let rest = ran_rest(step_tried(s, tid, replies));
            &&& ends_with(replies, rest)
            &&& step_tried(s, tid, used(replies, rest) + x) == ran_with(step_tried(s, tid, replies), x)
        },
{
    lemma_one(replies, x);
    if replies.len() > 0 && replies[0] == Reply::Done {
        let rest = replies.drop_first();
        let wait = Request::WaitThread(tid);
        match waited(wait, rest) {
            Io::Gives(status, rest2) => {
                let end = step_seen(s, tid, status, rest2);
                if ran_done(end) {
                    let u3 = used(rest2, ran_rest(end));
                    lemma_again_step_seen(s, tid, status, rest2, x);
                    lemma_again_waited(wait, rest, u3 + x);
                    lemma_one(replies, used(rest, rest2) + (u3 + x));
                    lemma_used_twice(rest, rest2, ran_rest(end), x);
                    lemma_used_twice(replies, rest, ran_rest(end), x);
                }
            },
            Io::Fails(e, rest2) => {
                lemma_again_waited(wait, rest, x);
                lemma_one(replies, used(rest, rest2) + x);
                lemma_used_twice(replies, rest, rest2, x);
            },
            Io::Waits(_) => {},
        }
    }
}

/// Making a thread step.
pub proof fn lemma_again_stepped(s: InferiorV, tid: i32, addr: u64, tries: nat, replies: Seq<Reply>, x: Seq<Reply>)
    ensures
        ran_done(stepped(s, tid, addr, tries, replies)) ==> {
            let rest = ran_rest(stepped(s, tid, addr, tries, replies));
            &&& ends_with(replies, rest)
            &&& stepped(s, tid, addr, tries, used(replies, rest) + x) == ran_with(stepped(s, tid, addr, tries, replies), x)
        },
    decreases tries,
{
    if tries == 0 {
        lemma_zero(replies, x);
    } else {
        lemma_again_step_tried(s, tid, replies, x);
        match step_tried(s, tid, replies) {
            Ran::Gives(StepTaken::Again, s1, rest) => {
                let end = stepped(s1, tid, addr, (tries - 1) as nat, rest);
                if ran_done(end) {
                    let u2 = used(rest, ran_rest(end));
                    lemma_again_step_tried(s, tid, replies, u2 + x);
                    lemma_again_stepped(s1, tid, addr, (tries - 1) as nat, rest, x);
                    lemma_used_twice(replies, rest, ran_rest(end), x);
                }
            },
            _ => {},
        }
    }
}

/// Putting the instruction of a breakpoint back.
pub proof fn lemma_again_trap_restored(s: InferiorV, tid: i32, addr: u64, replies: Seq<Reply>, x: Seq<Reply>)
    ensures
        ran_done(trap_restored(s, tid, addr, replies)) ==> {
            let rest = ran_rest(trap_restored(s, tid, addr, replies));
            &&& ends_with(replies, rest)
            &&& trap_restored(s, tid, addr, used(replies, rest) + x) == ran_with(trap_restored(s, tid, addr, replies), x)
        },
{
    lemma_zero(replies, x);
    lemma_again_byte_set(tid, addr, TRAP_BYTE, replies, x);
}

/// Stepping a thread past a breakpoint goes the same way again.
pub proof fn law_again_stepped_over(s: InferiorV, tid: i32, addr: u64, replies: Seq<Reply>, x: Seq<Reply>)
    ensures
        ran_done(stepped_over(s, tid, addr, replies)) ==> {
            let rest = ran_rest(stepped_over(s, tid, addr, replies));
            &&& ends_with(replies, rest)
            &&& stepped_over(s, tid, addr, used(replies, rest) + x) == ran_with(stepped_over(s, tid, addr, replies), x)
        },
{
    lemma_zero(replies, x);
    if let Some(bp) = value_of(s.breakpoints, addr) {
        lemma_again_byte_set(tid, addr, bp.original_byte, replies, x);
        match byte_set(tid, addr, bp.original_byte, replies) {
            Io::Gives(_, rest) => {
                match stepped(s, tid, addr, MAX_STEPS as nat, rest) {
                    Ran::Gives(there, s1, rest2) => {
                        if there {
                            let end = trap_restored(s1, tid, addr, rest2);
                            if ran_done(end) {
                                let u3 = used(rest2, ran_rest(end));
                                lemma_again_trap_restored(s1, tid, addr, rest2, x);
                                lemma_again_stepped(s, tid, addr, MAX_STEPS as nat, rest, u3 + x);
                                let u2 = used(rest, rest2);
                                lemma_again_byte_set(tid, addr, bp.original_byte, replies, u2 + (u3 + x));
                                lemma_used_twice(rest, rest2, ran_rest(end), x);
                                lemma_used_twice(replies, rest, ran_rest(end), x);
                            }
                        } else {
                            lemma_again_stepped(s, tid, addr, MAX_STEPS as nat, rest, x);
                            lemma_again_byte_set(tid, addr, bp.original_byte, replies, used(rest, rest2) + x);
                            lemma_used_twice(replies, rest, rest2, x);
                        }
                    },
                    Ran::Fails(e, s1, rest2) => {
                        lemma_again_stepped(s, tid, addr, MAX_STEPS as nat, rest, x);
                        lemma_again_byte_set(tid, addr, bp.original_byte, replies, used(rest, rest2) + x);
                        lemma_used_twice(replies, rest, rest2, x);
                    },
                    Ran::Waits(_) => {},
                }
            },
            _ => {},
        }
    }
}

/// Getting breakpoints out of the way.
pub proof fn lemma_again_others_set_aside(s: InferiorV, call: Call, replies: Seq<Reply>, x: Seq<Reply>)
    ensures
        ran_done(others_set_aside(s, call, replies)) ==> {
            let rest = ran_rest(others_set_aside(s, call, replies));
            &&& ends_with(replies, rest)
            &&& others_set_aside(s, call, used(replies, rest) + x) == ran_with(others_set_aside(s, call, replies), x)
        },
{
    lemma_again_bytes_set(s.tracee(), others_armed(s.breakpoints, call.trap), replies, x);
}

/// Readying the breakpoint that a call returns to.
pub proof fn lemma_again_trap_readied(s: InferiorV, call: Call, replies: Seq<Reply>, x: Seq<Reply>)
    ensures
        ran_done(trap_readied(s, call, replies)) ==> {
            let rest = ran_rest(trap_readied(s, call, replies));
            &&& ends_with(replies, rest)
            &&& trap_readied(s, call, used(replies, rest) + x) == ran_with(trap_readied(s, call, replies), x)
        },
{
    lemma_again_others_set_aside(s, call, replies, x);
    if !call.trap_was_armed {
        law_again_armed_at(s, call.trap, replies, x);
        match armed_at(s, call.trap, replies) {
            Ran::Gives(_, s1, rest) => {
                let end = others_set_aside(s1, call, rest);
                if ran_done(end) {
                    law_again_armed_at(s, call.trap, replies, used(rest, ran_rest(end)) + x);
                    lemma_again_others_set_aside(s1, call, rest, x);
                    lemma_used_twice(replies, rest, ran_rest(end), x);
                }
            },
            _ => {},
        }
    }
}

/// Entering a function.
pub proof fn lemma_again_entered(s: InferiorV, tid: i32, trap: u64, func: u64, args: Seq<u64>, replies: Seq<Reply>, x: Seq<Reply>)
    ensures
        ran_done(entered(s, tid, trap, func, args, replies)) ==> {
            let rest = ran_rest(entered(s, tid, trap, func, args, replies));
            &&& ends_with(replies, rest)
            &&& entered(s, tid, trap, func, args, used(replies, rest) + x) == ran_with(entered(s, tid, trap, func, args, replies), x)
        },
{
    lemma_again_regs_read(tid, replies, x);
    match regs_read(tid, replies) {
        Io::Gives(saved, r1) => {
            let slot = plus(call_stack(saved.rsp), -8);
            match word_written(tid, slot, trap, r1) {
                Io::Gives(_, r2) => {
                    let regs = entry_regs(saved, func, args);
                    match regs_written(tid, regs, r2) {
                        Io::Gives(_, r3) => {
                            let call = Call {
                                tid,
                                trap,
                                expected_rsp: call_stack(saved.rsp),
                                saved,
                                trap_was_armed: is_armed(s, trap),
                            };
                            let end = trap_readied(s, call, r3);
                            if ran_done(end) {
                                let e = ran_rest(end);
                                let x3 = used(r3, e) + x;
                                let x2 = used(r2, r3) + x3;
                                let x1 = used(r1, r2) + x2;
                                lemma_again_trap_readied(s, call, r3, x);
                                lemma_again_regs_written(tid, regs, r2, x3);
                                lemma_again_word_written(tid, slot, trap, r1, x2);
                                lemma_again_regs_read(tid, replies, x1);
                                lemma_used_twice(r2, r3, e, x);
                                lemma_used_twice(r1, r2, e, x);
                                lemma_used_twice(replies, r1, e, x);
                            }
                        },
                        Io::Fails(e, r3) => {
                            let x2 = used(r2, r3) + x;
                            let x1 = used(r1, r2) + x2;
                            lemma_again_regs_written(tid, regs, r2, x);
                            lemma_again_word_written(tid, slot, trap, r1, x2);
                            lemma_again_regs_read(tid, replies, x1);
                            lemma_used_twice(r1, r2, r3, x);
                            lemma_used_twice(replies, r1, r3, x);
                        },
                        Io::Waits(_) => {},
                    }
                },
                Io::Fails(e, r2) => {
                    lemma_again_word_written(tid, slot, trap, r1, x);
                    lemma_again_regs_read(tid, replies, used(r1, r2) + x);
                    lemma_used_twice(replies, r1, r2, x);
                },
                Io::Waits(_) => {},
            }
        },
        _ => {},
    }
}

/// Beginning a call goes the same way again.
pub proof fn law_again_call_begun(s: InferiorV, func: u64, args: Seq<u64>, replies: Seq<Reply>, x: Seq<Reply>)
    ensures
        ran_done(call_begun(s, func, args, replies)) ==> {
            let rest = ran_rest(call_begun(s, func, args, replies));
            &&& ends_with(replies, rest)
            &&& call_begun(s, func, args, used(replies, rest) + x) == ran_with(call_begun(s, func, args, replies), x)
        },
{
    lemma_zero(replies, x);
    if s.current is Some && s.current_bp is Some {
        lemma_again_entered(s, s.current.unwrap(), s.current_bp.unwrap(), func, args, replies, x);
    }
}

/// The thread of a call that stopped with a trap.
pub proof fn lemma_again_call_trapped(s: InferiorV, call: Call, replies: Seq<Reply>, x: Seq<Reply>)
    ensures
        ran_done(call_trapped(s, call, replies)) ==> {
            let rest = ran_rest(call_trapped(s, call, replies));
            &&& ends_with(replies, rest)
            &&& call_trapped(s, call, used(replies, rest) + x) == ran_with(call_trapped(s, call, replies), x)
        },
{
    lemma_again_regs_read(call.tid, replies, x);
    let s1 = s.with_stopped(call.tid);
    match regs_read(call.tid, replies) {
        Io::Gives(regs, r1) => {
            if before_it(regs.rip) == call.trap && regs.rsp != call.expected_rsp {
                let set = Regs { rip: call.trap, ..regs };
                match regs_written(call.tid, set, r1) {
                    Io::Gives(_, r2) => {
                        let end = stepped_over(s1, call.tid, call.trap, r2);
                        if ran_done(end) {
                            let e = ran_rest(end);
                            let x2 = used(r2, e) + x;
                            law_again_stepped_over(s1, call.tid, call.trap, r2, x);
                            lemma_again_regs_written(call.tid, set, r1, x2);
                            lemma_again_regs_read(call.tid, replies, used(r1, r2) + x2);
                            lemma_used_twice(r1, r2, e, x);
                            lemma_used_twice(replies, r1, e, x);
                        }
                    },
                    Io::Fails(e, r2) => {
                        lemma_again_regs_written(call.tid, set, r1, x);
                        lemma_again_regs_read(call.tid, replies, used(r1, r2) + x);
                        lemma_used_twice(replies, r1, r2, x);
                    },
                    Io::Waits(_) => {},
                }
            }
        },
        _ => {},
    }
}

/// Learning what became of a thread during a call.
pub proof fn lemma_again_call_status(s: InferiorV, call: Call, status: WaitStatus, replies: Seq<Reply>, x: Seq<Reply>)
    ensures
        ran_done(call_status(s, call, status, replies)) ==> {
            let rest = ran_rest(call_status(s, call, status, replies));
            &&& ends_with(replies, rest)
            &&& call_status(s, call, status, used(replies, rest) + x) == ran_with(call_status(s, call, status, replies), x)
        },
{
    lemma_again_call_trapped(s, call, replies, x);
    law_again_status_handled(s, status, replies, x);
}

/// A round of waiting for a call goes the same way again.
pub proof fn law_again_call_awaited(s: InferiorV, replies: Seq<Reply>, x: Seq<Reply>)
    ensures
        ran_done(call_awaited(s, replies)) ==> {
            let rest = ran_rest(call_awaited(s, replies));
            &&& ends_with(replies, rest)
            &&& call_awaited(s, used(replies, rest) + x) == ran_with(call_awaited(s, replies), x)
        },
{
    lemma_zero(replies, x);
    if let Some(call) = s.call {
        let tids = tids_where(s.threads, false);
        lemma_again_resumed(s, tids, replies, x);
        match resumed(s, tids, replies) {
            Ran::Gives(_, s1, r1) => match waited(Request::WaitAny, r1) {
                Io::Gives(status, r2) => {
                    let end = call_status(s1, call, status, r2);
                    if ran_done(end) {
                        let e = ran_rest(end);
                        let x2 = used(r2, e) + x;
                        lemma_again_call_status(s1, call, status, r2, x);
                        lemma_again_waited(Request::WaitAny, r1, x2);
                        lemma_again_resumed(s, tids, replies, used(r1, r2) + x2);
                        lemma_used_twice(r1, r2, e, x);
                        lemma_used_twice(replies, r1, e, x);
                    }
                },
                Io::Fails(e, r2) => {
                    lemma_again_waited(Request::WaitAny, r1, x);
                    lemma_again_resumed(s, tids, replies, used(r1, r2) + x);
                    lemma_used_twice(replies, r1, r2, x);
                },
                Io::Waits(_) => {},
            },
            _ => {},
        }
    }
}

/// A round of waiting for a call uses up a reply.
pub proof fn lemma_call_awaited_shorter(s: InferiorV, replies: Seq<Reply>)
    ensures
        call_awaited(s, replies) matches Ran::Gives(_, _, rest) ==> rest.len() < replies.len(),
{
    let none = Seq::<Reply>::empty();
    if let Some(call) = s.call {
        let tids = tids_where(s.threads, false);
        lemma_again_resumed(s, tids, replies, none);
        if let Ran::Gives(_, s1, r1) = resumed(s, tids, replies) {
            lemma_waited_shorter(Request::WaitAny, r1);
            if let Io::Gives(status, r2) = waited(Request::WaitAny, r1) {
                lemma_again_call_status(s1, call, status, r2, none);
            }
        }
    }
}

/// Waiting for a call until it has given something.
pub proof fn lemma_again_call_lasted(s: InferiorV, replies: Seq<Reply>, x: Seq<Reply>)
    ensures
        ran_done(call_lasted(s, replies)) ==> {
            let rest = ran_rest(call_lasted(s, replies));
            &&& ends_with(replies, rest)
            &&& call_lasted(s, used(replies, rest) + x) == ran_with(call_lasted(s, replies), x)
        },
    decreases replies.len(),
{
    law_again_call_awaited(s, replies, x);
    lemma_call_awaited_shorter(s, replies);
    if let Ran::Gives(None, s1, rest) = call_awaited(s, replies) {
        lemma_again_call_lasted(s1, rest, x);
        let end = call_lasted(s1, rest);
        if ran_done(end) {
            let x2 = used(rest, ran_rest(end)) + x;
            law_again_call_awaited(s, replies, x2);
            lemma_call_awaited_shorter(s, used(replies, rest) + x2);
            lemma_used_twice(replies, rest, ran_rest(end), x);
        }
    }
}

/// Putting registers back.
pub proof fn lemma_again_regs_restored(s: InferiorV, call: Call, stopped: Option<TraceError>, replies: Seq<Reply>, x: Seq<Reply>)
    ensures
        ran_done(regs_restored(s, call, stopped, replies)) ==> {
            let rest = ran_rest(regs_restored(s, call, stopped, replies));
            &&& ends_with(replies, rest)
            &&& regs_restored(s, call, stopped, used(replies, rest) + x) == ran_with(regs_restored(s, call, stopped, replies), x)
        },
{
    lemma_again_regs_written(call.tid, call.saved, replies, x);
}

/// Putting breakpoints and registers back.
pub proof fn lemma_again_call_undone(s: InferiorV, call: Call, list: Seq<(u64, u8)>, stopped: Option<TraceError>, replies: Seq<Reply>, x: Seq<Reply>)
    ensures
        ran_done(call_undone(s, call, list, stopped, replies)) ==> {
            let rest = ran_rest(call_undone(s, call, list, stopped, replies));
            &&& ends_with(replies, rest)
            &&& call_undone(s, call, list, stopped, used(replies, rest) + x) == ran_with(call_undone(s, call, list, stopped, replies), x)
        },
{
    let tid = s.tracee();
    lemma_again_bytes_set(tid, traps(list), replies, x);
    match bytes_set(tid, traps(list), replies) {
        Io::Gives(_, r1) => {
            if call.trap_was_armed {
                let end = regs_restored(s, call, stopped, r1);
                if ran_done(end) {
                    lemma_again_regs_restored(s, call, stopped, r1, x);
                    lemma_again_bytes_set(tid, traps(list), replies, used(r1, ran_rest(end)) + x);
                    lemma_used_twice(replies, r1, ran_rest(end), x);
                }
            } else {
                match disarmed_at(s, call.trap, r1) {
                    Ran::Gives(_, s1, r2) => {
                        let end = regs_restored(s1, call, stopped, r2);
                        if ran_done(end) {
                            let e = ran_rest(end);
                            let x2 = used(r2, e) + x;
                            lemma_again_regs_restored(s1, call, stopped, r2, x);
                            law_again_disarmed_at(s, call.trap, r1, x2);
                            lemma_again_bytes_set(tid, traps(list), replies, used(r1, r2) + x2);
                            lemma_used_twice(r1, r2, e, x);
                            lemma_used_twice(replies, r1, e, x);
                        }
                    },
                    Ran::Fails(e, s1, r2) => {
                        law_again_disarmed_at(s, call.trap, r1, x);
                        lemma_again_bytes_set(tid, traps(list), replies, used(r1, r2) + x);
                        lemma_used_twice(replies, r1, r2, x);
                    },
                    Ran::Waits(_) => {},
                }
            }
        },
        _ => {},
    }
}

/// Ending a call goes the same way again.
pub proof fn law_again_call_ended(s: InferiorV, replies: Seq<Reply>, x: Seq<Reply>)
    ensures
        ran_done(call_ended(s, replies)) ==> {
            let rest = ran_rest(call_ended(s, replies));
            &&& ends_with(replies, rest)
            &&& call_ended(s, used(replies, rest) + x) == ran_with(call_ended(s, replies), x)
        },
{
    lemma_zero(replies, x);
    if let Some(call) = s.call {
        let s0 = InferiorV { call: None, set_aside: Seq::empty(), ..s };
        let stop = world_stopped(s0, replies);
        if ran_done(stop) {
            let rest = ran_rest(stop);
            let s1 = match stop {
                Ran::Fails(_, s1, _) => s1,
                Ran::Gives(_, s1, _) => s1,
                Ran::Waits(_) => s0,
            };
            let stopped = match stop {
                Ran::Fails(e, _, _) => Some(e),
                _ => None,
            };
            let end = call_undone(s1, call, s.set_aside, stopped, rest);
            if ran_done(end) {
                lemma_again_call_undone(s1, call, s.set_aside, stopped, rest, x);
                law_again_world_stopped(s0, replies, used(rest, ran_rest(end)) + x);
                lemma_used_twice(replies, rest, ran_rest(end), x);
            }
        }
    }
}

/// Ending a call that gave something, or failed.
pub proof fn lemma_again_call_concluded(
    given: Result<(u64, u64), TraceError>,
    s: InferiorV,
    replies: Seq<Reply>,
    x: Seq<Reply>,
)
    ensures
        ran_done(call_concluded(given, s, replies)) ==> {
            let rest = ran_rest(call_concluded(given, s, replies));
            &&& ends_with(replies, rest)
            &&& call_concluded(given, s, used(replies, rest) + x) == ran_with(call_concluded(given, s, replies), x)
        },
{
    law_again_call_ended(s, replies, x);
}

/// Calling a function goes the same way again.
pub proof fn law_again_call_made(s: InferiorV, func: u64, args: Seq<u64>, replies: Seq<Reply>, x: Seq<Reply>)
    ensures
        ran_done(call_made(s, func, args, replies)) ==> {
            let rest = ran_rest(call_made(s, func, args, replies));
            &&& ends_with(replies, rest)
            &&& call_made(s, func, args, used(replies, rest) + x) == ran_with(call_made(s, func, args, replies), x)
        },
{
    law_again_call_begun(s, func, args, replies, x);
    if let Ran::Gives(_, s1, r1) = call_begun(s, func, args, replies) {
        let lasted = call_lasted(s1, r1);
        if ran_done(lasted) {
            let r2 = ran_rest(lasted);
            let (given, s2) = match lasted {
                Ran::Fails(e, s2, _) => (Err::<(u64, u64), TraceError>(e), s2),
                Ran::Gives(v, s2, _) => (Ok::<(u64, u64), TraceError>(v), s2),
                Ran::Waits(_) => (Err(TraceError::NoCall), s1),
            };
            let end = call_concluded(given, s2, r2);
            if ran_done(end) {
                let e = ran_rest(end);
                let x2 = used(r2, e) + x;
                lemma_again_call_concluded(given, s2, r2, x);
                lemma_again_call_lasted(s1, r1, x2);
                law_again_call_begun(s, func, args, replies, used(r1, r2) + x2);
                lemma_used_twice(r1, r2, e, x);
                lemma_used_twice(replies, r1, e, x);
            }
        }
    }
}

/// Reading memory goes the same way again.
pub proof fn law_again_mem_read(tid: i32, addr: u64, len: nat, replies: Seq<Reply>, x: Seq<Reply>)
    ensures
        io_done(mem_read(tid, addr, len, replies)) ==> {
            let rest = io_rest(mem_read(tid, addr, len, replies));
            &&& ends_with(replies, rest)
            &&& mem_read(tid, addr, len, used(replies, rest) + x) == io_with(mem_read(tid, addr, len, replies), x)
        },
    decreases len,
{
    if len == 0 {
        lemma_zero(replies, x);
    } else {
        lemma_again_word_read(tid, addr, replies, x);
        match word_read(tid, addr, replies) {
            Io::Gives(word, rest) => {
                if len > 8 {
                    let end = mem_read(tid, plus(addr, 8), (len - 8) as nat, rest);
                    if io_done(end) {
                        lemma_again_word_read(tid, addr, replies, used(rest, io_rest(end)) + x);
                        law_again_mem_read(tid, plus(addr, 8), (len - 8) as nat, rest, x);
                        lemma_used_twice(replies, rest, io_rest(end), x);
                    }
                }
            },
            _ => {},
        }
    }
}

/// Writing memory goes the same way again.
pub proof fn law_again_mem_written(tid: i32, addr: u64, bytes: Seq<u8>, replies: Seq<Reply>, x: Seq<Reply>)
    ensures
        io_done(mem_written(tid, addr, bytes, replies)) ==> {
            let rest = io_rest(mem_written(tid, addr, bytes, replies));
            &&& ends_with(replies, rest)
            &&& mem_written(tid, addr, bytes, used(replies, rest) + x) == io_with(mem_written(tid, addr, bytes, replies), x)
        },
    decreases bytes.len(),
{
    if bytes.len() == 0 {
        lemma_zero(replies, x);
    } else {
        lemma_again_word_read(tid, addr, replies, x);
        match word_read(tid, addr, replies) {
            Io::Gives(word, r1) => {
                let patched = le_word(overlaid(le_bytes(word), bytes));
                match word_written(tid, addr, patched, r1) {
                    Io::Gives(_, r2) => {
                        if bytes.len() > 8 {
                            let end = mem_written(tid, plus(addr, 8), bytes.skip(8), r2);
                            if io_done(end) {
                                let e = io_rest(end);
                                let x2 = used(r2, e) + x;
                                law_again_mem_written(tid, plus(addr, 8), bytes.skip(8), r2, x);
                                lemma_again_word_written(tid, addr, patched, r1, x2);
                                lemma_again_word_read(tid, addr, replies, used(r1, r2) + x2);
                                lemma_used_twice(r1, r2, e, x);
                                lemma_used_twice(replies, r1, e, x);
                            }
                        } else {
                            lemma_again_word_written(tid, addr, patched, r1, x);
                            lemma_again_word_read(tid, addr, replies, used(r1, r2) + x);
                            lemma_used_twice(replies, r1, r2, x);
                        }
                    },
                    Io::Fails(e, r2) => {
                        lemma_again_word_written(tid, addr, patched, r1, x);
                        lemma_again_word_read(tid, addr, replies, used(r1, r2) + x);
                        lemma_used_twice(replies, r1, r2, x);
                    },
                    Io::Waits(_) => {},
                }
            },
            _ => {},
        }
    }
}

/// Reading a register goes the same way again.
pub proof fn law_again_reg_read(s: InferiorV, name: Text, replies: Seq<Reply>, x: Seq<Reply>)
    ensures
        io_done(reg_read(s, name, replies)) ==> {
            let rest = io_rest(reg_read(s, name, replies));
            &&& ends_with(replies, rest)
            &&& reg_read(s, name, used(replies, rest) + x) == io_with(reg_read(s, name, replies), x)
        },
{
    lemma_again_regs_read(s.tracee(), replies, x);
}

/// Setting a register goes the same way again.
pub proof fn law_again_reg_written(s: InferiorV, name: Text, value: u64, replies: Seq<Reply>, x: Seq<Reply>)
    ensures
        io_done(reg_written(s, name, value, replies)) ==> {
            let rest = io_rest(reg_written(s, name, value, replies));
            &&& ends_with(replies, rest)
            &&& reg_written(s, name, value, used(replies, rest) + x) == io_with(reg_written(s, name, value, replies), x)
        },
{
    lemma_again_regs_read(s.tracee(), replies, x);
    match regs_read(s.tracee(), replies) {
        Io::Gives(regs, rest) => {
            if let Some(changed) = regs.with_value(name, value) {
                let end = regs_written(s.tracee(), changed, rest);
                if io_done(end) {
                    lemma_again_regs_read(s.tracee(), replies, used(rest, io_rest(end)) + x);
                    lemma_again_regs_written(s.tracee(), changed, rest, x);
                    lemma_used_twice(replies, rest, io_rest(end), x);
                }
            }
        },
        _ => {},
    }
}

/// Waiting for the start of a process goes the same way again.
pub proof fn law_again_started(s: InferiorV, replies: Seq<Reply>, x: Seq<Reply>)
    ensures
        ran_done(started(s, replies)) ==> {
            let rest = ran_rest(started(s, replies));
            &&& ends_with(replies, rest)
            &&& started(s, used(replies, rest) + x) == ran_with(started(s, replies), x)
        },
{
    lemma_one(replies, x);
    if replies.len() > 0 {
        let rest = replies.drop_first();
        lemma_one(rest, x);
        if rest.len() > 0 {
            let end = rest.drop_first();
            lemma_one(replies, used(rest, end) + x);
            lemma_used_twice(replies, rest, end, x);
        }
    }
}

// ---- what comes last ----

/// Before the last reply to putting a byte, the word with that byte in it is to be written.
proof fn lemma_last_byte_set(tid: i32, addr: u64, byte: u8, replies: Seq<Reply>)
    ensures
        byte_set(tid, addr, byte, replies) matches Io::Gives(_, rest) ==> {
            let all = used(replies, rest);
            &&& ends_with(replies, rest)
            &&& all.len() == 2
            &&& all[0] is Word
            &&& byte_set(tid, addr, byte, all.drop_last()) == Io::<()>::Waits(
                Request::WriteWord(tid, addr, with_low_byte(all[0]->Word_0, byte)),
            )
        },
{
    lemma_again_byte_set(tid, addr, byte, replies, Seq::empty());
    if let Io::Gives(_, rest) = byte_set(tid, addr, byte, replies) {
        assert(replies.drop_first().drop_first() == rest);
        let all = used(replies, rest);
        assert(all.drop_last() =~= seq![replies[0]]);
        assert(all.drop_last().drop_first() =~= Seq::<Reply>::empty());
    }
}

/// Before the last reply to putting breakpoints and registers back, the registers are to be set.
proof fn lemma_last_call_undone(s: InferiorV, call: Call, list: Seq<(u64, u8)>, replies: Seq<Reply>)
    ensures
        call_undone(s, call, list, None, replies) matches Ran::Gives(_, _, rest) ==> {
            let all = used(replies, rest);
            &&& ends_with(replies, rest)
            &&& all.len() > 0
            &&& call_undone(s, call, list, None, all.drop_last()) == Ran::<()>::Waits(
                Request::SetRegs(call.tid, call.saved),
            )
        },
{
    let none = Seq::<Reply>::empty();
    let tid = s.tracee();
    lemma_again_call_undone(s, call, list, None, replies, none);
    if let Ran::Gives(_, _, rest) = call_undone(s, call, list, None, replies) {
        lemma_again_bytes_set(tid, traps(list), replies, none);
        let r1 = io_rest(bytes_set(tid, traps(list), replies));
        if call.trap_was_armed {
            assert(r1.drop_first() == rest);
            assert(used(replies, rest).drop_last() =~= used(replies, r1) + none);
        } else {
            law_again_disarmed_at(s, call.trap, r1, none);
            let r2 = ran_rest(disarmed_at(s, call.trap, r1));
            assert(r2.drop_first() == rest);
            lemma_used_twice(replies, r1, r2, none);
            lemma_again_bytes_set(tid, traps(list), replies, used(r1, r2) + none);
            assert(used(replies, rest).drop_last() =~= used(replies, r2) + none);
        }
    }
}

/// Whenever a call was ended, the last thing that was asked was to give its thread the registers back
/// that it had before.
pub proof fn law_call_restores_registers(s: InferiorV, replies: Seq<Reply>)
    requires
        call_ended(s, replies) is Gives,
    ensures
        s.call is Some,
        ({
            let all = used(replies, ran_rest(call_ended(s, replies)));
            &&& ends_with(replies, ran_rest(call_ended(s, replies)))
            &&& all.len() > 0
            &&& call_ended(s, all.drop_last()) == Ran::<()>::Waits(
                Request::SetRegs(s.call.unwrap().tid, s.call.unwrap().saved),
            )
        }),
{
    let none = Seq::<Reply>::empty();
    let call = s.call.unwrap();
    let s0 = InferiorV { call: None, set_aside: Seq::empty(), ..s };
    law_again_call_ended(s, replies, none);
    law_again_world_stopped(s0, replies, none);
    match world_stopped(s0, replies) {
        Ran::Gives(_, s1, r1) => {
            lemma_last_call_undone(s1, call, s.set_aside, r1);
            let rest = ran_rest(call_ended(s, replies));
            let last = used(r1, rest).drop_last();
            law_again_world_stopped(s0, replies, last);
            assert(used(replies, rest).drop_last() =~= used(replies, r1) + last);
        },
        Ran::Fails(e, s1, r1) => {
            lemma_again_call_undone(s1, call, s.set_aside, Some(e), r1, none);
            lemma_never_given(s1, call, s.set_aside, e, r1);
        },
        _ => {},
    }
}

/// A call that has begun is one of the thread that is handled, and has its registers.
proof fn lemma_begun_saved(s: InferiorV, func: u64, args: Seq<u64>, replies: Seq<Reply>)
    ensures
        call_begun(s, func, args, replies) matches Ran::Gives(_, s1, _) ==> {
            &&& replies.len() > 0
            &&& s.current is Some
            &&& s1.call matches Some(call)
            &&& call.tid == s.current.unwrap()
            &&& replies[0] == Reply::Regs(call.saved)
        },
{
}

/// Whenever a function was called, the first reply was the registers of the thread, and the last thing
/// that was asked was to give them back to it.
pub proof fn law_call_gives_registers_back(s: InferiorV, func: u64, args: Seq<u64>, replies: Seq<Reply>)
    requires
        orderly(s),
        call_made(s, func, args, replies) is Gives,
    ensures
        ({
            let rest = ran_rest(call_made(s, func, args, replies));
            let all = used(replies, rest);
            &&& ends_with(replies, rest)
            &&& all.len() > 0
            &&& s.current is Some
            &&& all[0] matches Reply::Regs(saved)
            &&& call_made(s, func, args, all.drop_last()) == Ran::<(u64, u64)>::Waits(
                Request::SetRegs(s.current.unwrap(), saved),
            )
        }),
{
    let none = Seq::<Reply>::empty();
    law_again_call_made(s, func, args, replies, none);
    law_call_begun(s, func, args, replies);
    law_again_call_begun(s, func, args, replies, none);
    lemma_begun_saved(s, func, args, replies);
    if let Ran::Gives(_, s1, r1) = call_begun(s, func, args, replies) {
        lemma_lasted_orderly(s1, r1);
        lemma_again_call_lasted(s1, r1, none);
        if let Ran::Gives(v, s2, r2) = call_lasted(s1, r1) {
            law_call_restores_registers(s2, r2);
            let rest = ran_rest(call_made(s, func, args, replies));
            let last = used(r2, rest).drop_last();
            lemma_again_call_lasted(s1, r1, last);
            law_again_call_begun(s, func, args, replies, used(r1, r2) + last);
            assert(used(replies, rest).drop_last() =~= used(replies, r1) + (used(r1, r2) + last));
            assert(used(replies, rest)[0] == replies[0]);
        }
    }
}

/// Where not every thread could be stopped, putting breakpoints and registers back does not succeed.
proof fn lemma_never_given(s: InferiorV, call: Call, list: Seq<(u64, u8)>, e: TraceError, replies: Seq<Reply>)
    ensures
        !(call_undone(s, call, list, Some(e), replies) is Gives),
{
}

/// A thread that was to step and is not there any more was last heard of as having ended.
proof fn lemma_last_stepped(s: InferiorV, tid: i32, addr: u64, tries: nat, replies: Seq<Reply>)
    ensures
        stepped(s, tid, addr, tries, replies) matches Ran::Gives(there, _, rest) ==> {
            let all = used(replies, rest);
            &&& ends_with(replies, rest)
            &&& all.len() > 0
            &&& !there ==> all.last() matches Reply::Status(WaitStatus::Exited(_, _))
        },
    decreases tries,
{
    lemma_again_stepped(s, tid, addr, tries, replies, Seq::empty());
    if tries > 0 {
        lemma_again_step_tried(s, tid, replies, Seq::empty());
        if let Ran::Gives(taken, s1, rest) = step_tried(s, tid, replies) {
            lemma_last_waited(Request::WaitThread(tid), replies.drop_first());
            match taken {
                StepTaken::Again => {
                    lemma_last_stepped(s1, tid, addr, (tries - 1) as nat, rest);
                    if let Ran::Gives(there, _, end) = stepped(s1, tid, addr, (tries - 1) as nat, rest) {
                        assert(used(replies, end).last() == used(rest, end).last());
                    }
                },
                _ => {
                    assert(used(replies, rest).last() == used(replies.drop_first(), rest).last());
                },
            }
        }
    }
}

/// What was waited for is what was replied last.
proof fn lemma_last_waited(request: Request, replies: Seq<Reply>)
    ensures
        waited(request, replies) matches Io::Gives(status, rest) ==> {
            &&& ends_with(replies, rest)
            &&& used(replies, rest).len() > 0
            &&& used(replies, rest).last() == Reply::Status(status)
        },
    decreases replies.len(),
{
    lemma_again_waited(request, replies, Seq::empty());
    if replies.len() > 0 && replies[0] == Reply::Failed(EINTR) {
        lemma_last_waited(request, replies.drop_first());
        if let Io::Gives(status, rest) = waited(request, replies) {
            assert(used(replies, rest).last() == used(replies.drop_first(), rest).last());
        }
    }
}

/// Whenever a thread was stepped past an armed breakpoint, the last thing that was asked was to put the
/// breakpoint's instruction back, unless the thread was heard to have ended.
pub proof fn law_step_restores_trap(s: InferiorV, tid: i32, addr: u64, replies: Seq<Reply>)
    requires
        stepped_over(s, tid, addr, replies) is Gives,
        value_of(s.breakpoints, addr) matches Some(bp) && bp.armed,
        holds_key(s.threads, tid),
    ensures
        ({
            let all = used(replies, ran_rest(stepped_over(s, tid, addr, replies)));
            &&& ends_with(replies, ran_rest(stepped_over(s, tid, addr, replies)))
            &&& all.len() > 2
            &&& {
                ||| all.last() matches Reply::Status(WaitStatus::Exited(_, _))
                ||| all[all.len() - 2] matches Reply::Word(word) && stepped_over(s, tid, addr, all.drop_last())
                    == Ran::<()>::Waits(Request::WriteWord(tid, addr, with_low_byte(word, TRAP_BYTE)))
            }
        }),
{
    let none = Seq::<Reply>::empty();
    let bp = value_of(s.breakpoints, addr).unwrap();
    let rest = ran_rest(stepped_over(s, tid, addr, replies));
    law_again_stepped_over(s, tid, addr, replies, none);
    lemma_last_byte_set(tid, addr, bp.original_byte, replies);
    let r1 = io_rest(byte_set(tid, addr, bp.original_byte, replies));
    lemma_last_stepped(s, tid, addr, MAX_STEPS as nat, r1);
    lemma_stepped_keeps(s, tid, addr, MAX_STEPS as nat, r1);
    match stepped(s, tid, addr, MAX_STEPS as nat, r1) {
        Ran::Gives(there, s1, r2) => {
            if there {
                lemma_last_byte_set(tid, addr, TRAP_BYTE, r2);
                let last = used(r2, rest).drop_last();
                lemma_again_stepped(s, tid, addr, MAX_STEPS as nat, r1, last);
                lemma_again_byte_set(tid, addr, bp.original_byte, replies, used(r1, r2) + last);
                assert(used(replies, rest).drop_last() =~= used(replies, r1) + (used(r1, r2) + last));
                assert(used(replies, rest)[used(replies, rest).len() - 2] == used(r2, rest)[0]);
            } else {
                assert(used(replies, rest).last() == used(r1, r2).last());
            }
        },
        _ => {},
    }
}

/// Making a thread step leaves the breakpoints as they are.
proof fn lemma_stepped_keeps(s: InferiorV, tid: i32, addr: u64, tries: nat, replies: Seq<Reply>)
    ensures
        stepped(s, tid, addr, tries, replies) matches Ran::Gives(_, s1, _) ==> s1.breakpoints == s.breakpoints,
    decreases tries,
{
    if tries > 0 {
        if let Ran::Gives(StepTaken::Again, s1, rest) = step_tried(s, tid, replies) {
            lemma_stepped_keeps(s1, tid, addr, (tries - 1) as nat, rest);
        }
    }
}

} // verus!
