//! Laws of the target's code in memory: which bytes stand at breakpoints while the target runs, is
//! stepped and is made to call functions, as long as nothing else writes there.

use vstd::prelude::*;

use crate::inferior::after;
use crate::inferior::after_io;
use crate::inferior::armed_at;
use crate::inferior::armed_if;
use crate::inferior::breakpoint_set;
use crate::inferior::byte_set;
use crate::inferior::disarmed_at;
use crate::inferior::plus;
use crate::inferior::Breakpoint;
use crate::inferior::InferiorV;
use crate::inferior::Ran;
use crate::inferior::TRAP_BYTE;
use crate::inferior::Thread;
use crate::memory_laws::held_with;
use crate::memory_laws::law_arm_memory;
use crate::memory_laws::law_disarm_memory;
use crate::memory_laws::law_put_byte;
use crate::memory_laws::lemma_distance;
use crate::memory_laws::lemma_same_asks;
use crate::memory_laws::memory_at;
use crate::memory_laws::memory_with;
use crate::memory_laws::open_io;
use crate::memory_laws::open_ran;
use crate::memory_laws::served;
use crate::memory_laws::Memory;
use crate::orderly::law_run_orderly;
use crate::orderly::orderly;
use crate::replay::ends_with;
use crate::replay::io_rest;
use crate::replay::law_again_armed_at;
use crate::replay::law_again_disarmed_at;
use crate::replay::lemma_again_byte_set;
use crate::replay::lemma_again_step_tried;
use crate::replay::lemma_again_stepped;
use crate::replay::lemma_again_word_read;
use crate::replay::ran_done;
use crate::replay::ran_rest;
use crate::replay::ran_with;
use crate::replay::used;
use crate::session::addresses_for;
use crate::session::PlacedV;
use crate::stepping::step_tried;
use crate::stepping::stepped;
use crate::stepping::stepped_over;
use crate::stepping::trap_restored;
use crate::stepping::StepTaken;
use crate::stepping::MAX_STEPS;
use crate::switches::hooks_switched;
use crate::switches::switched;
use crate::switches::switched_at;
use crate::table::holds_key;
use crate::table::lemma_with_value;
use crate::table::value_of;
use crate::text::Text;
use crate::threads::all_resumed;
use crate::threads::awaited;
use crate::threads::interrupted;
use crate::threads::lemma_status_shorter;
use crate::threads::one_resumed;
use crate::threads::resumed;
use crate::threads::round_run;
use crate::threads::runs;
use crate::threads::status_handled;
use crate::threads::tids_where;
use crate::threads::world_stopped;
use crate::trace::as_status;
use crate::trace::lemma_waited_shorter;
use crate::trace::waited;
use crate::trace::word_read;
use crate::trace::Io;
use crate::trace::Reply;
use crate::trace::Request;
use crate::trace::TraceError;
use crate::trace::WaitStatus;
use crate::words::law_bytes_of_word;
use crate::words::law_lowest_byte_first;
use crate::words::le_bytes;
use crate::words::le_word;

verus! {

/// The request that is open after some replies, if any.
pub type Asks = spec_fn(Seq<Reply>) -> Option<Request>;

/// Whether a request is about memory.
pub open spec fn about_memory(q: Request) -> bool {
    q is ReadWord || q is WriteWord
}

/// What memory holds after a request and its reply: requests about memory are replied to as memory has
/// it, and no other request changes it, whatever the reply. Nothing, where the reply is another.
pub open spec fn code_served(m: Memory, q: Request, reply: Reply) -> Option<Memory> {
    if about_memory(q) {
        match served(m, q) {
            Some((r, m1)) => if r == reply {
                Some(m1)
            } else {
                None
            },
            None => None,
        }
    } else {
        Some(m)
    }
}

/// What memory holds after a conversation in which threads may also be let go on: the target does not
/// write where the operation writes. Nothing, where a reply is not what memory replies.
pub open spec fn code_after(asks: Asks, replies: Seq<Reply>, m: Memory) -> Option<Memory>
    decreases replies.len(),
{
    if replies.len() == 0 {
        Some(m)
    } else {
        match (code_after(asks, replies.drop_last(), m), asks(replies.drop_last())) {
            (Some(m1), Some(q)) => code_served(m1, q, replies.last()),
            _ => None,
        }
    }
}

/// A conversation can be held in two parts.
pub proof fn lemma_code_in_parts(asks: Asks, then: Asks, first: Seq<Reply>, rest: Seq<Reply>, m: Memory)
    requires
        forall|x: Seq<Reply>| #[trigger] asks(first + x) == then(x),
    ensures
        code_after(asks, first + rest, m) == (match code_after(asks, first, m) {
            Some(m1) => code_after(then, rest, m1),
            None => None,
        }),
    decreases rest.len(),
{
    if rest.len() == 0 {
        assert(first + rest =~= first);
    } else {
        assert((first + rest).drop_last() =~= first + rest.drop_last());
        assert((first + rest).last() == rest.last());
        lemma_code_in_parts(asks, then, first, rest.drop_last(), m);
        assert(asks(first + rest.drop_last()) == then(rest.drop_last()));
    }
}

/// Conversations that ask the same, as far as they go, leave the same behind.
pub proof fn lemma_same_code(a: Asks, b: Asks, replies: Seq<Reply>, m: Memory)
    requires
        forall|k: int| 0 <= k < replies.len() ==> a(#[trigger] replies.take(k)) == b(replies.take(k)),
    ensures
        code_after(a, replies, m) == code_after(b, replies, m),
    decreases replies.len(),
{
    if replies.len() > 0 {
        let short = replies.drop_last();
        assert(short =~= replies.take(replies.len() - 1));
        assert forall|k: int| 0 <= k < short.len() implies a(#[trigger] short.take(k)) == b(short.take(k)) by {
            assert(short.take(k) =~= replies.take(k));
        }
        lemma_same_code(a, b, short, m);
    }
}

/// Whether an operation goes the same way again with the replies that it used.
pub open spec fn replays<A>(f: spec_fn(Seq<Reply>) -> Ran<A>, r: Seq<Reply>, x: Seq<Reply>) -> bool {
    ran_done(f(r)) ==> {
        let rest = ran_rest(f(r));
        &&& ends_with(r, rest)
        &&& f(used(r, rest) + x) == ran_with(f(r), x)
    }
}

/// An operation that came to an end was waiting as long as it had fewer replies than it used.
proof fn lemma_waits_before<A>(f: spec_fn(Seq<Reply>) -> Ran<A>, replies: Seq<Reply>, k: int)
    requires
        forall|r: Seq<Reply>, x: Seq<Reply>| #[trigger] replays(f, r, x),
        ran_done(f(replies)),
        0 <= k < used(replies, ran_rest(f(replies))).len(),
    ensures
        f(used(replies, ran_rest(f(replies))).take(k)) is Waits,
{
    assert(replays(f, replies, Seq::empty()));
    let rest = ran_rest(f(replies));
    let first = used(replies, rest);
    let y = first.take(k);
    if ran_done(f(y)) {
        let ry = ran_rest(f(y));
        assert(replays(f, y, Seq::empty()));
        let uy = used(y, ry);
        let x = replies.skip(uy.len() as int);
        assert(y =~= uy + ry);
        assert(uy =~= replies.take(uy.len() as int));
        assert(uy + x =~= replies);
        assert(replays(f, y, x));
        assert(ran_rest(f(replies)) == x);
        assert(x.len() > rest.len());
    }
}

/// An operation and what comes after it: what memory holds after both.
pub proof fn lemma_code_then<A>(
    asks: Asks,
    f: spec_fn(Seq<Reply>) -> Ran<A>,
    then: Asks,
    replies: Seq<Reply>,
    m: Memory,
)
    requires
        forall|r: Seq<Reply>, x: Seq<Reply>| #[trigger] replays(f, r, x),
        ran_done(f(replies)),
        forall|y: Seq<Reply>| f(y) is Waits ==> #[trigger] asks(y) == open_ran(f(y)),
        forall|x: Seq<Reply>| #[trigger] asks(used(replies, ran_rest(f(replies))) + x) == then(x),
    ensures
        ({
            let rest = ran_rest(f(replies));
            &&& ends_with(replies, rest)
            &&& code_after(asks, replies, m) == (match code_after(
                |y: Seq<Reply>| open_ran(f(y)),
                used(replies, rest),
                m,
            ) {
                Some(m1) => code_after(then, rest, m1),
                None => None,
            })
            &&& f(used(replies, rest)) == ran_with(f(replies), Seq::empty())
        }),
{
    assert(replays(f, replies, Seq::empty()));
    let rest = ran_rest(f(replies));
    let first = used(replies, rest);
    let g = |y: Seq<Reply>| open_ran(f(y));
    assert forall|k: int| 0 <= k < first.len() implies asks(#[trigger] first.take(k)) == g(first.take(k)) by {
        lemma_waits_before(f, replies, k);
    }
    lemma_same_code(asks, g, first, m);
    lemma_code_in_parts(asks, then, first, rest, m);
    assert(first + rest == replies);
    assert(first + Seq::<Reply>::empty() =~= first);
}

/// A conversation that is not about memory leaves it as it is.
pub proof fn lemma_no_memory(asks: Asks, replies: Seq<Reply>, m: Memory)
    requires
        forall|y: Seq<Reply>| (#[trigger] asks(y)) matches Some(q) ==> !about_memory(q),
    ensures
        code_after(asks, replies, m) matches Some(m1) ==> m1 == m,
    decreases replies.len(),
{
    if replies.len() > 0 {
        lemma_no_memory(asks, replies.drop_last(), m);
    }
}

/// Once nothing is asked any more, there are no more replies.
pub proof fn lemma_code_to_end(asks: Asks, replies: Seq<Reply>, m: Memory)
    requires
        forall|x: Seq<Reply>| #[trigger] asks(x) is None,
        code_after(asks, replies, m) is Some,
    ensures
        replies.len() == 0,
        code_after(asks, replies, m) == Some(m),
{
    if replies.len() > 0 {
        assert(asks(replies.drop_last()) is None);
    }
}

/// A conversation that is about memory alone.
pub proof fn lemma_only_memory(asks: Asks, replies: Seq<Reply>, m: Memory)
    requires
        forall|y: Seq<Reply>| (#[trigger] asks(y)) matches Some(q) ==> about_memory(q),
    ensures
        code_after(asks, replies, m) == held_with(asks, replies, m),
    decreases replies.len(),
{
    if replies.len() > 0 {
        lemma_only_memory(asks, replies.drop_last(), m);
    }
}

// ---- putting a byte ----

/// Putting a byte, as an operation on the state.
pub open spec fn byte_put(s: InferiorV, tid: i32, addr: u64, byte: u8, replies: Seq<Reply>) -> Ran<()> {
    after_io(
        byte_set(tid, addr, byte, replies),
        s,
        |u: (), rest: Seq<Reply>| Ran::Gives((), s, rest),
    )
}

/// Putting a byte puts that byte and no other.
pub proof fn lemma_code_byte(
    asks: Asks,
    s: InferiorV,
    tid: i32,
    addr: u64,
    byte: u8,
    replies: Seq<Reply>,
    m: Memory,
)
    requires
        forall|y: Seq<Reply>| #[trigger] asks(y) == open_ran(byte_put(s, tid, addr, byte, y)),
        byte_set(tid, addr, byte, replies) is Gives,
        code_after(asks, replies, m) is Some,
    ensures
        code_after(asks, replies, m) == Some(memory_with(m, addr, seq![byte])),
{
    let put = |r: Seq<Reply>| open_io(byte_set(tid, addr, byte, r));
    assert forall|k: int| 0 <= k < replies.len() implies asks(#[trigger] replies.take(k)) == put(replies.take(k)) by {}
    lemma_same_code(asks, put, replies, m);
    lemma_only_memory(put, replies, m);
    law_put_byte(tid, addr, byte, replies, m);
}

/// Putting a byte goes the same way again.
pub proof fn lemma_byte_replays(f: spec_fn(Seq<Reply>) -> Ran<()>, s: InferiorV, tid: i32, addr: u64, byte: u8)
    requires
        forall|y: Seq<Reply>| #[trigger] f(y) == byte_put(s, tid, addr, byte, y),
    ensures
        forall|r: Seq<Reply>, x: Seq<Reply>| #[trigger] replays(f, r, x),
{
    assert forall|r: Seq<Reply>, x: Seq<Reply>| #[trigger] replays(f, r, x) by {
        lemma_again_byte_set(tid, addr, byte, r, x);
    }
}

// ---- stepping ----

/// Stepping asks nothing of memory.
proof fn lemma_stepped_quiet(s: InferiorV, tid: i32, addr: u64, tries: nat, replies: Seq<Reply>)
    ensures
        stepped(s, tid, addr, tries, replies) matches Ran::Waits(q) ==> !about_memory(q),
    decreases tries,
{
    if tries > 0 {
        lemma_waited_quiet(Request::WaitThread(tid), replies.drop_first());
        if let Ran::Gives(StepTaken::Again, s1, rest) = step_tried(s, tid, replies) {
            lemma_stepped_quiet(s1, tid, addr, (tries - 1) as nat, rest);
        }
    }
}

/// Waiting asks for nothing else.
pub proof fn lemma_waited_quiet(request: Request, replies: Seq<Reply>)
    ensures
        waited(request, replies) matches Io::Waits(q) ==> q == request,
    decreases replies.len(),
{
    if replies.len() > 0 {
        lemma_waited_quiet(request, replies.drop_first());
    }
}

/// Stepping changes no breakpoint, and a thread is only gone once one was told to have ended.
proof fn lemma_stepped_there(s: InferiorV, tid: i32, addr: u64, tries: nat, replies: Seq<Reply>)
    ensures
        stepped(s, tid, addr, tries, replies) matches Ran::Gives(there, s1, _) ==> {
            &&& s1.breakpoints == s.breakpoints
            &&& !there ==> ended_among(replies)
        },
    decreases tries,
{
    if tries > 0 {
        lemma_waited_from(Request::WaitThread(tid), replies.drop_first());
        if let Ran::Gives(StepTaken::Again, s1, rest) = step_tried(s, tid, replies) {
            lemma_stepped_there(s1, tid, addr, (tries - 1) as nat, rest);
            lemma_tried_rest(s, tid, replies);
            if ended_among(rest) {
                let i = choose|i: int| 0 <= i < rest.len() && tells_end(#[trigger] rest[i]);
                assert(replies[i + replies.len() - rest.len()] == rest[i]);
            }
        }
        if replies.len() > 0 && waited(Request::WaitThread(tid), replies.drop_first()) is Gives {
            let status = waited(Request::WaitThread(tid), replies.drop_first())->Gives_0;
            let i = choose|i: int|
                0 <= i < replies.drop_first().len() && #[trigger] replies.drop_first()[i] == Reply::Status(status);
            assert(replies[i + 1] == Reply::Status(status));
        }
    }
}

/// Whether a reply tells that a thread has ended.
pub open spec fn tells_end(r: Reply) -> bool {
    r matches Reply::Status(status) && status is Exited
}

/// Whether one of the replies tells that a thread has ended.
pub open spec fn ended_among(replies: Seq<Reply>) -> bool {
    exists|i: int| 0 <= i < replies.len() && tells_end(#[trigger] replies[i])
}

/// What was waited for is one of the replies.
proof fn lemma_waited_from(request: Request, replies: Seq<Reply>)
    ensures
        waited(request, replies) matches Io::Gives(status, _) ==> exists|i: int|
            0 <= i < replies.len() && #[trigger] replies[i] == Reply::Status(status),
    decreases replies.len(),
{
    if replies.len() > 0 {
        lemma_waited_from(request, replies.drop_first());
        if let Io::Gives(status, _) = waited(request, replies) {
            if replies[0] == Reply::Status(status) {
            } else {
                let i = choose|i: int|
                    0 <= i < replies.drop_first().len() && #[trigger] replies.drop_first()[i] == Reply::Status(status);
                assert(replies[i + 1] == Reply::Status(status));
            }
        }
    }
}

/// What is left of the replies once a step was tried is their end.
proof fn lemma_tried_rest(s: InferiorV, tid: i32, replies: Seq<Reply>)
    ensures
        step_tried(s, tid, replies) matches Ran::Gives(_, _, rest) ==> ends_with(replies, rest) && forall|i: int|
            0 <= i < rest.len() ==> #[trigger] rest[i] == replies[i + replies.len() - rest.len()],
{
    lemma_again_step_tried(s, tid, replies, Seq::empty());
    if let Ran::Gives(_, _, rest) = step_tried(s, tid, replies) {
        let whole = used(replies, rest) + rest;
        assert(whole == replies);
        assert forall|i: int| 0 <= i < rest.len() implies #[trigger] rest[i] == replies[i + replies.len()
            - rest.len()] by {
            assert(whole[i + replies.len() - rest.len()] == rest[i]);
        }
    }
}

/// Stepping, with what comes after it.
spec fn step_then_trap(s: InferiorV, tid: i32, addr: u64, replies: Seq<Reply>) -> Ran<()> {
    after(
        stepped(s, tid, addr, MAX_STEPS as nat, replies),
        |there: bool, s1: InferiorV, rest: Seq<Reply>|
            if there {
                trap_restored(s1, tid, addr, rest)
            } else {
                Ran::Gives((), s1, rest)
            },
    )
}

/// What memory holds once a thread has stepped, with its breakpoint out of the way, and the breakpoint
/// was put in again.
proof fn lemma_step_then_trap(then: Asks, s: InferiorV, tid: i32, addr: u64, replies: Seq<Reply>, m: Memory)
    requires
        forall|y: Seq<Reply>| #[trigger] then(y) == open_ran(step_then_trap(s, tid, addr, y)),
        step_then_trap(s, tid, addr, replies) is Gives,
        code_after(then, replies, m) is Some,
        value_of(s.breakpoints, addr) is Some,
    ensures
        ({
            let m1 = code_after(then, replies, m).unwrap();
            let bp = value_of(s.breakpoints, addr).unwrap();
            ||| !bp.armed && m1 == m
            ||| bp.armed && m1 == memory_with(m, addr, seq![TRAP_BYTE])
            ||| bp.armed && m1 == m && ended_among(replies)
        }),
{
    let bp = value_of(s.breakpoints, addr).unwrap();
    let g = |y: Seq<Reply>| stepped(s, tid, addr, MAX_STEPS as nat, y);
    assert forall|r: Seq<Reply>, x: Seq<Reply>| #[trigger] replays(g, r, x) by {
        lemma_again_stepped(s, tid, addr, MAX_STEPS as nat, r, x);
    }
    let there = g(replies)->Gives_0;
    let s1 = g(replies)->Gives_1;
    let rest = ran_rest(g(replies));
    let first = used(replies, rest);
    let last = |x: Seq<Reply>|
        open_ran(
            if there {
                trap_restored(s1, tid, addr, x)
            } else {
                Ran::Gives((), s1, x)
            },
        );
    assert forall|x: Seq<Reply>| #[trigger] then(first + x) == last(x) by {
        assert(replays(g, replies, x));
    }
    lemma_code_then(then, g, last, replies, m);
    let quiet = |y: Seq<Reply>| open_ran(g(y));
    assert forall|y: Seq<Reply>| (#[trigger] quiet(y)) matches Some(q) ==> !about_memory(q) by {
        lemma_stepped_quiet(s, tid, addr, MAX_STEPS as nat, y);
    }
    lemma_no_memory(quiet, first, m);
    lemma_stepped_there(s, tid, addr, MAX_STEPS as nat, replies);
    if there && bp.armed {
        let put = |r: Seq<Reply>| open_ran(byte_put(s1, tid, addr, TRAP_BYTE, r));
        assert forall|k: int| 0 <= k < rest.len() implies last(#[trigger] rest.take(k)) == put(rest.take(k)) by {}
        lemma_same_code(last, put, rest, m);
        lemma_code_byte(put, s1, tid, addr, TRAP_BYTE, rest, m);
    } else {
        lemma_code_to_end(last, rest, m);
    }
}

/// Whenever a thread was stepped past a breakpoint, memory holds at its address the instruction of the
/// breakpoint if it is armed, and the byte that it takes the place of if it is not; every other byte is
/// as it was. Where a thread was told to have ended meanwhile, the byte stays in its place.
pub proof fn law_step_memory(s: InferiorV, tid: i32, addr: u64, replies: Seq<Reply>, m: Memory)
    requires
        stepped_over(s, tid, addr, replies) is Gives,
        code_after(|r: Seq<Reply>| open_ran(stepped_over(s, tid, addr, r)), replies, m) is Some,
    ensures
        ({
            let m1 = code_after(|r: Seq<Reply>| open_ran(stepped_over(s, tid, addr, r)), replies, m).unwrap();
            match value_of(s.breakpoints, addr) {
                Some(bp) => if holds_key(s.threads, tid) {
                    &&& !bp.armed ==> m1 == memory_with(m, addr, seq![bp.original_byte])
                    &&& bp.armed ==> m1 == memory_with(m, addr, seq![TRAP_BYTE]) || (m1 == memory_with(
                        m,
                        addr,
                        seq![bp.original_byte],
                    ) && ended_among(replies))
                } else {
                    m1 == m
                },
                None => m1 == m,
            }
        }),
{
    let asks = |r: Seq<Reply>| open_ran(stepped_over(s, tid, addr, r));
    if value_of(s.breakpoints, addr) is None || !holds_key(s.threads, tid) {
        lemma_code_to_end(asks, replies, m);
    } else {
        let bp = value_of(s.breakpoints, addr).unwrap();
        let f = |y: Seq<Reply>| byte_put(s, tid, addr, bp.original_byte, y);
        lemma_byte_replays(f, s, tid, addr, bp.original_byte);
        let rest = ran_rest(f(replies));
        let first = used(replies, rest);
        let then = |x: Seq<Reply>| open_ran(step_then_trap(s, tid, addr, x));
        assert forall|x: Seq<Reply>| #[trigger] asks(first + x) == then(x) by {
            assert(replays(f, replies, x));
        }
        lemma_code_then(asks, f, then, replies, m);
        let m1 = memory_with(m, addr, seq![bp.original_byte]);
        let put = |y: Seq<Reply>| open_ran(f(y));
        lemma_code_byte(put, s, tid, addr, bp.original_byte, first, m);
        lemma_step_then_trap(then, s, tid, addr, rest, m1);
        let two = memory_with(m1, addr, seq![TRAP_BYTE]);
        let one = memory_with(m, addr, seq![TRAP_BYTE]);
        assert forall|a: u64| #[trigger] one(a) == two(a) by {
            lemma_distance(addr, a, 8);
        }
        assert(one =~= two);
        if ended_among(rest) {
            let i = choose|i: int| 0 <= i < rest.len() && tells_end(#[trigger] rest[i]);
            assert((first + rest)[i + first.len()] == rest[i]);
            assert(tells_end(replies[i + first.len()]));
        }
    }
}

// ---- breakpoints in memory ----

/// Whether memory holds, at every breakpoint, its instruction if it is armed, and the byte that it takes
/// the place of if it is not.
pub open spec fn coherent(s: InferiorV, m: Memory) -> bool {
    forall|addr: u64|
        (#[trigger] value_of(s.breakpoints, addr)) matches Some(bp) ==> m(addr) == (if bp.armed {
            TRAP_BYTE
        } else {
            bp.original_byte
        })
}

/// Whether breakpoints are as they were, but for whether one is armed.
pub open spec fn same_but_one(s: InferiorV, s1: InferiorV, addr: u64) -> bool {
    forall|a: u64|
        #![trigger value_of(s1.breakpoints, a)]
        match value_of(s.breakpoints, a) {
            Some(bp) => value_of(s1.breakpoints, a) matches Some(b) && b.original_byte == bp.original_byte && (a != addr
                ==> b.armed == bp.armed),
            None => value_of(s1.breakpoints, a) is None,
        }
}

/// Whenever a breakpoint was armed or disarmed, it is as was asked for, memory holds the byte for it,
/// and all other breakpoints and bytes are as they were.
pub proof fn law_switch_memory(s: InferiorV, addr: u64, on: bool, replies: Seq<Reply>, m: Memory)
    requires
        coherent(s, m),
        switched_at(s, addr, on, replies) is Gives,
        code_after(|r: Seq<Reply>| open_ran(switched_at(s, addr, on, r)), replies, m) is Some,
    ensures
        ({
            let s1 = switched_at(s, addr, on, replies)->Gives_1;
            let m1 = code_after(|r: Seq<Reply>| open_ran(switched_at(s, addr, on, r)), replies, m).unwrap();
            &&& value_of(s1.breakpoints, addr) matches Some(bp) && bp.armed == on
            &&& same_but_one(s, s1, addr)
            &&& coherent(s1, m1)
            &&& forall|a: u64| a != addr ==> #[trigger] m1(a) == m(a)
        }),
{
    let asks = |r: Seq<Reply>| open_ran(switched_at(s, addr, on, r));
    let bp = value_of(s.breakpoints, addr).unwrap();
    let s1 = switched_at(s, addr, on, replies)->Gives_1;
    lemma_only_memory(asks, replies, m);
    assert forall|a: u64| true implies ({
        &&& #[trigger] value_of(s.with_armed(addr, on).breakpoints, a) == (if a == addr {
            Some(Breakpoint { armed: on, ..bp })
        } else {
            value_of(s.breakpoints, a)
        })
    }) by {
        lemma_with_value(s.breakpoints, addr, Breakpoint { armed: on, ..bp }, a);
    }
    let m1 = code_after(asks, replies, m).unwrap();
    if on {
        let arms = |r: Seq<Reply>| open_ran(armed_at(s, addr, r));
        lemma_same_asks(asks, arms, replies, m);
        law_arm_memory(s, addr, replies, m);
    } else {
        let disarms = |r: Seq<Reply>| open_ran(disarmed_at(s, addr, r));
        lemma_same_asks(asks, disarms, replies, m);
        law_disarm_memory(s, addr, replies, m);
    }
    assert forall|a: u64| a != addr implies #[trigger] m1(a) == m(a) by {
        lemma_distance(addr, a, 8);
    }
    lemma_distance(addr, addr, 8);
    assert(m1(addr) == (if on {
        TRAP_BYTE
    } else {
        bp.original_byte
    }));
}

/// Whenever a thread was stepped past a breakpoint and none was told to have ended, memory still holds
/// at every breakpoint what it is to hold.
pub proof fn law_step_coherent(s: InferiorV, tid: i32, addr: u64, replies: Seq<Reply>, m: Memory)
    requires
        coherent(s, m),
        stepped_over(s, tid, addr, replies) is Gives,
        code_after(|r: Seq<Reply>| open_ran(stepped_over(s, tid, addr, r)), replies, m) is Some,
        !ended_among(replies),
    ensures
        code_after(|r: Seq<Reply>| open_ran(stepped_over(s, tid, addr, r)), replies, m) == Some(m),
        stepped_over(s, tid, addr, replies)->Gives_1.breakpoints == s.breakpoints,
        coherent(stepped_over(s, tid, addr, replies)->Gives_1, m),
{
    law_step_memory(s, tid, addr, replies, m);
    let m1 = code_after(|r: Seq<Reply>| open_ran(stepped_over(s, tid, addr, r)), replies, m).unwrap();
    if let Some(bp) = value_of(s.breakpoints, addr) {
        assert forall|a: u64| #[trigger] m1(a) == m(a) by {
            lemma_distance(addr, a, 8);
        }
        assert(m1 =~= m);
        let rest = io_rest(byte_set(tid, addr, bp.original_byte, replies));
        lemma_stepped_there(s, tid, addr, MAX_STEPS as nat, rest);
    }
}

/// Whenever breakpoints were armed or disarmed one after the other, those that are there are as was asked
/// for, an error came up for each of the others, and memory holds at every breakpoint what it is to
/// hold.
pub proof fn law_switches_memory(
    s: InferiorV,
    addrs: Seq<u64>,
    on: bool,
    errors: Seq<TraceError>,
    replies: Seq<Reply>,
    m: Memory,
)
    requires
        coherent(s, m),
        switched(s, addrs, on, errors, replies) is Gives,
        code_after(|r: Seq<Reply>| open_ran(switched(s, addrs, on, errors, r)), replies, m) is Some,
    ensures
        ({
            let told = switched(s, addrs, on, errors, replies)->Gives_0;
            let s1 = switched(s, addrs, on, errors, replies)->Gives_1;
            let m1 = code_after(
                |r: Seq<Reply>| open_ran(switched(s, addrs, on, errors, r)),
                replies,
                m,
            ).unwrap();
            &&& coherent(s1, m1)
            &&& forall|i: int|
                0 <= i < addrs.len() ==> (value_of(s1.breakpoints, #[trigger] addrs[i]) matches Some(bp) ==> bp.armed
                    == on)
            &&& forall|a: u64|
                #![trigger value_of(s1.breakpoints, a)]
                match value_of(s.breakpoints, a) {
                    Some(bp) => value_of(s1.breakpoints, a) matches Some(b) && b.original_byte == bp.original_byte && (
                    b.armed == bp.armed || b.armed == on && addrs.contains(a)),
                    None => value_of(s1.breakpoints, a) is None,
                }
            &&& (forall|i: int| 0 <= i < addrs.len() ==> holds_key(s.breakpoints, #[trigger] addrs[i])) ==> told
                == errors
            &&& told.len() >= errors.len()
        }),
    decreases addrs.len(),
{
    let asks = |r: Seq<Reply>| open_ran(switched(s, addrs, on, errors, r));
    if addrs.len() == 0 {
        lemma_code_to_end(asks, replies, m);
    } else {
        let addr = addrs[0];
        let tail = addrs.drop_first();
        let f = |y: Seq<Reply>| switched_at(s, addr, on, y);
        assert forall|r: Seq<Reply>, x: Seq<Reply>| #[trigger] replays(f, r, x) by {
            law_again_armed_at(s, addr, r, x);
            law_again_disarmed_at(s, addr, r, x);
        }
        let rest = ran_rest(f(replies));
        let first = used(replies, rest);
        let s1 = match f(replies) {
            Ran::Gives(_, s1, _) => s1,
            Ran::Fails(_, s1, _) => s1,
            Ran::Waits(_) => s,
        };
        let errors1 = match f(replies) {
            Ran::Fails(e, _, _) => errors.push(e),
            _ => errors,
        };
        let then = |x: Seq<Reply>| open_ran(switched(s1, tail, on, errors1, x));
        assert forall|x: Seq<Reply>| #[trigger] asks(first + x) == then(x) by {
            assert(replays(f, replies, x));
        }
        lemma_code_then(asks, f, then, replies, m);
        let part = |y: Seq<Reply>| open_ran(f(y));
        let one = |r: Seq<Reply>| open_ran(switched_at(s, addr, on, r));
        assert forall|k: int| 0 <= k < first.len() implies part(#[trigger] first.take(k)) == one(first.take(k)) by {}
        lemma_same_code(part, one, first, m);
        let m1 = code_after(one, first, m).unwrap();
        if f(replies) is Gives {
            assert(f(first) is Gives);
            law_switch_memory(s, addr, on, first, m);
            assert(f(first)->Gives_1 == s1);
        } else {
            lemma_failed_switch(s, addr, on, first, m);
            assert(f(first) is Fails);
        }
        let last = switched(s, addrs, on, errors, replies);
        law_switches_memory(s1, tail, on, errors1, rest, m1);
        assert forall|i: int| 0 <= i < addrs.len() implies (value_of(
            last->Gives_1.breakpoints,
            #[trigger] addrs[i],
        ) matches Some(bp) ==> bp.armed == on) by {
            if i > 0 {
                assert(tail[i - 1] == addrs[i]);
            }
        }
        assert forall|a: u64| tail.contains(a) implies addrs.contains(a) by {
            let i = choose|i: int| 0 <= i < tail.len() && tail[i] == a;
            assert(addrs[i + 1] == a);
        }
        assert(addrs.contains(addr));
        if forall|i: int| 0 <= i < addrs.len() ==> holds_key(s.breakpoints, #[trigger] addrs[i]) {
            assert(holds_key(s.breakpoints, addrs[0]));
            assert forall|i: int| 0 <= i < tail.len() implies holds_key(s1.breakpoints, #[trigger] tail[i]) by {
                assert(tail[i] == addrs[i + 1]);
                assert(value_of(s1.breakpoints, tail[i]) is Some);
            }
        }
    }
}

/// Where a breakpoint cannot be armed or disarmed though memory replies as it is to, there is none, and
/// nothing has changed.
proof fn lemma_failed_switch(s: InferiorV, addr: u64, on: bool, replies: Seq<Reply>, m: Memory)
    requires
        switched_at(s, addr, on, replies) is Fails,
        code_after(|r: Seq<Reply>| open_ran(switched_at(s, addr, on, r)), replies, m) is Some,
    ensures
        !holds_key(s.breakpoints, addr),
        switched_at(s, addr, on, replies)->Fails_1 == s,
        code_after(|r: Seq<Reply>| open_ran(switched_at(s, addr, on, r)), replies, m) == Some(m),
{
    let asks = |r: Seq<Reply>| open_ran(switched_at(s, addr, on, r));
    if value_of(s.breakpoints, addr) is None {
        lemma_code_to_end(asks, replies, m);
    } else {
        let none = Seq::<Reply>::empty();
        let one = replies.take(1);
        lemma_code_prefix(asks, replies, m, 1);
        assert(one.drop_last() =~= none);
        assert(code_after(asks, none, m) == Some(m));
        if replies.len() > 1 {
            let two = replies.take(2);
            lemma_code_prefix(asks, replies, m, 2);
            assert(two.drop_last() =~= one);
            assert(one.drop_first() =~= none);
        }
    }
}

/// What can be held to its end can be held in part.
proof fn lemma_code_prefix(asks: Asks, replies: Seq<Reply>, m: Memory, k: int)
    requires
        0 <= k <= replies.len(),
        code_after(asks, replies, m) is Some,
    ensures
        code_after(asks, replies.take(k), m) is Some,
    decreases replies.len() - k,
{
    if k == replies.len() {
        assert(replies.take(k) =~= replies);
    } else {
        lemma_code_prefix(asks, replies, m, k + 1);
        assert(replies.take(k + 1).drop_last() =~= replies.take(k));
    }
}

/// The addresses of the hooks on functions of some name are those at which such hooks were placed.
pub proof fn law_addresses_for(placed: Seq<PlacedV>, symbol: Text, a: u64)
    ensures
        addresses_for(placed, symbol).contains(a) <==> exists|i: int|
            0 <= i < placed.len() && (#[trigger] placed[i]).symbol == symbol && placed[i].runtime == a,
        addresses_for(placed, symbol).len() <= placed.len(),
    decreases placed.len(),
{
    let list = addresses_for(placed, symbol);
    if placed.len() > 0 {
        let short = placed.drop_last();
        let before = addresses_for(short, symbol);
        law_addresses_for(short, symbol, a);
        if list.contains(a) {
            let k = choose|k: int| 0 <= k < list.len() && list[k] == a;
            if k < before.len() {
                assert(before[k] == a);
                let i = choose|i: int|
                    0 <= i < short.len() && (#[trigger] short[i]).symbol == symbol && short[i].runtime == a;
                assert(placed[i].symbol == symbol);
            } else {
                assert(placed[placed.len() - 1].symbol == symbol);
            }
        }
        if exists|i: int| 0 <= i < placed.len() && (#[trigger] placed[i]).symbol == symbol && placed[i].runtime == a {
            let i = choose|i: int|
                0 <= i < placed.len() && (#[trigger] placed[i]).symbol == symbol && placed[i].runtime == a;
            if i < short.len() {
                assert(short[i].symbol == symbol);
                let k = choose|k: int| 0 <= k < before.len() && before[k] == a;
                assert(list[k] == a);
            } else {
                assert(list.last() == a);
            }
        }
    }
}

/// Whenever the hooks on functions of some name were enabled or disabled, the breakpoint of each of them
/// is armed, or is not, memory holds at each its instruction, or the byte that it takes the place of,
/// and the breakpoints of all other hooks are as they were. Nothing is told only where there is no such
/// hook.
pub proof fn law_hooks_switched(
    s: InferiorV,
    placed: Seq<PlacedV>,
    symbol: Text,
    on: bool,
    replies: Seq<Reply>,
    m: Memory,
    i: int,
)
    requires
        coherent(s, m),
        hooks_switched(s, placed, symbol, on, replies) is Gives,
        code_after(|r: Seq<Reply>| open_ran(hooks_switched(s, placed, symbol, on, r)), replies, m) is Some,
        0 <= i < placed.len(),
        holds_key(s.breakpoints, placed[i].runtime),
    ensures
        ({
            let s1 = hooks_switched(s, placed, symbol, on, replies)->Gives_1;
            let m1 = code_after(
                |r: Seq<Reply>| open_ran(hooks_switched(s, placed, symbol, on, r)),
                replies,
                m,
            ).unwrap();
            let before = value_of(s.breakpoints, placed[i].runtime).unwrap();
            &&& coherent(s1, m1)
            &&& value_of(s1.breakpoints, placed[i].runtime) matches Some(bp)
            &&& placed[i].symbol == symbol ==> {
                &&& bp.armed == on
                &&& m1(placed[i].runtime) == (if on {
                    TRAP_BYTE
                } else {
                    before.original_byte
                })
                &&& hooks_switched(s, placed, symbol, on, replies)->Gives_0 is Some
            }
            &&& (forall|j: int|
                0 <= j < placed.len() && (#[trigger] placed[j]).symbol == symbol ==> placed[j].runtime
                    != placed[i].runtime) ==> bp == before
        }),
{
    let asks = |r: Seq<Reply>| open_ran(hooks_switched(s, placed, symbol, on, r));
    let addrs = addresses_for(placed, symbol);
    let a = placed[i].runtime;
    law_addresses_for(placed, symbol, a);
    if addrs.len() == 0 {
        lemma_code_to_end(asks, replies, m);
        assert(!addrs.contains(a));
    } else {
        let flips = |r: Seq<Reply>| open_ran(switched(s, addrs, on, Seq::empty(), r));
        assert forall|k: int| 0 <= k < replies.len() implies asks(#[trigger] replies.take(k)) == flips(
            replies.take(k),
        ) by {}
        lemma_same_code(asks, flips, replies, m);
        law_switches_memory(s, addrs, on, Seq::empty(), replies, m);
        let s1 = hooks_switched(s, placed, symbol, on, replies)->Gives_1;
        assert(value_of(s1.breakpoints, a) is Some);
        if placed[i].symbol == symbol {
            assert(addrs.contains(a));
            let k = choose|k: int| 0 <= k < addrs.len() && addrs[k] == a;
            assert(addrs[k] == a);
        }
    }
}

// ---- new breakpoints ----

/// Whenever a breakpoint was set, it stands at the address in the binary moved by where that was loaded,
/// it is armed if that was asked for, or was armed before, and memory holds at every breakpoint what it
/// is to hold. A new one knows the byte that memory held.
pub proof fn law_set_breakpoint_coherent(s: InferiorV, static_addr: u64, armed: bool, replies: Seq<Reply>, m: Memory)
    requires
        coherent(s, m),
        breakpoint_set(s, static_addr, armed, replies) is Gives,
        code_after(|r: Seq<Reply>| open_ran(breakpoint_set(s, static_addr, armed, r)), replies, m) is Some,
    ensures
        ({
            let addr = plus(static_addr, s.load_base as int);
            let s1 = breakpoint_set(s, static_addr, armed, replies)->Gives_1;
            let m1 = code_after(
                |r: Seq<Reply>| open_ran(breakpoint_set(s, static_addr, armed, r)),
                replies,
                m,
            ).unwrap();
            &&& breakpoint_set(s, static_addr, armed, replies)->Gives_0 == addr
            &&& coherent(s1, m1)
            &&& forall|a: u64| a != addr ==> #[trigger] m1(a) == m(a)
            &&& forall|a: u64|
                a != addr ==> #[trigger] value_of(s1.breakpoints, a) == value_of(s.breakpoints, a)
            &&& value_of(s1.breakpoints, addr) matches Some(bp)
            &&& match value_of(s.breakpoints, addr) {
                Some(before) => bp.original_byte == before.original_byte && bp.armed == (armed || before.armed),
                None => bp.original_byte == m(addr) && bp.armed == armed,
            }
        }),
{
    let asks = |r: Seq<Reply>| open_ran(breakpoint_set(s, static_addr, armed, r));
    let addr = plus(static_addr, s.load_base as int);
    if holds_key(s.breakpoints, addr) {
        lemma_arm_if(asks, s, addr, armed, replies, m);
    } else {
        let f = |y: Seq<Reply>| word_got(s, addr, y);
        assert forall|r: Seq<Reply>, x: Seq<Reply>| #[trigger] replays(f, r, x) by {
            lemma_again_word_read(s.tracee(), addr, r, x);
        }
        let rest = ran_rest(f(replies));
        let first = used(replies, rest);
        let word = f(replies)->Gives_0;
        let bp = Breakpoint { original_byte: (word % 0x100) as u8, armed: false };
        let s0 = s.with_breakpoint(addr, bp);
        let then = |x: Seq<Reply>| open_ran(armed_if(armed, s0, addr, x));
        assert forall|x: Seq<Reply>| #[trigger] asks(first + x) == then(x) by {
            assert(replays(f, replies, x));
        }
        lemma_code_then(asks, f, then, replies, m);
        // What was read is what memory holds.
        let part = |y: Seq<Reply>| open_ran(f(y));
        assert(first.len() == 1);
        let none = Seq::<Reply>::empty();
        assert(first.drop_last() =~= none);
        assert(code_after(part, none, m) == Some(m));
        assert(part(none) == Some(Request::ReadWord(s.tracee(), addr)));
        assert(first[0] == Reply::Word(word));
        let under = memory_at(m, addr, 8);
        law_bytes_of_word(under);
        assert(word == le_word(under));
        assert(le_bytes(word)[0] == under[0]);
        lemma_distance(addr, addr, 0);
        law_lowest_byte_first(word, 0);
        assert(bp.original_byte == m(addr));
        assert forall|a: u64| true implies #[trigger] value_of(s0.breakpoints, a) == (if a == addr {
            Some(bp)
        } else {
            value_of(s.breakpoints, a)
        }) by {
            lemma_with_value(s.breakpoints, addr, bp, a);
        }
        assert(coherent(s0, m));
        lemma_arm_if(then, s0, addr, armed, rest, m);
    }
}

/// Reading a word, as an operation on the state.
spec fn word_got(s: InferiorV, addr: u64, replies: Seq<Reply>) -> Ran<u64> {
    after_io(
        word_read(s.tracee(), addr, replies),
        s,
        |w: u64, rest: Seq<Reply>| Ran::Gives(w, s, rest),
    )
}

/// Arming a breakpoint if that is asked for.
proof fn lemma_arm_if(asks: Asks, s: InferiorV, addr: u64, armed: bool, replies: Seq<Reply>, m: Memory)
    requires
        forall|y: Seq<Reply>| #[trigger] asks(y) == open_ran(armed_if(armed, s, addr, y)),
        coherent(s, m),
        holds_key(s.breakpoints, addr),
        armed_if(armed, s, addr, replies) is Gives,
        code_after(asks, replies, m) is Some,
    ensures
        ({
            let s1 = armed_if(armed, s, addr, replies)->Gives_1;
            let m1 = code_after(asks, replies, m).unwrap();
            let before = value_of(s.breakpoints, addr).unwrap();
            &&& coherent(s1, m1)
            &&& forall|a: u64| a != addr ==> #[trigger] m1(a) == m(a)
            &&& forall|a: u64|
                a != addr ==> #[trigger] value_of(s1.breakpoints, a) == value_of(s.breakpoints, a)
            &&& value_of(s1.breakpoints, addr) == Some(
                Breakpoint { armed: armed || before.armed, original_byte: before.original_byte },
            )
        }),
{
    if armed {
        let arms = |r: Seq<Reply>| open_ran(switched_at(s, addr, true, r));
        assert forall|k: int| 0 <= k < replies.len() implies asks(#[trigger] replies.take(k)) == arms(
            replies.take(k),
        ) by {}
        lemma_same_code(asks, arms, replies, m);
        law_switch_memory(s, addr, true, replies, m);
        let s1 = armed_if(armed, s, addr, replies)->Gives_1;
        let before = value_of(s.breakpoints, addr).unwrap();
        assert forall|a: u64| a != addr implies #[trigger] value_of(s1.breakpoints, a) == value_of(
            s.breakpoints,
            a,
        ) by {
            lemma_with_value(s.breakpoints, addr, Breakpoint { armed: true, ..before }, a);
        }
        lemma_with_value(s.breakpoints, addr, Breakpoint { armed: true, ..before }, addr);
    } else {
        lemma_code_to_end(asks, replies, m);
    }
}

// ---- running ----

/// Learning what became of a thread asks nothing of memory.
pub proof fn lemma_status_quiet(s: InferiorV, status: WaitStatus, replies: Seq<Reply>)
    ensures
        status_handled(s, status, replies) matches Ran::Waits(q) ==> !about_memory(q),
{
}

/// Letting threads go on asks nothing of memory.
pub proof fn lemma_resumed_quiet(s: InferiorV, tids: Seq<i32>, replies: Seq<Reply>)
    ensures
        resumed(s, tids, replies) matches Ran::Waits(q) ==> !about_memory(q),
    decreases tids.len(),
{
    if tids.len() > 0 {
        if let Ran::Gives(_, s1, rest) = one_resumed(s, tids[0], replies) {
            lemma_resumed_quiet(s1, tids.drop_first(), rest);
        }
    }
}

/// Asking for threads to be stopped asks nothing of memory.
proof fn lemma_interrupted_quiet(s: InferiorV, tids: Seq<i32>, replies: Seq<Reply>)
    ensures
        interrupted(s, tids, replies) matches Ran::Waits(q) ==> !about_memory(q),
    decreases tids.len(),
{
    if tids.len() > 0 && replies.len() > 0 {
        let s1 = if replies[0] == Reply::Done {
            s.with_changed(tids[0], |t: Thread| Thread { sigstop_sent: true, ..t })
        } else {
            s
        };
        lemma_interrupted_quiet(s1, tids.drop_first(), replies.drop_first());
    }
}

/// Waiting for threads to be stopped asks nothing of memory.
proof fn lemma_awaited_quiet(s: InferiorV, tids: Seq<i32>, replies: Seq<Reply>)
    ensures
        awaited(s, tids, replies) matches Ran::Waits(q) ==> !about_memory(q),
    decreases replies.len(), tids.len(),
{
    if tids.len() > 0 {
        if !runs(s, tids[0]) {
            lemma_awaited_quiet(s, tids.drop_first(), replies);
        } else {
            let request = Request::WaitThread(tids[0]);
            lemma_waited_shorter(request, replies);
            lemma_waited_quiet(request, replies);
            if let Io::Gives(status, rest) = waited(request, replies) {
                lemma_status_shorter(s, status, rest);
                lemma_status_quiet(s, status, rest);
                if let Ran::Gives(_, s1, rest2) = status_handled(s, status, rest) {
                    lemma_awaited_quiet(s1, tids, rest2);
                }
            }
        }
    }
}

/// Stopping all threads asks nothing of memory.
pub proof fn lemma_stop_quiet(s: InferiorV, replies: Seq<Reply>)
    ensures
        world_stopped(s, replies) matches Ran::Waits(q) ==> !about_memory(q),
{
    let tids = tids_where(s.threads, true);
    lemma_interrupted_quiet(s, tids, replies);
    if let Ran::Gives(_, s1, rest) = interrupted(s, tids, replies) {
        lemma_awaited_quiet(s1, tids, rest);
    }
}

/// A round of running writes nothing to memory, and changes no breakpoint: memory holds at every
/// breakpoint what it is to hold, before and after.
pub proof fn law_run_coherent(s: InferiorV, replies: Seq<Reply>, m: Memory)
    requires
        orderly(s),
        coherent(s, m),
        round_run(s, replies) is Gives,
        code_after(|r: Seq<Reply>| open_ran(round_run(s, r)), replies, m) is Some,
    ensures
        code_after(|r: Seq<Reply>| open_ran(round_run(s, r)), replies, m) == Some(m),
        coherent(round_run(s, replies)->Gives_1, m),
{
    let asks = |r: Seq<Reply>| open_ran(round_run(s, r));
    assert forall|y: Seq<Reply>| (#[trigger] asks(y)) matches Some(q) ==> !about_memory(q) by {
        if s.pending_hits.len() == 0 && s.threads.len() > 0 {
            lemma_resumed_quiet(s, tids_where(s.threads, false), y);
            if let Ran::Gives(_, s1, rest) = all_resumed(s, y) {
                if rest.len() > 0 {
                    if let Ok(status) = as_status(rest[0]) {
                        lemma_status_quiet(s1, status, rest.drop_first());
                        if let Ran::Gives(_, s2, rest2) = status_handled(s1, status, rest.drop_first()) {
                            lemma_stop_quiet(s2, rest2);
                        }
                    }
                }
            }
        }
    }
    lemma_no_memory(asks, replies, m);
    law_run_orderly(s, replies);
}

// ---- breakpoints that are not there ----

/// Switching hooks goes on after a failure: each address is tried, in order, and what failed is told in
/// that order. A breakpoint that is not there fails with nothing asked.
pub proof fn law_switching_goes_on(
    s: InferiorV,
    a: Seq<u64>,
    b: Seq<u64>,
    on: bool,
    errors: Seq<TraceError>,
    replies: Seq<Reply>,
)
    ensures
        switched(s, a, on, errors, replies) matches Ran::Gives(told, s1, rest) ==> switched(
            s,
            a + b,
            on,
            errors,
            replies,
        ) == switched(s1, b, on, told, rest),
        (forall|i: int| 0 <= i < a.len() ==> !holds_key(s.breakpoints, #[trigger] a[i])) ==> switched(
            s,
            a,
            on,
            errors,
            replies,
        ) == Ran::Gives(errors + a.map_values(|addr: u64| TraceError::NoBreakpoint(addr)), s, replies),
    decreases a.len(),
{
    let told = a.map_values(|addr: u64| TraceError::NoBreakpoint(addr));
    if a.len() == 0 {
        assert(a + b =~= b);
        assert(errors + told =~= errors);
    } else {
        let rest = a.drop_first();
        assert((a + b).drop_first() =~= rest + b);
        assert((a + b)[0] == a[0]);
        match switched_at(s, a[0], on, replies) {
            Ran::Waits(_) => {},
            Ran::Fails(e, s1, more) => {
                law_switching_goes_on(s1, rest, b, on, errors.push(e), more);
            },
            Ran::Gives(_, s1, more) => {
                law_switching_goes_on(s1, rest, b, on, errors, more);
            },
        }
        if forall|i: int| 0 <= i < a.len() ==> !holds_key(s.breakpoints, #[trigger] a[i]) {
            assert(!holds_key(s.breakpoints, a[0]));
            assert forall|i: int| 0 <= i < rest.len() implies !holds_key(s.breakpoints, #[trigger] rest[i]) by {
                assert(!holds_key(s.breakpoints, a[i + 1]));
            }
            let e = TraceError::NoBreakpoint(a[0]);
            assert(switched_at(s, a[0], on, replies) == Ran::<()>::Fails(e, s, replies));
            assert(errors.push(e) + rest.map_values(|addr: u64| TraceError::NoBreakpoint(addr)) =~= errors + told);
        }
    }
}

} // verus!
