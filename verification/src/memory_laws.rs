//! Laws of the traced process's memory: what operations leave in it when the kernel replies what the
//! memory holds.

use vstd::prelude::*;

use crate::calls::bytes_set;
use crate::calls::traps;
use crate::inferior::armed_at;
use crate::inferior::breakpoint_set;
use crate::inferior::byte_set;
use crate::inferior::disarmed_at;
use crate::inferior::mem_read;
use crate::inferior::mem_written;
use crate::inferior::overlaid;
use crate::inferior::plus;
use crate::inferior::Breakpoint;
use crate::inferior::InferiorV;
use crate::inferior::Ran;
use crate::inferior::TRAP_BYTE;
use crate::table::holds_key;
use crate::table::lemma_with_value;
use crate::table::value_of;
use crate::trace::Io;
use crate::trace::Reply;
use crate::trace::Request;
use crate::words::law_bytes_of_word;
use crate::words::law_low_byte;
use crate::words::le_bytes;
use crate::words::le_word;
use crate::words::with_low_byte;

verus! {

/// The memory of a process: a byte at every address.
pub type Memory = spec_fn(u64) -> u8;

/// How far `a` lies behind `addr`, around the end of the address space.
pub open spec fn distance(addr: u64, a: u64) -> int {
    if a >= addr {
        a - addr
    } else {
        a - addr + 0x1_0000_0000_0000_0000
    }
}

/// The memory with bytes from an address on.
pub open spec fn memory_with(m: Memory, addr: u64, bytes: Seq<u8>) -> Memory {
    |a: u64|
        if distance(addr, a) < bytes.len() {
            bytes[distance(addr, a)]
        } else {
            m(a)
        }
}

/// The bytes of memory from an address on.
pub open spec fn memory_at(m: Memory, addr: u64, len: nat) -> Seq<u8> {
    Seq::new(len, |k: int| m(plus(addr, k)))
}

/// What memory replies to a request, and what it holds after it; nothing to a request that is not
/// about memory.
pub open spec fn served(m: Memory, q: Request) -> Option<(Reply, Memory)> {
    match q {
        Request::ReadWord(_, addr) => Some((Reply::Word(le_word(memory_at(m, addr, 8))), m)),
        Request::WriteWord(_, addr, word) => Some((Reply::Done, memory_with(m, addr, le_bytes(word)))),
        _ => None,
    }
}

/// The request that is open, if any.
pub open spec fn open_io<T>(r: Io<T>) -> Option<Request> {
    match r {
        Io::Waits(q) => Some(q),
        _ => None,
    }
}

/// The request that is open, if any.
pub open spec fn open_ran<T>(r: Ran<T>) -> Option<Request> {
    match r {
        Ran::Waits(q) => Some(q),
        _ => None,
    }
}

/// What memory holds after a conversation: `asks` gives the request that is open after some replies.
/// Nothing, where a reply is not what memory replies to the request that is open.
pub open spec fn held_with(asks: spec_fn(Seq<Reply>) -> Option<Request>, replies: Seq<Reply>, m: Memory) -> Option<
    Memory,
>
    decreases replies.len(),
{
    if replies.len() == 0 {
        Some(m)
    } else {
        match (held_with(asks, replies.drop_last(), m), asks(replies.drop_last())) {
            (Some(m1), Some(q)) => match served(m1, q) {
                Some((reply, m2)) => if reply == replies.last() {
                    Some(m2)
                } else {
                    None
                },
                None => None,
            },
            _ => None,
        }
    }
}

/// A conversation can be held in two parts.
proof fn lemma_held_in_parts(
    asks: spec_fn(Seq<Reply>) -> Option<Request>,
    then: spec_fn(Seq<Reply>) -> Option<Request>,
    first: Seq<Reply>,
    rest: Seq<Reply>,
    m: Memory,
)
    requires
        forall|x: Seq<Reply>| #[trigger] asks(first + x) == then(x),
    ensures
        held_with(asks, first + rest, m) == (match held_with(asks, first, m) {
            Some(m1) => held_with(then, rest, m1),
            None => None,
        }),
    decreases rest.len(),
{
    if rest.len() == 0 {
        assert(first + rest =~= first);
    } else {
        assert((first + rest).drop_last() =~= first + rest.drop_last());
        assert((first + rest).last() == rest.last());
        lemma_held_in_parts(asks, then, first, rest.drop_last(), m);
        assert(asks(first + rest.drop_last()) == then(rest.drop_last()));
    }
}

/// Once nothing is asked any more, there are no more replies.
proof fn lemma_held_to_end(asks: spec_fn(Seq<Reply>) -> Option<Request>, replies: Seq<Reply>, m: Memory)
    requires
        forall|x: Seq<Reply>| #[trigger] asks(x) is None,
        held_with(asks, replies, m) is Some,
    ensures
        replies.len() == 0,
        held_with(asks, replies, m) == Some(m),
{
    if replies.len() > 0 {
        assert(asks(replies.drop_last()) is None);
    }
}

// ---- addresses ----

/// How far an address lies behind one some bytes on.
pub proof fn lemma_distance(addr: u64, a: u64, k: int)
    requires
        0 <= k <= 8,
    ensures
        0 <= distance(addr, a) < 0x1_0000_0000_0000_0000,
        plus(addr, distance(addr, a)) == a,
        distance(plus(addr, k), a) == (if distance(addr, a) >= k {
            distance(addr, a) - k
        } else {
            distance(addr, a) - k + 0x1_0000_0000_0000_0000
        }),
{
    lemma_plus(addr, k);
    lemma_plus(addr, distance(addr, a));
}

/// The address some bytes on.
proof fn lemma_plus(addr: u64, k: int)
    requires
        0 <= k < 0x1_0000_0000_0000_0000,
    ensures
        plus(addr, k) == (if addr + k < 0x1_0000_0000_0000_0000 {
            addr + k
        } else {
            addr + k - 0x1_0000_0000_0000_0000
        }),
        distance(addr, plus(addr, k)) == k,
{
}

/// Bytes can be put in two parts.
proof fn lemma_memory_in_parts(m: Memory, addr: u64, bytes: Seq<u8>)
    requires
        8 < bytes.len() <= 0x1_0000_0000_0000_0000,
    ensures
        memory_with(memory_with(m, addr, bytes.take(8)), plus(addr, 8), bytes.skip(8)) == memory_with(
            m,
            addr,
            bytes,
        ),
{
    let one = memory_with(m, addr, bytes);
    let two = memory_with(memory_with(m, addr, bytes.take(8)), plus(addr, 8), bytes.skip(8));
    assert forall|a: u64| #[trigger] one(a) == two(a) by {
        lemma_distance(addr, a, 8);
    }
    assert(one =~= two);
}

/// A word that is written with some bytes over what was there puts those bytes and no others.
proof fn lemma_overlay(m: Memory, addr: u64, bytes: Seq<u8>)
    requires
        bytes.len() > 0,
    ensures
        memory_with(m, addr, overlaid(memory_at(m, addr, 8), bytes)) == memory_with(
            m,
            addr,
            if bytes.len() <= 8 {
                bytes
            } else {
                bytes.take(8)
            },
        ),
{
    let chunk = if bytes.len() <= 8 {
        bytes
    } else {
        bytes.take(8)
    };
    let word = overlaid(memory_at(m, addr, 8), bytes);
    let one = memory_with(m, addr, word);
    let two = memory_with(m, addr, chunk);
    assert forall|a: u64| #[trigger] one(a) == two(a) by {
        lemma_distance(addr, a, 8);
    }
    assert(one =~= two);
}

// ---- writing and reading ----

/// Whenever writing bytes to memory succeeds, memory holds them, and every other byte is as it was.
pub proof fn law_write(tid: i32, addr: u64, bytes: Seq<u8>, replies: Seq<Reply>, m: Memory)
    requires
        bytes.len() <= 0x1_0000_0000_0000_0000,
        held_with(|r: Seq<Reply>| open_io(mem_written(tid, addr, bytes, r)), replies, m) is Some,
        mem_written(tid, addr, bytes, replies) is Gives,
    ensures
        held_with(|r: Seq<Reply>| open_io(mem_written(tid, addr, bytes, r)), replies, m) == Some(
            memory_with(m, addr, bytes),
        ),
    decreases bytes.len(),
{
    let asks = |r: Seq<Reply>| open_io(mem_written(tid, addr, bytes, r));
    if bytes.len() == 0 {
        lemma_held_to_end(asks, replies, m);
        assert(memory_with(m, addr, bytes) =~= m);
    } else {
        let word = replies[0]->Word_0;
        let patched = le_word(overlaid(le_bytes(word), bytes));
        let first = seq![replies[0], replies[1]];
        let rest = replies.skip(2);
        assert(replies.drop_first().drop_first() =~= rest);
        assert(replies =~= first + rest);
        let then = if bytes.len() <= 8 {
            |r: Seq<Reply>| None::<Request>
        } else {
            |r: Seq<Reply>| open_io(mem_written(tid, plus(addr, 8), bytes.skip(8), r))
        };
        assert forall|x: Seq<Reply>| #[trigger] asks(first + x) == then(x) by {
            assert((first + x).drop_first().drop_first() =~= x);
        }
        lemma_held_in_parts(asks, then, first, rest, m);
        // The first word: what is there is read, and written back with the bytes over it.
        let none = Seq::<Reply>::empty();
        assert(first.drop_last() =~= seq![replies[0]]);
        assert(first.drop_last().drop_last() =~= none);
        assert(asks(none) == Some(Request::ReadWord(tid, addr)));
        assert(first.drop_last().drop_first() =~= none);
        assert(asks(first.drop_last()) == Some(Request::WriteWord(tid, addr, patched)));
        assert(held_with(asks, none, m) == Some(m));
        assert(held_with(asks, first.drop_last(), m) == Some(m));
        let under = memory_at(m, addr, 8);
        law_bytes_of_word(under);
        law_bytes_of_word(overlaid(under, bytes));
        lemma_overlay(m, addr, bytes);
        let chunk = if bytes.len() <= 8 {
            bytes
        } else {
            bytes.take(8)
        };
        let m1 = memory_with(m, addr, chunk);
        assert(held_with(asks, first, m) == Some(m1));
        if bytes.len() <= 8 {
            lemma_held_to_end(then, rest, m1);
        } else {
            law_write(tid, plus(addr, 8), bytes.skip(8), rest, m1);
            lemma_memory_in_parts(m, addr, bytes);
        }
    }
}

/// The first bytes of memory, and those after them.
proof fn lemma_memory_at(m: Memory, addr: u64, len: nat)
    requires
        len <= 0x1_0000_0000_0000_0000,
    ensures
        len <= 8 ==> memory_at(m, addr, len) == memory_at(m, addr, 8).take(len as int),
        len > 8 ==> memory_at(m, addr, len) == memory_at(m, addr, 8) + memory_at(m, plus(addr, 8), (len - 8) as nat),
{
    if len <= 8 {
        assert(memory_at(m, addr, len) =~= memory_at(m, addr, 8).take(len as int));
    } else {
        let tail = memory_at(m, plus(addr, 8), (len - 8) as nat);
        assert forall|k: int| 8 <= k < len implies memory_at(m, addr, len)[k] == tail[k - 8] by {
            lemma_plus(addr, k);
            lemma_plus(addr, 8);
            lemma_plus(plus(addr, 8), k - 8);
        }
        assert(memory_at(m, addr, len) =~= memory_at(m, addr, 8) + tail);
    }
}

/// Whenever reading bytes of memory succeeds, it gives what memory holds, and leaves it as it is.
pub proof fn law_read(tid: i32, addr: u64, len: nat, replies: Seq<Reply>, m: Memory)
    requires
        len <= 0x1_0000_0000_0000_0000,
        held_with(|r: Seq<Reply>| open_io(mem_read(tid, addr, len, r)), replies, m) is Some,
        mem_read(tid, addr, len, replies) is Gives,
    ensures
        mem_read(tid, addr, len, replies)->Gives_0 == memory_at(m, addr, len),
        held_with(|r: Seq<Reply>| open_io(mem_read(tid, addr, len, r)), replies, m) == Some(m),
    decreases len,
{
    let asks = |r: Seq<Reply>| open_io(mem_read(tid, addr, len, r));
    if len == 0 {
        lemma_held_to_end(asks, replies, m);
        assert(memory_at(m, addr, len) =~= Seq::<u8>::empty());
    } else {
        let first = seq![replies[0]];
        let rest = replies.skip(1);
        assert(replies.drop_first() =~= rest);
        assert(replies =~= first + rest);
        let then = if len <= 8 {
            |r: Seq<Reply>| None::<Request>
        } else {
            |r: Seq<Reply>| open_io(mem_read(tid, plus(addr, 8), (len - 8) as nat, r))
        };
        assert forall|x: Seq<Reply>| #[trigger] asks(first + x) == then(x) by {
            assert((first + x).drop_first() =~= x);
        }
        lemma_held_in_parts(asks, then, first, rest, m);
        let none = Seq::<Reply>::empty();
        assert(first.drop_last() =~= none);
        assert(asks(none) == Some(Request::ReadWord(tid, addr)));
        assert(held_with(asks, none, m) == Some(m));
        assert(held_with(asks, first, m) == Some(m));
        law_bytes_of_word(memory_at(m, addr, 8));
        lemma_memory_at(m, addr, len);
        if len <= 8 {
            lemma_held_to_end(then, rest, m);
        } else {
            law_read(tid, plus(addr, 8), (len - 8) as nat, rest, m);
        }
    }
}

/// What memory holds where bytes were put is those bytes.
proof fn lemma_memory_put(m: Memory, addr: u64, bytes: Seq<u8>)
    requires
        bytes.len() <= 0x1_0000_0000_0000_0000,
    ensures
        memory_at(memory_with(m, addr, bytes), addr, bytes.len()) == bytes,
{
    let got = memory_at(memory_with(m, addr, bytes), addr, bytes.len());
    assert forall|k: int| 0 <= k < bytes.len() implies #[trigger] got[k] == bytes[k] by {
        lemma_plus(addr, k);
    }
    assert(got =~= bytes);
}

/// Whenever bytes were written to memory and are read again, they are read as they were written.
pub proof fn law_read_what_was_written(
    tid: i32,
    addr: u64,
    bytes: Seq<u8>,
    writing: Seq<Reply>,
    m: Memory,
    other: i32,
    reading: Seq<Reply>,
)
    requires
        bytes.len() <= 0x1_0000_0000_0000_0000,
        mem_written(tid, addr, bytes, writing) is Gives,
        mem_read(other, addr, bytes.len(), reading) is Gives,
        ({
            let m1 = held_with(|r: Seq<Reply>| open_io(mem_written(tid, addr, bytes, r)), writing, m);
            &&& m1 is Some
            &&& held_with(|r: Seq<Reply>| open_io(mem_read(other, addr, bytes.len(), r)), reading, m1.unwrap()) is Some
        }),
    ensures
        mem_read(other, addr, bytes.len(), reading)->Gives_0 == bytes,
{
    law_write(tid, addr, bytes, writing, m);
    law_read(other, addr, bytes.len(), reading, memory_with(m, addr, bytes));
    lemma_memory_put(m, addr, bytes);
}

// ---- breakpoints ----

/// Conversations that ask the same leave the same behind.
pub proof fn lemma_same_asks(
    a: spec_fn(Seq<Reply>) -> Option<Request>,
    b: spec_fn(Seq<Reply>) -> Option<Request>,
    replies: Seq<Reply>,
    m: Memory,
)
    requires
        forall|x: Seq<Reply>| #[trigger] a(x) == b(x),
    ensures
        held_with(a, replies, m) == held_with(b, replies, m),
    decreases replies.len(),
{
    if replies.len() > 0 {
        lemma_same_asks(a, b, replies.drop_last(), m);
        assert(a(replies.drop_last()) == b(replies.drop_last()));
    }
}

/// Whenever putting a byte succeeds, memory holds it, and every other byte is as it was.
pub proof fn law_put_byte(tid: i32, addr: u64, byte: u8, replies: Seq<Reply>, m: Memory)
    requires
        held_with(|r: Seq<Reply>| open_io(byte_set(tid, addr, byte, r)), replies, m) is Some,
        byte_set(tid, addr, byte, replies) is Gives,
    ensures
        held_with(|r: Seq<Reply>| open_io(byte_set(tid, addr, byte, r)), replies, m) == Some(
            memory_with(m, addr, seq![byte]),
        ),
{
    let asks = |r: Seq<Reply>| open_io(byte_set(tid, addr, byte, r));
    let word = replies[0]->Word_0;
    let patched = with_low_byte(word, byte);
    let first = seq![replies[0], replies[1]];
    let rest = replies.skip(2);
    assert(replies.drop_first().drop_first() =~= rest);
    assert(replies =~= first + rest);
    let then = |r: Seq<Reply>| None::<Request>;
    assert forall|x: Seq<Reply>| #[trigger] asks(first + x) == then(x) by {
        assert((first + x).drop_first().drop_first() =~= x);
    }
    lemma_held_in_parts(asks, then, first, rest, m);
    let none = Seq::<Reply>::empty();
    assert(first.drop_last() =~= seq![replies[0]]);
    assert(first.drop_last().drop_last() =~= none);
    assert(asks(none) == Some(Request::ReadWord(tid, addr)));
    assert(first.drop_last().drop_first() =~= none);
    assert(asks(first.drop_last()) == Some(Request::WriteWord(tid, addr, patched)));
    assert(held_with(asks, none, m) == Some(m));
    assert(held_with(asks, first.drop_last(), m) == Some(m));
    let under = memory_at(m, addr, 8);
    law_bytes_of_word(under);
    law_low_byte(word, byte);
    let one = memory_with(m, addr, under.update(0, byte));
    let two = memory_with(m, addr, seq![byte]);
    assert forall|a: u64| #[trigger] one(a) == two(a) by {
        lemma_distance(addr, a, 8);
    }
    assert(one =~= two);
    assert(held_with(asks, first, m) == Some(two));
    lemma_held_to_end(then, rest, two);
}

/// Whenever arming a breakpoint succeeds, its instruction is in memory, unless it was armed already;
/// every other byte is as it was.
pub proof fn law_arm_memory(s: InferiorV, addr: u64, replies: Seq<Reply>, m: Memory)
    requires
        held_with(|r: Seq<Reply>| open_ran(armed_at(s, addr, r)), replies, m) is Some,
        armed_at(s, addr, replies) is Gives,
    ensures
        held_with(|r: Seq<Reply>| open_ran(armed_at(s, addr, r)), replies, m) == Some(
            if value_of(s.breakpoints, addr).unwrap().armed {
                m
            } else {
                memory_with(m, addr, seq![TRAP_BYTE])
            },
        ),
{
    let asks = |r: Seq<Reply>| open_ran(armed_at(s, addr, r));
    if value_of(s.breakpoints, addr).unwrap().armed {
        lemma_held_to_end(asks, replies, m);
    } else {
        let put = |r: Seq<Reply>| open_io(byte_set(s.tracee(), addr, TRAP_BYTE, r));
        lemma_same_asks(asks, put, replies, m);
        law_put_byte(s.tracee(), addr, TRAP_BYTE, replies, m);
    }
}

/// Whenever disarming a breakpoint succeeds, the byte that it took the place of is back in memory,
/// unless it was not armed; every other byte is as it was.
pub proof fn law_disarm_memory(s: InferiorV, addr: u64, replies: Seq<Reply>, m: Memory)
    requires
        held_with(|r: Seq<Reply>| open_ran(disarmed_at(s, addr, r)), replies, m) is Some,
        disarmed_at(s, addr, replies) is Gives,
    ensures
        held_with(|r: Seq<Reply>| open_ran(disarmed_at(s, addr, r)), replies, m) == Some(
            if value_of(s.breakpoints, addr).unwrap().armed {
                memory_with(m, addr, seq![value_of(s.breakpoints, addr).unwrap().original_byte])
            } else {
                m
            },
        ),
{
    let asks = |r: Seq<Reply>| open_ran(disarmed_at(s, addr, r));
    let bp = value_of(s.breakpoints, addr).unwrap();
    if !bp.armed {
        lemma_held_to_end(asks, replies, m);
    } else {
        let put = |r: Seq<Reply>| open_io(byte_set(s.tracee(), addr, bp.original_byte, r));
        lemma_same_asks(asks, put, replies, m);
        law_put_byte(s.tracee(), addr, bp.original_byte, replies, m);
    }
}

/// Whenever setting and arming a new breakpoint succeeds, it knows the byte that memory held, and its
/// instruction is in the place of that byte; every other byte is as it was.
pub proof fn law_set_breakpoint_memory(s: InferiorV, static_addr: u64, replies: Seq<Reply>, m: Memory)
    requires
        !holds_key(s.breakpoints, plus(static_addr, s.load_base as int)),
        held_with(|r: Seq<Reply>| open_ran(breakpoint_set(s, static_addr, true, r)), replies, m) is Some,
        breakpoint_set(s, static_addr, true, replies) is Gives,
    ensures
        ({
            let addr = plus(static_addr, s.load_base as int);
            let s1 = breakpoint_set(s, static_addr, true, replies)->Gives_1;
            &&& held_with(|r: Seq<Reply>| open_ran(breakpoint_set(s, static_addr, true, r)), replies, m) == Some(
                memory_with(m, addr, seq![TRAP_BYTE]),
            )
            &&& value_of(s1.breakpoints, addr) == Some(Breakpoint { original_byte: m(addr), armed: true })
        }),
{
    let addr = plus(static_addr, s.load_base as int);
    let asks = |r: Seq<Reply>| open_ran(breakpoint_set(s, static_addr, true, r));
    let word = replies[0]->Word_0;
    let bp = Breakpoint { original_byte: (word % 0x100) as u8, armed: false };
    let s0 = s.with_breakpoint(addr, bp);
    lemma_with_value(s.breakpoints, addr, bp, addr);
    lemma_with_value(s0.breakpoints, addr, Breakpoint { armed: true, ..bp }, addr);
    let first = seq![replies[0]];
    let rest = replies.skip(1);
    assert(replies.drop_first() =~= rest);
    assert(replies =~= first + rest);
    let then = |r: Seq<Reply>| open_ran(armed_at(s0, addr, r));
    assert forall|x: Seq<Reply>| #[trigger] asks(first + x) == then(x) by {
        assert((first + x).drop_first() =~= x);
    }
    lemma_held_in_parts(asks, then, first, rest, m);
    let none = Seq::<Reply>::empty();
    assert(first.drop_last() =~= none);
    assert(asks(none) == Some(Request::ReadWord(s.tracee(), addr)));
    assert(held_with(asks, none, m) == Some(m));
    assert(held_with(asks, first, m) == Some(m));
    law_arm_memory(s0, addr, rest, m);
    let under = memory_at(m, addr, 8);
    law_bytes_of_word(under);
    assert(word == le_word(under));
    assert(le_bytes(word)[0] == under[0]);
    lemma_plus(addr, 0);
    assert((word % 0x100) as u8 == le_bytes(word)[0]) by {
        reveal(le_bytes);
    }
    assert(bp.original_byte == m(addr));
}

/// A breakpoint leaves no trace: memory is as it was once it has been set, armed and disarmed again.
pub proof fn law_breakpoint_undone(
    s: InferiorV,
    static_addr: u64,
    setting: Seq<Reply>,
    m: Memory,
    disarming: Seq<Reply>,
)
    requires
        !holds_key(s.breakpoints, plus(static_addr, s.load_base as int)),
        held_with(|r: Seq<Reply>| open_ran(breakpoint_set(s, static_addr, true, r)), setting, m) is Some,
        breakpoint_set(s, static_addr, true, setting) is Gives,
        ({
            let addr = plus(static_addr, s.load_base as int);
            let s1 = breakpoint_set(s, static_addr, true, setting)->Gives_1;
            let m1 = memory_with(m, addr, seq![TRAP_BYTE]);
            &&& held_with(|r: Seq<Reply>| open_ran(disarmed_at(s1, addr, r)), disarming, m1) is Some
            &&& disarmed_at(s1, addr, disarming) is Gives
        }),
    ensures
        ({
            let addr = plus(static_addr, s.load_base as int);
            let s1 = breakpoint_set(s, static_addr, true, setting)->Gives_1;
            let m1 = memory_with(m, addr, seq![TRAP_BYTE]);
            &&& held_with(|r: Seq<Reply>| open_ran(breakpoint_set(s, static_addr, true, r)), setting, m) == Some(m1)
            &&& held_with(|r: Seq<Reply>| open_ran(disarmed_at(s1, addr, r)), disarming, m1) == Some(m)
        }),
{
    let addr = plus(static_addr, s.load_base as int);
    let s1 = breakpoint_set(s, static_addr, true, setting)->Gives_1;
    let m1 = memory_with(m, addr, seq![TRAP_BYTE]);
    law_set_breakpoint_memory(s, static_addr, setting, m);
    law_disarm_memory(s1, addr, disarming, m1);
    let back = memory_with(m1, addr, seq![m(addr)]);
    assert forall|a: u64| #[trigger] back(a) == m(a) by {
        lemma_distance(addr, a, 8);
    }
    assert(back =~= m);
}

// ---- breakpoints out of the way ----

/// The memory with bytes at addresses, put there one after the other.
pub open spec fn memory_after(m: Memory, list: Seq<(u64, u8)>) -> Memory
    decreases list.len(),
{
    if list.len() == 0 {
        m
    } else {
        memory_after(memory_with(m, list[0].0, seq![list[0].1]), list.drop_first())
    }
}

/// Whenever putting bytes at addresses succeeds, memory holds them.
pub proof fn law_put_bytes(tid: i32, list: Seq<(u64, u8)>, replies: Seq<Reply>, m: Memory)
    requires
        held_with(|r: Seq<Reply>| open_io(bytes_set(tid, list, r)), replies, m) is Some,
        bytes_set(tid, list, replies) is Gives,
    ensures
        held_with(|r: Seq<Reply>| open_io(bytes_set(tid, list, r)), replies, m) == Some(memory_after(m, list)),
    decreases list.len(),
{
    let asks = |r: Seq<Reply>| open_io(bytes_set(tid, list, r));
    if list.len() == 0 {
        lemma_held_to_end(asks, replies, m);
    } else {
        let (addr, byte) = list[0];
        let first = seq![replies[0], replies[1]];
        let rest = replies.skip(2);
        let none = Seq::<Reply>::empty();
        assert(replies.drop_first().drop_first() =~= rest);
        assert(replies =~= first + rest);
        let then = |r: Seq<Reply>| open_io(bytes_set(tid, list.drop_first(), r));
        assert forall|x: Seq<Reply>| #[trigger] asks(first + x) == then(x) by {
            assert((first + x).drop_first().drop_first() =~= x);
        }
        lemma_held_in_parts(asks, then, first, rest, m);
        let put = |r: Seq<Reply>| open_io(byte_set(tid, addr, byte, r));
        assert(first.drop_first().drop_first() =~= none);
        assert(byte_set(tid, addr, byte, first) == Io::Gives((), none));
        assert(first.drop_last() =~= seq![replies[0]]);
        assert(first.drop_last().drop_last() =~= none);
        assert(first.drop_last().drop_first() =~= none);
        assert(asks(none) == put(none));
        assert(asks(first.drop_last()) == put(first.drop_last()));
        assert(held_with(asks, none, m) == held_with(put, none, m));
        assert(held_with(asks, first.drop_last(), m) == held_with(put, first.drop_last(), m));
        assert(held_with(asks, first, m) == held_with(put, first, m));
        law_put_byte(tid, addr, byte, first, m);
        law_put_bytes(tid, list.drop_first(), rest, memory_with(m, addr, seq![byte]));
    }
}

/// What memory holds at an address once the instruction of a breakpoint was put at some addresses.
proof fn lemma_traps_after(m: Memory, list: Seq<(u64, u8)>, a: u64)
    ensures
        (forall|i: int| 0 <= i < list.len() ==> (#[trigger] list[i]).0 != a) ==> {
            &&& memory_after(m, list)(a) == m(a)
            &&& memory_after(m, traps(list))(a) == m(a)
        },
        (exists|i: int| 0 <= i < list.len() && (#[trigger] list[i]).0 == a) || m(a) == TRAP_BYTE ==> memory_after(
            m,
            traps(list),
        )(a) == TRAP_BYTE,
    decreases list.len(),
{
    if list.len() > 0 {
        let tail = list.drop_first();
        let m1 = memory_with(m, list[0].0, seq![list[0].1]);
        let m2 = memory_with(m, list[0].0, seq![TRAP_BYTE]);
        assert(traps(list)[0] == (list[0].0, TRAP_BYTE));
        assert(traps(list).drop_first() =~= traps(tail));
        lemma_traps_after(m1, tail, a);
        lemma_traps_after(m2, tail, a);
        lemma_distance(list[0].0, a, 8);
        if forall|i: int| 0 <= i < list.len() ==> (#[trigger] list[i]).0 != a {
            assert forall|i: int| 0 <= i < tail.len() implies (#[trigger] tail[i]).0 != a by {
                assert(tail[i] == list[i + 1]);
            }
        }
        if exists|i: int| 0 <= i < list.len() && (#[trigger] list[i]).0 == a {
            let i = choose|i: int| 0 <= i < list.len() && (#[trigger] list[i]).0 == a;
            if i > 0 {
                assert(tail[i - 1].0 == a);
            }
        }
    }
}

/// Breakpoints that were got out of the way and put back leave no trace: memory is as it was.
pub proof fn law_set_aside_undone(
    tid: i32,
    list: Seq<(u64, u8)>,
    clearing: Seq<Reply>,
    m: Memory,
    other: i32,
    restoring: Seq<Reply>,
)
    requires
        forall|i: int| 0 <= i < list.len() ==> m((#[trigger] list[i]).0) == TRAP_BYTE,
        bytes_set(tid, list, clearing) is Gives,
        held_with(|r: Seq<Reply>| open_io(bytes_set(tid, list, r)), clearing, m) is Some,
        bytes_set(other, traps(list), restoring) is Gives,
        held_with(
            |r: Seq<Reply>| open_io(bytes_set(other, traps(list), r)),
            restoring,
            held_with(|r: Seq<Reply>| open_io(bytes_set(tid, list, r)), clearing, m).unwrap(),
        ) is Some,
    ensures
        held_with(
            |r: Seq<Reply>| open_io(bytes_set(other, traps(list), r)),
            restoring,
            held_with(|r: Seq<Reply>| open_io(bytes_set(tid, list, r)), clearing, m).unwrap(),
        ) == Some(m),
{
    law_put_bytes(tid, list, clearing, m);
    let m1 = memory_after(m, list);
    law_put_bytes(other, traps(list), restoring, m1);
    let m2 = memory_after(m1, traps(list));
    assert forall|a: u64| #[trigger] m2(a) == m(a) by {
        lemma_traps_after(m, list, a);
        lemma_traps_after(m1, list, a);
    }
    assert(m2 =~= m);
}

} // verus!
