//! Laws of what a mod sees of the target and puts into it: registers, memory, arguments, and what
//! functions of the target give.

use vstd::prelude::*;

use crate::arguments::arg_fetched;
use crate::arguments::arg_place;
use crate::arguments::arg_seen;
use crate::arguments::law_arg_where_located;
use crate::arguments::params_now;
use crate::arguments::ArgV;
use crate::caches::CallKey;
use crate::call_laws::law_call_entry;
use crate::call_laws::law_call_gives;
use crate::call_laws::return_seen;
use crate::calls::call_made;
use crate::entry_laws::law_register_numbers;
use crate::entry_laws::numbered;
use crate::inferior::mem_read;
use crate::inferior::mem_written;
use crate::inferior::plus;
use crate::inferior::reg_read;
use crate::inferior::regs_listed;
use crate::inferior::InferiorV;
use crate::inferior::Ran;
use crate::invoke::as_words;
use crate::invoke::called;
use crate::invoke::called_by_ref;
use crate::invoke::first_of;
use crate::invoke::invoked;
use crate::invoke::invoked_by_ref;
use crate::invoke::invoked_once;
use crate::invoke::kept;
use crate::invoke::numbers_of;
use crate::invoke::InvokeError;
use crate::location::entry_text;
use crate::location::first_named;
use crate::location::law_entry_text_source;
use crate::location::places;
use crate::location::ArgSourceV;
use crate::location::DwarfOp;
use crate::memory_laws::held_with;
use crate::memory_laws::law_read;
use crate::memory_laws::law_write;
use crate::memory_laws::lemma_same_asks;
use crate::memory_laws::memory_at;
use crate::memory_laws::memory_with;
use crate::memory_laws::open_io;
use crate::memory_laws::open_ran;
use crate::memory_laws::Memory;
use crate::meta::field_found;
use crate::meta::FunctionV;
use crate::meta::MetadataV;
use crate::meta::ScalarKind;
use crate::orderly::orderly;
use crate::peek::f32_poked;
use crate::peek::f32_seen;
use crate::peek::f64_poked;
use crate::peek::f64_seen;
use crate::peek::field_poked;
use crate::peek::field_seen;
use crate::peek::i32_poked;
use crate::peek::i32_seen;
use crate::peek::i64_poked;
use crate::peek::i64_seen;
use crate::peek::i8_seen;
use crate::peek::offset_told;
use crate::peek::readable_at;
use crate::peek::reg_poked;
use crate::peek::reg_seen;
use crate::peek::scratch_seen;
use crate::peek::size_told;
use crate::peek::u16_poked;
use crate::peek::u16_seen;
use crate::peek::word_poked;
use crate::peek::word_seen;
use crate::regs::argument_register;
use crate::regs::law_register_read;
use crate::regs::Regs;
use crate::session::entered_at;
use crate::session::PlacedV;
use crate::statics::entry_of;
use crate::table::holds_key;
use crate::table::lemma_position;
use crate::table::value_of;
use crate::text::Text;
use crate::trace::Io;
use crate::trace::Reply;
use crate::trace::Request;
use crate::values::law_low_bytes;
use crate::values::padded;
use crate::values::range_of;
use crate::values::scalar_of;
use crate::values::word_of;
use crate::values::Scalar;
use crate::words::law_bytes_of_word;
use crate::words::law_signs;
use crate::words::law_word_of_bytes;
use crate::words::le_bytes;
use crate::words::signed;
use crate::words::unsigned;

verus! {

// ---- registers ----

/// The process is looked at through the thread whose hook is handled, if it is still there; else through
/// the first thread, or any that is left.
pub proof fn law_looked_at(s: InferiorV)
    ensures
        s.current matches Some(c) ==> holds_key(s.threads, c) ==> s.tracee() == c,
        (s.current matches Some(c) ==> !holds_key(s.threads, c)) && holds_key(s.threads, s.pid) ==> s.tracee() == s.pid,
        s.threads.len() > 0 ==> exists|i: int| 0 <= i < s.threads.len() && (#[trigger] s.threads[i]).0 == s.tracee(),
{
    if s.threads.len() > 0 {
        if let Some(c) = s.current {
            lemma_position(s.threads, c);
        }
        lemma_position(s.threads, s.pid);
        assert(s.threads[0].0 == s.threads[0].0);
    }
}

/// A register is seen as what it holds, taken as a signed number; as 0 where it has no such name, or the
/// registers cannot be read. Nothing but the registers is asked for.
pub proof fn law_register_seen(s: InferiorV, name: Text, replies: Seq<Reply>)
    ensures
        open_io(reg_seen(s, name, Seq::empty())) == Some(Request::GetRegs(s.tracee())),
        replies.len() > 0 ==> (reg_seen(s, name, replies) matches Io::Gives(n, rest) && {
            &&& rest == replies.drop_first()
            &&& unsigned(n) == (match replies[0] {
                Reply::Regs(regs) => match regs.value_of(name) {
                    Some(v) => v,
                    None => 0,
                },
                _ => 0,
            })
        }),
{
    if replies.len() > 0 {
        if let Reply::Regs(regs) = replies[0] {
            if let Some(v) = regs.value_of(name) {
                law_signs(v, 0);
            }
        }
    }
}

/// Setting a register asks for the registers, and sets them with the one changed; nothing is set where a
/// mod cannot set the register.
pub proof fn law_register_poked(s: InferiorV, name: Text, value: i64, regs: Regs)
    ensures
        open_io(reg_poked(s, name, value, Seq::empty())) == Some(Request::GetRegs(s.tracee())),
        regs.with_value(name, unsigned(value)) matches Some(changed) ==> open_io(
            reg_poked(s, name, value, seq![Reply::Regs(regs)]),
        ) == Some(Request::SetRegs(s.tracee(), changed)),
        regs.with_value(name, unsigned(value)) is None ==> open_io(
            reg_poked(s, name, value, seq![Reply::Regs(regs)]),
        ) is None,
{
    assert(seq![Reply::Regs(regs)].drop_first() =~= Seq::<Reply>::empty());
}

/// The registers are shown as they are.
pub proof fn law_registers_listed(s: InferiorV, regs: Regs)
    ensures
        open_io(regs_listed(s, Seq::empty())) == Some(Request::GetRegs(s.tracee())),
        regs_listed(s, seq![Reply::Regs(regs)]) == Io::Gives(regs.listed(), Seq::<Reply>::empty()),
{
    assert(seq![Reply::Regs(regs)].drop_first() =~= Seq::<Reply>::empty());
}

// ---- memory ----

/// A number that is read from memory is that of the bytes at its address, lowest first.
pub proof fn law_word_seen(s: InferiorV, addr: i64, len: nat, replies: Seq<Reply>, m: Memory)
    requires
        len <= 8,
        held_with(|r: Seq<Reply>| open_io(word_seen(s, addr, len, r)), replies, m) is Some,
        mem_read(s.tracee(), unsigned(addr), len, replies) is Gives,
    ensures
        word_seen(s, addr, len, replies) matches Io::Gives(w, _) && w == word_of(
            memory_at(m, unsigned(addr), len),
        ),
        held_with(|r: Seq<Reply>| open_io(word_seen(s, addr, len, r)), replies, m) == Some(m),
{
    let asks = |r: Seq<Reply>| open_io(word_seen(s, addr, len, r));
    let reads = |r: Seq<Reply>| open_io(mem_read(s.tracee(), unsigned(addr), len, r));
    lemma_same_asks(asks, reads, replies, m);
    law_read(s.tracee(), unsigned(addr), len, replies, m);
}

/// A number that is put into memory is there from its address on, lowest byte first, and takes as many
/// bytes as were asked for; every other byte is as it was.
pub proof fn law_word_poked(s: InferiorV, addr: i64, word: u64, len: nat, replies: Seq<Reply>, m: Memory)
    requires
        len <= 8,
        held_with(|r: Seq<Reply>| open_io(word_poked(s, addr, word, len, r)), replies, m) is Some,
        mem_written(s.tracee(), unsigned(addr), le_bytes(word).take(len as int), replies) is Gives,
    ensures
        held_with(|r: Seq<Reply>| open_io(word_poked(s, addr, word, len, r)), replies, m) == Some(
            memory_with(m, unsigned(addr), le_bytes(word).take(len as int)),
        ),
        word_of(le_bytes(word).take(len as int)) == word as int % range_of(len),
{
    let bytes = le_bytes(word).take(len as int);
    let asks = |r: Seq<Reply>| open_io(word_poked(s, addr, word, len, r));
    let writes = |r: Seq<Reply>| open_io(mem_written(s.tracee(), unsigned(addr), bytes, r));
    lemma_same_asks(asks, writes, replies, m);
    law_word_of_bytes(word);
    law_write(s.tracee(), unsigned(addr), bytes, replies, m);
    law_low_bytes(word, len);
}

/// A field is read from as many bytes as it has, at its offset from the start of the value.
pub proof fn law_field_seen(
    s: InferiorV,
    meta: MetadataV,
    base: i64,
    type_called: Text,
    field: Text,
    replies: Seq<Reply>,
    m: Memory,
)
    requires
        field_found(meta, type_called, field) matches Some((offset, size, _)) && size <= 8 && mem_read(
            s.tracee(),
            plus(unsigned(base), offset as int),
            size as nat,
            replies,
        ) is Gives,
        held_with(|r: Seq<Reply>| open_io(field_seen(s, meta, base, type_called, field, r)), replies, m) is Some,
    ensures
        field_found(meta, type_called, field) matches Some((offset, size, kind)) && field_seen(
            s,
            meta,
            base,
            type_called,
            field,
            replies,
        ) matches Io::Gives(Some(seen), _) && exists|at: u64|
            at == (unsigned(base) + offset) % 0x1_0000_0000_0000_0000 && seen == scalar_of(
                #[trigger] memory_at(m, at, size as nat),
                kind,
            ),
{
    let (offset, size, kind) = field_found(meta, type_called, field).unwrap();
    let addr = plus(unsigned(base), offset as int);
    let asks = |r: Seq<Reply>| open_io(field_seen(s, meta, base, type_called, field, r));
    let reads = |r: Seq<Reply>| open_io(mem_read(s.tracee(), addr, size as nat, r));
    lemma_same_asks(asks, reads, replies, m);
    law_read(s.tracee(), addr, size as nat, replies, m);
    assert(addr == (unsigned(base) + offset) % 0x1_0000_0000_0000_0000);
    let seen = memory_at(m, addr, size as nat);
}

/// A field is set in as many bytes as it has, at its offset from the start of the value; a field that is
/// not known is neither read nor set, and nothing is asked for it.
pub proof fn law_field_poked(
    s: InferiorV,
    meta: MetadataV,
    base: i64,
    type_called: Text,
    field: Text,
    value: i64,
    replies: Seq<Reply>,
    m: Memory,
)
    requires
        held_with(|r: Seq<Reply>| open_io(field_poked(s, meta, base, type_called, field, value, r)), replies, m) is Some,
        field_found(meta, type_called, field) matches Some((offset, size, _)) ==> size <= 8 && mem_written(
            s.tracee(),
            plus(unsigned(base), offset as int),
            le_bytes(unsigned(value)).take(size as int),
            replies,
        ) is Gives,
    ensures
        field_found(meta, type_called, field) is None ==> replies.len() == 0 && field_seen(
            s,
            meta,
            base,
            type_called,
            field,
            replies,
        ) == Io::<Option<Scalar>>::Gives(None, replies),
        field_found(meta, type_called, field) matches Some((offset, size, _)) ==> held_with(
            |r: Seq<Reply>| open_io(field_poked(s, meta, base, type_called, field, value, r)),
            replies,
            m,
        ) == Some(
            memory_with(
                m,
                ((unsigned(base) + offset) % 0x1_0000_0000_0000_0000) as u64,
                le_bytes(unsigned(value)).take(size as int),
            ),
        ),
{
    let asks = |r: Seq<Reply>| open_io(field_poked(s, meta, base, type_called, field, value, r));
    match field_found(meta, type_called, field) {
        Some((offset, size, _)) => {
            let addr = plus(unsigned(base), offset as int);
            let bytes = le_bytes(unsigned(value)).take(size as int);
            let writes = |r: Seq<Reply>| open_io(mem_written(s.tracee(), addr, bytes, r));
            lemma_same_asks(asks, writes, replies, m);
            law_word_of_bytes(unsigned(value));
            law_write(s.tracee(), addr, bytes, replies, m);
            assert(addr == ((unsigned(base) + offset) % 0x1_0000_0000_0000_0000) as u64);
        },
        None => {
            if replies.len() > 0 {
                assert(asks(replies.drop_last()) is None);
            }
        },
    }
}

/// Memory is readable where reading it succeeds: at an address above 0, at most a page at a time. For
/// anything else nothing is asked.
pub proof fn law_readable(s: InferiorV, addr: i64, len: i64, replies: Seq<Reply>)
    ensures
        addr <= 0 || len <= 0 || len > 4096 ==> readable_at(s, addr, len, replies) == Io::Gives(false, replies),
        addr > 0 && 0 < len <= 4096 ==> {
            let read = mem_read(s.tracee(), addr as u64, len as nat, replies);
            &&& open_io(readable_at(s, addr, len, replies)) == open_io(read)
            &&& readable_at(s, addr, len, replies) matches Io::Gives(yes, _) ==> (yes <==> read is Gives)
        },
{
    law_signs(unsigned(addr), addr);
}

/// A mod has 32 places of its own, of eight bytes each, one above the other; the first lies 512 bytes
/// below the stack pointer, and the last well below it.
pub proof fn law_scratch(s: InferiorV, slot: i64, regs: Regs)
    ensures
        !(0 <= slot < 32) ==> scratch_seen(s, slot, Seq::empty()) == Io::Gives(None::<i64>, Seq::<Reply>::empty()),
        0 <= slot < 32 ==> (scratch_seen(s, slot, seq![Reply::Regs(regs)]) matches Io::Gives(Some(a), _) && {
            &&& (unsigned(a) + 512 - 8 * slot) % 0x1_0000_0000_0000_0000 == regs.rsp
            &&& regs.rsp >= 512 ==> unsigned(a) + 8 <= regs.rsp - 256
        }),
{
    if 0 <= slot < 32 {
        law_register_read(regs, "rsp"@);
        assert(seq![Reply::Regs(regs)].drop_first() =~= Seq::<Reply>::empty());
        let at = plus(regs.rsp, slot * 8 - 512);
        law_signs(at, 0);
        assert((at + 512 - 8 * slot) % 0x1_0000_0000_0000_0000 == regs.rsp);
    }
}

// ---- arguments ----

/// The parameters that a mod can ask for are those of the function whose entry the handled breakpoint is.
pub proof fn law_params_now(s: InferiorV, functions: Seq<FunctionV>, placed: Seq<PlacedV>)
    ensures
        params_now(s, functions, placed) matches Some(params) ==> s.current_bp matches Some(bp) && entered_at(
            placed,
            bp,
        ) matches Some(i) && 0 <= i < functions.len() && functions[i].params == params,
        params_now(s, functions, placed) is None && s.current_bp is Some ==> {
            let entered = entered_at(placed, s.current_bp.unwrap());
            entered is None || !(0 <= entered.unwrap() < functions.len())
        },
{
}

/// An argument that its function takes in a register is what that register holds, and one that lies in
/// memory is given by its address, the offset from what its register holds.
pub proof fn law_argument(
    s: InferiorV,
    functions: Seq<FunctionV>,
    placed: Seq<PlacedV>,
    index: i64,
    ops: Seq<Option<DwarfOp>>,
    regs: Regs,
)
    requires
        params_now(s, functions, placed) matches Some(params) && 0 <= index < params.len()
            && params[index as int].entry_reg == entry_text(ops),
        entry_text(ops) is Some,
    ensures
        arg_place(s, functions, placed, index) == entry_text(ops).unwrap(),
        open_io(arg_seen(s, functions, placed, index, Seq::empty())) == Some(Request::GetRegs(s.tracee())),
        match first_named(ops) {
            Some(DwarfOp::Register(n)) => n < 17 && (arg_seen(
                s,
                functions,
                placed,
                index,
                seq![Reply::Regs(regs)],
            ) matches Io::Gives(ArgV::Value(v), _) && unsigned(v) == numbered(regs)[n as int]),
            Some(DwarfOp::RegisterOffset(n, offset)) => n < 17 && (arg_seen(
                s,
                functions,
                placed,
                index,
                seq![Reply::Regs(regs)],
            ) matches Io::Gives(ArgV::Value(v), _) && unsigned(v) == (numbered(regs)[n as int] + offset)
                % 0x1_0000_0000_0000_0000),
            _ => false,
        },
{
    let one = seq![Reply::Regs(regs)];
    assert(one.drop_first() =~= Seq::<Reply>::empty());
    law_arg_where_located(s, functions, placed, index, ops, Seq::empty());
    law_arg_where_located(s, functions, placed, index, ops, one);
    law_entry_text_source(ops);
    match first_named(ops) {
        Some(DwarfOp::Register(n)) => {
            lemma_named(ops);
            law_register_numbers(regs, n);
            law_signs(numbered(regs)[n as int], 0);
        },
        Some(DwarfOp::RegisterOffset(n, offset)) => {
            lemma_named(ops);
            law_register_numbers(regs, n);
            law_signs(plus(numbered(regs)[n as int], offset as int), 0);
        },
        _ => {},
    }
}

/// The register of the first place that is told has a name.
proof fn lemma_named(ops: Seq<Option<DwarfOp>>)
    requires
        entry_text(ops) is Some,
    ensures
        first_named(ops) matches Some(DwarfOp::Register(n)) ==> n < 17,
        first_named(ops) matches Some(DwarfOp::RegisterOffset(n, _)) ==> n < 17,
{
    lemma_named_places(ops);
}

/// The register of the first place has a name.
proof fn lemma_named_places(ops: Seq<Option<DwarfOp>>)
    requires
        places(ops) is Some,
    ensures
        first_named(ops) matches Some(DwarfOp::Register(n)) ==> n < 17,
        first_named(ops) matches Some(DwarfOp::RegisterOffset(n, _)) ==> n < 17,
    decreases ops.len(),
{
    if ops.len() > 0 && ops[0] is Some {
        lemma_named_places(ops.drop_first());
    }
}

/// An argument beyond those of the function is refused with how many there are, one that lies in no
/// register with its name, and all are where no function is entered; nothing is asked for these.
pub proof fn law_no_argument(
    s: InferiorV,
    functions: Seq<FunctionV>,
    placed: Seq<PlacedV>,
    index: i64,
    replies: Seq<Reply>,
)
    ensures
        params_now(s, functions, placed) is None ==> arg_seen(s, functions, placed, index, replies) == Io::Gives(
            ArgV::Unknown,
            replies,
        ) && arg_place(s, functions, placed, index) == Seq::<char>::empty(),
        params_now(s, functions, placed) matches Some(params) ==> !(0 <= index < params.len()) ==> arg_seen(
            s,
            functions,
            placed,
            index,
            replies,
        ) == Io::Gives(ArgV::OutOfRange(params.len()), replies) && arg_place(s, functions, placed, index) == Seq::<
            char,
        >::empty(),
        params_now(s, functions, placed) matches Some(params) ==> 0 <= index < params.len() ==> params[index as int].entry_reg is None
            ==> arg_seen(s, functions, placed, index, replies) == Io::Gives(
            ArgV::NotInRegister(params[index as int].name),
            replies,
        ) && arg_place(s, functions, placed, index) == Seq::<char>::empty(),
{
}

// ---- calls ----

/// Numbers are handed over by their bits, and what is no number as 0.
pub proof fn law_numbers(args: Seq<Option<i64>>, k: int)
    requires
        0 <= k < args.len(),
    ensures
        numbers_of(args).len() == args.len(),
        args[k] matches Some(n) ==> numbers_of(args)[k] == n,
        args[k] is None ==> numbers_of(args)[k] == 0,
        as_words(numbers_of(args)).len() == args.len(),
        signed(as_words(numbers_of(args))[k]) == numbers_of(args)[k],
{
    law_signs(0, numbers_of(args)[k]);
}

/// Calling a function of the target enters it with the numbers in the registers that functions are passed
/// integers in, in order, and gives what came back in two registers, taken as signed numbers.
pub proof fn law_called(s: InferiorV, addr: u64, numbers: Seq<i64>, replies: Seq<Reply>, k: int)
    requires
        orderly(s),
    ensures
        s.threads.len() == 0 ==> called(s, addr, numbers, replies) == Ran::Gives(
            Err::<(i64, i64), InvokeError>(InvokeError::TargetGone),
            s,
            replies,
        ),
        called(s, addr, numbers, replies) matches Ran::Gives(Ok(v), _, _) ==> {
            &&& s.current_bp is Some
            &&& open_ran(called(s, addr, numbers, replies.take(2))) matches Some(Request::SetRegs(tid, r)) && {
                &&& Some(tid) == s.current
                &&& r.rip == addr
                &&& 0 <= k < numbers.len() ==> r.value_of(argument_register(k)) == Some(unsigned(numbers[k]))
                &&& return_seen(replies, s.current_bp.unwrap(), plus(r.rsp, 8), (unsigned(v.0), unsigned(v.1)))
            }
        },
{
    if s.threads.len() > 0 {
        let args = as_words(numbers);
        law_call_gives(s, addr, args, replies);
        if let Ran::Gives(v, _, _) = call_made(s, addr, args, replies) {
            law_signs(v.0, 0);
            law_signs(v.1, 0);
            law_call_entry(s, addr, args, replies, k);
        }
    }
}

/// A function that is not known is not called, and nothing is asked. One that is known is called at its
/// entry.
pub proof fn law_invoked(s: InferiorV, meta: MetadataV, name: Text, numbers: Seq<i64>, replies: Seq<Reply>)
    ensures
        entry_of(meta, s.load_base, name) is None <==> invoked(s, meta, name, numbers, Seq::empty()) matches Ran::Gives(
            Err(InvokeError::Unknown),
            _,
            _,
        ),
        entry_of(meta, s.load_base, name) is None ==> invoked(s, meta, name, numbers, replies) == Ran::Gives(
            Err::<(i64, i64), InvokeError>(InvokeError::Unknown),
            s,
            replies,
        ),
        entry_of(meta, s.load_base, name) matches Some(addr) ==> invoked(s, meta, name, numbers, replies) == called(
            s,
            addr,
            numbers,
            replies,
        ),
{
}

/// A call that was remembered is not made again: it gives what it gave, and nothing is asked.
pub proof fn law_remembered(
    s: InferiorV,
    meta: MetadataV,
    calls: Seq<(CallKey, i64)>,
    name: Text,
    numbers: Seq<i64>,
    replies: Seq<Reply>,
)
    ensures
        value_of(calls, (name, numbers)) matches Some(v) ==> invoked_once(s, meta, calls, name, numbers, replies)
            == Ran::Gives(Ok::<i64, InvokeError>(v), s, replies),
        value_of(calls, (name, numbers)) is None ==> {
            &&& open_ran(invoked_once(s, meta, calls, name, numbers, replies)) == open_ran(
                invoked(s, meta, name, numbers, replies),
            )
            &&& invoked(s, meta, name, numbers, replies) matches Ran::Gives(Ok(v), s1, rest) ==> invoked_once(
                s,
                meta,
                calls,
                name,
                numbers,
                replies,
            ) == Ran::Gives(Ok::<i64, InvokeError>(v.0), s1, rest)
        },
{
}

/// What comes of calling a function with the address of some bytes, once the bytes are to be written
/// there.
pub open spec fn calls_with_address(
    s: InferiorV,
    addr: u64,
    ptr: u64,
    bytes: Seq<u8>,
    replies: Seq<Reply>,
    r: Ran<Result<i64, InvokeError>>,
) -> bool {
    match mem_written(s.tracee(), ptr, bytes, replies) {
        Io::Waits(q) => r == Ran::<Result<i64, InvokeError>>::Waits(q),
        Io::Gives(_, rest) => r == first_of(called(s, addr, seq![signed(ptr)], rest)),
        Io::Fails(_, rest) => r == Ran::Gives(Err::<i64, InvokeError>(InvokeError::NotStaged), s, rest),
    }
}

/// Once the stack pointer is known, the bytes are to be written.
#[verifier::rlimit(40)]
proof fn lemma_called_by_ref(s: InferiorV, addr: u64, value: i64, width: nat, regs: Regs, replies: Seq<Reply>)
    ensures
        calls_with_address(
            s,
            addr,
            plus(regs.rsp, -512),
            le_bytes(unsigned(value)).take(width as int),
            replies,
            called_by_ref(s, addr, value, width, seq![Reply::Regs(regs)] + replies),
        ),
{
    law_register_read(regs, "rsp"@);
    let all = seq![Reply::Regs(regs)] + replies;
    assert(all.drop_first() =~= replies);
    assert(all[0] == Reply::Regs(regs));
    assert(reg_read(s, "rsp"@, all) == Io::Gives(regs.rsp, replies));
}

/// Calling a function with a number by reference puts the number, in one to eight bytes, lowest first,
/// where a mod has space of its own, 512 bytes below the stack pointer, and calls the function with the
/// address of it.
pub proof fn law_called_by_ref(s: InferiorV, addr: u64, value: i64, width: nat, regs: Regs, replies: Seq<Reply>)
    requires
        1 <= width <= 8,
    ensures
        open_ran(called_by_ref(s, addr, value, width, Seq::empty())) == Some(Request::GetRegs(s.tracee())),
        exists|ptr: u64, bytes: Seq<u8>|
            {
                &&& (ptr + 512) % 0x1_0000_0000_0000_0000 == regs.rsp
                &&& bytes.len() == width
                &&& word_of(bytes) == unsigned(value) as int % range_of(width)
                &&& #[trigger] calls_with_address(
                    s,
                    addr,
                    ptr,
                    bytes,
                    replies,
                    called_by_ref(s, addr, value, width, seq![Reply::Regs(regs)] + replies),
                )
            },
{
    let ptr = plus(regs.rsp, -512);
    let bytes = le_bytes(unsigned(value)).take(width as int);
    law_low_bytes(unsigned(value), width);
    law_word_of_bytes(unsigned(value));
    assert((ptr + 512) % 0x1_0000_0000_0000_0000 == regs.rsp);
    lemma_called_by_ref(s, addr, value, width, regs, replies);
}

/// A number by reference takes one to eight bytes; any other width is refused, and nothing is asked.
pub proof fn law_widths(
    s: InferiorV,
    meta: MetadataV,
    calls: Seq<(CallKey, i64)>,
    name: Text,
    value: i64,
    width: i64,
    replies: Seq<Reply>,
)
    ensures
        !(1 <= width <= 8) ==> invoked_by_ref(s, meta, calls, name, value, width, replies) == Ran::Gives(
            Err::<i64, InvokeError>(InvokeError::BadWidth(width)),
            s,
            replies,
        ),
        1 <= width <= 8 && value_of(calls, (name, seq![value, width])) is None && entry_of(
            meta,
            s.load_base,
            name,
        ) is Some ==> invoked_by_ref(s, meta, calls, name, value, width, replies) == called_by_ref(
            s,
            entry_of(meta, s.load_base, name).unwrap(),
            value,
            width as nat,
            replies,
        ),
        1 <= width <= 8 && value_of(calls, (name, seq![value, width])) is Some ==> invoked_by_ref(
            s,
            meta,
            calls,
            name,
            value,
            width,
            replies,
        ) == Ran::Gives(Ok::<i64, InvokeError>(value_of(calls, (name, seq![value, width])).unwrap()), s, replies),
{
}

// ---- what cannot be had ----

/// What cannot be read is seen as 0: a number, an argument, the parts of a field, and the stack pointer
/// from which a mod's own space is reckoned.
pub proof fn law_seen_as_zero(
    s: InferiorV,
    meta: MetadataV,
    addr: i64,
    len: nat,
    slot: i64,
    type_called: Text,
    field: Text,
    replies: Seq<Reply>,
)
    ensures
        mem_read(s.tracee(), unsigned(addr), len, replies) is Fails ==> (word_seen(s, addr, len, replies) matches Io::Gives(
            w,
            _,
        ) && w == 0),
        field_found(meta, type_called, field) matches Some((offset, size, kind)) ==> mem_read(
            s.tracee(),
            plus(unsigned(addr), offset as int),
            size as nat,
            replies,
        ) is Fails ==> (field_seen(s, meta, addr, type_called, field, replies) matches Io::Gives(Some(seen), _) && {
            ||| seen == Scalar::Int(0)
            ||| seen == Scalar::Bool(false)
            ||| seen == Scalar::Double(0)
        }),
        0 <= slot < 32 && replies.len() > 0 && !(replies[0] is Regs) ==> (scratch_seen(s, slot, replies) matches Io::Gives(
            Some(a),
            _,
        ) && (unsigned(a) + 512 - 8 * slot) % 0x1_0000_0000_0000_0000 == 0),
{
    let zeros = Seq::new(8, |k: int| 0u8);
    law_word_of_bytes(0);
    law_low_bytes(0, 0);
    assert(le_bytes(0).take(0) =~= Seq::<u8>::empty());
    assert(word_of(Seq::empty()) == 0);
    law_signs(0, 0);
    if 0 <= slot < 32 {
        let at = plus(0, slot * 8 - 512);
        law_signs(at, 0);
        assert((at + 512 - 8 * slot) % 0x1_0000_0000_0000_0000 == 0);
    }
}

/// An argument whose register cannot be read is seen as 0.
pub proof fn law_argument_zero(s: InferiorV, source: ArgSourceV, replies: Seq<Reply>)
    requires
        replies.len() > 0,
        !(replies[0] is Regs),
    ensures
        arg_fetched(s, source, replies) == Io::Gives(ArgV::Value(0), replies.drop_first()),
{
}

/// A value of more than eight bytes is read from the first eight of them.
pub proof fn law_long_values(bytes: Seq<u8>, kind: ScalarKind)
    requires
        bytes.len() >= 8,
    ensures
        word_of(bytes) == word_of(bytes.take(8)),
        le_bytes(word_of(bytes)) == bytes.take(8),
        scalar_of(bytes, kind) == scalar_of(bytes.take(8), kind),
{
    let eight = bytes.take(8);
    assert(padded(bytes) =~= eight);
    assert(padded(eight) =~= eight);
    law_bytes_of_word(eight);
}

/// A call that failed is told with why, and is not remembered; without a stack pointer nothing is called.
pub proof fn law_call_failures(
    s: InferiorV,
    addr: u64,
    numbers: Seq<i64>,
    value: i64,
    width: nat,
    calls: Seq<(CallKey, i64)>,
    key: CallKey,
    e: InvokeError,
    replies: Seq<Reply>,
)
    ensures
        s.threads.len() > 0 ==> (call_made(s, addr, as_words(numbers), replies) matches Ran::Fails(why, s1, rest)
            ==> called(s, addr, numbers, replies) == Ran::Gives(
            Err::<(i64, i64), InvokeError>(InvokeError::Failed(why)),
            s1,
            rest,
        )),
        kept(calls, key, Ran::Gives(Err(e), s, replies)) == calls,
        first_of(Ran::Gives(Err(e), s, replies)) == Ran::Gives(Err::<i64, InvokeError>(e), s, replies),
        replies.len() > 0 && !(replies[0] is Regs) ==> (called_by_ref(s, addr, value, width, replies) matches Ran::Gives(
            Err(InvokeError::NoStack(_)),
            s1,
            rest,
        ) && s1 == s && rest == replies.drop_first()),
{
}

// ---- numbers in memory ----

/// Reading a number of some size asks for as many bytes as it has.
pub proof fn law_number_asks(s: InferiorV, addr: i64, len: nat, replies: Seq<Reply>)
    ensures
        len == 1 ==> open_io(i8_seen(s, addr, replies)) == open_io(word_seen(s, addr, 1, replies)),
        len == 4 ==> open_io(i32_seen(s, addr, replies)) == open_io(word_seen(s, addr, 4, replies)),
        len == 8 ==> open_io(i64_seen(s, addr, replies)) == open_io(word_seen(s, addr, 8, replies)),
        len == 2 ==> open_io(u16_seen(s, addr, replies)) == open_io(word_seen(s, addr, 2, replies)),
        len == 8 ==> open_io(f64_seen(s, addr, replies)) == open_io(word_seen(s, addr, 8, replies)),
        len == 4 ==> open_io(f32_seen(s, addr, replies)) == open_io(word_seen(s, addr, 4, replies)),
{
}

/// A number that is read from memory is what a field of its size and kind would hold there.
pub proof fn law_numbers_seen(s: InferiorV, addr: i64, len: nat, replies: Seq<Reply>, m: Memory)
    requires
        len <= 8,
        held_with(|r: Seq<Reply>| open_io(word_seen(s, addr, len, r)), replies, m) is Some,
        mem_read(s.tracee(), unsigned(addr), len, replies) is Gives,
    ensures
        len == 1 ==> (i8_seen(s, addr, replies) matches Io::Gives(n, _) && scalar_of(
            memory_at(m, unsigned(addr), 1),
            ScalarKind::Signed,
        ) == Scalar::Int(n)),
        len == 4 ==> (i32_seen(s, addr, replies) matches Io::Gives(n, _) && scalar_of(
            memory_at(m, unsigned(addr), 4),
            ScalarKind::Signed,
        ) == Scalar::Int(n)),
        len == 8 ==> (i64_seen(s, addr, replies) matches Io::Gives(n, _) && scalar_of(
            memory_at(m, unsigned(addr), 8),
            ScalarKind::Signed,
        ) == Scalar::Int(n)),
        len == 2 ==> (u16_seen(s, addr, replies) matches Io::Gives(n, _) && scalar_of(
            memory_at(m, unsigned(addr), 2),
            ScalarKind::Unsigned,
        ) == Scalar::Int(n)),
        len == 8 ==> (f64_seen(s, addr, replies) matches Io::Gives(n, _) && scalar_of(
            memory_at(m, unsigned(addr), 8),
            ScalarKind::Float,
        ) == Scalar::Double(n)),
        len == 4 ==> (f32_seen(s, addr, replies) matches Io::Gives(n, _) && scalar_of(
            memory_at(m, unsigned(addr), 4),
            ScalarKind::Float,
        ) == Scalar::Single(n)),
{
    law_word_seen(s, addr, len, replies, m);
}

/// A number that is written goes to its address with as many of its bytes as its size says, lowest first.
pub proof fn law_numbers_poked(s: InferiorV, addr: i64, value: i64, double: u64, single: u32, replies: Seq<Reply>)
    ensures
        u16_poked(s, addr, value, replies) == word_poked(s, addr, unsigned(value), 2, replies),
        i32_poked(s, addr, value, replies) == word_poked(s, addr, unsigned(value), 4, replies),
        i64_poked(s, addr, value, replies) == word_poked(s, addr, unsigned(value), 8, replies),
        f64_poked(s, addr, double, replies) == word_poked(s, addr, double, 8, replies),
        f32_poked(s, addr, single, replies) == word_poked(s, addr, single as u64, 4, replies),
        le_bytes(double).take(8) == le_bytes(double),
{
    law_word_of_bytes(double);
    assert(le_bytes(double).take(8) =~= le_bytes(double));
}

/// The offset and the size of a field are told as they are found, and as -1 where there is no such field.
pub proof fn law_field_told(meta: MetadataV, type_called: Text, field: Text)
    ensures
        field_found(meta, type_called, field) matches Some((offset, size, _)) ==> {
            &&& unsigned(offset_told(meta, type_called, field)) == offset
            &&& unsigned(size_told(meta, type_called, field)) == size
        },
        field_found(meta, type_called, field) is None ==> {
            &&& offset_told(meta, type_called, field) == -1
            &&& size_told(meta, type_called, field) == -1
        },
{
    if let Some((offset, size, _)) = field_found(meta, type_called, field) {
        law_signs(offset, 0);
        law_signs(size, 0);
    }
}

/// A function that is not known is not called by reference either, and nothing is asked.
pub proof fn law_unknown_by_ref(
    s: InferiorV,
    meta: MetadataV,
    calls: Seq<(CallKey, i64)>,
    name: Text,
    value: i64,
    width: i64,
    replies: Seq<Reply>,
)
    requires
        1 <= width <= 8,
        value_of(calls, (name, seq![value, width])) is None,
        entry_of(meta, s.load_base, name) is None,
    ensures
        invoked_by_ref(s, meta, calls, name, value, width, replies) == Ran::Gives(
            Err::<i64, InvokeError>(InvokeError::Unknown),
            s,
            replies,
        ),
{
}

} // verus!
