//! Calls that a mod makes of the target's functions, and the results of them that are kept.

use vstd::prelude::*;

use crate::caches::CallCache;
use crate::caches::CallKey;
use crate::calls::call_made;
use crate::inferior::ended;
use crate::inferior::mem_written;
use crate::inferior::plus;
use crate::inferior::reg_read;
use crate::inferior::Inferior;
use crate::inferior::InferiorV;
use crate::inferior::Ran;
use crate::inferior::SCRATCH_OFFSET;
use crate::meta::Metadata;
use crate::meta::MetadataV;
use crate::orderly::law_call_made;
use crate::orderly::orderly;
use crate::orderly::stays_orderly;
use crate::peek::retreat;
use crate::replay::ends_with;
use crate::replay::law_again_call_made;
use crate::replay::law_again_mem_written;
use crate::replay::law_again_reg_read;
use crate::replay::lemma_used_twice;
use crate::replay::ran_done;
use crate::replay::ran_rest;
use crate::replay::ran_with;
use crate::replay::used;
use crate::statics::entry_address;
use crate::statics::entry_of;
use crate::table::value_of;
use crate::table::with_value;
use crate::text::Text;
use crate::trace::Halt;
use crate::trace::Io;
use crate::trace::Reply;
use crate::trace::TraceError;
use crate::trace::Transcript;
use crate::values::low_bytes;
use crate::words::le_bytes;
use crate::words::signed;
use crate::words::to_signed;
use crate::words::to_unsigned;
use crate::words::unsigned;

verus! {

/// Why a call of a mod gave nothing.
#[derive(Debug, Clone, Copy, PartialEq, Eq, Structural)]
pub enum InvokeError {
    /// No function of that name has code.
    Unknown,
    /// The target is gone.
    TargetGone,
    /// A value of that width does not fit in a word.
    BadWidth(i64),
    /// The stack pointer cannot be had.
    NoStack(TraceError),
    /// The value could not be put into memory.
    NotStaged,
    /// The call failed.
    Failed(TraceError),
}

/// The numbers of a list; zero for what is not a number.
pub open spec fn numbers_of(args: Seq<Option<i64>>) -> Seq<i64> {
    args.map_values(
        |a: Option<i64>|
            match a {
                Some(n) => n,
                None => 0i64,
            },
    )
}

/// Numbers as they are passed to a function.
pub open spec fn as_words(numbers: Seq<i64>) -> Seq<u64> {
    numbers.map_values(|n: i64| unsigned(n))
}

/// What comes of a mod calling the function at an address: what it gave in two registers.
pub open spec fn called(s: InferiorV, addr: u64, numbers: Seq<i64>, replies: Seq<Reply>) -> Ran<
    Result<(i64, i64), InvokeError>,
> {
    if s.threads.len() == 0 {
        Ran::Gives(Err(InvokeError::TargetGone), s, replies)
    } else {
        match call_made(s, addr, as_words(numbers), replies) {
            Ran::Waits(q) => Ran::Waits(q),
            Ran::Fails(e, s1, rest) => Ran::Gives(Err(InvokeError::Failed(e)), s1, rest),
            Ran::Gives(v, s1, rest) => Ran::Gives(Ok((signed(v.0), signed(v.1))), s1, rest),
        }
    }
}

/// What comes of a mod calling a function by its name.
pub open spec fn invoked(s: InferiorV, meta: MetadataV, name: Text, numbers: Seq<i64>, replies: Seq<Reply>) -> Ran<
    Result<(i64, i64), InvokeError>,
> {
    match entry_of(meta, s.load_base, name) {
        None => Ran::Gives(Err(InvokeError::Unknown), s, replies),
        Some(addr) => called(s, addr, numbers, replies),
    }
}

/// The first of what a call gave.
pub open spec fn first_given(r: Result<(i64, i64), InvokeError>) -> Result<i64, InvokeError> {
    match r {
        Ok(v) => Ok(v.0),
        Err(e) => Err(e),
    }
}

/// What comes of a call, with only the first of what it gave.
pub open spec fn first_of(r: Ran<Result<(i64, i64), InvokeError>>) -> Ran<Result<i64, InvokeError>> {
    match r {
        Ran::Waits(q) => Ran::Waits(q),
        Ran::Fails(e, s, rest) => Ran::Fails(e, s, rest),
        Ran::Gives(v, s, rest) => Ran::Gives(first_given(v), s, rest),
    }
}

/// The results that are kept once a call has given something, or has not.
pub open spec fn kept(
    calls: Seq<(CallKey, i64)>,
    key: CallKey,
    r: Ran<Result<i64, InvokeError>>,
) -> Seq<(CallKey, i64)> {
    match r {
        Ran::Gives(Ok(v), _, _) => with_value(calls, key, v),
        _ => calls,
    }
}

/// The numbers of a list; zero for what is not a number.
pub fn list_numbers(args: &Vec<Option<i64>>) -> (r: Vec<i64>)
    ensures
        r@ == numbers_of(args@),
{
    let ghost all = numbers_of(args@);
    let mut r: Vec<i64> = Vec::new();
    let mut i: usize = 0;
    while i < args.len()
        invariant
            i <= args.len(),
            all == numbers_of(args@),
            r@ == all.take(i as int),
        decreases args.len() - i,
    {
        let n: i64 = match args[i] {
            Some(n) => n,
            None => 0,
        };
        r.push(n);
        assert(all.take(i + 1) =~= all.take(i as int).push(all[i as int]));
        i += 1;
    }
    assert(all.take(i as int) =~= all);
    r
}

/// Numbers as they are passed to a function.
fn list_words(numbers: &Vec<i64>) -> (r: Vec<u64>)
    ensures
        r@ == as_words(numbers@),
{
    let ghost all = as_words(numbers@);
    let mut r: Vec<u64> = Vec::new();
    let mut i: usize = 0;
    while i < numbers.len()
        invariant
            i <= numbers.len(),
            all == as_words(numbers@),
            r@ == all.take(i as int),
        decreases numbers.len() - i,
    {
        r.push(to_unsigned(numbers[i]));
        assert(all.take(i + 1) =~= all.take(i as int).push(all[i as int]));
        i += 1;
    }
    assert(all.take(i as int) =~= all);
    r
}

/// Calls the function at an address.
pub fn invoke_addr(inferior: &mut Inferior, io: &mut Transcript, addr: u64, numbers: &Vec<i64>) -> (r: Result<
    Result<(i64, i64), InvokeError>,
    Halt,
>)
    ensures
        ended(r, final(inferior)@, *final(io), called(old(inferior)@, addr, numbers@, old(io).rest())),
{
    if !inferior.is_alive() {
        return Ok(Err(InvokeError::TargetGone));
    }
    let words: Vec<u64> = list_words(numbers);
    match inferior.call_function(io, addr, &words) {
        Ok(v) => Ok(Ok((to_signed(v.0), to_signed(v.1)))),
        Err(Halt::Waiting) => Err(Halt::Waiting),
        Err(Halt::Failed(e)) => Ok(Err(InvokeError::Failed(e))),
    }
}

/// Calls a function by its name.
pub fn invoke(inferior: &mut Inferior, io: &mut Transcript, meta: &Metadata, name: &str, numbers: &Vec<i64>) -> (r:
    Result<Result<(i64, i64), InvokeError>, Halt>)
    ensures
        ended(r, final(inferior)@, *final(io), invoked(old(inferior)@, meta@, name@, numbers@, old(io).rest())),
{
    match entry_address(meta, inferior, name) {
        None => Ok(Err(InvokeError::Unknown)),
        Some(addr) => invoke_addr(inferior, io, addr, numbers),
    }
}

// ---- kept results ----

/// What comes of a mod calling a function whose results are kept: the result that is kept, or else what
/// the call gives.
pub open spec fn invoked_once(
    s: InferiorV,
    meta: MetadataV,
    calls: Seq<(CallKey, i64)>,
    name: Text,
    numbers: Seq<i64>,
    replies: Seq<Reply>,
) -> Ran<Result<i64, InvokeError>> {
    match value_of(calls, (name, numbers)) {
        Some(v) => Ran::Gives(Ok(v), s, replies),
        None => first_of(invoked(s, meta, name, numbers, replies)),
    }
}

/// Calls a function by its name, unless the result of that call is kept. Keeps the result.
pub fn invoke_cached(
    inferior: &mut Inferior,
    io: &mut Transcript,
    meta: &Metadata,
    cache: &mut CallCache,
    name: &str,
    numbers: &Vec<i64>,
) -> (r: Result<Result<i64, InvokeError>, Halt>)
    ensures
        ({
            let wanted = invoked_once(old(inferior)@, meta@, old(cache)@, name@, numbers@, old(io).rest());
            &&& ended(r, final(inferior)@, *final(io), wanted)
            &&& final(cache)@ == (if value_of(old(cache)@, (name@, numbers@)) is Some {
                old(cache)@
            } else {
                kept(old(cache)@, (name@, numbers@), wanted)
            })
        }),
{
    if let Some(v) = cache.recall(name, numbers) {
        return Ok(Ok(v));
    }
    match invoke(inferior, io, meta, name, numbers)? {
        Ok(v) => {
            cache.remember(name, numbers, v.0);
            Ok(Ok(v.0))
        },
        Err(e) => Ok(Err(e)),
    }
}

/// What comes of putting the low bytes of a value into the mod's own space and calling the function at
/// an address with where they lie.
pub open spec fn called_by_ref(s: InferiorV, addr: u64, value: i64, width: nat, replies: Seq<Reply>) -> Ran<
    Result<i64, InvokeError>,
> {
    match reg_read(s, "rsp"@, replies) {
        Io::Waits(q) => Ran::Waits(q),
        Io::Fails(e, rest) => Ran::Gives(Err(InvokeError::NoStack(e)), s, rest),
        Io::Gives(rsp, rest) => {
            let ptr = plus(rsp, -(SCRATCH_OFFSET as int));
            match mem_written(s.tracee(), ptr, le_bytes(unsigned(value)).take(width as int), rest) {
                Io::Waits(q) => Ran::Waits(q),
                Io::Fails(_, rest) => Ran::Gives(Err(InvokeError::NotStaged), s, rest),
                Io::Gives(_, rest) => first_of(called(s, addr, seq![signed(ptr)], rest)),
            }
        },
    }
}

/// What comes of a mod calling a function with where a value lies, when its results are kept.
pub open spec fn invoked_by_ref(
    s: InferiorV,
    meta: MetadataV,
    calls: Seq<(CallKey, i64)>,
    name: Text,
    value: i64,
    width: i64,
    replies: Seq<Reply>,
) -> Ran<Result<i64, InvokeError>> {
    if width < 1 || width > 8 {
        Ran::Gives(Err(InvokeError::BadWidth(width)), s, replies)
    } else {
        match value_of(calls, (name, seq![value, width])) {
            Some(v) => Ran::Gives(Ok(v), s, replies),
            None => match entry_of(meta, s.load_base, name) {
                None => Ran::Gives(Err(InvokeError::Unknown), s, replies),
                Some(addr) => called_by_ref(s, addr, value, width as nat, replies),
            },
        }
    }
}

/// Puts the low bytes of a value into the mod's own space, and calls the function at an address with
/// where they lie.
fn call_by_ref(inferior: &mut Inferior, io: &mut Transcript, addr: u64, value: i64, width: usize) -> (r: Result<
    Result<i64, InvokeError>,
    Halt,
>)
    requires
        width <= 8,
    ensures
        ended(
            r,
            final(inferior)@,
            *final(io),
            called_by_ref(old(inferior)@, addr, value, width as nat, old(io).rest()),
        ),
{
    let rsp: u64 = match inferior.get_reg(io, "rsp") {
        Ok(rsp) => rsp,
        Err(Halt::Waiting) => {
            return Err(Halt::Waiting);
        },
        Err(Halt::Failed(e)) => {
            return Ok(Err(InvokeError::NoStack(e)));
        },
    };
    let ptr: u64 = retreat(rsp, SCRATCH_OFFSET);
    let bytes: Vec<u8> = low_bytes(to_unsigned(value), width);
    match inferior.write_mem(io, ptr, bytes.as_slice()) {
        Ok(()) => {},
        Err(Halt::Waiting) => {
            return Err(Halt::Waiting);
        },
        Err(Halt::Failed(_)) => {
            return Ok(Err(InvokeError::NotStaged));
        },
    }
    let mut numbers: Vec<i64> = Vec::new();
    numbers.push(to_signed(ptr));
    assert(numbers@ =~= seq![signed(ptr)]);
    match invoke_addr(inferior, io, addr, &numbers)? {
        Ok(v) => Ok(Ok(v.0)),
        Err(e) => Ok(Err(e)),
    }
}

/// Calls a function by its name with where a value of some bytes lies, unless the result of that call
/// is kept. Keeps the result.
pub fn invoke_ref_cached(
    inferior: &mut Inferior,
    io: &mut Transcript,
    meta: &Metadata,
    cache: &mut CallCache,
    name: &str,
    value: i64,
    width: i64,
) -> (r: Result<Result<i64, InvokeError>, Halt>)
    ensures
        ({
            let key = (name@, seq![value, width]);
            let wanted = invoked_by_ref(old(inferior)@, meta@, old(cache)@, name@, value, width, old(io).rest());
            &&& ended(r, final(inferior)@, *final(io), wanted)
            &&& final(cache)@ == (if value_of(old(cache)@, key) is Some {
                old(cache)@
            } else {
                kept(old(cache)@, key, wanted)
            })
        }),
{
    if width < 1 || width > 8 {
        return Ok(Err(InvokeError::BadWidth(width)));
    }
    let mut key: Vec<i64> = Vec::new();
    key.push(value);
    key.push(width);
    assert(key@ =~= seq![value, width]);
    if let Some(v) = cache.recall(name, &key) {
        return Ok(Ok(v));
    }
    let addr: u64 = match entry_address(meta, inferior, name) {
        Some(addr) => addr,
        None => {
            return Ok(Err(InvokeError::Unknown));
        },
    };
    match call_by_ref(inferior, io, addr, value, width as usize)? {
        Ok(v) => {
            cache.remember(name, &key, v);
            Ok(Ok(v))
        },
        Err(e) => Ok(Err(e)),
    }
}

// ---- laws ----

/// A call of a mod leaves the state in order. Once it has given something, the breakpoints are as they
/// were.
pub proof fn law_invoke_orderly(s: InferiorV, addr: u64, numbers: Seq<i64>, replies: Seq<Reply>)
    requires
        orderly(s),
    ensures
        stays_orderly(called(s, addr, numbers, replies)),
        called(s, addr, numbers, replies) matches Ran::Gives(Ok(_), s1, _) ==> s1.breakpoints == s.breakpoints,
{
    law_call_made(s, addr, as_words(numbers), replies);
}

/// Once a function whose results are kept has given something, it gives the same again without being
/// called: nothing is asked of the kernel, and the process stays as it is.
pub proof fn law_invoked_once(
    s: InferiorV,
    meta: MetadataV,
    calls: Seq<(CallKey, i64)>,
    name: Text,
    numbers: Seq<i64>,
    replies: Seq<Reply>,
    later: InferiorV,
    more: Seq<Reply>,
)
    requires
        invoked_once(s, meta, calls, name, numbers, replies) matches Ran::Gives(Ok(_), _, _),
    ensures
        ({
            let once = invoked_once(s, meta, calls, name, numbers, replies);
            let calls1 = if value_of(calls, (name, numbers)) is Some {
                calls
            } else {
                kept(calls, (name, numbers), once)
            };
            invoked_once(later, meta, calls1, name, numbers, more) == Ran::Gives(
                once->Gives_0,
                later,
                more,
            )
        }),
{
    let once = invoked_once(s, meta, calls, name, numbers, replies);
    if let Ran::Gives(Ok(v), _, _) = once {
        crate::caches::law_call_cache(calls, (name, numbers), v, (name, numbers));
    }
}

/// A call of a mod goes the same way again.
pub proof fn law_again_called(s: InferiorV, addr: u64, numbers: Seq<i64>, replies: Seq<Reply>, x: Seq<Reply>)
    ensures
        ran_done(called(s, addr, numbers, replies)) ==> {
            let rest = ran_rest(called(s, addr, numbers, replies));
            &&& ends_with(replies, rest)
            &&& called(s, addr, numbers, used(replies, rest) + x) == ran_with(called(s, addr, numbers, replies), x)
        },
{
    assert(replies =~= used(replies, replies) + replies);
    assert(used(replies, replies) + x =~= x);
    law_again_call_made(s, addr, as_words(numbers), replies, x);
}

/// A call of a mod with where a value lies goes the same way again.
pub proof fn law_again_called_by_ref(
    s: InferiorV,
    addr: u64,
    value: i64,
    width: nat,
    replies: Seq<Reply>,
    x: Seq<Reply>,
)
    ensures
        ran_done(called_by_ref(s, addr, value, width, replies)) ==> {
            let rest = ran_rest(called_by_ref(s, addr, value, width, replies));
            &&& ends_with(replies, rest)
            &&& called_by_ref(s, addr, value, width, used(replies, rest) + x) == ran_with(
                called_by_ref(s, addr, value, width, replies),
                x,
            )
        },
{
    let tid = s.tracee();
    let bytes = le_bytes(unsigned(value)).take(width as int);
    law_again_reg_read(s, "rsp"@, replies, x);
    if let Io::Gives(rsp, r1) = reg_read(s, "rsp"@, replies) {
        let ptr = plus(rsp, -(SCRATCH_OFFSET as int));
        law_again_mem_written(tid, ptr, bytes, r1, x);
        match mem_written(tid, ptr, bytes, r1) {
            Io::Waits(_) => {},
            Io::Fails(_, r2) => {
                law_again_reg_read(s, "rsp"@, replies, used(r1, r2) + x);
                lemma_used_twice(replies, r1, r2, x);
            },
            Io::Gives(_, r2) => {
                let end = called(s, addr, seq![signed(ptr)], r2);
                law_again_called(s, addr, seq![signed(ptr)], r2, x);
                if ran_done(end) {
                    let e = ran_rest(end);
                    let x2 = used(r2, e) + x;
                    law_again_mem_written(tid, ptr, bytes, r1, x2);
                    law_again_reg_read(s, "rsp"@, replies, used(r1, r2) + x2);
                    lemma_used_twice(r1, r2, e, x);
                    lemma_used_twice(replies, r1, e, x);
                }
            },
        }
    }
}

} // verus!
