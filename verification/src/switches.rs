//! Hooks switched on and off while the target runs.

use vstd::prelude::*;

use crate::inferior::armed_at;
use crate::inferior::disarmed_at;
use crate::inferior::ended;
use crate::inferior::Inferior;
use crate::inferior::InferiorV;
use crate::inferior::Ran;
use crate::orderly::law_arm_orderly;
use crate::orderly::orderly;
use crate::orderly::stays_orderly;
use crate::replay::ends_with;
use crate::replay::law_again_armed_at;
use crate::replay::law_again_disarmed_at;
use crate::replay::lemma_used_twice;
use crate::replay::ran_done;
use crate::replay::ran_rest;
use crate::replay::ran_with;
use crate::replay::used;
use crate::session::addresses_for;
use crate::session::HookTable;
use crate::session::PlacedV;
use crate::text::Text;
use crate::trace::Halt;
use crate::trace::Reply;
use crate::trace::TraceError;
use crate::trace::Transcript;

verus! {

/// What comes of arming or disarming the breakpoint at an address.
pub open spec fn switched_at(s: InferiorV, addr: u64, on: bool, replies: Seq<Reply>) -> Ran<()> {
    if on {
        armed_at(s, addr, replies)
    } else {
        disarmed_at(s, addr, replies)
    }
}

/// What comes of arming or disarming breakpoints one after the other, whether it succeeds or not: the
/// errors that came up, after some that came up before.
pub open spec fn switched(s: InferiorV, addrs: Seq<u64>, on: bool, errors: Seq<TraceError>, replies: Seq<Reply>) -> Ran<
    Seq<TraceError>,
>
    decreases addrs.len(),
{
    if addrs.len() == 0 {
        Ran::Gives(errors, s, replies)
    } else {
        match switched_at(s, addrs[0], on, replies) {
            Ran::Waits(q) => Ran::Waits(q),
            Ran::Fails(e, s1, rest) => switched(s1, addrs.drop_first(), on, errors.push(e), rest),
            Ran::Gives(_, s1, rest) => switched(s1, addrs.drop_first(), on, errors, rest),
        }
    }
}

/// What comes of switching the hooks on functions of some name: nothing where there are none.
pub open spec fn hooks_switched(s: InferiorV, placed: Seq<PlacedV>, symbol: Text, on: bool, replies: Seq<Reply>) -> Ran<
    Option<Seq<TraceError>>,
> {
    let addrs = addresses_for(placed, symbol);
    if addrs.len() == 0 {
        Ran::Gives(None, s, replies)
    } else {
        match switched(s, addrs, on, Seq::empty(), replies) {
            Ran::Waits(q) => Ran::Waits(q),
            Ran::Fails(e, s1, rest) => Ran::Fails(e, s1, rest),
            Ran::Gives(errors, s1, rest) => Ran::Gives(Some(errors), s1, rest),
        }
    }
}

/// Whether a result, with the state after it and what is left of the replies, is what comes of
/// switching hooks.
pub open spec fn ended_switching(
    r: Result<Option<Vec<TraceError>>, Halt>,
    s: InferiorV,
    io: Transcript,
    wanted: Ran<Option<Seq<TraceError>>>,
) -> bool {
    match r {
        Ok(None) => wanted == Ran::Gives(None::<Seq<TraceError>>, s, io.rest()),
        Ok(Some(errors)) => wanted == Ran::Gives(Some(errors@), s, io.rest()),
        Err(Halt::Failed(e)) => wanted == Ran::<Option<Seq<TraceError>>>::Fails(e, s, io.rest()),
        Err(Halt::Waiting) => io.open_request() is Some && wanted == Ran::<Option<Seq<TraceError>>>::Waits(
            io.open_request().unwrap(),
        ),
    }
}

/// Arms or disarms the breakpoint at an address.
fn switch_one(inferior: &mut Inferior, io: &mut Transcript, addr: u64, on: bool) -> (r: Result<(), Halt>)
    ensures
        ended(r, final(inferior)@, *final(io), switched_at(old(inferior)@, addr, on, old(io).rest())),
{
    if on {
        inferior.arm(io, addr)
    } else {
        inferior.disarm(io, addr)
    }
}

/// Switches the hooks on functions of some name, each whether another could be switched or not. Gives
/// the errors that came up, or nothing where there are no such hooks.
pub fn switch_hooks(inferior: &mut Inferior, io: &mut Transcript, table: &HookTable, symbol: &str, on: bool) -> (r:
    Result<Option<Vec<TraceError>>, Halt>)
    ensures
        ended_switching(
            r,
            final(inferior)@,
            *final(io),
            hooks_switched(old(inferior)@, table@, symbol@, on, old(io).rest()),
        ),
{
    let addrs: Vec<u64> = match table.addresses_of(symbol) {
        Some(addrs) => addrs,
        None => {
            return Ok(None);
        },
    };
    let ghost whole = switched(inferior@, addrs@, on, Seq::empty(), io.rest());
    let mut errors: Vec<TraceError> = Vec::new();
    let mut i: usize = 0;
    assert(addrs@.skip(0) =~= addrs@);
    while i < addrs.len()
        invariant
            i <= addrs.len(),
            addrs@ == addresses_for(table@, symbol@),
            addrs@.len() > 0,
            whole == switched(old(inferior)@, addrs@, on, Seq::empty(), old(io).rest()),
            whole == switched(inferior@, addrs@.skip(i as int), on, errors@, io.rest()),
        decreases addrs.len() - i,
    {
        assert(addrs@.skip(i as int).drop_first() =~= addrs@.skip(i + 1));
        match switch_one(inferior, io, addrs[i], on) {
            Ok(()) => {},
            Err(Halt::Waiting) => {
                return Err(Halt::Waiting);
            },
            Err(Halt::Failed(e)) => {
                errors.push(e);
            },
        }
        i += 1;
    }
    assert(addrs@.skip(i as int) =~= Seq::<u64>::empty());
    Ok(Some(errors))
}

/// Switches on the hooks on functions of some name.
pub fn enable_hook(inferior: &mut Inferior, io: &mut Transcript, table: &HookTable, symbol: &str) -> (r: Result<
    Option<Vec<TraceError>>,
    Halt,
>)
    ensures
        ended_switching(
            r,
            final(inferior)@,
            *final(io),
            hooks_switched(old(inferior)@, table@, symbol@, true, old(io).rest()),
        ),
{
    switch_hooks(inferior, io, table, symbol, true)
}

/// Switches off the hooks on functions of some name.
pub fn disable_hook(inferior: &mut Inferior, io: &mut Transcript, table: &HookTable, symbol: &str) -> (r: Result<
    Option<Vec<TraceError>>,
    Halt,
>)
    ensures
        ended_switching(
            r,
            final(inferior)@,
            *final(io),
            hooks_switched(old(inferior)@, table@, symbol@, false, old(io).rest()),
        ),
{
    switch_hooks(inferior, io, table, symbol, false)
}

// ---- laws ----

/// Switching hooks leaves the state in order, and never fails as a whole.
pub proof fn law_switch_orderly(s: InferiorV, addrs: Seq<u64>, on: bool, errors: Seq<TraceError>, replies: Seq<Reply>)
    requires
        orderly(s),
    ensures
        stays_orderly(switched(s, addrs, on, errors, replies)),
        !(switched(s, addrs, on, errors, replies) is Fails),
    decreases addrs.len(),
{
    if addrs.len() > 0 {
        law_arm_orderly(s, addrs[0], replies);
        match switched_at(s, addrs[0], on, replies) {
            Ran::Waits(_) => {},
            Ran::Fails(e, s1, rest) => {
                law_switch_orderly(s1, addrs.drop_first(), on, errors.push(e), rest);
            },
            Ran::Gives(_, s1, rest) => {
                law_switch_orderly(s1, addrs.drop_first(), on, errors, rest);
            },
        }
    }
}

/// Switching hooks goes the same way again.
pub proof fn law_again_switched(
    s: InferiorV,
    addrs: Seq<u64>,
    on: bool,
    errors: Seq<TraceError>,
    replies: Seq<Reply>,
    x: Seq<Reply>,
)
    ensures
        ran_done(switched(s, addrs, on, errors, replies)) ==> {
            let rest = ran_rest(switched(s, addrs, on, errors, replies));
            &&& ends_with(replies, rest)
            &&& switched(s, addrs, on, errors, used(replies, rest) + x) == ran_with(
                switched(s, addrs, on, errors, replies),
                x,
            )
        },
    decreases addrs.len(),
{
    if addrs.len() == 0 {
        assert(replies =~= used(replies, replies) + replies);
        assert(used(replies, replies) + x =~= x);
    } else {
        law_again_armed_at(s, addrs[0], replies, x);
        law_again_disarmed_at(s, addrs[0], replies, x);
        let one = switched_at(s, addrs[0], on, replies);
        if ran_done(one) {
            let rest = ran_rest(one);
            let (s1, errors1) = match one {
                Ran::Fails(e, s1, _) => (s1, errors.push(e)),
                Ran::Gives(_, s1, _) => (s1, errors),
                Ran::Waits(_) => (s, errors),
            };
            let tail = switched(s1, addrs.drop_first(), on, errors1, rest);
            law_again_switched(s1, addrs.drop_first(), on, errors1, rest, x);
            if ran_done(tail) {
                let end = ran_rest(tail);
                law_again_armed_at(s, addrs[0], replies, used(rest, end) + x);
                law_again_disarmed_at(s, addrs[0], replies, used(rest, end) + x);
                lemma_used_twice(replies, rest, end, x);
            }
        }
    }
}

} // verus!
