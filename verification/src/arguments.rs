//! The arguments of the hooked function, as a mod sees them when its hook is handled.

use vstd::prelude::*;

use crate::inferior::plus;
use crate::inferior::reg_read;
use crate::inferior::Inferior;
use crate::inferior::InferiorV;
use crate::location::arg_source;
use crate::location::entry_text;
use crate::location::first_named;
use crate::location::law_entry_text_source;
use crate::location::reg_name;
use crate::location::source_of;
use crate::location::ArgSource;
use crate::location::ArgSourceV;
use crate::location::DwarfOp;
use crate::meta::views;
use crate::meta::FunctionV;
use crate::meta::Metadata;
use crate::meta::Param;
use crate::meta::ParamV;
use crate::peek::settled;
use crate::session::entered_at;
use crate::session::HookTable;
use crate::session::PlacedV;
use crate::text::clone_opt;
use crate::text::Text;
use crate::trace::Halt;
use crate::trace::Io;
use crate::trace::Reply;
use crate::trace::Transcript;
use crate::words::signed;
use crate::words::to_signed;
use crate::words::to_unsigned;

verus! {

/// What a mod gets of an argument.
pub enum Arg {
    /// No hook is handled, or nothing is known of the function.
    Unknown,
    /// The function has only so many parameters.
    OutOfRange(usize),
    /// The parameter of that name is not in a register when the function is entered.
    NotInRegister(String),
    /// The argument, or its address; zero where the register cannot be had.
    Value(i64),
}

pub enum ArgV {
    Unknown,
    OutOfRange(nat),
    NotInRegister(Text),
    Value(i64),
}

impl View for Arg {
    type V = ArgV;

    open spec fn view(&self) -> ArgV {
        match self {
            Arg::Unknown => ArgV::Unknown,
            Arg::OutOfRange(n) => ArgV::OutOfRange(*n as nat),
            Arg::NotInRegister(name) => ArgV::NotInRegister(name@),
            Arg::Value(v) => ArgV::Value(*v),
        }
    }
}

/// The parameters of the function whose hook is handled.
pub open spec fn params_now(s: InferiorV, functions: Seq<FunctionV>, placed: Seq<PlacedV>) -> Option<Seq<ParamV>> {
    match s.current_bp {
        None => None,
        Some(bp) => match entered_at(placed, bp) {
            Some(i) => if 0 <= i < functions.len() {
                Some(functions[i].params)
            } else {
                None
            },
            None => None,
        },
    }
}

/// What comes of looking for an argument where it lies when the function is entered.
pub open spec fn arg_fetched(s: InferiorV, source: ArgSourceV, replies: Seq<Reply>) -> Io<ArgV> {
    match source {
        ArgSourceV::Held(reg) => settled(
            reg_read(s, reg, replies),
            |v: u64| ArgV::Value(signed(v)),
            ArgV::Value(0),
        ),
        ArgSourceV::Pointed(reg, offset) => settled(
            reg_read(s, reg, replies),
            |v: u64| ArgV::Value(signed(plus(v, offset as int))),
            ArgV::Value(0),
        ),
    }
}

/// What comes of a mod asking for an argument.
pub open spec fn arg_seen(
    s: InferiorV,
    functions: Seq<FunctionV>,
    placed: Seq<PlacedV>,
    index: i64,
    replies: Seq<Reply>,
) -> Io<ArgV> {
    match params_now(s, functions, placed) {
        None => Io::Gives(ArgV::Unknown, replies),
        Some(params) => if index < 0 || index >= params.len() {
            Io::Gives(ArgV::OutOfRange(params.len()), replies)
        } else {
            match params[index as int].entry_reg {
                None => Io::Gives(ArgV::NotInRegister(params[index as int].name), replies),
                Some(entry) => arg_fetched(s, source_of(entry), replies),
            }
        },
    }
}

/// Whether a result is what comes of a mod asking for an argument.
pub open spec fn told_arg(r: Result<Arg, Halt>, io: Transcript, wanted: Io<ArgV>) -> bool {
    match r {
        Ok(a) => wanted == Io::Gives(a@, io.rest()),
        Err(Halt::Failed(e)) => wanted == Io::<ArgV>::Fails(e, io.rest()),
        Err(Halt::Waiting) => io.open_request() is Some && wanted == Io::<ArgV>::Waits(
            io.open_request().unwrap(),
        ),
    }
}

/// The parameters of the function whose hook is handled.
fn current_params<'a>(inferior: &Inferior, meta: &'a Metadata, table: &HookTable) -> (r: Option<&'a Vec<Param>>)
    ensures
        match r {
            Some(params) => params_now(inferior@, meta@.functions, table@) == Some(views(params@)),
            None => params_now(inferior@, meta@.functions, table@) is None,
        },
{
    let bp: u64 = match inferior.current_bp() {
        Some(bp) => bp,
        None => {
            return None;
        },
    };
    match table.function_at(bp) {
        Some(i) => {
            if i < meta.functions.len() {
                Some(&meta.functions[i].params)
            } else {
                None
            }
        },
        None => None,
    }
}

/// A number added to a word, around the end of what a word can hold.
fn shifted(v: u64, offset: i64) -> (r: u64)
    ensures
        r == plus(v, offset as int),
{
    let n: u64 = to_unsigned(offset);
    let r: u64 = v.wrapping_add(n);
    proof {
        let sum: int = v + offset;
        if sum < 0 {
            assert(plus(v, offset as int) == sum + 0x1_0000_0000_0000_0000);
        } else if sum >= 0x1_0000_0000_0000_0000 {
            assert(plus(v, offset as int) == sum - 0x1_0000_0000_0000_0000);
        } else {
            assert(plus(v, offset as int) == sum);
        }
    }
    r
}

/// Looks for an argument where it lies when the function is entered.
fn fetch(inferior: &Inferior, io: &mut Transcript, source: ArgSource) -> (r: Result<Arg, Halt>)
    ensures
        told_arg(r, *final(io), arg_fetched(inferior@, source@, old(io).rest())),
{
    match source {
        ArgSource::Held(name) => match inferior.get_reg(io, name.as_str()) {
            Ok(v) => Ok(Arg::Value(to_signed(v))),
            Err(Halt::Waiting) => Err(Halt::Waiting),
            Err(Halt::Failed(_)) => Ok(Arg::Value(0)),
        },
        ArgSource::Pointed(name, offset) => match inferior.get_reg(io, name.as_str()) {
            Ok(v) => Ok(Arg::Value(to_signed(shifted(v, offset)))),
            Err(Halt::Waiting) => Err(Halt::Waiting),
            Err(Halt::Failed(_)) => Ok(Arg::Value(0)),
        },
    }
}

/// An argument of the function whose hook is handled.
pub fn arg(inferior: &Inferior, io: &mut Transcript, meta: &Metadata, table: &HookTable, index: i64) -> (r: Result<
    Arg,
    Halt,
>)
    ensures
        told_arg(r, *final(io), arg_seen(inferior@, meta@.functions, table@, index, old(io).rest())),
{
    let params: &Vec<Param> = match current_params(inferior, meta, table) {
        Some(params) => params,
        None => {
            return Ok(Arg::Unknown);
        },
    };
    if index < 0 || index as u64 >= params.len() as u64 {
        return Ok(Arg::OutOfRange(params.len()));
    }
    let param: &Param = &params[index as usize];
    match &param.entry_reg {
        None => Ok(Arg::NotInRegister(param.name.clone())),
        Some(entry) => fetch(inferior, io, arg_source(entry.as_str())),
    }
}

/// Where an argument lies, as the metadata has it.
pub open spec fn arg_place(s: InferiorV, functions: Seq<FunctionV>, placed: Seq<PlacedV>, index: i64) -> Text {
    match params_now(s, functions, placed) {
        None => Seq::empty(),
        Some(params) => if 0 <= index < params.len() {
            match params[index as int].entry_reg {
                Some(entry) => entry,
                None => Seq::empty(),
            }
        } else {
            Seq::empty()
        },
    }
}

/// Where an argument lies, as the metadata has it; empty where nothing is known of it.
pub fn arg_regs(inferior: &Inferior, meta: &Metadata, table: &HookTable, index: i64) -> (r: String)
    ensures
        r@ == arg_place(inferior@, meta@.functions, table@, index),
{
    if let Some(params) = current_params(inferior, meta, table) {
        if 0 <= index && (index as u64) < params.len() as u64 {
            if let Some(entry) = clone_opt(&params[index as usize].entry_reg) {
                return entry;
            }
        }
    }
    String::new()
}

/// How many parameters the function has whose hook is handled; zero where nothing is known of it.
pub fn arg_count(inferior: &Inferior, meta: &Metadata, table: &HookTable) -> (r: i64)
    ensures
        r == (match params_now(inferior@, meta@.functions, table@) {
            Some(params) => signed(params.len() as u64),
            None => 0i64,
        }),
{
    match current_params(inferior, meta, table) {
        Some(params) => to_signed(params.len() as u64),
        None => 0,
    }
}

// ---- laws ----

/// An argument is looked for where the location expression of its parameter says first that it lies: in
/// the register, or where the register points, some bytes on.
pub proof fn law_arg_where_located(
    s: InferiorV,
    functions: Seq<FunctionV>,
    placed: Seq<PlacedV>,
    index: i64,
    ops: Seq<Option<DwarfOp>>,
    replies: Seq<Reply>,
)
    requires
        params_now(s, functions, placed) matches Some(params) && 0 <= index < params.len()
            && params[index as int].entry_reg == entry_text(ops),
        entry_text(ops) is Some,
    ensures
        match first_named(ops) {
            Some(DwarfOp::Register(n)) => arg_seen(s, functions, placed, index, replies) == arg_fetched(
                s,
                ArgSourceV::Held(reg_name(n).unwrap()),
                replies,
            ),
            Some(DwarfOp::RegisterOffset(n, offset)) => arg_seen(s, functions, placed, index, replies)
                == arg_fetched(s, ArgSourceV::Pointed(reg_name(n).unwrap(), offset), replies),
            _ => false,
        },
{
    law_entry_text_source(ops);
}

} // verus!
