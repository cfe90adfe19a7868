//! The functions and variables that entries of debug information describe.

use vstd::prelude::*;

use crate::debug_unit::fault;
use crate::debug_unit::outcome;
use crate::debug_unit::AttrValue;
use crate::debug_unit::DebugUnit;
use crate::debug_unit::DwarfError;
use crate::debug_unit::UnitModel;
use crate::debug_unit::Fault;
use crate::debug_unit::AT_ABSTRACT_ORIGIN;
use crate::debug_unit::AT_DECLARATION;
use crate::debug_unit::AT_HIGH_PC;
use crate::debug_unit::AT_LINKAGE_NAME;
use crate::debug_unit::AT_LOCATION;
use crate::debug_unit::AT_LOW_PC;
use crate::debug_unit::AT_NAME;
use crate::entries::entry;
use crate::entries::entry_at;
use crate::entries::names_of;
use crate::entries::natural;
use crate::entries::natural_of;
use crate::entries::qualified;
use crate::entries::qualify;
use crate::entries::read_type;
use crate::entries::resolve_fn_name;
use crate::entries::type_of;
use crate::location::readable;
use crate::location::DwarfOp;
use crate::meta::views;
use crate::meta::Function;
use crate::meta::FunctionV;
use crate::meta::Param;
use crate::meta::ParamV;
use crate::meta::Variable;
use crate::meta::VariableV;
use crate::params::params_from;
use crate::params::read_params;
use crate::text::texts;
use crate::text::Text;

verus! {

// ---- functions ----

/// An address, where there is one and it is not zero.
pub open spec fn nonzero(a: Option<u64>) -> Option<u64> {
    if a == Some(0u64) {
        None
    } else {
        a
    }
}

/// The size of the code of a function that begins at `low`: its last address may be told as a size or
/// as an address.
pub open spec fn code_size(u: UnitModel, off: usize, low: u64) -> Result<Option<u64>, Fault> {
    match u.value_at(off, AT_HIGH_PC) {
        Err(f) => Err(f),
        Ok(None) => Ok(None),
        Ok(v) => match natural_of(v) {
            Some(size) => Ok(Some(size)),
            None => match u.address_at(off, AT_HIGH_PC) {
                Err(f) => Err(f),
                Ok(None) => Ok(None),
                Ok(Some(high)) => Ok(
                    Some(
                        if high < low {
                            0u64
                        } else {
                            (high - low) as u64
                        },
                    ),
                ),
            },
        },
    }
}

/// The function that an entry describes, with its first child at `first`; none where it has no name.
/// Code at address zero is no code.
pub open spec fn function_at(u: UnitModel, off: usize, first: Option<usize>) -> Result<
    Option<FunctionV>,
    Fault,
> {
    match names_of(u, off, 0) {
        Err(f) => Err(f),
        Ok(names) => match names.1 {
            None => Ok(None),
            Some(name) => match u.address_at(off, AT_LOW_PC) {
                Err(f) => Err(f),
                Ok(a) => match nonzero(a) {
                    None => Ok(
                        Some(
                            FunctionV {
                                name,
                                linkage_name: names.0,
                                address: None,
                                size: None,
                                inlined_at: Seq::empty(),
                                params: Seq::empty(),
                            },
                        ),
                    ),
                    Some(low) => match code_size(u, off, low) {
                        Err(f) => Err(f),
                        Ok(size) => match params_from(u, first, low) {
                            Err(f) => Err(f),
                            Ok(params) => Ok(
                                Some(
                                    FunctionV {
                                        name,
                                        linkage_name: names.0,
                                        address: Some(low),
                                        size,
                                        inlined_at: Seq::empty(),
                                        params,
                                    },
                                ),
                            ),
                        },
                    },
                },
            },
        },
    }
}

/// The size of the code of a function that begins at `low`.
fn read_code_size<U: DebugUnit>(u: &U, off: usize, low: u64) -> (r: Result<Option<u64>, DwarfError>)
    ensures
        outcome(r) == code_size(u.model(), off, low),
{
    let v = u.value(off, AT_HIGH_PC)?;
    if v.is_none() {
        return Ok(None);
    }
    match natural(v) {
        Some(size) => Ok(Some(size)),
        None => match u.address(off, AT_HIGH_PC)? {
            Some(high) => Ok(Some(if high < low { 0 } else { high - low })),
            None => Ok(None),
        },
    }
}

/// The function that an entry describes.
pub fn read_subprogram<U: DebugUnit>(u: &U, off: usize, first: Option<usize>) -> (r: Result<
    Option<Function>,
    DwarfError,
>)
    ensures
        match r {
            Ok(Some(f)) => function_at(u.model(), off, first) == Ok::<Option<FunctionV>, Fault>(Some(f@)),
            Ok(None) => function_at(u.model(), off, first) == Ok::<Option<FunctionV>, Fault>(None),
            Err(e) => function_at(u.model(), off, first) == Err::<Option<FunctionV>, Fault>(fault(e)),
        },
{
    let (linkage_name, pretty) = resolve_fn_name(u, off, 0)?;
    let name: String = match pretty {
        Some(n) => n,
        None => {
            return Ok(None);
        },
    };
    let low: u64 = match u.address(off, AT_LOW_PC)? {
        Some(a) => a,
        None => 0,
    };
    let mut address: Option<u64> = None;
    let mut size: Option<u64> = None;
    let mut params: Vec<Param> = Vec::new();
    if low != 0 {
        address = Some(low);
        size = read_code_size(u, off, low)?;
        params = read_params(u, first, low)?;
    } else {
        assert(views(params@) =~= Seq::<ParamV>::empty());
    }
    let f = Function { name, linkage_name, address, size, inlined_at: Vec::new(), params };
    assert(f@.inlined_at =~= Seq::<u64>::empty());
    Ok(Some(f))
}

/// The name of the function that an entry is an inlined copy of, and where the copy begins; none where
/// either is not known.
pub open spec fn inlined_copy(u: UnitModel, off: usize) -> Result<Option<(Text, u64)>, Fault> {
    match u.value_at(off, AT_ABSTRACT_ORIGIN) {
        Err(f) => Err(f),
        Ok(Some(AttrValue::UnitRef(to))) => match entry_at(u, to) {
            Err(f) => Err(f),
            Ok(_) => match names_of(u, to, 0) {
                Err(f) => Err(f),
                Ok(names) => match names.1 {
                    None => Ok(None),
                    Some(name) => match u.address_at(off, AT_LOW_PC) {
                        Err(f) => Err(f),
                        Ok(a) => match nonzero(a) {
                            Some(low) => Ok(Some((name, low))),
                            None => match u.range_start_of(off) {
                                Err(f) => Err(f),
                                Ok(start) => match nonzero(start) {
                                    Some(low) => Ok(Some((name, low))),
                                    None => Ok(None),
                                },
                            },
                        },
                    },
                },
            },
        },
        Ok(_) => Ok(None),
    }
}

/// The name of the function that an entry is an inlined copy of, and where the copy begins.
pub fn read_inlined<U: DebugUnit>(u: &U, off: usize) -> (r: Result<Option<(String, u64)>, DwarfError>)
    ensures
        match r {
            Ok(Some(c)) => inlined_copy(u.model(), off) == Ok::<Option<(Text, u64)>, Fault>(Some((c.0@, c.1))),
            Ok(None) => inlined_copy(u.model(), off) == Ok::<Option<(Text, u64)>, Fault>(None),
            Err(e) => inlined_copy(u.model(), off) == Err::<Option<(Text, u64)>, Fault>(fault(e)),
        },
{
    let name: String = match u.value(off, AT_ABSTRACT_ORIGIN)? {
        Some(AttrValue::UnitRef(to)) => {
            let _ = entry(u, to)?;
            let (_, pretty) = resolve_fn_name(u, to, 0)?;
            match pretty {
                Some(n) => n,
                None => {
                    return Ok(None);
                },
            }
        },
        _ => {
            return Ok(None);
        },
    };
    // Inlined copies sometimes have a list of ranges in place of a lowest address.
    match u.address(off, AT_LOW_PC)? {
        Some(a) => {
            if a != 0 {
                return Ok(Some((name, a)));
            }
        },
        None => {},
    }
    match u.range_start(off)? {
        Some(start) => {
            if start != 0 {
                Ok(Some((name, start)))
            } else {
                Ok(None)
            }
        },
        None => Ok(None),
    }
}

// ---- variables ----

/// The fixed address of the variable that an entry describes, where its location is one.
pub open spec fn fixed_address(u: UnitModel, off: usize) -> Result<Option<u64>, Fault> {
    match u.value_at(off, AT_LOCATION) {
        Err(f) => Err(f),
        Ok(Some(AttrValue::Exprloc)) => match u.ops_at(off, AT_LOCATION) {
            Err(f) => Err(f),
            Ok(ops) => if ops.len() == 0 {
                Ok(None)
            } else {
                match ops[0] {
                    None => Err(Fault::Unreadable),
                    Some(DwarfOp::Address(a)) => Ok(nonzero(Some(a))),
                    Some(DwarfOp::AddressIndex(i)) => match u.table_address_of(i) {
                        Err(f) => Err(f),
                        Ok(a) => Ok(nonzero(Some(a))),
                    },
                    Some(_) => Ok(None),
                }
            },
        },
        Ok(_) => Ok(None),
    }
}

/// The variable that an entry describes; none where it is only declared, has no fixed address or no
/// name.
pub open spec fn variable_of(u: UnitModel, off: usize, ns: Seq<Text>) -> Result<Option<VariableV>, Fault> {
    match u.value_at(off, AT_DECLARATION) {
        Err(f) => Err(f),
        Ok(Some(_)) => Ok(None),
        Ok(None) => match fixed_address(u, off) {
            Err(f) => Err(f),
            Ok(None) => Ok(None),
            Ok(Some(address)) => match u.text_at(off, AT_NAME) {
                Err(f) => Err(f),
                Ok(None) => Ok(None),
                Ok(Some(local)) => match u.text_at(off, AT_LINKAGE_NAME) {
                    Err(f) => Err(f),
                    Ok(linkage_name) => match type_of(u, off) {
                        Err(f) => Err(f),
                        Ok(ty) => Ok(
                            Some(
                                VariableV {
                                    name: qualified(ns, local),
                                    linkage_name,
                                    address,
                                    size: ty.1,
                                    ty_name: ty.0,
                                },
                            ),
                        ),
                    },
                },
            },
        },
    }
}

/// The fixed address of the variable that an entry describes, where its location is one.
fn read_fixed_address<U: DebugUnit>(u: &U, off: usize) -> (r: Result<Option<u64>, DwarfError>)
    ensures
        outcome(r) == fixed_address(u.model(), off),
{
    match u.value(off, AT_LOCATION)? {
        Some(AttrValue::Exprloc) => {},
        _ => {
            return Ok(None);
        },
    }
    let ops = u.ops(off, AT_LOCATION)?;
    if ops.len() == 0 {
        return Ok(None);
    }
    assert(readable(ops@)[0] == ops@[0].ok());
    let address: u64 = match &ops[0] {
        Ok(DwarfOp::Address(a)) => *a,
        Ok(DwarfOp::AddressIndex(i)) => u.table_address(*i)?,
        Ok(_) => {
            return Ok(None);
        },
        Err(e) => {
            return Err(DwarfError::Unreadable(*e));
        },
    };
    if address == 0 {
        Ok(None)
    } else {
        Ok(Some(address))
    }
}

/// The variable that an entry describes.
pub fn read_variable<U: DebugUnit>(u: &U, off: usize, ns: &Vec<String>) -> (r: Result<
    Option<Variable>,
    DwarfError,
>)
    ensures
        match r {
            Ok(Some(v)) => variable_of(u.model(), off, texts(ns@)) == Ok::<Option<VariableV>, Fault>(Some(v@)),
            Ok(None) => variable_of(u.model(), off, texts(ns@)) == Ok::<Option<VariableV>, Fault>(None),
            Err(e) => variable_of(u.model(), off, texts(ns@)) == Err::<Option<VariableV>, Fault>(fault(e)),
        },
{
    if u.value(off, AT_DECLARATION)?.is_some() {
        return Ok(None);
    }
    let address: u64 = match read_fixed_address(u, off)? {
        Some(a) => a,
        None => {
            return Ok(None);
        },
    };
    let local: String = match u.text(off, AT_NAME)? {
        Some(n) => n,
        None => {
            return Ok(None);
        },
    };
    let linkage_name = u.text(off, AT_LINKAGE_NAME)?;
    let (ty_name, size) = read_type(u, off)?;
    Ok(Some(Variable { name: qualify(ns, local), linkage_name, address, size, ty_name }))
}

} // verus!
