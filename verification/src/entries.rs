//! What entries of debug information say in general: numbers, names, types and children.

use vstd::prelude::*;

use crate::debug_unit::AT_ABSTRACT_ORIGIN;
use crate::debug_unit::AT_BYTE_SIZE;
use crate::debug_unit::AT_ENCODING;
use crate::debug_unit::AT_LINKAGE_NAME;
use crate::debug_unit::AT_NAME;
use crate::debug_unit::AT_SPECIFICATION;
use crate::debug_unit::AT_TYPE;
use crate::debug_unit::AttrValue;
use crate::debug_unit::DebugUnit;
use crate::debug_unit::DwarfError;
use crate::debug_unit::UnitModel;
use crate::debug_unit::Fault;
use crate::debug_unit::fault;
use crate::debug_unit::outcome;
use crate::debug_unit::Shape;
use crate::debug_unit::TAG_BASE;
use crate::debug_unit::TAG_POINTER;
use crate::meta::ScalarKind;
use crate::names::clean;
use crate::names::demangle_clean;
use crate::names::demangled;
use crate::text::join;
use crate::text::joined;
use crate::text::opt_text;
use crate::text::Text;
use crate::text::texts;
use crate::words::to_unsigned;
use crate::words::unsigned;

verus! {

// ---- numbers ----

/// The number that an attribute holds, whatever its form.
pub open spec fn number_of(v: Option<AttrValue>) -> Option<u64> {
    match v {
        Some(AttrValue::Udata(n)) => Some(n),
        Some(AttrValue::Data(n)) => Some(n),
        Some(AttrValue::Sdata(i)) => Some(unsigned(i)),
        _ => None,
    }
}

/// The number that an attribute holds, where it is not negative.
pub open spec fn natural_of(v: Option<AttrValue>) -> Option<u64> {
    match v {
        Some(AttrValue::Sdata(i)) => if i < 0 {
            None
        } else {
            Some(i as u64)
        },
        _ => number_of(v),
    }
}

/// The number that an attribute of an entry holds.
pub open spec fn number_at(u: UnitModel, off: usize, at: u16) -> Result<Option<u64>, Fault> {
    match u.value_at(off, at) {
        Ok(v) => Ok(number_of(v)),
        Err(f) => Err(f),
    }
}

/// The number that a value holds, whatever its form.
fn number(v: Option<AttrValue>) -> (r: Option<u64>)
    ensures
        r == number_of(v),
{
    match v {
        Some(AttrValue::Udata(n)) => Some(n),
        Some(AttrValue::Data(n)) => Some(n),
        Some(AttrValue::Sdata(i)) => Some(to_unsigned(i)),
        _ => None,
    }
}

/// The number that a value holds, where it is not negative.
pub fn natural(v: Option<AttrValue>) -> (r: Option<u64>)
    ensures
        r == natural_of(v),
{
    match v {
        Some(AttrValue::Sdata(i)) => if i < 0 {
            None
        } else {
            Some(i as u64)
        },
        _ => number(v),
    }
}

/// The number that an attribute of an entry holds, where it has the attribute and it holds one.
pub fn attr_u64<U: DebugUnit>(u: &U, off: usize, at: u16) -> (r: Result<Option<u64>, DwarfError>)
    ensures
        outcome(r) == number_at(u.model(), off, at),
{
    Ok(number(u.value(off, at)?))
}

// ---- names ----

/// The entry at an offset that another entry refers to.
pub open spec fn entry_at(u: UnitModel, off: usize) -> Result<Shape, Fault> {
    match u.shape_at(off) {
        Ok(s) => if s.present {
            Ok(s)
        } else {
            Err(Fault::NoEntry)
        },
        Err(f) => Err(f),
    }
}

/// The entry at an offset that another entry refers to.
pub fn entry<U: DebugUnit>(u: &U, off: usize) -> (r: Result<Shape, DwarfError>)
    ensures
        outcome(r) == entry_at(u.model(), off),
{
    let s = u.shape(off)?;
    if s.present {
        Ok(s)
    } else {
        Err(DwarfError::NoEntry(off))
    }
}

/// How far references are followed in search of a function's name.
pub const MAX_NAME_DEPTH: u32 = 4;

/// The linkage name and the readable name of the function that an entry stands for. The entry's own
/// linkage name comes first, then the names of the entries that it refers to, then its own name.
pub open spec fn names_of(u: UnitModel, off: usize, depth: u32) -> Result<
    (Option<Text>, Option<Text>),
    Fault,
>
    decreases MAX_NAME_DEPTH - depth, 1int,
{
    match u.text_at(off, AT_LINKAGE_NAME) {
        Err(f) => Err(f),
        Ok(Some(link)) => Ok((Some(link), Some(clean(demangled(link))))),
        Ok(None) => match names_by(u, off, AT_SPECIFICATION, depth) {
            Err(f) => Err(f),
            Ok(Some(names)) => Ok(names),
            Ok(None) => match names_by(u, off, AT_ABSTRACT_ORIGIN, depth) {
                Err(f) => Err(f),
                Ok(Some(names)) => Ok(names),
                Ok(None) => match u.text_at(off, AT_NAME) {
                    Err(f) => Err(f),
                    Ok(name) => Ok((None, name)),
                },
            },
        },
    }
}

/// The names of the entry that an entry refers to by an attribute, where there is a readable one.
pub open spec fn names_by(u: UnitModel, off: usize, at: u16, depth: u32) -> Result<
    Option<(Option<Text>, Option<Text>)>,
    Fault,
>
    decreases MAX_NAME_DEPTH - depth, 0int,
{
    if depth >= MAX_NAME_DEPTH {
        Ok(None)
    } else {
        match u.value_at(off, at) {
            Err(f) => Err(f),
            Ok(Some(AttrValue::UnitRef(to))) => match entry_at(u, to) {
                Err(f) => Err(f),
                Ok(_) => match names_of(u, to, (depth + 1) as u32) {
                    Err(f) => Err(f),
                    Ok(names) => if names.1 is Some {
                        Ok(Some(names))
                    } else {
                        Ok(None)
                    },
                },
            },
            Ok(_) => Ok(None),
        }
    }
}

/// A pair of names by their views.
pub open spec fn text_pair(p: (Option<String>, Option<String>)) -> (Option<Text>, Option<Text>) {
    (opt_text(p.0), opt_text(p.1))
}

/// The linkage name and the readable name of the function that an entry stands for.
pub fn resolve_fn_name<U: DebugUnit>(u: &U, off: usize, depth: u32) -> (r: Result<
    (Option<String>, Option<String>),
    DwarfError,
>)
    ensures
        match r {
            Ok(p) => names_of(u.model(), off, depth) == Ok::<(Option<Text>, Option<Text>), Fault>(text_pair(p)),
            Err(e) => names_of(u.model(), off, depth) == Err::<(Option<Text>, Option<Text>), Fault>(fault(e)),
        },
    decreases MAX_NAME_DEPTH - depth, 1int,
{
    if let Some(link) = u.text(off, AT_LINKAGE_NAME)? {
        let pretty: String = demangle_clean(link.as_str());
        return Ok((Some(link), Some(pretty)));
    }
    if let Some(names) = name_by_reference(u, off, AT_SPECIFICATION, depth)? {
        return Ok(names);
    }
    if let Some(names) = name_by_reference(u, off, AT_ABSTRACT_ORIGIN, depth)? {
        return Ok(names);
    }
    Ok((None, u.text(off, AT_NAME)?))
}

/// The names of the entry that an entry refers to by an attribute, where there is a readable one.
fn name_by_reference<U: DebugUnit>(u: &U, off: usize, at: u16, depth: u32) -> (r: Result<
    Option<(Option<String>, Option<String>)>,
    DwarfError,
>)
    ensures
        match r {
            Ok(Some(p)) => names_by(u.model(), off, at, depth) == Ok::<Option<(Option<Text>, Option<Text>)>, Fault>(
                Some(text_pair(p)),
            ),
            Ok(None) => names_by(u.model(), off, at, depth) == Ok::<Option<(Option<Text>, Option<Text>)>, Fault>(None),
            Err(e) => names_by(u.model(), off, at, depth) == Err::<Option<(Option<Text>, Option<Text>)>, Fault>(
                fault(e),
            ),
        },
    decreases MAX_NAME_DEPTH - depth, 0int,
{
    if depth >= MAX_NAME_DEPTH {
        return Ok(None);
    }
    match u.value(off, at)? {
        Some(AttrValue::UnitRef(to)) => {
            let _ = entry(u, to)?;
            let names = resolve_fn_name(u, to, depth + 1)?;
            if names.1.is_some() {
                Ok(Some(names))
            } else {
                Ok(None)
            }
        },
        _ => Ok(None),
    }
}

/// A name within its namespaces: `a::b::name`.
pub open spec fn qualified(ns: Seq<Text>, local: Text) -> Text {
    if ns.len() == 0 {
        local
    } else {
        joined(ns, "::"@) + "::"@ + local
    }
}

/// A name within its namespaces: `a::b::name`.
pub fn qualify(ns: &Vec<String>, local: String) -> (r: String)
    ensures
        r@ == qualified(texts(ns@), local@),
{
    if ns.len() == 0 {
        return local;
    }
    let mut name: String = join(ns, "::");
    name.append("::");
    name.append(local.as_str());
    name
}

// ---- types ----

/// The name and the size of the type that an entry refers to.
pub open spec fn type_of(u: UnitModel, off: usize) -> Result<(Text, Option<u64>), Fault> {
    match u.value_at(off, AT_TYPE) {
        Err(f) => Err(f),
        Ok(Some(AttrValue::UnitRef(to))) => match entry_at(u, to) {
            Err(f) => Err(f),
            Ok(_) => match u.text_at(to, AT_NAME) {
                Err(f) => Err(f),
                Ok(name) => match number_at(u, to, AT_BYTE_SIZE) {
                    Err(f) => Err(f),
                    Ok(size) => Ok((name_or(name, "<anon>"@), size)),
                },
            },
        },
        Ok(_) => Ok(("<unknown>"@, None)),
    }
}

/// A name, or another in its place.
pub open spec fn name_or(name: Option<Text>, other: Text) -> Text {
    match name {
        Some(n) => n,
        None => other,
    }
}

/// The name and the size of the type that an entry refers to.
pub fn read_type<U: DebugUnit>(u: &U, off: usize) -> (r: Result<(String, Option<u64>), DwarfError>)
    ensures
        match r {
            Ok(p) => type_of(u.model(), off) == Ok::<(Text, Option<u64>), Fault>((p.0@, p.1)),
            Err(e) => type_of(u.model(), off) == Err::<(Text, Option<u64>), Fault>(fault(e)),
        },
{
    match u.value(off, AT_TYPE)? {
        Some(AttrValue::UnitRef(to)) => {
            let _ = entry(u, to)?;
            let name: String = match u.text(to, AT_NAME)? {
                Some(n) => n,
                None => "<anon>".to_string(),
            };
            let size = attr_u64(u, to, AT_BYTE_SIZE)?;
            Ok((name, size))
        },
        _ => Ok(("<unknown>".to_string(), None)),
    }
}

/// How a value of a base type is to be read, by the number of its encoding.
pub open spec fn kind_of_encoding(v: Option<AttrValue>) -> ScalarKind {
    let encoding: Option<int> = match v {
        Some(AttrValue::Encoding(e)) => Some(e as int),
        Some(AttrValue::Udata(n)) => Some(n as int % 0x10000),
        _ => None,
    };
    if encoding == Some(2int) {
        ScalarKind::Bool
    } else if encoding == Some(4int) {
        ScalarKind::Float
    } else if encoding == Some(5int) {
        ScalarKind::Signed
    } else if encoding == Some(7int) || encoding == Some(8int) {
        ScalarKind::Unsigned
    } else {
        ScalarKind::Other
    }
}

/// The name, the size and the kind of the type of a member. A pointer without a size has that of an
/// address.
pub open spec fn member_type_of(u: UnitModel, off: usize) -> Result<(Text, u64, ScalarKind), Fault> {
    match u.value_at(off, AT_TYPE) {
        Err(f) => Err(f),
        Ok(Some(AttrValue::UnitRef(to))) => match entry_at(u, to) {
            Err(f) => Err(f),
            Ok(shape) => match u.text_at(to, AT_NAME) {
                Err(f) => Err(f),
                Ok(name) => match number_at(u, to, AT_BYTE_SIZE) {
                    Err(f) => Err(f),
                    Ok(size) => {
                        let known = match size {
                            Some(n) => n,
                            None => 0u64,
                        };
                        if shape.tag == TAG_POINTER {
                            Ok(
                                (
                                    name_or(name, "<anon>"@),
                                    if known == 0 {
                                        8u64
                                    } else {
                                        known
                                    },
                                    ScalarKind::Pointer,
                                ),
                            )
                        } else if shape.tag == TAG_BASE {
                            match u.value_at(to, AT_ENCODING) {
                                Err(f) => Err(f),
                                Ok(v) => Ok((name_or(name, "<anon>"@), known, kind_of_encoding(v))),
                            }
                        } else {
                            Ok((name_or(name, "<anon>"@), known, ScalarKind::Other))
                        }
                    },
                },
            },
        },
        Ok(_) => Ok(("<unknown>"@, 0u64, ScalarKind::Other)),
    }
}

/// How a value of a base type is to be read, by its encoding.
fn encoding_kind(v: Option<AttrValue>) -> (r: ScalarKind)
    ensures
        r == kind_of_encoding(v),
{
    let encoding: u16 = match v {
        Some(AttrValue::Encoding(e)) => e as u16,
        Some(AttrValue::Udata(n)) => (n % 0x10000) as u16,
        _ => {
            return ScalarKind::Other;
        },
    };
    match encoding {
        2 => ScalarKind::Bool,
        4 => ScalarKind::Float,
        5 => ScalarKind::Signed,
        7 | 8 => ScalarKind::Unsigned,
        _ => ScalarKind::Other,
    }
}

/// The name, the size and the kind of the type of a member.
pub fn resolve_member_type<U: DebugUnit>(u: &U, off: usize) -> (r: Result<(String, u64, ScalarKind), DwarfError>)
    ensures
        match r {
            Ok(t) => member_type_of(u.model(), off) == Ok::<(Text, u64, ScalarKind), Fault>((t.0@, t.1, t.2)),
            Err(e) => member_type_of(u.model(), off) == Err::<(Text, u64, ScalarKind), Fault>(fault(e)),
        },
{
    match u.value(off, AT_TYPE)? {
        Some(AttrValue::UnitRef(to)) => {
            let shape = entry(u, to)?;
            let name: String = match u.text(to, AT_NAME)? {
                Some(n) => n,
                None => "<anon>".to_string(),
            };
            let size: u64 = match attr_u64(u, to, AT_BYTE_SIZE)? {
                Some(n) => n,
                None => 0,
            };
            if shape.tag == TAG_POINTER {
                Ok((name, if size == 0 { 8 } else { size }, ScalarKind::Pointer))
            } else if shape.tag == TAG_BASE {
                let kind = encoding_kind(u.value(to, AT_ENCODING)?);
                Ok((name, size, kind))
            } else {
                Ok((name, size, ScalarKind::Other))
            }
        },
        _ => Ok(("<unknown>".to_string(), 0, ScalarKind::Other)),
    }
}

// ---- children ----

/// Where the first child of an entry stands, if it has children.
pub open spec fn first_child_of(shape: Shape) -> Option<usize> {
    if shape.has_children && !shape.last {
        Some(shape.next)
    } else {
        None
    }
}

/// The entry after the one at `off`, if it stands behind it within the unit.
pub open spec fn later(u: UnitModel, off: usize, next: Option<usize>) -> Option<usize> {
    match next {
        Some(q) => if off < q <= u.limit() {
            Some(q)
        } else {
            None
        },
        None => None,
    }
}

/// How much of a unit is left from a position on.
pub open spec fn left_from(u: UnitModel, pos: Option<usize>) -> int {
    match pos {
        Some(p) => if p <= u.limit() {
            u.limit() - p + 1
        } else {
            1
        },
        None => 0,
    }
}

/// A list with others before it, where there is a list.
pub open spec fn prefixed<T>(a: Seq<T>, r: Result<Seq<T>, Fault>) -> Result<Seq<T>, Fault> {
    match r {
        Ok(b) => Ok(a + b),
        Err(f) => Err(f),
    }
}

/// What goes before a list can be put there at once or one after the other.
pub proof fn lemma_prefixed<T>(a: Seq<T>, b: Seq<T>, r: Result<Seq<T>, Fault>)
    ensures
        prefixed(a, prefixed(b, r)) == prefixed(a + b, r),
        prefixed(Seq::<T>::empty(), r) == r,
        prefixed(a, Ok::<Seq<T>, Fault>(Seq::<T>::empty())) == Ok::<Seq<T>, Fault>(a),
{
    match r {
        Ok(c) => {
            assert(a + (b + c) =~= (a + b) + c);
            assert(Seq::<T>::empty() + c =~= c);
        },
        Err(_) => {},
    }
    assert(a + Seq::<T>::empty() =~= a);
}

} // verus!
