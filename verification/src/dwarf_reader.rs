//! Debug information as gimli reads it from the sections of a binary: plain values in, plain values
//! out.

use gimli::{
    AttributeValue, DebugAbbrev, DebugAddrIndex, DebugInfo, DebugInfoOffset, DebuggingInformationEntry, DwAt, Dwarf,
    Encoding, EndianSlice, Error, Expression, Format, LittleEndian, LocationListsOffset, Operation, RangeListsOffset,
    UnitOffset,
};
use vstd::prelude::*;

use crate::debug_unit::AttrValue;
use crate::debug_unit::Shape;
use crate::debug_unit::AT_HIGH_PC;
use crate::debug_unit::AT_LOW_PC;
use crate::debug_unit::AT_RANGES;
use crate::location::readable;
use crate::location::DwarfOp;
use crate::text::opt_text;
use crate::text::same_text;
use crate::text::Text;
use crate::words::le_word;

verus! {

// ---- sections ----

/// One debug section of a binary.
pub struct Section {
    pub name: String,
    pub bytes: Vec<u8>,
}

/// The debug sections of a binary, by name.
pub struct Sections {
    pub list: Vec<Section>,
}

/// The bytes of the first section called `name` in `list` from `i` on; empty where there is none.
pub open spec fn section_bytes(list: Seq<Section>, name: Text, i: int) -> Seq<u8>
    decreases list.len() - i,
{
    if i < 0 || i >= list.len() {
        Seq::empty()
    } else if list[i].name@ == name {
        list[i].bytes@
    } else {
        section_bytes(list, name, i + 1)
    }
}

impl View for Sections {
    type V = Map<Text, Seq<u8>>;

    /// The contents of every section, as a function of its name.
    open spec fn view(&self) -> Map<Text, Seq<u8>> {
        Map::total(|name: Text| section_bytes(self.list@, name, 0))
    }
}

impl Sections {
    /// The contents of the section called `name`: empty where there is none.
    pub fn bytes(&self, name: &str) -> (r: &[u8])
        ensures
            r@ == self@[name@],
    {
        let mut i: usize = 0;
        while i < self.list.len()
            invariant
                i <= self.list.len(),
                section_bytes(self.list@, name@, 0) == section_bytes(self.list@, name@, i as int),
            decreases self.list.len() - i,
        {
            if same_text(self.list[i].name.as_str(), name) {
                return self.list[i].bytes.as_slice();
            }
            i += 1;
        }
        &[]
    }
}

// ---- units ----

/// What gimli reads of a unit before its entries.
#[derive(Clone, Copy, PartialEq, Eq, Structural)]
pub struct UnitHead {
    pub version: u16,
    pub address_size: u8,
    /// Whether the unit is in the 64-bit format.
    pub wide: bool,
    /// Where the root entry stands.
    pub root: usize,
    /// Where its table of lists of locations begins.
    pub locations_base: usize,
    /// Where its table of lists of ranges begins.
    pub ranges_base: usize,
}

/// The offsets of the units that gimli finds in a `.debug_info` section; nothing in place of an
/// offset where a header cannot be read.
pub uninterp spec fn gimli_units(info: Seq<u8>) -> Seq<Option<usize>>;

/// A list of results with the errors left out.
pub open spec fn known<T>(list: Seq<Result<T, Error>>) -> Seq<Option<T>> {
    list.map_values(|r: Result<T, Error>| r.ok())
}

/// gimli's `DebugInfo::units`: the offset of each unit's header in the section, in order. A header
/// that cannot be read gives an error, and the list ends with it.
#[verifier::external_body]
pub(crate) fn unit_offsets(info: &[u8]) -> (r: Vec<Result<usize, Error>>)
    ensures
        known(r@) == gimli_units(info@),
{
    DebugInfo::new(info, LittleEndian).units().map(|h| h.map(|h| h.offset().0)).collect()
}

/// What gimli reads of the unit at an offset of the section `.debug_info`.
pub uninterp spec fn gimli_unit_head(sections: Map<Text, Seq<u8>>, unit: usize) -> Option<UnitHead>;

/// gimli's `Dwarf::unit_header` and `Dwarf::unit`: the header of the unit at `unit`, and the bases that
/// its root entry names.
#[verifier::external_body]
pub(crate) fn unit_head(sections: &Sections, unit: usize) -> (r: Result<UnitHead, Error>)
    ensures
        r.ok() == gimli_unit_head(sections@, unit),
{
    let dwarf = Dwarf::load(|id| Ok::<_, Error>(EndianSlice::new(sections.bytes(id.name()), LittleEndian)))?;
    let unit = dwarf.unit(dwarf.unit_header(DebugInfoOffset(unit))?)?;
    Ok(UnitHead {
        version: unit.header.version(),
        address_size: unit.header.address_size(),
        wide: unit.header.format() == Format::Dwarf64,
        root: unit.header.root_offset().0,
        locations_base: unit.loclists_base.0,
        ranges_base: unit.rnglists_base.0,
    })
}

// ---- entries ----

/// What gimli finds at an offset among the entries of a unit.
pub uninterp spec fn gimli_shape(sections: Map<Text, Seq<u8>>, unit: usize, off: usize) -> Option<Shape>;

/// gimli's `EntriesRaw::read_entry`, at the offset `off` of the unit at `unit`: whether an entry
/// stands there or the end of a list of children, its tag, whether it has children, where what follows
/// begins, and whether nothing follows. What follows lies beyond `off`, and no unit reaches beyond the
/// section that holds it.
#[verifier::external_body]
pub(crate) fn entry_shape(sections: &Sections, unit: usize, off: usize) -> (r: Result<Shape, Error>)
    ensures
        r.ok() == gimli_shape(sections@, unit, off),
        r matches Ok(s) ==> off < s.next <= sections@[".debug_info"@].len(),
{
    let head = DebugInfo::new(sections.bytes(".debug_info"), LittleEndian).header_from_offset(DebugInfoOffset(unit))?;
    let forms = head.abbreviations(&DebugAbbrev::new(sections.bytes(".debug_abbrev"), LittleEndian))?;
    let mut raw = head.entries_raw(&forms, Some(UnitOffset(off)))?;
    let mut entry = DebuggingInformationEntry::null();
    let present = raw.read_entry(&mut entry)?;
    let next = raw.next_offset().0;
    Ok(Shape { present, tag: entry.tag().0, has_children: entry.has_children(), next, last: raw.is_empty() })
}

/// The value that gimli gives for an attribute of the entry at an offset.
pub uninterp spec fn gimli_attr_value(
    sections: Map<Text, Seq<u8>>,
    unit: usize,
    off: usize,
    at: u16,
) -> Option<Option<AttrValue>>;

/// gimli's `DebuggingInformationEntry::attr_value`: the value of the first attribute `at` of each entry
/// at one of the offsets `offs`, where it has one. A number of fixed size is what `udata_value` makes of
/// it, or, where it is negative, `sdata_value`. Values that are not told apart here are all `Other`.
#[verifier::external_body]
pub(crate) fn attr_values(sections: &Sections, unit: usize, offs: &Vec<usize>, at: u16) -> (r: Result<
    Vec<Result<Option<AttrValue>, Error>>,
    Error,
>)
    ensures
        match r {
            Ok(list) => list@.len() == offs@.len() && forall|i: int|
                0 <= i < offs@.len() ==> (#[trigger] list@[i]).ok() == gimli_attr_value(sections@, unit, offs@[i], at),
            Err(_) => forall|i: int|
                0 <= i < offs@.len() ==> gimli_attr_value(sections@, unit, #[trigger] offs@[i], at) is None,
        },
{
    let head = DebugInfo::new(sections.bytes(".debug_info"), LittleEndian).header_from_offset(DebugInfoOffset(unit))?;
    let forms = head.abbreviations(&DebugAbbrev::new(sections.bytes(".debug_abbrev"), LittleEndian))?;
    Ok(offs.iter().map(|off| Ok(head.entry(&forms, UnitOffset(*off))?.attr_value(DwAt(at)).map(|v| match v {
        AttributeValue::Udata(n) => AttrValue::Udata(n),
        AttributeValue::Encoding(e) => AttrValue::Encoding(e.0),
        AttributeValue::UnitRef(o) => AttrValue::UnitRef(o.0),
        AttributeValue::Exprloc(_) => AttrValue::Exprloc,
        v => v.udata_value().map(AttrValue::Data).or(v.sdata_value().map(AttrValue::Sdata)).unwrap_or(AttrValue::Other),
    }))).collect())
}

/// The string that gimli finds for an attribute of the entry at an offset.
pub uninterp spec fn gimli_attr_text(
    sections: Map<Text, Seq<u8>>,
    unit: usize,
    off: usize,
    at: u16,
) -> Option<Option<Text>>;

/// A string that was found, by its view; nothing where there was an error.
pub open spec fn text_found(t: Result<Option<String>, Error>) -> Option<Option<Text>> {
    match t {
        Ok(t) => Some(opt_text(t)),
        Err(_) => None,
    }
}

/// gimli's `Dwarf::attr_string`: the string of the first attribute `at` of each entry at one of the
/// offsets `offs`. None where the entry has no such attribute or gimli finds no string by it. Bytes that
/// are not UTF-8 are replaced.
#[verifier::external_body]
pub(crate) fn attr_texts(sections: &Sections, unit: usize, offs: &Vec<usize>, at: u16) -> (r: Result<
    Vec<Result<Option<String>, Error>>,
    Error,
>)
    ensures
        match r {
            Ok(list) => list@.len() == offs@.len() && forall|i: int|
                0 <= i < offs@.len() ==> text_found(#[trigger] list@[i]) == gimli_attr_text(
                    sections@,
                    unit,
                    offs@[i],
                    at,
                ),
            Err(_) => forall|i: int|
                0 <= i < offs@.len() ==> gimli_attr_text(sections@, unit, #[trigger] offs@[i], at) is None,
        },
{
    let dwarf = Dwarf::load(|id| Ok::<_, Error>(EndianSlice::new(sections.bytes(id.name()), LittleEndian)))?;
    let unit = dwarf.unit(dwarf.unit_header(DebugInfoOffset(unit))?)?;
    Ok(offs.iter().map(|off| {
        let value = unit.entry(UnitOffset(*off))?.attr_value(DwAt(at));
        Ok(value.and_then(|v| dwarf.attr_string(&unit, v).ok()).map(|s| s.to_string_lossy().into_owned()))
    }).collect())
}

/// The address that gimli finds for an attribute of the entry at an offset.
pub uninterp spec fn gimli_attr_address(
    sections: Map<Text, Seq<u8>>,
    unit: usize,
    off: usize,
    at: u16,
) -> Option<Option<u64>>;

/// gimli's `Dwarf::attr_address`: the address of the first attribute `at` of each entry at one of the
/// offsets `offs`. None where the entry has no such attribute, or it is not an address.
#[verifier::external_body]
pub(crate) fn attr_addresses(sections: &Sections, unit: usize, offs: &Vec<usize>, at: u16) -> (r: Result<
    Vec<Result<Option<u64>, Error>>,
    Error,
>)
    ensures
        match r {
            Ok(list) => list@.len() == offs@.len() && forall|i: int|
                0 <= i < offs@.len() ==> (#[trigger] list@[i]).ok() == gimli_attr_address(
                    sections@,
                    unit,
                    offs@[i],
                    at,
                ),
            Err(_) => forall|i: int|
                0 <= i < offs@.len() ==> gimli_attr_address(sections@, unit, #[trigger] offs@[i], at) is None,
        },
{
    let dwarf = Dwarf::load(|id| Ok::<_, Error>(EndianSlice::new(sections.bytes(id.name()), LittleEndian)))?;
    let unit = dwarf.unit(dwarf.unit_header(DebugInfoOffset(unit))?)?;
    Ok(offs.iter().map(|off| {
        let value = unit.entry(UnitOffset(*off))?.attr_value(DwAt(at));
        value.map(|v| dwarf.attr_address(&unit, v)).transpose().map(|a| a.flatten())
    }).collect())
}

/// The bytes of the location expression that an attribute of the entry at an offset holds.
pub uninterp spec fn gimli_attr_expr(
    sections: Map<Text, Seq<u8>>,
    unit: usize,
    off: usize,
    at: u16,
) -> Option<Option<Seq<u8>>>;

/// Bytes that were found, by their view; nothing where there was an error.
pub open spec fn bytes_found(e: Result<Option<Vec<u8>>, Error>) -> Option<Option<Seq<u8>>> {
    match e {
        Ok(Some(bytes)) => Some(Some(bytes@)),
        Ok(None) => Some(None),
        Err(_) => None,
    }
}

/// gimli's `DebuggingInformationEntry::attr_value`, where the value is a location expression: the
/// bytes of the expression, for each entry at one of the offsets `offs`. None for any other value.
#[verifier::external_body]
pub(crate) fn attr_exprs(sections: &Sections, unit: usize, offs: &Vec<usize>, at: u16) -> (r: Result<
    Vec<Result<Option<Vec<u8>>, Error>>,
    Error,
>)
    ensures
        match r {
            Ok(list) => list@.len() == offs@.len() && forall|i: int|
                0 <= i < offs@.len() ==> bytes_found(#[trigger] list@[i]) == gimli_attr_expr(
                    sections@,
                    unit,
                    offs@[i],
                    at,
                ),
            Err(_) => forall|i: int|
                0 <= i < offs@.len() ==> gimli_attr_expr(sections@, unit, #[trigger] offs@[i], at) is None,
        },
{
    let head = DebugInfo::new(sections.bytes(".debug_info"), LittleEndian).header_from_offset(DebugInfoOffset(unit))?;
    let forms = head.abbreviations(&DebugAbbrev::new(sections.bytes(".debug_abbrev"), LittleEndian))?;
    Ok(offs.iter().map(|off| Ok(match head.entry(&forms, UnitOffset(*off))?.attr_value(DwAt(at)) {
        Some(AttributeValue::Exprloc(e)) => Some(e.0.slice().to_vec()),
        _ => None,
    })).collect())
}

/// The operations that gimli reads in a location expression; nothing in place of one that it cannot
/// read.
pub uninterp spec fn gimli_ops(expr: Seq<u8>, version: u16, address_size: u8, wide: bool) -> Seq<Option<DwarfOp>>;

/// gimli's `Expression::operations`: the operations of an expression, in order. Operations that are
/// not told apart here are all `Other`. One that cannot be read gives an error, and the list ends.
#[verifier::external_body]
pub(crate) fn operations(expr: &Vec<u8>, version: u16, address_size: u8, wide: bool) -> (r: Vec<
    Result<DwarfOp, Error>,
>)
    ensures
        readable(r@) == gimli_ops(expr@, version, address_size, wide),
{
    let format = if wide { Format::Dwarf64 } else { Format::Dwarf32 };
    let expression = Expression(EndianSlice::new(expr.as_slice(), LittleEndian));
    expression.operations(Encoding { address_size, format, version }).map(|op| op.map(|op| match op {
        Operation::Register { register } => DwarfOp::Register(register.0),
        Operation::RegisterOffset { register, offset, .. } => DwarfOp::RegisterOffset(register.0, offset),
        Operation::Piece { .. } => DwarfOp::Piece,
        Operation::Address { address } => DwarfOp::Address(address),
        Operation::AddressIndex { index } => DwarfOp::AddressIndex(index.0),
        _ => DwarfOp::Other,
    })).collect()
}

/// A location as gimli gives it: a range of addresses and the bytes of an expression.
pub struct RawLocation {
    pub begin: u64,
    pub end: u64,
    pub expr: Vec<u8>,
}

#[verifier::ext_equal]
pub struct RawLocationV {
    pub begin: u64,
    pub end: u64,
    pub expr: Seq<u8>,
}

impl View for RawLocation {
    type V = RawLocationV;

    open spec fn view(&self) -> RawLocationV {
        RawLocationV { begin: self.begin, end: self.end, expr: self.expr@ }
    }
}

/// A list of locations, each by its view, or nothing where it could not be read.
pub open spec fn known_locations(list: Seq<Result<RawLocation, Error>>) -> Seq<Option<RawLocationV>> {
    list.map_values(
        |l: Result<RawLocation, Error>|
            match l {
                Ok(l) => Some(l@),
                Err(_) => None,
            },
    )
}

/// The value of an attribute, as far as it bears on where something lies.
#[derive(Clone, Copy, PartialEq, Eq, Structural)]
pub enum PlaceValue {
    Address(u64),
    /// An address, by an index into the unit's address table.
    AddressIndex(usize),
    Size(u64),
    /// A list of ranges, by its offset.
    Ranges,
    /// A list of ranges, by an index into a table of them.
    RangesIndex(usize),
    /// A list of locations, by an index into a table of them.
    LocationsIndex(usize),
    Other,
}

/// An attribute, as far as it bears on where something lies.
#[derive(Clone, Copy, PartialEq, Eq, Structural)]
pub struct PlaceAttr {
    pub at: u16,
    pub value: PlaceValue,
}

/// The attributes that gimli finds in the entry at an offset.
pub uninterp spec fn gimli_attrs(sections: Map<Text, Seq<u8>>, unit: usize, off: usize) -> Option<Seq<PlaceAttr>>;

/// gimli's `DebuggingInformationEntry::attrs`: the attributes of the entry at `off`, in order. Values
/// that are not told apart here are all `Other`.
#[verifier::external_body]
pub(crate) fn attrs(sections: &Sections, unit: usize, off: usize) -> (r: Result<Vec<PlaceAttr>, Error>)
    ensures
        (match r {
            Ok(list) => Some(list@),
            Err(_) => None,
        }) == gimli_attrs(sections@, unit, off),
{
    let head = DebugInfo::new(sections.bytes(".debug_info"), LittleEndian).header_from_offset(DebugInfoOffset(unit))?;
    let forms = head.abbreviations(&DebugAbbrev::new(sections.bytes(".debug_abbrev"), LittleEndian))?;
    Ok(head.entry(&forms, UnitOffset(off))?.attrs().iter().map(|a| PlaceAttr { at: a.name().0, value: match a.value() {
        AttributeValue::Addr(a) => PlaceValue::Address(a),
        AttributeValue::DebugAddrIndex(i) => PlaceValue::AddressIndex(i.0),
        AttributeValue::Udata(n) => PlaceValue::Size(n),
        AttributeValue::RangeListsRef(_) => PlaceValue::Ranges,
        AttributeValue::DebugRngListsIndex(i) => PlaceValue::RangesIndex(i.0),
        AttributeValue::DebugLocListsIndex(i) => PlaceValue::LocationsIndex(i.0),
        _ => PlaceValue::Other,
    } }).collect())
}

/// The value of the first attribute `at` among `attrs`, as far as it bears on where something lies.
pub open spec fn first_value(attrs: Seq<PlaceAttr>, at: u16) -> Option<PlaceValue>
    decreases attrs.len(),
{
    if attrs.len() == 0 {
        None
    } else if attrs[0].at == at {
        Some(attrs[0].value)
    } else {
        first_value(attrs.drop_first(), at)
    }
}

/// What the table of lists that begins at `base` holds at an index: an offset of the width of the
/// unit's format. Nothing where the table ends before it.
pub open spec fn list_entry(table: Seq<u8>, base: usize, index: usize, wide: bool) -> Option<usize> {
    let width = if wide {
        8int
    } else {
        4int
    };
    let at = base + index * width;
    if at + width <= table.len() {
        let held = le_word(
            Seq::new(
                8,
                |k: int|
                    if k < width {
                        table[at + k]
                    } else {
                        0u8
                    },
            ),
        );
        if held <= usize::MAX {
            Some(held as usize)
        } else {
            None
        }
    } else {
        None
    }
}

/// Where the list at an index of such a table begins, if that lies beyond what an offset can hold: the
/// sum of the base and the entry, as it wraps around.
pub open spec fn wrapped_list(table: Seq<u8>, base: usize, index: usize, wide: bool) -> Option<usize> {
    match list_entry(table, base, index, wide) {
        Some(x) => if base + x > usize::MAX {
            Some(base.wrapping_add(x))
        } else {
            None
        },
        None => None,
    }
}

/// Where the list of locations begins that the attribute `at` leads to by an index, if its offset
/// overflows.
pub open spec fn locations_wrapped(
    sections: Map<Text, Seq<u8>>,
    head: UnitHead,
    attrs: Seq<PlaceAttr>,
    at: u16,
) -> Option<usize> {
    match first_value(attrs, at) {
        Some(PlaceValue::LocationsIndex(i)) => wrapped_list(
            sections[".debug_loclists"@],
            head.locations_base,
            i,
            head.wide,
        ),
        _ => None,
    }
}

/// The locations that gimli finds by an attribute of the entry at an offset.
pub uninterp spec fn gimli_attr_locations(
    sections: Map<Text, Seq<u8>>,
    unit: usize,
    off: usize,
    at: u16,
) -> Option<Option<Seq<Option<RawLocationV>>>>;

/// gimli's `Dwarf::attr_locations`: the list of locations that the first attribute `at` of the entry
/// at `off` leads to. None where the entry has no such attribute, or it leads to no list. Left out is the
/// index of a list whose offset overflows: gimli adds the base of the lists to what the table holds
/// without regard to that.
#[verifier::external_body]
pub(crate) fn attr_locations(sections: &Sections, unit: usize, off: usize, at: u16) -> (r: Result<
    Option<Vec<Result<RawLocation, Error>>>,
    Error,
>)
    requires
        gimli_unit_head(sections@, unit) matches Some(h) && gimli_attrs(sections@, unit, off) matches Some(attrs)
            && locations_wrapped(sections@, h, attrs, at) is None,
    ensures
        (match r {
            Ok(Some(list)) => Some(Some(known_locations(list@))),
            Ok(None) => Some(None),
            Err(_) => None,
        }) == gimli_attr_locations(sections@, unit, off, at),
{
    let dwarf = Dwarf::load(|id| Ok::<_, Error>(EndianSlice::new(sections.bytes(id.name()), LittleEndian)))?;
    let unit = dwarf.unit(dwarf.unit_header(DebugInfoOffset(unit))?)?;
    let value = unit.entry(UnitOffset(off))?.attr_value(DwAt(at));
    let list = value.map(|v| dwarf.attr_locations(&unit, v)).transpose()?.flatten();
    Ok(list.map(|l| l.map(|e| e.map(|e| {
        RawLocation { begin: e.range.begin, end: e.range.end, expr: e.data.0.slice().to_vec() }
    })).collect()))
}

/// The list of locations that gimli finds at an offset.
pub uninterp spec fn gimli_locations(
    sections: Map<Text, Seq<u8>>,
    unit: usize,
    offset: usize,
) -> Option<Seq<Option<RawLocationV>>>;

/// gimli's `Dwarf::locations`: the list of locations at an offset of the section that holds those of the
/// unit.
#[verifier::external_body]
pub(crate) fn locations_at(sections: &Sections, unit: usize, offset: usize) -> (r: Result<
    Vec<Result<RawLocation, Error>>,
    Error,
>)
    ensures
        (match r {
            Ok(list) => Some(known_locations(list@)),
            Err(_) => None,
        }) == gimli_locations(sections@, unit, offset),
{
    let dwarf = Dwarf::load(|id| Ok::<_, Error>(EndianSlice::new(sections.bytes(id.name()), LittleEndian)))?;
    let unit = dwarf.unit(dwarf.unit_header(DebugInfoOffset(unit))?)?;
    Ok(dwarf.locations(&unit, LocationListsOffset(offset))?.map(|e| e.map(|e| {
        RawLocation { begin: e.range.begin, end: e.range.end, expr: e.data.0.slice().to_vec() }
    })).collect())
}

/// The next entry with the same parent that gimli finds.
pub uninterp spec fn gimli_sibling(sections: Map<Text, Seq<u8>>, unit: usize, off: usize) -> Option<Option<usize>>;

/// gimli's `EntriesCursor::next_sibling`, from each entry at one of the offsets `offs`: the offset of the
/// next entry with the same parent. It lies beyond where it was looked for from, within the section.
#[verifier::external_body]
pub(crate) fn next_siblings(sections: &Sections, unit: usize, offs: &Vec<usize>) -> (r: Result<
    Vec<Result<Option<usize>, Error>>,
    Error,
>)
    ensures
        match r {
            Ok(list) => list@.len() == offs@.len() && forall|i: int|
                0 <= i < offs@.len() ==> {
                    &&& (#[trigger] list@[i]).ok() == gimli_sibling(sections@, unit, offs@[i])
                    &&& list@[i] matches Ok(Some(s)) ==> offs@[i] < s <= sections@[".debug_info"@].len()
                },
            Err(_) => forall|i: int|
                0 <= i < offs@.len() ==> gimli_sibling(sections@, unit, #[trigger] offs@[i]) is None,
        },
{
    let head = DebugInfo::new(sections.bytes(".debug_info"), LittleEndian).header_from_offset(DebugInfoOffset(unit))?;
    let forms = head.abbreviations(&DebugAbbrev::new(sections.bytes(".debug_abbrev"), LittleEndian))?;
    Ok(offs.iter().map(|off| {
        let mut cursor = head.entries_at_offset(&forms, UnitOffset(*off))?;
        cursor.next_entry()?;
        Ok(cursor.next_sibling()?.map(|e| e.offset().0))
    }).collect())
}

/// The address that gimli finds at an index of a unit's address table.
pub uninterp spec fn gimli_table_address(sections: Map<Text, Seq<u8>>, unit: usize, index: usize) -> Option<u64>;

/// gimli's `Dwarf::address`: the address at `index` in the address table of the unit at `unit`.
#[verifier::external_body]
pub(crate) fn indexed_address(sections: &Sections, unit: usize, index: usize) -> (r: Result<u64, Error>)
    ensures
        r.ok() == gimli_table_address(sections@, unit, index),
{
    let dwarf = Dwarf::load(|id| Ok::<_, Error>(EndianSlice::new(sections.bytes(id.name()), LittleEndian)))?;
    let unit = dwarf.unit(dwarf.unit_header(DebugInfoOffset(unit))?)?;
    dwarf.address(&unit, DebugAddrIndex(index))
}

/// An address that an attribute holds or leads to.
pub open spec fn address_in(sections: Map<Text, Seq<u8>>, unit: usize, value: PlaceValue) -> Option<u64> {
    match value {
        PlaceValue::Address(a) => Some(a),
        PlaceValue::AddressIndex(i) => gimli_table_address(sections, unit, i),
        _ => None,
    }
}

/// Whether a sum overflows on the way to the address ranges of an entry.
#[derive(Clone, Copy, PartialEq, Eq, Structural)]
pub enum Overflow {
    Fits,
    /// The offset of the entry's list of ranges overflows: where it wraps around to.
    ListAt(usize),
    /// The end of the entry's one range overflows: where the range begins.
    EndFrom(u64),
}

/// Whether a sum overflows on the way to the address ranges of an entry, by its attributes in order: the
/// first list of ranges counts, or else the last lowest address and the last size. What cannot be read
/// ends the way.
pub open spec fn range_overflow(
    sections: Map<Text, Seq<u8>>,
    unit: usize,
    head: UnitHead,
    attrs: Seq<PlaceAttr>,
    low: Option<u64>,
    size: Option<u64>,
) -> Overflow
    decreases attrs.len(),
{
    if attrs.len() == 0 {
        match (low, size) {
            (Some(a), Some(n)) => if a + n > u64::MAX {
                Overflow::EndFrom(a)
            } else {
                Overflow::Fits
            },
            _ => Overflow::Fits,
        }
    } else {
        let rest = attrs.drop_first();
        let value = attrs[0].value;
        if attrs[0].at == AT_LOW_PC {
            match address_in(sections, unit, value) {
                Some(a) => range_overflow(sections, unit, head, rest, Some(a), size),
                None => Overflow::Fits,
            }
        } else if attrs[0].at == AT_HIGH_PC {
            match (value, address_in(sections, unit, value)) {
                (PlaceValue::Size(n), _) => range_overflow(sections, unit, head, rest, low, Some(n)),
                (_, Some(_)) => range_overflow(sections, unit, head, rest, low, size),
                (_, None) => Overflow::Fits,
            }
        } else if attrs[0].at == AT_RANGES {
            match value {
                PlaceValue::Ranges => Overflow::Fits,
                PlaceValue::RangesIndex(i) => match wrapped_list(
                    sections[".debug_rnglists"@],
                    head.ranges_base,
                    i,
                    head.wide,
                ) {
                    Some(offset) => Overflow::ListAt(offset),
                    None => Overflow::Fits,
                },
                _ => range_overflow(sections, unit, head, rest, low, size),
            }
        } else {
            range_overflow(sections, unit, head, rest, low, size)
        }
    }
}

/// Where gimli finds the first address range of the entry at an offset to begin.
pub uninterp spec fn gimli_range_start(sections: Map<Text, Seq<u8>>, unit: usize, off: usize) -> Option<Option<u64>>;

/// gimli's `Dwarf::die_ranges`: where the first of the entry's address ranges begins. Left out are
/// entries on which a sum of gimli's overflows.
#[verifier::external_body]
pub(crate) fn first_range_start(sections: &Sections, unit: usize, off: usize) -> (r: Result<
    Option<u64>,
    Error,
>)
    requires
        gimli_unit_head(sections@, unit) matches Some(h) && gimli_attrs(sections@, unit, off) matches Some(attrs)
            && range_overflow(sections@, unit, h, attrs, None, None) == Overflow::Fits,
    ensures
        r.ok() == gimli_range_start(sections@, unit, off),
{
    let dwarf = Dwarf::load(|id| Ok::<_, Error>(EndianSlice::new(sections.bytes(id.name()), LittleEndian)))?;
    let unit = dwarf.unit(dwarf.unit_header(DebugInfoOffset(unit))?)?;
    Ok(dwarf.die_ranges(&unit, &unit.entry(UnitOffset(off))?)?.next()?.map(|r| r.begin))
}

/// Where the first range of the list that gimli finds at an offset begins.
pub uninterp spec fn gimli_list_start(sections: Map<Text, Seq<u8>>, unit: usize, offset: usize) -> Option<Option<u64>>;

/// gimli's `Dwarf::ranges`: where the first range begins of the list at an offset of the section that
/// holds those of the unit.
#[verifier::external_body]
pub(crate) fn list_start(sections: &Sections, unit: usize, offset: usize) -> (r: Result<Option<u64>, Error>)
    ensures
        r.ok() == gimli_list_start(sections@, unit, offset),
{
    let dwarf = Dwarf::load(|id| Ok::<_, Error>(EndianSlice::new(sections.bytes(id.name()), LittleEndian)))?;
    let unit = dwarf.unit(dwarf.unit_header(DebugInfoOffset(unit))?)?;
    Ok(dwarf.ranges(&unit, RangeListsOffset(offset))?.next()?.map(|r| r.begin))
}

} // verus!
