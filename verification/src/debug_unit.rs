//! What a unit of debug information says: its entries, and what can be asked of each.

use vstd::prelude::*;

use crate::location::DwarfOp;
use crate::text::Text;

verus! {

// ---- tags and attributes, by their numbers in debug information ----

pub const TAG_ENUMERATION: u16 = 0x04;
pub const TAG_PARAMETER: u16 = 0x05;
pub const TAG_MEMBER: u16 = 0x0d;
pub const TAG_POINTER: u16 = 0x0f;
pub const TAG_STRUCTURE: u16 = 0x13;
pub const TAG_UNION: u16 = 0x17;
pub const TAG_INLINED: u16 = 0x1d;
pub const TAG_BASE: u16 = 0x24;
pub const TAG_SUBPROGRAM: u16 = 0x2e;
pub const TAG_VARIABLE: u16 = 0x34;
pub const TAG_NAMESPACE: u16 = 0x39;

pub const AT_LOCATION: u16 = 0x02;
pub const AT_NAME: u16 = 0x03;
pub const AT_BYTE_SIZE: u16 = 0x0b;
pub const AT_LOW_PC: u16 = 0x11;
pub const AT_HIGH_PC: u16 = 0x12;
pub const AT_ABSTRACT_ORIGIN: u16 = 0x31;
pub const AT_MEMBER_LOCATION: u16 = 0x38;
pub const AT_DECLARATION: u16 = 0x3c;
pub const AT_ENCODING: u16 = 0x3e;
pub const AT_SPECIFICATION: u16 = 0x47;
pub const AT_TYPE: u16 = 0x49;
pub const AT_RANGES: u16 = 0x55;
pub const AT_LINKAGE_NAME: u16 = 0x6e;
pub const AT_ALIGNMENT: u16 = 0x88;

// ---- faults ----

/// gimli's error type: why a piece of debug information could not be read.
#[verifier::external_type_specification]
#[verifier::external_body]
pub struct ExGimliError(gimli::Error);

/// Why debug information was refused.
pub enum DwarfError {
    /// gimli could not read it.
    Unreadable(gimli::Error),
    /// There is no entry at an offset that should lead to one.
    NoEntry(usize),
}

/// Why debug information was refused, in kind.
#[derive(Clone, Copy, PartialEq, Eq, Structural)]
pub enum Fault {
    Unreadable,
    NoEntry,
}

/// The kind of an error.
pub open spec fn fault(e: DwarfError) -> Fault {
    match e {
        DwarfError::Unreadable(_) => Fault::Unreadable,
        DwarfError::NoEntry(_) => Fault::NoEntry,
    }
}

/// A result with its error taken in kind.
pub open spec fn outcome<T>(r: Result<T, DwarfError>) -> Result<T, Fault> {
    match r {
        Ok(t) => Ok(t),
        Err(e) => Err(fault(e)),
    }
}

/// A result that may hold a string, with the string by its view and the error in kind.
pub open spec fn text_outcome(r: Result<Option<String>, DwarfError>) -> Result<Option<Text>, Fault> {
    match r {
        Ok(t) => Ok(crate::text::opt_text(t)),
        Err(e) => Err(fault(e)),
    }
}

// ---- what is in an entry ----

/// What stands at an offset among the entries of a unit.
#[derive(Clone, Copy, PartialEq, Eq, Structural)]
pub struct Shape {
    /// Whether it is an entry, and not the mark at the end of a list of children.
    pub present: bool,
    pub tag: u16,
    pub has_children: bool,
    /// Where the next one stands, unless this is the last of the unit.
    pub next: usize,
    pub last: bool,
}

/// The value of an attribute, as far as it is told apart here.
#[derive(Clone, Copy, PartialEq, Eq, Structural)]
pub enum AttrValue {
    /// A number of variable size.
    Udata(u64),
    /// A number of fixed size.
    Data(u64),
    /// A signed number.
    Sdata(i64),
    Encoding(u8),
    /// An entry of the same unit, by its offset.
    UnitRef(usize),
    /// A location expression.
    Exprloc,
    Other,
}

/// A place where a value lies while the program is in a range of addresses.
pub struct Location {
    pub begin: u64,
    pub end: u64,
    pub ops: Vec<Result<DwarfOp, gimli::Error>>,
}

#[verifier::ext_equal]
pub struct LocationV {
    pub begin: u64,
    pub end: u64,
    pub ops: Seq<Option<DwarfOp>>,
}

impl View for Location {
    type V = LocationV;

    open spec fn view(&self) -> LocationV {
        LocationV { begin: self.begin, end: self.end, ops: crate::location::readable(self.ops@) }
    }
}

/// A list of locations, each by its view, or nothing where it could not be read.
pub open spec fn readable_locations(list: Seq<Result<Location, gimli::Error>>) -> Seq<Option<LocationV>> {
    list.map_values(
        |l: Result<Location, gimli::Error>|
            match l {
                Ok(l) => Some(l@),
                Err(_) => None,
            },
    )
}

/// What a unit of debug information says, whoever reads it: a function for each thing that can be
/// asked of it.
pub struct UnitModel {
    pub bound: int,
    pub shapes: spec_fn(usize) -> Result<Shape, Fault>,
    pub values: spec_fn(usize, u16) -> Result<Option<AttrValue>, Fault>,
    pub texts: spec_fn(usize, u16) -> Result<Option<Text>, Fault>,
    pub addresses: spec_fn(usize, u16) -> Result<Option<u64>, Fault>,
    pub expressions: spec_fn(usize, u16) -> Result<Seq<Option<DwarfOp>>, Fault>,
    pub location_lists: spec_fn(usize, u16) -> Result<Option<Seq<Option<LocationV>>>, Fault>,
    pub siblings: spec_fn(usize) -> Result<Option<usize>, Fault>,
    pub range_starts: spec_fn(usize) -> Result<Option<u64>, Fault>,
    pub address_table: spec_fn(usize) -> Result<u64, Fault>,
}

impl UnitModel {
    /// No entry ends beyond this offset.
    pub open spec fn limit(self) -> int {
        self.bound
    }

    /// What stands at an offset.
    pub open spec fn shape_at(self, off: usize) -> Result<Shape, Fault> {
        (self.shapes)(off)
    }

    /// The value of an attribute of an entry, where it has the attribute.
    pub open spec fn value_at(self, off: usize, at: u16) -> Result<Option<AttrValue>, Fault> {
        (self.values)(off, at)
    }

    /// The string of an attribute, where the entry has the attribute and it leads to a string.
    pub open spec fn text_at(self, off: usize, at: u16) -> Result<Option<Text>, Fault> {
        (self.texts)(off, at)
    }

    /// The address of an attribute, where the entry has the attribute and it is one.
    pub open spec fn address_at(self, off: usize, at: u16) -> Result<Option<u64>, Fault> {
        (self.addresses)(off, at)
    }

    /// The operations of an attribute that is a location expression; none for any other.
    pub open spec fn ops_at(self, off: usize, at: u16) -> Result<Seq<Option<DwarfOp>>, Fault> {
        (self.expressions)(off, at)
    }

    /// The locations of an attribute that leads to a list of them.
    pub open spec fn locations_at(self, off: usize, at: u16) -> Result<Option<Seq<Option<LocationV>>>, Fault> {
        (self.location_lists)(off, at)
    }

    /// The next entry with the same parent.
    pub open spec fn sibling_of(self, off: usize) -> Result<Option<usize>, Fault> {
        (self.siblings)(off)
    }

    /// Where the first of an entry's address ranges begins.
    pub open spec fn range_start_of(self, off: usize) -> Result<Option<u64>, Fault> {
        (self.range_starts)(off)
    }

    /// An address of the unit's address table.
    pub open spec fn table_address_of(self, index: usize) -> Result<u64, Fault> {
        (self.address_table)(index)
    }
}

/// A unit of debug information: entries at offsets, and what can be asked of each.
pub trait DebugUnit: Sized {
    /// What the unit says.
    spec fn model(&self) -> UnitModel;

    /// What stands at an offset.
    fn shape(&self, off: usize) -> (r: Result<Shape, DwarfError>)
        ensures
            outcome(r) == self.model().shape_at(off),
            r matches Ok(s) ==> off < s.next <= self.model().limit(),
    ;

    /// The value of an attribute.
    fn value(&self, off: usize, at: u16) -> (r: Result<Option<AttrValue>, DwarfError>)
        ensures
            outcome(r) == self.model().value_at(off, at),
    ;

    /// The string of an attribute.
    fn text(&self, off: usize, at: u16) -> (r: Result<Option<String>, DwarfError>)
        ensures
            text_outcome(r) == self.model().text_at(off, at),
    ;

    /// The address of an attribute.
    fn address(&self, off: usize, at: u16) -> (r: Result<Option<u64>, DwarfError>)
        ensures
            outcome(r) == self.model().address_at(off, at),
    ;

    /// The operations of an attribute that is a location expression.
    fn ops(&self, off: usize, at: u16) -> (r: Result<Vec<Result<DwarfOp, gimli::Error>>, DwarfError>)
        ensures
            match r {
                Ok(ops) => self.model().ops_at(off, at) == Ok::<Seq<Option<DwarfOp>>, Fault>(
                    crate::location::readable(ops@),
                ),
                Err(e) => self.model().ops_at(off, at) == Err::<Seq<Option<DwarfOp>>, Fault>(fault(e)),
            },
    ;

    /// The locations of an attribute that leads to a list of them.
    fn locations(&self, off: usize, at: u16) -> (r: Result<
        Option<Vec<Result<Location, gimli::Error>>>,
        DwarfError,
    >)
        ensures
            match r {
                Ok(Some(list)) => self.model().locations_at(off, at) == Ok::<Option<Seq<Option<LocationV>>>, Fault>(
                    Some(readable_locations(list@)),
                ),
                Ok(None) => self.model().locations_at(off, at) == Ok::<Option<Seq<Option<LocationV>>>, Fault>(None),
                Err(e) => self.model().locations_at(off, at) == Err::<Option<Seq<Option<LocationV>>>, Fault>(
                    fault(e),
                ),
            },
    ;

    /// The next entry with the same parent.
    fn sibling(&self, off: usize) -> (r: Result<Option<usize>, DwarfError>)
        ensures
            outcome(r) == self.model().sibling_of(off),
            r matches Ok(Some(s)) ==> off < s <= self.model().limit(),
    ;

    /// Where the first of an entry's address ranges begins.
    fn range_start(&self, off: usize) -> (r: Result<Option<u64>, DwarfError>)
        ensures
            outcome(r) == self.model().range_start_of(off),
    ;

    /// An address of the unit's address table.
    fn table_address(&self, index: usize) -> (r: Result<u64, DwarfError>)
        ensures
            outcome(r) == self.model().table_address_of(index),
    ;
}

} // verus!
