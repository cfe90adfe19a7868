//! A unit of the debug information of a binary. What is asked of its entries is read for all of them
//! at once, when the unit is opened.

use gimli::Error;
use vstd::prelude::*;

use crate::debug_unit::fault;
use crate::debug_unit::outcome;
use crate::debug_unit::readable_locations;
use crate::debug_unit::text_outcome;
use crate::debug_unit::AttrValue;
use crate::debug_unit::DebugUnit;
use crate::debug_unit::DwarfError;
use crate::debug_unit::Fault;
use crate::debug_unit::Location;
use crate::debug_unit::LocationV;
use crate::debug_unit::Shape;
use crate::debug_unit::UnitModel;
use crate::debug_unit::AT_ABSTRACT_ORIGIN;
use crate::debug_unit::AT_ALIGNMENT;
use crate::debug_unit::AT_BYTE_SIZE;
use crate::debug_unit::AT_DECLARATION;
use crate::debug_unit::AT_ENCODING;
use crate::debug_unit::AT_HIGH_PC;
use crate::debug_unit::AT_LINKAGE_NAME;
use crate::debug_unit::AT_LOCATION;
use crate::debug_unit::AT_LOW_PC;
use crate::debug_unit::AT_MEMBER_LOCATION;
use crate::debug_unit::AT_NAME;
use crate::debug_unit::AT_RANGES;
use crate::debug_unit::AT_SPECIFICATION;
use crate::debug_unit::AT_TYPE;
use crate::dwarf_reader::address_in;
use crate::dwarf_reader::attr_addresses;
use crate::dwarf_reader::attr_exprs;
use crate::dwarf_reader::attr_locations;
use crate::dwarf_reader::attr_texts;
use crate::dwarf_reader::attr_values;
use crate::dwarf_reader::attrs;
use crate::dwarf_reader::bytes_found;
use crate::dwarf_reader::entry_shape;
use crate::dwarf_reader::first_range_start;
use crate::dwarf_reader::first_value;
use crate::dwarf_reader::gimli_attr_address;
use crate::dwarf_reader::gimli_attr_expr;
use crate::dwarf_reader::gimli_attr_locations;
use crate::dwarf_reader::gimli_attr_text;
use crate::dwarf_reader::gimli_attr_value;
use crate::dwarf_reader::gimli_attrs;
use crate::dwarf_reader::gimli_list_start;
use crate::dwarf_reader::gimli_locations;
use crate::dwarf_reader::gimli_ops;
use crate::dwarf_reader::gimli_range_start;
use crate::dwarf_reader::gimli_shape;
use crate::dwarf_reader::gimli_sibling;
use crate::dwarf_reader::gimli_table_address;
use crate::dwarf_reader::gimli_unit_head;
use crate::dwarf_reader::indexed_address;
use crate::dwarf_reader::known_locations;
use crate::dwarf_reader::list_entry;
use crate::dwarf_reader::list_start;
use crate::dwarf_reader::locations_at;
use crate::dwarf_reader::locations_wrapped;
use crate::dwarf_reader::next_siblings;
use crate::dwarf_reader::operations;
use crate::dwarf_reader::range_overflow;
use crate::dwarf_reader::text_found;
use crate::dwarf_reader::unit_head;
use crate::dwarf_reader::wrapped_list;
use crate::dwarf_reader::Overflow;
use crate::dwarf_reader::PlaceAttr;
use crate::dwarf_reader::PlaceValue;
use crate::dwarf_reader::RawLocation;
use crate::dwarf_reader::RawLocationV;
use crate::dwarf_reader::Sections;
use crate::dwarf_reader::UnitHead;
use crate::location::readable;
use crate::location::DwarfOp;
use crate::text::clone_opt;
use crate::text::Text;
use crate::words::from_bytes;

verus! {

// ---- what a unit says ----

/// A result of gimli's, or the fault that stands for its error.
pub open spec fn or_unreadable<T>(r: Option<T>) -> Result<T, Fault> {
    match r {
        Some(t) => Ok(t),
        None => Err(Fault::Unreadable),
    }
}

/// A location with its expression read into operations.
pub open spec fn with_ops(l: RawLocationV, head: UnitHead) -> LocationV {
    LocationV {
        begin: l.begin,
        end: l.end,
        ops: gimli_ops(l.expr, head.version, head.address_size, head.wide),
    }
}

/// A list of locations with their expressions read into operations.
pub open spec fn all_with_ops(list: Seq<Option<RawLocationV>>, head: UnitHead) -> Seq<Option<LocationV>> {
    list.map_values(
        |l: Option<RawLocationV>|
            match l {
                Some(l) => Some(with_ops(l, head)),
                None => None,
            },
    )
}

/// What gimli reads in the unit at an offset of the section `.debug_info`, before whose entries it reads
/// `head`.
pub open spec fn binary_model(sections: Map<Text, Seq<u8>>, unit: usize, head: UnitHead) -> UnitModel {
    UnitModel {
        bound: sections[".debug_info"@].len() as int,
        shapes: |off: usize| or_unreadable(gimli_shape(sections, unit, off)),
        values: |off: usize, at: u16| or_unreadable(gimli_attr_value(sections, unit, off, at)),
        texts: |off: usize, at: u16| or_unreadable(gimli_attr_text(sections, unit, off, at)),
        addresses: |off: usize, at: u16| or_unreadable(gimli_attr_address(sections, unit, off, at)),
        expressions: |off: usize, at: u16| expression_ops(gimli_attr_expr(sections, unit, off, at), head),
        location_lists: |off: usize, at: u16| location_list(sections, unit, head, off, at),
        siblings: |off: usize| or_unreadable(gimli_sibling(sections, unit, off)),
        range_starts: |off: usize| range_begins(sections, unit, head, off),
        address_table: |index: usize| or_unreadable(gimli_table_address(sections, unit, index)),
    }
}

/// The operations of a location expression; none where there is no expression.
pub open spec fn expression_ops(expr: Option<Option<Seq<u8>>>, head: UnitHead) -> Result<Seq<Option<DwarfOp>>, Fault> {
    match expr {
        Some(Some(bytes)) => Ok(gimli_ops(bytes, head.version, head.address_size, head.wide)),
        Some(None) => Ok(Seq::empty()),
        None => Err(Fault::Unreadable),
    }
}

/// The list of locations that an attribute leads to. The offset of a list that goes by an index wraps
/// around where it overflows.
pub open spec fn location_list(
    sections: Map<Text, Seq<u8>>,
    unit: usize,
    head: UnitHead,
    off: usize,
    at: u16,
) -> Result<Option<Seq<Option<LocationV>>>, Fault> {
    match gimli_attrs(sections, unit, off) {
        None => Err(Fault::Unreadable),
        Some(attrs) => match locations_wrapped(sections, head, attrs, at) {
            Some(offset) => match gimli_locations(sections, unit, offset) {
                None => Err(Fault::Unreadable),
                Some(list) => Ok(Some(all_with_ops(list, head))),
            },
            None => match gimli_attr_locations(sections, unit, off, at) {
                None => Err(Fault::Unreadable),
                Some(None) => Ok(None),
                Some(Some(list)) => Ok(Some(all_with_ops(list, head))),
            },
        },
    }
}

/// Where the first address range of an entry begins. The offset of a list that goes by an index, and the
/// end of a range, wrap around where they overflow.
pub open spec fn range_begins(sections: Map<Text, Seq<u8>>, unit: usize, head: UnitHead, off: usize) -> Result<
    Option<u64>,
    Fault,
> {
    match gimli_attrs(sections, unit, off) {
        None => Err(Fault::Unreadable),
        Some(attrs) => match range_overflow(sections, unit, head, attrs, None, None) {
            Overflow::Fits => or_unreadable(gimli_range_start(sections, unit, off)),
            Overflow::ListAt(offset) => or_unreadable(gimli_list_start(sections, unit, offset)),
            Overflow::EndFrom(low) => Ok(Some(low)),
        },
    }
}

// ---- overflows ----

/// What a table of lists holds at an index.
fn read_list_entry(table: &[u8], base: usize, index: usize, wide: bool) -> (r: Option<usize>)
    ensures
        r == list_entry(table@, base, index, wide),
{
    let width: usize = if wide {
        8
    } else {
        4
    };
    let skipped: u128 = if wide {
        index as u128 * 8
    } else {
        index as u128 * 4
    };
    let at: u128 = base as u128 + skipped;
    if at + width as u128 > table.len() as u128 {
        return None;
    }
    let at: usize = at as usize;
    let mut bytes: [u8; 8] = [0, 0, 0, 0, 0, 0, 0, 0];
    let mut k: usize = 0;
    while k < width
        invariant
            k <= width <= 8,
            at + width <= table.len(),
            forall|j: int| 0 <= j < 8 ==> #[trigger] bytes@[j] == (if j < k {
                table@[at + j]
            } else {
                0u8
            }),
        decreases width - k,
    {
        bytes[k] = table[at + k];
        k += 1;
    }
    let held: u64 = from_bytes(&bytes);
    proof {
        let w = if wide {
            8int
        } else {
            4int
        };
        let from = base + index * w;
        assert(from == at);
        assert(bytes@ =~= Seq::new(
            8,
            |k: int|
                if k < w {
                    table@[from + k]
                } else {
                    0u8
                },
        ));
    }
    if held <= usize::MAX as u64 {
        Some(held as usize)
    } else {
        None
    }
}

/// Where the list at an index of a table begins, if that overflows.
fn wrap_list(table: &[u8], base: usize, index: usize, wide: bool) -> (r: Option<usize>)
    ensures
        r == wrapped_list(table@, base, index, wide),
{
    match read_list_entry(table, base, index, wide) {
        Some(x) => {
            if x > usize::MAX - base {
                Some(base.wrapping_add(x))
            } else {
                None
            }
        },
        None => None,
    }
}

/// The value of the first attribute `at` in a list, as far as it bears on where something lies.
fn find_value(list: &Vec<PlaceAttr>, at: u16) -> (r: Option<PlaceValue>)
    ensures
        r == first_value(list@, at),
{
    let mut i: usize = 0;
    assert(list@.skip(0) =~= list@);
    while i < list.len()
        invariant
            i <= list.len(),
            first_value(list@, at) == first_value(list@.skip(i as int), at),
        decreases list.len() - i,
    {
        assert(list@.skip(i as int)[0] == list@[i as int]);
        assert(list@.skip(i as int).drop_first() =~= list@.skip(i + 1));
        if list[i].at == at {
            return Some(list[i].value);
        }
        i += 1;
    }
    assert(list@.skip(i as int).len() == 0);
    None
}

/// An address that an attribute holds or leads to.
fn read_address(sections: &Sections, unit: usize, value: PlaceValue) -> (r: Option<u64>)
    ensures
        r == address_in(sections@, unit, value),
{
    match value {
        PlaceValue::Address(a) => Some(a),
        PlaceValue::AddressIndex(i) => match indexed_address(sections, unit, i) {
            Ok(a) => Some(a),
            Err(_) => None,
        },
        _ => None,
    }
}

/// Whether a sum overflows on the way to the address ranges of an entry.
fn find_overflow(sections: &Sections, unit: usize, head: UnitHead, list: &Vec<PlaceAttr>) -> (r: Overflow)
    ensures
        r == range_overflow(sections@, unit, head, list@, None, None),
{
    let ghost whole = range_overflow(sections@, unit, head, list@, None, None);
    let mut low: Option<u64> = None;
    let mut size: Option<u64> = None;
    let mut i: usize = 0;
    assert(list@.skip(0) =~= list@);
    while i < list.len()
        invariant
            i <= list.len(),
            whole == range_overflow(sections@, unit, head, list@, None, None),
            whole == range_overflow(sections@, unit, head, list@.skip(i as int), low, size),
        decreases list.len() - i,
    {
        assert(list@.skip(i as int)[0] == list@[i as int]);
        assert(list@.skip(i as int).drop_first() =~= list@.skip(i + 1));
        let value: PlaceValue = list[i].value;
        if list[i].at == AT_LOW_PC {
            match read_address(sections, unit, value) {
                Some(a) => {
                    low = Some(a);
                },
                None => {
                    return Overflow::Fits;
                },
            }
        } else if list[i].at == AT_HIGH_PC {
            match value {
                PlaceValue::Size(n) => {
                    size = Some(n);
                },
                _ => {
                    if read_address(sections, unit, value).is_none() {
                        return Overflow::Fits;
                    }
                },
            }
        } else if list[i].at == AT_RANGES {
            match value {
                PlaceValue::Ranges => {
                    return Overflow::Fits;
                },
                PlaceValue::RangesIndex(index) => {
                    return match wrap_list(sections.bytes(".debug_rnglists"), head.ranges_base, index, head.wide) {
                        Some(offset) => Overflow::ListAt(offset),
                        None => Overflow::Fits,
                    };
                },
                _ => {},
            }
        }
        i += 1;
    }
    assert(list@.skip(i as int).len() == 0);
    match (low, size) {
        (Some(a), Some(n)) => {
            if n > u64::MAX - a {
                Overflow::EndFrom(a)
            } else {
                Overflow::Fits
            }
        },
        _ => Overflow::Fits,
    }
}

// ---- reading ahead ----

/// What was read of one attribute, for a list of entries.
struct Column<T> {
    at: u16,
    cells: Vec<Result<T, Error>>,
}

/// Whether offsets stand in increasing order.
spec fn ascending(offs: Seq<usize>) -> bool {
    forall|i: int, j: int| 0 <= i < j < offs.len() ==> #[trigger] offs[i] < #[trigger] offs[j]
}

/// The position of an offset in a list in increasing order.
fn find(offs: &Vec<usize>, off: usize) -> (r: Option<usize>)
    requires
        ascending(offs@),
    ensures
        match r {
            Some(i) => i < offs@.len() && offs@[i as int] == off,
            None => !offs@.contains(off),
        },
{
    let mut low: usize = 0;
    let mut high: usize = offs.len();
    while low < high
        invariant
            low <= high <= offs@.len(),
            ascending(offs@),
            forall|i: int| 0 <= i < low ==> #[trigger] offs@[i] < off,
            forall|i: int| high <= i < offs@.len() ==> #[trigger] offs@[i] > off,
        decreases high - low,
    {
        let middle: usize = low + (high - low) / 2;
        if offs[middle] == off {
            return Some(middle);
        }
        if offs[middle] < off {
            low = middle + 1;
        } else {
            high = middle;
        }
    }
    None
}

/// The position of the column for an attribute.
fn column<T>(columns: &Vec<Column<T>>, at: u16) -> (r: Option<usize>)
    ensures
        match r {
            Some(c) => c < columns@.len() && columns@[c as int].at == at,
            None => forall|c: int| 0 <= c < columns@.len() ==> (#[trigger] columns@[c]).at != at,
        },
{
    let mut c: usize = 0;
    while c < columns.len()
        invariant
            c <= columns.len(),
            forall|b: int| 0 <= b < c ==> (#[trigger] columns@[b]).at != at,
        decreases columns.len() - c,
    {
        if columns[c].at == at {
            return Some(c);
        }
        c += 1;
    }
    None
}

/// What was read of a unit ahead of being asked for.
struct Ahead {
    /// Where entries and the ends of lists of children stand, and what is there.
    places: Vec<usize>,
    shapes: Vec<Shape>,
    /// Where entries stand, and what is in them.
    offs: Vec<usize>,
    siblings: Vec<Result<Option<usize>, Error>>,
    values: Vec<Column<Option<AttrValue>>>,
    texts: Vec<Column<Option<String>>>,
    addresses: Vec<Column<Option<u64>>>,
    exprs: Vec<Column<Option<Vec<u8>>>>,
}

impl Ahead {
    /// Whether this is what gimli reads in a unit.
    spec fn holds(self, sections: Map<Text, Seq<u8>>, unit: usize) -> bool {
        &&& ascending(self.places@)
        &&& self.shapes@.len() == self.places@.len()
        &&& forall|i: int| 0 <= i < self.places@.len() ==> {
            &&& gimli_shape(sections, unit, #[trigger] self.places@[i]) == Some(self.shapes@[i])
            &&& self.places@[i] < self.shapes@[i].next <= sections[".debug_info"@].len()
        }
        &&& ascending(self.offs@)
        &&& siblings_hold(sections, unit, self.offs@, self.siblings@)
        &&& forall|c: int| 0 <= c < self.values@.len() ==> values_hold(
            sections,
            unit,
            self.offs@,
            #[trigger] self.values@[c],
        )
        &&& forall|c: int| 0 <= c < self.texts@.len() ==> texts_hold(
            sections,
            unit,
            self.offs@,
            #[trigger] self.texts@[c],
        )
        &&& forall|c: int| 0 <= c < self.addresses@.len() ==> addresses_hold(
            sections,
            unit,
            self.offs@,
            #[trigger] self.addresses@[c],
        )
        &&& forall|c: int| 0 <= c < self.exprs@.len() ==> exprs_hold(
            sections,
            unit,
            self.offs@,
            #[trigger] self.exprs@[c],
        )
    }
}

/// Whether these are the siblings that gimli finds.
spec fn siblings_hold(
    sections: Map<Text, Seq<u8>>,
    unit: usize,
    offs: Seq<usize>,
    siblings: Seq<Result<Option<usize>, Error>>,
) -> bool {
    siblings.len() == offs.len() && forall|i: int|
        0 <= i < offs.len() ==> {
            &&& (#[trigger] siblings[i]).ok() == gimli_sibling(sections, unit, offs[i])
            &&& siblings[i] matches Ok(Some(s)) ==> offs[i] < s <= sections[".debug_info"@].len()
        }
}

/// Whether these are the values that gimli gives for an attribute.
spec fn values_hold(
    sections: Map<Text, Seq<u8>>,
    unit: usize,
    offs: Seq<usize>,
    c: Column<Option<AttrValue>>,
) -> bool {
    c.cells@.len() == offs.len() && forall|i: int|
        0 <= i < offs.len() ==> (#[trigger] c.cells@[i]).ok() == gimli_attr_value(sections, unit, offs[i], c.at)
}

/// Whether these are the strings that gimli finds for an attribute.
spec fn texts_hold(sections: Map<Text, Seq<u8>>, unit: usize, offs: Seq<usize>, c: Column<Option<String>>) -> bool {
    c.cells@.len() == offs.len() && forall|i: int|
        0 <= i < offs.len() ==> text_found(#[trigger] c.cells@[i]) == gimli_attr_text(sections, unit, offs[i], c.at)
}

/// Whether these are the addresses that gimli finds for an attribute.
spec fn addresses_hold(sections: Map<Text, Seq<u8>>, unit: usize, offs: Seq<usize>, c: Column<Option<u64>>) -> bool {
    c.cells@.len() == offs.len() && forall|i: int|
        0 <= i < offs.len() ==> (#[trigger] c.cells@[i]).ok() == gimli_attr_address(sections, unit, offs[i], c.at)
}

/// Whether these are the location expressions that gimli finds for an attribute.
spec fn exprs_hold(sections: Map<Text, Seq<u8>>, unit: usize, offs: Seq<usize>, c: Column<Option<Vec<u8>>>) -> bool {
    c.cells@.len() == offs.len() && forall|i: int|
        0 <= i < offs.len() ==> bytes_found(#[trigger] c.cells@[i]) == gimli_attr_expr(sections, unit, offs[i], c.at)
}

/// The shapes of all that stands in a unit from its root on, as far as it can be read.
fn read_shapes(sections: &Sections, unit: usize, root: usize) -> (r: (Vec<usize>, Vec<Shape>))
    ensures
        ascending(r.0@),
        r.1@.len() == r.0@.len(),
        gimli_shape(sections@, unit, root) is Some ==> r.0@.len() > 0 && r.0@[0] == root,
        forall|i: int| 0 <= i < r.0@.len() ==> {
            &&& gimli_shape(sections@, unit, #[trigger] r.0@[i]) == Some(r.1@[i])
            &&& r.0@[i] < r.1@[i].next <= sections@[".debug_info"@].len()
            &&& i + 1 < r.0@.len() ==> r.0@[i + 1] == r.1@[i].next
        },
        r.0@.len() > 0 ==> r.1@.last().last || gimli_shape(sections@, unit, r.1@.last().next) is None,
{
    let mut places: Vec<usize> = Vec::new();
    let mut shapes: Vec<Shape> = Vec::new();
    let mut off: usize = root;
    let mut more: bool = true;
    while more
        invariant
            ascending(places@),
            shapes@.len() == places@.len(),
            places@.len() == 0 ==> off == root && (more || gimli_shape(sections@, unit, root) is None),
            places@.len() > 0 ==> {
                &&& places@[0] == root
                &&& places@.last() < off
                &&& off == shapes@.last().next <= sections@[".debug_info"@].len()
                &&& more || shapes@.last().last || gimli_shape(sections@, unit, off) is None
            },
            forall|i: int| 0 <= i < places@.len() ==> {
                &&& gimli_shape(sections@, unit, #[trigger] places@[i]) == Some(shapes@[i])
                &&& places@[i] < shapes@[i].next <= sections@[".debug_info"@].len()
                &&& i + 1 < places@.len() ==> places@[i + 1] == shapes@[i].next
            },
        decreases
                if !more {
                    0int
                } else if places@.len() == 0 {
                    sections@[".debug_info"@].len() as int + 2
                } else {
                    sections@[".debug_info"@].len() - off + 1
                },
    {
        match entry_shape(sections, unit, off) {
            Ok(s) => {
                places.push(off);
                shapes.push(s);
                off = s.next;
                more = !s.last;
            },
            Err(_) => {
                more = false;
            },
        }
    }
    (places, shapes)
}

/// Where entries stand among all that stands in a unit.
spec fn present(places: Seq<usize>, shapes: Seq<Shape>) -> Seq<usize>
    decreases places.len(),
{
    if places.len() == 0 {
        Seq::empty()
    } else if shapes[places.len() - 1].present {
        present(places.drop_last(), shapes).push(places.last())
    } else {
        present(places.drop_last(), shapes)
    }
}

/// Where entries stand among all that stands in a unit, in the same order.
fn keep_present(places: &Vec<usize>, shapes: &Vec<Shape>) -> (r: Vec<usize>)
    requires
        ascending(places@),
        shapes@.len() == places@.len(),
    ensures
        r@ == present(places@, shapes@),
        ascending(r@),
{
    let mut offs: Vec<usize> = Vec::new();
    let mut i: usize = 0;
    while i < places.len()
        invariant
            i <= places@.len(),
            ascending(places@),
            shapes@.len() == places@.len(),
            offs@ == present(places@.take(i as int), shapes@),
            ascending(offs@),
            offs@.len() > 0 ==> i > 0 && offs@.last() <= places@[i - 1],
        decreases places.len() - i,
    {
        assert(places@.take(i + 1).drop_last() =~= places@.take(i as int));
        assert(i > 0 ==> places@[i - 1] < places@[i as int]);
        if shapes[i].present {
            offs.push(places[i]);
        }
        i += 1;
    }
    assert(places@.take(i as int) =~= places@);
    offs
}

/// The same error over and over.
fn all_failed<T>(e: Error, n: usize) -> (r: Vec<Result<T, Error>>)
    ensures
        r@.len() == n,
        forall|i: int| 0 <= i < n ==> #[trigger] r@[i] == Err::<T, Error>(e),
{
    let mut list: Vec<Result<T, Error>> = Vec::new();
    while list.len() < n
        invariant
            list@.len() <= n,
            forall|i: int| 0 <= i < list@.len() ==> #[trigger] list@[i] == Err::<T, Error>(e),
        decreases n - list@.len(),
    {
        list.push(Err(e));
    }
    list
}

/// Whether there is a column for each of some attributes, in order.
spec fn for_attrs<T>(columns: Seq<Column<T>>, ats: Seq<u16>) -> bool {
    columns.len() == ats.len() && forall|c: int| 0 <= c < ats.len() ==> (#[trigger] columns[c]).at == ats[c]
}

/// The siblings of a list of entries.
fn read_siblings(sections: &Sections, unit: usize, offs: &Vec<usize>) -> (r: Vec<Result<Option<usize>, Error>>)
    ensures
        siblings_hold(sections@, unit, offs@, r@),
{
    match next_siblings(sections, unit, offs) {
        Ok(list) => list,
        Err(e) => {
            let list: Vec<Result<Option<usize>, Error>> = all_failed(e, offs.len());
            assert forall|i: int| 0 <= i < offs@.len() implies (#[trigger] list@[i]).ok() == gimli_sibling(
                sections@,
                unit,
                offs@[i],
            ) by {
                assert(gimli_sibling(sections@, unit, offs@[i]) is None);
            }
            list
        },
    }
}

/// The values of an attribute, for a list of entries.
fn value_column(sections: &Sections, unit: usize, offs: &Vec<usize>, at: u16) -> (r: Column<Option<AttrValue>>)
    ensures
        r.at == at,
        values_hold(sections@, unit, offs@, r),
{
    match attr_values(sections, unit, offs, at) {
        Ok(cells) => Column { at, cells },
        Err(e) => {
            let cells: Vec<Result<Option<AttrValue>, Error>> = all_failed(e, offs.len());
            assert forall|i: int| 0 <= i < offs@.len() implies (#[trigger] cells@[i]).ok() == gimli_attr_value(
                sections@,
                unit,
                offs@[i],
                at,
            ) by {
                assert(gimli_attr_value(sections@, unit, offs@[i], at) is None);
            }
            Column { at, cells }
        },
    }
}

/// The values of some attributes, for a list of entries.
fn read_values(sections: &Sections, unit: usize, offs: &Vec<usize>, ats: &[u16]) -> (r: Vec<Column<Option<AttrValue>>>)
    ensures
        for_attrs(r@, ats@),
        forall|c: int| 0 <= c < r@.len() ==> values_hold(sections@, unit, offs@, #[trigger] r@[c]),
{
    let mut columns: Vec<Column<Option<AttrValue>>> = Vec::new();
    while columns.len() < ats.len()
        invariant
            columns@.len() <= ats@.len(),
            for_attrs(columns@, ats@.take(columns@.len() as int)),
            forall|c: int|
                0 <= c < columns@.len() ==> values_hold(sections@, unit, offs@, #[trigger] columns@[c]),
        decreases ats@.len() - columns@.len(),
    {
        let one = value_column(sections, unit, offs, ats[columns.len()]);
        columns.push(one);
    }
    assert(ats@.take(columns@.len() as int) =~= ats@);
    columns
}

/// The strings of an attribute, for a list of entries.
fn text_column(sections: &Sections, unit: usize, offs: &Vec<usize>, at: u16) -> (r: Column<Option<String>>)
    ensures
        r.at == at,
        texts_hold(sections@, unit, offs@, r),
{
    match attr_texts(sections, unit, offs, at) {
        Ok(cells) => Column { at, cells },
        Err(e) => {
            let cells: Vec<Result<Option<String>, Error>> = all_failed(e, offs.len());
            assert forall|i: int| 0 <= i < offs@.len() implies text_found(#[trigger] cells@[i]) == gimli_attr_text(
                sections@,
                unit,
                offs@[i],
                at,
            ) by {
                assert(gimli_attr_text(sections@, unit, offs@[i], at) is None);
            }
            Column { at, cells }
        },
    }
}

/// The strings of some attributes, for a list of entries.
fn read_texts(sections: &Sections, unit: usize, offs: &Vec<usize>, ats: &[u16]) -> (r: Vec<Column<Option<String>>>)
    ensures
        for_attrs(r@, ats@),
        forall|c: int| 0 <= c < r@.len() ==> texts_hold(sections@, unit, offs@, #[trigger] r@[c]),
{
    let mut columns: Vec<Column<Option<String>>> = Vec::new();
    while columns.len() < ats.len()
        invariant
            columns@.len() <= ats@.len(),
            for_attrs(columns@, ats@.take(columns@.len() as int)),
            forall|c: int|
                0 <= c < columns@.len() ==> texts_hold(sections@, unit, offs@, #[trigger] columns@[c]),
        decreases ats@.len() - columns@.len(),
    {
        let one = text_column(sections, unit, offs, ats[columns.len()]);
        columns.push(one);
    }
    assert(ats@.take(columns@.len() as int) =~= ats@);
    columns
}

/// The addresses of an attribute, for a list of entries.
fn address_column(sections: &Sections, unit: usize, offs: &Vec<usize>, at: u16) -> (r: Column<Option<u64>>)
    ensures
        r.at == at,
        addresses_hold(sections@, unit, offs@, r),
{
    match attr_addresses(sections, unit, offs, at) {
        Ok(cells) => Column { at, cells },
        Err(e) => {
            let cells: Vec<Result<Option<u64>, Error>> = all_failed(e, offs.len());
            assert forall|i: int| 0 <= i < offs@.len() implies (#[trigger] cells@[i]).ok() == gimli_attr_address(
                sections@,
                unit,
                offs@[i],
                at,
            ) by {
                assert(gimli_attr_address(sections@, unit, offs@[i], at) is None);
            }
            Column { at, cells }
        },
    }
}

/// The addresses of some attributes, for a list of entries.
fn read_addresses(sections: &Sections, unit: usize, offs: &Vec<usize>, ats: &[u16]) -> (r: Vec<Column<Option<u64>>>)
    ensures
        for_attrs(r@, ats@),
        forall|c: int| 0 <= c < r@.len() ==> addresses_hold(sections@, unit, offs@, #[trigger] r@[c]),
{
    let mut columns: Vec<Column<Option<u64>>> = Vec::new();
    while columns.len() < ats.len()
        invariant
            columns@.len() <= ats@.len(),
            for_attrs(columns@, ats@.take(columns@.len() as int)),
            forall|c: int|
                0 <= c < columns@.len() ==> addresses_hold(sections@, unit, offs@, #[trigger] columns@[c]),
        decreases ats@.len() - columns@.len(),
    {
        let one = address_column(sections, unit, offs, ats[columns.len()]);
        columns.push(one);
    }
    assert(ats@.take(columns@.len() as int) =~= ats@);
    columns
}

/// The location expressions of an attribute, for a list of entries.
fn expr_column(sections: &Sections, unit: usize, offs: &Vec<usize>, at: u16) -> (r: Column<Option<Vec<u8>>>)
    ensures
        r.at == at,
        exprs_hold(sections@, unit, offs@, r),
{
    match attr_exprs(sections, unit, offs, at) {
        Ok(cells) => Column { at, cells },
        Err(e) => {
            let cells: Vec<Result<Option<Vec<u8>>, Error>> = all_failed(e, offs.len());
            assert forall|i: int| 0 <= i < offs@.len() implies bytes_found(#[trigger] cells@[i]) == gimli_attr_expr(
                sections@,
                unit,
                offs@[i],
                at,
            ) by {
                assert(gimli_attr_expr(sections@, unit, offs@[i], at) is None);
            }
            Column { at, cells }
        },
    }
}

/// The location expressions of some attributes, for a list of entries.
fn read_exprs(sections: &Sections, unit: usize, offs: &Vec<usize>, ats: &[u16]) -> (r: Vec<Column<Option<Vec<u8>>>>)
    ensures
        for_attrs(r@, ats@),
        forall|c: int| 0 <= c < r@.len() ==> exprs_hold(sections@, unit, offs@, #[trigger] r@[c]),
{
    let mut columns: Vec<Column<Option<Vec<u8>>>> = Vec::new();
    while columns.len() < ats.len()
        invariant
            columns@.len() <= ats@.len(),
            for_attrs(columns@, ats@.take(columns@.len() as int)),
            forall|c: int|
                0 <= c < columns@.len() ==> exprs_hold(sections@, unit, offs@, #[trigger] columns@[c]),
        decreases ats@.len() - columns@.len(),
    {
        let one = expr_column(sections, unit, offs, ats[columns.len()]);
        columns.push(one);
    }
    assert(ats@.take(columns@.len() as int) =~= ats@);
    columns
}

/// Reads a unit ahead: all that stands in it, and the attributes that are asked for.
fn read_ahead(sections: &Sections, unit: usize, root: usize) -> (r: Ahead)
    ensures
        r.holds(sections@, unit),
        gimli_shape(sections@, unit, root) is Some ==> r.places@.len() > 0 && r.places@[0] == root,
        r.offs@ == present(r.places@, r.shapes@),
        for_attrs(r.texts@, seq![AT_NAME, AT_LINKAGE_NAME]),
        for_attrs(r.addresses@, seq![AT_LOW_PC, AT_HIGH_PC]),
        for_attrs(r.exprs@, seq![AT_LOCATION]),
        for_attrs(
            r.values@,
            seq![
                AT_TYPE,
                AT_LOCATION,
                AT_BYTE_SIZE,
                AT_ABSTRACT_ORIGIN,
                AT_SPECIFICATION,
                AT_HIGH_PC,
                AT_MEMBER_LOCATION,
                AT_ENCODING,
                AT_DECLARATION,
                AT_ALIGNMENT,
            ],
        ),
{
    let (places, shapes) = read_shapes(sections, unit, root);
    let offs: Vec<usize> = keep_present(&places, &shapes);
    let siblings = read_siblings(sections, unit, &offs);
    let values = read_values(
        sections,
        unit,
        &offs,
        &[
            AT_TYPE,
            AT_LOCATION,
            AT_BYTE_SIZE,
            AT_ABSTRACT_ORIGIN,
            AT_SPECIFICATION,
            AT_HIGH_PC,
            AT_MEMBER_LOCATION,
            AT_ENCODING,
            AT_DECLARATION,
            AT_ALIGNMENT,
        ],
    );
    let texts = read_texts(sections, unit, &offs, &[AT_NAME, AT_LINKAGE_NAME]);
    let addresses = read_addresses(sections, unit, &offs, &[AT_LOW_PC, AT_HIGH_PC]);
    let exprs = read_exprs(sections, unit, &offs, &[AT_LOCATION]);
    Ahead { places, shapes, offs, siblings, values, texts, addresses, exprs }
}

// ---- the unit ----

/// A unit of the debug information of a binary.
pub struct BinaryUnit<'a> {
    sections: &'a Sections,
    unit: usize,
    head: UnitHead,
    ahead: Ahead,
}

impl<'a> BinaryUnit<'a> {
    #[verifier::type_invariant]
    spec fn inv(self) -> bool {
        &&& gimli_unit_head(self.sections@, self.unit) == Some(self.head)
        &&& self.ahead.holds(self.sections@, self.unit)
    }

    /// The sections that hold the unit.
    pub closed spec fn contents(&self) -> Map<Text, Seq<u8>> {
        self.sections@
    }

    /// Where the unit begins.
    pub closed spec fn offset(&self) -> usize {
        self.unit
    }

    /// What is read of the unit before its entries.
    pub closed spec fn header(&self) -> UnitHead {
        self.head
    }

    /// The unit whose header is at an offset of the section `.debug_info`.
    pub fn open(sections: &'a Sections, unit: usize) -> (r: Result<BinaryUnit<'a>, DwarfError>)
        ensures
            match r {
                Ok(u) => u.contents() == sections@ && u.offset() == unit && gimli_unit_head(sections@, unit) == Some(
                    u.header(),
                ),
                Err(e) => fault(e) == Fault::Unreadable && gimli_unit_head(sections@, unit) is None,
            },
    {
        match unit_head(sections, unit) {
            Ok(head) => Ok(BinaryUnit { sections, unit, head, ahead: read_ahead(sections, unit, head.root) }),
            Err(e) => Err(DwarfError::Unreadable(e)),
        }
    }

    /// What is read of the unit before its entries.
    pub fn head(&self) -> (r: UnitHead)
        ensures
            r == self.header(),
    {
        self.head
    }
}

/// A result of gimli's with its error taken over.
fn taken<T: Copy>(r: &Result<T, Error>) -> (t: Result<T, DwarfError>)
    ensures
        outcome(t) == or_unreadable(r.ok()),
{
    match r {
        Ok(x) => Ok(*x),
        Err(e) => Err(DwarfError::Unreadable(*e)),
    }
}

impl<'a> DebugUnit for BinaryUnit<'a> {
    open spec fn model(&self) -> UnitModel {
        binary_model(self.contents(), self.offset(), self.header())
    }

    fn shape(&self, off: usize) -> (r: Result<Shape, DwarfError>) {
        proof {
            use_type_invariant(self);
        }
        if let Some(i) = find(&self.ahead.places, off) {
            return Ok(self.ahead.shapes[i]);
        }
        match entry_shape(self.sections, self.unit, off) {
            Ok(s) => Ok(s),
            Err(e) => Err(DwarfError::Unreadable(e)),
        }
    }

    fn value(&self, off: usize, at: u16) -> (r: Result<Option<AttrValue>, DwarfError>) {
        proof {
            use_type_invariant(self);
        }
        if let Some(c) = column(&self.ahead.values, at) {
            if let Some(i) = find(&self.ahead.offs, off) {
                return taken(&self.ahead.values[c].cells[i]);
            }
        }
        taken(&value_column(self.sections, self.unit, &vec![off], at).cells[0])
    }

    fn text(&self, off: usize, at: u16) -> (r: Result<Option<String>, DwarfError>) {
        proof {
            use_type_invariant(self);
        }
        if let Some(c) = column(&self.ahead.texts, at) {
            if let Some(i) = find(&self.ahead.offs, off) {
                return taken_text(&self.ahead.texts[c].cells[i]);
            }
        }
        taken_text(&text_column(self.sections, self.unit, &vec![off], at).cells[0])
    }

    fn address(&self, off: usize, at: u16) -> (r: Result<Option<u64>, DwarfError>) {
        proof {
            use_type_invariant(self);
        }
        if let Some(c) = column(&self.ahead.addresses, at) {
            if let Some(i) = find(&self.ahead.offs, off) {
                return taken(&self.ahead.addresses[c].cells[i]);
            }
        }
        taken(&address_column(self.sections, self.unit, &vec![off], at).cells[0])
    }

    fn ops(&self, off: usize, at: u16) -> (r: Result<Vec<Result<DwarfOp, Error>>, DwarfError>) {
        proof {
            use_type_invariant(self);
        }
        if let Some(c) = column(&self.ahead.exprs, at) {
            if let Some(i) = find(&self.ahead.offs, off) {
                return read_ops(&self.ahead.exprs[c].cells[i], self.head);
            }
        }
        read_ops(&expr_column(self.sections, self.unit, &vec![off], at).cells[0], self.head)
    }

    fn locations(&self, off: usize, at: u16) -> (r: Result<
        Option<Vec<Result<Location, Error>>>,
        DwarfError,
    >) {
        proof {
            use_type_invariant(self);
        }
        let list: Vec<PlaceAttr> = match attrs(self.sections, self.unit, off) {
            Ok(list) => list,
            Err(e) => {
                return Err(DwarfError::Unreadable(e));
            },
        };
        if let Some(PlaceValue::LocationsIndex(i)) = find_value(&list, at) {
            let table: &[u8] = self.sections.bytes(".debug_loclists");
            if let Some(offset) = wrap_list(table, self.head.locations_base, i, self.head.wide) {
                return match locations_at(self.sections, self.unit, offset) {
                    Ok(list) => Ok(Some(read_locations(&list, self.head))),
                    Err(e) => Err(DwarfError::Unreadable(e)),
                };
            }
        }
        match attr_locations(self.sections, self.unit, off, at) {
            Ok(Some(list)) => Ok(Some(read_locations(&list, self.head))),
            Ok(None) => Ok(None),
            Err(e) => Err(DwarfError::Unreadable(e)),
        }
    }

    fn sibling(&self, off: usize) -> (r: Result<Option<usize>, DwarfError>) {
        proof {
            use_type_invariant(self);
        }
        if let Some(i) = find(&self.ahead.offs, off) {
            return taken(&self.ahead.siblings[i]);
        }
        taken(&read_siblings(self.sections, self.unit, &vec![off])[0])
    }

    fn range_start(&self, off: usize) -> (r: Result<Option<u64>, DwarfError>) {
        proof {
            use_type_invariant(self);
        }
        let list: Vec<PlaceAttr> = match attrs(self.sections, self.unit, off) {
            Ok(list) => list,
            Err(e) => {
                return Err(DwarfError::Unreadable(e));
            },
        };
        match find_overflow(self.sections, self.unit, self.head, &list) {
            Overflow::Fits => taken(&first_range_start(self.sections, self.unit, off)),
            Overflow::ListAt(offset) => taken(&list_start(self.sections, self.unit, offset)),
            Overflow::EndFrom(low) => Ok(Some(low)),
        }
    }

    fn table_address(&self, index: usize) -> (r: Result<u64, DwarfError>) {
        taken(&indexed_address(self.sections, self.unit, index))
    }
}

/// A string that was looked for, with an error of gimli's taken over.
fn taken_text(t: &Result<Option<String>, Error>) -> (r: Result<Option<String>, DwarfError>)
    ensures
        text_outcome(r) == or_unreadable(text_found(*t)),
{
    match t {
        Ok(t) => Ok(clone_opt(t)),
        Err(e) => Err(DwarfError::Unreadable(*e)),
    }
}

/// Reads a location expression, where there is one, into operations.
fn read_ops(expr: &Result<Option<Vec<u8>>, Error>, head: UnitHead) -> (r: Result<
    Vec<Result<DwarfOp, Error>>,
    DwarfError,
>)
    ensures
        match r {
            Ok(ops) => expression_ops(bytes_found(*expr), head) == Ok::<Seq<Option<DwarfOp>>, Fault>(readable(ops@)),
            Err(e) => expression_ops(bytes_found(*expr), head) == Err::<Seq<Option<DwarfOp>>, Fault>(fault(e)),
        },
{
    match expr {
        Ok(Some(bytes)) => Ok(operations(bytes, head.version, head.address_size, head.wide)),
        Ok(None) => {
            let none: Vec<Result<DwarfOp, Error>> = Vec::new();
            assert(readable(none@) =~= Seq::<Option<DwarfOp>>::empty());
            Ok(none)
        },
        Err(e) => Err(DwarfError::Unreadable(*e)),
    }
}

/// Reads the expressions of a list of locations into operations.
fn read_locations(list: &Vec<Result<RawLocation, Error>>, head: UnitHead) -> (r: Vec<
    Result<Location, Error>,
>)
    ensures
        readable_locations(r@) == all_with_ops(known_locations(list@), head),
{
    let ghost wanted = all_with_ops(known_locations(list@), head);
    let mut r: Vec<Result<Location, Error>> = Vec::new();
    let mut i: usize = 0;
    while i < list.len()
        invariant
            i <= list.len(),
            wanted == all_with_ops(known_locations(list@), head),
            readable_locations(r@) == wanted.take(i as int),
        decreases list.len() - i,
    {
        let ghost done = readable_locations(r@);
        let one: Result<Location, Error> = match &list[i] {
            Ok(l) => Ok(
                Location {
                    begin: l.begin,
                    end: l.end,
                    ops: operations(&l.expr, head.version, head.address_size, head.wide),
                },
            ),
            Err(e) => Err(*e),
        };
        r.push(one);
        assert(readable_locations(r@) =~= done.push(wanted[i as int]));
        assert(wanted.take(i + 1) =~= wanted.take(i as int).push(wanted[i as int]));
        i += 1;
    }
    assert(wanted.take(i as int) =~= wanted);
    r
}

} // verus!
