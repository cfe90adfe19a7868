//! Laws of what is read of a unit of a binary's debug information.

use vstd::prelude::*;

use crate::binary_unit::binary_model;
use crate::debug_unit::readable_locations;
use crate::debug_unit::Fault;
use crate::debug_unit::Location;
use crate::dwarf_reader::first_value;
use crate::dwarf_reader::gimli_attr_address;
use crate::dwarf_reader::gimli_attr_expr;
use crate::dwarf_reader::gimli_attr_locations;
use crate::dwarf_reader::gimli_attr_text;
use crate::dwarf_reader::gimli_attr_value;
use crate::dwarf_reader::gimli_attrs;
use crate::dwarf_reader::gimli_list_start;
use crate::dwarf_reader::gimli_locations;
use crate::dwarf_reader::gimli_ops;
use crate::dwarf_reader::gimli_range_start;
use crate::dwarf_reader::gimli_shape;
use crate::dwarf_reader::gimli_sibling;
use crate::dwarf_reader::gimli_table_address;
use crate::dwarf_reader::list_entry;
use crate::dwarf_reader::locations_wrapped;
use crate::dwarf_reader::range_overflow;
use crate::dwarf_reader::section_bytes;
use crate::dwarf_reader::wrapped_list;
use crate::dwarf_reader::Overflow;
use crate::dwarf_reader::PlaceAttr;
use crate::dwarf_reader::PlaceValue;
use crate::dwarf_reader::RawLocationV;
use crate::dwarf_reader::Section;
use crate::dwarf_reader::UnitHead;
use crate::debug_unit::LocationV;
use crate::location::readable;
use crate::location::DwarfOp;
use crate::meta::lemma_first_from;
use crate::text::opt_text;
use crate::text::Text;
use crate::unit_image::attr_position;
use crate::unit_image::entry_position;
use crate::unit_image::image_model;
use crate::unit_image::ImageEntry;
use crate::words::law_bytes_of_word;
use crate::words::le_bytes;
use crate::words::le_word;

verus! {

/// The bytes of a section are those of the first section of its name; there are none where no section has
/// the name.
pub proof fn law_section_found(list: Seq<Section>, name: Text, from: int, i: int)
    requires
        0 <= from <= i <= list.len(),
        forall|j: int| from <= j < i ==> (#[trigger] list[j]).name@ != name,
        i < list.len() ==> list[i].name@ == name,
    ensures
        i < list.len() ==> section_bytes(list, name, from) == list[i].bytes@,
        i == list.len() ==> section_bytes(list, name, from).len() == 0,
    decreases i - from,
{
    if from < i {
        assert(list[from].name@ != name);
        law_section_found(list, name, from + 1, i);
    }
}

/// What a unit says of an entry is what gimli reads of it; what gimli cannot read is an error.
pub proof fn law_unit_read(sections: Map<Text, Seq<u8>>, unit: usize, head: UnitHead, off: usize, at: u16, index: usize)
    ensures
        ({
            let u = binary_model(sections, unit, head);
            &&& u.limit() == sections[".debug_info"@].len()
            &&& gimli_shape(sections, unit, off) matches Some(v) ==> u.shape_at(off) == Ok::<_, Fault>(v)
            &&& gimli_shape(sections, unit, off) is None ==> u.shape_at(off) is Err
            &&& gimli_attr_value(sections, unit, off, at) matches Some(v) ==> u.value_at(off, at) == Ok::<_, Fault>(v)
            &&& gimli_attr_value(sections, unit, off, at) is None ==> u.value_at(off, at) is Err
            &&& gimli_attr_text(sections, unit, off, at) matches Some(v) ==> u.text_at(off, at) == Ok::<_, Fault>(v)
            &&& gimli_attr_text(sections, unit, off, at) is None ==> u.text_at(off, at) is Err
            &&& gimli_attr_address(sections, unit, off, at) matches Some(v) ==> u.address_at(off, at) == Ok::<_, Fault>(
                v,
            )
            &&& gimli_attr_address(sections, unit, off, at) is None ==> u.address_at(off, at) is Err
            &&& gimli_sibling(sections, unit, off) matches Some(v) ==> u.sibling_of(off) == Ok::<_, Fault>(v)
            &&& gimli_sibling(sections, unit, off) is None ==> u.sibling_of(off) is Err
            &&& gimli_table_address(sections, unit, index) matches Some(v) ==> u.table_address_of(index) == Ok::<
                _,
                Fault,
            >(v)
            &&& gimli_table_address(sections, unit, index) is None ==> u.table_address_of(index) is Err
            &&& gimli_attr_expr(sections, unit, off, at) matches Some(Some(bytes)) ==> u.ops_at(off, at) == Ok::<
                _,
                Fault,
            >(gimli_ops(bytes, head.version, head.address_size, head.wide))
            &&& gimli_attr_expr(sections, unit, off, at) matches Some(None) ==> (u.ops_at(off, at) matches Ok(ops)
                && ops.len() == 0)
            &&& gimli_attr_expr(sections, unit, off, at) is None ==> u.ops_at(off, at) is Err
        }),
{
}

/// Whether a list of locations is what gimli found, each location with the operations of its expression.
pub open spec fn locations_read(
    found: Seq<Option<RawLocationV>>,
    list: Seq<Option<LocationV>>,
    head: UnitHead,
) -> bool {
    &&& list.len() == found.len()
    &&& forall|k: int|
        0 <= k < found.len() ==> match #[trigger] found[k] {
            Some(l) => list[k] matches Some(r) && r.begin == l.begin && r.end == l.end && r.ops == gimli_ops(
                l.expr,
                head.version,
                head.address_size,
                head.wide,
            ),
            None => list[k] is None,
        }
}

/// A list of locations is read where the attribute leads to; where the sum of the base and the offset of a
/// list that goes by an index overflows, at what is left of it.
pub proof fn law_locations_read(sections: Map<Text, Seq<u8>>, unit: usize, head: UnitHead, off: usize, at: u16)
    ensures
        ({
            let u = binary_model(sections, unit, head);
            match gimli_attrs(sections, unit, off) {
                None => u.locations_at(off, at) is Err,
                Some(attrs) => match locations_wrapped(sections, head, attrs, at) {
                    Some(offset) => match gimli_locations(sections, unit, offset) {
                        None => u.locations_at(off, at) is Err,
                        Some(found) => u.locations_at(off, at) matches Ok(Some(list)) && locations_read(
                            found,
                            list,
                            head,
                        ),
                    },
                    None => match gimli_attr_locations(sections, unit, off, at) {
                        None => u.locations_at(off, at) is Err,
                        Some(None) => u.locations_at(off, at) matches Ok(None),
                        Some(Some(found)) => u.locations_at(off, at) matches Ok(Some(list)) && locations_read(
                            found,
                            list,
                            head,
                        ),
                    },
                },
            }
        }),
{
}

/// The first attribute of a kind counts.
pub proof fn law_first_value(attrs: Seq<PlaceAttr>, at: u16, i: int)
    requires
        0 <= i <= attrs.len(),
        forall|j: int| 0 <= j < i ==> (#[trigger] attrs[j]).at != at,
        i < attrs.len() ==> attrs[i].at == at,
    ensures
        i < attrs.len() ==> first_value(attrs, at) == Some(attrs[i].value),
        i == attrs.len() ==> first_value(attrs, at) is None,
    decreases i,
{
    if i > 0 {
        let rest = attrs.drop_first();
        assert(attrs[0].at != at);
        assert forall|j: int| 0 <= j < i - 1 implies (#[trigger] rest[j]).at != at by {
            assert(attrs[j + 1].at != at);
        }
        law_first_value(rest, at, i - 1);
    }
}

/// An entry of a table of offsets has four bytes, or eight in the wide format, lowest first; it stands at
/// its index behind the base of the table.
pub proof fn law_list_entry(table: Seq<u8>, base: usize, index: usize, wide: bool)
    ensures
        ({
            let width = if wide { 8int } else { 4int };
            let at = base + index * width;
            match list_entry(table, base, index, wide) {
                Some(x) => {
                    &&& at + width <= table.len()
                    &&& forall|k: int| 0 <= k < width ==> #[trigger] le_bytes(x as u64)[k] == table[at + k]
                    &&& forall|k: int| width <= k < 8 ==> #[trigger] le_bytes(x as u64)[k] == 0
                },
                None => at + width > table.len() || usize::MAX < u64::MAX,
            }
        }),
{
    let width = if wide { 8int } else { 4int };
    let at = base + index * width;
    let held = Seq::new(
        8,
        |k: int|
            if k < width {
                table[at + k]
            } else {
                0u8
            },
    );
    law_bytes_of_word(held);
    if let Some(x) = list_entry(table, base, index, wide) {
        assert(x as u64 == le_word(held));
    }
}

/// Where the base of a table and the offset in an entry of it overflow, what is left of their sum counts.
pub proof fn law_wrapped_list(table: Seq<u8>, base: usize, index: usize, wide: bool)
    ensures
        match wrapped_list(table, base, index, wide) {
            Some(offset) => list_entry(table, base, index, wide) matches Some(x) && offset + usize::MAX + 1 == base + x,
            None => list_entry(table, base, index, wide) matches Some(x) ==> base + x <= usize::MAX,
        },
{
}

/// Whether attributes say nothing of address ranges.
pub open spec fn beside_ranges(attrs: Seq<PlaceAttr>) -> bool {
    forall|k: int|
        0 <= k < attrs.len() ==> (#[trigger] attrs[k]).at != 0x11 && attrs[k].at != 0x12 && attrs[k].at != 0x55
}

/// Attributes that say nothing of address ranges are passed over.
proof fn lemma_beside_ranges(
    sections: Map<Text, Seq<u8>>,
    unit: usize,
    head: UnitHead,
    a: Seq<PlaceAttr>,
    b: Seq<PlaceAttr>,
    low: Option<u64>,
    size: Option<u64>,
)
    requires
        beside_ranges(a),
    ensures
        range_overflow(sections, unit, head, a + b, low, size) == range_overflow(sections, unit, head, b, low, size),
    decreases a.len(),
{
    if a.len() == 0 {
        assert(a + b =~= b);
    } else {
        let rest = a.drop_first();
        assert(a[0].at != 0x11);
        assert forall|k: int| 0 <= k < rest.len() implies (#[trigger] rest[k]).at != 0x11 && rest[k].at != 0x12
            && rest[k].at != 0x55 by {
            assert(a[k + 1].at != 0x11);
        }
        lemma_beside_ranges(sections, unit, head, rest, b, low, size);
        assert((a + b).drop_first() =~= rest + b);
        assert((a + b)[0] == a[0]);
    }
}

/// A range that is given by where it begins and by its size begins there also where its end overflows.
pub proof fn law_range_end(
    sections: Map<Text, Seq<u8>>,
    unit: usize,
    head: UnitHead,
    a: Seq<PlaceAttr>,
    b: Seq<PlaceAttr>,
    c: Seq<PlaceAttr>,
    low: u64,
    size: u64,
)
    requires
        beside_ranges(a),
        beside_ranges(b),
        beside_ranges(c),
    ensures
        ({
            let begin = PlaceAttr { at: 0x11, value: PlaceValue::Address(low) };
            let long = PlaceAttr { at: 0x12, value: PlaceValue::Size(size) };
            let wanted = if low + size > u64::MAX {
                Overflow::EndFrom(low)
            } else {
                Overflow::Fits
            };
            &&& range_overflow(sections, unit, head, a + (seq![begin] + (b + (seq![long] + c))), None, None) == wanted
            &&& range_overflow(sections, unit, head, a + (seq![long] + (b + (seq![begin] + c))), None, None) == wanted
        }),
{
    let begin = PlaceAttr { at: 0x11, value: PlaceValue::Address(low) };
    let long = PlaceAttr { at: 0x12, value: PlaceValue::Size(size) };
    let none = Seq::<PlaceAttr>::empty();
    assert(c + none =~= c);
    lemma_beside_ranges(sections, unit, head, c, none, Some(low), Some(size));
    assert((seq![long] + c).drop_first() =~= c);
    assert((seq![begin] + c).drop_first() =~= c);
    lemma_beside_ranges(sections, unit, head, b, seq![long] + c, Some(low), None);
    lemma_beside_ranges(sections, unit, head, b, seq![begin] + c, None, Some(size));
    let one = seq![begin] + (b + (seq![long] + c));
    let two = seq![long] + (b + (seq![begin] + c));
    assert(one.drop_first() =~= b + (seq![long] + c));
    assert(two.drop_first() =~= b + (seq![begin] + c));
    assert(one[0] == begin && two[0] == long);
    assert((seq![long] + c)[0] == long && (seq![begin] + c)[0] == begin);
    lemma_beside_ranges(sections, unit, head, a, one, None, None);
    lemma_beside_ranges(sections, unit, head, a, two, None, None);
}

/// The first list of ranges counts: one that goes by an index is looked up in the table of its unit, in
/// the section for such lists.
pub proof fn law_range_list(
    sections: Map<Text, Seq<u8>>,
    unit: usize,
    head: UnitHead,
    a: Seq<PlaceAttr>,
    rest: Seq<PlaceAttr>,
    index: usize,
)
    requires
        beside_ranges(a),
    ensures
        range_overflow(
            sections,
            unit,
            head,
            a + (seq![PlaceAttr { at: 0x55, value: PlaceValue::RangesIndex(index) }] + rest),
            None,
            None,
        ) == (match wrapped_list(sections[".debug_rnglists"@], head.ranges_base, index, head.wide) {
            Some(offset) => Overflow::ListAt(offset),
            None => Overflow::Fits,
        }),
{
    let b = seq![PlaceAttr { at: 0x55, value: PlaceValue::RangesIndex(index) }] + rest;
    assert(b[0] == (PlaceAttr { at: 0x55, value: PlaceValue::RangesIndex(index) }));
    lemma_beside_ranges(sections, unit, head, a, b, None, None);
}

/// The first range of an entry begins where gimli finds it, or where a list begins whose offset
/// overflowed, or where a range begins whose end does.
pub proof fn law_range_start(sections: Map<Text, Seq<u8>>, unit: usize, head: UnitHead, off: usize)
    ensures
        ({
            let u = binary_model(sections, unit, head);
            match gimli_attrs(sections, unit, off) {
                None => u.range_start_of(off) is Err,
                Some(attrs) => match range_overflow(sections, unit, head, attrs, None, None) {
                    Overflow::Fits => match gimli_range_start(sections, unit, off) {
                        Some(start) => u.range_start_of(off) == Ok::<_, Fault>(start),
                        None => u.range_start_of(off) is Err,
                    },
                    Overflow::ListAt(offset) => match gimli_list_start(sections, unit, offset) {
                        Some(start) => u.range_start_of(off) == Ok::<_, Fault>(start),
                        None => u.range_start_of(off) is Err,
                    },
                    Overflow::EndFrom(low) => u.range_start_of(off) == Ok::<_, Fault>(Some(low)),
                },
            }
        }),
{
}

/// What a unit that is put together by hand says of an entry is what the first entry at its offset holds,
/// and of an attribute, what the first attribute of its kind holds there.
pub proof fn law_image(limit: usize, entries: Seq<ImageEntry>, addresses: Seq<u64>, i: int, k: int)
    requires
        0 <= i < entries.len(),
        forall|j: int| 0 <= j < i ==> (#[trigger] entries[j]).off != entries[i].off,
        0 <= k < entries[i].attrs@.len(),
        forall|j: int| 0 <= j < k ==> (#[trigger] entries[i].attrs@[j]).at != entries[i].attrs@[k].at,
    ensures
        ({
            let u = image_model(limit, entries, addresses);
            let e = entries[i];
            let a = e.attrs@[k];
            &&& u.limit() == limit
            &&& u.shape_at(e.off) == Ok::<_, Fault>(e.shape)
            &&& u.sibling_of(e.off) == Ok::<_, Fault>(e.sibling)
            &&& u.range_start_of(e.off) == Ok::<_, Fault>(e.range_start)
            &&& u.value_at(e.off, a.at) == Ok::<_, Fault>(Some(a.value))
            &&& u.text_at(e.off, a.at) == Ok::<_, Fault>(opt_text(a.text))
            &&& u.address_at(e.off, a.at) == Ok::<_, Fault>(a.address)
            &&& u.ops_at(e.off, a.at) matches Ok(ops) && ops.len() == a.ops@.len() && forall|j: int|
                0 <= j < ops.len() ==> #[trigger] ops[j] == Some(a.ops@[j])
        }),
{
    let at_off = |j: int| entries[j].off == entries[i].off;
    lemma_first_from(entries.len() as int, at_off, 0);
    assert(at_off(i));
    let p = entry_position(entries, entries[i].off).unwrap();
    assert(at_off(p));
    if p < i {
        assert(entries[p].off != entries[i].off);
    }
    let attrs = entries[i].attrs@;
    let of_kind = |j: int| attrs[j].at == attrs[k].at;
    lemma_first_from(attrs.len() as int, of_kind, 0);
    assert(of_kind(k));
    let q = attr_position(attrs, attrs[k].at).unwrap();
    assert(of_kind(q));
    if q < k {
        assert(attrs[q].at != attrs[k].at);
    }
}

/// The operations of an expression are taken one for one, those that cannot be read as nothing, and so are
/// the locations of a list.
pub proof fn law_one_for_one(
    ops: Seq<Result<DwarfOp, gimli::Error>>,
    list: Seq<Result<Location, gimli::Error>>,
    i: int,
)
    ensures
        readable(ops).len() == ops.len(),
        0 <= i < ops.len() ==> match ops[i] {
            Ok(op) => readable(ops)[i] == Some(op),
            Err(_) => readable(ops)[i] is None,
        },
        readable_locations(list).len() == list.len(),
        0 <= i < list.len() ==> match list[i] {
            Ok(l) => readable_locations(list)[i] matches Some(v) && v.begin == l.begin && v.end == l.end && v.ops
                == readable(l.ops@),
            Err(_) => readable_locations(list)[i] is None,
        },
{
}

} // verus!
