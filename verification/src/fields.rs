//! The layouts of types: their fields, in the order of their offsets.

use vstd::prelude::*;

use crate::debug_unit::AT_ALIGNMENT;
use crate::debug_unit::AT_BYTE_SIZE;
use crate::debug_unit::AT_MEMBER_LOCATION;
use crate::debug_unit::AT_NAME;
use crate::debug_unit::DebugUnit;
use crate::debug_unit::DwarfError;
use crate::debug_unit::UnitModel;
use crate::debug_unit::Fault;
use crate::debug_unit::Shape;
use crate::debug_unit::fault;
use crate::debug_unit::TAG_MEMBER;
use crate::entries::attr_u64;
use crate::entries::later;
use crate::entries::left_from;
use crate::entries::lemma_prefixed;
use crate::entries::member_type_of;
use crate::entries::name_or;
use crate::entries::number_at;
use crate::entries::qualified;
use crate::entries::qualify;
use crate::entries::prefixed;
use crate::entries::resolve_member_type;
use crate::meta::Field;
use crate::meta::FieldV;
use crate::meta::TypeLayout;
use crate::meta::TypeV;
use crate::meta::views;
use crate::text::Text;
use crate::text::texts;

verus! {

// ---- fields ----

/// `fields`, in the order of their offsets, with `f` put before those that do not come before it.
pub open spec fn with_field(f: FieldV, fields: Seq<FieldV>) -> Seq<FieldV>
    decreases fields.len(),
{
    if fields.len() == 0 || f.offset <= fields[0].offset {
        seq![f] + fields
    } else {
        seq![fields[0]] + with_field(f, fields.drop_first())
    }
}

/// The fields in the order of their offsets; those at the same offset stay in the order they came in.
pub open spec fn by_offset(fields: Seq<FieldV>) -> Seq<FieldV>
    decreases fields.len(),
{
    if fields.len() == 0 {
        Seq::empty()
    } else {
        with_field(fields[0], by_offset(fields.drop_first()))
    }
}

/// The field that an entry describes.
pub open spec fn field_at(u: UnitModel, off: usize) -> Result<FieldV, Fault> {
    match u.text_at(off, AT_NAME) {
        Err(f) => Err(f),
        Ok(name) => match number_at(u, off, AT_MEMBER_LOCATION) {
            Err(f) => Err(f),
            Ok(offset) => match member_type_of(u, off) {
                Err(f) => Err(f),
                Ok(ty) => Ok(
                    FieldV {
                        name: name_or(name, Seq::empty()),
                        offset: match offset {
                            Some(n) => n,
                            None => 0u64,
                        },
                        size: ty.1,
                        ty_name: ty.0,
                        kind: ty.2,
                    },
                ),
            },
        },
    }
}

/// The field that an entry describes, if it describes one.
pub open spec fn fields_here(u: UnitModel, off: usize, shape: Shape) -> Result<Seq<FieldV>, Fault> {
    if shape.tag == TAG_MEMBER {
        match field_at(u, off) {
            Err(f) => Err(f),
            Ok(one) => Ok(seq![one]),
        }
    } else {
        Ok(Seq::empty())
    }
}

/// The fields among the entries from a position on that have the same parent.
pub open spec fn fields_from(u: UnitModel, pos: Option<usize>) -> Result<Seq<FieldV>, Fault>
    decreases left_from(u, pos),
{
    match pos {
        None => Ok(Seq::empty()),
        Some(p) => match u.shape_at(p) {
            Err(f) => Err(f),
            Ok(shape) => if !shape.present {
                Ok(Seq::empty())
            } else {
                match fields_here(u, p, shape) {
                    Err(f) => Err(f),
                    Ok(here) => match u.sibling_of(p) {
                        Err(f) => Err(f),
                        Ok(next) => prefixed(here, fields_from(u, later(u, p, next))),
                    },
                }
            },
        },
    }
}

/// Where a field goes among fields in the order of their offsets.
proof fn lemma_with_field(f: FieldV, fields: Seq<FieldV>, k: int)
    requires
        0 <= k <= fields.len(),
        forall|i: int| 0 <= i < k ==> (#[trigger] fields[i]).offset < f.offset,
        k < fields.len() ==> f.offset <= fields[k].offset,
    ensures
        with_field(f, fields) == fields.insert(k, f),
    decreases fields.len(),
{
    if k == 0 {
        assert(with_field(f, fields) =~= fields.insert(0, f));
    } else {
        assert(fields[0].offset < f.offset);
        let rest = fields.drop_first();
        assert forall|i: int| 0 <= i < k - 1 implies (#[trigger] rest[i]).offset < f.offset by {
            assert(rest[i] == fields[i + 1]);
        }
        lemma_with_field(f, rest, k - 1);
        assert(with_field(f, fields) =~= fields.insert(k, f));
    }
}

/// Puts fields in the order of their offsets; those at the same offset keep their order.
pub fn sort_fields(fields: Vec<Field>) -> (r: Vec<Field>)
    ensures
        views(r@) == by_offset(views(fields@)),
{
    let ghost all = views(fields@);
    let mut left: Vec<Field> = fields;
    let mut sorted: Vec<Field> = Vec::new();
    assert(views(left@) =~= all.take(all.len() as int));
    assert(all.skip(all.len() as int) =~= Seq::<FieldV>::empty());
    assert(views(sorted@) =~= Seq::<FieldV>::empty());
    while left.len() > 0
        invariant
            left@.len() <= all.len(),
            views(left@) == all.take(left@.len() as int),
            views(sorted@) == by_offset(all.skip(left@.len() as int)),
        decreases left.len(),
    {
        let ghost n = left@.len() as int;
        let ghost before = views(left@);
        if let Some(f) = left.pop() {
            let ghost placed = views(sorted@);
            assert(f@ == before[n - 1]);
            let mut k: usize = 0;
            while k < sorted.len() && sorted[k].offset < f.offset
                invariant
                    k <= sorted.len(),
                    placed == views(sorted@),
                    forall|i: int| 0 <= i < k ==> (#[trigger] placed[i]).offset < f.offset,
                decreases sorted.len() - k,
            {
                assert(placed[k as int] == sorted@[k as int]@);
                k += 1;
            }
            proof {
                if k < sorted.len() {
                    assert(placed[k as int] == sorted@[k as int]@);
                }
                lemma_with_field(f@, placed, k as int);
                assert(all.skip(n - 1).drop_first() =~= all.skip(n));
                assert(all.skip(n - 1)[0] == f@);
            }
            sorted.insert(k, f);
            assert(views(sorted@) =~= placed.insert(k as int, f@));
            assert(views(left@) =~= all.take(n - 1));
        }
    }
    assert(all.skip(0) =~= all);
    sorted
}

/// The field that an entry describes.
fn read_field<U: DebugUnit>(u: &U, off: usize) -> (r: Result<Field, DwarfError>)
    ensures
        match r {
            Ok(f) => field_at(u.model(), off) == Ok::<FieldV, Fault>(f@),
            Err(e) => field_at(u.model(), off) == Err::<FieldV, Fault>(fault(e)),
        },
{
    let name: String = match u.text(off, AT_NAME)? {
        Some(n) => n,
        None => String::new(),
    };
    let offset: u64 = match attr_u64(u, off, AT_MEMBER_LOCATION)? {
        Some(n) => n,
        None => 0,
    };
    let (ty_name, size, kind) = resolve_member_type(u, off)?;
    assert(name_or(None, Seq::<char>::empty()) =~= Seq::<char>::empty());
    Ok(Field { name, offset, size, ty_name, kind })
}

/// The fields of a type, from its first child on, in the order of the entries.
fn read_fields<U: DebugUnit>(u: &U, first: Option<usize>) -> (r: Result<Vec<Field>, DwarfError>)
    ensures
        match r {
            Ok(list) => fields_from(u.model(), first) == Ok::<Seq<FieldV>, Fault>(views(list@)),
            Err(e) => fields_from(u.model(), first) == Err::<Seq<FieldV>, Fault>(fault(e)),
        },
{
    let mut fields: Vec<Field> = Vec::new();
    let mut pos: Option<usize> = first;
    proof {
        assert(views(fields@) =~= Seq::<FieldV>::empty());
        lemma_prefixed(Seq::empty(), Seq::empty(), fields_from(u.model(), first));
    }
    while pos.is_some()
        invariant
            fields_from(u.model(), first) == prefixed(views(fields@), fields_from(u.model(), pos)),
        decreases left_from(u.model(), pos),
    {
        let p: usize = pos.unwrap();
        let ghost before = views(fields@);
        let shape = u.shape(p)?;
        if !shape.present {
            proof {
                lemma_prefixed(before, before, Ok(Seq::empty()));
            }
            return Ok(fields);
        }
        if shape.tag == TAG_MEMBER {
            let one = read_field(u, p)?;
            fields.push(one);
            assert(views(fields@) =~= before + seq![one@]);
        } else {
            assert(before + Seq::<FieldV>::empty() =~= before);
        }
        let next = u.sibling(p)?;
        proof {
            assert(later(u.model(), p, next) == next);
            let here = fields_here(u.model(), p, shape)->Ok_0;
            lemma_prefixed(before, here, fields_from(u.model(), next));
        }
        pos = next;
    }
    proof {
        lemma_prefixed(views(fields@), Seq::empty(), Ok(Seq::empty()));
    }
    Ok(fields)
}

/// The layout that an entry describes; none where it has no name or no size.
pub open spec fn layout_at(u: UnitModel, off: usize, first: Option<usize>, ns: Seq<Text>) -> Result<
    Option<TypeV>,
    Fault,
> {
    match u.text_at(off, AT_NAME) {
        Err(f) => Err(f),
        Ok(None) => Ok(None),
        Ok(Some(local)) => match number_at(u, off, AT_BYTE_SIZE) {
            Err(f) => Err(f),
            Ok(None) => Ok(None),
            Ok(Some(size)) => match number_at(u, off, AT_ALIGNMENT) {
                Err(f) => Err(f),
                Ok(align) => match fields_from(u, first) {
                    Err(f) => Err(f),
                    Ok(fields) => Ok(
                        Some(TypeV { name: qualified(ns, local), size, align, fields: by_offset(fields) }),
                    ),
                },
            },
        },
    }
}

/// The layout of the structure, union or enumeration that an entry describes.
pub fn read_struct<U: DebugUnit>(u: &U, off: usize, first: Option<usize>, ns: &Vec<String>) -> (r: Result<
    Option<TypeLayout>,
    DwarfError,
>)
    ensures
        match r {
            Ok(Some(t)) => layout_at(u.model(), off, first, texts(ns@)) == Ok::<Option<TypeV>, Fault>(Some(t@)),
            Ok(None) => layout_at(u.model(), off, first, texts(ns@)) == Ok::<Option<TypeV>, Fault>(None),
            Err(e) => layout_at(u.model(), off, first, texts(ns@)) == Err::<Option<TypeV>, Fault>(fault(e)),
        },
{
    let local: String = match u.text(off, AT_NAME)? {
        Some(n) => n,
        None => {
            return Ok(None);
        },
    };
    let size: u64 = match attr_u64(u, off, AT_BYTE_SIZE)? {
        Some(n) => n,
        None => {
            return Ok(None);
        },
    };
    let align = attr_u64(u, off, AT_ALIGNMENT)?;
    let fields = read_fields(u, first)?;
    Ok(Some(TypeLayout { name: qualify(ns, local), size, align, fields: sort_fields(fields) }))
}

// ---- laws ----

/// The fields at one offset, in order.
pub open spec fn at_offset(fields: Seq<FieldV>, offset: u64) -> Seq<FieldV>
    decreases fields.len(),
{
    if fields.len() == 0 {
        Seq::empty()
    } else if fields[0].offset == offset {
        seq![fields[0]] + at_offset(fields.drop_first(), offset)
    } else {
        at_offset(fields.drop_first(), offset)
    }
}

/// Whether the offsets of fields do not decrease.
pub open spec fn in_offset_order(fields: Seq<FieldV>) -> bool {
    forall|i: int, j: int| 0 <= i <= j < fields.len() ==> (#[trigger] fields[i]).offset <= (#[trigger] fields[j]).offset
}

/// What one more field does to the order of the fields, and to the fields at one offset.
proof fn lemma_with_field_order(f: FieldV, fields: Seq<FieldV>, offset: u64)
    requires
        in_offset_order(fields),
    ensures
        in_offset_order(with_field(f, fields)),
        with_field(f, fields).len() == fields.len() + 1,
        fields.len() > 0 ==> with_field(f, fields)[0] == f || with_field(f, fields)[0] == fields[0],
        at_offset(with_field(f, fields), offset) == at_offset(seq![f] + fields, offset),
    decreases fields.len(),
{
    let r = with_field(f, fields);
    if fields.len() == 0 || f.offset <= fields[0].offset {
        assert(r =~= seq![f] + fields);
        assert forall|i: int, j: int| 0 <= i <= j < r.len() implies (#[trigger] r[i]).offset <= (#[trigger] r[j]).offset by {
            if j > 0 {
                assert(r[j] == fields[j - 1]);
                assert(fields[0].offset <= fields[j - 1].offset);
                if i > 0 {
                    assert(r[i] == fields[i - 1]);
                }
            }
        }
    } else {
        let rest = fields.drop_first();
        assert forall|i: int, j: int| 0 <= i <= j < rest.len() implies (#[trigger] rest[i]).offset <= (
        #[trigger] rest[j]).offset by {
            assert(fields[i + 1].offset <= fields[j + 1].offset);
        }
        lemma_with_field_order(f, rest, offset);
        let tail = with_field(f, rest);
        assert(r =~= seq![fields[0]] + tail);
        assert(tail[0].offset >= fields[0].offset) by {
            if rest.len() > 0 {
                assert(rest[0] == fields[1]);
                assert(fields[0].offset <= fields[1].offset);
            }
        }
        assert forall|i: int, j: int| 0 <= i <= j < r.len() implies (#[trigger] r[i]).offset <= (#[trigger] r[j]).offset by {
            if j > 0 {
                assert(r[j] == tail[j - 1]);
                assert(tail[0].offset <= tail[j - 1].offset);
                if i > 0 {
                    assert(r[i] == tail[i - 1]);
                }
            }
        }
        assert(r.drop_first() =~= tail);
        assert((seq![f] + fields).drop_first() =~= fields);
        assert((seq![f] + rest).drop_first() =~= rest);
        // `f` lies behind the first field, so at most one of the two is at the offset.
        let ff = seq![f] + fields;
        let fr = seq![f] + rest;
        assert(ff[0] == f && fr[0] == f && r[0] == fields[0]);
        assert(at_offset(tail, offset) == at_offset(fr, offset));
        if offset == f.offset {
            assert(at_offset(fr, offset) == seq![f] + at_offset(rest, offset));
            assert(at_offset(ff, offset) == seq![f] + at_offset(fields, offset));
        } else {
            assert(at_offset(fr, offset) == at_offset(rest, offset));
            assert(at_offset(ff, offset) == at_offset(fields, offset));
        }
    }
}

/// Sorting puts the fields in the order of their offsets and changes nothing else: at every offset the
/// same fields stand in the same order as before.
pub proof fn law_by_offset(fields: Seq<FieldV>, offset: u64)
    ensures
        in_offset_order(by_offset(fields)),
        by_offset(fields).len() == fields.len(),
        at_offset(by_offset(fields), offset) == at_offset(fields, offset),
    decreases fields.len(),
{
    if fields.len() > 0 {
        let rest = fields.drop_first();
        law_by_offset(rest, offset);
        lemma_with_field_order(fields[0], by_offset(rest), offset);
        let both = seq![fields[0]] + by_offset(rest);
        assert(both.drop_first() =~= by_offset(rest));
    }
}

} // verus!
