//! Laws of what single entries of debug information say, over their attributes.

use vstd::prelude::*;

use crate::debug_unit::AttrValue;
use crate::debug_unit::Fault;
use crate::debug_unit::LocationV;
use crate::debug_unit::Shape;
use crate::debug_unit::UnitModel;
use crate::entries::first_child_of;
use crate::entries::kind_of_encoding;
use crate::entries::later;
use crate::entries::left_from;
use crate::entries::member_type_of;
use crate::entries::names_of;
use crate::entries::qualified;
use crate::entries::type_of;
use crate::fields::by_offset;
use crate::fields::field_at;
use crate::fields::fields_from;
use crate::fields::layout_at;
use crate::location::entry_text;
use crate::location::places;
use crate::location::reg_name;
use crate::location::DwarfOp;
use crate::meta::FieldV;
use crate::meta::ParamV;
use crate::meta::ScalarKind;
use crate::names::clean;
use crate::names::demangled;
use crate::params::param_at;
use crate::params::params_from;
use crate::params::place_on_entry;
use crate::regs::law_register_read;
use crate::regs::Regs;
use crate::symbols::function_at;
use crate::symbols::inlined_copy;
use crate::symbols::variable_of;
use crate::text::joined;
use crate::text::Text;
use crate::walk::behind;
use crate::walk::inner_namespaces;
use crate::walk::unit_walked;
use crate::walk::visited;
use crate::walk::walked;
use crate::walk::walked_children;
use crate::walk::TallyV;

verus! {

// ---- registers and places ----

/// What the registers hold, in the order in which debug information numbers them.
pub open spec fn numbered(regs: Regs) -> Seq<u64> {
    seq![
        regs.rax, regs.rdx, regs.rcx, regs.rbx, regs.rsi, regs.rdi, regs.rbp, regs.rsp,
        regs.r8, regs.r9, regs.r10, regs.r11, regs.r12, regs.r13, regs.r14, regs.r15, regs.rip,
    ]
}

/// Reading the register that debug information numbers `n`, by its name, gives what that register holds;
/// just the numbers of the general registers and of the instruction pointer have names.
pub proof fn law_register_numbers(regs: Regs, n: u16)
    ensures
        n < 17 <==> reg_name(n) is Some,
        n < 17 ==> regs.value_of(reg_name(n).unwrap()) == Some(numbered(regs)[n as int]),
{
    if let Some(name) = reg_name(n) {
        law_register_read(regs, name);
    }
}

/// Whether an operation of a location expression names no place that can be told: it is neither a
/// register, nor memory that a known register points at, nor the end of a piece.
pub open spec fn untold(op: DwarfOp) -> bool {
    match op {
        DwarfOp::Register(_) => false,
        DwarfOp::Piece => false,
        DwarfOp::RegisterOffset(n, _) => n > 16,
        DwarfOp::Address(_) => true,
        DwarfOp::AddressIndex(_) => true,
        DwarfOp::Other => true,
    }
}

/// A value that lies in several pieces has the places of all of them, in order, up to the first operation
/// that cannot be read; one operation that cannot be told is enough for nothing to be told of the value.
pub proof fn law_places(a: Seq<Option<DwarfOp>>, b: Seq<Option<DwarfOp>>)
    requires
        forall|i: int| 0 <= i < a.len() ==> (#[trigger] a[i]) is Some,
    ensures
        (forall|i: int| 0 <= i < a.len() ==> !untold((#[trigger] a[i]).unwrap())) <==> places(a) is Some,
        places(a) is None ==> places(a + b) is None,
        places(a) is Some && b.len() > 0 && b[0] is None ==> places(a + b) == places(a),
        places(a) is Some && places(b) is Some ==> places(a + b) == Some(places(a).unwrap() + places(b).unwrap()),
        places(a) is Some && places(b) is None ==> places(a + b) is None,
    decreases a.len(),
{
    if a.len() == 0 {
        assert(a + b =~= b);
        assert(places(b) is Some ==> Seq::<Text>::empty() + places(b).unwrap() =~= places(b).unwrap());
    } else {
        let rest = a.drop_first();
        assert forall|i: int| 0 <= i < rest.len() implies (#[trigger] rest[i]) is Some by {
            assert(a[i + 1] is Some);
        }
        law_places(rest, b);
        assert((a + b).drop_first() =~= rest + b);
        assert(a[0] is Some);
        if places(a) is None && places(rest) is Some {
            assert(untold(a[0].unwrap()));
        }
        if forall|i: int| 0 <= i < a.len() ==> !untold((#[trigger] a[i]).unwrap()) {
            assert forall|i: int| 0 <= i < rest.len() implies !untold((#[trigger] rest[i]).unwrap()) by {
                assert(!untold(a[i + 1].unwrap()));
            }
        }
        if places(a) is Some {
            assert forall|i: int| 0 <= i < a.len() implies !untold((#[trigger] a[i]).unwrap()) by {
                if i > 0 {
                    assert(!untold(rest[i - 1].unwrap()));
                }
            }
        }
        if places(a) is Some && places(b) is Some {
            assert(places(a + b).unwrap() =~= places(a).unwrap() + places(b).unwrap());
        }
    }
}

/// A register that is named, one that is not, and the end of a piece, each on its own.
pub proof fn law_one_place(n: u16, off: i64)
    ensures
        entry_text(seq![Some(DwarfOp::Register(n))]) == reg_name(n),
        entry_text(seq![Some(DwarfOp::Piece)]) is None,
        n > 16 ==> entry_text(seq![Some(DwarfOp::RegisterOffset(n, off))]) is None,
        n <= 16 ==> entry_text(seq![Some(DwarfOp::RegisterOffset(n, 0))]) == Some(
            seq!['['] + reg_name(n).unwrap() + seq![']'],
        ),
{
    reveal_with_fuel(places, 2);
    let none = Seq::<Option<DwarfOp>>::empty();
    assert(places(none) == Some(Seq::<Text>::empty()));
    let reg = seq![Some(DwarfOp::Register(n))];
    assert(reg.drop_first() =~= none);
    if n <= 16 {
        assert(places(reg).unwrap() =~= seq![reg_name(n).unwrap()]);
    } else {
        assert(places(reg).unwrap() =~= Seq::empty());
    }
    assert(seq![Some(DwarfOp::Piece)].drop_first() =~= none);
    assert(seq![Some(DwarfOp::RegisterOffset(n, off))].drop_first() =~= none);
    let at = seq![Some(DwarfOp::RegisterOffset(n, 0))];
    assert(at.drop_first() =~= none);
    if n <= 16 {
        assert(places(at).unwrap() =~= seq![seq!['['] + reg_name(n).unwrap() + seq![']']]);
    }
}

/// Whether the range at `j` is the earliest of the first `n` of a list, and the first of those that begin
/// at its address.
pub open spec fn earliest_in(list: Seq<Option<LocationV>>, n: int, j: int) -> bool {
    &&& 0 <= j < n
    &&& forall|k: int| 0 <= k < n ==> list[j].unwrap().begin <= (#[trigger] list[k]).unwrap().begin
    &&& forall|k: int| 0 <= k < j ==> list[j].unwrap().begin < (#[trigger] list[k]).unwrap().begin
}

/// The place of the earliest of the first `n` ranges of a list.
pub open spec fn earliest_place(list: Seq<Option<LocationV>>, n: int) -> Option<Text> {
    if n <= 0 {
        None
    } else {
        entry_text(list[choose|j: int| earliest_in(list, n, j)].unwrap().ops)
    }
}

/// The earliest of some ranges, one by one.
proof fn lemma_earliest(list: Seq<Option<LocationV>>, low: u64, n: int) -> (j: int)
    requires
        0 <= n <= list.len(),
        forall|k: int| 0 <= k < n ==> (#[trigger] list[k]) is Some && !covers(list[k].unwrap(), low),
    ensures
        n > 0 ==> earliest_in(list, n, j),
        place_on_entry(list, low, None) == place_on_entry(
            list.skip(n),
            low,
            if n == 0 {
                None
            } else {
                Some((list[j].unwrap().begin, entry_text(list[j].unwrap().ops)))
            },
        ),
    decreases n,
{
    if n == 0 {
        assert(list.skip(0) =~= list);
        0
    } else {
        let j = lemma_earliest(list, low, n - 1);
        let l = list[n - 1].unwrap();
        assert(list.skip(n - 1)[0] == list[n - 1]);
        assert(list.skip(n - 1).drop_first() =~= list.skip(n));
        if n == 1 || l.begin < list[j].unwrap().begin {
            n - 1
        } else {
            j
        }
    }
}

/// Whether a range covers an address: it begins at it or before it, and ends behind it.
pub open spec fn covers(l: LocationV, low: u64) -> bool {
    l.begin <= low < l.end
}

/// A parameter lies on entry where the first range says that covers the entry. Where no range does, and
/// also where that place cannot be told, it lies where the earliest range says that comes before in the
/// list. A range that cannot be read before the entry was found covered is an error.
pub proof fn law_place_on_entry(list: Seq<Option<LocationV>>, low: u64, i: int)
    requires
        0 <= i <= list.len(),
        forall|k: int| 0 <= k < i ==> (#[trigger] list[k]) is Some && !covers(list[k].unwrap(), low),
        i < list.len() ==> list[i] is None || covers(list[i].unwrap(), low),
    ensures
        i > 0 ==> exists|j: int| earliest_in(list, i, j),
        place_on_entry(list, low, None) == (if i == list.len() {
            Ok(earliest_place(list, i))
        } else if list[i] is None {
            Err(Fault::Unreadable)
        } else if entry_text(list[i].unwrap().ops) is Some {
            Ok(entry_text(list[i].unwrap().ops))
        } else {
            Ok(earliest_place(list, i))
        }),
{
    let j = lemma_earliest(list, low, i);
    if i > 0 {
        let c = choose|j: int| earliest_in(list, i, j);
        assert(earliest_in(list, i, c));
        assert(list[c] is Some && list[j] is Some);
        if c < j {
            assert(list[j].unwrap().begin < list[c].unwrap().begin);
        }
        if j < c {
            assert(list[c].unwrap().begin < list[j].unwrap().begin);
        }
        assert(c == j);
    }
    if i < list.len() {
        assert(list.skip(i)[0] == list[i]);
    }
}

// ---- names and types ----

/// Whether an entry says its name only by another, which is there: it has no linkage name of its own, and
/// refers to the other by what it completes, or else by what it is a copy of.
pub open spec fn refers_to(u: UnitModel, off: usize, to: usize) -> bool {
    &&& u.text_at(off, 0x6e) == Ok::<Option<Text>, Fault>(None)
    &&& ({
        ||| u.value_at(off, 0x47) == Ok::<Option<AttrValue>, Fault>(Some(AttrValue::UnitRef(to)))
        ||| u.value_at(off, 0x47) == Ok::<Option<AttrValue>, Fault>(None) && u.value_at(off, 0x31) == Ok::<
            Option<AttrValue>,
            Fault,
        >(Some(AttrValue::UnitRef(to)))
    })
    &&& u.shape_at(to) matches Ok(s) && s.present
}

/// The names of a function are those of the entry that it leads to, over up to four references, if that
/// one has a linkage name: this name, and what can be read out of it.
pub proof fn law_names_by_reference(u: UnitModel, chain: Seq<usize>, link: Text, depth: u32)
    requires
        chain.len() > 0,
        depth + chain.len() <= 5,
        forall|k: int| 0 <= k < chain.len() - 1 ==> refers_to(u, #[trigger] chain[k], chain[k + 1]),
        u.text_at(chain.last(), 0x6e) == Ok::<Option<Text>, Fault>(Some(link)),
    ensures
        names_of(u, chain[0], depth) == Ok::<(Option<Text>, Option<Text>), Fault>(
            (Some(link), Some(clean(demangled(link)))),
        ),
    decreases chain.len(),
{
    if chain.len() > 1 {
        let rest = chain.drop_first();
        assert(refers_to(u, chain[0], chain[1]));
        assert forall|k: int| 0 <= k < rest.len() - 1 implies refers_to(u, #[trigger] rest[k], rest[k + 1]) by {
            assert(refers_to(u, chain[k + 1], chain[k + 2]));
        }
        law_names_by_reference(u, rest, link, (depth + 1) as u32);
    }
}

/// A function without a linkage name that refers to no other entry is called by its own name.
pub proof fn law_own_name(u: UnitModel, off: usize, depth: u32)
    requires
        u.text_at(off, 0x6e) == Ok::<Option<Text>, Fault>(None),
        u.value_at(off, 0x47) == Ok::<Option<AttrValue>, Fault>(None),
        u.value_at(off, 0x31) == Ok::<Option<AttrValue>, Fault>(None),
        depth <= 4,
    ensures
        names_of(u, off, depth) matches Ok(names) ==> u.text_at(off, 0x03) matches Ok(name) && names.0 is None
            && names.1 == name,
        names_of(u, off, depth) is Ok <==> u.text_at(off, 0x03) is Ok,
{
}

/// A function that refers to an entry that leads to no name is called by its own name, or by that of what
/// it is a copy of, if that one leads to a name.
pub proof fn law_nameless_reference(u: UnitModel, off: usize, to: usize, depth: u32)
    requires
        depth < 4,
        u.text_at(off, 0x6e) == Ok::<Option<Text>, Fault>(None),
        u.value_at(off, 0x47) == Ok::<Option<AttrValue>, Fault>(Some(AttrValue::UnitRef(to))),
        u.shape_at(to) matches Ok(s) && s.present,
        names_of(u, to, (depth + 1) as u32) matches Ok(names) && names.1 is None,
    ensures
        u.value_at(off, 0x31) == Ok::<Option<AttrValue>, Fault>(None) && u.text_at(off, 0x03) is Ok ==> names_of(
            u,
            off,
            depth,
        ) == Ok::<(Option<Text>, Option<Text>), Fault>((None, u.text_at(off, 0x03)->Ok_0)),
        u.value_at(off, 0x31) matches Ok(Some(AttrValue::UnitRef(other))) ==> (u.shape_at(other) matches Ok(s)
            && s.present) ==> (names_of(u, other, (depth + 1) as u32) matches Ok(names) && names.1 is Some) ==> names_of(
            u,
            off,
            depth,
        ) == names_of(u, other, (depth + 1) as u32),
{
}

/// After four references no further one is followed: what is left is the entry's own name.
pub proof fn law_names_end(u: UnitModel, off: usize)
    requires
        u.text_at(off, 0x6e) == Ok::<Option<Text>, Fault>(None),
        u.text_at(off, 0x03) is Ok,
    ensures
        names_of(u, off, 4) == Ok::<(Option<Text>, Option<Text>), Fault>((None, u.text_at(off, 0x03)->Ok_0)),
{
}

/// The number that an attribute holds, as a law puts it: the numbers of all three forms, a negative one
/// by its bits.
pub open spec fn number_said(v: Option<AttrValue>, n: Option<u64>) -> bool {
    match v {
        Some(AttrValue::Udata(k)) => n == Some(k),
        Some(AttrValue::Data(k)) => n == Some(k),
        Some(AttrValue::Sdata(k)) => n matches Some(m) && (k >= 0 && m == k || k < 0 && m == k
            + 0x1_0000_0000_0000_0000),
        _ => n is None,
    }
}

/// The type of what an entry describes: the name and the size of the entry that it refers to as its
/// type.
pub proof fn law_type_of(u: UnitModel, off: usize)
    ensures
        type_of(u, off) matches Ok(ty) ==> u.value_at(off, 0x49) matches Ok(v) && match v {
            Some(AttrValue::UnitRef(to)) => {
                &&& u.shape_at(to) matches Ok(s) && s.present
                &&& u.text_at(to, 0x03) matches Ok(name) && ty.0 == (match name {
                    Some(n) => n,
                    None => "<anon>"@,
                })
                &&& u.value_at(to, 0x0b) matches Ok(size) && number_said(size, ty.1)
            },
            _ => ty.0 == "<unknown>"@ && ty.1 is None,
        },
        type_of(u, off) is Err <==> {
            ||| u.value_at(off, 0x49) is Err
            ||| (u.value_at(off, 0x49) matches Ok(Some(AttrValue::UnitRef(to))) && (u.text_at(to, 0x03) is Err
                || u.value_at(to, 0x0b) is Err || !(u.shape_at(to) matches Ok(s) && s.present)))
        },
{
}

/// How values of base types are read goes by the numbers of their encodings: 2 for truth values, 4 for
/// floats, 5 for signed numbers, 7 and 8 for unsigned ones.
pub proof fn law_encodings(e: u8, n: u64, v: Option<AttrValue>)
    ensures
        kind_of_encoding(Some(AttrValue::Encoding(e))) == ScalarKind::Bool <==> e == 2,
        kind_of_encoding(Some(AttrValue::Encoding(e))) == ScalarKind::Float <==> e == 4,
        kind_of_encoding(Some(AttrValue::Encoding(e))) == ScalarKind::Signed <==> e == 5,
        kind_of_encoding(Some(AttrValue::Encoding(e))) == ScalarKind::Unsigned <==> e == 7 || e == 8,
        kind_of_encoding(Some(AttrValue::Encoding(e))) == ScalarKind::Other <==> e != 2 && e != 4 && e != 5 && e
            != 7 && e != 8,
        n % 0x10000 == e ==> kind_of_encoding(Some(AttrValue::Udata(n))) == kind_of_encoding(
            Some(AttrValue::Encoding(e)),
        ),
        n % 0x10000 > 255 ==> kind_of_encoding(Some(AttrValue::Udata(n))) == ScalarKind::Other,
        !(v matches Some(AttrValue::Encoding(_))) && !(v matches Some(AttrValue::Udata(_))) ==> kind_of_encoding(v)
            == ScalarKind::Other,
{
}

/// The type of a member: its name, its size, and how a value of it is read. A pointer without a size has
/// that of an address, and a base type is read as its encoding says.
pub proof fn law_member_type(u: UnitModel, off: usize)
    ensures
        member_type_of(u, off) matches Ok(ty) ==> u.value_at(off, 0x49) matches Ok(v) && match v {
            Some(AttrValue::UnitRef(to)) => u.shape_at(to) matches Ok(s) && {
                &&& s.present
                &&& u.text_at(to, 0x03) matches Ok(name) && ty.0 == (match name {
                    Some(n) => n,
                    None => "<anon>"@,
                })
                &&& u.value_at(to, 0x0b) matches Ok(size) && {
                    ||| number_said(size, Some(ty.1)) && (ty.1 != 0 || s.tag != 0x0f)
                    ||| (number_said(size, None) || number_said(size, Some(0))) && ty.1 == (if s.tag == 0x0f {
                        8u64
                    } else {
                        0u64
                    })
                }
                &&& s.tag == 0x0f <==> ty.2 == ScalarKind::Pointer
                &&& s.tag == 0x24 ==> (u.value_at(to, 0x3e) matches Ok(e) && ty.2 == kind_of_encoding(e))
                &&& s.tag != 0x0f && s.tag != 0x24 ==> ty.2 == ScalarKind::Other
            },
            _ => ty.0 == "<unknown>"@ && ty.1 == 0 && ty.2 == ScalarKind::Other,
        },
{
}

// ---- entries with the same parent ----

/// Whether the entries at some positions follow each other, each with the same parent as the one before,
/// and are all of them.
pub open spec fn siblings_from(u: UnitModel, chain: Seq<usize>) -> bool {
    &&& chain.len() > 0
    &&& forall|k: int|
        0 <= k < chain.len() ==> (u.shape_at(#[trigger] chain[k]) matches Ok(s) && s.present) && u.sibling_of(
            chain[k],
        ) is Ok
    &&& forall|k: int|
        0 <= k < chain.len() - 1 ==> u.sibling_of(#[trigger] chain[k]) == Ok::<Option<usize>, Fault>(
            Some(chain[k + 1]),
        ) && chain[k] < chain[k + 1] <= u.limit()
    &&& ends_at(u, chain.last())
}

/// Whether no entry with the same parent comes after the one at `off`.
pub open spec fn ends_at(u: UnitModel, off: usize) -> bool {
    match u.sibling_of(off) {
        Ok(Some(q)) => q <= off || q > u.limit() || (u.shape_at(q) matches Ok(s) && !s.present),
        Ok(None) => true,
        Err(_) => false,
    }
}

/// The tag of the entry at an offset.
pub open spec fn tag_at(u: UnitModel, off: usize) -> u16 {
    u.shape_at(off)->Ok_0.tag
}

/// The test for entries with a tag.
pub open spec fn tagged(u: UnitModel, tag: u16) -> spec_fn(usize) -> bool {
    |off: usize| tag_at(u, off) == tag
}

/// The parameter that each entry describes.
pub open spec fn params_said(u: UnitModel, low: u64) -> spec_fn(usize) -> ParamV {
    |off: usize| param_at(u, off, low)->Ok_0
}

/// The field that each entry describes.
pub open spec fn fields_said(u: UnitModel) -> spec_fn(usize) -> FieldV {
    |off: usize| field_at(u, off)->Ok_0
}

/// What is left of the entries with the same parent after the first.
proof fn lemma_siblings_rest(u: UnitModel, chain: Seq<usize>)
    requires
        siblings_from(u, chain),
        chain.len() > 1,
    ensures
        siblings_from(u, chain.drop_first()),
        chain.drop_first()[0] == chain[1],
{
    let rest = chain.drop_first();
    assert forall|k: int| 0 <= k < rest.len() implies (u.shape_at(#[trigger] rest[k]) matches Ok(s) && s.present)
        && u.sibling_of(rest[k]) is Ok by {
        assert(u.sibling_of(chain[k + 1]) is Ok);
    }
    assert forall|k: int| 0 <= k < rest.len() - 1 implies u.sibling_of(#[trigger] rest[k]) == Ok::<
        Option<usize>,
        Fault,
    >(Some(rest[k + 1])) && rest[k] < rest[k + 1] <= u.limit() by {
        assert(u.sibling_of(chain[k + 1]) == Ok::<Option<usize>, Fault>(Some(chain[k + 2])));
    }
    assert(rest.last() == chain.last());
}

/// The parameters of a function are those of all its children that are parameters, in order.
pub proof fn law_params(u: UnitModel, chain: Seq<usize>, low: u64)
    requires
        siblings_from(u, chain),
        forall|k: int| 0 <= k < chain.len() && tag_at(u, #[trigger] chain[k]) == 0x05 ==> param_at(u, chain[k], low) is Ok,
    ensures
        params_from(u, Some(chain[0]), low) == Ok::<Seq<ParamV>, Fault>(
            chain.filter(tagged(u, 0x05)).map_values(params_said(u, low)),
        ),
    decreases chain.len(),
{
    let is = tagged(u, 0x05);
    let of = params_said(u, low);
    let rest = chain.drop_first();
    assert(chain =~= seq![chain[0]] + rest);
    Seq::filter_distributes_over_add(seq![chain[0]], rest, is);
    let one = seq![chain[0]];
    assert(one.filter(is) =~= (if is(chain[0]) { one } else { Seq::empty() })) by {
        reveal(Seq::filter);
        assert(one.drop_last() =~= Seq::<usize>::empty());
        assert(one.drop_last().filter(is) =~= Seq::<usize>::empty());
    }
    assert(chain.filter(is).map_values(of) =~= one.filter(is).map_values(of) + rest.filter(is).map_values(of));
    assert(u.sibling_of(chain[0]) is Ok);
    if chain.len() > 1 {
        lemma_siblings_rest(u, chain);
        assert forall|k: int| 0 <= k < rest.len() && tag_at(u, #[trigger] rest[k]) == 0x05 implies param_at(
            u,
            rest[k],
            low,
        ) is Ok by {
            assert(tag_at(u, chain[k + 1]) == 0x05);
        }
        law_params(u, rest, low);
        assert(later(u, chain[0], Some(chain[1])) == Some(chain[1]));
    } else {
        reveal(Seq::filter);
        assert(rest.filter(is) =~= Seq::<usize>::empty());
        let next = u.sibling_of(chain[0])->Ok_0;
        assert(params_from(u, later(u, chain[0], next), low) == Ok::<Seq<ParamV>, Fault>(Seq::empty()));
    }
    if is(chain[0]) {
        assert(one.map_values(of) =~= seq![of(chain[0])]);
    } else {
        assert(Seq::<usize>::empty().map_values(of) =~= Seq::empty());
    }
}

/// The fields of a type are those of all its children that are members, in order.
pub proof fn law_fields(u: UnitModel, chain: Seq<usize>)
    requires
        siblings_from(u, chain),
        forall|k: int| 0 <= k < chain.len() && tag_at(u, #[trigger] chain[k]) == 0x0d ==> field_at(u, chain[k]) is Ok,
    ensures
        fields_from(u, Some(chain[0])) == Ok::<Seq<FieldV>, Fault>(
            chain.filter(tagged(u, 0x0d)).map_values(fields_said(u)),
        ),
    decreases chain.len(),
{
    let is = tagged(u, 0x0d);
    let of = fields_said(u);
    let rest = chain.drop_first();
    assert(chain =~= seq![chain[0]] + rest);
    Seq::filter_distributes_over_add(seq![chain[0]], rest, is);
    let one = seq![chain[0]];
    assert(one.filter(is) =~= (if is(chain[0]) { one } else { Seq::empty() })) by {
        reveal(Seq::filter);
        assert(one.drop_last() =~= Seq::<usize>::empty());
        assert(one.drop_last().filter(is) =~= Seq::<usize>::empty());
    }
    assert(chain.filter(is).map_values(of) =~= one.filter(is).map_values(of) + rest.filter(is).map_values(of));
    assert(u.sibling_of(chain[0]) is Ok);
    if chain.len() > 1 {
        lemma_siblings_rest(u, chain);
        assert forall|k: int| 0 <= k < rest.len() && tag_at(u, #[trigger] rest[k]) == 0x0d implies field_at(
            u,
            rest[k],
        ) is Ok by {
            assert(tag_at(u, chain[k + 1]) == 0x0d);
        }
        law_fields(u, rest);
        assert(later(u, chain[0], Some(chain[1])) == Some(chain[1]));
    } else {
        reveal(Seq::filter);
        assert(rest.filter(is) =~= Seq::<usize>::empty());
        let next = u.sibling_of(chain[0])->Ok_0;
        assert(fields_from(u, later(u, chain[0], next)) == Ok::<Seq<FieldV>, Fault>(Seq::empty()));
    }
    if is(chain[0]) {
        assert(one.map_values(of) =~= seq![of(chain[0])]);
    } else {
        assert(Seq::<usize>::empty().map_values(of) =~= Seq::empty());
    }
}

// ---- what an entry describes ----

/// A parameter has the name and the type that its entry says, and lies on entry where a location
/// expression says, or a list of locations.
pub proof fn law_param(u: UnitModel, off: usize, low: u64)
    ensures
        param_at(u, off, low) matches Ok(p) ==> {
            &&& u.text_at(off, 0x03) matches Ok(name) && p.name == (match name {
                Some(n) => n,
                None => Seq::empty(),
            })
            &&& type_of(u, off) == Ok::<(Text, Option<u64>), Fault>((p.ty_name, p.size))
            &&& u.value_at(off, 0x02) matches Ok(v) && match v {
                None => p.entry_reg is None,
                Some(AttrValue::Exprloc) => u.ops_at(off, 0x02) matches Ok(ops) && p.entry_reg == entry_text(ops),
                _ => u.locations_at(off, 0x02) matches Ok(found) && match found {
                    None => p.entry_reg is None,
                    Some(list) => place_on_entry(list, low, None) == Ok::<Option<Text>, Fault>(p.entry_reg),
                },
            }
        },
{
}

/// A field has the name, the place in its type, and the type that its entry says.
pub proof fn law_field(u: UnitModel, off: usize)
    ensures
        field_at(u, off) matches Ok(f) ==> {
            &&& u.text_at(off, 0x03) matches Ok(name) && f.name == (match name {
                Some(n) => n,
                None => Seq::empty(),
            })
            &&& u.value_at(off, 0x38) matches Ok(at) && (number_said(at, Some(f.offset)) || number_said(at, None)
                && f.offset == 0)
            &&& member_type_of(u, off) == Ok::<(Text, u64, ScalarKind), Fault>((f.ty_name, f.size, f.kind))
        },
{
}

/// A type has the name, the size and the alignment that its entry says, and the fields among its
/// children; one without a name or a size is passed over.
pub proof fn law_layout(u: UnitModel, off: usize, first: Option<usize>, ns: Seq<Text>)
    ensures
        layout_at(u, off, first, ns) matches Ok(Some(l)) ==> {
            &&& u.text_at(off, 0x03) matches Ok(Some(local)) && l.name == joined(ns.push(local), "::"@)
            &&& u.value_at(off, 0x0b) matches Ok(size) && number_said(size, Some(l.size))
            &&& u.value_at(off, 0x88) matches Ok(align) && number_said(align, l.align)
            &&& fields_from(u, first) matches Ok(fields) && l.fields == by_offset(fields)
        },
        layout_at(u, off, first, ns) matches Ok(None) ==> {
            ||| u.text_at(off, 0x03) == Ok::<Option<Text>, Fault>(None)
            ||| (u.value_at(off, 0x0b) matches Ok(size) && number_said(size, None))
        },
{
    if let Ok(Some(local)) = u.text_at(off, 0x03) {
        law_qualified(ns, local);
    }
}

/// A name within its namespaces is the names of all of them, with two colons between any two.
pub proof fn law_qualified(ns: Seq<Text>, local: Text)
    ensures
        qualified(ns, local) == joined(ns.push(local), "::"@),
{
    let all = ns.push(local);
    assert(all.drop_last() =~= ns);
    if ns.len() > 0 {
        assert(joined(all, "::"@) == joined(ns, "::"@) + "::"@ + local);
    }
}

/// A function has the address at which its code begins, which is not 0, and then the size of its code and
/// its parameters; without such an address it has neither.
pub proof fn law_function(u: UnitModel, off: usize, first: Option<usize>)
    ensures
        function_at(u, off, first) matches Ok(found) ==> names_of(u, off, 0) matches Ok(names) && match found {
            None => names.1 is None,
            Some(f) => {
                &&& names == (f.linkage_name, Some(f.name))
                &&& f.inlined_at.len() == 0
                &&& u.address_at(off, 0x11) matches Ok(a) && match f.address {
                    None => (a is None || a == Some(0u64)) && f.size is None && f.params.len() == 0,
                    Some(low) => {
                        &&& low != 0
                        &&& a == Some(low)
                        &&& params_from(u, first, low) == Ok::<Seq<ParamV>, Fault>(f.params)
                        &&& u.value_at(off, 0x12) matches Ok(high) && match high {
                            None => f.size is None,
                            Some(AttrValue::Udata(n)) => f.size == Some(n),
                            Some(AttrValue::Data(n)) => f.size == Some(n),
                            Some(AttrValue::Sdata(n)) => n >= 0 ==> (f.size matches Some(m) && m == n),
                            Some(_) => u.address_at(off, 0x12) matches Ok(end) && match end {
                                None => f.size is None,
                                Some(end) => f.size matches Some(n) && (end >= low && low + n == end || end < low
                                    && n == 0),
                            },
                        }
                    },
                }
            },
        },
{
}

/// An inlined copy has the name of the function that it is a copy of, and the address at which its code
/// begins, or else at which the first range of its code does.
pub proof fn law_copy(u: UnitModel, off: usize)
    ensures
        inlined_copy(u, off) matches Ok(Some(c)) ==> {
            &&& c.1 != 0
            &&& u.value_at(off, 0x31) matches Ok(Some(AttrValue::UnitRef(to))) && {
                &&& u.shape_at(to) matches Ok(s) && s.present
                &&& names_of(u, to, 0) matches Ok(names) && names.1 == Some(c.0)
            }
            &&& u.address_at(off, 0x11) matches Ok(a) && {
                ||| a == Some(c.1)
                ||| (a is None || a == Some(0u64)) && u.range_start_of(off) == Ok::<Option<u64>, Fault>(Some(c.1))
            }
        },
        inlined_copy(u, off) matches Ok(None) ==> {
            ||| !(u.value_at(off, 0x31) matches Ok(Some(AttrValue::UnitRef(_))))
            ||| (u.value_at(off, 0x31) matches Ok(Some(AttrValue::UnitRef(to))) && (names_of(u, to, 0) matches Ok(names)
                && names.1 is None))
            ||| (u.address_at(off, 0x11) matches Ok(a) && (a is None || a == Some(0u64))) && (u.range_start_of(
                off,
            ) matches Ok(a) && (a is None || a == Some(0u64)))
        },
{
}

/// Whether the location of an entry is a fixed address.
pub open spec fn lies_at(u: UnitModel, off: usize, address: u64) -> bool {
    &&& u.value_at(off, 0x02) == Ok::<Option<AttrValue>, Fault>(Some(AttrValue::Exprloc))
    &&& u.ops_at(off, 0x02) matches Ok(ops) && ops.len() > 0 && {
        ||| ops[0] == Some(DwarfOp::Address(address))
        ||| (ops[0] matches Some(DwarfOp::AddressIndex(i)) && u.table_address_of(i) == Ok::<u64, Fault>(address))
    }
}

/// A variable that is no declaration is at a fixed address, which is not 0, within its namespaces, with
/// the linkage name and the type that its entry says.
pub proof fn law_variable(u: UnitModel, off: usize, ns: Seq<Text>)
    ensures
        variable_of(u, off, ns) matches Ok(Some(v)) ==> {
            &&& v.address != 0
            &&& lies_at(u, off, v.address)
            &&& u.value_at(off, 0x3c) == Ok::<Option<AttrValue>, Fault>(None)
            &&& u.text_at(off, 0x03) matches Ok(Some(local)) && v.name == joined(ns.push(local), "::"@)
            &&& u.text_at(off, 0x6e) == Ok::<Option<Text>, Fault>(v.linkage_name)
            &&& type_of(u, off) == Ok::<(Text, Option<u64>), Fault>((v.ty_name, v.size))
        },
        variable_of(u, off, ns) matches Ok(None) ==> {
            ||| (u.value_at(off, 0x3c) matches Ok(Some(_)))
            ||| u.text_at(off, 0x03) == Ok::<Option<Text>, Fault>(None)
            ||| forall|a: u64| a != 0 ==> !#[trigger] lies_at(u, off, a)
        },
{
    if let Ok(Some(local)) = u.text_at(off, 0x03) {
        law_qualified(ns, local);
    }
}

// ---- units that can be read ----

/// Whether everything in a unit can be read, and every entry that another refers to is there.
pub open spec fn sound(u: UnitModel) -> bool {
    &&& forall|off: usize| (#[trigger] u.shape_at(off)) is Ok && u.sibling_of(off) is Ok && u.range_start_of(off) is Ok
    &&& forall|off: usize, at: u16| (#[trigger] u.value_at(off, at)) matches Ok(v) && match v {
        Some(AttrValue::UnitRef(to)) => u.shape_at(to)->Ok_0.present,
        _ => true,
    }
    &&& forall|off: usize, at: u16| (#[trigger] u.text_at(off, at)) is Ok
    &&& forall|off: usize, at: u16| (#[trigger] u.address_at(off, at)) is Ok
    &&& forall|off: usize, at: u16| (#[trigger] u.ops_at(off, at)) matches Ok(ops) && (ops.len() > 0 ==> ops[0] is Some)
    &&& forall|off: usize, at: u16| (#[trigger] u.locations_at(off, at)) matches Ok(found) && match found {
        Some(list) => forall|k: int| 0 <= k < list.len() ==> (#[trigger] list[k]) is Some,
        None => true,
    }
    &&& forall|index: usize| (#[trigger] u.table_address_of(index)) is Ok
}

/// Names can be told in a sound unit.
proof fn lemma_sound_names(u: UnitModel, off: usize, depth: u32)
    requires
        sound(u),
    ensures
        names_of(u, off, depth) is Ok,
    decreases 4 - depth,
{
    assert(u.text_at(off, 0x6e) is Ok && u.text_at(off, 0x03) is Ok);
    assert(u.value_at(off, 0x47) is Ok && u.value_at(off, 0x31) is Ok);
    if depth < 4 {
        if let Ok(Some(AttrValue::UnitRef(to))) = u.value_at(off, 0x47) {
            assert(u.shape_at(to) is Ok);
            lemma_sound_names(u, to, (depth + 1) as u32);
        }
        if let Ok(Some(AttrValue::UnitRef(to))) = u.value_at(off, 0x31) {
            assert(u.shape_at(to) is Ok);
            lemma_sound_names(u, to, (depth + 1) as u32);
        }
    }
}

/// Where a parameter lies can be told from a list that can be read.
proof fn lemma_sound_place(list: Seq<Option<LocationV>>, low: u64, earliest: Option<(u64, Option<Text>)>)
    requires
        forall|k: int| 0 <= k < list.len() ==> (#[trigger] list[k]) is Some,
    ensures
        place_on_entry(list, low, earliest) is Ok,
    decreases list.len(),
{
    if list.len() > 0 {
        assert(list[0] is Some);
        let l = list[0].unwrap();
        let rest = list.drop_first();
        assert forall|k: int| 0 <= k < rest.len() implies (#[trigger] rest[k]) is Some by {
            assert(list[k + 1] is Some);
        }
        lemma_sound_place(rest, low, Some((l.begin, entry_text(l.ops))));
        lemma_sound_place(rest, low, earliest);
    }
}

/// Every entry of a sound unit can be told as a parameter, as a field, and by its type.
proof fn lemma_sound_entry(u: UnitModel, off: usize, low: u64)
    requires
        sound(u),
    ensures
        type_of(u, off) is Ok,
        member_type_of(u, off) is Ok,
        param_at(u, off, low) is Ok,
        field_at(u, off) is Ok,
{
    assert(u.text_at(off, 0x03) is Ok && u.value_at(off, 0x38) is Ok && u.value_at(off, 0x49) is Ok);
    if let Ok(Some(AttrValue::UnitRef(to))) = u.value_at(off, 0x49) {
        assert(u.shape_at(to) is Ok);
        assert(u.text_at(to, 0x03) is Ok && u.value_at(to, 0x0b) is Ok && u.value_at(to, 0x3e) is Ok);
    }
    assert(u.value_at(off, 0x02) is Ok && u.ops_at(off, 0x02) is Ok && u.locations_at(off, 0x02) is Ok);
    if let Ok(Some(list)) = u.locations_at(off, 0x02) {
        lemma_sound_place(list, low, None);
    }
}

/// The parameters and the fields among the entries of a sound unit can be told.
proof fn lemma_sound_lists(u: UnitModel, pos: Option<usize>, low: u64)
    requires
        sound(u),
    ensures
        params_from(u, pos, low) is Ok,
        fields_from(u, pos) is Ok,
    decreases left_from(u, pos),
{
    if let Some(p) = pos {
        assert(u.shape_at(p) is Ok);
        lemma_sound_entry(u, p, low);
        if let Ok(next) = u.sibling_of(p) {
            if later(u, p, next) is Some {
                lemma_sound_lists(u, later(u, p, next), low);
            }
        }
    }
}

/// Every entry of a sound unit can be told: what it describes is refused only for what cannot be read, or
/// is not there. A function that has a name is told of, and so is a type that has a name and a size.
pub proof fn law_sound_entries(u: UnitModel, off: usize, first: Option<usize>, ns: Seq<Text>)
    requires
        sound(u),
    ensures
        function_at(u, off, first) is Ok,
        inlined_copy(u, off) is Ok,
        variable_of(u, off, ns) is Ok,
        layout_at(u, off, first, ns) is Ok,
        names_of(u, off, 0) is Ok,
{
    lemma_sound_names(u, off, 0);
    lemma_sound_entry(u, off, 0);
    lemma_sound_lists(u, first, 0);
    if let Ok(Some(low)) = u.address_at(off, 0x11) {
        lemma_sound_lists(u, first, low);
    }
    assert(u.address_at(off, 0x11) is Ok && u.address_at(off, 0x12) is Ok && u.value_at(off, 0x12) is Ok);
    assert(u.value_at(off, 0x31) is Ok && u.shape_at(off) is Ok);
    if let Ok(Some(AttrValue::UnitRef(to))) = u.value_at(off, 0x31) {
        assert(u.shape_at(to) is Ok);
        lemma_sound_names(u, to, 0);
    }
    assert(u.value_at(off, 0x3c) is Ok && u.value_at(off, 0x02) is Ok && u.ops_at(off, 0x02) is Ok);
    assert(u.text_at(off, 0x03) is Ok && u.text_at(off, 0x6e) is Ok);
    assert(u.value_at(off, 0x0b) is Ok && u.value_at(off, 0x88) is Ok);
    if let Ok(ops) = u.ops_at(off, 0x02) {
        if ops.len() > 0 {
            if let Some(DwarfOp::AddressIndex(i)) = ops[0] {
                assert(u.table_address_of(i) is Ok);
            }
        }
    }
}

/// A walk of a sound unit goes to its end.
proof fn lemma_sound_walk(u: UnitModel, off: usize, shape: Shape, ns: Seq<Text>, filter: Seq<Text>, t: TallyV)
    requires
        sound(u),
    ensures
        walked(u, off, shape, ns, filter, t) is Ok,
    decreases left_from(u, Some(off)), 1int,
{
    assert(u.text_at(off, 0x03) is Ok);
    law_sound_entries(u, off, first_child_of(shape), ns);
    if let Ok(inner) = inner_namespaces(u, off, shape, ns) {
        if let Ok(t1) = visited(u, off, shape, ns, filter, t) {
            if shape.has_children {
                lemma_sound_children(u, later(u, off, behind(shape)), inner, filter, t1);
            }
        }
    }
}

/// A walk of the children of an entry of a sound unit goes to its end.
proof fn lemma_sound_children(u: UnitModel, pos: Option<usize>, ns: Seq<Text>, filter: Seq<Text>, t: TallyV)
    requires
        sound(u),
    ensures
        walked_children(u, pos, ns, filter, t) is Ok,
    decreases left_from(u, pos), 2int,
{
    if let Some(p) = pos {
        assert(u.shape_at(p) is Ok);
        let shape = u.shape_at(p)->Ok_0;
        if shape.present {
            lemma_sound_walk(u, p, shape, ns, filter, t);
            if let Ok(next) = walked(u, p, shape, ns, filter, t) {
                lemma_sound_children(u, later(u, p, next.1), ns, filter, next.0);
            }
        }
    }
}

/// A sound unit is walked to its end from any entry that is there.
pub proof fn law_sound_unit(u: UnitModel, root: usize, filter: Seq<Text>, t: TallyV)
    requires
        sound(u),
        u.shape_at(root)->Ok_0.present,
    ensures
        unit_walked(u, root, filter, t) is Ok,
{
    assert(u.shape_at(root) is Ok);
    lemma_sound_walk(u, root, u.shape_at(root)->Ok_0, Seq::empty(), filter, t);
}

} // verus!
