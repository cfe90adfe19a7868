//! Laws of the walk over a binary's debug information: every entry of every unit is met, and nothing is
//! gathered but what entries describe.

use vstd::prelude::*;

use crate::binary_unit::binary_model;
use crate::catalog::lists;
use crate::catalog::Named;
use crate::debug_unit::Fault;
use crate::debug_unit::Shape;
use crate::debug_unit::UnitModel;
use crate::debug_unit::AT_NAME;
use crate::debug_unit::TAG_ENUMERATION;
use crate::debug_unit::TAG_INLINED;
use crate::debug_unit::TAG_NAMESPACE;
use crate::debug_unit::TAG_STRUCTURE;
use crate::debug_unit::TAG_SUBPROGRAM;
use crate::debug_unit::TAG_UNION;
use crate::debug_unit::TAG_VARIABLE;
use crate::dwarf_reader::gimli_unit_head;
use crate::dwarf_reader::gimli_units;
use crate::entries::later;
use crate::entries::left_from;
use crate::extract::assembled;
use crate::extract::gathered;
use crate::extract::law_with_number;
use crate::extract::units_walked;
use crate::extract::with_number;
use crate::extract::with_version;
use crate::extract_laws::increasing;
use crate::fields::layout_at;
use crate::meta::Function;
use crate::meta::FunctionV;
use crate::meta::MetadataV;
use crate::meta::TypeLayout;
use crate::meta::TypeV;
use crate::meta::Variable;
use crate::meta::VariableV;
use crate::names::passes;
use crate::object_file::debug_sections;
use crate::object_file::object_build_id;
use crate::object_file::object_dynamic;
use crate::object_file::object_section;
use crate::object_file::object_segments;
use crate::symbols::function_at;
use crate::symbols::inlined_copy;
use crate::symbols::variable_of;
use crate::text::Text;
use crate::walk::behind;
use crate::walk::inner_namespaces;
use crate::walk::nothing;
use crate::walk::unit_walked;
use crate::walk::visited;
use crate::walk::walked;
use crate::walk::walked_children;
use crate::walk::TallyV;
use crate::walk_laws::keeps;
use crate::walk_laws::law_walk;
use crate::walk_laws::lemma_walked_children;

verus! {

// ---- the entries of a unit ----

/// A place in a unit: an offset, and the namespaces of every list of children that is open there, the
/// innermost last. The root stands in a list of its own.
#[verifier::ext_equal]
pub struct Place {
    pub off: usize,
    pub levels: Seq<Seq<Text>>,
}

/// Where a unit begins.
pub open spec fn beginning(root: usize) -> Place {
    Place { off: root, levels: seq![Seq::<Text>::empty()] }
}

/// The place after one, as they stand one after the other in a unit: the children of an entry follow
/// it, and a mark ends them. None where the unit ends, or all lists of children are at their end.
pub open spec fn onward(u: UnitModel, p: Place) -> Option<Place> {
    match u.shape_at(p.off) {
        Err(_) => None,
        Ok(shape) => {
            let inside = match u.text_at(p.off, AT_NAME) {
                Ok(Some(name)) => if shape.tag == TAG_NAMESPACE {
                    p.levels.last().push(name)
                } else {
                    p.levels.last()
                },
                _ => p.levels.last(),
            };
            let levels = if !shape.present {
                p.levels.drop_last()
            } else if shape.has_children {
                p.levels.push(inside)
            } else {
                p.levels
            };
            if !shape.last && p.off < shape.next <= u.limit() && levels.len() > 1 {
                Some(Place { off: shape.next, levels })
            } else {
                None
            }
        },
    }
}

/// The place some places after one.
pub open spec fn onward_by(u: UnitModel, p: Place, n: nat) -> Option<Place>
    decreases n,
{
    if n == 0 {
        Some(p)
    } else {
        match onward_by(u, p, (n - 1) as nat) {
            Some(q) => onward(u, q),
            None => None,
        }
    }
}

/// Going on can be done in two parts.
proof fn lemma_onward_in_parts(u: UnitModel, p: Place, m: nat, n: nat)
    ensures
        onward_by(u, p, m + n) == (match onward_by(u, p, m) {
            Some(q) => onward_by(u, q, n),
            None => None,
        }),
    decreases n,
{
    if n > 0 {
        lemma_onward_in_parts(u, p, m, (n - 1) as nat);
        assert((m + n - 1) as nat == m + (n - 1) as nat);
    }
}

/// A place that comes after one stands behind it, in a list of children.
proof fn lemma_onward_behind(u: UnitModel, p: Place, n: nat)
    requires
        n > 0,
        onward_by(u, p, n) is Some,
    ensures
        p.off < onward_by(u, p, n).unwrap().off <= u.limit(),
        onward_by(u, p, n).unwrap().levels.len() > 1,
    decreases n,
{
    if n > 1 {
        lemma_onward_behind(u, p, (n - 1) as nat);
    } else {
        assert(onward_by(u, p, 0) == Some(p));
    }
}

// ---- what was gathered from an entry ----

/// Whether what the entry at a place describes was gathered, if it passes the filter: the function, the
/// inlined copy, the variable or the type.
pub open spec fn met(u: UnitModel, p: Place, filter: Seq<Text>, t: TallyV) -> bool {
    u.shape_at(p.off) matches Ok(shape) ==> shape.present ==> {
        let first = if shape.has_children && !shape.last {
            Some(shape.next)
        } else {
            None
        };
        &&& shape.tag == TAG_SUBPROGRAM ==> (function_at(u, p.off, first) matches Ok(Some(f)) ==> passes(filter, f.name)
            ==> function_met(t, f))
        &&& shape.tag == TAG_INLINED ==> (inlined_copy(u, p.off) matches Ok(Some(c)) ==> passes(filter, c.0)
            ==> t.functions.contains_key(c.0) && t.functions[c.0].inlined_at.contains(c.1))
        &&& shape.tag == TAG_VARIABLE ==> (variable_of(u, p.off, p.levels.last()) matches Ok(Some(v)) ==> passes(
            filter,
            v.name,
        ) ==> t.variables.contains_key(v.name))
        &&& (shape.tag == TAG_STRUCTURE || shape.tag == TAG_UNION || shape.tag == TAG_ENUMERATION) ==> (layout_at(
            u,
            p.off,
            first,
            p.levels.last(),
        ) matches Ok(Some(l)) ==> passes(filter, l.name) ==> t.types.contains_key(l.name))
    }
}

/// Whether a function was gathered: there is one of its name, with code if it has code.
pub open spec fn function_met(t: TallyV, f: FunctionV) -> bool {
    &&& t.functions.contains_key(f.name)
    &&& f.address is Some ==> t.functions[f.name].address is Some
}

/// Whether nothing that was gathered is lost.
pub open spec fn gathers_on(t: TallyV, t1: TallyV) -> bool {
    &&& forall|k: Text| #[trigger]
        t.functions.contains_key(k) ==> {
            &&& t1.functions.contains_key(k)
            &&& t.functions[k].address is Some ==> t1.functions[k].address == t.functions[k].address
            &&& t.functions[k].inlined_at.is_prefix_of(t1.functions[k].inlined_at)
        }
    &&& forall|k: Text| #[trigger]
        t.types.contains_key(k) ==> t1.types.contains_key(k) && t1.types[k] == t.types[k]
    &&& forall|k: Text| #[trigger]
        t.variables.contains_key(k) ==> t1.variables.contains_key(k) && t1.variables[k] == t.variables[k]
}

/// What was gathered from an entry stays gathered.
proof fn lemma_met_kept(u: UnitModel, p: Place, filter: Seq<Text>, t: TallyV, t1: TallyV)
    requires
        met(u, p, filter, t),
        gathers_on(t, t1),
    ensures
        met(u, p, filter, t1),
{
    if let Ok(Some(c)) = inlined_copy(u, p.off) {
        if t.functions.contains_key(c.0) && t.functions[c.0].inlined_at.contains(c.1) {
            let a = t.functions[c.0].inlined_at;
            let b = t1.functions[c.0].inlined_at;
            assert(a.is_prefix_of(b));
            let i = choose|i: int| 0 <= i < a.len() && a[i] == c.1;
            assert(b[i] == b.subrange(0, a.len() as int)[i]);
        }
    }
}

/// What the entry at a place describes is gathered when it is visited.
proof fn lemma_visit_meets(u: UnitModel, p: Place, shape: Shape, filter: Seq<Text>, t: TallyV)
    requires
        u.shape_at(p.off) == Ok::<Shape, Fault>(shape),
        visited(u, p.off, shape, p.levels.last(), filter, t) is Ok,
    ensures
        met(u, p, filter, visited(u, p.off, shape, p.levels.last(), filter, t)->Ok_0),
{
    if shape.tag == TAG_INLINED {
        if let Ok(Some(c)) = inlined_copy(u, p.off) {
            if passes(filter, c.0) {
                let t1 = visited(u, p.off, shape, p.levels.last(), filter, t)->Ok_0;
                let list = t1.functions[c.0].inlined_at;
                if t.functions.contains_key(c.0) {
                    assert(list == t.functions[c.0].inlined_at + seq![c.1]);
                }
                assert(list.last() == c.1);
                assert(list.contains(c.1));
            }
        }
    }
}

/// Walking over an entry and all below it meets the entries from its place on, up to where the walk goes
/// on behind it: so many places on.
proof fn lemma_walk_meets(u: UnitModel, p: Place, shape: Shape, filter: Seq<Text>, t: TallyV) -> (m: nat)
    requires
        p.levels.len() > 0,
        u.shape_at(p.off) == Ok::<Shape, Fault>(shape),
        shape.present,
        walked(u, p.off, shape, p.levels.last(), filter, t) is Ok,
    ensures
        m > 0,
        ({
            let (t1, pos) = walked(u, p.off, shape, p.levels.last(), filter, t)->Ok_0;
            &&& forall|k: nat| k < m && (#[trigger] onward_by(u, p, k)) is Some ==> met(
                u,
                onward_by(u, p, k).unwrap(),
                filter,
                t1,
            )
            &&& onward_by(u, p, m) matches Some(q) ==> pos == Some(q.off) && q.levels == p.levels
        }),
    decreases left_from(u, Some(p.off)), 1int,
{
    let ns = p.levels.last();
    let (t2, pos) = walked(u, p.off, shape, ns, filter, t)->Ok_0;
    let t1 = visited(u, p.off, shape, ns, filter, t)->Ok_0;
    lemma_visit_meets(u, p, shape, filter, t);
    assert(onward_by(u, p, 0) == Some(p));
    assert(onward_by(u, p, 1) == onward(u, p));
    if !shape.has_children {
        1
    } else {
        match onward(u, p) {
            None => {
                let inner = inner_namespaces(u, p.off, shape, ns)->Ok_0;
                lemma_walked_children(
                    u,
                    later(u, p.off, behind(shape)),
                    inner,
                    filter,
                    t1,
                );
                lemma_met_kept(u, p, filter, t1, t2);
                1
            },
            Some(q) => {
                let inner = inner_namespaces(u, p.off, shape, ns)->Ok_0;
                assert(q.levels.last() == inner);
                assert(later(u, p.off, behind(shape)) == Some(q.off));
                lemma_walked_children(u, Some(q.off), inner, filter, t1);
                lemma_met_kept(u, p, filter, t1, t2);
                let m = lemma_children_meet(u, q, filter, t1);
                assert forall|k: nat| k < 1 + m && (#[trigger] onward_by(u, p, k)) is Some implies met(
                    u,
                    onward_by(u, p, k).unwrap(),
                    filter,
                    t2,
                ) by {
                    if k > 0 {
                        lemma_onward_in_parts(u, p, 1, (k - 1) as nat);
                        assert(1 + (k - 1) as nat == k);
                        assert(onward_by(u, q, (k - 1) as nat) is Some);
                    }
                }
                lemma_onward_in_parts(u, p, 1, m);
                assert(q.levels.drop_last() =~= p.levels);
                1 + m
            },
        }
    }
}

/// Walking over a list of children and all below them meets the entries from its place on, up to where
/// the walk goes on behind the list: so many places on.
proof fn lemma_children_meet(u: UnitModel, p: Place, filter: Seq<Text>, t: TallyV) -> (m: nat)
    requires
        p.levels.len() > 1,
        walked_children(u, Some(p.off), p.levels.last(), filter, t) is Ok,
    ensures
        m > 0,
        ({
            let (t1, pos) = walked_children(u, Some(p.off), p.levels.last(), filter, t)->Ok_0;
            &&& forall|k: nat| k < m && (#[trigger] onward_by(u, p, k)) is Some ==> met(
                u,
                onward_by(u, p, k).unwrap(),
                filter,
                t1,
            )
            &&& onward_by(u, p, m) matches Some(q) ==> pos == Some(q.off) && q.levels == p.levels.drop_last()
        }),
    decreases left_from(u, Some(p.off)), 2int,
{
    let ns = p.levels.last();
    let shape = u.shape_at(p.off)->Ok_0;
    assert(onward_by(u, p, 0) == Some(p));
    assert(onward_by(u, p, 1) == onward(u, p));
    if !shape.present {
        1
    } else {
        let (t1, next) = walked(u, p.off, shape, ns, filter, t)->Ok_0;
        let (t2, pos) = walked_children(u, Some(p.off), ns, filter, t)->Ok_0;
        let rest = later(u, p.off, next);
        let m1 = lemma_walk_meets(u, p, shape, filter, t);
        lemma_walked_children(u, rest, ns, filter, t1);
        assert forall|k: nat| k < m1 && (#[trigger] onward_by(u, p, k)) is Some implies met(
            u,
            onward_by(u, p, k).unwrap(),
            filter,
            t2,
        ) by {
            lemma_met_kept(u, onward_by(u, p, k).unwrap(), filter, t1, t2);
        }
        match onward_by(u, p, m1) {
            None => m1,
            Some(q) => {
                lemma_onward_behind(u, p, m1);
                assert(rest == Some(q.off));
                let m2 = lemma_children_meet(u, q, filter, t1);
                assert forall|k: nat| k < m1 + m2 && (#[trigger] onward_by(u, p, k)) is Some implies met(
                    u,
                    onward_by(u, p, k).unwrap(),
                    filter,
                    t2,
                ) by {
                    if k >= m1 {
                        lemma_onward_in_parts(u, p, m1, (k - m1) as nat);
                        assert(m1 + (k - m1) as nat == k);
                        assert(onward_by(u, q, (k - m1) as nat) is Some);
                    }
                }
                lemma_onward_in_parts(u, p, m1, m2);
                m1 + m2
            },
        }
    }
}

/// Walking over a unit meets every entry of it, whatever its place: what it describes is gathered, if it
/// passes the filter.
pub proof fn law_walk_meets(u: UnitModel, root: usize, filter: Seq<Text>, t: TallyV, n: nat)
    requires
        unit_walked(u, root, filter, t) is Ok,
        onward_by(u, beginning(root), n) is Some,
    ensures
        met(u, onward_by(u, beginning(root), n).unwrap(), filter, unit_walked(u, root, filter, t)->Ok_0),
{
    let p = beginning(root);
    let shape = u.shape_at(root)->Ok_0;
    assert(p.levels.last() =~= Seq::<Text>::empty());
    let m = lemma_walk_meets(u, p, shape, filter, t);
    if n >= m {
        lemma_onward_in_parts(u, p, m, (n - m) as nat);
        assert(m + (n - m) as nat == n);
        lemma_onward_behind(u, p, m);
    }
}

// ---- where what was gathered comes from ----

/// Whether one place comes some places after another.
pub open spec fn leads_to(u: UnitModel, p: Place, q: Place) -> bool {
    exists|n: nat| #[trigger] onward_by(u, p, n) == Some(q)
}

/// Whether in a unit what follows an entry stands behind it.
pub open spec fn in_sequence(u: UnitModel) -> bool {
    forall|off: usize| (#[trigger] u.shape_at(off)) matches Ok(s) ==> off < s.next <= u.limit()
}

/// The entry at a place, if there is one.
pub open spec fn entry_of_place(u: UnitModel, p: Place) -> Option<Shape> {
    match u.shape_at(p.off) {
        Ok(s) => if s.present {
            Some(s)
        } else {
            None
        },
        Err(_) => None,
    }
}

/// The function that the entry at a place describes, if it describes one.
pub open spec fn function_told(u: UnitModel, p: Place) -> Option<FunctionV> {
    match entry_of_place(u, p) {
        Some(s) => if s.tag == TAG_SUBPROGRAM {
            match function_at(
                u,
                p.off,
                if s.has_children && !s.last {
                    Some(s.next)
                } else {
                    None
                },
            ) {
                Ok(f) => f,
                Err(_) => None,
            }
        } else {
            None
        },
        None => None,
    }
}

/// The inlined copy that the entry at a place describes, if it describes one.
pub open spec fn copy_told(u: UnitModel, p: Place) -> Option<(Text, u64)> {
    match entry_of_place(u, p) {
        Some(s) => if s.tag == TAG_INLINED {
            match inlined_copy(u, p.off) {
                Ok(c) => c,
                Err(_) => None,
            }
        } else {
            None
        },
        None => None,
    }
}

/// The variable that the entry at a place describes, if it describes one.
pub open spec fn variable_told(u: UnitModel, p: Place) -> Option<VariableV> {
    match entry_of_place(u, p) {
        Some(s) => if s.tag == TAG_VARIABLE {
            match variable_of(u, p.off, p.levels.last()) {
                Ok(v) => v,
                Err(_) => None,
            }
        } else {
            None
        },
        None => None,
    }
}

/// The type that the entry at a place describes, if it describes one.
pub open spec fn type_told(u: UnitModel, p: Place) -> Option<TypeV> {
    match entry_of_place(u, p) {
        Some(s) => if s.tag == TAG_STRUCTURE || s.tag == TAG_UNION || s.tag == TAG_ENUMERATION {
            match layout_at(
                u,
                p.off,
                if s.has_children && !s.last {
                    Some(s.next)
                } else {
                    None
                },
                p.levels.last(),
            ) {
                Ok(l) => l,
                Err(_) => None,
            }
        } else {
            None
        },
        None => None,
    }
}

/// Whether the entry at a place describes a function called `name`, or an inlined copy of one.
pub open spec fn name_told(u: UnitModel, p: Place, name: Text) -> bool {
    ||| (function_told(u, p) matches Some(f) && f.name == name)
    ||| (copy_told(u, p) matches Some(c) && c.0 == name)
}

/// Whether everything gathered on the way from `t` to `t1` was told by entries at places that `told`
/// admits: functions, their code, their inlined copies, variables and types.
pub open spec fn accounted(told: spec_fn(UnitModel, Place) -> bool, t: TallyV, t1: TallyV) -> bool {
    &&& forall|k: Text| #[trigger]
        t1.functions.contains_key(k) ==> t.functions.contains_key(k) || exists|u: UnitModel, p: Place| #[trigger]
            told(u, p) && name_told(u, p, k)
    &&& forall|k: Text| #[trigger]
        t1.functions.contains_key(k) ==> t1.functions[k].address is Some ==> t.functions.contains_key(k)
            && t.functions[k].address is Some || exists|u: UnitModel, p: Place| #[trigger]
            told(u, p) && code_told(u, p, k, t1.functions[k])
    &&& forall|k: Text, a: u64|
        t1.functions.contains_key(k) && #[trigger] t1.functions[k].inlined_at.contains(a) ==> t.functions.contains_key(
            k,
        ) && t.functions[k].inlined_at.contains(a) || exists|u: UnitModel, p: Place| #[trigger]
            told(u, p) && copy_told(u, p) == Some((k, a))
    &&& forall|k: Text| #[trigger]
        t1.variables.contains_key(k) ==> t.variables.contains_key(k) || exists|u: UnitModel, p: Place| #[trigger]
            told(u, p) && variable_told(u, p) == Some(t1.variables[k])
    &&& forall|k: Text| #[trigger]
        t1.types.contains_key(k) ==> t.types.contains_key(k) || exists|u: UnitModel, p: Place| #[trigger]
            told(u, p) && type_told(u, p) == Some(t1.types[k])
}

/// Whether the entry at a place describes a function called `name`, with the code that `f` has.
pub open spec fn code_told(u: UnitModel, p: Place, name: Text, f: FunctionV) -> bool {
    match function_told(u, p) {
        Some(g) => {
            &&& g.name == name
            &&& g.address is Some
            &&& g.address == f.address
            &&& g.size == f.size
            &&& g.params == f.params
        },
        None => false,
    }
}

/// What was told on two parts of the way was told on the whole.
proof fn lemma_accounted(told: spec_fn(UnitModel, Place) -> bool, a: TallyV, b: TallyV, c: TallyV)
    requires
        accounted(told, a, b),
        accounted(told, b, c),
        gathers_on(b, c),
        code_kept(b, c),
    ensures
        accounted(told, a, c),
{
    assert forall|k: Text| #[trigger] c.functions.contains_key(k) && c.functions[k].address is Some implies (
    a.functions.contains_key(k) && a.functions[k].address is Some) || exists|u: UnitModel, p: Place| #[trigger]
        told(u, p) && code_told(u, p, k, c.functions[k]) by {
        if b.functions.contains_key(k) && b.functions[k].address is Some {
            if !(a.functions.contains_key(k) && a.functions[k].address is Some) {
                let (u, p) = choose|u: UnitModel, p: Place| #[trigger]
                    told(u, p) && code_told(u, p, k, b.functions[k]);
                assert(told(u, p) && code_told(u, p, k, c.functions[k]));
            }
        }
    }
    assert forall|k: Text, x: u64|
        c.functions.contains_key(k) && #[trigger] c.functions[k].inlined_at.contains(x) implies (
    a.functions.contains_key(k) && a.functions[k].inlined_at.contains(x)) || exists|u: UnitModel, p: Place| #[trigger]
        told(u, p) && copy_told(u, p) == Some((k, x)) by {
        if b.functions.contains_key(k) && b.functions[k].inlined_at.contains(x) {
        }
    }
    assert forall|k: Text| #[trigger] c.variables.contains_key(k) && !a.variables.contains_key(k) implies exists|
        u: UnitModel,
        p: Place,
    | #[trigger] told(u, p) && variable_told(u, p) == Some(c.variables[k]) by {
        if b.variables.contains_key(k) {
            let (u, p) = choose|u: UnitModel, p: Place| #[trigger]
                told(u, p) && variable_told(u, p) == Some(b.variables[k]);
            assert(told(u, p) && variable_told(u, p) == Some(c.variables[k]));
        }
    }
    assert forall|k: Text| #[trigger] c.types.contains_key(k) && !a.types.contains_key(k) implies exists|
        u: UnitModel,
        p: Place,
    | #[trigger] told(u, p) && type_told(u, p) == Some(c.types[k]) by {
        if b.types.contains_key(k) {
            let (u, p) = choose|u: UnitModel, p: Place| #[trigger] told(u, p) && type_told(u, p) == Some(b.types[k]);
            assert(told(u, p) && type_told(u, p) == Some(c.types[k]));
        }
    }
}

/// Whether the code of functions is as it was.
spec fn code_kept(t: TallyV, t1: TallyV) -> bool {
    forall|k: Text| #[trigger]
        t.functions.contains_key(k) ==> t.functions[k].address is Some ==> {
            &&& t1.functions[k].address == t.functions[k].address
            &&& t1.functions[k].size == t.functions[k].size
            &&& t1.functions[k].params == t.functions[k].params
        }
}

/// What is gathered from an entry was told by it.
proof fn lemma_visit_accounted(
    told: spec_fn(UnitModel, Place) -> bool,
    u: UnitModel,
    p: Place,
    shape: Shape,
    filter: Seq<Text>,
    t: TallyV,
)
    requires
        told(u, p),
        u.shape_at(p.off) == Ok::<Shape, Fault>(shape),
        shape.present,
        visited(u, p.off, shape, p.levels.last(), filter, t) is Ok,
    ensures
        accounted(told, t, visited(u, p.off, shape, p.levels.last(), filter, t)->Ok_0),
{
    let t1 = visited(u, p.off, shape, p.levels.last(), filter, t)->Ok_0;
    assert(told(u, p));
    assert forall|k: Text, x: u64|
        t1.functions.contains_key(k) && #[trigger] t1.functions[k].inlined_at.contains(x) implies (
    t.functions.contains_key(k) && t.functions[k].inlined_at.contains(x)) || exists|u: UnitModel, p: Place| #[trigger]
        told(u, p) && copy_told(u, p) == Some((k, x)) by {
        let list = t1.functions[k].inlined_at;
        let i = choose|i: int| 0 <= i < list.len() && list[i] == x;
        if t.functions.contains_key(k) && i < t.functions[k].inlined_at.len() {
            assert(t.functions[k].inlined_at[i] == x);
        } else {
            assert(copy_told(u, p) == Some((k, x)));
        }
    }
}

/// What is gathered from an entry and all below it was told by entries from its place on.
proof fn lemma_walk_accounted(
    told: spec_fn(UnitModel, Place) -> bool,
    u: UnitModel,
    start: Place,
    p: Place,
    shape: Shape,
    filter: Seq<Text>,
    t: TallyV,
)
    requires
        in_sequence(u),
        forall|q: Place| #[trigger] leads_to(u, start, q) ==> told(u, q),
        leads_to(u, start, p),
        p.levels.len() > 0,
        u.shape_at(p.off) == Ok::<Shape, Fault>(shape),
        shape.present,
        walked(u, p.off, shape, p.levels.last(), filter, t) is Ok,
    ensures
        ({
            let (t1, pos) = walked(u, p.off, shape, p.levels.last(), filter, t)->Ok_0;
            &&& accounted(told, t, t1)
            &&& pos matches Some(x) ==> p.off < x <= u.limit() && (p.levels.len() > 1 ==> leads_to(
                u,
                start,
                Place { off: x, levels: p.levels },
            ))
        }),
    decreases left_from(u, Some(p.off)), 1int,
{
    let ns = p.levels.last();
    let t1 = visited(u, p.off, shape, ns, filter, t)->Ok_0;
    lemma_visit_accounted(told, u, p, shape, filter, t);
    let n = choose|n: nat| #[trigger] onward_by(u, start, n) == Some(p);
    assert(onward_by(u, start, n + 1) == onward(u, p));
    if shape.has_children {
        let inner = inner_namespaces(u, p.off, shape, ns)->Ok_0;
        let pos = later(u, p.off, behind(shape));
        lemma_walked_children(u, pos, inner, filter, t1);
        let t2 = walked_children(u, pos, inner, filter, t1)->Ok_0.0;
        if let Some(x) = pos {
            let q = Place { off: x, levels: p.levels.push(inner) };
            assert(onward(u, p) == Some(q));
            assert(leads_to(u, start, q));
            lemma_children_accounted(told, u, start, q, filter, t1);
            assert(q.levels.drop_last() =~= p.levels);
            lemma_accounted(told, t, t1, t2);
        }
    } else if p.levels.len() > 1 && !shape.last {
        assert(onward(u, p) == Some(Place { off: shape.next, levels: p.levels }));
    }
}

/// What is gathered from a list of children and all below them was told by entries from its place on.
proof fn lemma_children_accounted(
    told: spec_fn(UnitModel, Place) -> bool,
    u: UnitModel,
    start: Place,
    p: Place,
    filter: Seq<Text>,
    t: TallyV,
)
    requires
        in_sequence(u),
        forall|q: Place| #[trigger] leads_to(u, start, q) ==> told(u, q),
        leads_to(u, start, p),
        p.levels.len() > 1,
        walked_children(u, Some(p.off), p.levels.last(), filter, t) is Ok,
    ensures
        ({
            let (t1, pos) = walked_children(u, Some(p.off), p.levels.last(), filter, t)->Ok_0;
            &&& accounted(told, t, t1)
            &&& pos matches Some(x) ==> p.off < x <= u.limit() && (p.levels.len() > 2 ==> leads_to(
                u,
                start,
                Place { off: x, levels: p.levels.drop_last() },
            ))
        }),
    decreases left_from(u, Some(p.off)), 2int,
{
    let ns = p.levels.last();
    let shape = u.shape_at(p.off)->Ok_0;
    let n = choose|n: nat| #[trigger] onward_by(u, start, n) == Some(p);
    assert(onward_by(u, start, n + 1) == onward(u, p));
    if shape.present {
        let (t1, next) = walked(u, p.off, shape, ns, filter, t)->Ok_0;
        lemma_walk_accounted(told, u, start, p, shape, filter, t);
        let pos = later(u, p.off, next);
        assert(pos == next);
        lemma_walked_children(u, pos, ns, filter, t1);
        let t2 = walked_children(u, pos, ns, filter, t1)->Ok_0.0;
        if let Some(x) = pos {
            let q = Place { off: x, levels: p.levels };
            lemma_children_accounted(told, u, start, q, filter, t1);
            lemma_accounted(told, t, t1, t2);
        }
    } else if p.levels.len() > 2 && !shape.last {
        assert(onward(u, p) == Some(Place { off: shape.next, levels: p.levels.drop_last() }));
    }
}

/// Walking over a unit gathers nothing but what its entries describe: a function that has code is
/// described with that code by an entry, every inlined copy by one, and every variable and type as it
/// was gathered.
pub proof fn law_walk_sound(u: UnitModel, root: usize, filter: Seq<Text>, t: TallyV)
    requires
        in_sequence(u),
        unit_walked(u, root, filter, t) is Ok,
    ensures
        accounted(
            |v: UnitModel, p: Place| v == u && leads_to(u, beginning(root), p),
            t,
            unit_walked(u, root, filter, t)->Ok_0,
        ),
{
    let told = |v: UnitModel, p: Place| v == u && leads_to(u, beginning(root), p);
    let p = beginning(root);
    assert(onward_by(u, p, 0) == Some(p));
    assert(p.levels.last() =~= Seq::<Text>::empty());
    lemma_walk_accounted(told, u, p, p, u.shape_at(root)->Ok_0, filter, t);
}

// ---- all units of a binary ----

/// A unit of a binary, and where its root entry stands; nothing where it cannot be read.
pub open spec fn unit_of(sections: Map<Text, Seq<u8>>, offset: Option<usize>) -> Option<(UnitModel, usize)> {
    match offset {
        Some(unit) => match gimli_unit_head(sections, unit) {
            Some(head) => Some((binary_model(sections, unit, head), head.root)),
            None => None,
        },
        None => None,
    }
}

/// Nothing that was gathered is lost while units are met.
proof fn lemma_units_gather_on(sections: Map<Text, Seq<u8>>, offsets: Seq<Option<usize>>, filter: Seq<Text>, t: TallyV)
    requires
        units_walked(sections, offsets, filter, t) is Ok,
    ensures
        gathers_on(t, units_walked(sections, offsets, filter, t)->Ok_0),
        code_kept(t, units_walked(sections, offsets, filter, t)->Ok_0),
        increasing(t.stats.dwarf_versions) ==> forall|v: u16| #[trigger]
            t.stats.dwarf_versions.contains(v) ==> units_walked(sections, offsets, filter, t)->Ok_0.stats.dwarf_versions.contains(
                v,
            ),
    decreases offsets.len(),
{
    let last = units_walked(sections, offsets, filter, t)->Ok_0;
    if offsets.len() > 0 {
        let head = gimli_unit_head(sections, offsets[0].unwrap()).unwrap();
        let u = binary_model(sections, offsets[0].unwrap(), head);
        let t0 = with_version(t, head.version);
        let t1 = unit_walked(u, head.root, filter, t0)->Ok_0;
        law_walk(u, head.root, filter, t0);
        if increasing(t.stats.dwarf_versions) {
            law_with_number(t.stats.dwarf_versions, head.version);
            assert(t1.stats.dwarf_versions == t0.stats.dwarf_versions);
        }
        lemma_units_gather_on(sections, offsets.drop_first(), filter, t1);
        assert(keeps(t0, t1));
        if increasing(t.stats.dwarf_versions) {
            assert forall|v: u16| #[trigger] t.stats.dwarf_versions.contains(v) implies last.stats.dwarf_versions.contains(
                v,
            ) by {
                assert(with_number(t.stats.dwarf_versions, head.version).contains(v));
                assert(t1.stats.dwarf_versions.contains(v));
            }
        }
        assert forall|k: Text| #[trigger] t.functions.contains_key(k) implies t.functions[k].inlined_at.is_prefix_of(
            last.functions[k].inlined_at,
        ) by {
            assert(t0.functions.contains_key(k) && t1.functions.contains_key(k));
            let x = t.functions[k].inlined_at;
            let y = t1.functions[k].inlined_at;
            let z = last.functions[k].inlined_at;
            assert(z.subrange(0, x.len() as int) =~= y.subrange(0, x.len() as int));
        }
    } else {
        assert forall|k: Text| #[trigger] t.functions.contains_key(k) implies t.functions[k].inlined_at.is_prefix_of(
            t.functions[k].inlined_at,
        ) by {
            let x = t.functions[k].inlined_at;
            assert(x.subrange(0, x.len() as int) =~= x);
        }
    }
}

/// Whenever the units of a binary were met, each of them could be read, its version was noted, and every
/// entry of it was met: what the entry describes was gathered, if it passes the filter.
pub proof fn law_every_unit(
    sections: Map<Text, Seq<u8>>,
    offsets: Seq<Option<usize>>,
    filter: Seq<Text>,
    t: TallyV,
    k: int,
    n: nat,
)
    requires
        units_walked(sections, offsets, filter, t) is Ok,
        increasing(t.stats.dwarf_versions),
        0 <= k < offsets.len(),
    ensures
        ({
            let last = units_walked(sections, offsets, filter, t)->Ok_0;
            match unit_of(sections, offsets[k]) {
                Some((u, root)) => {
                    &&& onward_by(u, beginning(root), n) matches Some(p) ==> met(u, p, filter, last)
                    &&& last.stats.dwarf_versions.contains(
                        gimli_unit_head(sections, offsets[k].unwrap()).unwrap().version,
                    )
                },
                None => false,
            }
        }),
    decreases offsets.len(),
{
    let head = gimli_unit_head(sections, offsets[0].unwrap()).unwrap();
    let u = binary_model(sections, offsets[0].unwrap(), head);
    let t0 = with_version(t, head.version);
    let t1 = unit_walked(u, head.root, filter, t0)->Ok_0;
    let rest = offsets.drop_first();
    law_walk(u, head.root, filter, t0);
    law_with_number(t.stats.dwarf_versions, head.version);
    if k == 0 {
        lemma_units_gather_on(sections, rest, filter, t1);
        assert(with_number(t.stats.dwarf_versions, head.version).contains(head.version));
        assert(t1.stats.dwarf_versions.contains(head.version));
        if let Some(p) = onward_by(u, beginning(head.root), n) {
            law_walk_meets(u, head.root, filter, t0, n);
            lemma_met_kept(u, p, filter, t1, units_walked(sections, rest, filter, t1)->Ok_0);
        }
    } else {
        assert(rest[k - 1] == offsets[k]);
        law_every_unit(sections, rest, filter, t1, k - 1, n);
    }
}

/// Whether the metadata holds what the entry at a place describes, if it passes the filter: a function
/// of its name, with code if it has code, and with the inlined copy if it is one; a variable of its
/// name; a type of its name.
pub open spec fn held_in(meta: MetadataV, u: UnitModel, p: Place, filter: Seq<Text>) -> bool {
    &&& function_told(u, p) matches Some(f) ==> passes(filter, f.name) ==> exists|i: int|
        0 <= i < meta.functions.len() && (#[trigger] meta.functions[i]).name == f.name && (f.address is Some
            ==> meta.functions[i].address is Some)
    &&& copy_told(u, p) matches Some(c) ==> passes(filter, c.0) ==> exists|i: int|
        0 <= i < meta.functions.len() && (#[trigger] meta.functions[i]).name == c.0
            && meta.functions[i].inlined_at.contains(c.1)
    &&& variable_told(u, p) matches Some(v) ==> passes(filter, v.name) ==> exists|i: int|
        0 <= i < meta.variables.len() && (#[trigger] meta.variables[i]).name == v.name
    &&& type_told(u, p) matches Some(l) ==> passes(filter, l.name) ==> exists|i: int|
        0 <= i < meta.types.len() && (#[trigger] meta.types[i]).name == l.name
}

/// Whenever the metadata of a binary was extracted, it holds what the entries of all units of its debug
/// information describe and the filter lets pass, whatever the unit and the place in it.
pub proof fn law_extracts_all(data: Seq<u8>, filter: Seq<Text>, meta: MetadataV, k: int, n: nat)
    requires
        gathered(data, filter) is Ok,
        assembled(
            meta,
            gathered(data, filter)->Ok_0,
            filter,
            object_build_id(data),
            object_dynamic(data),
            object_segments(data),
        ),
        0 <= k < gimli_units(debug_sections(data)[".debug_info"@]).len(),
    ensures
        match unit_of(debug_sections(data), gimli_units(debug_sections(data)[".debug_info"@])[k]) {
            Some((u, root)) => onward_by(u, beginning(root), n) matches Some(p) ==> held_in(meta, u, p, filter),
            None => false,
        },
{
    let sections = debug_sections(data);
    let offsets = gimli_units(sections[".debug_info"@]);
    let t = nothing(object_section(data, ".debug_info"@) is Some);
    let last = gathered(data, filter)->Ok_0;
    law_every_unit(sections, offsets, filter, t, k, n);
    let (u, root) = unit_of(sections, offsets[k]).unwrap();
    if let Some(p) = onward_by(u, beginning(root), n) {
        assert(met(u, p, filter, last));
        assert(lists::<Function>(meta.functions, last.functions));
        assert(lists::<Variable>(meta.variables, last.variables));
        assert(lists::<TypeLayout>(meta.types, last.types));
        if let Some(f) = function_told(u, p) {
            if passes(filter, f.name) {
                assert(last.functions.contains_key(f.name));
                let i = choose|i: int|
                    0 <= i < meta.functions.len() && <Function as Named>::key(
                        #[trigger] meta.functions[i],
                    ) == f.name;
                assert(last.functions[f.name] == meta.functions[i]);
            }
        }
        if let Some(c) = copy_told(u, p) {
            if passes(filter, c.0) {
                assert(last.functions.contains_key(c.0));
                let i = choose|i: int|
                    0 <= i < meta.functions.len() && <Function as Named>::key(
                        #[trigger] meta.functions[i],
                    ) == c.0;
                assert(last.functions[c.0] == meta.functions[i]);
            }
        }
    }
}

/// Whether a place is one of an entry of one of the units at some offsets.
pub open spec fn place_among(sections: Map<Text, Seq<u8>>, offsets: Seq<Option<usize>>, u: UnitModel, p: Place) -> bool {
    exists|k: int|
        0 <= k < offsets.len() && (match unit_of(sections, #[trigger] offsets[k]) {
            Some((v, root)) => v == u && leads_to(u, beginning(root), p),
            None => false,
        })
}

/// What is gathered from units was told by their entries.
proof fn lemma_units_accounted(
    told: spec_fn(UnitModel, Place) -> bool,
    sections: Map<Text, Seq<u8>>,
    offsets: Seq<Option<usize>>,
    filter: Seq<Text>,
    t: TallyV,
)
    requires
        units_walked(sections, offsets, filter, t) is Ok,
        forall|k: int|
            0 <= k < offsets.len() ==> (unit_of(sections, #[trigger] offsets[k]) matches Some(v) ==> in_sequence(v.0)),
        forall|u: UnitModel, p: Place| #[trigger] place_among(sections, offsets, u, p) ==> told(u, p),
    ensures
        accounted(told, t, units_walked(sections, offsets, filter, t)->Ok_0),
    decreases offsets.len(),
{
    if offsets.len() > 0 {
        let head = gimli_unit_head(sections, offsets[0].unwrap()).unwrap();
        let u = binary_model(sections, offsets[0].unwrap(), head);
        assert(unit_of(sections, offsets[0]) == Some((u, head.root)));
        let t0 = with_version(t, head.version);
        let t1 = unit_walked(u, head.root, filter, t0)->Ok_0;
        let rest = offsets.drop_first();
        let start = beginning(head.root);
        assert(onward_by(u, start, 0) == Some(start));
        assert forall|q: Place| #[trigger] leads_to(u, start, q) implies told(u, q) by {
            assert(place_among(sections, offsets, u, q));
        }
        assert(start.levels.last() =~= Seq::<Text>::empty());
        lemma_walk_accounted(told, u, start, start, u.shape_at(head.root)->Ok_0, filter, t0);
        assert(accounted(told, t, t1));
        assert forall|v: UnitModel, p: Place| #[trigger] place_among(sections, rest, v, p) implies told(v, p) by {
            let k = choose|k: int|
                0 <= k < rest.len() && (match unit_of(sections, #[trigger] rest[k]) {
                    Some((w, root)) => w == v && leads_to(v, beginning(root), p),
                    None => false,
                });
            assert(offsets[k + 1] == rest[k]);
            assert(place_among(sections, offsets, v, p));
        }
        assert forall|k: int| 0 <= k < rest.len() implies (unit_of(sections, #[trigger] rest[k]) matches Some(v)
            ==> in_sequence(v.0)) by {
            assert(offsets[k + 1] == rest[k]);
        }
        lemma_units_accounted(told, sections, rest, filter, t1);
        lemma_units_gather_on(sections, rest, filter, t1);
        lemma_accounted(told, t, t1, units_walked(sections, rest, filter, t1)->Ok_0);
    }
}

/// Whether the entry at a place tells of a function of the metadata: of its code, where it has code, or
/// else of its name.
pub open spec fn tells_of(u: UnitModel, p: Place, f: FunctionV) -> bool {
    if f.address is Some {
        code_told(u, p, f.name, f)
    } else {
        name_told(u, p, f.name)
    }
}

/// Whether an entry of a unit at one of some offsets tells of a function.
pub open spec fn function_traced(sections: Map<Text, Seq<u8>>, offsets: Seq<Option<usize>>, f: FunctionV) -> bool {
    exists|u: UnitModel, p: Place| #[trigger] place_among(sections, offsets, u, p) && tells_of(u, p, f)
}

/// Whether an entry of a unit at one of some offsets describes a variable.
pub open spec fn variable_traced(sections: Map<Text, Seq<u8>>, offsets: Seq<Option<usize>>, v: VariableV) -> bool {
    exists|u: UnitModel, p: Place| #[trigger]
        place_among(sections, offsets, u, p) && variable_told(u, p) == Some(v)
}

/// Whether an entry of a unit at one of some offsets describes a type.
pub open spec fn type_traced(sections: Map<Text, Seq<u8>>, offsets: Seq<Option<usize>>, l: TypeV) -> bool {
    exists|u: UnitModel, p: Place| #[trigger] place_among(sections, offsets, u, p) && type_told(u, p) == Some(l)
}

/// The metadata of a binary holds nothing but what entries of its debug information describe: every
/// function, variable and type of it is described by an entry of one of the units, a function with the
/// code that it has there.
pub proof fn law_extracts_only(data: Seq<u8>, filter: Seq<Text>, meta: MetadataV)
    requires
        gathered(data, filter) is Ok,
        assembled(
            meta,
            gathered(data, filter)->Ok_0,
            filter,
            object_build_id(data),
            object_dynamic(data),
            object_segments(data),
        ),
        forall|k: int|
            0 <= k < gimli_units(debug_sections(data)[".debug_info"@]).len() ==> (unit_of(
                debug_sections(data),
                #[trigger] gimli_units(debug_sections(data)[".debug_info"@])[k],
            ) matches Some(v) ==> in_sequence(v.0)),
    ensures
        ({
            let sections = debug_sections(data);
            let offsets = gimli_units(sections[".debug_info"@]);
            &&& forall|i: int|
                0 <= i < meta.functions.len() ==> function_traced(sections, offsets, #[trigger] meta.functions[i])
            &&& forall|i: int|
                0 <= i < meta.variables.len() ==> variable_traced(sections, offsets, #[trigger] meta.variables[i])
            &&& forall|i: int|
                0 <= i < meta.types.len() ==> type_traced(sections, offsets, #[trigger] meta.types[i])
        }),
{
    let sections = debug_sections(data);
    let offsets = gimli_units(sections[".debug_info"@]);
    let t = nothing(object_section(data, ".debug_info"@) is Some);
    let last = gathered(data, filter)->Ok_0;
    let told = |u: UnitModel, p: Place| place_among(sections, offsets, u, p);
    lemma_units_accounted(told, sections, offsets, filter, t);
    assert(lists::<Function>(meta.functions, last.functions));
    assert(lists::<Variable>(meta.variables, last.variables));
    assert(lists::<TypeLayout>(meta.types, last.types));
    assert forall|i: int| 0 <= i < meta.functions.len() implies function_traced(sections, offsets, #[trigger] meta.functions[i]) by {
        let f = meta.functions[i];
        assert(last.functions.contains_key(<Function as Named>::key(f)));
        assert(last.functions.contains_key(f.name) && last.functions[f.name] == f);
        if f.address is Some {
            let (u, p) = choose|u: UnitModel, p: Place| #[trigger] told(u, p) && code_told(u, p, f.name, f);
            assert(place_among(sections, offsets, u, p) && tells_of(u, p, f));
        } else {
            let (u, p) = choose|u: UnitModel, p: Place| #[trigger] told(u, p) && name_told(u, p, f.name);
            assert(place_among(sections, offsets, u, p) && tells_of(u, p, f));
        }
    }
    assert forall|i: int| 0 <= i < meta.variables.len() implies variable_traced(sections, offsets, #[trigger] meta.variables[i]) by {
        let v = meta.variables[i];
        assert(last.variables.contains_key(<Variable as Named>::key(v)));
        assert(last.variables[v.name] == v);
        let (u, p) = choose|u: UnitModel, p: Place| #[trigger] told(u, p) && variable_told(u, p) == Some(v);
        assert(place_among(sections, offsets, u, p));
    }
    assert forall|i: int| 0 <= i < meta.types.len() implies type_traced(sections, offsets, #[trigger] meta.types[i]) by {
        let l = meta.types[i];
        assert(last.types.contains_key(<TypeLayout as Named>::key(l)));
        assert(last.types[l.name] == l);
        let (u, p) = choose|u: UnitModel, p: Place| #[trigger] told(u, p) && type_told(u, p) == Some(l);
        assert(place_among(sections, offsets, u, p));
    }
}

} // verus!
