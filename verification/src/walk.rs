//! The walk over the entries of a unit, and what is gathered on it.

use vstd::prelude::*;

use crate::catalog::added_new;
use crate::catalog::inlined_only;
use crate::catalog::merge_fn;
use crate::catalog::merged_in;
use crate::catalog::note_inlined;
use crate::catalog::Catalog;
use crate::debug_unit::fault;
use crate::debug_unit::DebugUnit;
use crate::debug_unit::DwarfError;
use crate::debug_unit::UnitModel;
use crate::debug_unit::Fault;
use crate::debug_unit::Shape;
use crate::debug_unit::AT_NAME;
use crate::debug_unit::TAG_ENUMERATION;
use crate::debug_unit::TAG_INLINED;
use crate::debug_unit::TAG_NAMESPACE;
use crate::debug_unit::TAG_STRUCTURE;
use crate::debug_unit::TAG_SUBPROGRAM;
use crate::debug_unit::TAG_UNION;
use crate::debug_unit::TAG_VARIABLE;
use crate::entries::entry_at;
use crate::entries::first_child_of;
use crate::entries::later;
use crate::entries::left_from;
use crate::fields::layout_at;
use crate::fields::read_struct;
use crate::meta::Function;
use crate::meta::FunctionV;
use crate::meta::TypeLayout;
use crate::meta::TypeV;
use crate::meta::Variable;
use crate::meta::VariableV;
use crate::names::matches_filter;
use crate::names::passes;
use crate::symbols::function_at;
use crate::symbols::inlined_copy;
use crate::symbols::read_inlined;
use crate::symbols::read_subprogram;
use crate::symbols::read_variable;
use crate::symbols::variable_of;
use crate::text::texts;
use crate::text::Text;

verus! {

/// What was counted on the way.
pub struct Stats {
    pub has_debug_info: bool,
    /// The versions of debug information that were met, in increasing order.
    pub dwarf_versions: Vec<u16>,
    pub subprograms_seen: usize,
    pub variables_seen: usize,
    pub filtered_out: usize,
    /// Names of the first few functions with code that did not pass the filter.
    pub filtered_samples: Vec<String>,
}

#[verifier::ext_equal]
pub struct StatsV {
    pub has_debug_info: bool,
    pub dwarf_versions: Seq<u16>,
    pub subprograms_seen: usize,
    pub variables_seen: usize,
    pub filtered_out: usize,
    pub filtered_samples: Seq<Text>,
}

impl View for Stats {
    type V = StatsV;

    open spec fn view(&self) -> StatsV {
        StatsV {
            has_debug_info: self.has_debug_info,
            dwarf_versions: self.dwarf_versions@,
            subprograms_seen: self.subprograms_seen,
            variables_seen: self.variables_seen,
            filtered_out: self.filtered_out,
            filtered_samples: texts(self.filtered_samples@),
        }
    }
}

/// How many names are kept of functions that did not pass the filter.
pub const MAX_SAMPLES: usize = 8;

/// What has been gathered.
pub struct Tally {
    pub functions: Catalog<Function>,
    pub types: Catalog<TypeLayout>,
    pub variables: Catalog<Variable>,
    pub stats: Stats,
}

#[verifier::ext_equal]
pub struct TallyV {
    pub functions: Map<Text, FunctionV>,
    pub types: Map<Text, TypeV>,
    pub variables: Map<Text, VariableV>,
    pub stats: StatsV,
}

impl View for Tally {
    type V = TallyV;

    open spec fn view(&self) -> TallyV {
        TallyV {
            functions: self.functions@,
            types: self.types@,
            variables: self.variables@,
            stats: self.stats@,
        }
    }
}

impl Tally {
    /// Whether the collections are in order.
    pub open spec fn wf(&self) -> bool {
        self.functions.wf() && self.types.wf() && self.variables.wf()
    }

    /// Nothing gathered yet.
    pub fn new(has_debug_info: bool) -> (r: Tally)
        ensures
            r.wf(),
            r@ == nothing(has_debug_info),
    {
        let r = Tally {
            functions: Catalog::new(),
            types: Catalog::new(),
            variables: Catalog::new(),
            stats: Stats {
                has_debug_info,
                dwarf_versions: Vec::new(),
                subprograms_seen: 0,
                variables_seen: 0,
                filtered_out: 0,
                filtered_samples: Vec::new(),
            },
        };
        assert(r@ =~= nothing(has_debug_info));
        r
    }
}

/// Nothing gathered yet.
pub open spec fn nothing(has_debug_info: bool) -> TallyV {
    TallyV {
        functions: Map::empty(),
        types: Map::empty(),
        variables: Map::empty(),
        stats: StatsV {
            has_debug_info,
            dwarf_versions: Seq::empty(),
            subprograms_seen: 0,
            variables_seen: 0,
            filtered_out: 0,
            filtered_samples: Seq::empty(),
        },
    }
}

/// One more, as far as can be counted.
pub open spec fn one_more(n: usize) -> usize {
    if n == usize::MAX {
        n
    } else {
        (n + 1) as usize
    }
}

/// What has been gathered once a function was met: it is kept if it passes the filter, and counted.
pub open spec fn with_function(t: TallyV, filter: Seq<Text>, f: FunctionV) -> TallyV {
    let seen = one_more(t.stats.subprograms_seen);
    if passes(filter, f.name) {
        TallyV {
            functions: merged_in(t.functions, f),
            stats: StatsV { subprograms_seen: seen, ..t.stats },
            ..t
        }
    } else {
        TallyV {
            stats: StatsV {
                subprograms_seen: seen,
                filtered_out: one_more(t.stats.filtered_out),
                filtered_samples: if t.stats.filtered_samples.len() < MAX_SAMPLES && f.address is Some {
                    t.stats.filtered_samples.push(f.name)
                } else {
                    t.stats.filtered_samples
                },
                ..t.stats
            },
            ..t
        }
    }
}

/// What has been gathered once an inlined copy of a function was met.
pub open spec fn with_inlined(t: TallyV, filter: Seq<Text>, name: Text, at: u64) -> TallyV {
    if passes(filter, name) {
        TallyV { functions: merged_in(t.functions, inlined_only(name, at)), ..t }
    } else {
        t
    }
}

/// What has been gathered once a variable was met: the first of a name is kept.
pub open spec fn with_variable(t: TallyV, filter: Seq<Text>, v: VariableV) -> TallyV {
    TallyV {
        variables: if passes(filter, v.name) {
            added_new::<Variable>(t.variables, v)
        } else {
            t.variables
        },
        stats: StatsV { variables_seen: one_more(t.stats.variables_seen), ..t.stats },
        ..t
    }
}

/// What has been gathered once a type was met: the first of a name is kept.
pub open spec fn with_type(t: TallyV, filter: Seq<Text>, layout: TypeV) -> TallyV {
    if passes(filter, layout.name) {
        TallyV { types: added_new::<TypeLayout>(t.types, layout), ..t }
    } else {
        t
    }
}

/// Whether an entry describes a structure, a union or an enumeration.
pub open spec fn is_layout(tag: u16) -> bool {
    tag == TAG_STRUCTURE || tag == TAG_UNION || tag == TAG_ENUMERATION
}

/// What has been gathered once the entry at `off` was met, apart from its children.
pub open spec fn visited(
    u: UnitModel,
    off: usize,
    shape: Shape,
    ns: Seq<Text>,
    filter: Seq<Text>,
    t: TallyV,
) -> Result<TallyV, Fault> {
    let first = first_child_of(shape);
    if shape.tag == TAG_SUBPROGRAM {
        match function_at(u, off, first) {
            Err(f) => Err(f),
            Ok(None) => Ok(t),
            Ok(Some(f)) => Ok(with_function(t, filter, f)),
        }
    } else if shape.tag == TAG_INLINED {
        match inlined_copy(u, off) {
            Err(f) => Err(f),
            Ok(None) => Ok(t),
            Ok(Some(c)) => Ok(with_inlined(t, filter, c.0, c.1)),
        }
    } else if shape.tag == TAG_VARIABLE {
        match variable_of(u, off, ns) {
            Err(f) => Err(f),
            Ok(None) => Ok(t),
            Ok(Some(v)) => Ok(with_variable(t, filter, v)),
        }
    } else if is_layout(shape.tag) {
        match layout_at(u, off, first, ns) {
            Err(f) => Err(f),
            Ok(None) => Ok(t),
            Ok(Some(l)) => Ok(with_type(t, filter, l)),
        }
    } else {
        Ok(t)
    }
}

/// The namespaces in which the children of an entry stand.
pub open spec fn inner_namespaces(u: UnitModel, off: usize, shape: Shape, ns: Seq<Text>) -> Result<
    Seq<Text>,
    Fault,
> {
    if shape.tag == TAG_NAMESPACE {
        match u.text_at(off, AT_NAME) {
            Err(f) => Err(f),
            Ok(Some(name)) => Ok(ns.push(name)),
            Ok(None) => Ok(ns),
        }
    } else {
        Ok(ns)
    }
}

/// Where the walk goes on behind what stands at an offset: nowhere, where it is the last of the unit.
pub open spec fn behind(shape: Shape) -> Option<usize> {
    if shape.last {
        None
    } else {
        Some(shape.next)
    }
}

/// What has been gathered, and where the walk goes on, once the entry at `off` and all below it were
/// met.
pub open spec fn walked(
    u: UnitModel,
    off: usize,
    shape: Shape,
    ns: Seq<Text>,
    filter: Seq<Text>,
    t: TallyV,
) -> Result<(TallyV, Option<usize>), Fault>
    decreases left_from(u, Some(off)), 1int,
{
    match inner_namespaces(u, off, shape, ns) {
        Err(f) => Err(f),
        Ok(inner) => match visited(u, off, shape, ns, filter, t) {
            Err(f) => Err(f),
            Ok(t1) => if shape.has_children {
                walked_children(u, later(u, off, behind(shape)), inner, filter, t1)
            } else {
                Ok((t1, behind(shape)))
            },
        },
    }
}

/// What has been gathered, and where the walk goes on, once a list of children from a position on, and
/// all below them, were met.
pub open spec fn walked_children(
    u: UnitModel,
    pos: Option<usize>,
    ns: Seq<Text>,
    filter: Seq<Text>,
    t: TallyV,
) -> Result<(TallyV, Option<usize>), Fault>
    decreases left_from(u, pos), 2int,
{
    match pos {
        None => Ok((t, None)),
        Some(p) => match u.shape_at(p) {
            Err(f) => Err(f),
            Ok(shape) => if !shape.present {
                Ok((t, behind(shape)))
            } else {
                match walked(u, p, shape, ns, filter, t) {
                    Err(f) => Err(f),
                    Ok(next) => walked_children(u, later(u, p, next.1), ns, filter, next.0),
                }
            },
        },
    }
}

/// What has been gathered once a whole unit was met, from its root on.
pub open spec fn unit_walked(u: UnitModel, root: usize, filter: Seq<Text>, t: TallyV) -> Result<TallyV, Fault> {
    match entry_at(u, root) {
        Err(f) => Err(f),
        Ok(shape) => match walked(u, root, shape, Seq::empty(), filter, t) {
            Err(f) => Err(f),
            Ok(done) => Ok(done.0),
        },
    }
}

// ---- the walk ----

/// Meets a function: keeps it if it passes the filter, and counts it.
fn take_function(t: Tally, filter: &Vec<String>, f: Function) -> (r: Tally)
    requires
        t.wf(),
    ensures
        r.wf(),
        r@ == with_function(t@, texts(filter@), f@),
{
    let mut t: Tally = t;
    let ghost before = t@;
    t.stats.subprograms_seen = t.stats.subprograms_seen.saturating_add(1);
    if matches_filter(filter, f.name.as_str()) {
        merge_fn(&mut t.functions, f);
    } else {
        t.stats.filtered_out = t.stats.filtered_out.saturating_add(1);
        if t.stats.filtered_samples.len() < MAX_SAMPLES && f.address.is_some() {
            t.stats.filtered_samples.push(f.name);
            assert(texts(t.stats.filtered_samples@) =~= before.stats.filtered_samples.push(f@.name));
        }
    }
    assert(t@ =~= with_function(before, texts(filter@), f@));
    t
}

/// Meets an entry: gathers what it describes, apart from its children.
fn visit<U: DebugUnit>(u: &U, off: usize, shape: Shape, ns: &Vec<String>, filter: &Vec<String>, t: Tally) -> (r: Result<
    Tally,
    DwarfError,
>)
    requires
        t.wf(),
    ensures
        match r {
            Ok(t1) => t1.wf() && visited(u.model(), off, shape, texts(ns@), texts(filter@), t@) == Ok::<TallyV, Fault>(t1@),
            Err(e) => visited(u.model(), off, shape, texts(ns@), texts(filter@), t@) == Err::<TallyV, Fault>(fault(e)),
        },
{
    let ghost before = t@;
    let first: Option<usize> = if shape.has_children && !shape.last { Some(shape.next) } else { None };
    let mut t: Tally = t;
    if shape.tag == TAG_SUBPROGRAM {
        if let Some(f) = read_subprogram(u, off, first)? {
            t = take_function(t, filter, f);
        }
    } else if shape.tag == TAG_INLINED {
        if let Some((name, low)) = read_inlined(u, off)? {
            if matches_filter(filter, name.as_str()) {
                note_inlined(&mut t.functions, name, low);
            }
            assert(t@ =~= with_inlined(before, texts(filter@), name@, low));
        }
    } else if shape.tag == TAG_VARIABLE {
        if let Some(v) = read_variable(u, off, ns)? {
            t.stats.variables_seen = t.stats.variables_seen.saturating_add(1);
            if matches_filter(filter, v.name.as_str()) {
                t.variables.add_new(v);
            }
            assert(t@ =~= with_variable(before, texts(filter@), v@));
        }
    } else if shape.tag == TAG_STRUCTURE || shape.tag == TAG_UNION || shape.tag == TAG_ENUMERATION {
        if let Some(l) = read_struct(u, off, first, ns)? {
            if matches_filter(filter, l.name.as_str()) {
                t.types.add_new(l);
            }
            assert(t@ =~= with_type(before, texts(filter@), l@));
        }
    }
    Ok(t)
}

/// Meets an entry and all below it, within the namespaces `ns`. Gives back what has been gathered, and
/// where the walk goes on.
pub fn walk_node<U: DebugUnit>(
    u: &U,
    off: usize,
    shape: Shape,
    ns: &mut Vec<String>,
    filter: &Vec<String>,
    t: Tally,
) -> (r: Result<(Tally, Option<usize>), DwarfError>)
    requires
        t.wf(),
        off < shape.next <= u.model().limit(),
    ensures
        match r {
            Ok((t1, pos)) => {
                &&& t1.wf()
                &&& walked(u.model(), off, shape, texts(old(ns)@), texts(filter@), t@) == Ok::<
                    (TallyV, Option<usize>),
                    Fault,
                >((t1@, pos))
                &&& pos matches Some(q) ==> off < q <= u.model().limit()
                &&& texts(final(ns)@) == texts(old(ns)@)
            },
            Err(e) => walked(u.model(), off, shape, texts(old(ns)@), texts(filter@), t@) == Err::<
                (TallyV, Option<usize>),
                Fault,
            >(fault(e)),
        },
    decreases u.model().limit() - off,
{
    let ghost outer = texts(ns@);
    let mut pushed: bool = false;
    if shape.tag == TAG_NAMESPACE {
        if let Some(name) = u.text(off, AT_NAME)? {
            ns.push(name);
            pushed = true;
            assert(texts(ns@) =~= outer.push(name@));
            assert(texts(ns@).drop_last() =~= outer);
        }
    }
    let ghost inner = texts(ns@);
    let ghost start = t@;
    let behind_it: Option<usize> = if shape.last { None } else { Some(shape.next) };
    let mut now: Tally = visit(u, off, shape, ns, filter, t)?;
    let mut pos: Option<usize> = behind_it;
    if shape.has_children {
        let ghost all = walked_children(u.model(), pos, inner, texts(filter@), now@);
        let mut more: bool = true;
        while more && pos.is_some()
            invariant
                now.wf(),
                outer == texts(old(ns)@),
                start == t@,
                texts(ns@) == inner,
                pos matches Some(q) ==> off < q <= u.model().limit(),
                more ==> all == walked_children(u.model(), pos, inner, texts(filter@), now@),
                !more ==> all == Ok::<(TallyV, Option<usize>), Fault>((now@, pos)),
                walked(u.model(), off, shape, outer, texts(filter@), start) == all,
            decreases (if more { 1int } else { 0int }), left_from(u.model(), pos),
        {
            let p: usize = pos.unwrap();
            let child = u.shape(p)?;
            if !child.present {
                pos = if child.last { None } else { Some(child.next) };
                more = false;
            } else {
                let (t1, next) = walk_node(u, p, child, ns, filter, now)?;
                assert(later(u.model(), p, next) == next);
                now = t1;
                pos = next;
            }
        }
    }
    if pushed {
        ns.pop();
        assert(texts(ns@) =~= inner.drop_last());
    }
    Ok((now, pos))
}

/// Meets every entry of a unit, from its root on.
pub fn walk_unit<U: DebugUnit>(u: &U, root: usize, filter: &Vec<String>, t: Tally) -> (r: Result<Tally, DwarfError>)
    requires
        t.wf(),
    ensures
        match r {
            Ok(t1) => t1.wf() && unit_walked(u.model(), root, texts(filter@), t@) == Ok::<TallyV, Fault>(t1@),
            Err(e) => unit_walked(u.model(), root, texts(filter@), t@) == Err::<TallyV, Fault>(fault(e)),
        },
{
    let shape = u.shape(root)?;
    if !shape.present {
        return Err(DwarfError::NoEntry(root));
    }
    let mut ns: Vec<String> = Vec::new();
    assert(texts(ns@) =~= Seq::<Text>::empty());
    let (t1, _) = walk_node(u, root, shape, &mut ns, filter, t)?;
    Ok(t1)
}

} // verus!
