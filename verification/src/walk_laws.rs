//! Laws of the walk: what it gathers, and what it never loses.

use vstd::prelude::*;

use crate::debug_unit::UnitModel;
use crate::debug_unit::Shape;
use crate::entries::later;
use crate::entries::left_from;
use crate::names::passes;
use crate::text::Text;
use crate::walk::behind;
use crate::walk::inner_namespaces;
use crate::walk::unit_walked;
use crate::walk::visited;
use crate::walk::walked;
use crate::walk::walked_children;
use crate::walk::TallyV;
use crate::walk::MAX_SAMPLES;

verus! {

/// Whether everything gathered goes by its own name, and passes the filter.
pub open spec fn well_gathered(t: TallyV, filter: Seq<Text>) -> bool {
    &&& forall|k: Text| #[trigger]
        t.functions.contains_key(k) ==> t.functions[k].name == k && passes(filter, k)
    &&& forall|k: Text| #[trigger]
        t.types.contains_key(k) ==> t.types[k].name == k && passes(filter, k)
    &&& forall|k: Text| #[trigger]
        t.variables.contains_key(k) ==> t.variables[k].name == k && passes(filter, k)
    &&& t.stats.filtered_samples.len() <= MAX_SAMPLES
    &&& forall|i: int|
        0 <= i < t.stats.filtered_samples.len() ==> !passes(filter, #[trigger] t.stats.filtered_samples[i])
}

/// Whether nothing that `t` holds was lost or changed on the way to `t1`. A function that had no code
/// of its own may have gained it, and inlined copies may have been added.
pub open spec fn keeps(t: TallyV, t1: TallyV) -> bool {
    &&& forall|k: Text| #[trigger]
        t.functions.contains_key(k) ==> {
            let a = t.functions[k];
            let b = t1.functions[k];
            &&& t1.functions.contains_key(k)
            &&& a.address is Some ==> b.address == a.address && b.size == a.size && b.params == a.params
            &&& a.linkage_name is Some ==> b.linkage_name == a.linkage_name
            &&& a.inlined_at.is_prefix_of(b.inlined_at)
        }
    &&& forall|k: Text| #[trigger]
        t.types.contains_key(k) ==> t1.types.contains_key(k) && t1.types[k] == t.types[k]
    &&& forall|k: Text| #[trigger]
        t.variables.contains_key(k) ==> t1.variables.contains_key(k) && t1.variables[k] == t.variables[k]
    &&& t.stats.filtered_samples.is_prefix_of(t1.stats.filtered_samples)
    &&& t.stats.subprograms_seen <= t1.stats.subprograms_seen
    &&& t.stats.variables_seen <= t1.stats.variables_seen
    &&& t.stats.filtered_out <= t1.stats.filtered_out
    &&& t1.stats.has_debug_info == t.stats.has_debug_info
    &&& t1.stats.dwarf_versions == t.stats.dwarf_versions
}

/// Keeping is transitive.
proof fn lemma_keeps(a: TallyV, b: TallyV, c: TallyV)
    requires
        keeps(a, b),
        keeps(b, c),
    ensures
        keeps(a, c),
{
    assert forall|k: Text| #[trigger] a.functions.contains_key(k) implies c.functions.contains_key(k)
        && a.functions[k].inlined_at.is_prefix_of(c.functions[k].inlined_at) by {
        assert(b.functions.contains_key(k));
        let x = a.functions[k].inlined_at;
        let y = b.functions[k].inlined_at;
        let z = c.functions[k].inlined_at;
        assert(x.is_prefix_of(y) && y.is_prefix_of(z));
        assert(z.subrange(0, x.len() as int) =~= y.subrange(0, x.len() as int));
    }
    let x = a.stats.filtered_samples;
    let y = b.stats.filtered_samples;
    let z = c.stats.filtered_samples;
    assert(z.subrange(0, x.len() as int) =~= y.subrange(0, x.len() as int));
}

/// What is gathered from one entry.
proof fn lemma_visited(u: UnitModel, off: usize, shape: Shape, ns: Seq<Text>, filter: Seq<Text>, t: TallyV)
    requires
        visited(u, off, shape, ns, filter, t) is Ok,
    ensures
        keeps(t, visited(u, off, shape, ns, filter, t)->Ok_0),
        well_gathered(t, filter) ==> well_gathered(visited(u, off, shape, ns, filter, t)->Ok_0, filter),
{
}

/// What is gathered from an entry and all below it.
proof fn lemma_walked(u: UnitModel, off: usize, shape: Shape, ns: Seq<Text>, filter: Seq<Text>, t: TallyV)
    requires
        walked(u, off, shape, ns, filter, t) is Ok,
    ensures
        keeps(t, walked(u, off, shape, ns, filter, t)->Ok_0.0),
        well_gathered(t, filter) ==> well_gathered(walked(u, off, shape, ns, filter, t)->Ok_0.0, filter),
    decreases left_from(u, Some(off)), 1int,
{
    let inner = inner_namespaces(u, off, shape, ns)->Ok_0;
    let t1 = visited(u, off, shape, ns, filter, t)->Ok_0;
    lemma_visited(u, off, shape, ns, filter, t);
    if shape.has_children {
        let pos = later(u, off, behind(shape));
        lemma_walked_children(u, pos, inner, filter, t1);
        lemma_keeps(t, t1, walked_children(u, pos, inner, filter, t1)->Ok_0.0);
    }
}

/// What is gathered from a list of children and all below them.
pub proof fn lemma_walked_children(
    u: UnitModel,
    pos: Option<usize>,
    ns: Seq<Text>,
    filter: Seq<Text>,
    t: TallyV,
)
    requires
        walked_children(u, pos, ns, filter, t) is Ok,
    ensures
        keeps(t, walked_children(u, pos, ns, filter, t)->Ok_0.0),
        well_gathered(t, filter) ==> well_gathered(walked_children(u, pos, ns, filter, t)->Ok_0.0, filter),
    decreases left_from(u, pos), 2int,
{
    if let Some(p) = pos {
        let shape = u.shape_at(p)->Ok_0;
        if shape.present {
            let next = walked(u, p, shape, ns, filter, t)->Ok_0;
            lemma_walked(u, p, shape, ns, filter, t);
            lemma_walked_children(u, later(u, p, next.1), ns, filter, next.0);
            lemma_keeps(
                t,
                next.0,
                walked_children(u, later(u, p, next.1), ns, filter, next.0)->Ok_0.0,
            );
        }
    }
}

/// Walking over a unit loses nothing that was gathered before, and whatever it gathers goes by its own
/// name and passes the filter.
pub proof fn law_walk(u: UnitModel, root: usize, filter: Seq<Text>, t: TallyV)
    requires
        unit_walked(u, root, filter, t) is Ok,
    ensures
        keeps(t, unit_walked(u, root, filter, t)->Ok_0),
        well_gathered(t, filter) ==> well_gathered(unit_walked(u, root, filter, t)->Ok_0, filter),
{
    lemma_walked(u, root, u.shape_at(root)->Ok_0, Seq::empty(), filter, t);
}

} // verus!
