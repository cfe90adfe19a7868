//! Laws of what is gathered, and counted, when an entry is met.

use vstd::prelude::*;

use crate::catalog::added_new;
use crate::catalog::merged_in;
use crate::catalog::Named;
use crate::debug_unit::Shape;
use crate::debug_unit::UnitModel;
use crate::meta::FunctionV;
use crate::meta::TypeV;
use crate::meta::VariableV;
use crate::names::passes;
use crate::symbols::function_at;
use crate::symbols::variable_of;
use crate::text::Text;
use crate::walk::visited;
use crate::walk::with_function;
use crate::walk::with_inlined;
use crate::walk::with_type;
use crate::walk::with_variable;
use crate::walk::StatsV;
use crate::walk::TallyV;

verus! {

/// A function that is met for the first time is gathered as it is. One that is met again adds the places
/// of its copies behind those that are known; it adds its address, its size, its parameters, and its
/// linkage name where none is known, if it is the first with an address; else it adds nothing more.
/// Nothing is different for the other functions.
pub proof fn law_merge(m: Map<Text, FunctionV>, f: FunctionV, k: Text)
    ensures
        merged_in(m, f).contains_key(k) <==> m.contains_key(k) || k == f.name,
        k != f.name && m.contains_key(k) ==> merged_in(m, f)[k] == m[k],
        !m.contains_key(f.name) ==> merged_in(m, f)[f.name] == f,
        m.contains_key(f.name) ==> {
            let was = m[f.name];
            let now = merged_in(m, f)[f.name];
            &&& now.name == was.name
            &&& now.inlined_at == was.inlined_at + f.inlined_at
            &&& was.address is Some || f.address is None ==> now == (FunctionV { inlined_at: now.inlined_at, ..was })
            &&& was.address is None && f.address is Some ==> {
                &&& now.address == f.address
                &&& now.size == f.size
                &&& now.params == f.params
                &&& was.linkage_name is Some ==> now.linkage_name == was.linkage_name
                &&& was.linkage_name is None ==> now.linkage_name == f.linkage_name
            }
        },
{
}

/// Of two types or variables of one name, the one that was met first stays.
pub proof fn law_first_stays<T: Named>(m: Map<Text, T::V>, v: T::V, k: Text)
    ensures
        added_new::<T>(m, v).contains_key(k) <==> m.contains_key(k) || k == T::key(v),
        m.contains_key(k) ==> added_new::<T>(m, v)[k] == m[k],
        !m.contains_key(T::key(v)) ==> added_new::<T>(m, v)[T::key(v)] == v,
{
}

/// Every function that is met is counted. One that passes the filter is gathered; one that does not is
/// counted as left out, and the names of the first eight of these that have code are kept as samples.
pub proof fn law_function_counted(t: TallyV, filter: Seq<Text>, f: FunctionV)
    requires
        t.stats.subprograms_seen < usize::MAX,
        t.stats.filtered_out < usize::MAX,
    ensures
        ({
            let t1 = with_function(t, filter, f);
            &&& t1.stats.subprograms_seen == t.stats.subprograms_seen + 1
            &&& passes(filter, f.name) ==> {
                &&& t1.functions == merged_in(t.functions, f)
                &&& t1.stats.filtered_out == t.stats.filtered_out
                &&& t1.stats.filtered_samples == t.stats.filtered_samples
            }
            &&& !passes(filter, f.name) ==> {
                &&& t1.functions == t.functions
                &&& t1.stats.filtered_out == t.stats.filtered_out + 1
                &&& f.address is Some && t.stats.filtered_samples.len() < 8 ==> {
                    &&& t1.stats.filtered_samples.len() == t.stats.filtered_samples.len() + 1
                    &&& t1.stats.filtered_samples.last() == f.name
                    &&& t1.stats.filtered_samples.drop_last() == t.stats.filtered_samples
                }
                &&& f.address is None || t.stats.filtered_samples.len() >= 8 ==> t1.stats.filtered_samples
                    == t.stats.filtered_samples
            }
            &&& t1.types == t.types && t1.variables == t.variables
            &&& t1.stats == (StatsV {
                subprograms_seen: t1.stats.subprograms_seen,
                filtered_out: t1.stats.filtered_out,
                filtered_samples: t1.stats.filtered_samples,
                ..t.stats
            })
        }),
{
    assert(t.stats.filtered_samples.push(f.name).drop_last() =~= t.stats.filtered_samples);
}

/// An inlined copy adds its place to the function that it is a copy of, if that passes the filter, and
/// makes the function known without an address if it was not known. Copies are not counted.
pub proof fn law_copy_gathered(t: TallyV, filter: Seq<Text>, name: Text, at: u64)
    ensures
        ({
            let t1 = with_inlined(t, filter, name, at);
            &&& t1.types == t.types && t1.variables == t.variables && t1.stats == t.stats
            &&& !passes(filter, name) ==> t1 == t
            &&& passes(filter, name) ==> {
                &&& t1.functions.dom() == t.functions.dom().insert(name)
                &&& forall|k: Text| k != name && t.functions.contains_key(k) ==> #[trigger] t1.functions[k]
                    == t.functions[k]
                &&& t1.functions[name].inlined_at.len() > 0 && t1.functions[name].inlined_at.last() == at
                &&& t.functions.contains_key(name) ==> t1.functions[name] == (FunctionV {
                    inlined_at: t.functions[name].inlined_at.push(at),
                    ..t.functions[name]
                })
                &&& !t.functions.contains_key(name) ==> {
                    &&& t1.functions[name].address is None
                    &&& t1.functions[name].name == name
                    &&& t1.functions[name].inlined_at.len() == 1
                }
            }
        }),
{
    if passes(filter, name) {
        let t1 = with_inlined(t, filter, name, at);
        assert(t1.functions.dom() =~= t.functions.dom().insert(name));
        if t.functions.contains_key(name) {
            assert(t1.functions[name].inlined_at =~= t.functions[name].inlined_at.push(at));
        }
    }
}

/// Every variable that is met is counted, and gathered if it passes the filter and is the first of its
/// name.
pub proof fn law_variable_counted(t: TallyV, filter: Seq<Text>, v: VariableV)
    requires
        t.stats.variables_seen < usize::MAX,
    ensures
        ({
            let t1 = with_variable(t, filter, v);
            &&& t1.functions == t.functions && t1.types == t.types
            &&& t1.stats == (StatsV { variables_seen: (t.stats.variables_seen + 1) as usize, ..t.stats })
            &&& t1.variables == (if passes(filter, v.name) && !t.variables.contains_key(v.name) {
                t.variables.insert(v.name, v)
            } else {
                t.variables
            })
        }),
{
}

/// A type is gathered if it passes the filter and is the first of its name.
pub proof fn law_type_gathered(t: TallyV, filter: Seq<Text>, l: TypeV)
    ensures
        ({
            let t1 = with_type(t, filter, l);
            &&& t1.functions == t.functions && t1.variables == t.variables && t1.stats == t.stats
            &&& t1.types == (if passes(filter, l.name) && !t.types.contains_key(l.name) {
                t.types.insert(l.name, l)
            } else {
                t.types
            })
        }),
{
}

/// Meeting an entry counts a function if it describes one that has a name, and a variable if it describes
/// one at a fixed address; it counts nothing else, and the versions that were met stay.
pub proof fn law_entry_counted(
    u: UnitModel,
    off: usize,
    shape: Shape,
    ns: Seq<Text>,
    filter: Seq<Text>,
    t: TallyV,
)
    requires
        t.stats.subprograms_seen < usize::MAX,
        t.stats.variables_seen < usize::MAX,
    ensures
        visited(u, off, shape, ns, filter, t) matches Ok(t1) ==> {
            let first = if shape.has_children && !shape.last {
                Some(shape.next)
            } else {
                None
            };
            let function = shape.tag == 0x2e && (function_at(u, off, first) matches Ok(Some(_)));
            let variable = shape.tag == 0x34 && (variable_of(u, off, ns) matches Ok(Some(_)));
            &&& t1.stats.subprograms_seen == t.stats.subprograms_seen + (if function {
                1int
            } else {
                0
            })
            &&& t1.stats.variables_seen == t.stats.variables_seen + (if variable {
                1int
            } else {
                0
            })
            &&& t1.stats.dwarf_versions == t.stats.dwarf_versions
            &&& t1.stats.has_debug_info == t.stats.has_debug_info
        },
{
}

} // verus!
