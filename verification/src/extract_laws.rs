//! Laws of extraction: what the metadata of a binary holds, and that it belongs to the binary.

use vstd::prelude::*;

use crate::binary_unit::binary_model;
use crate::build_id::compared;
use crate::build_id::hex_text;
use crate::build_id::law_build_id_match;
use crate::build_id::law_hex_injective;
use crate::build_id::BuildIdCheckV;
use crate::catalog::in_name_order;
use crate::catalog::law_listing_unique;
use crate::dwarf_reader::gimli_unit_head;
use crate::dwarf_reader::gimli_units;
use crate::extract::assembled;
use crate::extract::gathered;
use crate::extract::law_with_number;
use crate::extract::units_walked;
use crate::extract::with_number;
use crate::extract::with_version;
use crate::meta::Function;
use crate::meta::MetadataV;
use crate::meta::TypeLayout;
use crate::meta::Variable;
use crate::names::passes;
use crate::object_file::debug_sections;
use crate::object_file::law_lowest;
use crate::object_file::object_build_id;
use crate::object_file::object_dynamic;
use crate::object_file::object_section;
use crate::object_file::object_segments;
use crate::text::Text;
use crate::walk::nothing;
use crate::walk::unit_walked;
use crate::walk::TallyV;
use crate::walk_laws::law_walk;
use crate::walk_laws::well_gathered;

verus! {

/// Whether numbers stand in strictly increasing order.
pub open spec fn increasing(list: Seq<u16>) -> bool {
    forall|i: int, j: int| 0 <= i < j < list.len() ==> list[i] < list[j]
}

/// What is gathered from one unit after the other goes by its own name and passes the filter, and the
/// versions that were met stand in increasing order.
pub proof fn law_units(sections: Map<Text, Seq<u8>>, offsets: Seq<Option<usize>>, filter: Seq<Text>, t: TallyV)
    requires
        well_gathered(t, filter),
        increasing(t.stats.dwarf_versions),
        units_walked(sections, offsets, filter, t) is Ok,
    ensures
        well_gathered(units_walked(sections, offsets, filter, t)->Ok_0, filter),
        increasing(units_walked(sections, offsets, filter, t)->Ok_0.stats.dwarf_versions),
    decreases offsets.len(),
{
    if offsets.len() > 0 {
        let unit = offsets[0].unwrap();
        let head = gimli_unit_head(sections, unit).unwrap();
        let t0 = with_version(t, head.version);
        law_with_number(t.stats.dwarf_versions, head.version);
        let u = binary_model(sections, unit, head);
        law_walk(u, head.root, filter, t0);
        law_units(sections, offsets.drop_first(), filter, unit_walked(u, head.root, filter, t0)->Ok_0);
    }
}

/// Everything in the metadata of a binary passes the filter that was asked for, and stands in the
/// order of the names, no name twice in a list.
pub proof fn law_extracted(data: Seq<u8>, filter: Seq<Text>, meta: MetadataV)
    requires
        gathered(data, filter) is Ok,
        assembled(
            meta,
            gathered(data, filter)->Ok_0,
            filter,
            object_build_id(data),
            object_dynamic(data),
            object_segments(data),
        ),
    ensures
        in_name_order::<Function>(meta.functions),
        in_name_order::<TypeLayout>(meta.types),
        in_name_order::<Variable>(meta.variables),
        forall|i: int| 0 <= i < meta.functions.len() ==> passes(filter, (#[trigger] meta.functions[i]).name),
        forall|i: int| 0 <= i < meta.types.len() ==> passes(filter, (#[trigger] meta.types[i]).name),
        forall|i: int| 0 <= i < meta.variables.len() ==> passes(filter, (#[trigger] meta.variables[i]).name),
        increasing(gathered(data, filter)->Ok_0.stats.dwarf_versions),
{
    let sections = debug_sections(data);
    law_units(
        sections,
        gimli_units(sections[".debug_info"@]),
        filter,
        nothing(object_section(data, ".debug_info"@) is Some),
    );
}

/// The metadata of a binary is determined by the binary and the filter.
pub proof fn law_extract_deterministic(data: Seq<u8>, filter: Seq<Text>, a: MetadataV, b: MetadataV)
    requires
        gathered(data, filter) is Ok,
        assembled(
            a,
            gathered(data, filter)->Ok_0,
            filter,
            object_build_id(data),
            object_dynamic(data),
            object_segments(data),
        ),
        assembled(
            b,
            gathered(data, filter)->Ok_0,
            filter,
            object_build_id(data),
            object_dynamic(data),
            object_segments(data),
        ),
    ensures
        a == b,
{
    let t = gathered(data, filter)->Ok_0;
    law_listing_unique::<Function>(a.functions, b.functions, t.functions);
    law_listing_unique::<TypeLayout>(a.types, b.types, t.types);
    law_listing_unique::<Variable>(a.variables, b.variables, t.variables);
}

/// Metadata that was extracted from a binary is found to belong to it: its build ID matches, unless the
/// binary has none.
pub proof fn law_extract_verifies(data: Seq<u8>, filter: Seq<Text>, t: TallyV, meta: MetadataV)
    requires
        assembled(
            meta,
            t,
            filter,
            object_build_id(data),
            object_dynamic(data),
            object_segments(data),
        ),
    ensures
        compared(meta.build_id, object_build_id(data)) == (if object_build_id(data) is Some {
            BuildIdCheckV::Matches
        } else {
            BuildIdCheckV::NotRecorded
        }),
{
    if let Some(id) = object_build_id(data) {
        law_build_id_match(id, id);
    }
}

/// The metadata of a binary says which filter it was made with, whether the binary is
/// position-independent, where the lowest of its segments lies, and its build ID, in a text that no other
/// build ID has.
pub proof fn law_metadata_says(data: Seq<u8>, filter: Seq<Text>, t: TallyV, meta: MetadataV, other: Seq<u8>)
    requires
        assembled(
            meta,
            t,
            filter,
            object_build_id(data),
            object_dynamic(data),
            object_segments(data),
        ),
    ensures
        meta.format_version == 1,
        meta.crate_filter == filter,
        meta.pie == object_dynamic(data),
        object_segments(data).len() > 0 ==> object_segments(data).contains(meta.image_base),
        forall|i: int| 0 <= i < object_segments(data).len() ==> meta.image_base <= #[trigger] object_segments(data)[i],
        meta.build_id is Some <==> object_build_id(data) is Some,
        object_build_id(data) matches Some(id) ==> {
            &&& meta.build_id.unwrap().len() == 2 * id.len()
            &&& meta.build_id == Some(hex_text(other)) ==> id == other
        },
{
    if object_segments(data).len() > 0 {
        law_lowest(object_segments(data));
    }
    if let Some(id) = object_build_id(data) {
        law_hex_injective(id, other);
    }
}

/// Whether one of the units at some offsets is of a version.
pub open spec fn version_met(sections: Map<Text, Seq<u8>>, offsets: Seq<Option<usize>>, version: u16) -> bool {
    exists|k: int|
        0 <= k < offsets.len() && (#[trigger] offsets[k]) is Some && (gimli_unit_head(
            sections,
            offsets[k].unwrap(),
        ) matches Some(head) && head.version == version)
}

/// The versions that are told are those of the units that were met, and whether there is debug information
/// at all stays as it was.
proof fn lemma_versions(
    sections: Map<Text, Seq<u8>>,
    offsets: Seq<Option<usize>>,
    filter: Seq<Text>,
    t: TallyV,
    version: u16,
)
    requires
        increasing(t.stats.dwarf_versions),
        units_walked(sections, offsets, filter, t) is Ok,
    ensures
        ({
            let last = units_walked(sections, offsets, filter, t)->Ok_0;
            &&& last.stats.dwarf_versions.contains(version) <==> t.stats.dwarf_versions.contains(version)
                || version_met(sections, offsets, version)
            &&& last.stats.has_debug_info == t.stats.has_debug_info
        }),
    decreases offsets.len(),
{
    if offsets.len() > 0 {
        let unit = offsets[0].unwrap();
        let head = gimli_unit_head(sections, unit).unwrap();
        let t0 = with_version(t, head.version);
        law_with_number(t.stats.dwarf_versions, head.version);
        let u = binary_model(sections, unit, head);
        law_walk(u, head.root, filter, t0);
        let t1 = unit_walked(u, head.root, filter, t0)->Ok_0;
        let rest = offsets.drop_first();
        lemma_versions(sections, rest, filter, t1, version);
        assert(with_number(t.stats.dwarf_versions, head.version).contains(version) <==> t.stats.dwarf_versions.contains(
            version,
        ) || version == head.version);
        if version == head.version {
            assert(offsets[0] is Some);
            assert(version_met(sections, offsets, version));
        }
        if version_met(sections, rest, version) {
            let k = choose|k: int|
                0 <= k < rest.len() && (#[trigger] rest[k]) is Some && (gimli_unit_head(
                    sections,
                    rest[k].unwrap(),
                ) matches Some(head) && head.version == version);
            assert(offsets[k + 1] == rest[k]);
            assert(version_met(sections, offsets, version));
        }
        if version_met(sections, offsets, version) && version != head.version {
            let k = choose|k: int|
                0 <= k < offsets.len() && (#[trigger] offsets[k]) is Some && (gimli_unit_head(
                    sections,
                    offsets[k].unwrap(),
                ) matches Some(head) && head.version == version);
            assert(rest[k - 1] == offsets[k]);
            assert(version_met(sections, rest, version));
        }
    }
}

/// What is told of an extraction: whether the binary has debug information, and the versions of all of its
/// units, and of no others.
pub proof fn law_versions(data: Seq<u8>, filter: Seq<Text>, version: u16)
    requires
        gathered(data, filter) is Ok,
    ensures
        ({
            let stats = gathered(data, filter)->Ok_0.stats;
            let sections = debug_sections(data);
            &&& stats.has_debug_info <==> object_section(data, ".debug_info"@) is Some
            &&& stats.dwarf_versions.contains(version) <==> version_met(
                sections,
                gimli_units(sections[".debug_info"@]),
                version,
            )
        }),
{
    let sections = debug_sections(data);
    lemma_versions(
        sections,
        gimli_units(sections[".debug_info"@]),
        filter,
        nothing(object_section(data, ".debug_info"@) is Some),
        version,
    );
}

} // verus!
