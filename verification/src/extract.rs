//! The extraction of metadata from a binary.

use vstd::prelude::*;

use crate::binary_unit::binary_model;
use crate::binary_unit::BinaryUnit;
use crate::build_id::hex;
use crate::build_id::hex_text;
use crate::catalog::lists;
use crate::debug_unit::fault;
use crate::debug_unit::DwarfError;
use crate::debug_unit::Fault;
use crate::dwarf_reader::gimli_unit_head;
use crate::dwarf_reader::gimli_units;
use crate::dwarf_reader::known;
use crate::dwarf_reader::unit_offsets;
use crate::dwarf_reader::Sections;
use crate::meta::Function;
use crate::meta::Metadata;
use crate::meta::MetadataV;
use crate::meta::TypeLayout;
use crate::meta::Variable;
use crate::meta::FORMAT_VERSION;
use crate::object_file::build_id_bytes;
use crate::object_file::debug_sections;
use crate::object_file::has_debug_info;
use crate::object_file::image_base;
use crate::object_file::is_dynamic;
use crate::object_file::load_sections;
use crate::object_file::lowest;
use crate::object_file::object_build_id;
use crate::object_file::object_dynamic;
use crate::object_file::object_parses;
use crate::object_file::object_section;
use crate::object_file::object_segments;
use crate::object_file::segment_addresses;
use crate::text::texts;
use crate::text::Text;
use crate::walk::nothing;
use crate::walk::unit_walked;
use crate::walk::walk_unit;
use crate::walk::Stats;
use crate::walk::StatsV;
use crate::walk::Tally;
use crate::walk::TallyV;

verus! {

// ---- versions ----

/// Numbers in increasing order, with one more unless it is there already.
pub open spec fn with_number(list: Seq<u16>, n: u16) -> Seq<u16>
    decreases list.len(),
{
    if list.len() == 0 || n < list[0] {
        seq![n] + list
    } else if n == list[0] {
        list
    } else {
        seq![list[0]] + with_number(list.drop_first(), n)
    }
}

/// Where a number goes.
proof fn lemma_with_number(list: Seq<u16>, n: u16, k: int)
    requires
        0 <= k <= list.len(),
        forall|i: int| 0 <= i < k ==> list[i] < n,
        k < list.len() ==> n <= list[k],
    ensures
        with_number(list, n) == (if k < list.len() && list[k] == n {
            list
        } else {
            list.insert(k, n)
        }),
    decreases list.len(),
{
    if k == 0 {
        if !(k < list.len() && list[k] == n) {
            assert(with_number(list, n) =~= list.insert(0, n));
        }
    } else {
        assert(list[0] < n);
        let rest = list.drop_first();
        assert(forall|i: int| 0 <= i < k - 1 ==> rest[i] == list[i + 1]);
        lemma_with_number(rest, n, k - 1);
        if k < list.len() && list[k] == n {
            assert(seq![list[0]] + rest =~= list);
        } else {
            assert(with_number(list, n) =~= list.insert(k, n));
        }
    }
}

/// Adds a number to numbers in increasing order, unless it is there already.
fn add_number(list: &mut Vec<u16>, n: u16)
    ensures
        final(list)@ == with_number(old(list)@, n),
{
    let mut k: usize = 0;
    while k < list.len() && list[k] < n
        invariant
            k <= list.len(),
            list@ == old(list)@,
            forall|i: int| 0 <= i < k ==> list@[i] < n,
        decreases list.len() - k,
    {
        k += 1;
    }
    proof {
        lemma_with_number(list@, n, k as int);
    }
    if k == list.len() || list[k] != n {
        list.insert(k, n);
    }
}

/// The versions that were met stand in strictly increasing order, and one more is among them.
pub proof fn law_with_number(list: Seq<u16>, n: u16)
    requires
        forall|i: int, j: int| 0 <= i < j < list.len() ==> list[i] < list[j],
    ensures
        forall|i: int, j: int|
            0 <= i < j < with_number(list, n).len() ==> with_number(list, n)[i] < with_number(list, n)[j],
        forall|m: u16| #[trigger] with_number(list, n).contains(m) <==> list.contains(m) || m == n,
    decreases list.len(),
{
    let r = with_number(list, n);
    if list.len() == 0 || n < list[0] {
        assert(r =~= seq![n] + list);
        assert forall|m: u16| r.contains(m) <==> list.contains(m) || m == n by {
            if list.contains(m) {
                let i = choose|i: int| 0 <= i < list.len() && list[i] == m;
                assert(r[i + 1] == m);
            }
            if m == n {
                assert(r[0] == m);
            }
            if r.contains(m) && m != n {
                let i = choose|i: int| 0 <= i < r.len() && r[i] == m;
                assert(list[i - 1] == m);
            }
        }
    } else if n == list[0] {
    } else {
        let rest = list.drop_first();
        assert forall|i: int, j: int| 0 <= i < j < rest.len() implies rest[i] < rest[j] by {
            assert(list[i + 1] < list[j + 1]);
        }
        law_with_number(rest, n);
        let tail = with_number(rest, n);
        assert(r =~= seq![list[0]] + tail);
        assert forall|m: u16| tail.contains(m) implies list[0] < m by {
            if m != n {
                assert(rest.contains(m));
                let i = choose|i: int| 0 <= i < rest.len() && rest[i] == m;
                assert(list[i + 1] == m);
            }
        }
        assert forall|i: int, j: int| 0 <= i < j < r.len() implies r[i] < r[j] by {
            assert(r[j] == tail[j - 1]);
            assert(tail.contains(tail[j - 1]));
            if i > 0 {
                assert(r[i] == tail[i - 1]);
            }
        }
        assert forall|m: u16| r.contains(m) <==> list.contains(m) || m == n by {
            if r.contains(m) && m != list[0] {
                let i = choose|i: int| 0 <= i < r.len() && r[i] == m;
                assert(tail[i - 1] == m);
                assert(tail.contains(m));
                if rest.contains(m) {
                    let k = choose|k: int| 0 <= k < rest.len() && rest[k] == m;
                    assert(list[k + 1] == m);
                }
            }
            if list.contains(m) || m == n {
                if list.contains(m) && m != list[0] {
                    let k = choose|k: int| 0 <= k < list.len() && list[k] == m;
                    assert(rest[k - 1] == m);
                    assert(rest.contains(m));
                }
                if m == list[0] {
                    assert(r[0] == m);
                } else {
                    assert(rest.contains(m) || m == n);
                    assert(with_number(rest, n).contains(m));
                    let i = choose|i: int| 0 <= i < tail.len() && tail[i] == m;
                    assert(r[i + 1] == m);
                }
            }
        }
    }
}

// ---- all units ----

/// What has been gathered once a unit of a version was met.
pub open spec fn with_version(t: TallyV, version: u16) -> TallyV {
    TallyV {
        stats: StatsV { dwarf_versions: with_number(t.stats.dwarf_versions, version), ..t.stats },
        ..t
    }
}

/// What has been gathered once the units at some offsets were met, one after the other.
pub open spec fn units_walked(
    sections: Map<Text, Seq<u8>>,
    offsets: Seq<Option<usize>>,
    filter: Seq<Text>,
    t: TallyV,
) -> Result<TallyV, Fault>
    decreases offsets.len(),
{
    if offsets.len() == 0 {
        Ok(t)
    } else {
        match offsets[0] {
            None => Err(Fault::Unreadable),
            Some(unit) => match gimli_unit_head(sections, unit) {
                None => Err(Fault::Unreadable),
                Some(head) => match unit_walked(
                    binary_model(sections, unit, head),
                    head.root,
                    filter,
                    with_version(t, head.version),
                ) {
                    Err(f) => Err(f),
                    Ok(t1) => units_walked(sections, offsets.drop_first(), filter, t1),
                },
            },
        }
    }
}

/// Meets every unit of the debug information in some sections.
pub fn walk_units(sections: &Sections, filter: &Vec<String>, t: Tally) -> (r: Result<Tally, DwarfError>)
    requires
        t.wf(),
    ensures
        match r {
            Ok(t1) => t1.wf() && units_walked(
                sections@,
                gimli_units(sections@[".debug_info"@]),
                texts(filter@),
                t@,
            ) == Ok::<TallyV, Fault>(t1@),
            Err(e) => units_walked(sections@, gimli_units(sections@[".debug_info"@]), texts(filter@), t@) == Err::<
                TallyV,
                Fault,
            >(fault(e)),
        },
{
    let offsets: Vec<Result<usize, gimli::Error>> = unit_offsets(sections.bytes(".debug_info"));
    let ghost all = known(offsets@);
    let ghost whole = units_walked(sections@, all, texts(filter@), t@);
    let mut now: Tally = t;
    let mut i: usize = 0;
    assert(all.skip(0) =~= all);
    while i < offsets.len()
        invariant
            i <= offsets.len(),
            all == known(offsets@),
            all == gimli_units(sections@[".debug_info"@]),
            all.len() == offsets.len(),
            now.wf(),
            whole == units_walked(sections@, all, texts(filter@), t@),
            whole == units_walked(sections@, all.skip(i as int), texts(filter@), now@),
        decreases offsets.len() - i,
    {
        assert(all.skip(i as int)[0] == offsets@[i as int].ok());
        assert(all.skip(i as int).drop_first() =~= all.skip(i + 1));
        let offset: usize = match &offsets[i] {
            Ok(offset) => *offset,
            Err(e) => {
                return Err(DwarfError::Unreadable(*e));
            },
        };
        let unit = BinaryUnit::open(sections, offset)?;
        let head = unit.head();
        let ghost before = now@;
        add_number(&mut now.stats.dwarf_versions, head.version);
        assert(now@ =~= with_version(before, head.version));
        now = walk_unit(&unit, head.root, filter, now)?;
        i += 1;
    }
    assert(all.skip(i as int) =~= Seq::<Option<usize>>::empty());
    Ok(now)
}

// ---- metadata ----

/// Why no metadata could be extracted.
pub enum ExtractError {
    /// The file is not a binary that the object crate can read.
    NotABinary(object::Error),
    /// Its debug information was refused.
    Dwarf(DwarfError),
}

/// Whether `meta` is the metadata of a binary of which all this is known.
pub open spec fn assembled(
    meta: MetadataV,
    t: TallyV,
    filter: Seq<Text>,
    id: Option<Seq<u8>>,
    pie: bool,
    segments: Seq<u64>,
) -> bool {
    &&& meta.format_version == FORMAT_VERSION
    &&& meta.crate_filter == filter
    &&& meta.build_id == (match id {
        Some(bytes) => Some(hex_text(bytes)),
        None => None,
    })
    &&& meta.pie == pie
    &&& meta.image_base == lowest(segments)
    &&& lists::<Function>(meta.functions, t.functions)
    &&& lists::<TypeLayout>(meta.types, t.types)
    &&& lists::<Variable>(meta.variables, t.variables)
}

/// Puts together the metadata of a binary, with what was counted on the way.
pub fn assemble(t: Tally, crate_filter: Vec<String>, id: Option<Vec<u8>>, pie: bool, segments: &Vec<u64>) -> (r: (
    Metadata,
    Stats,
))
    requires
        t.wf(),
    ensures
        assembled(
            r.0@,
            t@,
            texts(crate_filter@),
            match id {
                Some(bytes) => Some(bytes@),
                None => None,
            },
            pie,
            segments@,
        ),
        r.1@ == t@.stats,
{
    let build_id: Option<String> = match id {
        Some(bytes) => Some(hex(bytes.as_slice())),
        None => None,
    };
    let Tally { functions, types, variables, stats } = t;
    let meta = Metadata {
        format_version: FORMAT_VERSION,
        crate_filter,
        build_id,
        pie,
        image_base: image_base(segments),
        functions: functions.into_list(),
        types: types.into_list(),
        variables: variables.into_list(),
    };
    (meta, stats)
}

/// What is gathered from the debug information of a binary.
pub open spec fn gathered(data: Seq<u8>, filter: Seq<Text>) -> Result<TallyV, Fault> {
    let sections = debug_sections(data);
    units_walked(
        sections,
        gimli_units(sections[".debug_info"@]),
        filter,
        nothing(object_section(data, ".debug_info"@) is Some),
    )
}

/// Extracts the metadata of a binary: of the crates in the filter, or of all where it is empty.
pub fn extract(data: &[u8], crate_filter: Vec<String>) -> (r: Result<(Metadata, Stats), ExtractError>)
    ensures
        match r {
            Ok((meta, stats)) => {
                &&& object_parses(data@)
                &&& gathered(data@, texts(crate_filter@)) matches Ok(t)
                &&& assembled(
                    meta@,
                    t,
                    texts(crate_filter@),
                    object_build_id(data@),
                    object_dynamic(data@),
                    object_segments(data@),
                )
                &&& stats@ == t.stats
            },
            Err(ExtractError::NotABinary(_)) => !object_parses(data@),
            Err(ExtractError::Dwarf(e)) => object_parses(data@) && gathered(data@, texts(crate_filter@)) == Err::<
                TallyV,
                Fault,
            >(fault(e)),
        },
{
    let pie: bool = match is_dynamic(data) {
        Ok(pie) => pie,
        Err(e) => {
            return Err(ExtractError::NotABinary(e));
        },
    };
    let segments: Vec<u64> = match segment_addresses(data) {
        Ok(segments) => segments,
        Err(e) => {
            return Err(ExtractError::NotABinary(e));
        },
    };
    let id: Option<Vec<u8>> = match build_id_bytes(data) {
        Ok(id) => id,
        Err(e) => {
            return Err(ExtractError::NotABinary(e));
        },
    };
    let has_info: bool = match has_debug_info(data) {
        Ok(has) => has,
        Err(e) => {
            return Err(ExtractError::NotABinary(e));
        },
    };
    let sections: Sections = match load_sections(data) {
        Ok(sections) => sections,
        Err(e) => {
            return Err(ExtractError::NotABinary(e));
        },
    };
    match walk_units(&sections, &crate_filter, Tally::new(has_info)) {
        Ok(t) => Ok(assemble(t, crate_filter, id, pie, &segments)),
        Err(e) => Err(ExtractError::Dwarf(e)),
    }
}

} // verus!
