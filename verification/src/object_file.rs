//! Binaries as the object crate reads them: plain values in, plain values out.

use object::{Object, ObjectKind, ObjectSection, ObjectSegment};
use vstd::prelude::*;

use crate::dwarf_reader::section_bytes;
use crate::dwarf_reader::Section;
use crate::dwarf_reader::Sections;
use crate::text::texts;
use crate::text::Text;

verus! {

/// The object crate's error type: why a file could not be read as a binary.
#[verifier::external_type_specification]
#[verifier::external_body]
pub struct ExObjectError(object::Error);

/// Whether the object crate can read a file as a binary.
pub uninterp spec fn object_parses(data: Seq<u8>) -> bool;

/// Whether the object crate takes a binary to be one that is loaded at any address.
pub uninterp spec fn object_dynamic(data: Seq<u8>) -> bool;

/// The addresses of the segments that the object crate finds in a binary.
pub uninterp spec fn object_segments(data: Seq<u8>) -> Seq<u64>;

/// The build ID that the object crate finds in a binary.
pub uninterp spec fn object_build_id(data: Seq<u8>) -> Option<Seq<u8>>;

/// The contents of a section as the object crate finds them in a binary: nothing where there is no
/// section of the name, and no bytes where its contents cannot be had.
pub uninterp spec fn object_section(data: Seq<u8>, name: Text) -> Option<Option<Seq<u8>>>;

/// The object crate's `File::kind`: whether the binary is a dynamic one.
#[verifier::external_body]
pub(crate) fn is_dynamic(data: &[u8]) -> (r: Result<bool, object::Error>)
    ensures
        r is Ok == object_parses(data@),
        r matches Ok(dynamic) ==> dynamic == object_dynamic(data@),
{
    Ok(object::File::parse(data)?.kind() == ObjectKind::Dynamic)
}

/// The object crate's `File::segments`: the address of each segment, in order.
#[verifier::external_body]
pub(crate) fn segment_addresses(data: &[u8]) -> (r: Result<Vec<u64>, object::Error>)
    ensures
        r is Ok == object_parses(data@),
        r matches Ok(list) ==> list@ == object_segments(data@),
{
    Ok(object::File::parse(data)?.segments().map(|s| s.address()).collect())
}

/// The object crate's `File::build_id`: the bytes of the build ID. None where the binary has none or
/// its notes cannot be read.
#[verifier::external_body]
pub(crate) fn build_id_bytes(data: &[u8]) -> (r: Result<Option<Vec<u8>>, object::Error>)
    ensures
        r is Ok == object_parses(data@),
        r matches Ok(id) ==> object_build_id(data@) == (match id {
            Some(bytes) => Some(bytes@),
            None => None,
        }),
{
    Ok(object::File::parse(data)?.build_id().ok().flatten().map(|id| id.to_vec()))
}

/// The object crate's `File::section_by_name` and `uncompressed_data`: the contents of the section
/// called `name`, uncompressed.
#[verifier::external_body]
pub(crate) fn section_data(data: &[u8], name: &str) -> (r: Result<Option<Option<Vec<u8>>>, object::Error>)
    ensures
        r is Ok == object_parses(data@),
        r matches Ok(found) ==> object_section(data@, name@) == (match found {
            Some(Some(bytes)) => Some(Some(bytes@)),
            Some(None) => Some(None),
            None => None,
        }),
{
    let file = object::File::parse(data)?;
    let section = file.section_by_name(name);
    Ok(section.map(|s| s.uncompressed_data().ok().map(|d| d.into_owned())))
}

// ---- image base ----

/// The lowest of some addresses; zero where there are none.
pub open spec fn lowest(addresses: Seq<u64>) -> u64
    decreases addresses.len(),
{
    if addresses.len() == 0 {
        0
    } else if addresses.len() == 1 {
        addresses[0]
    } else {
        let before = lowest(addresses.drop_last());
        if addresses.last() < before {
            addresses.last()
        } else {
            before
        }
    }
}

/// The lowest of some addresses; zero where there are none.
pub fn image_base(addresses: &Vec<u64>) -> (r: u64)
    ensures
        r == lowest(addresses@),
{
    if addresses.len() == 0 {
        return 0;
    }
    let mut base: u64 = addresses[0];
    let mut i: usize = 1;
    assert(addresses@.take(1)[0] == addresses@[0]);
    while i < addresses.len()
        invariant
            1 <= i <= addresses.len(),
            base == lowest(addresses@.take(i as int)),
        decreases addresses.len() - i,
    {
        assert(addresses@.take(i + 1).drop_last() =~= addresses@.take(i as int));
        if addresses[i] < base {
            base = addresses[i];
        }
        i += 1;
    }
    assert(addresses@.take(i as int) =~= addresses@);
    base
}

/// The lowest of some addresses is one of them, and none is below it.
pub proof fn law_lowest(addresses: Seq<u64>)
    requires
        addresses.len() > 0,
    ensures
        addresses.contains(lowest(addresses)),
        forall|i: int| 0 <= i < addresses.len() ==> lowest(addresses) <= #[trigger] addresses[i],
    decreases addresses.len(),
{
    if addresses.len() == 1 {
        assert(addresses[0] == lowest(addresses));
    } else {
        let before = addresses.drop_last();
        law_lowest(before);
        let k = choose|k: int| 0 <= k < before.len() && before[k] == lowest(before);
        assert(addresses[k] == before[k]);
        assert(addresses[addresses.len() - 1] == addresses.last());
        assert forall|i: int| 0 <= i < addresses.len() implies lowest(addresses) <= #[trigger] addresses[i] by {
            if i < addresses.len() - 1 {
                assert(before[i] == addresses[i]);
            }
        }
    }
}

// ---- debug sections ----

/// The names of the sections that hold debug information.
pub open spec fn debug_section_names() -> Seq<Text> {
    seq![
        ".debug_abbrev"@,
        ".debug_addr"@,
        ".debug_aranges"@,
        ".debug_info"@,
        ".debug_line"@,
        ".debug_line_str"@,
        ".debug_loc"@,
        ".debug_loclists"@,
        ".debug_macinfo"@,
        ".debug_macro"@,
        ".debug_names"@,
        ".debug_ranges"@,
        ".debug_rnglists"@,
        ".debug_str"@,
        ".debug_str_offsets"@,
        ".debug_types"@,
    ]
}

/// The contents of a section; empty where it is missing or cannot be had.
pub open spec fn section_contents(data: Seq<u8>, name: Text) -> Seq<u8> {
    match object_section(data, name) {
        Some(Some(bytes)) => bytes,
        _ => Seq::empty(),
    }
}

/// The debug sections of a binary; any other is empty.
pub open spec fn debug_sections(data: Seq<u8>) -> Map<Text, Seq<u8>> {
    Map::total(
        |name: Text|
            if debug_section_names().contains(name) {
                section_contents(data, name)
            } else {
                Seq::empty()
            },
    )
}

/// The names of the sections that hold debug information.
fn names_to_load() -> (r: Vec<String>)
    ensures
        texts(r@) == debug_section_names(),
{
    let mut r: Vec<String> = Vec::new();
    r.push(".debug_abbrev".to_string());
    r.push(".debug_addr".to_string());
    r.push(".debug_aranges".to_string());
    r.push(".debug_info".to_string());
    r.push(".debug_line".to_string());
    r.push(".debug_line_str".to_string());
    r.push(".debug_loc".to_string());
    r.push(".debug_loclists".to_string());
    r.push(".debug_macinfo".to_string());
    r.push(".debug_macro".to_string());
    r.push(".debug_names".to_string());
    r.push(".debug_ranges".to_string());
    r.push(".debug_rnglists".to_string());
    r.push(".debug_str".to_string());
    r.push(".debug_str_offsets".to_string());
    r.push(".debug_types".to_string());
    assert(texts(r@) =~= debug_section_names());
    r
}

/// Whether every section of a list holds what the binary holds under its name.
spec fn holds_contents(list: Seq<Section>, data: Seq<u8>) -> bool {
    forall|k: int|
        0 <= k < list.len() ==> (#[trigger] list[k]).bytes@ == section_contents(data, list[k].name@)
}

/// What a list of sections holds under a name.
proof fn lemma_section_bytes(list: Seq<Section>, data: Seq<u8>, name: Text, i: int)
    requires
        holds_contents(list, data),
        0 <= i <= list.len(),
    ensures
        section_bytes(list, name, i) == (if exists|k: int| i <= k < list.len() && (#[trigger] list[k]).name@ == name {
            section_contents(data, name)
        } else {
            Seq::empty()
        }),
    decreases list.len() - i,
{
    if i < list.len() {
        if list[i].name@ != name {
            lemma_section_bytes(list, data, name, i + 1);
        }
    }
}

/// Loads the debug sections of a binary.
pub fn load_sections(data: &[u8]) -> (r: Result<Sections, object::Error>)
    ensures
        r is Ok == object_parses(data@),
        r matches Ok(s) ==> s@ == debug_sections(data@),
{
    let names: Vec<String> = names_to_load();
    assert(names@.len() == texts(names@).len() && debug_section_names().len() > 0);
    let mut list: Vec<Section> = Vec::new();
    let mut i: usize = 0;
    while i < names.len()
        invariant
            i <= names.len(),
            names.len() > 0,
            list.len() == i,
            i > 0 ==> object_parses(data@),
            holds_contents(list@, data@),
            forall|k: int| 0 <= k < i ==> (#[trigger] list@[k]).name@ == names@[k]@,
        decreases names.len() - i,
    {
        let bytes: Vec<u8> = match section_data(data, names[i].as_str()) {
            Ok(Some(Some(bytes))) => bytes,
            Ok(_) => {
                let none: Vec<u8> = Vec::new();
                assert(none@ =~= Seq::<u8>::empty());
                none
            },
            Err(e) => {
                return Err(e);
            },
        };
        list.push(Section { name: names[i].clone(), bytes });
        i += 1;
    }
    let s = Sections { list };
    proof {
        let loaded = debug_sections(data@);
        assert forall|name: Text| #[trigger] s@[name] == loaded[name] by {
            lemma_section_bytes(s.list@, data@, name, 0);
            if debug_section_names().contains(name) {
                let k = choose|k: int| 0 <= k < debug_section_names().len() && debug_section_names()[k] == name;
                assert(texts(names@)[k] == names@[k]@);
                assert(s.list@[k].name@ == name);
            } else {
                assert forall|k: int| 0 <= k < s.list@.len() implies (#[trigger] s.list@[k]).name@ != name by {
                    assert(texts(names@)[k] == names@[k]@);
                    assert(debug_section_names()[k] == names@[k]@);
                }
            }
        }
        assert(s@ =~= loaded);
    }
    Ok(s)
}

/// Whether a binary has debug information.
pub fn has_debug_info(data: &[u8]) -> (r: Result<bool, object::Error>)
    ensures
        r is Ok == object_parses(data@),
        r matches Ok(has) ==> has == (object_section(data@, ".debug_info"@) is Some),
{
    match section_data(data, ".debug_info") {
        Ok(found) => Ok(found.is_some()),
        Err(e) => Err(e),
    }
}

} // verus!
