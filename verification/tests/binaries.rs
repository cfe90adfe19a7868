use rrmf::binary_unit::BinaryUnit;
use rrmf::build_id::{verify_build_id, BuildIdCheck};
use rrmf::debug_unit::DwarfError;
use rrmf::dwarf_reader::{Section, Sections};
use rrmf::extract::{extract, walk_units, ExtractError};
use rrmf::object_file::{has_debug_info, image_base, load_sections};
use rrmf::walk::Tally;

const DYNAMIC: u16 = 3;
const FIXED: u16 = 2;

fn put(out: &mut Vec<u8>, bytes: &[u8]) {
    out.extend_from_slice(bytes);
}

/// A binary for x86-64 with some segments and sections.
fn binary(kind: u16, segments: &[u64], sections: &[(&str, u32, Vec<u8>)]) -> Vec<u8> {
    let mut names = vec![0u8];
    let mut all: Vec<(u32, u32, Vec<u8>)> = vec![(0, 0, vec![])];
    for (name, ty, bytes) in sections {
        all.push((names.len() as u32, *ty, bytes.clone()));
        put(&mut names, name.as_bytes());
        names.push(0);
    }
    let own = names.len() as u32;
    put(&mut names, b".shstrtab\0");
    all.push((own, 3, names));
    let mut at = 64 + 56 * segments.len() as u64;
    let mut offsets = vec![];
    for (_, _, bytes) in &all {
        at = (at + 7) & !7;
        offsets.push(at);
        at += bytes.len() as u64;
    }
    let headers = (at + 7) & !7;

    let mut out = vec![0x7f, b'E', b'L', b'F', 2, 1, 1, 0, 0, 0, 0, 0, 0, 0, 0, 0];
    put(&mut out, &kind.to_le_bytes());
    put(&mut out, &62u16.to_le_bytes());
    put(&mut out, &1u32.to_le_bytes());
    put(&mut out, &0u64.to_le_bytes());
    put(&mut out, &64u64.to_le_bytes());
    put(&mut out, &headers.to_le_bytes());
    put(&mut out, &0u32.to_le_bytes());
    for n in [64u16, 56, segments.len() as u16, 64, all.len() as u16, all.len() as u16 - 1] {
        put(&mut out, &n.to_le_bytes());
    }
    for addr in segments {
        put(&mut out, &1u32.to_le_bytes());
        put(&mut out, &5u32.to_le_bytes());
        for n in [0, *addr, *addr, 0, 0x1000, 0x1000u64] {
            put(&mut out, &n.to_le_bytes());
        }
    }
    for (k, (_, _, bytes)) in all.iter().enumerate() {
        out.resize(offsets[k] as usize, 0);
        put(&mut out, bytes);
    }
    out.resize(headers as usize, 0);
    for (k, (name, ty, bytes)) in all.iter().enumerate() {
        put(&mut out, &name.to_le_bytes());
        put(&mut out, &ty.to_le_bytes());
        for n in [0, 0, offsets[k], bytes.len() as u64] {
            put(&mut out, &n.to_le_bytes());
        }
        put(&mut out, &[0; 8]);
        put(&mut out, &4u64.to_le_bytes());
        put(&mut out, &0u64.to_le_bytes());
    }
    out
}

fn build_note(id: &[u8]) -> Vec<u8> {
    let mut note = vec![];
    put(&mut note, &4u32.to_le_bytes());
    put(&mut note, &(id.len() as u32).to_le_bytes());
    put(&mut note, &3u32.to_le_bytes());
    put(&mut note, b"GNU\0");
    put(&mut note, id);
    note
}

/// Abbreviations: a unit, a function with a name and code, and a unit with an address table whose
/// function, variable and parameter go by indexes.
fn abbreviations() -> Vec<u8> {
    vec![
        1, 0x11, 1, 0, 0, // a unit
        2, 0x2e, 0, 0x03, 0x08, 0x11, 0x01, 0x12, 0x0b, 0, 0, // a function
        3, 0x11, 1, 0x73, 0x17, 0, 0, // a unit with an address table
        4, 0x2e, 1, 0x03, 0x08, 0x11, 0x1b, 0, 0, // a function by the table
        5, 0x34, 0, 0x03, 0x08, 0x02, 0x18, 0, 0, // a variable
        6, 0x05, 0, 0x03, 0x08, 0x02, 0x22, 0, 0, // a parameter with the index of a list
        7, 0x1d, 0, 0x31, 0x13, 0x55, 0x23, 0, 0, // an inlined copy with the index of a list
        8, 0x11, 1, 0x73, 0x17, 0x8c, 0x01, 0x17, 0x74, 0x17, 0, 0, // a unit with tables of lists
        0,
    ]
}

fn simple_info(names: &[(&str, u64)]) -> Vec<u8> {
    let mut body = vec![4, 0, 0, 0, 0, 0, 8, 1];
    for (name, addr) in names {
        body.push(2);
        put(&mut body, name.as_bytes());
        body.push(0);
        put(&mut body, &addr.to_le_bytes());
        body.push(0x20);
    }
    body.push(0);
    let mut info = (body.len() as u32).to_le_bytes().to_vec();
    put(&mut info, &body);
    info
}

fn demo(kind: u16, id: Option<&[u8]>) -> Vec<u8> {
    let mut sections = vec![
        (".debug_abbrev", 1, abbreviations()),
        (".debug_info", 1, simple_info(&[("demo::run", 0x1100), ("other::run", 0x1200)])),
    ];
    if let Some(id) = id {
        sections.push((".note.gnu.build-id", 7, build_note(id)));
    }
    binary(kind, &[0x2000, 0x400, 0x1000], &sections)
}

#[test]
fn a_binary_is_extracted() {
    let data = demo(DYNAMIC, Some(&[0xde, 0xad, 0x01]));
    let (meta, stats) = extract(&data, vec!["demo".to_string()]).ok().unwrap();
    assert_eq!(meta.build_id.as_deref(), Some("dead01"));
    assert!(meta.pie);
    assert_eq!(meta.image_base, 0x400);
    assert_eq!(meta.crate_filter, vec!["demo".to_string()]);
    assert_eq!(meta.functions.len(), 1);
    assert_eq!(meta.functions[0].name, "demo::run");
    assert_eq!(meta.functions[0].address, Some(0x1100));
    assert_eq!(meta.functions[0].size, Some(0x20));
    assert!(stats.has_debug_info);
    assert_eq!(stats.subprograms_seen, 2);
    assert_eq!(stats.filtered_out, 1);

    let (meta, _) = extract(&demo(FIXED, None), vec![]).ok().unwrap();
    assert!(!meta.pie);
    assert_eq!(meta.build_id, None);
    assert_eq!(meta.functions.len(), 2);
}

#[test]
fn an_extraction_can_be_repeated() {
    let data = demo(DYNAMIC, Some(&[1]));
    let (first, _) = extract(&data, vec![]).ok().unwrap();
    let (second, _) = extract(&data, vec![]).ok().unwrap();
    assert_eq!(format!("{first:?}"), format!("{second:?}"));
    let names: Vec<&str> = first.functions.iter().map(|f| f.name.as_str()).collect();
    assert_eq!(names, vec!["demo::run", "other::run"]);
}

#[test]
fn what_is_no_binary_is_refused() {
    assert!(matches!(extract(b"nothing of the kind", vec![]), Err(ExtractError::NotABinary(_))));
    let faulty = binary(DYNAMIC, &[], &[(".debug_abbrev", 1, vec![0]), (".debug_info", 1, vec![1, 2, 3])]);
    assert!(matches!(extract(&faulty, vec![]), Err(ExtractError::Dwarf(DwarfError::Unreadable(_)))));
}

#[test]
fn a_binary_without_debug_information_gives_nothing() {
    let data = binary(DYNAMIC, &[], &[]);
    let (meta, stats) = extract(&data, vec![]).ok().unwrap();
    assert!(!stats.has_debug_info);
    assert_eq!(meta.image_base, 0);
    assert!(meta.functions.is_empty());
    assert!(!has_debug_info(&data).ok().unwrap());
    assert!(has_debug_info(&demo(DYNAMIC, None)).ok().unwrap());
    assert!(has_debug_info(b"no").is_err());
}

#[test]
fn sections_are_loaded_by_name() {
    let data = binary(DYNAMIC, &[], &[(".debug_str", 1, vec![7, 8]), (".text", 1, vec![9])]);
    let sections = load_sections(&data).ok().unwrap();
    assert_eq!(sections.bytes(".debug_str"), &[7, 8]);
    assert!(sections.bytes(".text").is_empty());
    assert!(sections.bytes(".debug_info").is_empty());
    assert!(load_sections(b"no").is_err());
    assert_eq!(image_base(&vec![]), 0);
    assert_eq!(image_base(&vec![5, 3, 9]), 3);
}

#[test]
fn metadata_belongs_to_the_binary_that_it_was_made_from() {
    let data = demo(DYNAMIC, Some(&[1, 2, 3]));
    let (meta, _) = extract(&data, vec![]).ok().unwrap();
    assert!(matches!(verify_build_id(&data, &meta), Ok(BuildIdCheck::Matches)));
    let rebuilt = demo(DYNAMIC, Some(&[1, 2, 4]));
    assert!(matches!(verify_build_id(&rebuilt, &meta), Ok(BuildIdCheck::Differs(id)) if id == "010204"));
    assert!(matches!(verify_build_id(&demo(DYNAMIC, None), &meta), Ok(BuildIdCheck::Missing)));
    assert!(verify_build_id(b"no", &meta).is_err());
    let (unknown, _) = extract(&demo(DYNAMIC, None), vec![]).ok().unwrap();
    assert!(matches!(verify_build_id(b"no", &unknown), Ok(BuildIdCheck::NotRecorded)));
}

fn sections_of(info: Vec<u8>, addr: Vec<u8>) -> Sections {
    Sections {
        list: vec![
            Section { name: ".debug_abbrev".to_string(), bytes: abbreviations() },
            Section { name: ".debug_addr".to_string(), bytes: addr },
            Section { name: ".debug_info".to_string(), bytes: info },
        ],
    }
}

fn address_table(addresses: &[u64]) -> Vec<u8> {
    let mut table = (4 + 8 * addresses.len() as u32).to_le_bytes().to_vec();
    put(&mut table, &[5, 0, 8, 0]);
    for a in addresses {
        put(&mut table, &a.to_le_bytes());
    }
    table
}

#[test]
fn addresses_can_go_by_a_table() {
    let mut body = vec![5, 0, 1, 8, 0, 0, 0, 0, 3];
    put(&mut body, &8u32.to_le_bytes());
    put(&mut body, b"\x04run\0\x01\x00");
    put(&mut body, b"\x05COUNT\0\x02\xa1\x00");
    body.push(0);
    let mut info = (body.len() as u32).to_le_bytes().to_vec();
    put(&mut info, &body);
    let sections = sections_of(info.clone(), address_table(&[0x5000, 0x6000]));
    let unit = BinaryUnit::open(&sections, 0).ok().unwrap();
    assert_eq!(unit.head().version, 5);
    assert_eq!(unit.head().address_size, 8);
    assert!(!unit.head().wide);
    assert!(BinaryUnit::open(&sections, 3).is_err());
    let t = walk_units(&sections, &vec![], Tally::new(true)).ok().unwrap();
    let variables = t.variables.into_list();
    assert_eq!(variables.len(), 1);
    assert_eq!(variables[0].name, "COUNT");
    assert_eq!(variables[0].address, 0x5000);
    assert_eq!(variables[0].ty_name, "<unknown>");
    let functions = t.functions.into_list();
    assert_eq!(functions.len(), 1);
    assert_eq!(functions[0].name, "run");
    assert_eq!(functions[0].address, Some(0x6000));
    // An index that lies outside the table cannot be looked up.
    let short = sections_of(info, address_table(&[0x5000]));
    assert!(matches!(walk_units(&short, &vec![], Tally::new(true)), Err(DwarfError::Unreadable(_))));
}

/// A unit of the 64-bit format.
fn wide(entries: &[u8]) -> Vec<u8> {
    let mut body = vec![5, 0, 1, 8, 0, 0, 0, 0, 0, 0, 0, 0];
    put(&mut body, entries);
    let mut info = vec![0xff; 4];
    put(&mut info, &(body.len() as u64).to_le_bytes());
    put(&mut info, &body);
    info
}

/// A section with a table of one list: the list, and where the table stands and what it holds.
fn listed(list: &[u8], base: u64, held: u64, width: usize) -> Vec<u8> {
    let mut bytes = list.to_vec();
    bytes.resize(base as usize, 0);
    put(&mut bytes, &held.to_le_bytes()[..width]);
    bytes
}

/// A parameter that lies in `rdi` from an address on.
fn location(from: u64) -> Vec<u8> {
    let mut list = vec![0x08];
    put(&mut list, &from.to_le_bytes());
    put(&mut list, &[0x10, 1, 0x55, 0]);
    list
}

/// A range from an address on.
fn range(from: u64) -> Vec<u8> {
    let mut list = vec![0x07];
    put(&mut list, &from.to_le_bytes());
    put(&mut list, &[0x10, 0]);
    list
}

/// A unit with a function at 0x7000, its parameter `p`, and an inlined copy of it, both with the index of
/// a list.
fn with_lists(is_wide: bool, index: u8, locations: Vec<u8>, ranges: Vec<u8>) -> Sections {
    let width = if is_wide { 8 } else { 4 };
    let mut entries = vec![8];
    for base in [2 * width, 32, 40] {
        put(&mut entries, &(base as u64).to_le_bytes()[..width]);
    }
    let function = (if is_wide { 24 } else { 12 }) + entries.len() as u32;
    put(&mut entries, b"\x04run\0\x00");
    put(&mut entries, b"\x06p\0");
    entries.push(index);
    entries.push(0);
    entries.push(7);
    put(&mut entries, &function.to_le_bytes());
    entries.push(index);
    entries.push(0);
    let (info, mut table) = if is_wide {
        (wide(&entries), vec![0xff; 4])
    } else {
        let mut body = vec![5, 0, 1, 8, 0, 0, 0, 0];
        put(&mut body, &entries);
        let mut info = (body.len() as u32).to_le_bytes().to_vec();
        put(&mut info, &body);
        (info, vec![])
    };
    put(&mut table, &12u64.to_le_bytes()[..width]);
    put(&mut table, &[5, 0, 8, 0]);
    put(&mut table, &0x7000u64.to_le_bytes());
    let mut sections = sections_of(info, table);
    sections.list.push(Section { name: ".debug_loclists".to_string(), bytes: locations });
    sections.list.push(Section { name: ".debug_rnglists".to_string(), bytes: ranges });
    sections
}

/// Where the parameter lies, and where the inlined copy begins.
fn found(sections: &Sections) -> Result<(Option<String>, Vec<u64>), DwarfError> {
    let t = walk_units(sections, &vec![], Tally::new(true))?;
    let functions = t.functions.into_list();
    assert_eq!(functions.len(), 1);
    assert_eq!(functions[0].name, "run");
    Ok((functions[0].params[0].entry_reg.clone(), functions[0].inlined_at.clone()))
}

#[test]
fn lists_can_go_by_an_index() {
    for (is_wide, width) in [(false, 4), (true, 8)] {
        let mut locations = listed(&[], 32, 20, width);
        locations.resize(52, 0);
        put(&mut locations, &location(0x7000));
        let mut ranges = listed(&[], 40, 16, width);
        ranges.resize(56, 0);
        put(&mut ranges, &range(0x7100));
        let sections = with_lists(is_wide, 0, locations.clone(), ranges.clone());
        let head = BinaryUnit::open(&sections, 0).ok().unwrap().head();
        assert_eq!(head.wide, is_wide);
        assert_eq!((head.locations_base, head.ranges_base), (32, 40));
        assert_eq!(found(&sections).ok().unwrap(), (Some("rdi".to_string()), vec![0x7100]));
        // An index beyond the end of the table.
        assert!(matches!(found(&with_lists(is_wide, 100, locations, ranges)), Err(DwarfError::Unreadable(_))));
    }
}

#[test]
fn the_offset_of_a_list_wraps_around() {
    let locations = listed(&location(0x7000), 32, 0u64.wrapping_sub(32), 8);
    let ranges = listed(&[vec![0; 5], range(0x7200)].concat(), 40, 5u64.wrapping_sub(40), 8);
    let sections = with_lists(true, 0, locations, ranges.clone());
    assert_eq!(found(&sections).ok().unwrap(), (Some("rdi".to_string()), vec![0x7200]));
    // Wrapped around to where no list is.
    let beyond = listed(&location(0x7000), 32, u64::MAX, 8);
    assert_eq!(found(&with_lists(true, 0, beyond, ranges)).ok().unwrap(), (None, vec![0x7200]));
}
