use rrmf::debug_unit::DwarfError;
use rrmf::dwarf_reader::{Section, Sections};
use rrmf::extract::{assemble, walk_units};
use rrmf::meta::{Metadata, ScalarKind};
use rrmf::walk::{Stats, Tally};

/// Debug information that is put together byte by byte.
struct Info {
    bytes: Vec<u8>,
}

impl Info {
    /// A unit of version 4, for addresses of eight bytes, with its root entry begun.
    fn new() -> Info {
        let mut info = Info { bytes: Vec::new() };
        info.bytes.extend_from_slice(&[0, 0, 0, 0]);
        info.bytes.extend_from_slice(&4u16.to_le_bytes());
        info.bytes.extend_from_slice(&0u32.to_le_bytes());
        info.bytes.push(8);
        info
    }

    fn here(&self) -> u32 {
        self.bytes.len() as u32
    }

    fn byte(&mut self, b: u8) -> &mut Info {
        self.bytes.push(b);
        self
    }

    fn text(&mut self, s: &str) -> &mut Info {
        self.bytes.extend_from_slice(s.as_bytes());
        self.bytes.push(0);
        self
    }

    fn word(&mut self, n: u32) -> &mut Info {
        self.bytes.extend_from_slice(&n.to_le_bytes());
        self
    }

    fn address(&mut self, n: u64) -> &mut Info {
        self.bytes.extend_from_slice(&n.to_le_bytes());
        self
    }

    fn expr(&mut self, ops: &[u8]) -> &mut Info {
        self.bytes.push(ops.len() as u8);
        self.bytes.extend_from_slice(ops);
        self
    }

    /// The address operation for a fixed address.
    fn fixed(&mut self, n: u64) -> &mut Info {
        let mut ops = vec![0x03];
        ops.extend_from_slice(&n.to_le_bytes());
        self.expr(&ops)
    }

    fn finish(mut self) -> Vec<u8> {
        let len = self.bytes.len() as u32 - 4;
        self.bytes[0..4].copy_from_slice(&len.to_le_bytes());
        self.bytes
    }
}

const UNIT: u8 = 1;
const NAMESPACE: u8 = 2;
const FUNCTION: u8 = 3;
const PARAM: u8 = 4;
const BASE: u8 = 5;
const STRUCT: u8 = 6;
const MEMBER: u8 = 7;
const VARIABLE: u8 = 8;
const POINTER: u8 = 9;
const INLINED: u8 = 10;
const LISTED_PARAM: u8 = 11;
const RANGED: u8 = 12;
const DECLARED: u8 = 13;
const TWO_LOWS: u8 = 14;
const REFERRING: u8 = 15;
const LOWS_AND_SIZE: u8 = 16;
const TWO_RANGES: u8 = 17;
const END: u8 = 0;

fn abbreviations() -> Vec<u8> {
    let table: Vec<(u8, u8, u8, Vec<(u8, u8)>)> = vec![
        (UNIT, 0x11, 1, vec![]),
        (NAMESPACE, 0x39, 1, vec![(0x03, 0x08)]),
        (FUNCTION, 0x2e, 1, vec![(0x6e, 0x08), (0x11, 0x01), (0x12, 0x06)]),
        (PARAM, 0x05, 0, vec![(0x03, 0x08), (0x49, 0x13), (0x02, 0x18)]),
        (BASE, 0x24, 0, vec![(0x03, 0x08), (0x0b, 0x0b), (0x3e, 0x0b)]),
        (STRUCT, 0x13, 1, vec![(0x03, 0x08), (0x0b, 0x0b), (0x32, 0x0b)]),
        (MEMBER, 0x0d, 0, vec![(0x03, 0x08), (0x38, 0x0b), (0x49, 0x13)]),
        (VARIABLE, 0x34, 0, vec![(0x03, 0x08), (0x6e, 0x08), (0x49, 0x13), (0x02, 0x18)]),
        (POINTER, 0x0f, 0, vec![]),
        (INLINED, 0x1d, 0, vec![(0x31, 0x13), (0x11, 0x01), (0x12, 0x06)]),
        (LISTED_PARAM, 0x05, 0, vec![(0x03, 0x08), (0x02, 0x17)]),
        (RANGED, 0x1d, 0, vec![(0x31, 0x13), (0x55, 0x17)]),
        (DECLARED, 0x2e, 0, vec![(0x03, 0x08)]),
        (TWO_LOWS, 0x1d, 0, vec![(0x31, 0x13), (0x11, 0x01), (0x11, 0x01)]),
        (REFERRING, 0x2e, 0, vec![(0x47, 0x13), (0x11, 0x01)]),
        (LOWS_AND_SIZE, 0x1d, 0, vec![(0x31, 0x13), (0x11, 0x01), (0x11, 0x01), (0x12, 0x06)]),
        (TWO_RANGES, 0x1d, 0, vec![(0x31, 0x13), (0x55, 0x17), (0x55, 0x17)]),
    ];
    let mut bytes = Vec::new();
    for (code, tag, children, attrs) in table {
        bytes.extend_from_slice(&[code, tag, children]);
        for (at, form) in attrs {
            bytes.extend_from_slice(&[at, form]);
        }
        bytes.extend_from_slice(&[0, 0]);
    }
    bytes.push(0);
    bytes
}

fn sections(info: Vec<u8>, loc: Vec<u8>, ranges: Vec<u8>) -> Sections {
    Sections {
        list: vec![
            Section { name: ".debug_abbrev".to_string(), bytes: abbreviations() },
            Section { name: ".debug_info".to_string(), bytes: info },
            Section { name: ".debug_loc".to_string(), bytes: loc },
            Section { name: ".debug_ranges".to_string(), bytes: ranges },
        ],
    }
}

fn read(s: &Sections, filter: &[&str]) -> Result<(Metadata, Stats), DwarfError> {
    let filter: Vec<String> = filter.iter().map(|f| f.to_string()).collect();
    let t = walk_units(s, &filter, Tally::new(true))?;
    Ok(assemble(t, filter, None, true, &vec![0x1000, 0x400, 0x800]))
}

#[test]
fn a_whole_unit_is_read() {
    let mut i = Info::new();
    i.byte(UNIT);
    let int = i.here();
    i.byte(BASE).text("i32").byte(4).byte(5);
    let pointer = i.here();
    i.byte(POINTER);
    i.byte(NAMESPACE).text("demo");
    i.byte(STRUCT).text("Point").byte(16).byte(1);
    i.byte(MEMBER).text("next").byte(8).word(pointer);
    i.byte(MEMBER).text("x").byte(0).word(int);
    i.byte(END);
    i.byte(VARIABLE).text("COUNT").text("_demo_count").word(int).fixed(0x5000);
    let f = i.here();
    i.byte(FUNCTION).text("_ZN4demo3run17h0123456789abcdefE").address(0x2000).word(0x30);
    i.byte(PARAM).text("a").word(int).expr(&[0x55]);
    i.byte(PARAM).text("b").word(pointer).expr(&[0x77, 0x10]);
    i.byte(END);
    i.byte(INLINED).word(f).address(0x2104).word(8);
    i.byte(END);
    i.byte(END);
    let s = sections(i.finish(), vec![], vec![]);
    let (meta, stats) = read(&s, &[]).ok().unwrap();

    assert_eq!(meta.format_version, 1);
    assert_eq!(meta.image_base, 0x400);
    assert!(meta.pie);
    assert_eq!(meta.functions.len(), 1);
    let run = &meta.functions[0];
    assert_eq!(run.name, "demo::run");
    assert_eq!(run.linkage_name.as_deref(), Some("_ZN4demo3run17h0123456789abcdefE"));
    assert_eq!(run.address, Some(0x2000));
    assert_eq!(run.size, Some(0x30));
    assert_eq!(run.inlined_at, vec![0x2104]);
    assert_eq!(run.params.len(), 2);
    assert_eq!(run.params[0].name, "a");
    assert_eq!(run.params[0].ty_name, "i32");
    assert_eq!(run.params[0].size, Some(4));
    assert_eq!(run.params[0].entry_reg.as_deref(), Some("rdi"));
    assert_eq!(run.params[1].ty_name, "<anon>");
    assert_eq!(run.params[1].size, None);
    assert_eq!(run.params[1].entry_reg.as_deref(), Some("[rsp+16]"));

    assert_eq!(meta.types.len(), 1);
    let point = &meta.types[0];
    assert_eq!(point.name, "demo::Point");
    assert_eq!(point.size, 16);
    assert_eq!(point.align, None);
    assert_eq!(point.fields.len(), 2);
    assert_eq!(point.fields[0].name, "x");
    assert_eq!(point.fields[0].offset, 0);
    assert_eq!(point.fields[0].size, 4);
    assert_eq!(point.fields[0].kind, ScalarKind::Signed);
    assert_eq!(point.fields[1].name, "next");
    assert_eq!(point.fields[1].offset, 8);
    assert_eq!(point.fields[1].size, 8);
    assert_eq!(point.fields[1].kind, ScalarKind::Pointer);

    assert_eq!(meta.variables.len(), 1);
    let count = &meta.variables[0];
    assert_eq!(count.name, "demo::COUNT");
    assert_eq!(count.linkage_name.as_deref(), Some("_demo_count"));
    assert_eq!(count.address, 0x5000);
    assert_eq!(count.size, Some(4));
    assert_eq!(count.ty_name, "i32");

    assert_eq!(stats.dwarf_versions, vec![4]);
    assert_eq!(stats.subprograms_seen, 1);
    assert_eq!(stats.variables_seen, 1);
    assert_eq!(stats.filtered_out, 0);
}

#[test]
fn the_filter_keeps_the_crates_that_are_asked_for() {
    let mut i = Info::new();
    i.byte(UNIT);
    i.byte(FUNCTION).text("_ZN4demo3run17h0123456789abcdefE").address(0x2000).word(0x30).byte(END);
    i.byte(FUNCTION).text("_ZN5other4stop17h0123456789abcdefE").address(0x3000).word(0x30).byte(END);
    i.byte(DECLARED).text("other::nothing");
    i.byte(END);
    let s = sections(i.finish(), vec![], vec![]);
    let (meta, stats) = read(&s, &["demo"]).ok().unwrap();
    assert_eq!(meta.crate_filter, vec!["demo".to_string()]);
    assert_eq!(meta.functions.len(), 1);
    assert_eq!(meta.functions[0].name, "demo::run");
    assert_eq!(stats.subprograms_seen, 3);
    assert_eq!(stats.filtered_out, 2);
    assert_eq!(stats.filtered_samples, vec!["other::stop".to_string()]);
}

#[test]
fn a_list_of_locations_gives_the_place_on_entry() {
    // Offsets are from the unit's base address, which is zero here.
    let mut loc = Vec::new();
    for (begin, end, op) in [(0x2010u64, 0x2020u64, 0x53u8), (0x2000, 0x2010, 0x54)] {
        loc.extend_from_slice(&begin.to_le_bytes());
        loc.extend_from_slice(&end.to_le_bytes());
        loc.extend_from_slice(&1u16.to_le_bytes());
        loc.push(op);
    }
    loc.extend_from_slice(&[0; 16]);
    let mut i = Info::new();
    i.byte(UNIT);
    i.byte(FUNCTION).text("covered").address(0x2000).word(0x30);
    i.byte(LISTED_PARAM).text("p").word(0);
    i.byte(END);
    i.byte(FUNCTION).text("uncovered").address(0x1000).word(0x30);
    i.byte(LISTED_PARAM).text("p").word(0);
    i.byte(END);
    i.byte(END);
    let s = sections(i.finish(), loc, vec![]);
    let (meta, _) = read(&s, &[]).ok().unwrap();
    assert_eq!(meta.functions[0].name, "covered");
    assert_eq!(meta.functions[0].params[0].entry_reg.as_deref(), Some("rsi"));
    assert_eq!(meta.functions[0].params[0].ty_name, "<unknown>");
    assert_eq!(meta.functions[1].name, "uncovered");
    assert_eq!(meta.functions[1].params[0].entry_reg.as_deref(), Some("rsi"));
}

#[test]
fn an_inlined_copy_may_have_ranges() {
    let mut ranges = Vec::new();
    for n in [0x4000u64, 0x4010, 0x4020, 0x4030, 0, 0] {
        ranges.extend_from_slice(&n.to_le_bytes());
    }
    let mut i = Info::new();
    i.byte(UNIT);
    let f = i.here();
    i.byte(DECLARED).text("inner");
    i.byte(RANGED).word(f).word(0);
    i.byte(END);
    let s = sections(i.finish(), vec![], ranges);
    let (meta, _) = read(&s, &[]).ok().unwrap();
    assert_eq!(meta.functions.len(), 1);
    assert_eq!(meta.functions[0].name, "inner");
    assert_eq!(meta.functions[0].address, None);
    assert_eq!(meta.functions[0].inlined_at, vec![0x4000]);
}

#[test]
fn an_inlined_copy_may_have_attributes_twice() {
    let mut ranges = Vec::new();
    for n in [0x4000u64, 0x4010, 0, 0, 0x5000, 0x5010, 0, 0] {
        ranges.extend_from_slice(&n.to_le_bytes());
    }
    let mut i = Info::new();
    i.byte(UNIT);
    let f = i.here();
    i.byte(DECLARED).text("inner");
    // Without a size or an end there is no range.
    i.byte(TWO_LOWS).word(f).address(0).address(u64::MAX);
    // The last lowest address counts, also where the range that begins there overflows.
    i.byte(LOWS_AND_SIZE).word(f).address(0).address(0x9000).word(0x10);
    i.byte(LOWS_AND_SIZE).word(f).address(0).address(u64::MAX - 3).word(0x10);
    // The first list of ranges counts.
    i.byte(TWO_RANGES).word(f).word(32).word(0);
    i.byte(END);
    let s = sections(i.finish(), vec![], ranges);
    let (meta, _) = read(&s, &[]).ok().unwrap();
    assert_eq!(meta.functions.len(), 1);
    assert_eq!(meta.functions[0].inlined_at, vec![0x9000, u64::MAX - 3, 0x5000]);
}

#[test]
fn a_function_takes_its_name_from_what_it_refers_to() {
    let mut i = Info::new();
    i.byte(UNIT);
    let declared = i.here();
    i.byte(DECLARED).text("named");
    i.byte(REFERRING).word(declared).address(0x7000);
    i.byte(END);
    let s = sections(i.finish(), vec![], vec![]);
    let (meta, stats) = read(&s, &[]).ok().unwrap();
    assert_eq!(stats.subprograms_seen, 2);
    assert_eq!(meta.functions.len(), 1);
    assert_eq!(meta.functions[0].name, "named");
    assert_eq!(meta.functions[0].address, Some(0x7000));
    assert_eq!(meta.functions[0].size, None);
}

#[test]
fn faulty_debug_information_is_refused() {
    // A reference that leads to the end of a list of children.
    let mut i = Info::new();
    i.byte(UNIT);
    let end = i.here() + 1 + 4 + 8;
    i.byte(REFERRING).word(end).address(0x7000);
    i.byte(END);
    let s = sections(i.finish(), vec![], vec![]);
    match read(&s, &[]) {
        Err(DwarfError::NoEntry(off)) => assert_eq!(off, end as usize),
        _ => panic!("expected a missing entry"),
    }

    // An abbreviation that does not exist.
    let mut i = Info::new();
    i.byte(UNIT).byte(99).byte(END);
    let s = sections(i.finish(), vec![], vec![]);
    assert!(matches!(read(&s, &[]), Err(DwarfError::Unreadable(_))));

    // A header that is cut short.
    let s = sections(vec![1, 2, 3], vec![], vec![]);
    assert!(matches!(read(&s, &[]), Err(DwarfError::Unreadable(_))));
}

#[test]
fn no_debug_information_gives_nothing() {
    let (meta, stats) = read(&sections(vec![], vec![], vec![]), &[]).ok().unwrap();
    assert!(meta.functions.is_empty() && meta.types.is_empty() && meta.variables.is_empty());
    assert!(stats.dwarf_versions.is_empty());
}
