use rrmf::debug_unit::{
    AttrValue, DebugUnit, DwarfError, Shape, AT_BYTE_SIZE, AT_DECLARATION, AT_LINKAGE_NAME, AT_LOCATION, AT_LOW_PC,
    AT_NAME, AT_SPECIFICATION, AT_TYPE, TAG_NAMESPACE, TAG_PARAMETER, TAG_POINTER, TAG_SUBPROGRAM, TAG_VARIABLE,
};
use rrmf::entries::{attr_u64, qualify, read_type, resolve_fn_name, resolve_member_type};
use rrmf::location::DwarfOp;
use rrmf::meta::ScalarKind;
use rrmf::params::read_params;
use rrmf::symbols::{read_inlined, read_subprogram, read_variable};
use rrmf::unit_image::{ImageAttr, ImageEntry, ImageLocation, UnitImage};
use rrmf::walk::{walk_unit, Tally};

fn attr(at: u16, value: AttrValue) -> ImageAttr {
    ImageAttr { at, value, text: None, address: None, ops: vec![], locations: None }
}

fn text(at: u16, s: &str) -> ImageAttr {
    ImageAttr { text: Some(s.to_string()), ..attr(at, AttrValue::Other) }
}

fn address(at: u16, n: u64) -> ImageAttr {
    ImageAttr { address: Some(n), ..attr(at, AttrValue::Other) }
}

fn expression(ops: Vec<DwarfOp>) -> ImageAttr {
    ImageAttr { ops, ..attr(AT_LOCATION, AttrValue::Exprloc) }
}

fn entry(off: usize, tag: u16, has_children: bool, sibling: Option<usize>, attrs: Vec<ImageAttr>) -> ImageEntry {
    let shape = Shape { present: true, tag, has_children, next: off + 1, last: false };
    ImageEntry { off, shape, sibling, range_start: None, attrs }
}

fn end(off: usize, last: bool) -> ImageEntry {
    let shape = Shape { present: false, tag: 0, has_children: false, next: off + 1, last };
    ImageEntry { off, shape, sibling: None, range_start: None, attrs: vec![] }
}

fn image(entries: Vec<ImageEntry>) -> UnitImage {
    let limit = entries.iter().map(|e| e.shape.next).max().unwrap_or(0);
    UnitImage::new(limit, entries, vec![0x9000]).unwrap()
}

#[test]
fn a_unit_in_memory_is_walked() {
    let u = image(vec![
        entry(1, 0x11, true, None, vec![]),
        entry(2, TAG_NAMESPACE, true, Some(8), vec![text(AT_NAME, "demo")]),
        entry(3, TAG_SUBPROGRAM, true, Some(6), vec![text(AT_LINKAGE_NAME, "demo::run"), address(AT_LOW_PC, 0x40)]),
        entry(4, TAG_PARAMETER, false, None, vec![
            text(AT_NAME, "p"),
            attr(AT_TYPE, AttrValue::UnitRef(8)),
            expression(vec![DwarfOp::Register(5)]),
        ]),
        end(5, false),
        entry(6, TAG_VARIABLE, false, None, vec![text(AT_NAME, "V"), expression(vec![DwarfOp::AddressIndex(0)])]),
        end(7, false),
        entry(8, TAG_POINTER, false, None, vec![attr(AT_BYTE_SIZE, AttrValue::Udata(8))]),
        end(9, true),
    ]);
    let t = walk_unit(&u, 1, &vec![], Tally::new(true)).ok().unwrap();
    assert_eq!(t.stats.subprograms_seen, 1);
    assert_eq!(t.stats.variables_seen, 1);
    let functions = t.functions.into_list();
    assert_eq!(functions.len(), 1);
    assert_eq!(functions[0].name, "demo::run");
    assert_eq!(functions[0].address, Some(0x40));
    assert_eq!(functions[0].params.len(), 1);
    assert_eq!(functions[0].params[0].name, "p");
    assert_eq!(functions[0].params[0].size, Some(8));
    assert_eq!(functions[0].params[0].entry_reg.as_deref(), Some("rdi"));
    let variables = t.variables.into_list();
    assert_eq!(variables[0].name, "demo::V");
    assert_eq!(variables[0].address, 0x9000);
}

#[test]
fn an_image_must_hang_together() {
    // What follows an entry must stand behind it, within the unit.
    let backwards = ImageEntry {
        shape: Shape { present: true, tag: 0x11, has_children: false, next: 1, last: true },
        ..entry(1, 0x11, false, None, vec![])
    };
    assert!(UnitImage::new(5, vec![backwards], vec![]).is_none());
    assert!(UnitImage::new(1, vec![entry(1, 0x11, false, None, vec![])], vec![]).is_none());
    assert!(UnitImage::new(5, vec![entry(3, 0x11, false, Some(2), vec![])], vec![]).is_none());
    assert!(UnitImage::new(5, vec![entry(3, 0x11, false, Some(4), vec![])], vec![]).is_some());
}

#[test]
fn what_is_not_there_is_told() {
    let u = image(vec![entry(1, TAG_SUBPROGRAM, false, None, vec![attr(AT_TYPE, AttrValue::UnitRef(7))])]);
    assert!(matches!(read_type(&u, 1), Err(DwarfError::NoEntry(7))));
    assert!(matches!(u.shape(9), Err(DwarfError::NoEntry(9))));
    assert!(u.table_address(1).is_err());
    assert_eq!(u.table_address(0).ok(), Some(0x9000));
    assert!(matches!(u.text(1, AT_NAME), Ok(None)));
}

#[test]
fn sizes_are_natural_numbers() {
    let sized = |v: AttrValue| {
        let u = image(vec![entry(1, TAG_POINTER, false, None, vec![attr(AT_BYTE_SIZE, v)])]);
        attr_u64(&u, 1, AT_BYTE_SIZE).ok().unwrap()
    };
    assert_eq!(sized(AttrValue::Udata(5)), Some(5));
    assert_eq!(sized(AttrValue::Data(6)), Some(6));
    assert_eq!(sized(AttrValue::Other), None);
    assert_eq!(sized(AttrValue::Exprloc), None);
}

#[test]
fn names_lead_from_entry_to_entry() {
    let u = image(vec![
        entry(1, TAG_SUBPROGRAM, false, None, vec![attr(AT_SPECIFICATION, AttrValue::UnitRef(2))]),
        entry(2, TAG_SUBPROGRAM, false, None, vec![text(AT_NAME, "there"), text(AT_LINKAGE_NAME, "_there")]),
        entry(3, TAG_SUBPROGRAM, false, None, vec![attr(AT_SPECIFICATION, AttrValue::UnitRef(3))]),
    ]);
    let there = (Some("_there".to_string()), Some("_there".to_string()));
    assert_eq!(resolve_fn_name(&u, 1, 0).ok().unwrap(), there);
    // References are not followed for ever.
    assert_eq!(resolve_fn_name(&u, 3, 0).ok().unwrap(), (None, None));
    assert_eq!(resolve_fn_name(&u, 1, 4).ok().unwrap(), (None, None));
    assert_eq!(qualify(&vec!["a".to_string(), "b".to_string()], "c".to_string()), "a::b::c");
    assert_eq!(qualify(&vec![], "c".to_string()), "c");
}

#[test]
fn a_place_must_cover_the_entry() {
    let at = |begin: u64, end: u64, reg: u16| ImageLocation { begin, end, ops: vec![DwarfOp::Register(reg)] };
    let listed = |locations: Vec<ImageLocation>| {
        image(vec![
            entry(1, TAG_SUBPROGRAM, true, None, vec![]),
            entry(2, TAG_PARAMETER, false, None, vec![ImageAttr {
                locations: Some(locations),
                ..attr(AT_LOCATION, AttrValue::Other)
            }]),
            end(3, true),
        ])
    };
    let place = |u: &UnitImage, low: u64| read_params(u, Some(2), low).ok().unwrap()[0].entry_reg.clone();
    let u = listed(vec![at(0x20, 0x30, 0), at(0x10, 0x20, 4)]);
    assert_eq!(place(&u, 0x10).as_deref(), Some("rsi"));
    assert_eq!(place(&u, 0x2f).as_deref(), Some("rax"));
    assert_eq!(read_params(&u, None, 0).ok().unwrap().len(), 0);
}

#[test]
fn declarations_and_moving_places_are_no_variables() {
    let read = |attrs: Vec<ImageAttr>| {
        let u = image(vec![entry(1, TAG_VARIABLE, false, None, attrs)]);
        read_variable(&u, 1, &vec![]).ok().unwrap()
    };
    let fixed = || expression(vec![DwarfOp::Address(0x10)]);
    assert_eq!(read(vec![text(AT_NAME, "v"), fixed()]).unwrap().address, 0x10);
    assert!(read(vec![text(AT_NAME, "v"), fixed(), attr(AT_DECLARATION, AttrValue::Other)]).is_none());
    assert!(read(vec![fixed()]).is_none());
    assert!(read(vec![text(AT_NAME, "v")]).is_none());
    assert!(read(vec![text(AT_NAME, "v"), expression(vec![DwarfOp::Address(0)])]).is_none());
    assert!(read(vec![text(AT_NAME, "v"), expression(vec![DwarfOp::Register(1)])]).is_none());
    assert!(read(vec![text(AT_NAME, "v"), expression(vec![])]).is_none());
}

#[test]
fn members_have_types() {
    let u = image(vec![
        entry(1, 0x0d, false, None, vec![attr(AT_TYPE, AttrValue::UnitRef(2))]),
        entry(2, TAG_POINTER, false, None, vec![text(AT_NAME, "*const T")]),
        entry(3, 0x0d, false, None, vec![]),
    ]);
    assert_eq!(resolve_member_type(&u, 1).ok().unwrap(), ("*const T".to_string(), 8, ScalarKind::Pointer));
    assert_eq!(resolve_member_type(&u, 3).ok().unwrap(), ("<unknown>".to_string(), 0, ScalarKind::Other));
}

#[test]
fn functions_without_a_name_are_passed_over() {
    let u = image(vec![entry(1, TAG_SUBPROGRAM, false, None, vec![address(AT_LOW_PC, 0x40)])]);
    assert!(read_subprogram(&u, 1, None).ok().unwrap().is_none());
    assert!(read_inlined(&u, 1).ok().unwrap().is_none());
}
