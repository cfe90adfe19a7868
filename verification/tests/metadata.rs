use rrmf::build_id::{compare_build_id, hex, BuildIdCheck};
use rrmf::catalog::{merge_fn, note_inlined, Catalog};
use rrmf::fields::sort_fields;
use rrmf::hooks::{declare_hook, plan_hooks, Hook, HookNote};
use rrmf::inferior::Inferior;
use rrmf::meta::{field_lookup, Field, Function, Metadata, ScalarKind, TypeLayout, Variable, FORMAT_VERSION};
use rrmf::statics::{func_addr, static_addr, static_name};

fn function(name: &str, address: Option<u64>, inlined_at: Vec<u64>) -> Function {
    Function {
        name: name.to_string(),
        linkage_name: None,
        address,
        size: None,
        inlined_at,
        params: vec![],
    }
}

fn variable(name: &str, linkage: Option<&str>, address: u64, size: Option<u64>) -> Variable {
    Variable {
        name: name.to_string(),
        linkage_name: linkage.map(|s| s.to_string()),
        address,
        size,
        ty_name: "u8".to_string(),
    }
}

fn field(name: &str, offset: u64, size: u64, kind: ScalarKind) -> Field {
    Field { name: name.to_string(), offset, size, ty_name: "t".to_string(), kind }
}

fn metadata(functions: Vec<Function>, types: Vec<TypeLayout>, variables: Vec<Variable>) -> Metadata {
    Metadata {
        format_version: FORMAT_VERSION,
        crate_filter: vec![],
        build_id: None,
        pie: true,
        image_base: 0,
        functions,
        types,
        variables,
    }
}

#[test]
fn the_version_and_the_path_are_fixed() {
    assert_eq!(FORMAT_VERSION, 1);
    assert_eq!(Metadata::path_for_bin(b"/t/demo"), b"/t/demo.rrmf.json".to_vec());
    assert_eq!(Metadata::path_for_bin(b""), b".rrmf.json".to_vec());
    assert_eq!(Metadata::path_for_bin(&[0xff, b'x']), [&[0xff, b'x'], &b".rrmf.json"[..]].concat());
}

#[test]
fn functions_are_found_by_name() {
    let meta = metadata(
        vec![function("a", Some(1), vec![]), function("b", None, vec![]), function("a", Some(2), vec![])],
        vec![],
        vec![],
    );
    let index = meta.function_index();
    assert_eq!(index.get("a"), Some(&vec![0, 2]));
    assert_eq!(index.get("b"), Some(&vec![1]));
    assert_eq!(index.get("c"), None);
}

#[test]
fn the_first_type_of_a_name_counts() {
    let layout = |size: u64, fields: Vec<Field>| TypeLayout { name: "T".to_string(), size, align: None, fields };
    let meta = metadata(
        vec![],
        vec![
            layout(8, vec![field("x", 4, 2, ScalarKind::Signed), field("x", 0, 1, ScalarKind::Bool)]),
            layout(16, vec![field("y", 0, 8, ScalarKind::Other)]),
        ],
        vec![],
    );
    assert_eq!(meta.type_by_name("T").unwrap().size, 8);
    assert!(meta.type_by_name("U").is_none());
    assert_eq!(field_lookup(&meta, "T", "x"), Some((4, 2, ScalarKind::Signed)));
    assert_eq!(field_lookup(&meta, "T", "y"), None);
    assert_eq!(field_lookup(&meta, "U", "x"), None);
}

#[test]
fn a_variable_is_found_by_its_name_first() {
    let meta = metadata(
        vec![],
        vec![],
        vec![variable("a", Some("b"), 1, None), variable("b", None, 2, None), variable("c", Some("b"), 3, None)],
    );
    assert_eq!(meta.variable_by_name("b").unwrap().address, 2);
    assert_eq!(meta.variable_by_name("a").unwrap().address, 1);
    let meta = metadata(vec![], vec![], vec![variable("a", Some("x"), 1, None), variable("c", Some("x"), 3, None)]);
    assert_eq!(meta.variable_by_name("x").unwrap().address, 1);
    assert!(meta.variable_by_name("y").is_none());
}

#[test]
fn functions_of_one_name_are_merged() {
    let mut map: Catalog<Function> = Catalog::new();
    merge_fn(&mut map, function("b", None, vec![]));
    note_inlined(&mut map, "b".to_string(), 9);
    note_inlined(&mut map, "a".to_string(), 7);
    let mut known = function("b", Some(5), vec![1]);
    known.size = Some(3);
    known.linkage_name = Some("_b".to_string());
    merge_fn(&mut map, known);
    merge_fn(&mut map, function("b", Some(6), vec![]));
    let list = map.into_list();
    assert_eq!(list.len(), 2);
    assert_eq!(list[0].name, "a");
    assert_eq!(list[0].address, None);
    assert_eq!(list[0].inlined_at, vec![7]);
    assert_eq!(list[1].name, "b");
    assert_eq!(list[1].address, Some(5));
    assert_eq!(list[1].size, Some(3));
    assert_eq!(list[1].linkage_name.as_deref(), Some("_b"));
    assert!(list[1].inlined_at.contains(&9));
}

#[test]
fn the_first_of_a_name_stays_in_a_catalog() {
    let mut map: Catalog<Variable> = Catalog::new();
    map.add_new(variable("b", None, 1, None));
    map.add_new(variable("a", None, 2, None));
    map.add_new(variable("b", None, 3, None));
    let list: Vec<u64> = map.into_list().iter().map(|v| v.address).collect();
    assert_eq!(list, vec![2, 1]);
}

#[test]
fn fields_are_listed_by_offset() {
    let fields = vec![
        field("c", 8, 1, ScalarKind::Other),
        field("a", 0, 1, ScalarKind::Other),
        field("d", 8, 2, ScalarKind::Other),
        field("b", 4, 1, ScalarKind::Other),
    ];
    let names: Vec<String> = sort_fields(fields).into_iter().map(|f| f.name).collect();
    assert_eq!(names, vec!["a", "b", "c", "d"]);
}

#[test]
fn build_ids_are_compared() {
    assert_eq!(hex(&[0, 0x0f, 0xa5, 0xff]), "000fa5ff");
    let recorded = Some("0fa5".to_string());
    assert!(matches!(compare_build_id(&None, &Some(vec![1])), BuildIdCheck::NotRecorded));
    assert!(matches!(compare_build_id(&recorded, &Some(vec![0x0f, 0xa5])), BuildIdCheck::Matches));
    assert!(matches!(compare_build_id(&recorded, &Some(vec![0x0f])), BuildIdCheck::Differs(id) if id == "0f"));
    assert!(matches!(compare_build_id(&recorded, &None), BuildIdCheck::Missing));
}

#[test]
fn hooks_become_breakpoints() {
    let meta = metadata(
        vec![
            function("a", Some(0x10), vec![]),
            function("inlined", None, vec![1, 2]),
            function("a", None, vec![3]),
            function("a", Some(0x20), vec![]),
            function("inlined", None, vec![4]),
            function("b", Some(0x30), vec![]),
        ],
        vec![],
        vec![],
    );
    let mut hooks: Vec<Hook> = vec![];
    declare_hook(&mut hooks, "b", "on_b", false);
    declare_hook(&mut hooks, "missing", "x", true);
    declare_hook(&mut hooks, "inlined", "x", true);
    declare_hook(&mut hooks, "a", "on_a", true);
    let (plan, notes) = plan_hooks(&meta, &hooks);
    let plan: Vec<(u64, String, String, bool)> =
        plan.unwrap().into_iter().map(|p| (p.address, p.hook.symbol, p.hook.callback, p.hook.armed)).collect();
    let entry = |address: u64, symbol: &str, callback: &str, armed: bool| {
        (address, symbol.to_string(), callback.to_string(), armed)
    };
    assert_eq!(
        plan,
        vec![entry(0x30, "b", "on_b", false), entry(0x10, "a", "on_a", true), entry(0x20, "a", "on_a", true)]
    );
    assert_eq!(notes.len(), 3);
    assert!(matches!(&notes[0], HookNote::Unresolved(s) if s == "missing"));
    assert!(matches!(&notes[1], HookNote::InlineOnly(s, 3) if s == "inlined"));
    assert!(matches!(&notes[2], HookNote::Several(s, 2) if s == "a"));
}

#[test]
fn hooks_that_lead_nowhere_make_no_plan() {
    let meta = metadata(vec![function("inlined", None, vec![])], vec![], vec![]);
    let mut hooks: Vec<Hook> = vec![];
    assert!(plan_hooks(&meta, &hooks).0.is_none());
    declare_hook(&mut hooks, "inlined", "x", true);
    let (plan, notes) = plan_hooks(&meta, &hooks);
    assert!(plan.is_none());
    assert!(matches!(&notes[0], HookNote::InlineOnly(_, 0)));
}

#[test]
fn addresses_have_names() {
    let meta = metadata(
        vec![function("f", None, vec![1]), function("f", Some(0x40), vec![])],
        vec![],
        vec![
            variable("big", None, 0x100, Some(0x20)),
            variable("twin", None, 0x100, Some(4)),
            variable("empty", None, 0x110, Some(0)),
            variable("unsized", None, 0x200, None),
        ],
    );
    let mut inferior = Inferior::new(1);
    inferior.load_base = 0x5000;
    assert_eq!(func_addr(&meta, &inferior, "f"), Some(0x5040));
    assert_eq!(func_addr(&meta, &inferior, "g"), None);
    assert_eq!(static_addr(&meta, &inferior, "big"), Some(0x5100));
    assert_eq!(static_addr(&meta, &inferior, "none"), None);
    assert_eq!(static_name(&meta, &inferior, 0x5100), "twin");
    assert_eq!(static_name(&meta, &inferior, 0x5110), "empty");
    assert_eq!(static_name(&meta, &inferior, 0x5103), "twin+3");
    assert_eq!(static_name(&meta, &inferior, 0x5104), "");
    assert_eq!(static_name(&meta, &inferior, 0x5200), "unsized");
    assert_eq!(static_name(&meta, &inferior, 0x5201), "");
    assert_eq!(static_name(&meta, &inferior, 0x50ff), "");
    assert_eq!(static_name(&meta, &inferior, 0), "");
    inferior.load_base = u64::MAX;
    assert_eq!(static_addr(&meta, &inferior, "big"), Some(0xff));
    assert_eq!(static_name(&meta, &inferior, 0xff), "twin");
}
