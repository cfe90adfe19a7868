use rrmf::location::{arg_source, dwarf_reg_name, expr_entry_reg, parse_indirect, ArgSource, DwarfOp};
use rrmf::names::{clean_name, demangle_clean, has_top_level_as, matches_filter, strip_hash};
use rrmf::text::{chars_of, join, parse_i64, push_decimal, push_signed, same_text, sorts_before, string_of};

fn strings(list: &[&str]) -> Vec<String> {
    list.iter().map(|s| s.to_string()).collect()
}

#[test]
fn characters_come_and_go() {
    let v = chars_of("aé日b");
    assert_eq!(v, vec!['a', 'é', '日', 'b']);
    assert_eq!(string_of(&v, 1, 3), "é日");
    assert_eq!(string_of(&v, 2, 2), "");
    assert!(same_text("x", "x"));
    assert!(!same_text("x", "xy"));
    assert_eq!(join(&strings(&["a", "b", "c"]), "::"), "a::b::c");
    assert_eq!(join(&strings(&["a"]), "::"), "a");
    assert_eq!(join(&vec![], "::"), "");
}

#[test]
fn strings_sort_as_their_bytes_do() {
    let list = ["", "B", "a", "a::b", "ab", "b", "é", "日"];
    for (i, a) in list.iter().enumerate() {
        for (j, b) in list.iter().enumerate() {
            assert_eq!(sorts_before(a, b), i < j);
            assert_eq!(sorts_before(a, b), a < b);
        }
    }
}

#[test]
fn numerals_are_written_and_read() {
    let mut s = String::from("n=");
    push_decimal(&mut s, 0);
    s.push(' ');
    push_decimal(&mut s, u64::MAX);
    assert_eq!(s, "n=0 18446744073709551615");
    for n in [0i64, 5, -12, i64::MAX, i64::MIN] {
        let mut s = String::new();
        push_signed(&mut s, n);
        assert_eq!(s, format!("{n:+}"));
        assert_eq!(parse_i64(&chars_of(&s), 0), Some(n));
    }
    for bad in ["", "+", "-", "1x", "9223372036854775808", "-9223372036854775809", "--1", " 1"] {
        assert_eq!(parse_i64(&chars_of(bad), 0), None, "{bad}");
        assert!(bad.parse::<i64>().is_err());
    }
    assert_eq!(parse_i64(&chars_of("rsp-8"), 3), Some(-8));
}

#[test]
fn hashes_are_cut_off() {
    assert_eq!(strip_hash("a::b::h0123456789abcdef"), "a::b");
    assert_eq!(strip_hash("a::b::h01234567"), "a::b");
    assert_eq!(strip_hash("a::b::h0123456"), "a::b::h0123456");
    assert_eq!(strip_hash("a::h01234567::b"), "a::h01234567::b");
    assert_eq!(strip_hash("a::b::h0123456789abcdeg"), "a::b::h0123456789abcdeg");
    assert_eq!(strip_hash("plain"), "plain");
}

#[test]
fn names_of_methods_lose_their_brackets() {
    assert_eq!(clean_name("<a::Foo>::bar"), "a::Foo::bar");
    assert_eq!(clean_name("<a::Foo<u8>>::bar"), "a::Foo<u8>::bar");
    assert_eq!(clean_name("<a::Foo as b::Bar>::baz"), "<a::Foo as b::Bar>::baz");
    assert_eq!(clean_name("a::b"), "a::b");
    assert!(has_top_level_as("a as b"));
    assert!(!has_top_level_as("Vec<a as b>"));
}

#[test]
fn mangled_names_are_made_plain() {
    assert_eq!(demangle_clean("_ZN4demo3run17h0123456789abcdefE"), "demo::run");
    assert_eq!(demangle_clean("main"), "main");
    assert_eq!(
        demangle_clean("_ZN50_$LT$demo..Thing$u20$as$u20$core..clone..Clone$GT$5clone17h0123456789abcdefE"),
        "<demo::Thing as core::clone::Clone>::clone"
    );
    assert_eq!(demangle_clean("_RNvCs1234_7mycrate3foo"), "mycrate::foo");
}

#[test]
fn a_filter_is_by_crate() {
    let filter = strings(&["demo", "other"]);
    assert!(matches_filter(&filter, "demo::run"));
    assert!(matches_filter(&filter, "<other::X as Y>::z"));
    assert!(!matches_filter(&filter, "demonstration::run"));
    assert!(!matches_filter(&filter, "std::demo::run"));
    assert!(!matches_filter(&filter, "demo"));
    assert!(matches_filter(&vec![], "anything"));
}

#[test]
fn registers_have_names() {
    let names = [
        "rax", "rdx", "rcx", "rbx", "rsi", "rdi", "rbp", "rsp", "r8", "r9", "r10", "r11", "r12", "r13", "r14", "r15",
        "rip",
    ];
    for (n, name) in names.iter().enumerate() {
        assert_eq!(dwarf_reg_name(n as u16).as_deref(), Some(*name));
    }
    assert_eq!(dwarf_reg_name(17), None);
}

fn place(ops: Vec<DwarfOp>) -> Option<String> {
    let ops = ops.into_iter().map(|op| Ok(op)).collect();
    expr_entry_reg(&ops)
}

#[test]
fn location_expressions_are_put_in_words() {
    assert_eq!(place(vec![DwarfOp::Register(5)]).as_deref(), Some("rdi"));
    assert_eq!(place(vec![DwarfOp::RegisterOffset(7, 16)]).as_deref(), Some("[rsp+16]"));
    assert_eq!(place(vec![DwarfOp::RegisterOffset(6, -8)]).as_deref(), Some("[rbp-8]"));
    assert_eq!(place(vec![DwarfOp::RegisterOffset(6, 0)]).as_deref(), Some("[rbp]"));
    assert_eq!(
        place(vec![DwarfOp::Register(5), DwarfOp::Piece, DwarfOp::Register(4), DwarfOp::Piece]).as_deref(),
        Some("rdi:rsi")
    );
    assert_eq!(place(vec![DwarfOp::Register(40)]), None);
    assert_eq!(place(vec![DwarfOp::Register(5), DwarfOp::Other]), None);
    assert_eq!(place(vec![]), None);
}

#[test]
fn places_are_read_back() {
    assert_eq!(parse_indirect("[rsp+16]"), Some(("rsp".to_string(), 16)));
    assert_eq!(parse_indirect("[rbp-8]"), Some(("rbp".to_string(), -8)));
    assert_eq!(parse_indirect("[rbp]"), Some(("rbp".to_string(), 0)));
    assert_eq!(parse_indirect("rbp"), None);
    assert_eq!(parse_indirect("[rbp"), None);
    assert_eq!(parse_indirect("[rbp+x]"), None);
    assert!(matches!(arg_source("rdi:rsi"), ArgSource::Held(r) if r == "rdi"));
    assert!(matches!(arg_source("[rsp+16]:rsi"), ArgSource::Pointed(r, 16) if r == "rsp"));
    assert!(matches!(arg_source("[oops"), ArgSource::Held(r) if r == "[oops"));
}
