use rrmf::build_log::{decide, read_message, BuildError, BuildLog, LineAction, Message};
use rrmf::cli::{build_args, build_settings, read_args, read_launch, Command};
use rrmf::meta::{Function, Metadata, FORMAT_VERSION};
use rrmf::report::regs_line;
use rrmf::walk::Stats;

fn words(list: &[&str]) -> Vec<String> {
    list.iter().map(|s| s.to_string()).collect()
}

#[test]
fn a_build_is_asked_for() {
    let (command, filters) =
        read_args(&words(&["rrmf", "build", "--crate", "demo", "-p", "demo", "--crate", "other", "--", "--crate", "x"]));
    match command {
        Command::Build(args) => assert_eq!(args, words(&["-p", "demo", "--crate", "x"])),
        _ => panic!("expected a build"),
    }
    assert_eq!(filters, words(&["demo", "other"]));
}

#[test]
fn an_extraction_is_asked_for() {
    let (command, filters) = read_args(&words(&["extract", "--crate", "demo", "target/demo", "more"]));
    assert!(matches!(command, Command::Extract(path) if path == "target/demo"));
    assert_eq!(filters, words(&["demo"]));
    let (command, filters) = read_args(&words(&["extract", "--crate"]));
    assert!(matches!(command, Command::MissingPath));
    assert!(filters.is_empty());
}

#[test]
fn anything_else_is_answered_with_the_usage() {
    for args in [words(&[]), words(&["rrmf"]), words(&["rrmf", "rrmf"]), words(&["run", "x"])] {
        assert!(matches!(read_args(&args).0, Command::Usage));
    }
}

#[test]
fn a_build_keeps_its_debug_information() {
    assert_eq!(
        build_args(&words(&["-p", "demo"])),
        words(&["build", "--release", "--message-format=json-diagnostic-rendered-ansi", "-p", "demo"])
    );
    assert_eq!(
        build_settings(),
        [
            ("CARGO_PROFILE_RELEASE_DEBUG", "2"),
            ("CARGO_PROFILE_RELEASE_STRIP", "none"),
            ("CARGO_PROFILE_RELEASE_SPLIT_DEBUGINFO", "off"),
        ]
    );
}

#[test]
fn a_launch_names_a_target_and_a_mod() {
    let launch = read_launch(&words(&["launcher", "demo", "mod.rhai", "--fast", "3"])).unwrap();
    assert_eq!(launch.target, "demo");
    assert_eq!(launch.script, "mod.rhai");
    assert_eq!(launch.args, words(&["--fast", "3"]));
    assert!(read_launch(&words(&["launcher", "demo"])).is_none());
}

#[test]
fn messages_of_a_build_are_told_apart() {
    let mut log = BuildLog::new();
    assert!(matches!(log.take_line("   Compiling demo"), LineAction::Echo));
    let diagnostic = r#"{"reason":"compiler-message","message":{"rendered":"warning: unused\n"}}"#;
    assert!(matches!(log.take_line(diagnostic), LineAction::Show(t) if t == "warning: unused\n"));
    assert!(matches!(log.take_line(r#"{"reason":"compiler-message","message":null}"#), LineAction::Skip));
    assert!(matches!(log.take_line(r#"{"reason":"build-finished","executable":"x"}"#), LineAction::Skip));
    assert!(matches!(log.take_line("[1,2]"), LineAction::Skip));
    assert!(log.executable.is_none());
    let first = r#"{"reason":"compiler-artifact","executable":"/t/first"}"#;
    assert!(matches!(log.take_line(first), LineAction::Built(p) if p == "/t/first"));
    log.take_line(r#"{"reason":"compiler-artifact","executable":null}"#);
    log.take_line(r#"{"reason":"compiler-artifact","executable":"/t/second"}"#);
    assert_eq!(log.finish(true), Ok("/t/second".to_string()));
}

#[test]
fn a_build_can_fail() {
    assert_eq!(BuildLog::new().finish(true), Err(BuildError::NoExecutable));
    let mut log = BuildLog::new();
    log.note(&LineAction::Built("x".to_string()));
    assert_eq!(log.finish(false), Err(BuildError::Failed));
}

#[test]
fn what_a_message_says_decides() {
    let message = |reason: Option<&str>| Message {
        reason: reason.map(|r| r.to_string()),
        rendered: Some("shown".to_string()),
        executable: Some("built".to_string()),
    };
    assert!(matches!(decide(None), LineAction::Echo));
    assert!(matches!(decide(Some(message(None))), LineAction::Skip));
    assert!(matches!(decide(Some(message(Some("compiler-message")))), LineAction::Show(t) if t == "shown"));
    assert!(matches!(decide(Some(message(Some("compiler-artifact")))), LineAction::Built(t) if t == "built"));
    assert!(matches!(decide(Some(message(Some("other")))), LineAction::Skip));
    assert!(read_message("not json").is_none());
    let read = read_message(r#"{"reason":"r","message":{"rendered":"m"},"executable":"e"}"#).unwrap();
    assert_eq!(read.reason.as_deref(), Some("r"));
    assert_eq!(read.rendered.as_deref(), Some("m"));
    assert_eq!(read.executable.as_deref(), Some("e"));
}

fn metadata(functions: Vec<Function>) -> Metadata {
    Metadata {
        format_version: FORMAT_VERSION,
        crate_filter: vec![],
        build_id: None,
        pie: true,
        image_base: 0,
        functions,
        types: vec![],
        variables: vec![],
    }
}

fn function(name: &str, address: Option<u64>) -> Function {
    Function {
        name: name.to_string(),
        linkage_name: None,
        address,
        size: None,
        inlined_at: vec![],
        params: vec![],
    }
}

#[test]
fn an_extraction_is_reported() {
    let mut stats = Stats {
        has_debug_info: true,
        dwarf_versions: vec![4, 5],
        subprograms_seen: 7,
        variables_seen: 3,
        filtered_out: 4,
        filtered_samples: words(&["other::x"]),
    };
    let meta = metadata(vec![function("a", Some(1)), function("b", None), function("c", Some(2))]);
    let summary = stats.report(&meta).unwrap();
    assert_eq!(summary.dwarf_versions, vec![4, 5]);
    assert_eq!(summary.subprograms_seen, 7);
    assert_eq!(summary.functions_kept, 3);
    assert_eq!(summary.with_address, 2);
    assert_eq!(summary.filtered_out, 4);
    assert_eq!(summary.variables_seen, 3);
    assert_eq!(summary.variables_kept, 0);
    assert!(summary.samples.is_empty());
    assert_eq!(stats.report(&metadata(vec![])).unwrap().samples, words(&["other::x"]));
    stats.has_debug_info = false;
    assert!(stats.report(&meta).is_none());
}

#[test]
fn registers_are_shown_in_a_line() {
    let list = vec![("rdi", 0u64), ("rsi", 0x1f), ("rip", u64::MAX)];
    let line = regs_line(&list);
    assert_eq!(line, "rdi=0x0 rsi=0x1f rip=0xffffffffffffffff");
    let expected: Vec<String> = list.iter().map(|(n, v)| format!("{n}={v:#x}")).collect();
    assert_eq!(line, expected.join(" "));
}
