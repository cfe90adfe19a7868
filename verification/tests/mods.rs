use rrmf::arguments::{arg, arg_count, arg_regs, Arg};
use rrmf::caches::{CallCache, StateStore};
use rrmf::hooks::{declare_hook, plan_hooks, Hook};
use rrmf::inferior::{Inferior, Stop};
use rrmf::invoke::{invoke, invoke_addr, invoke_cached, invoke_ref_cached, list_numbers, InvokeError};
use rrmf::meta::{Field, Function, Metadata, Param, ScalarKind, TypeLayout, FORMAT_VERSION};
use rrmf::peek::{
    field_offset, field_size, get_field, mem_readable, read_f32_bits, read_f64_bits, read_i32, read_i64, read_i8,
    read_u16, read_u64, reg, scratch, set_field, set_reg, write_f32_bits, write_f64_bits, write_i32, write_i64,
    write_u16, write_u64,
};
use rrmf::regs::Regs;
use rrmf::session::{outcome, place_hooks, After, HookTable, Next, Session};
use rrmf::switches::{disable_hook, enable_hook};
use rrmf::trace::{Halt, Reply, Request, TraceError, Transcript, WaitStatus, SIGTRAP};
use rrmf::values::{scalar_to_dynamic, Scalar};
use std::collections::BTreeMap;

const PID: i32 = 7;
const FAULT: i32 = 14;

/// A target whose thread returns from any call at once, with the sum of its first two arguments.
struct Target {
    memory: BTreeMap<u64, u8>,
    regs: Regs,
    asked: usize,
    calls: usize,
}

fn empty_regs() -> Regs {
    Regs {
        r15: 0, r14: 0, r13: 0, r12: 0, rbp: 0, rbx: 0, r11: 0, r10: 0, r9: 0, r8: 0, rax: 0, rcx: 0, rdx: 0, rsi: 0,
        rdi: 0, orig_rax: 0, rip: 0, cs: 0, eflags: 0, rsp: 0x8000, ss: 0, fs_base: 0, gs_base: 0, ds: 0, es: 0, fs: 0,
        gs: 0,
    }
}

impl Target {
    fn new() -> Target {
        let mut memory = BTreeMap::new();
        for a in 0x1000..0x1100u64 {
            memory.insert(a, 0x90);
        }
        for a in 0x7000..0x9000u64 {
            memory.insert(a, 0);
        }
        Target { memory, regs: empty_regs(), asked: 0, calls: 0 }
    }

    fn reply(&mut self, q: Request) -> Reply {
        self.asked += 1;
        match q {
            Request::ReadWord(_, addr) => {
                let mut bytes = [0u8; 8];
                for (k, b) in bytes.iter_mut().enumerate() {
                    match self.memory.get(&addr.wrapping_add(k as u64)) {
                        Some(v) => *b = *v,
                        None => return Reply::Failed(FAULT),
                    }
                }
                Reply::Word(u64::from_le_bytes(bytes))
            }
            Request::WriteWord(_, addr, word) => {
                for (k, b) in word.to_le_bytes().iter().enumerate() {
                    self.memory.insert(addr.wrapping_add(k as u64), *b);
                }
                Reply::Done
            }
            Request::GetRegs(_) => Reply::Regs(self.regs),
            Request::SetRegs(_, regs) => {
                self.regs = regs;
                Reply::Done
            }
            Request::WaitAny => {
                self.calls += 1;
                let top = self.regs.rsp;
                let back: Vec<u8> = (0..8).map(|k| self.memory[&(top + k)]).collect();
                let back = u64::from_le_bytes(back.try_into().unwrap());
                self.regs.rax = self.regs.rdi.wrapping_add(self.regs.rsi);
                self.regs.rdx = u64::MAX;
                self.regs.rsp = top + 8;
                self.regs.rip = back + 1;
                Reply::Status(WaitStatus::Stopped(PID, SIGTRAP))
            }
            Request::WaitStart(_) => Reply::Status(WaitStatus::Stopped(PID, SIGTRAP)),
            _ => Reply::Done,
        }
    }
}

fn drive<T>(
    inferior: &mut Inferior,
    target: &mut Target,
    mut op: impl FnMut(&mut Inferior, &mut Transcript) -> Result<T, Halt>,
) -> Result<T, TraceError> {
    let mut replies = vec![];
    loop {
        let mut copy = inferior.copy();
        let mut io = Transcript::new(replies);
        match op(&mut copy, &mut io) {
            Ok(t) => {
                *inferior = copy;
                return Ok(t);
            }
            Err(Halt::Failed(e)) => {
                *inferior = copy;
                return Err(e);
            }
            Err(Halt::Waiting) => {
                let (open, known) = io.into_parts();
                replies = known;
                replies.push(target.reply(open.unwrap()));
            }
        }
    }
}

fn param(name: &str, entry: Option<&str>) -> Param {
    Param { name: name.to_string(), ty_name: "T".to_string(), size: None, entry_reg: entry.map(|s| s.to_string()) }
}

fn demo() -> Metadata {
    let function = |name: &str, address: Option<u64>, params: Vec<Param>| Function {
        name: name.to_string(),
        linkage_name: None,
        address,
        size: None,
        inlined_at: vec![],
        params,
    };
    let field = |name: &str, offset: u64, size: u64, kind: ScalarKind| Field {
        name: name.to_string(),
        offset,
        size,
        ty_name: "t".to_string(),
        kind,
    };
    Metadata {
        format_version: FORMAT_VERSION,
        crate_filter: vec![],
        build_id: None,
        pie: true,
        image_base: 0,
        functions: vec![
            function("f", Some(0x20), vec![param("a", Some("rdi:rsi")), param("b", Some("[rsp+16]")), param("c", None), param("d", Some("xmm0"))]),
            function("g", Some(0x40), vec![]),
            function("g", Some(0x50), vec![]),
            function("inlined", None, vec![]),
        ],
        types: vec![TypeLayout {
            name: "T".to_string(),
            size: 32,
            align: None,
            fields: vec![
                field("flag", 0, 1, ScalarKind::Bool),
                field("small", 1, 1, ScalarKind::Signed),
                field("short", 2, 2, ScalarKind::Signed),
                field("half", 4, 4, ScalarKind::Signed),
                field("word", 8, 8, ScalarKind::Unsigned),
                field("real", 16, 4, ScalarKind::Float),
                field("large", 8, 16, ScalarKind::Other),
            ],
        }],
        variables: vec![],
    }
}

/// A target with hooks on its functions, stopped at the entry of the first.
fn hooked(meta: &Metadata) -> (Inferior, Target, HookTable) {
    let mut target = Target::new();
    let mut inferior = Inferior::new(PID);
    drive(&mut inferior, &mut target, |s, io| s.wait_initial(io)).unwrap();
    inferior.load_base = 0x1000;
    let mut hooks: Vec<Hook> = vec![];
    declare_hook(&mut hooks, "f", "first_f", true);
    declare_hook(&mut hooks, "g", "on_g", false);
    declare_hook(&mut hooks, "f", "on_f", true);
    let plan = plan_hooks(meta, &hooks).0.unwrap();
    let mut table = HookTable::new();
    drive(&mut inferior, &mut target, |s, io| {
        table = HookTable::new();
        place_hooks(s, io, meta, &plan, &mut table)
    })
    .unwrap();
    inferior.current = Some(PID);
    inferior.current_bp = Some(0x1020);
    (inferior, target, table)
}

#[test]
fn hooks_are_placed_and_answered() {
    let meta = demo();
    let (inferior, target, table) = hooked(&meta);
    assert_eq!(target.memory[&0x1020], 0xcc);
    assert_eq!(target.memory[&0x1040], 0x90);
    let runtimes: Vec<u64> = table.placed.iter().map(|p| p.runtime).collect();
    assert_eq!(runtimes, vec![0x1020, 0x1040, 0x1050, 0x1020]);
    assert_eq!(table.callback_at(0x1020).as_deref(), Some("on_f"));
    assert_eq!(table.callback_at(0x1050).as_deref(), Some("on_g"));
    assert_eq!(table.callback_at(0x1060), None);
    assert_eq!(table.function_at(0x1050), Some(2));
    assert_eq!(table.addresses_of("g"), Some(vec![0x1040, 0x1050]));
    assert_eq!(table.addresses_of("f"), Some(vec![0x1020, 0x1020]));
    assert_eq!(table.addresses_of("h"), None);
    assert_eq!(inferior.breakpoints.len(), 3);
}

#[test]
fn a_hook_that_cannot_be_placed_stops_the_rest() {
    let meta = demo();
    let mut target = Target::new();
    let mut inferior = Inferior::new(PID);
    drive(&mut inferior, &mut target, |s, io| s.wait_initial(io)).unwrap();
    let mut hooks: Vec<Hook> = vec![];
    declare_hook(&mut hooks, "f", "x", true);
    let plan = plan_hooks(&meta, &hooks).0.unwrap();
    let mut table = HookTable::new();
    let r = drive(&mut inferior, &mut target, |s, io| place_hooks(s, io, &meta, &plan, &mut table));
    assert_eq!(r, Err(TraceError::System(FAULT)));
    assert!(table.placed.is_empty());
}

#[test]
fn a_session_decides_what_comes_next() {
    let meta = demo();
    let (mut inferior, _, table) = hooked(&meta);
    let mut session = Session::new();
    let (ask, next) = session.on_stop(&table, Stop::Hit(PID, 0x1020), false);
    assert!(!ask);
    assert!(matches!(next, Next::Handle(PID, 0x1020, Some(cb)) if cb == "on_f"));
    let (ask, next) = session.on_stop(&table, Stop::Interrupted, true);
    assert!(ask);
    assert!(matches!(next, Next::RunAgain));
    let (ask, next) = session.on_stop(&table, Stop::Hit(PID, 0x1), true);
    assert!(!ask);
    assert!(matches!(next, Next::Handle(PID, 0x1, None)));
    assert!(matches!(session.on_stop(&table, Stop::Exited, false), (false, Next::Finished)));
    assert_eq!(outcome(&inferior), (0, 1));
    inferior.exit_code = Some(3);
    assert_eq!(outcome(&inferior), (3, 1));
}

#[test]
fn a_handled_hook_is_stepped_over_unless_the_target_is_gone() {
    let meta = demo();
    let (mut inferior, _, _) = hooked(&meta);
    let session = Session::new();
    assert!(session.after_callback(&inferior, PID, 0x1020) == After::StepOver(PID, 0x1020));
    assert!(session.after_callback(&inferior, PID + 1, 0x1040) == After::StepOver(PID + 1, 0x1040));
    inferior.threads.clear();
    assert!(session.after_callback(&inferior, PID, 0x1020) == After::Finished);
}

#[test]
fn hooks_are_switched() {
    let meta = demo();
    let (mut inferior, mut target, table) = hooked(&meta);
    let r = drive(&mut inferior, &mut target, |s, io| enable_hook(s, io, &table, "g"));
    assert_eq!(r, Ok(Some(vec![])));
    assert_eq!((target.memory[&0x1040], target.memory[&0x1050]), (0xcc, 0xcc));
    let r = drive(&mut inferior, &mut target, |s, io| disable_hook(s, io, &table, "f"));
    assert_eq!(r, Ok(Some(vec![])));
    assert_eq!(target.memory[&0x1020], 0x90);
    assert_eq!(drive(&mut inferior, &mut target, |s, io| enable_hook(s, io, &table, "h")), Ok(None));
    inferior.breakpoints.retain(|(a, _)| *a != 0x1040);
    let r = drive(&mut inferior, &mut target, |s, io| disable_hook(s, io, &table, "g"));
    assert_eq!(r, Ok(Some(vec![TraceError::NoBreakpoint(0x1040)])));
    assert_eq!(target.memory[&0x1050], 0x90);
}

#[test]
fn arguments_are_found_where_they_lie() {
    let meta = demo();
    let (mut inferior, mut target, table) = hooked(&meta);
    target.regs.rdi = u64::MAX;
    let mut get = |index: i64| drive(&mut inferior, &mut target, |s, io| arg(s, io, &meta, &table, index)).unwrap();
    assert!(matches!(get(0), Arg::Value(-1)));
    assert!(matches!(get(1), Arg::Value(0x8010)));
    assert!(matches!(get(2), Arg::NotInRegister(name) if name == "c"));
    assert!(matches!(get(3), Arg::Value(0)));
    assert!(matches!(get(4), Arg::OutOfRange(4)));
    assert!(matches!(get(-1), Arg::OutOfRange(4)));
    assert_eq!(arg_count(&inferior, &meta, &table), 4);
    assert_eq!(arg_regs(&inferior, &meta, &table, 0), "rdi:rsi");
    assert_eq!(arg_regs(&inferior, &meta, &table, 2), "");
    assert_eq!(arg_regs(&inferior, &meta, &table, 9), "");
    inferior.current_bp = Some(0x1234);
    assert_eq!(arg_count(&inferior, &meta, &table), 0);
    inferior.current_bp = None;
    assert_eq!(arg_regs(&inferior, &meta, &table, 0), "");
    let mut io = Transcript::new(vec![]);
    assert!(matches!(arg(&inferior, &mut io, &meta, &table, 0), Ok(Arg::Unknown)));
}

#[test]
fn numbers_are_written_to_memory_and_read_again() {
    let meta = demo();
    let (mut s, mut t, _) = hooked(&meta);
    drive(&mut s, &mut t, |s, io| write_i64(s, io, 0x7000, -2)).unwrap();
    assert_eq!(drive(&mut s, &mut t, |s, io| read_i64(s, io, 0x7000)), Ok(-2));
    assert_eq!(drive(&mut s, &mut t, |s, io| read_u64(s, io, 0x7000)), Ok(-2));
    assert_eq!(drive(&mut s, &mut t, |s, io| read_i8(s, io, 0x7000)), Ok(-2));
    assert_eq!(drive(&mut s, &mut t, |s, io| read_i32(s, io, 0x7000)), Ok(-2));
    assert_eq!(drive(&mut s, &mut t, |s, io| read_u16(s, io, 0x7000)), Ok(0xfffe));
    drive(&mut s, &mut t, |s, io| write_u16(s, io, 0x7001, 0x1_2345)).unwrap();
    assert_eq!(t.memory[&0x7000], 0xfe);
    assert_eq!((t.memory[&0x7001], t.memory[&0x7002], t.memory[&0x7003]), (0x45, 0x23, 0xff));
    drive(&mut s, &mut t, |s, io| write_i32(s, io, 0x7010, i64::MIN | 5)).unwrap();
    assert_eq!(drive(&mut s, &mut t, |s, io| read_i64(s, io, 0x7010)), Ok(5));
    drive(&mut s, &mut t, |s, io| write_u64(s, io, 0x7010, i64::MIN)).unwrap();
    assert_eq!(drive(&mut s, &mut t, |s, io| read_i64(s, io, 0x7010)), Ok(i64::MIN));
    drive(&mut s, &mut t, |s, io| write_f64_bits(s, io, 0x7020, 1.5f64.to_bits())).unwrap();
    assert_eq!(drive(&mut s, &mut t, |s, io| read_f64_bits(s, io, 0x7020)), Ok(1.5f64.to_bits()));
    drive(&mut s, &mut t, |s, io| write_f32_bits(s, io, 0x7020, 2.5f32.to_bits())).unwrap();
    assert_eq!(drive(&mut s, &mut t, |s, io| read_f32_bits(s, io, 0x7020)), Ok(2.5f32.to_bits()));
}

#[test]
fn what_cannot_be_reached_reads_as_zero() {
    let meta = demo();
    let (mut s, mut t, _) = hooked(&meta);
    assert_eq!(drive(&mut s, &mut t, |s, io| read_i64(s, io, 0x10)), Ok(0));
    assert_eq!(drive(&mut s, &mut t, |s, io| read_i8(s, io, -1)), Ok(0));
    assert_eq!(drive(&mut s, &mut t, |s, io| write_i64(s, io, 0x10, 1)), Ok(()));
    assert_eq!(drive(&mut s, &mut t, |s, io| mem_readable(s, io, 0x7000, 100)), Ok(true));
    assert_eq!(drive(&mut s, &mut t, |s, io| mem_readable(s, io, 0x8ff0, 17)), Ok(false));
    let asked = t.asked;
    assert_eq!(drive(&mut s, &mut t, |s, io| mem_readable(s, io, 0, 1)), Ok(false));
    assert_eq!(drive(&mut s, &mut t, |s, io| mem_readable(s, io, 0x7000, 0)), Ok(false));
    assert_eq!(drive(&mut s, &mut t, |s, io| mem_readable(s, io, 0x7000, 4097)), Ok(false));
    assert_eq!(t.asked, asked);
    assert_eq!(drive(&mut s, &mut t, |s, io| mem_readable(s, io, 0x7000, 4096)), Ok(true));
}

#[test]
fn a_mod_sees_registers() {
    let meta = demo();
    let (mut s, mut t, _) = hooked(&meta);
    drive(&mut s, &mut t, |s, io| set_reg(s, io, "rax", -3)).unwrap();
    assert_eq!(t.regs.rax, u64::MAX - 2);
    assert_eq!(drive(&mut s, &mut t, |s, io| reg(s, io, "rax")), Ok(-3));
    assert_eq!(drive(&mut s, &mut t, |s, io| reg(s, io, "nothing")), Ok(0));
    assert_eq!(drive(&mut s, &mut t, |s, io| set_reg(s, io, "rip", 1)), Ok(()));
    assert_eq!(t.regs.rip, 0);
    assert_eq!(drive(&mut s, &mut t, |s, io| scratch(s, io, 0)), Ok(Some(0x8000 - 512)));
    assert_eq!(drive(&mut s, &mut t, |s, io| scratch(s, io, 31)), Ok(Some(0x8000 - 512 + 248)));
    assert_eq!(drive(&mut s, &mut t, |s, io| scratch(s, io, 32)), Ok(None));
    assert_eq!(drive(&mut s, &mut t, |s, io| scratch(s, io, -1)), Ok(None));
    t.regs.rsp = 500;
    assert_eq!(drive(&mut s, &mut t, |s, io| scratch(s, io, 1)), Ok(Some(-4)));
}

#[test]
fn fields_are_set_and_read() {
    let meta = demo();
    let (mut s, mut t, _) = hooked(&meta);
    assert_eq!(field_offset(&meta, "T", "half"), 4);
    assert_eq!(field_size(&meta, "T", "half"), 4);
    assert_eq!(field_offset(&meta, "T", "none"), -1);
    assert_eq!(field_size(&meta, "U", "half"), -1);
    let values = [("flag", 1, Scalar::Bool(true)), ("small", -5, Scalar::Int(-5)), ("short", -1, Scalar::Int(0xffff)),
        ("half", -70000, Scalar::Int(-70000)), ("word", -1, Scalar::Int(-1)),
        ("real", 0x3fc0_0000, Scalar::Single(1.5f32.to_bits()))];
    for (name, value, _) in values {
        drive(&mut s, &mut t, |s, io| set_field(s, io, &meta, 0x7000, "T", name, value)).unwrap();
    }
    for (name, _, read) in values {
        let got = drive(&mut s, &mut t, |s, io| get_field(s, io, &meta, 0x7000, "T", name)).unwrap();
        assert_eq!(got, Some(read), "{name}");
    }
    let got = drive(&mut s, &mut t, |s, io| get_field(s, io, &meta, 0x7000, "T", "large")).unwrap();
    assert_eq!(got, Some(Scalar::Int(-1)));
    let got = drive(&mut s, &mut t, |s, io| get_field(s, io, &meta, 0x7000, "T", "none")).unwrap();
    assert_eq!(got, None);
    let got = drive(&mut s, &mut t, |s, io| get_field(s, io, &meta, 0x10, "T", "flag")).unwrap();
    assert_eq!(got, Some(Scalar::Bool(false)));
    drive(&mut s, &mut t, |s, io| set_field(s, io, &meta, 0x7000, "T", "none", 1)).unwrap();
}

#[test]
fn bytes_are_read_by_their_kind() {
    assert_eq!(scalar_to_dynamic(&vec![0xff], ScalarKind::Signed), Scalar::Int(-1));
    assert_eq!(scalar_to_dynamic(&vec![0xff; 4], ScalarKind::Signed), Scalar::Int(-1));
    assert_eq!(scalar_to_dynamic(&vec![0xff; 3], ScalarKind::Signed), Scalar::Int(0xff_ffff));
    assert_eq!(scalar_to_dynamic(&vec![0xff; 4], ScalarKind::Unsigned), Scalar::Int(0xffff_ffff));
    assert_eq!(scalar_to_dynamic(&vec![0xff; 9], ScalarKind::Pointer), Scalar::Int(-1));
    assert_eq!(scalar_to_dynamic(&vec![0, 1], ScalarKind::Bool), Scalar::Bool(false));
    assert_eq!(scalar_to_dynamic(&vec![], ScalarKind::Bool), Scalar::Bool(false));
    assert_eq!(scalar_to_dynamic(&vec![1, 2], ScalarKind::Float), Scalar::Double(0x201));
    assert_eq!(scalar_to_dynamic(&vec![1, 2, 0, 0], ScalarKind::Float), Scalar::Single(0x201));
    assert_eq!(scalar_to_dynamic(&vec![], ScalarKind::Other), Scalar::Int(0));
}

#[test]
fn functions_of_the_target_are_called() {
    let meta = demo();
    let (mut s, mut t, _) = hooked(&meta);
    let before = t.regs;
    let numbers = list_numbers(&vec![Some(40), Some(2), None]);
    assert_eq!(numbers, vec![40, 2, 0]);
    let r = drive(&mut s, &mut t, |s, io| invoke(s, io, &meta, "g", &numbers)).unwrap();
    assert_eq!(r, Ok((42, -1)));
    assert_eq!(t.regs, before);
    let r = drive(&mut s, &mut t, |s, io| invoke_addr(s, io, 0x4444, &vec![-5])).unwrap();
    assert_eq!(r, Ok((-5, -1)));
    let r = drive(&mut s, &mut t, |s, io| invoke(s, io, &meta, "inlined", &numbers)).unwrap();
    assert_eq!(r, Err(InvokeError::Unknown));
    let r = drive(&mut s, &mut t, |s, io| invoke(s, io, &meta, "g", &vec![0; 7])).unwrap();
    assert_eq!(r, Err(InvokeError::Failed(TraceError::TooManyArgs)));
    s.threads.clear();
    let r = drive(&mut s, &mut t, |s, io| invoke(s, io, &meta, "g", &numbers)).unwrap();
    assert_eq!(r, Err(InvokeError::TargetGone));
    assert_eq!(t.calls, 2);
}

#[test]
fn results_of_calls_are_kept() {
    let meta = demo();
    let (mut s, mut t, _) = hooked(&meta);
    let mut cache = CallCache::new();
    let numbers = vec![1, 2];
    for _ in 0..3 {
        let r = drive(&mut s, &mut t, |s, io| invoke_cached(s, io, &meta, &mut cache, "g", &numbers)).unwrap();
        assert_eq!(r, Ok(3));
    }
    assert_eq!(t.calls, 1);
    let r = drive(&mut s, &mut t, |s, io| invoke_cached(s, io, &meta, &mut cache, "g", &vec![1, 3])).unwrap();
    assert_eq!(r, Ok(4));
    assert_eq!(t.calls, 2);
    let r = drive(&mut s, &mut t, |s, io| invoke_cached(s, io, &meta, &mut cache, "nothing", &numbers)).unwrap();
    assert_eq!(r, Err(InvokeError::Unknown));
    assert_eq!(cache.recall("g", &numbers), Some(3));
    assert_eq!(cache.recall("g", &vec![1]), None);
    cache.remember("g", &numbers, 9);
    assert_eq!(cache.recall("g", &numbers), Some(9));
    assert_eq!(cache.recall("g", &vec![1, 3]), Some(4));
}

#[test]
fn a_value_is_passed_by_where_it_lies() {
    let meta = demo();
    let (mut s, mut t, _) = hooked(&meta);
    let mut cache = CallCache::new();
    let mut call = |s: &mut Inferior, t: &mut Target, value: i64, width: i64| {
        drive(s, t, |s, io| invoke_ref_cached(s, io, &meta, &mut cache, "f", value, width)).unwrap()
    };
    for _ in 0..2 {
        assert_eq!(call(&mut s, &mut t, 0x0102_0304, 2), Ok(0x8000 - 512));
    }
    assert_eq!(t.calls, 1);
    assert_eq!((t.memory[&0x7e00], t.memory[&0x7e01], t.memory[&0x7e02]), (4, 3, 0));
    assert_eq!(call(&mut s, &mut t, 0x0102_0304, 3), Ok(0x8000 - 512));
    assert_eq!(t.calls, 2);
    assert_eq!(call(&mut s, &mut t, 1, 0), Err(InvokeError::BadWidth(0)));
    assert_eq!(call(&mut s, &mut t, 1, 9), Err(InvokeError::BadWidth(9)));
    t.regs.rsp = 0x100;
    assert_eq!(call(&mut s, &mut t, 1, 8), Err(InvokeError::NotStaged));
    let r = drive(&mut s, &mut t, |s, io| invoke_ref_cached(s, io, &meta, &mut CallCache::new(), "h", 1, 8)).unwrap();
    assert_eq!(r, Err(InvokeError::Unknown));
    let mut io = Transcript::new(vec![Reply::Failed(FAULT)]);
    let r = invoke_ref_cached(&mut s, &mut io, &meta, &mut CallCache::new(), "f", 1, 8);
    assert_eq!(r, Ok(Err(InvokeError::NoStack(TraceError::System(FAULT)))));
}

#[test]
fn a_mod_keeps_numbers() {
    let mut store = StateStore::new();
    assert_eq!(store.get_state("n"), 0);
    store.set_state("n", 5);
    store.set_state("m", 6);
    store.set_state("n", 7);
    assert_eq!(store.get_state("n"), 7);
    assert_eq!(store.get_state("m"), 6);
}
