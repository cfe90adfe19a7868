use rrmf::calls::{worth_telling, MAX_CALL_ARGS};
use rrmf::inferior::{Breakpoint, Inferior, Stop, Thread};
use rrmf::maps::LoadBaseError;
use rrmf::regs::Regs;
use rrmf::trace::{Halt, Reply, Request, TraceError, Transcript, WaitStatus, EINTR, ESRCH, EVENT_CLONE, SIGSTOP, SIGTRAP};
use rrmf::words::{from_bytes, to_bytes, to_signed, to_unsigned};
use std::collections::{BTreeMap, VecDeque};

const PID: i32 = 100;
const OTHER: i32 = 101;
const FAULT: i32 = 14;

/// A kernel that remembers memory and registers, and tells of threads what it is told to.
struct Kernel {
    memory: BTreeMap<u64, u8>,
    regs: BTreeMap<i32, Regs>,
    statuses: VecDeque<Reply>,
    message: i64,
    refuses: Option<Request>,
    gone: Option<i32>,
    log: Vec<Request>,
}

fn registers() -> Regs {
    Regs {
        r15: 15, r14: 14, r13: 13, r12: 12, rbp: 11, rbx: 10, r11: 9, r10: 8, r9: 7, r8: 6, rax: 5, rcx: 4, rdx: 3,
        rsi: 2, rdi: 1, orig_rax: 0, rip: 0x1000, cs: 0x33, eflags: 0x246, rsp: 0x8000, ss: 0x2b, fs_base: 0,
        gs_base: 0, ds: 0, es: 0, fs: 0, gs: 0,
    }
}

impl Kernel {
    fn new() -> Kernel {
        let mut memory = BTreeMap::new();
        for a in 0x1000..0x1100u64 {
            memory.insert(a, (a % 251) as u8);
        }
        for a in 0x7000..0x8100u64 {
            memory.insert(a, 0);
        }
        let mut regs = BTreeMap::new();
        regs.insert(PID, registers());
        regs.insert(OTHER, registers());
        Kernel { memory, regs, statuses: VecDeque::new(), message: 0, refuses: None, gone: None, log: vec![] }
    }

    fn tells(&mut self, status: WaitStatus) {
        self.statuses.push_back(Reply::Status(status));
    }

    fn at(&self, addr: u64) -> u8 {
        self.memory[&addr]
    }

    fn trap(&mut self, tid: i32, addr: u64) {
        self.regs.get_mut(&tid).unwrap().rip = addr + 1;
        self.tells(WaitStatus::Stopped(tid, SIGTRAP));
    }

    fn reply(&mut self, q: Request) -> Reply {
        self.log.push(q);
        if self.refuses == Some(q) {
            return Reply::Failed(FAULT);
        }
        match q {
            Request::ReadWord(_, addr) => {
                let mut bytes = [0u8; 8];
                for (k, b) in bytes.iter_mut().enumerate() {
                    match self.memory.get(&addr.wrapping_add(k as u64)) {
                        Some(v) => *b = *v,
                        None => return Reply::Failed(FAULT),
                    }
                }
                Reply::Word(u64::from_le_bytes(bytes))
            }
            Request::WriteWord(_, addr, word) => {
                for (k, b) in word.to_le_bytes().iter().enumerate() {
                    self.memory.insert(addr.wrapping_add(k as u64), *b);
                }
                Reply::Done
            }
            Request::GetRegs(tid) => Reply::Regs(self.regs[&tid]),
            Request::SetRegs(tid, regs) => {
                self.regs.insert(tid, regs);
                Reply::Done
            }
            Request::Resume(tid, _) if self.gone == Some(tid) => Reply::Failed(ESRCH),
            Request::WaitAny | Request::WaitThread(_) | Request::WaitStart(_) => {
                self.statuses.pop_front().expect("nothing to tell")
            }
            Request::EventMessage(_) => Reply::Message(self.message),
            _ => Reply::Done,
        }
    }
}

/// Performs an operation: answers its requests one by one, and runs it again with each answer.
fn drive<T>(
    inferior: &mut Inferior,
    kernel: &mut Kernel,
    op: impl Fn(&mut Inferior, &mut Transcript) -> Result<T, Halt>,
) -> Result<T, TraceError> {
    let mut replies = vec![];
    loop {
        let mut copy = inferior.copy();
        let mut io = Transcript::new(replies);
        match op(&mut copy, &mut io) {
            Ok(t) => {
                *inferior = copy;
                return Ok(t);
            }
            Err(Halt::Failed(e)) => {
                *inferior = copy;
                return Err(e);
            }
            Err(Halt::Waiting) => {
                let (open, known) = io.into_parts();
                replies = known;
                replies.push(kernel.reply(open.unwrap()));
            }
        }
    }
}

fn started() -> (Inferior, Kernel) {
    let mut kernel = Kernel::new();
    let mut inferior = Inferior::new(PID);
    kernel.tells(WaitStatus::Stopped(PID, SIGTRAP));
    drive(&mut inferior, &mut kernel, |s, io| s.wait_initial(io)).unwrap();
    (inferior, kernel)
}

fn run(inferior: &mut Inferior, kernel: &mut Kernel) -> Result<Stop, TraceError> {
    loop {
        if let Some(stop) = drive(inferior, kernel, |s, io| s.run_to_breakpoint(io))? {
            return Ok(stop);
        }
    }
}

#[test]
fn a_process_starts_with_a_trap() {
    let (inferior, kernel) = started();
    assert_eq!(kernel.log, vec![Request::WaitStart(PID), Request::TraceClones(PID)]);
    assert!(inferior.is_alive());
    assert_eq!(inferior.peak_threads(), 1);
    assert_eq!(inferior.load_base(), 0);
    assert_eq!(inferior.current_bp(), None);
    assert_eq!(inferior.threads, vec![(PID, Thread { running: false, pending_signal: None, sigstop_sent: false })]);

    let mut kernel = Kernel::new();
    let mut inferior = Inferior::new(PID);
    kernel.tells(WaitStatus::Exited(PID, 127));
    let r = drive(&mut inferior, &mut kernel, |s, io| s.wait_initial(io));
    assert_eq!(r, Err(TraceError::UnexpectedStatus(WaitStatus::Exited(PID, 127))));
    assert!(!inferior.is_alive());
}

#[test]
fn memory_is_written_and_read() {
    let (mut inferior, mut kernel) = started();
    let bytes: Vec<u8> = (1..=13).collect();
    drive(&mut inferior, &mut kernel, |s, io| s.write_mem(io, 0x1003, &bytes)).unwrap();
    assert_eq!(kernel.at(0x1002), (0x1002u64 % 251) as u8);
    assert_eq!(kernel.at(0x1010), (0x1010u64 % 251) as u8);
    let got = drive(&mut inferior, &mut kernel, |s, io| s.read_mem(io, 0x1003, 13)).unwrap();
    assert_eq!(got, bytes);
    let got = drive(&mut inferior, &mut kernel, |s, io| s.read_mem(io, 0x1002, 3)).unwrap();
    assert_eq!(got, vec![(0x1002u64 % 251) as u8, 1, 2]);
    assert_eq!(drive(&mut inferior, &mut kernel, |s, io| s.read_mem(io, 0x10, 0)), Ok(vec![]));
    assert_eq!(drive(&mut inferior, &mut kernel, |s, io| s.read_mem(io, 0x10, 1)), Err(TraceError::System(FAULT)));
}

#[test]
fn a_reply_that_does_not_fit_is_refused() {
    let (inferior, _) = started();
    let mut io = Transcript::new(vec![Reply::Done]);
    assert_eq!(inferior.read_mem(&mut io, 0x1000, 8), Err(Halt::Failed(TraceError::UnexpectedReply)));
    let mut io = Transcript::new(vec![]);
    assert_eq!(inferior.read_mem(&mut io, 0x1000, 8), Err(Halt::Waiting));
    assert_eq!(io.into_parts(), (Some(Request::ReadWord(PID, 0x1000)), vec![]));
}

#[test]
fn replies_that_are_known_in_advance_are_used_in_order() {
    let (inferior, _) = started();
    let word = |n: u64| Reply::Word(n);
    let mut io = Transcript::new(vec![word(1), word(2), word(3)]);
    assert_eq!(inferior.read_mem(&mut io, 0x1000, 9), Ok(vec![1, 0, 0, 0, 0, 0, 0, 0, 2]));
    assert_eq!(inferior.read_mem(&mut io, 0x1000, 1), Ok(vec![3]));
    assert_eq!(inferior.read_mem(&mut io, 0x1000, 1), Err(Halt::Waiting));
    assert_eq!(io.into_parts(), (Some(Request::ReadWord(PID, 0x1000)), vec![word(1), word(2), word(3)]));
}

#[test]
fn addresses_go_around() {
    let (inferior, _) = started();
    let mut io = Transcript::new(vec![Reply::Word(0)]);
    assert_eq!(inferior.read_mem(&mut io, u64::MAX - 3, 16), Err(Halt::Waiting));
    assert_eq!(io.into_parts().0, Some(Request::ReadWord(PID, 4)));
}

#[test]
fn words_are_made_of_bytes() {
    for n in [0u64, 1, 0x0123_4567_89ab_cdef, u64::MAX, 1 << 63] {
        assert_eq!(to_bytes(n), n.to_le_bytes());
        assert_eq!(from_bytes(&n.to_le_bytes()), n);
        assert_eq!(to_signed(n), n as i64);
        assert_eq!(to_unsigned(to_signed(n)), n);
    }
    assert_eq!(to_unsigned(-1), u64::MAX);
    assert_eq!(to_unsigned(i64::MIN), 1 << 63);
}

#[test]
fn registers_are_read_and_set_by_name() {
    let (mut inferior, mut kernel) = started();
    assert_eq!(drive(&mut inferior, &mut kernel, |s, io| s.get_reg(io, "rsp")), Ok(0x8000));
    assert_eq!(drive(&mut inferior, &mut kernel, |s, io| s.get_reg(io, "cs")), Err(TraceError::UnknownRegister));
    drive(&mut inferior, &mut kernel, |s, io| s.set_reg(io, "rdi", 99)).unwrap();
    assert_eq!(kernel.regs[&PID], Regs { rdi: 99, ..registers() });
    assert_eq!(drive(&mut inferior, &mut kernel, |s, io| s.set_reg(io, "rip", 1)), Err(TraceError::FixedRegister));
    let list = drive(&mut inferior, &mut kernel, |s, io| s.dump_regs(io)).unwrap();
    assert_eq!(
        list,
        vec![
            ("rdi", 99), ("rsi", 2), ("rdx", 3), ("rcx", 4), ("r8", 6), ("r9", 7), ("rax", 5), ("rbx", 10), ("r10", 8),
            ("r11", 9), ("r12", 12), ("r13", 13), ("r14", 14), ("r15", 15), ("rsp", 0x8000), ("rbp", 11),
            ("rip", 0x1000),
        ]
    );
}

#[test]
fn a_breakpoint_comes_and_goes() {
    let (mut inferior, mut kernel) = started();
    inferior.load_base = 0x800;
    let before = kernel.memory.clone();
    let addr = drive(&mut inferior, &mut kernel, |s, io| s.set_breakpoint(io, 0x820, false)).unwrap();
    assert_eq!(addr, 0x1020);
    assert_eq!(kernel.memory, before);
    assert_eq!(
        inferior.breakpoints,
        vec![(0x1020, Breakpoint { original_byte: (0x1020u64 % 251) as u8, armed: false })]
    );
    drive(&mut inferior, &mut kernel, |s, io| s.arm(io, addr)).unwrap();
    assert_eq!(kernel.at(0x1020), 0xcc);
    assert_eq!(kernel.at(0x1021), (0x1021u64 % 251) as u8);
    let asked = kernel.log.len();
    drive(&mut inferior, &mut kernel, |s, io| s.arm(io, addr)).unwrap();
    drive(&mut inferior, &mut kernel, |s, io| s.set_breakpoint(io, 0x820, true)).unwrap();
    assert_eq!(kernel.log.len(), asked);
    drive(&mut inferior, &mut kernel, |s, io| s.disarm(io, addr)).unwrap();
    assert_eq!(kernel.memory, before);
    let r = drive(&mut inferior, &mut kernel, |s, io| s.disarm(io, 0x1030));
    assert_eq!(r, Err(TraceError::NoBreakpoint(0x1030)));
    let r = drive(&mut inferior, &mut kernel, |s, io| s.arm(io, 0x1030));
    assert_eq!(r, Err(TraceError::NoBreakpoint(0x1030)));
    let again = drive(&mut inferior, &mut kernel, |s, io| s.set_breakpoint(io, 0x820, true)).unwrap();
    assert_eq!(again, addr);
    assert_eq!(kernel.at(0x1020), 0xcc);
}

#[test]
fn a_thread_that_hits_a_breakpoint_stops_the_others() {
    let (mut inferior, mut kernel) = started();
    drive(&mut inferior, &mut kernel, |s, io| s.set_breakpoint(io, 0x1020, true)).unwrap();
    // The process starts a thread, which is stopped once before it runs.
    kernel.message = OTHER as i64;
    kernel.tells(WaitStatus::Event(PID, EVENT_CLONE));
    kernel.tells(WaitStatus::Stopped(OTHER, SIGSTOP));
    kernel.trap(OTHER, 0x1020);
    kernel.tells(WaitStatus::Stopped(PID, SIGSTOP));
    kernel.log.clear();
    assert_eq!(run(&mut inferior, &mut kernel), Ok(Stop::Hit(OTHER, 0x1020)));
    assert_eq!(kernel.regs[&OTHER].rip, 0x1020);
    assert_eq!(inferior.current_bp(), Some(0x1020));
    assert_eq!(inferior.current, Some(OTHER));
    assert_eq!(inferior.peak_threads(), 2);
    assert!(inferior.threads.iter().all(|(_, t)| !t.running && !t.sigstop_sent));
    assert!(kernel.log.contains(&Request::Interrupt(PID)));
    assert!(!kernel.log.contains(&Request::Interrupt(OTHER)));
}

#[test]
fn signals_are_passed_on() {
    let (mut inferior, mut kernel) = started();
    kernel.tells(WaitStatus::Stopped(PID, 10));
    kernel.tells(WaitStatus::Stopped(PID, SIGSTOP));
    kernel.tells(WaitStatus::Exited(PID, 3));
    kernel.log.clear();
    assert_eq!(run(&mut inferior, &mut kernel), Ok(Stop::Exited));
    assert_eq!(
        kernel.log,
        vec![
            Request::Resume(PID, None),
            Request::WaitAny,
            Request::Resume(PID, Some(10)),
            Request::WaitAny,
            Request::Resume(PID, Some(SIGSTOP)),
            Request::WaitAny,
        ]
    );
    assert_eq!(inferior.exit_code, Some(3));
    assert!(!inferior.is_alive());
    assert_eq!(run(&mut inferior, &mut kernel), Ok(Stop::Exited));
}

#[test]
fn an_interruption_is_told() {
    let (mut inferior, mut kernel) = started();
    kernel.statuses.push_back(Reply::Failed(EINTR));
    assert_eq!(run(&mut inferior, &mut kernel), Ok(Stop::Interrupted));
    kernel.statuses.push_back(Reply::Failed(FAULT));
    assert_eq!(run(&mut inferior, &mut kernel), Err(TraceError::System(FAULT)));
}

#[test]
fn a_killed_process_is_an_error() {
    let (mut inferior, mut kernel) = started();
    kernel.tells(WaitStatus::Signaled(PID, 9));
    assert_eq!(run(&mut inferior, &mut kernel), Err(TraceError::Killed(9)));
    assert!(!inferior.is_alive());

    let (mut inferior, mut kernel) = started();
    kernel.tells(WaitStatus::Other);
    assert_eq!(run(&mut inferior, &mut kernel), Err(TraceError::UnexpectedStatus(WaitStatus::Other)));
}

#[test]
fn a_thread_that_vanished_is_forgotten() {
    let (mut inferior, mut kernel) = started();
    kernel.gone = Some(PID);
    kernel.tells(WaitStatus::Stopped(OTHER, SIGSTOP));
    kernel.tells(WaitStatus::Exited(OTHER, 0));
    assert_eq!(run(&mut inferior, &mut kernel), Ok(Stop::Exited));
    assert_eq!(inferior.exit_code, None);
}

fn hit() -> (Inferior, Kernel) {
    let (mut inferior, mut kernel) = started();
    drive(&mut inferior, &mut kernel, |s, io| s.set_breakpoint(io, 0x1020, true)).unwrap();
    drive(&mut inferior, &mut kernel, |s, io| s.set_breakpoint(io, 0x1040, true)).unwrap();
    kernel.trap(PID, 0x1020);
    assert_eq!(run(&mut inferior, &mut kernel), Ok(Stop::Hit(PID, 0x1020)));
    kernel.log.clear();
    (inferior, kernel)
}

#[test]
fn a_thread_steps_past_a_breakpoint() {
    let (mut inferior, mut kernel) = hit();
    kernel.tells(WaitStatus::Stopped(PID, 10));
    kernel.statuses.push_back(Reply::Failed(EINTR));
    kernel.tells(WaitStatus::Stopped(PID, SIGTRAP));
    drive(&mut inferior, &mut kernel, |s, io| s.step_over(io, PID, 0x1020)).unwrap();
    assert_eq!(kernel.at(0x1020), 0xcc);
    assert_eq!(inferior.current_bp(), None);
    assert_eq!(inferior.threads[0].1.pending_signal, Some(10));
    let steps: Vec<Request> = kernel.log.iter().copied().filter(|q| matches!(q, Request::Step(_))).collect();
    assert_eq!(steps, vec![Request::Step(PID), Request::Step(PID)]);
    // While the thread steps, the byte that was there is in place.
    let first = kernel.log.iter().position(|q| matches!(q, Request::Step(_))).unwrap();
    match kernel.log[first - 1] {
        Request::WriteWord(PID, 0x1020, word) => assert_eq!(word as u8, (0x1020u64 % 251) as u8),
        _ => panic!("expected a write"),
    }
}

#[test]
fn a_step_can_go_wrong() {
    let (mut inferior, mut kernel) = hit();
    for _ in 0..64 {
        kernel.tells(WaitStatus::Event(PID, 7));
    }
    let r = drive(&mut inferior, &mut kernel, |s, io| s.step_over(io, PID, 0x1020));
    assert_eq!(r, Err(TraceError::NotStepped(PID, 0x1020)));

    let (mut inferior, mut kernel) = hit();
    kernel.tells(WaitStatus::Exited(PID, 4));
    drive(&mut inferior, &mut kernel, |s, io| s.step_over(io, PID, 0x1020)).unwrap();
    assert!(!inferior.is_alive());
    assert_eq!(inferior.exit_code, Some(4));

    let (mut inferior, mut kernel) = hit();
    kernel.tells(WaitStatus::Other);
    let r = drive(&mut inferior, &mut kernel, |s, io| s.step_over(io, PID, 0x1020));
    assert_eq!(r, Err(TraceError::UnexpectedStatus(WaitStatus::Other)));

    let (mut inferior, mut kernel) = hit();
    drive(&mut inferior, &mut kernel, |s, io| s.step_over(io, PID, 0x1050)).unwrap();
    drive(&mut inferior, &mut kernel, |s, io| s.step_over(io, OTHER, 0x1020)).unwrap();
    assert!(kernel.log.is_empty());
}

#[test]
fn a_thread_can_start_another_while_it_steps() {
    let (mut inferior, mut kernel) = hit();
    kernel.message = OTHER as i64;
    kernel.tells(WaitStatus::Event(PID, EVENT_CLONE));
    kernel.tells(WaitStatus::Stopped(PID, SIGTRAP));
    drive(&mut inferior, &mut kernel, |s, io| s.step_over(io, PID, 0x1020)).unwrap();
    assert_eq!(inferior.threads[1], (OTHER, Thread::newly_seen()));
    assert_eq!(inferior.peak_threads(), 2);
}

#[test]
fn a_function_is_called() {
    let (mut inferior, mut kernel) = hit();
    let before_memory = kernel.memory.clone();
    let before_regs = kernel.regs[&PID];
    let before_breakpoints = inferior.breakpoints.clone();
    // The function is entered, hits its own breakpoint once on the way, and returns.
    let stack = (0x8000u64 - 1024) & !0xf;
    kernel.statuses.push_back(Reply::Status(WaitStatus::Stopped(PID, SIGTRAP)));
    kernel.statuses.push_back(Reply::Status(WaitStatus::Stopped(PID, SIGTRAP)));
    kernel.statuses.push_back(Reply::Status(WaitStatus::Stopped(PID, SIGTRAP)));
    // What the thread does when it runs is to return at once the second time.
    let mut replies = vec![];
    let mut resumed = 0;
    let given = loop {
        let mut copy = inferior.copy();
        let mut io = Transcript::new(replies);
        match copy.call_function(&mut io, 0x4000, &vec![71, 72, 73]) {
            Ok(v) => {
                inferior = copy;
                break v;
            }
            Err(Halt::Failed(e)) => panic!("{e:?}"),
            Err(Halt::Waiting) => {
                let (open, known) = io.into_parts();
                replies = known;
                let q = open.unwrap();
                if let Request::Resume(PID, None) = q {
                    resumed += 1;
                    let regs = kernel.regs.get_mut(&PID).unwrap();
                    if resumed == 1 {
                        assert_eq!(regs.rip, 0x4000);
                        assert_eq!(regs.rsp, stack - 8);
                        assert_eq!((regs.rdi, regs.rsi, regs.rdx, regs.rcx), (71, 72, 73, 4));
                        assert_eq!(regs.rax, 0);
                        assert_eq!(kernel.memory[&0x1020], 0xcc);
                        assert_eq!(kernel.memory[&0x1040], (0x1040u64 % 251) as u8);
                        let slot: Vec<u8> = (0..8).map(|k| kernel.memory[&(stack - 8 + k)]).collect();
                        assert_eq!(slot, 0x1020u64.to_le_bytes());
                        regs.rip = 0x1021;
                        regs.rsp = stack - 64;
                    } else {
                        regs.rip = 0x1021;
                        regs.rsp = stack;
                        regs.rax = 1234;
                        regs.rdx = 5678;
                    }
                }
                replies.push(kernel.reply(q));
            }
        }
    };
    assert_eq!(given, (1234, 5678));
    assert_eq!(resumed, 2);
    assert_eq!(kernel.regs[&PID], before_regs);
    assert_eq!(inferior.breakpoints, before_breakpoints);
    assert!(inferior.call.is_none());
    for (a, b) in before_memory.iter() {
        if !(stack - 8..stack).contains(a) {
            assert_eq!(kernel.at(*a), *b);
        }
    }
    assert_eq!(kernel.log.last(), Some(&Request::SetRegs(PID, before_regs)));
}

#[test]
fn a_call_can_be_refused() {
    let call = |s: &mut Inferior, io: &mut Transcript, n: usize| s.call_function(io, 0x4000, &vec![0; n]);
    let (mut inferior, mut kernel) = hit();
    let r = drive(&mut inferior, &mut kernel, |s, io| call(s, io, MAX_CALL_ARGS + 1));
    assert_eq!(r, Err(TraceError::TooManyArgs));
    inferior.current_bp = None;
    assert_eq!(drive(&mut inferior, &mut kernel, |s, io| call(s, io, 0)), Err(TraceError::NoCurrentBreakpoint));
    inferior.current = None;
    assert_eq!(drive(&mut inferior, &mut kernel, |s, io| call(s, io, 0)), Err(TraceError::NoCurrentThread));
    let (mut inferior, mut kernel) = hit();
    inferior.threads[0].0 = OTHER;
    assert_eq!(drive(&mut inferior, &mut kernel, |s, io| call(s, io, 0)), Err(TraceError::ThreadGone(PID)));
    inferior.threads.clear();
    assert_eq!(drive(&mut inferior, &mut kernel, |s, io| call(s, io, 0)), Err(TraceError::TargetGone));
    assert!(kernel.log.is_empty());
}

#[test]
fn the_target_can_end_during_a_call() {
    let (mut inferior, mut kernel) = hit();
    kernel.tells(WaitStatus::Exited(PID, 9));
    let r = drive(&mut inferior, &mut kernel, |s, io| s.call_function(io, 0x4000, &vec![]));
    assert_eq!(r, Err(TraceError::ExitedDuringCall));
    assert_eq!(inferior.exit_code, Some(9));
    assert_eq!(kernel.at(0x1040), 0xcc);
}

#[test]
fn a_disarmed_breakpoint_is_armed_for_a_call_alone() {
    let (mut inferior, mut kernel) = hit();
    drive(&mut inferior, &mut kernel, |s, io| s.disarm(io, 0x1020)).unwrap();
    kernel.regs.get_mut(&PID).unwrap().rsp = 0x8000;
    kernel.tells(WaitStatus::Exited(PID, 9));
    let r = drive(&mut inferior, &mut kernel, |s, io| s.call_function(io, 0x4000, &vec![]));
    assert_eq!(r, Err(TraceError::ExitedDuringCall));
    assert_eq!(kernel.at(0x1020), (0x1020u64 % 251) as u8);
    assert!(!inferior.breakpoints[0].1.armed);
    assert!(kernel.log.iter().any(|q| matches!(q, Request::WriteWord(PID, 0x1020, w) if *w as u8 == 0xcc)));
}

#[test]
fn what_happens_during_a_call_may_be_worth_telling() {
    assert!(!worth_telling(WaitStatus::Event(PID, 3), PID));
    assert!(!worth_telling(WaitStatus::Stopped(OTHER, SIGSTOP), PID));
    assert!(!worth_telling(WaitStatus::Stopped(PID, SIGTRAP), PID));
    assert!(worth_telling(WaitStatus::Stopped(OTHER, SIGTRAP), PID));
    assert!(worth_telling(WaitStatus::Stopped(PID, 11), PID));
    assert!(worth_telling(WaitStatus::Exited(PID, 0), PID));
}

const MAPS: &str = "\
555555554000-555555556000 r--p 00000000 08:01 42      /usr/bin/demo-old\r\n\
7ffff7c00000-7ffff7c28000 r--p 00000000 08:01 43 /usr/bin/demo\n\
7ffff7c28000-7ffff7db0000 r-xp 00028000 08:01 43 /usr/bin/demo\n\
7ffffffde000-7ffffffff000 rw-p 00000000 00:00 0\t[stack]\n";

#[test]
fn the_load_base_is_that_of_the_first_mapping() {
    let mut inferior = Inferior::new(PID);
    assert_eq!(inferior.resolve_load_base(true, MAPS, Some("/usr/bin/demo")), Ok(0x7fff_f7c0_0000));
    assert_eq!(inferior.load_base(), 0x7fff_f7c0_0000);
    assert_eq!(inferior.resolve_load_base(true, MAPS, Some("/usr/bin/demo-old")), Ok(0x5555_5555_4000));
    assert_eq!(inferior.resolve_load_base(true, MAPS, Some("/none")), Err(LoadBaseError::NotFound));
    assert_eq!(inferior.resolve_load_base(true, MAPS, None), Err(LoadBaseError::NotFound));
    assert_eq!(inferior.load_base(), 0x5555_5555_4000);
    assert_eq!(inferior.resolve_load_base(false, "", None), Ok(0));
    assert_eq!(inferior.load_base(), 0);
}

#[test]
fn a_mapping_must_begin_with_an_address() {
    let mut inferior = Inferior::new(PID);
    let mut base = |line: &str| inferior.resolve_load_base(true, line, Some("/x"));
    assert_eq!(base("zz-1 a b c d /x"), Err(LoadBaseError::BadAddress));
    assert_eq!(base("-1 a b c d /x"), Err(LoadBaseError::BadAddress));
    assert_eq!(base("10000000000000000-1 a b c d /x"), Err(LoadBaseError::BadAddress));
    assert_eq!(base("ffffffffffffffff-1 a b c d /x"), Ok(u64::MAX));
    assert_eq!(base("+AbC-1 a b c d /x\r"), Ok(0xabc));
    assert_eq!(base("1-2 a b c /x"), Err(LoadBaseError::NotFound));
    assert_eq!(base("1-2 a b c d /x y"), Ok(1));
    assert_eq!(base("1-2\u{a0}a\u{3000}b c d /x"), Ok(1));
    assert_eq!(base("\n\n2-3 a b c d /x\n1-2 a b c d /x"), Ok(2));
}
