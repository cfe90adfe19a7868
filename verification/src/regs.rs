//! The registers of a thread, by name.

use vstd::prelude::*;

use crate::text::same_text;
use crate::text::Text;

verus! {

/// The registers of a thread on x86-64, as the kernel hands them out.
#[derive(Debug, Clone, Copy, PartialEq, Eq, Structural)]
pub struct Regs {
    pub r15: u64,
    pub r14: u64,
    pub r13: u64,
    pub r12: u64,
    pub rbp: u64,
    pub rbx: u64,
    pub r11: u64,
    pub r10: u64,
    pub r9: u64,
    pub r8: u64,
    pub rax: u64,
    pub rcx: u64,
    pub rdx: u64,
    pub rsi: u64,
    pub rdi: u64,
    pub orig_rax: u64,
    pub rip: u64,
    pub cs: u64,
    pub eflags: u64,
    pub rsp: u64,
    pub ss: u64,
    pub fs_base: u64,
    pub gs_base: u64,
    pub ds: u64,
    pub es: u64,
    pub fs: u64,
    pub gs: u64,
}

impl Regs {
    /// What the register called `name` holds; none where no register is called that.
    pub open spec fn value_of(self, name: Text) -> Option<u64> {
        if name == "rdi"@ {
            Some(self.rdi)
        } else if name == "rsi"@ {
            Some(self.rsi)
        } else if name == "rdx"@ {
            Some(self.rdx)
        } else if name == "rcx"@ {
            Some(self.rcx)
        } else if name == "r8"@ {
            Some(self.r8)
        } else if name == "r9"@ {
            Some(self.r9)
        } else if name == "rax"@ {
            Some(self.rax)
        } else if name == "rbx"@ {
            Some(self.rbx)
        } else if name == "r10"@ {
            Some(self.r10)
        } else if name == "r11"@ {
            Some(self.r11)
        } else if name == "r12"@ {
            Some(self.r12)
        } else if name == "r13"@ {
            Some(self.r13)
        } else if name == "r14"@ {
            Some(self.r14)
        } else if name == "r15"@ {
            Some(self.r15)
        } else if name == "rsp"@ {
            Some(self.rsp)
        } else if name == "rbp"@ {
            Some(self.rbp)
        } else if name == "rip"@ {
            Some(self.rip)
        } else {
            None
        }
    }

    /// The registers with another value in the register called `name`; none where that register is not
    /// one of those that can be set.
    pub open spec fn with_value(self, name: Text, value: u64) -> Option<Regs> {
        if name == "rdi"@ {
            Some(Regs { rdi: value, ..self })
        } else if name == "rsi"@ {
            Some(Regs { rsi: value, ..self })
        } else if name == "rdx"@ {
            Some(Regs { rdx: value, ..self })
        } else if name == "rcx"@ {
            Some(Regs { rcx: value, ..self })
        } else if name == "r8"@ {
            Some(Regs { r8: value, ..self })
        } else if name == "r9"@ {
            Some(Regs { r9: value, ..self })
        } else if name == "rax"@ {
            Some(Regs { rax: value, ..self })
        } else if name == "rbx"@ {
            Some(Regs { rbx: value, ..self })
        } else {
            None
        }
    }

    /// What the register called `name` holds.
    pub fn get(&self, name: &str) -> (r: Option<u64>)
        ensures
            r == self.value_of(name@),
    {
        if same_text(name, "rdi") {
            Some(self.rdi)
        } else if same_text(name, "rsi") {
            Some(self.rsi)
        } else if same_text(name, "rdx") {
            Some(self.rdx)
        } else if same_text(name, "rcx") {
            Some(self.rcx)
        } else if same_text(name, "r8") {
            Some(self.r8)
        } else if same_text(name, "r9") {
            Some(self.r9)
        } else if same_text(name, "rax") {
            Some(self.rax)
        } else if same_text(name, "rbx") {
            Some(self.rbx)
        } else if same_text(name, "r10") {
            Some(self.r10)
        } else if same_text(name, "r11") {
            Some(self.r11)
        } else if same_text(name, "r12") {
            Some(self.r12)
        } else if same_text(name, "r13") {
            Some(self.r13)
        } else if same_text(name, "r14") {
            Some(self.r14)
        } else if same_text(name, "r15") {
            Some(self.r15)
        } else if same_text(name, "rsp") {
            Some(self.rsp)
        } else if same_text(name, "rbp") {
            Some(self.rbp)
        } else if same_text(name, "rip") {
            Some(self.rip)
        } else {
            None
        }
    }

    /// The registers with another value in the register called `name`.
    pub fn set(&self, name: &str, value: u64) -> (r: Option<Regs>)
        ensures
            r == self.with_value(name@, value),
    {
        if same_text(name, "rdi") {
            Some(Regs { rdi: value, ..*self })
        } else if same_text(name, "rsi") {
            Some(Regs { rsi: value, ..*self })
        } else if same_text(name, "rdx") {
            Some(Regs { rdx: value, ..*self })
        } else if same_text(name, "rcx") {
            Some(Regs { rcx: value, ..*self })
        } else if same_text(name, "r8") {
            Some(Regs { r8: value, ..*self })
        } else if same_text(name, "r9") {
            Some(Regs { r9: value, ..*self })
        } else if same_text(name, "rax") {
            Some(Regs { rax: value, ..*self })
        } else if same_text(name, "rbx") {
            Some(Regs { rbx: value, ..*self })
        } else {
            None
        }
    }

    /// The registers in the order in which they are shown, with their names.
    pub open spec fn listed(self) -> Seq<(Text, u64)> {
        seq![
            ("rdi"@, self.rdi),
            ("rsi"@, self.rsi),
            ("rdx"@, self.rdx),
            ("rcx"@, self.rcx),
            ("r8"@, self.r8),
            ("r9"@, self.r9),
            ("rax"@, self.rax),
            ("rbx"@, self.rbx),
            ("r10"@, self.r10),
            ("r11"@, self.r11),
            ("r12"@, self.r12),
            ("r13"@, self.r13),
            ("r14"@, self.r14),
            ("r15"@, self.r15),
            ("rsp"@, self.rsp),
            ("rbp"@, self.rbp),
            ("rip"@, self.rip),
        ]
    }

    /// The registers in the order in which they are shown, with their names.
    pub fn list(&self) -> (r: Vec<(&'static str, u64)>)
        ensures
            named_values(r@) == self.listed(),
    {
        let mut r: Vec<(&'static str, u64)> = Vec::new();
        r.push(("rdi", self.rdi));
        r.push(("rsi", self.rsi));
        r.push(("rdx", self.rdx));
        r.push(("rcx", self.rcx));
        r.push(("r8", self.r8));
        r.push(("r9", self.r9));
        r.push(("rax", self.rax));
        r.push(("rbx", self.rbx));
        r.push(("r10", self.r10));
        r.push(("r11", self.r11));
        r.push(("r12", self.r12));
        r.push(("r13", self.r13));
        r.push(("r14", self.r14));
        r.push(("r15", self.r15));
        r.push(("rsp", self.rsp));
        r.push(("rbp", self.rbp));
        r.push(("rip", self.rip));
        assert(named_values(r@) =~= self.listed());
        r
    }
}

/// Names and values, with the names by their views.
pub open spec fn named_values(list: Seq<(&'static str, u64)>) -> Seq<(Text, u64)> {
    list.map_values(|p: (&'static str, u64)| (p.0@, p.1))
}

/// No two names of registers are the same.
pub proof fn lemma_register_names()
    ensures
        "rdi"@.len() == 3 && "rdi"@[0] == 'r' && "rdi"@[1] == 'd' && "rdi"@[2] == 'i',
        "rsi"@.len() == 3 && "rsi"@[0] == 'r' && "rsi"@[1] == 's' && "rsi"@[2] == 'i',
        "rdx"@.len() == 3 && "rdx"@[0] == 'r' && "rdx"@[1] == 'd' && "rdx"@[2] == 'x',
        "rcx"@.len() == 3 && "rcx"@[0] == 'r' && "rcx"@[1] == 'c' && "rcx"@[2] == 'x',
        "r8"@.len() == 2 && "r8"@[0] == 'r' && "r8"@[1] == '8',
        "r9"@.len() == 2 && "r9"@[0] == 'r' && "r9"@[1] == '9',
        "rax"@.len() == 3 && "rax"@[0] == 'r' && "rax"@[1] == 'a' && "rax"@[2] == 'x',
        "rbx"@.len() == 3 && "rbx"@[0] == 'r' && "rbx"@[1] == 'b' && "rbx"@[2] == 'x',
        "r10"@.len() == 3 && "r10"@[0] == 'r' && "r10"@[1] == '1' && "r10"@[2] == '0',
        "r11"@.len() == 3 && "r11"@[0] == 'r' && "r11"@[1] == '1' && "r11"@[2] == '1',
        "r12"@.len() == 3 && "r12"@[0] == 'r' && "r12"@[1] == '1' && "r12"@[2] == '2',
        "r13"@.len() == 3 && "r13"@[0] == 'r' && "r13"@[1] == '1' && "r13"@[2] == '3',
        "r14"@.len() == 3 && "r14"@[0] == 'r' && "r14"@[1] == '1' && "r14"@[2] == '4',
        "r15"@.len() == 3 && "r15"@[0] == 'r' && "r15"@[1] == '1' && "r15"@[2] == '5',
        "rsp"@.len() == 3 && "rsp"@[0] == 'r' && "rsp"@[1] == 's' && "rsp"@[2] == 'p',
        "rbp"@.len() == 3 && "rbp"@[0] == 'r' && "rbp"@[1] == 'b' && "rbp"@[2] == 'p',
        "rip"@.len() == 3 && "rip"@[0] == 'r' && "rip"@[1] == 'i' && "rip"@[2] == 'p',
{
    reveal_strlit("rdi");
    reveal_strlit("rsi");
    reveal_strlit("rdx");
    reveal_strlit("rcx");
    reveal_strlit("r8");
    reveal_strlit("r9");
    reveal_strlit("rax");
    reveal_strlit("rbx");
    reveal_strlit("r10");
    reveal_strlit("r11");
    reveal_strlit("r12");
    reveal_strlit("r13");
    reveal_strlit("r14");
    reveal_strlit("r15");
    reveal_strlit("rsp");
    reveal_strlit("rbp");
    reveal_strlit("rip");
}

/// What is read of a register is what the register of that name holds, and there are no registers of
/// other names.
pub proof fn law_register_read(regs: Regs, name: Text)
    ensures
        regs.value_of("rdi"@) == Some(regs.rdi),
        regs.value_of("rsi"@) == Some(regs.rsi),
        regs.value_of("rdx"@) == Some(regs.rdx),
        regs.value_of("rcx"@) == Some(regs.rcx),
        regs.value_of("r8"@) == Some(regs.r8),
        regs.value_of("r9"@) == Some(regs.r9),
        regs.value_of("rax"@) == Some(regs.rax),
        regs.value_of("rbx"@) == Some(regs.rbx),
        regs.value_of("r10"@) == Some(regs.r10),
        regs.value_of("r11"@) == Some(regs.r11),
        regs.value_of("r12"@) == Some(regs.r12),
        regs.value_of("r13"@) == Some(regs.r13),
        regs.value_of("r14"@) == Some(regs.r14),
        regs.value_of("r15"@) == Some(regs.r15),
        regs.value_of("rsp"@) == Some(regs.rsp),
        regs.value_of("rbp"@) == Some(regs.rbp),
        regs.value_of("rip"@) == Some(regs.rip),
        regs.value_of(name) is Some ==> exists|i: int|
            0 <= i < regs.listed().len() && #[trigger] regs.listed()[i] == (name, regs.value_of(name).unwrap()),
{
    lemma_register_names();
    let list = regs.listed();
    assert(list[0] == ("rdi"@, regs.rdi));
    assert(list[1] == ("rsi"@, regs.rsi));
    assert(list[2] == ("rdx"@, regs.rdx));
    assert(list[3] == ("rcx"@, regs.rcx));
    assert(list[4] == ("r8"@, regs.r8));
    assert(list[5] == ("r9"@, regs.r9));
    assert(list[6] == ("rax"@, regs.rax));
    assert(list[7] == ("rbx"@, regs.rbx));
    assert(list[8] == ("r10"@, regs.r10));
    assert(list[9] == ("r11"@, regs.r11));
    assert(list[10] == ("r12"@, regs.r12));
    assert(list[11] == ("r13"@, regs.r13));
    assert(list[12] == ("r14"@, regs.r14));
    assert(list[13] == ("r15"@, regs.r15));
    assert(list[14] == ("rsp"@, regs.rsp));
    assert(list[15] == ("rbp"@, regs.rbp));
    assert(list[16] == ("rip"@, regs.rip));
}

/// Setting a register sets the register of that name and no other; those that a mod can set are the six
/// that arguments are passed in, the accumulator and the base register.
pub proof fn law_register_set(regs: Regs, name: Text, value: u64)
    ensures
        regs.with_value("rdi"@, value) == Some(Regs { rdi: value, ..regs }),
        regs.with_value("rsi"@, value) == Some(Regs { rsi: value, ..regs }),
        regs.with_value("rdx"@, value) == Some(Regs { rdx: value, ..regs }),
        regs.with_value("rcx"@, value) == Some(Regs { rcx: value, ..regs }),
        regs.with_value("r8"@, value) == Some(Regs { r8: value, ..regs }),
        regs.with_value("r9"@, value) == Some(Regs { r9: value, ..regs }),
        regs.with_value("rax"@, value) == Some(Regs { rax: value, ..regs }),
        regs.with_value("rbx"@, value) == Some(Regs { rbx: value, ..regs }),
        regs.with_value(name, value) is Some <==> (name == "rdi"@ || name == "rsi"@ || name == "rdx"@ || name == "rcx"@
            || name == "r8"@ || name == "r9"@ || name == "rax"@ || name == "rbx"@),
{
    lemma_register_names();
}

/// What is shown of the registers is what is read of them, each by its name: the six that arguments are
/// passed in first, in the order in which they are.
pub proof fn law_registers_shown(regs: Regs, i: int)
    requires
        0 <= i < regs.listed().len(),
    ensures
        regs.value_of(regs.listed()[i].0) == Some(regs.listed()[i].1),
        i < 6 ==> regs.listed()[i].0 == argument_register(i),
        forall|j: int| 0 <= j < i ==> (#[trigger] regs.listed()[j]).0 != regs.listed()[i].0,
{
    lemma_register_names();
    law_register_read(regs, regs.listed()[i].0);
}

/// The register in which a function is passed its integer argument number `k`, counted from zero, in
/// the calling convention of the System V ABI.
pub open spec fn argument_register(k: int) -> Text {
    if k == 0 {
        "rdi"@
    } else if k == 1 {
        "rsi"@
    } else if k == 2 {
        "rdx"@
    } else if k == 3 {
        "rcx"@
    } else if k == 4 {
        "r8"@
    } else {
        "r9"@
    }
}

/// A register that was set holds the new value, and every other holds what it held.
pub proof fn law_set_get(regs: Regs, name: Text, value: u64, other: Text)
    requires
        regs.with_value(name, value) is Some,
    ensures
        regs.with_value(name, value).unwrap().value_of(name) == Some(value),
        other != name ==> regs.with_value(name, value).unwrap().value_of(other) == regs.value_of(other),
        regs.with_value(name, value).unwrap().rip == regs.rip,
        regs.with_value(name, value).unwrap().rsp == regs.rsp,
{
}

} // verus!
