//! Where a parameter lies when its function is entered: in registers, or in memory that a register
//! points at.

use vstd::prelude::*;

use crate::text::chars_of;
use crate::text::decimal;
use crate::text::is_digit;
use crate::text::join;
use crate::text::joined;
use crate::text::law_signed_decimal_roundtrip;
use crate::text::lemma_decimal_roundtrip;
use crate::text::parse_i64;
use crate::text::parsed_i64;
use crate::text::push_signed;
use crate::text::signed_decimal;
use crate::text::string_of;
use crate::text::texts;
use crate::text::Text;

verus! {

/// One operation of a location expression, as far as it is told apart here.
#[derive(Clone, Copy, PartialEq, Eq, Structural)]
pub enum DwarfOp {
    /// The value is in a register.
    Register(u16),
    /// The value is in memory, at an offset from what a register holds.
    RegisterOffset(u16, i64),
    /// The operations since the last piece describe a part of the value.
    Piece,
    /// The value is at a fixed address.
    Address(u64),
    /// The value is at an address of the unit's address table.
    AddressIndex(usize),
    /// Anything else.
    Other,
}

/// The name of an x86-64 register, by its number in debug information.
pub open spec fn reg_name(n: u16) -> Option<Text> {
    match n {
        0u16 => Some("rax"@),
        1u16 => Some("rdx"@),
        2u16 => Some("rcx"@),
        3u16 => Some("rbx"@),
        4u16 => Some("rsi"@),
        5u16 => Some("rdi"@),
        6u16 => Some("rbp"@),
        7u16 => Some("rsp"@),
        8u16 => Some("r8"@),
        9u16 => Some("r9"@),
        10u16 => Some("r10"@),
        11u16 => Some("r11"@),
        12u16 => Some("r12"@),
        13u16 => Some("r13"@),
        14u16 => Some("r14"@),
        15u16 => Some("r15"@),
        16u16 => Some("rip"@),
        _ => None,
    }
}

/// The name of an x86-64 register, by the number that the psABI gives it in debug information.
pub fn dwarf_reg_name(n: u16) -> (r: Option<String>)
    ensures
        crate::text::opt_text(r) == reg_name(n),
{
    let name: &str = match n {
        0 => "rax",
        1 => "rdx",
        2 => "rcx",
        3 => "rbx",
        4 => "rsi",
        5 => "rdi",
        6 => "rbp",
        7 => "rsp",
        8 => "r8",
        9 => "r9",
        10 => "r10",
        11 => "r11",
        12 => "r12",
        13 => "r13",
        14 => "r14",
        15 => "r15",
        16 => "rip",
        _ => return None,
    };
    Some(name.to_string())
}

/// The text for memory at `offset` from what the register called `name` holds: `[rsp+16]`, `[rdi]`.
pub open spec fn indirect_text(name: Text, offset: int) -> Text {
    if offset == 0 {
        seq!['['] + name + seq![']']
    } else {
        seq!['['] + name + signed_decimal(offset) + seq![']']
    }
}

/// The operations that could be read, each or nothing.
pub open spec fn readable(ops: Seq<Result<DwarfOp, gimli::Error>>) -> Seq<Option<DwarfOp>> {
    ops.map_values(|o: Result<DwarfOp, gimli::Error>| o.ok())
}

/// The places that a location expression names, one after the other, up to the first operation that
/// could not be read. None where the expression holds anything but registers, memory that a known
/// register points at, and pieces. A register without a name is passed over.
pub open spec fn places(ops: Seq<Option<DwarfOp>>) -> Option<Seq<Text>>
    decreases ops.len(),
{
    if ops.len() == 0 || ops[0] is None {
        Some(Seq::empty())
    } else {
        let rest = places(ops.drop_first());
        let here: Option<Seq<Text>> = match ops[0].unwrap() {
            DwarfOp::Register(n) => match reg_name(n) {
                Some(name) => Some(seq![name]),
                None => Some(Seq::empty()),
            },
            DwarfOp::Piece => Some(Seq::empty()),
            DwarfOp::RegisterOffset(n, offset) => match reg_name(n) {
                Some(name) => Some(seq![indirect_text(name, offset as int)]),
                None => None,
            },
            _ => None,
        };
        match (here, rest) {
            (Some(a), Some(b)) => Some(a + b),
            _ => None,
        }
    }
}

/// The text for where a parameter lies on entry: its places, separated by colons. None where there
/// is no place, or the expression cannot be told in these terms.
pub open spec fn entry_text(ops: Seq<Option<DwarfOp>>) -> Option<Text> {
    match places(ops) {
        Some(list) => if list.len() == 0 {
            None
        } else {
            Some(joined(list, ":"@))
        },
        None => None,
    }
}

/// The text for where a parameter lies on entry, from the operations of its location expression.
pub fn expr_entry_reg(ops: &Vec<Result<DwarfOp, gimli::Error>>) -> (r: Option<String>)
    ensures
        crate::text::opt_text(r) == entry_text(readable(ops@)),
{
    let ghost all = readable(ops@);
    let mut regs: Vec<String> = Vec::new();
    let mut i: usize = 0;
    let mut done: bool = false;
    assert(all.skip(0) =~= all);
    while i < ops.len() && !done
        invariant
            i <= ops.len(),
            all == readable(ops@),
            all.len() == ops.len(),
            !done ==> (places(all) == match places(all.skip(i as int)) {
                Some(rest) => Some(texts(regs@) + rest),
                None => None,
            }),
            done ==> places(all) == Some(texts(regs@)),
        decreases ops.len() - i, (if done { 0int } else { 1int }),
    {
        let ghost before = texts(regs@);
        let ghost rest = all.skip(i as int);
        assert(rest[0] == ops@[i as int].ok());
        assert(rest.drop_first() =~= all.skip(i + 1));
        match &ops[i] {
            Ok(DwarfOp::Register(n)) => {
                if let Some(name) = dwarf_reg_name(*n) {
                    regs.push(name);
                    assert(texts(regs@) =~= before.push(name@));
                }
            },
            Ok(DwarfOp::Piece) => {},
            Ok(DwarfOp::RegisterOffset(n, offset)) => {
                match dwarf_reg_name(*n) {
                    Some(name) => {
                        let mut t: String = String::new();
                        t.push('[');
                        t.append(name.as_str());
                        if *offset != 0 {
                            push_signed(&mut t, *offset);
                        }
                        t.push(']');
                        assert(t@ =~= indirect_text(name@, *offset as int));
                        regs.push(t);
                        assert(texts(regs@) =~= before.push(t@));
                    },
                    None => {
                        return None;
                    },
                }
            },
            Ok(_) => {
                return None;
            },
            Err(_) => {
                done = true;
                assert(texts(regs@) + Seq::<Text>::empty() =~= texts(regs@));
            },
        }
        if !done {
            proof {
                if places(all.skip(i + 1)) is Some {
                    let tail = places(all.skip(i + 1)).unwrap();
                    let now = texts(regs@);
                    assert(before.len() <= now.len());
                    assert(now =~= before + now.skip(before.len() as int));
                    assert(now + tail =~= before + (now.skip(before.len() as int) + tail));
                    if now.len() == before.len() {
                        assert(now.skip(before.len() as int) =~= Seq::<Text>::empty());
                    } else {
                        assert(now.skip(before.len() as int) =~= seq![now.last()]);
                    }
                }
            }
            i += 1;
        }
    }
    proof {
        if !done {
            assert(all.skip(i as int) =~= Seq::<Option<DwarfOp>>::empty());
            assert(texts(regs@) + Seq::<Text>::empty() =~= texts(regs@));
        }
    }
    if regs.len() == 0 {
        None
    } else {
        Some(join(&regs, ":"))
    }
}

// ---- reading the text back ----

/// Whether the first sign in `s` stands at `i`.
pub open spec fn sign_at(s: Text, i: int) -> bool {
    &&& 0 <= i < s.len()
    &&& s[i] == '+' || s[i] == '-'
    &&& forall|j: int| 0 <= j < i ==> s[j] != '+' && s[j] != '-'
}

/// The register and the offset that a text such as `[rsp+16]` names. None where the text is not in
/// brackets, or what follows the register's name is not a number of 64 bits.
pub open spec fn parsed_indirect(spec: Text) -> Option<(Text, i64)> {
    if spec.len() >= 2 && spec[0] == '[' && spec.last() == ']' {
        let inner = spec.subrange(1, spec.len() - 1);
        if exists|i: int| sign_at(inner, i) {
            let i = choose|i: int| sign_at(inner, i);
            match parsed_i64(inner.skip(i)) {
                Some(n) => Some((inner.take(i), n)),
                None => None,
            }
        } else {
            Some((inner, 0i64))
        }
    } else {
        None
    }
}

/// The register and the offset that a text such as `[rsp+16]` names.
pub fn parse_indirect(spec: &str) -> (r: Option<(String, i64)>)
    ensures
        (match r {
            Some((reg, off)) => Some((reg@, off)),
            None => None,
        }) == parsed_indirect(spec@),
{
    let v: Vec<char> = chars_of(spec);
    if v.len() < 2 || v[0] != '[' || v[v.len() - 1] != ']' {
        return None;
    }
    let end: usize = v.len() - 1;
    let ghost inner = v@.subrange(1, end as int);
    let mut i: usize = 1;
    while i < end && v[i] != '+' && v[i] != '-'
        invariant
            1 <= i <= end,
            end == v.len() - 1,
            inner == v@.subrange(1, end as int),
            forall|j: int| 0 <= j < i - 1 ==> inner[j] != '+' && inner[j] != '-',
        decreases end - i,
    {
        i += 1;
    }
    if i == end {
        assert(forall|k: int| !sign_at(inner, k));
        return Some((string_of(&v, 1, end), 0));
    }
    proof {
        assert(sign_at(inner, i - 1));
        let k = choose|k: int| sign_at(inner, k);
        assert(k == i - 1);
        assert(inner.take(i - 1) =~= v@.subrange(1, i as int));
    }
    let tail: String = string_of(&v, i, end);
    let t: Vec<char> = chars_of(tail.as_str());
    assert(t@.skip(0) =~= inner.skip(i - 1));
    match parse_i64(&t, 0) {
        Some(n) => Some((string_of(&v, 1, i), n)),
        None => None,
    }
}

/// What stands in `s` before the first colon.
pub open spec fn first_place(s: Text) -> Text
    decreases s.len(),
{
    if s.len() == 0 || s[0] == ':' {
        Seq::empty()
    } else {
        seq![s[0]] + first_place(s.drop_first())
    }
}

/// How the value of a parameter is got from a register.
pub enum ArgSource {
    /// It is what the register holds.
    Held(String),
    /// It is in memory, at an offset from what the register holds.
    Pointed(String, i64),
}

/// How the value of a parameter is got from a register, over the register's name.
pub enum ArgSourceV {
    Held(Text),
    Pointed(Text, i64),
}

impl View for ArgSource {
    type V = ArgSourceV;

    open spec fn view(&self) -> ArgSourceV {
        match self {
            ArgSource::Held(reg) => ArgSourceV::Held(reg@),
            ArgSource::Pointed(reg, off) => ArgSourceV::Pointed(reg@, *off),
        }
    }
}

/// How a parameter's value is got, from the text for where it lies on entry: by the first place.
pub open spec fn source_of(entry: Text) -> ArgSourceV {
    let first = first_place(entry);
    match parsed_indirect(first) {
        Some((reg, off)) => ArgSourceV::Pointed(reg, off),
        None => ArgSourceV::Held(first),
    }
}

/// How a parameter's value is got, from the text for where it lies on entry.
pub fn arg_source(entry: &str) -> (r: ArgSource)
    ensures
        r@ == source_of(entry@),
{
    let v: Vec<char> = chars_of(entry);
    let mut i: usize = 0;
    assert(v@.skip(0) =~= v@);
    assert(v@.take(0) + first_place(v@) =~= first_place(v@));
    while i < v.len() && v[i] != ':'
        invariant
            i <= v.len(),
            first_place(v@) == v@.take(i as int) + first_place(v@.skip(i as int)),
        decreases v.len() - i,
    {
        assert(v@.skip(i as int).drop_first() =~= v@.skip(i + 1));
        assert(v@.take(i as int) + (seq![v@[i as int]] + first_place(v@.skip(i + 1))) =~= v@.take(i + 1)
            + first_place(v@.skip(i + 1)));
        i += 1;
    }
    assert(v@.take(i as int) + Seq::<char>::empty() =~= v@.subrange(0, i as int));
    let first: String = string_of(&v, 0, i);
    match parse_indirect(first.as_str()) {
        Some((reg, off)) => ArgSource::Pointed(reg, off),
        None => ArgSource::Held(first),
    }
}

// ---- laws ----

/// The first operation that names a place.
pub open spec fn first_named(ops: Seq<Option<DwarfOp>>) -> Option<DwarfOp>
    decreases ops.len(),
{
    if ops.len() == 0 || ops[0] is None {
        None
    } else {
        match ops[0].unwrap() {
            DwarfOp::Register(n) => if reg_name(n) is Some {
                ops[0]
            } else {
                first_named(ops.drop_first())
            },
            DwarfOp::Piece => first_named(ops.drop_first()),
            _ => ops[0],
        }
    }
}

/// Register names are plain words: no bracket, sign or colon stands in them.
proof fn lemma_reg_name_plain(n: u16)
    requires
        reg_name(n) is Some,
    ensures
        reg_name(n).unwrap().len() > 0,
        forall|i: int|
            0 <= i < reg_name(n).unwrap().len() ==> {
                let c = #[trigger] reg_name(n).unwrap()[i];
                c != '[' && c != ']' && c != '+' && c != '-' && c != ':'
            },
{
    reveal_strlit("rax");
    reveal_strlit("rdx");
    reveal_strlit("rcx");
    reveal_strlit("rbx");
    reveal_strlit("rsi");
    reveal_strlit("rdi");
    reveal_strlit("rbp");
    reveal_strlit("rsp");
    reveal_strlit("r8");
    reveal_strlit("r9");
    reveal_strlit("r10");
    reveal_strlit("r11");
    reveal_strlit("r12");
    reveal_strlit("r13");
    reveal_strlit("r14");
    reveal_strlit("r15");
    reveal_strlit("rip");
}

/// Reading the text for memory that a register points at gives back the register and the offset.
pub proof fn law_indirect_roundtrip(n: u16, offset: i64)
    requires
        reg_name(n) is Some,
    ensures
        parsed_indirect(indirect_text(reg_name(n).unwrap(), offset as int)) == Some(
            (reg_name(n).unwrap(), offset),
        ),
{
    let name = reg_name(n).unwrap();
    let t = indirect_text(name, offset as int);
    let inner = t.subrange(1, t.len() - 1);
    lemma_reg_name_plain(n);
    if offset == 0 {
        assert(inner =~= name);
        assert(forall|i: int| !sign_at(inner, i));
    } else {
        let sd = signed_decimal(offset as int);
        law_signed_decimal_roundtrip(offset);
        assert(sd[0] == '+' || sd[0] == '-');
        assert(inner =~= name + sd);
        assert(sign_at(inner, name.len() as int));
        let k = choose|k: int| sign_at(inner, k);
        assert(k == name.len()) by {
            if k < name.len() {
                assert(inner[k] == name[k]);
            }
            if k > name.len() {
                assert(inner[name.len() as int] == sd[0]);
            }
        }
        assert(inner.take(k) =~= name);
        assert(inner.skip(k) =~= sd);
    }
}

/// A text without a colon is its own first place, whatever follows after a colon.
proof fn lemma_first_place(a: Text, rest: Text)
    requires
        forall|i: int| 0 <= i < a.len() ==> a[i] != ':',
        rest.len() > 0 ==> rest[0] == ':',
    ensures
        first_place(a + rest) == a,
    decreases a.len(),
{
    if a.len() == 0 {
        assert(a + rest =~= rest);
        assert(a =~= Seq::<char>::empty());
    } else {
        assert((a + rest).drop_first() =~= a.drop_first() + rest);
        lemma_first_place(a.drop_first(), rest);
        assert(seq![a[0]] + a.drop_first() =~= a);
    }
}

/// A joined list begins with its first element, and the separator follows where there is more.
proof fn lemma_joined_begins(parts: Seq<Text>) -> (rest: Text)
    requires
        parts.len() > 0,
    ensures
        joined(parts, ":"@) == parts[0] + rest,
        rest.len() > 0 ==> rest[0] == ':',
    decreases parts.len(),
{
    reveal_strlit(":");
    if parts.len() == 1 {
        assert(parts[0] + Seq::<char>::empty() =~= parts[0]);
        Seq::empty()
    } else {
        let rest = lemma_joined_begins(parts.drop_last());
        let more = rest + ":"@ + parts.last();
        assert(joined(parts, ":"@) =~= parts[0] + more);
        more
    }
}

/// The first place of a location expression comes from its first operation that names one.
proof fn lemma_first_named(ops: Seq<Option<DwarfOp>>)
    requires
        places(ops) is Some,
    ensures
        places(ops).unwrap().len() > 0 <==> first_named(ops) is Some,
        match first_named(ops) {
            Some(DwarfOp::Register(n)) => reg_name(n) is Some && places(ops).unwrap()[0] == reg_name(n).unwrap(),
            Some(DwarfOp::RegisterOffset(n, off)) => reg_name(n) is Some && places(ops).unwrap()[0]
                == indirect_text(reg_name(n).unwrap(), off as int),
            Some(_) => false,
            None => true,
        },
    decreases ops.len(),
{
    if ops.len() > 0 && ops[0] is Some {
        lemma_first_named(ops.drop_first());
        let rest = places(ops.drop_first()).unwrap();
        assert(Seq::<Text>::empty() + rest =~= rest);
    }
}

/// What is read back of the text for where a parameter lies is what the location expression says
/// first: the register that holds the value, or the register that points at it and the offset.
pub proof fn law_entry_text_source(ops: Seq<Option<DwarfOp>>)
    requires
        entry_text(ops) is Some,
    ensures
        match first_named(ops) {
            Some(DwarfOp::Register(n)) => source_of(entry_text(ops).unwrap()) == ArgSourceV::Held(
                reg_name(n).unwrap(),
            ),
            Some(DwarfOp::RegisterOffset(n, off)) => source_of(entry_text(ops).unwrap())
                == ArgSourceV::Pointed(reg_name(n).unwrap(), off),
            _ => false,
        },
{
    let list = places(ops).unwrap();
    lemma_first_named(ops);
    let rest = lemma_joined_begins(list);
    match first_named(ops) {
        Some(DwarfOp::Register(n)) => {
            lemma_reg_name_plain(n);
            lemma_first_place(list[0], rest);
            assert(list[0][0] != '[');
        },
        Some(DwarfOp::RegisterOffset(n, off)) => {
            let name = reg_name(n).unwrap();
            lemma_reg_name_plain(n);
            law_indirect_roundtrip(n, off);
            let m: nat = if off < 0 { (-off) as nat } else { off as nat };
            lemma_decimal_roundtrip(m);
            let d = decimal(m);
            assert forall|i: int| 0 <= i < list[0].len() implies list[0][i] != ':' by {
                if 1 <= i <= name.len() {
                    assert(list[0][i] == name[i - 1]);
                } else if off != 0 && name.len() + 2 <= i < list[0].len() - 1 {
                    assert(list[0][i] == d[i - name.len() - 2]);
                    assert(is_digit(d[i - name.len() - 2]));
                }
            }
            lemma_first_place(list[0], rest);
        },
        _ => {},
    }
}

} // verus!
