//! What is told of an extraction, and of registers.

use vstd::prelude::*;

use crate::maps::hex_digit;
use crate::maps::hex_value;
use crate::maps::parsed_hex;
use crate::meta::FunctionV;
use crate::meta::Metadata;
use crate::meta::MetadataV;
use crate::regs::named_values;
use crate::text::join;
use crate::text::joined;
use crate::text::texts;
use crate::text::Text;
use crate::walk::Stats;
use crate::walk::StatsV;

verus! {

/// What is told of an extraction.
pub struct Summary {
    pub dwarf_versions: Vec<u16>,
    pub subprograms_seen: usize,
    pub functions_kept: usize,
    pub with_address: usize,
    pub filtered_out: usize,
    pub variables_seen: usize,
    pub variables_kept: usize,
    /// Names that did not pass the filter, where none passed.
    pub samples: Vec<String>,
}

#[verifier::ext_equal]
pub struct SummaryV {
    pub dwarf_versions: Seq<u16>,
    pub subprograms_seen: nat,
    pub functions_kept: nat,
    pub with_address: nat,
    pub filtered_out: nat,
    pub variables_seen: nat,
    pub variables_kept: nat,
    pub samples: Seq<Text>,
}

impl View for Summary {
    type V = SummaryV;

    open spec fn view(&self) -> SummaryV {
        SummaryV {
            dwarf_versions: self.dwarf_versions@,
            subprograms_seen: self.subprograms_seen as nat,
            functions_kept: self.functions_kept as nat,
            with_address: self.with_address as nat,
            filtered_out: self.filtered_out as nat,
            variables_seen: self.variables_seen as nat,
            variables_kept: self.variables_kept as nat,
            samples: texts(self.samples@),
        }
    }
}

/// How many functions have code of their own.
pub open spec fn with_code(functions: Seq<FunctionV>) -> nat
    decreases functions.len(),
{
    if functions.len() == 0 {
        0
    } else {
        with_code(functions.drop_last()) + (if functions.last().address is Some {
            1nat
        } else {
            0
        })
    }
}

/// What is told of an extraction.
pub open spec fn summary_of(stats: StatsV, meta: MetadataV) -> SummaryV {
    SummaryV {
        dwarf_versions: stats.dwarf_versions,
        subprograms_seen: stats.subprograms_seen as nat,
        functions_kept: meta.functions.len(),
        with_address: with_code(meta.functions),
        filtered_out: stats.filtered_out as nat,
        variables_seen: stats.variables_seen as nat,
        variables_kept: meta.variables.len(),
        samples: if meta.functions.len() == 0 {
            stats.filtered_samples
        } else {
            Seq::empty()
        },
    }
}

/// A copy of a list of numbers.
fn copy_versions(list: &Vec<u16>) -> (r: Vec<u16>)
    ensures
        r@ == list@,
{
    let mut r: Vec<u16> = Vec::new();
    r.extend_from_slice(list.as_slice());
    assert(r@ =~= list@);
    r
}

/// A copy of a list of strings.
fn copy_texts(list: &Vec<String>) -> (r: Vec<String>)
    ensures
        texts(r@) == texts(list@),
{
    let ghost all = texts(list@);
    let mut r: Vec<String> = Vec::new();
    let mut i: usize = 0;
    assert(texts(r@) =~= all.take(0));
    while i < list.len()
        invariant
            i <= list.len(),
            all == texts(list@),
            texts(r@) == all.take(i as int),
        decreases list.len() - i,
    {
        let ghost now = texts(r@);
        r.push(list[i].clone());
        proof {
            assert(texts(r@) =~= now.push(all[i as int]));
            assert(all.take(i + 1) =~= all.take(i as int).push(all[i as int]));
        }
        i += 1;
    }
    assert(all.take(i as int) =~= all);
    r
}

/// How many functions have code of their own.
fn count_with_code(meta: &Metadata) -> (r: usize)
    ensures
        r == with_code(meta@.functions),
{
    let ghost all = meta@.functions;
    let mut n: usize = 0;
    let mut i: usize = 0;
    while i < meta.functions.len()
        invariant
            i <= meta.functions.len(),
            all == meta@.functions,
            n <= i,
            n == with_code(all.take(i as int)),
        decreases meta.functions.len() - i,
    {
        assert(all.take(i + 1).drop_last() =~= all.take(i as int));
        if meta.functions[i].address.is_some() {
            n += 1;
        }
        i += 1;
    }
    assert(all.take(i as int) =~= all);
    n
}

impl Stats {
    /// What is told of an extraction; nothing but that there is none, where the binary has no debug
    /// information.
    pub fn report(&self, meta: &Metadata) -> (r: Option<Summary>)
        ensures
            match r {
                Some(summary) => self@.has_debug_info && summary@ == summary_of(self@, meta@),
                None => !self@.has_debug_info,
            },
    {
        if !self.has_debug_info {
            return None;
        }
        let samples: Vec<String> = if meta.functions.len() == 0 {
            copy_texts(&self.filtered_samples)
        } else {
            Vec::new()
        };
        let summary = Summary {
            dwarf_versions: copy_versions(&self.dwarf_versions),
            subprograms_seen: self.subprograms_seen,
            functions_kept: meta.functions.len(),
            with_address: count_with_code(meta),
            filtered_out: self.filtered_out,
            variables_seen: self.variables_seen,
            variables_kept: meta.variables.len(),
            samples,
        };
        assert(summary@ =~= summary_of(self@, meta@));
        Some(summary)
    }
}

// ---- registers ----

/// The hexadecimal digit of some value.
pub open spec fn hex_char(d: nat) -> char {
    if d < 10 {
        ('0' as u32 + d) as char
    } else {
        ('a' as u32 + (d - 10)) as char
    }
}

/// The hexadecimal numeral of a number, without leading zeros.
pub open spec fn hexadecimal(n: nat) -> Text
    decreases n,
{
    if n < 16 {
        seq![hex_char(n)]
    } else {
        hexadecimal(n / 16).push(hex_char(n % 16))
    }
}

/// A register as it is shown.
pub open spec fn shown(name: Text, value: u64) -> Text {
    name + "=0x"@ + hexadecimal(value as nat)
}

/// Registers as they are shown, in a line.
pub open spec fn shown_in_line(list: Seq<(Text, u64)>) -> Text {
    joined(list.map_values(|p: (Text, u64)| shown(p.0, p.1)), " "@)
}

/// Appends a hexadecimal numeral.
fn push_hex(out: &mut String, n: u64)
    ensures
        final(out)@ == old(out)@ + hexadecimal(n as nat),
    decreases n,
{
    if n >= 16 {
        push_hex(out, n / 16);
    }
    let d: u8 = (n % 16) as u8;
    if d < 10 {
        out.push((48u8 + d) as char);
    } else {
        out.push((87u8 + d) as char);
    }
    assert(out@ =~= old(out)@ + hexadecimal(n as nat));
}

/// Registers as they are shown, in a line.
pub fn regs_line(list: &Vec<(&'static str, u64)>) -> (r: String)
    ensures
        r@ == shown_in_line(named_values(list@)),
{
    let ghost all = named_values(list@).map_values(|p: (Text, u64)| shown(p.0, p.1));
    let mut parts: Vec<String> = Vec::new();
    let mut i: usize = 0;
    assert(texts(parts@) =~= all.take(0));
    while i < list.len()
        invariant
            i <= list.len(),
            all == named_values(list@).map_values(|p: (Text, u64)| shown(p.0, p.1)),
            texts(parts@) == all.take(i as int),
        decreases list.len() - i,
    {
        let ghost now = texts(parts@);
        let mut part: String = list[i].0.to_string();
        part.append("=0x");
        push_hex(&mut part, list[i].1);
        parts.push(part);
        proof {
            assert(texts(parts@) =~= now.push(all[i as int]));
            assert(all.take(i + 1) =~= all.take(i as int).push(all[i as int]));
        }
        i += 1;
    }
    assert(all.take(i as int) =~= all);
    join(&parts, " ")
}

/// Reading a hexadecimal numeral gives back the number that it was written for.
pub proof fn law_hexadecimal(n: u64)
    ensures
        parsed_hex(hexadecimal(n as nat)) == Some(n),
{
    lemma_hexadecimal(n as nat);
}

/// Reading a hexadecimal numeral gives back the number that it was written for.
proof fn lemma_hexadecimal(n: nat)
    ensures
        hexadecimal(n).len() > 0,
        hexadecimal(n)[0] != '+',
        hex_value(hexadecimal(n)) == Some(n as int),
    decreases n,
{
    if n < 16 {
        assert(hexadecimal(n).drop_last() =~= Seq::<char>::empty());
        assert(hex_value(Seq::<char>::empty()) == Some(0int));
        assert(hex_digit(hex_char(n)) == Some(n as int));
    } else {
        lemma_hexadecimal(n / 16);
        assert(hexadecimal(n).drop_last() =~= hexadecimal(n / 16));
        assert(hex_digit(hex_char(n % 16)) == Some((n % 16) as int));
        assert(hexadecimal(n)[0] == hexadecimal(n / 16)[0]);
    }
}

} // verus!
