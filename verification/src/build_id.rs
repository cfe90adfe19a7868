//! Build IDs: how they are written, and whether metadata belongs to a binary.

use vstd::prelude::*;

use crate::meta::Metadata;
use crate::object_file::build_id_bytes;
use crate::object_file::object_build_id;
use crate::object_file::object_parses;
use crate::text::opt_text;
use crate::text::same_text;
use crate::text::Text;

verus! {

/// The hexadecimal digit of value `d`.
pub open spec fn hex_digit(d: u8) -> char {
    if d < 10 {
        (('0' as u32) + d) as char
    } else {
        (('a' as u32) + (d - 10)) as char
    }
}

/// Bytes as text: two lower-case hexadecimal digits each.
pub open spec fn hex_text(bytes: Seq<u8>) -> Text
    decreases bytes.len(),
{
    if bytes.len() == 0 {
        Seq::empty()
    } else {
        hex_text(bytes.drop_last()).push(hex_digit(bytes.last() / 16)).push(hex_digit(bytes.last() % 16))
    }
}

/// The hexadecimal digit of value `d`.
fn digit_char(d: u8) -> (r: char)
    requires
        d < 16,
    ensures
        r == hex_digit(d),
{
    if d < 10 {
        (48u8 + d) as char
    } else {
        (87u8 + d) as char
    }
}

/// Bytes as text: two lower-case hexadecimal digits each.
pub fn hex(bytes: &[u8]) -> (r: String)
    ensures
        r@ == hex_text(bytes@),
{
    let mut r: String = String::new();
    let mut i: usize = 0;
    while i < bytes.len()
        invariant
            i <= bytes.len(),
            r@ == hex_text(bytes@.take(i as int)),
        decreases bytes.len() - i,
    {
        let b: u8 = bytes[i];
        r.push(digit_char(b / 16));
        r.push(digit_char(b % 16));
        assert(bytes@.take(i + 1).drop_last() =~= bytes@.take(i as int));
        i += 1;
    }
    assert(bytes@.take(i as int) =~= bytes@);
    r
}

/// Two digits are the same only if their values are.
proof fn lemma_hex_digit(a: u8, b: u8)
    requires
        a < 16,
        b < 16,
        hex_digit(a) == hex_digit(b),
    ensures
        a == b,
{
}

/// The text of bytes has two characters for each.
proof fn lemma_hex_len(a: Seq<u8>)
    ensures
        hex_text(a).len() == 2 * a.len(),
    decreases a.len(),
{
    if a.len() > 0 {
        lemma_hex_len(a.drop_last());
    }
}

/// Bytes are told apart by their text, which has two characters for each.
pub proof fn law_hex_injective(a: Seq<u8>, b: Seq<u8>)
    ensures
        hex_text(a).len() == 2 * a.len(),
        hex_text(a) == hex_text(b) ==> a == b,
    decreases a.len(),
{
    lemma_hex_len(a);
    lemma_hex_len(b);
    if hex_text(a) == hex_text(b) {
        if a.len() == 0 || b.len() == 0 {
            assert(a =~= b);
        } else {
            let x = hex_text(a.drop_last());
            let y = hex_text(b.drop_last());
            let p = hex_text(a);
            let n = p.len() as int;
            assert(p[n - 1] == hex_digit(a.last() % 16) && p[n - 1] == hex_digit(b.last() % 16));
            assert(p[n - 2] == hex_digit(a.last() / 16) && p[n - 2] == hex_digit(b.last() / 16));
            lemma_hex_digit(a.last() % 16, b.last() % 16);
            lemma_hex_digit(a.last() / 16, b.last() / 16);
            assert(x =~= p.take(n - 2));
            assert(y =~= p.take(n - 2));
            law_hex_injective(a.drop_last(), b.drop_last());
            assert(a =~= a.drop_last().push(a.last()));
            assert(b =~= b.drop_last().push(b.last()));
        }
    }
}

/// Whether metadata belongs to a binary, by the build IDs of both.
pub enum BuildIdCheck {
    /// The metadata does not say which build it was made from.
    NotRecorded,
    /// It was made from this binary.
    Matches,
    /// It was made from another, whose build ID is not that of this binary.
    Differs(String),
    /// The binary has no build ID to compare with.
    Missing,
}

/// Whether metadata belongs to a binary, over the texts of the build IDs.
pub enum BuildIdCheckV {
    NotRecorded,
    Matches,
    Differs(Text),
    Missing,
}

impl View for BuildIdCheck {
    type V = BuildIdCheckV;

    open spec fn view(&self) -> BuildIdCheckV {
        match self {
            BuildIdCheck::NotRecorded => BuildIdCheckV::NotRecorded,
            BuildIdCheck::Matches => BuildIdCheckV::Matches,
            BuildIdCheck::Differs(actual) => BuildIdCheckV::Differs(actual@),
            BuildIdCheck::Missing => BuildIdCheckV::Missing,
        }
    }
}

/// What comparing the build ID that was recorded with that of a binary shows.
pub open spec fn compared(expected: Option<Text>, actual: Option<Seq<u8>>) -> BuildIdCheckV {
    match expected {
        None => BuildIdCheckV::NotRecorded,
        Some(expected) => match actual {
            None => BuildIdCheckV::Missing,
            Some(id) => if hex_text(id) == expected {
                BuildIdCheckV::Matches
            } else {
                BuildIdCheckV::Differs(hex_text(id))
            },
        },
    }
}

/// Compares the build ID that was recorded with that of a binary.
pub fn compare_build_id(expected: &Option<String>, actual: &Option<Vec<u8>>) -> (r: BuildIdCheck)
    ensures
        r@ == compared(
            opt_text(*expected),
            match actual {
                Some(id) => Some(id@),
                None => None,
            },
        ),
{
    match expected {
        None => BuildIdCheck::NotRecorded,
        Some(expected) => match actual {
            None => BuildIdCheck::Missing,
            Some(id) => {
                let actual: String = hex(id.as_slice());
                if same_text(actual.as_str(), expected.as_str()) {
                    BuildIdCheck::Matches
                } else {
                    BuildIdCheck::Differs(actual)
                }
            },
        },
    }
}

/// Finds out whether metadata belongs to a binary. A binary is only looked at where the metadata says
/// which build it was made from.
pub fn verify_build_id(data: &[u8], meta: &Metadata) -> (r: Result<BuildIdCheck, object::Error>)
    ensures
        r is Ok == (meta@.build_id is None || object_parses(data@)),
        r matches Ok(check) ==> check@ == compared(meta@.build_id, object_build_id(data@)),
{
    if meta.build_id.is_none() {
        return Ok(BuildIdCheck::NotRecorded);
    }
    match build_id_bytes(data) {
        Ok(actual) => Ok(compare_build_id(&meta.build_id, &actual)),
        Err(e) => Err(e),
    }
}

/// A build ID that was recorded matches itself and no other.
pub proof fn law_build_id_match(recorded: Seq<u8>, actual: Seq<u8>)
    ensures
        (compared(Some(hex_text(recorded)), Some(actual)) is Matches) == (recorded == actual),
{
    law_hex_injective(recorded, actual);
}

} // verus!
