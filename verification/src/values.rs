//! Values of the target's memory: how bytes are read as numbers, and numbers are put as bytes.

use vstd::prelude::*;

use crate::meta::ScalarKind;
use crate::words::from_bytes;
use crate::words::law_word_of_bytes;
use crate::words::le_bytes;
use crate::words::le_word;
use crate::words::signed;
use crate::words::to_bytes;
use crate::words::to_signed;

verus! {

/// What bytes are read as. A floating-point number stands as its bits.
#[derive(Debug, Clone, Copy, PartialEq, Eq, Structural)]
pub enum Scalar {
    Int(i64),
    Bool(bool),
    Single(u32),
    Double(u64),
}

/// The first eight bytes, with zeros where there are fewer.
pub open spec fn padded(bytes: Seq<u8>) -> Seq<u8> {
    Seq::new(
        8,
        |k: int|
            if k < bytes.len() {
                bytes[k]
            } else {
                0u8
            },
    )
}

/// The word that the first eight bytes make, with zeros where there are fewer.
pub open spec fn word_of(bytes: Seq<u8>) -> u64 {
    le_word(padded(bytes))
}

/// The low byte of a word, as a number with a sign.
pub open spec fn signed_byte(w: u64) -> i64 {
    let low = w % 0x100;
    if low < 0x80 {
        low as i64
    } else {
        (low - 0x100) as i64
    }
}

/// The low half of a word, as a number with a sign.
pub open spec fn signed_half(w: u64) -> i64 {
    let low = w % 0x1_0000_0000;
    if low < 0x8000_0000 {
        low as i64
    } else {
        (low - 0x1_0000_0000) as i64
    }
}

/// What the bytes of a field are read as. One byte and four bytes can have a sign; any other number of
/// bytes is read as if zeros followed them, up to eight.
pub open spec fn scalar_of(bytes: Seq<u8>, kind: ScalarKind) -> Scalar {
    let word = word_of(bytes);
    match kind {
        ScalarKind::Signed => if bytes.len() == 1 {
            Scalar::Int(signed_byte(word))
        } else if bytes.len() == 4 {
            Scalar::Int(signed_half(word))
        } else {
            Scalar::Int(signed(word))
        },
        ScalarKind::Unsigned => Scalar::Int(signed(word)),
        ScalarKind::Pointer => Scalar::Int(signed(word)),
        ScalarKind::Bool => Scalar::Bool(bytes.len() > 0 && bytes[0] != 0),
        ScalarKind::Float => if bytes.len() == 4 {
            Scalar::Single((word % 0x1_0000_0000) as u32)
        } else {
            Scalar::Double(word)
        },
        ScalarKind::Other => Scalar::Int(signed(word)),
    }
}

/// The word that the first eight bytes make, with zeros where there are fewer.
pub fn read_word_of(bytes: &Vec<u8>) -> (r: u64)
    ensures
        r == word_of(bytes@),
{
    let mut buf: [u8; 8] = [0u8; 8];
    let n: usize = if bytes.len() < 8 { bytes.len() } else { 8 };
    let mut k: usize = 0;
    while k < n
        invariant
            k <= n <= 8,
            n <= bytes.len(),
            buf@.len() == 8,
            forall|j: int| 0 <= j < k ==> buf@[j] == bytes@[j],
            forall|j: int| k <= j < 8 ==> buf@[j] == 0,
        decreases n - k,
    {
        buf[k] = bytes[k];
        k += 1;
    }
    assert(buf@ =~= padded(bytes@));
    from_bytes(&buf)
}

/// The low byte of a word, as a number with a sign.
pub fn as_signed_byte(w: u64) -> (r: i64)
    ensures
        r == signed_byte(w),
{
    let low: i64 = (w % 0x100) as i64;
    if low < 0x80 { low } else { low - 0x100 }
}

/// The low half of a word, as a number with a sign.
pub fn as_signed_half(w: u64) -> (r: i64)
    ensures
        r == signed_half(w),
{
    let low: i64 = (w % 0x1_0000_0000) as i64;
    if low < 0x8000_0000 { low } else { low - 0x1_0000_0000 }
}

/// What the bytes of a field are read as.
pub fn scalar_to_dynamic(bytes: &Vec<u8>, kind: ScalarKind) -> (r: Scalar)
    ensures
        r == scalar_of(bytes@, kind),
{
    let word: u64 = read_word_of(bytes);
    match kind {
        ScalarKind::Signed => if bytes.len() == 1 {
            Scalar::Int(as_signed_byte(word))
        } else if bytes.len() == 4 {
            Scalar::Int(as_signed_half(word))
        } else {
            Scalar::Int(to_signed(word))
        },
        ScalarKind::Unsigned => Scalar::Int(to_signed(word)),
        ScalarKind::Pointer => Scalar::Int(to_signed(word)),
        ScalarKind::Bool => Scalar::Bool(bytes.len() > 0 && bytes[0] != 0),
        ScalarKind::Float => if bytes.len() == 4 {
            Scalar::Single((word % 0x1_0000_0000) as u32)
        } else {
            Scalar::Double(word)
        },
        ScalarKind::Other => Scalar::Int(to_signed(word)),
    }
}

/// The low bytes of a word, as they lie in memory.
pub fn low_bytes(word: u64, n: usize) -> (r: Vec<u8>)
    requires
        n <= 8,
    ensures
        r@ == le_bytes(word).take(n as int),
{
    let bytes: [u8; 8] = to_bytes(word);
    let mut r: Vec<u8> = Vec::new();
    let mut k: usize = 0;
    while k < n
        invariant
            k <= n <= 8,
            bytes@ == le_bytes(word),
            r@ == le_bytes(word).take(k as int),
        decreases n - k,
    {
        proof {
            law_word_of_bytes(word);
        }
        r.push(bytes[k]);
        assert(le_bytes(word).take(k + 1) =~= le_bytes(word).take(k as int).push(le_bytes(word)[k as int]));
        k += 1;
    }
    r
}

// ---- laws ----

/// How many numbers there are of some bytes.
pub open spec fn range_of(n: nat) -> int {
    if n == 0 {
        1
    } else if n == 1 {
        0x100
    } else if n == 2 {
        0x1_0000
    } else if n == 3 {
        0x100_0000
    } else if n == 4 {
        0x1_0000_0000
    } else if n == 5 {
        0x100_0000_0000
    } else if n == 6 {
        0x1_0000_0000_0000
    } else if n == 7 {
        0x100_0000_0000_0000
    } else {
        0x1_0000_0000_0000_0000
    }
}

/// What is read back of the low bytes of a word is the word, as far as those bytes can hold it.
pub proof fn law_low_bytes(word: u64, n: nat)
    requires
        n <= 8,
    ensures
        word_of(le_bytes(word).take(n as int)) == word as int % range_of(n),
{
    reveal(le_bytes);
    reveal(le_word);
    let b = le_bytes(word);
    let p = padded(b.take(n as int));
    let q1 = word as int / 0x100;
    let q2 = q1 / 0x100;
    let q3 = q2 / 0x100;
    let q4 = q3 / 0x100;
    let q5 = q4 / 0x100;
    let q6 = q5 / 0x100;
    let q7 = q6 / 0x100;
    assert(b[0] == word as int % 0x100 && b[1] == q1 % 0x100 && b[2] == q2 % 0x100 && b[3] == q3 % 0x100);
    assert(q7 < 0x100);
    assert(b[4] == q4 % 0x100 && b[5] == q5 % 0x100 && b[6] == q6 % 0x100 && b[7] == q7);
    assert(forall|k: int| 0 <= k < n ==> p[k] == b[k]);
    assert(forall|k: int| n <= k < 8 ==> p[k] == 0);
    assert(word == b[0] + 0x100 * q1);
    assert(word == b[0] + 0x100 * b[1] + 0x1_0000 * q2);
    assert(word == b[0] + 0x100 * b[1] + 0x1_0000 * b[2] + 0x100_0000 * q3);
    assert(word == b[0] + 0x100 * b[1] + 0x1_0000 * b[2] + 0x100_0000 * b[3] + 0x1_0000_0000 * q4);
    assert(word == b[0] + 0x100 * b[1] + 0x1_0000 * b[2] + 0x100_0000 * b[3] + 0x1_0000_0000 * b[4]
        + 0x100_0000_0000 * q5);
    assert(word == b[0] + 0x100 * b[1] + 0x1_0000 * b[2] + 0x100_0000 * b[3] + 0x1_0000_0000 * b[4]
        + 0x100_0000_0000 * b[5] + 0x1_0000_0000_0000 * q6);
    assert(word == b[0] + 0x100 * b[1] + 0x1_0000 * b[2] + 0x100_0000 * b[3] + 0x1_0000_0000 * b[4]
        + 0x100_0000_0000 * b[5] + 0x1_0000_0000_0000 * b[6] + 0x100_0000_0000_0000 * b[7]);
}

/// Eight bytes of a floating-point number are read as the number of double width whose bits are their
/// word, and four as that of single width.
pub proof fn law_float(w: u64)
    ensures
        scalar_of(le_bytes(w), ScalarKind::Float) == Scalar::Double(w),
        scalar_of(le_bytes(w).take(4), ScalarKind::Float) == Scalar::Single((w % 0x1_0000_0000) as u32),
{
    law_word_of_bytes(w);
    assert(padded(le_bytes(w)) =~= le_bytes(w));
    law_low_bytes(w, 4);
}

/// How bytes are read, by their kind and number: only a floating-point number of four bytes is one of
/// single width, only a truth value is one, and any other kind is a number. As many bytes as a word has
/// are read as that word.
pub proof fn law_scalar_kinds(bytes: Seq<u8>, kind: ScalarKind, w: u64)
    ensures
        scalar_of(bytes, kind) is Single <==> kind == ScalarKind::Float && bytes.len() == 4,
        scalar_of(bytes, kind) is Double <==> kind == ScalarKind::Float && bytes.len() != 4,
        scalar_of(bytes, kind) is Bool <==> kind == ScalarKind::Bool,
        kind != ScalarKind::Float && kind != ScalarKind::Bool ==> scalar_of(le_bytes(w), kind) == Scalar::Int(
            signed(w),
        ),
        kind == ScalarKind::Bool ==> scalar_of(bytes, kind) == Scalar::Bool(bytes.len() > 0 && bytes[0] != 0),
{
    law_word_of_bytes(w);
    assert(padded(le_bytes(w)) =~= le_bytes(w));
}

/// One byte of a number without a sign is read as that byte, and one of a number with a sign as the
/// number from -128 to 127 that differs from it by nothing or 256; in the same way four bytes.
pub proof fn law_small_numbers(w: u64)
    ensures
        ({
            let one = le_bytes(w).take(1);
            let four = le_bytes(w).take(4);
            let low = w as int % 0x100;
            let half = w as int % 0x1_0000_0000;
            &&& scalar_of(one, ScalarKind::Unsigned) matches Scalar::Int(n) && n == low
            &&& scalar_of(four, ScalarKind::Unsigned) matches Scalar::Int(n) && n == half
            &&& scalar_of(one, ScalarKind::Signed) matches Scalar::Int(n) && -0x80 <= n < 0x80 && (n == low || n == low
                - 0x100)
            &&& scalar_of(four, ScalarKind::Signed) matches Scalar::Int(n) && -0x8000_0000 <= n < 0x8000_0000 && (n
                == half || n == half - 0x1_0000_0000)
        }),
{
    law_word_of_bytes(w);
    law_low_bytes(w, 1);
    law_low_bytes(w, 4);
    let one = le_bytes(w).take(1);
    let four = le_bytes(w).take(4);
    lemma_signed_parts(word_of(one));
    lemma_signed_parts(word_of(four));
    assert(one.len() == 1 && four.len() == 4);
    assert(word_of(one) == w as int % 0x100);
    assert(word_of(four) == w as int % 0x1_0000_0000);
}

/// The low parts of a word as numbers with a sign.
proof fn lemma_signed_parts(w: u64)
    ensures
        w < 0x100 ==> -0x80 <= signed_byte(w) < 0x80 && (signed_byte(w) == w || signed_byte(w) == w - 0x100),
        w < 0x1_0000_0000 ==> -0x8000_0000 <= signed_half(w) < 0x8000_0000 && (signed_half(w) == w || signed_half(w)
            == w - 0x1_0000_0000),
        w < 0x1_0000_0000 ==> signed(w) == w,
{
}

} // verus!
