//! Words of memory and the bytes that they are made of.

use vstd::prelude::*;

verus! {

/// The bytes of a word, as they lie in memory: the least significant first.
#[verifier::opaque]
pub open spec fn le_bytes(w: u64) -> Seq<u8> {
    seq![
        (w % 0x100) as u8,
        (w / 0x100 % 0x100) as u8,
        (w / 0x1_0000 % 0x100) as u8,
        (w / 0x100_0000 % 0x100) as u8,
        (w / 0x1_0000_0000 % 0x100) as u8,
        (w / 0x100_0000_0000 % 0x100) as u8,
        (w / 0x1_0000_0000_0000 % 0x100) as u8,
        (w / 0x100_0000_0000_0000 % 0x100) as u8,
    ]
}

/// The word that eight bytes make.
#[verifier::opaque]
pub open spec fn le_word(b: Seq<u8>) -> u64 {
    (b[0] + b[1] * 0x100 + b[2] * 0x1_0000 + b[3] * 0x100_0000 + b[4] * 0x1_0000_0000 + b[5] * 0x100_0000_0000
        + b[6] * 0x1_0000_0000_0000 + b[7] * 0x100_0000_0000_0000) as u64
}

/// A word is made of its bytes.
pub proof fn law_word_of_bytes(w: u64)
    ensures
        le_bytes(w).len() == 8,
        le_word(le_bytes(w)) == w,
{
    reveal(le_bytes);
    reveal(le_word);
    let q1 = w / 0x100;
    let q2 = q1 / 0x100;
    let q3 = q2 / 0x100;
    let q4 = q3 / 0x100;
    let q5 = q4 / 0x100;
    let q6 = q5 / 0x100;
    let q7 = q6 / 0x100;
    assert(w / 0x1_0000 == q2);
    assert(w / 0x100_0000 == q3);
    assert(w / 0x1_0000_0000 == q4);
    assert(w / 0x100_0000_0000 == q5);
    assert(w / 0x1_0000_0000_0000 == q6);
    assert(w / 0x100_0000_0000_0000 == q7);
    assert(q7 < 0x100);
    let b = le_bytes(w);
    assert(b[0] == w % 0x100 && b[1] == q1 % 0x100 && b[2] == q2 % 0x100 && b[3] == q3 % 0x100);
    assert(b[4] == q4 % 0x100 && b[5] == q5 % 0x100 && b[6] == q6 % 0x100 && b[7] == q7);
    assert(q6 == b[6] + 0x100 * b[7]);
    assert(q5 == b[5] + 0x100 * q6);
    assert(q4 == b[4] + 0x100 * q5);
    assert(q3 == b[3] + 0x100 * q4);
    assert(q2 == b[2] + 0x100 * q3);
    assert(q1 == b[1] + 0x100 * q2);
    assert(w == b[0] + 0x100 * q1);
}

/// Eight bytes are the bytes of the word that they make.
pub proof fn law_bytes_of_word(b: Seq<u8>)
    requires
        b.len() == 8,
    ensures
        le_bytes(le_word(b)) == b,
{
    reveal(le_bytes);
    reveal(le_word);
    let w = le_word(b);
    let t6 = b[6] + 0x100 * b[7];
    let t5 = b[5] + 0x100 * t6;
    let t4 = b[4] + 0x100 * t5;
    let t3 = b[3] + 0x100 * t4;
    let t2 = b[2] + 0x100 * t3;
    let t1 = b[1] + 0x100 * t2;
    assert(w == b[0] + 0x100 * t1);
    assert(w as int / 0x100 == t1 && w as int % 0x100 == b[0]);
    assert(t1 / 0x100 == t2 && t1 % 0x100 == b[1]);
    assert(t2 / 0x100 == t3 && t2 % 0x100 == b[2]);
    assert(t3 / 0x100 == t4 && t3 % 0x100 == b[3]);
    assert(t4 / 0x100 == t5 && t4 % 0x100 == b[4]);
    assert(t5 / 0x100 == t6 && t5 % 0x100 == b[5]);
    assert(t6 / 0x100 == b[7] && t6 % 0x100 == b[6]);
    assert(w as int / 0x1_0000 == t2);
    assert(w as int / 0x100_0000 == t3);
    assert(w as int / 0x1_0000_0000 == t4);
    assert(w as int / 0x100_0000_0000 == t5);
    assert(w as int / 0x1_0000_0000_0000 == t6);
    assert(w as int / 0x100_0000_0000_0000 == b[7]);
    assert(le_bytes(w) =~= b);
}

/// The bytes of a word.
pub fn to_bytes(w: u64) -> (r: [u8; 8])
    ensures
        r@ == le_bytes(w),
{
    let r: [u8; 8] = [
        (w % 0x100) as u8,
        (w / 0x100 % 0x100) as u8,
        (w / 0x1_0000 % 0x100) as u8,
        (w / 0x100_0000 % 0x100) as u8,
        (w / 0x1_0000_0000 % 0x100) as u8,
        (w / 0x100_0000_0000 % 0x100) as u8,
        (w / 0x1_0000_0000_0000 % 0x100) as u8,
        (w / 0x100_0000_0000_0000 % 0x100) as u8,
    ];
    assert(r@ =~= le_bytes(w)) by {
        reveal(le_bytes);
    }
    r
}

/// The word that eight bytes make.
pub fn from_bytes(b: &[u8; 8]) -> (r: u64)
    ensures
        r == le_word(b@),
{
    reveal(le_word);
    b[0] as u64 + b[1] as u64 * 0x100 + b[2] as u64 * 0x1_0000 + b[3] as u64 * 0x100_0000 + b[4] as u64
        * 0x1_0000_0000 + b[5] as u64 * 0x100_0000_0000 + b[6] as u64 * 0x1_0000_0000_0000 + b[7] as u64
        * 0x100_0000_0000_0000
}

/// A word with another byte in its lowest place.
pub open spec fn with_low_byte(w: u64, byte: u8) -> u64 {
    (w - w % 0x100 + byte) as u64
}

/// Another byte in the lowest place of a word leaves the other bytes as they were.
pub proof fn law_low_byte(w: u64, byte: u8)
    ensures
        le_bytes(with_low_byte(w, byte)) == le_bytes(w).update(0, byte),
{
    reveal(le_bytes);
    let q = w / 0x100;
    let x = with_low_byte(w, byte);
    assert(w == q * 0x100 + w % 0x100);
    assert(x == q * 0x100 + byte);
    assert(x / 0x100 == q && x % 0x100 == byte);
    assert(x / 0x1_0000 == q / 0x100 && w / 0x1_0000 == q / 0x100);
    assert(x / 0x100_0000 == q / 0x1_0000 && w / 0x100_0000 == q / 0x1_0000);
    assert(x / 0x1_0000_0000 == q / 0x100_0000 && w / 0x1_0000_0000 == q / 0x100_0000);
    assert(x / 0x100_0000_0000 == q / 0x1_0000_0000 && w / 0x100_0000_0000 == q / 0x1_0000_0000);
    assert(x / 0x1_0000_0000_0000 == q / 0x100_0000_0000 && w / 0x1_0000_0000_0000 == q / 0x100_0000_0000);
    assert(x / 0x100_0000_0000_0000 == q / 0x1_0000_0000_0000 && w / 0x100_0000_0000_0000 == q
        / 0x1_0000_0000_0000);
    assert(le_bytes(x) =~= le_bytes(w).update(0, byte));
}

// ---- signs ----

/// The number that a word stands for when its highest bit is a sign.
pub open spec fn signed(w: u64) -> i64 {
    if w < 0x8000_0000_0000_0000 {
        w as i64
    } else {
        (w - 0x1_0000_0000_0000_0000) as i64
    }
}

/// The word of a number with a sign.
pub open spec fn unsigned(n: i64) -> u64 {
    if n >= 0 {
        n as u64
    } else {
        (n + 0x1_0000_0000_0000_0000) as u64
    }
}

/// Words and numbers with a sign stand for each other.
pub proof fn law_signs(w: u64, n: i64)
    ensures
        unsigned(signed(w)) == w,
        signed(unsigned(n)) == n,
{
}

/// The number that a word stands for when its highest bit is a sign.
pub fn to_signed(w: u64) -> (r: i64)
    ensures
        r == signed(w),
{
    if w < 0x8000_0000_0000_0000 {
        w as i64
    } else {
        -((0xffff_ffff_ffff_ffff - w) as i64) - 1
    }
}

/// The word of a number with a sign.
pub fn to_unsigned(n: i64) -> (r: u64)
    ensures
        r == unsigned(n),
{
    if n >= 0 {
        n as u64
    } else {
        0xffff_ffff_ffff_ffff - (-(n + 1)) as u64
    }
}

/// The bytes of a word are its digits to the base 256, the lowest first: the first is what is left when
/// the word is divided by 256, and the others are those of the quotient.
pub proof fn law_lowest_byte_first(w: u64, k: int)
    ensures
        le_bytes(w)[0] == w % 0x100,
        0 <= k < 7 ==> le_bytes(w)[k + 1] == le_bytes(w / 0x100)[k],
        w < 0x100 ==> forall|j: int| 1 <= j < 8 ==> #[trigger] le_bytes(w)[j] == 0,
{
    reveal(le_bytes);
    let q = w / 0x100;
    assert(w / 0x1_0000 == q / 0x100);
    assert(w / 0x100_0000 == q / 0x1_0000);
    assert(w / 0x1_0000_0000 == q / 0x100_0000);
    assert(w / 0x100_0000_0000 == q / 0x1_0000_0000);
    assert(w / 0x1_0000_0000_0000 == q / 0x100_0000_0000);
    assert(w / 0x100_0000_0000_0000 == q / 0x1_0000_0000_0000);
    if w < 0x100 {
        assert(q == 0);
    }
}

/// A number with a sign and its word differ by nothing or by all the numbers that a word can hold, and
/// agree where both can be the same.
pub proof fn law_sign_range(w: u64)
    ensures
        signed(w) == w || signed(w) == w - 0x1_0000_0000_0000_0000,
        w <= i64::MAX <==> signed(w) >= 0,
        w <= i64::MAX ==> signed(w) == w,
{
}

} // verus!
