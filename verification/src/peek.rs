//! What a mod sees and changes of the target: registers, memory and fields. Where the target cannot be
//! reached, a mod reads zeros, and what it writes is lost.

use vstd::prelude::*;

use crate::inferior::advance;
use crate::inferior::mem_read;
use crate::inferior::mem_written;
use crate::inferior::plus;
use crate::inferior::reg_read;
use crate::inferior::reg_written;
use crate::inferior::Inferior;
use crate::inferior::InferiorV;
use crate::inferior::SCRATCH_OFFSET;
use crate::inferior::SCRATCH_SIZE;
use crate::meta::field_found;
use crate::meta::field_lookup;
use crate::meta::Metadata;
use crate::meta::MetadataV;
use crate::text::Text;
use crate::trace::told;
use crate::trace::Halt;
use crate::trace::Io;
use crate::trace::Reply;
use crate::trace::Transcript;
use crate::values::as_signed_byte;
use crate::values::as_signed_half;
use crate::values::low_bytes;
use crate::values::read_word_of;
use crate::values::scalar_of;
use crate::values::scalar_to_dynamic;
use crate::values::signed_byte;
use crate::values::signed_half;
use crate::values::word_of;
use crate::values::Scalar;
use crate::words::le_bytes;
use crate::words::signed;
use crate::words::to_signed;
use crate::words::to_unsigned;
use crate::words::unsigned;

verus! {

/// The most bytes that a mod can ask about at a time.
pub const MAX_READABLE: i64 = 4096;

/// What comes of asking when a failure is taken for some other result.
pub open spec fn settled<A, B>(r: Io<A>, ok: spec_fn(A) -> B, bad: B) -> Io<B> {
    match r {
        Io::Waits(q) => Io::Waits(q),
        Io::Fails(_, rest) => Io::Gives(bad, rest),
        Io::Gives(a, rest) => Io::Gives(ok(a), rest),
    }
}

// ---- registers ----

/// What comes of a mod asking for a register.
pub open spec fn reg_seen(s: InferiorV, name: Text, replies: Seq<Reply>) -> Io<i64> {
    settled(reg_read(s, name, replies), |v: u64| signed(v), 0i64)
}

/// What comes of a mod setting a register.
pub open spec fn reg_poked(s: InferiorV, name: Text, value: i64, replies: Seq<Reply>) -> Io<()> {
    settled(reg_written(s, name, unsigned(value), replies), |u: ()| (), ())
}

/// What a register holds; zero where it cannot be had.
pub fn reg(inferior: &Inferior, io: &mut Transcript, name: &str) -> (r: Result<i64, Halt>)
    ensures
        told(r, *final(io), reg_seen(inferior@, name@, old(io).rest())),
{
    match inferior.get_reg(io, name) {
        Ok(v) => Ok(to_signed(v)),
        Err(Halt::Waiting) => Err(Halt::Waiting),
        Err(Halt::Failed(_)) => Ok(0),
    }
}

/// Sets a register, if that can be done.
pub fn set_reg(inferior: &Inferior, io: &mut Transcript, name: &str, value: i64) -> (r: Result<(), Halt>)
    ensures
        told(r, *final(io), reg_poked(inferior@, name@, value, old(io).rest())),
{
    match inferior.set_reg(io, name, to_unsigned(value)) {
        Err(Halt::Waiting) => Err(Halt::Waiting),
        _ => Ok(()),
    }
}

// ---- memory ----

/// What comes of a mod reading bytes: the word that they make, zero where they cannot be had.
pub open spec fn word_seen(s: InferiorV, addr: i64, len: nat, replies: Seq<Reply>) -> Io<u64> {
    settled(mem_read(s.tracee(), unsigned(addr), len, replies), |b: Seq<u8>| word_of(b), 0u64)
}

/// What comes of asking, seen in another way.
pub open spec fn seen_as<A, B>(r: Io<A>, f: spec_fn(A) -> B) -> Io<B> {
    match r {
        Io::Waits(q) => Io::Waits(q),
        Io::Fails(e, rest) => Io::Fails(e, rest),
        Io::Gives(a, rest) => Io::Gives(f(a), rest),
    }
}

/// What comes of a mod writing the low bytes of a word.
pub open spec fn word_poked(s: InferiorV, addr: i64, word: u64, len: nat, replies: Seq<Reply>) -> Io<()> {
    settled(
        mem_written(s.tracee(), unsigned(addr), le_bytes(word).take(len as int), replies),
        |u: ()| (),
        (),
    )
}

/// What comes of a mod asking whether bytes can be read.
pub open spec fn readable_at(s: InferiorV, addr: i64, len: i64, replies: Seq<Reply>) -> Io<bool> {
    if addr <= 0 || len <= 0 || len > MAX_READABLE {
        Io::Gives(false, replies)
    } else {
        settled(mem_read(s.tracee(), unsigned(addr), len as nat, replies), |b: Seq<u8>| true, false)
    }
}

/// Reads bytes as a word.
fn see_word(inferior: &Inferior, io: &mut Transcript, addr: i64, len: usize) -> (r: Result<u64, Halt>)
    ensures
        told(r, *final(io), word_seen(inferior@, addr, len as nat, old(io).rest())),
{
    match inferior.read_mem(io, to_unsigned(addr), len) {
        Ok(bytes) => Ok(read_word_of(&bytes)),
        Err(Halt::Waiting) => Err(Halt::Waiting),
        Err(Halt::Failed(_)) => Ok(0),
    }
}

/// Writes the low bytes of a word.
fn poke_word(inferior: &Inferior, io: &mut Transcript, addr: i64, word: u64, len: usize) -> (r: Result<(), Halt>)
    requires
        len <= 8,
    ensures
        told(r, *final(io), word_poked(inferior@, addr, word, len as nat, old(io).rest())),
{
    let bytes: Vec<u8> = low_bytes(word, len);
    match inferior.write_mem(io, to_unsigned(addr), bytes.as_slice()) {
        Err(Halt::Waiting) => Err(Halt::Waiting),
        _ => Ok(()),
    }
}

/// What comes of a mod reading a byte, as a number with a sign.
pub open spec fn i8_seen(s: InferiorV, addr: i64, replies: Seq<Reply>) -> Io<i64> {
    seen_as(word_seen(s, addr, 1, replies), |w: u64| signed_byte(w))
}

/// What comes of a mod reading four bytes, as a number with a sign.
pub open spec fn i32_seen(s: InferiorV, addr: i64, replies: Seq<Reply>) -> Io<i64> {
    seen_as(word_seen(s, addr, 4, replies), |w: u64| signed_half(w))
}

/// What comes of a mod reading eight bytes, as a number with a sign.
pub open spec fn i64_seen(s: InferiorV, addr: i64, replies: Seq<Reply>) -> Io<i64> {
    seen_as(word_seen(s, addr, 8, replies), |w: u64| signed(w))
}

/// What comes of a mod reading two bytes, as a number without a sign.
pub open spec fn u16_seen(s: InferiorV, addr: i64, replies: Seq<Reply>) -> Io<i64> {
    seen_as(word_seen(s, addr, 2, replies), |w: u64| signed(w))
}

/// What comes of a mod reading the bits of a floating-point number of eight bytes.
pub open spec fn f64_seen(s: InferiorV, addr: i64, replies: Seq<Reply>) -> Io<u64> {
    word_seen(s, addr, 8, replies)
}

/// What comes of a mod reading the bits of a floating-point number of four bytes.
pub open spec fn f32_seen(s: InferiorV, addr: i64, replies: Seq<Reply>) -> Io<u32> {
    seen_as(word_seen(s, addr, 4, replies), |w: u64| (w % 0x1_0000_0000) as u32)
}

/// Reads a byte, as a number with a sign.
pub fn read_i8(inferior: &Inferior, io: &mut Transcript, addr: i64) -> (r: Result<i64, Halt>)
    ensures
        told(r, *final(io), i8_seen(inferior@, addr, old(io).rest())),
{
    let w: u64 = see_word(inferior, io, addr, 1)?;
    Ok(as_signed_byte(w))
}

/// Reads four bytes, as a number with a sign.
pub fn read_i32(inferior: &Inferior, io: &mut Transcript, addr: i64) -> (r: Result<i64, Halt>)
    ensures
        told(r, *final(io), i32_seen(inferior@, addr, old(io).rest())),
{
    let w: u64 = see_word(inferior, io, addr, 4)?;
    Ok(as_signed_half(w))
}

/// Reads eight bytes, as a number with a sign.
pub fn read_i64(inferior: &Inferior, io: &mut Transcript, addr: i64) -> (r: Result<i64, Halt>)
    ensures
        told(r, *final(io), i64_seen(inferior@, addr, old(io).rest())),
{
    let w: u64 = see_word(inferior, io, addr, 8)?;
    Ok(to_signed(w))
}

/// Reads eight bytes, as the number with a sign that has the same bits.
pub fn read_u64(inferior: &Inferior, io: &mut Transcript, addr: i64) -> (r: Result<i64, Halt>)
    ensures
        told(r, *final(io), i64_seen(inferior@, addr, old(io).rest())),
{
    read_i64(inferior, io, addr)
}

/// Reads two bytes, as a number without a sign.
pub fn read_u16(inferior: &Inferior, io: &mut Transcript, addr: i64) -> (r: Result<i64, Halt>)
    ensures
        told(r, *final(io), u16_seen(inferior@, addr, old(io).rest())),
{
    let w: u64 = see_word(inferior, io, addr, 2)?;
    Ok(to_signed(w))
}

/// Reads the bits of a floating-point number of eight bytes.
pub fn read_f64_bits(inferior: &Inferior, io: &mut Transcript, addr: i64) -> (r: Result<u64, Halt>)
    ensures
        told(r, *final(io), f64_seen(inferior@, addr, old(io).rest())),
{
    see_word(inferior, io, addr, 8)
}

/// Reads the bits of a floating-point number of four bytes.
pub fn read_f32_bits(inferior: &Inferior, io: &mut Transcript, addr: i64) -> (r: Result<u32, Halt>)
    ensures
        told(r, *final(io), f32_seen(inferior@, addr, old(io).rest())),
{
    let w: u64 = see_word(inferior, io, addr, 4)?;
    Ok((w % 0x1_0000_0000) as u32)
}

/// Whether bytes can be read.
pub fn mem_readable(inferior: &Inferior, io: &mut Transcript, addr: i64, len: i64) -> (r: Result<bool, Halt>)
    ensures
        told(r, *final(io), readable_at(inferior@, addr, len, old(io).rest())),
{
    if addr <= 0 || len <= 0 || len > MAX_READABLE {
        return Ok(false);
    }
    match inferior.read_mem(io, to_unsigned(addr), len as usize) {
        Ok(_) => Ok(true),
        Err(Halt::Waiting) => Err(Halt::Waiting),
        Err(Halt::Failed(_)) => Ok(false),
    }
}

/// What comes of a mod writing two bytes.
pub open spec fn u16_poked(s: InferiorV, addr: i64, value: i64, replies: Seq<Reply>) -> Io<()> {
    word_poked(s, addr, unsigned(value), 2, replies)
}

/// What comes of a mod writing four bytes.
pub open spec fn i32_poked(s: InferiorV, addr: i64, value: i64, replies: Seq<Reply>) -> Io<()> {
    word_poked(s, addr, unsigned(value), 4, replies)
}

/// What comes of a mod writing eight bytes.
pub open spec fn i64_poked(s: InferiorV, addr: i64, value: i64, replies: Seq<Reply>) -> Io<()> {
    word_poked(s, addr, unsigned(value), 8, replies)
}

/// What comes of a mod writing the bits of a floating-point number of eight bytes.
pub open spec fn f64_poked(s: InferiorV, addr: i64, bits: u64, replies: Seq<Reply>) -> Io<()> {
    word_poked(s, addr, bits, 8, replies)
}

/// What comes of a mod writing the bits of a floating-point number of four bytes.
pub open spec fn f32_poked(s: InferiorV, addr: i64, bits: u32, replies: Seq<Reply>) -> Io<()> {
    word_poked(s, addr, bits as u64, 4, replies)
}

/// Writes two bytes.
pub fn write_u16(inferior: &Inferior, io: &mut Transcript, addr: i64, value: i64) -> (r: Result<(), Halt>)
    ensures
        told(r, *final(io), u16_poked(inferior@, addr, value, old(io).rest())),
{
    poke_word(inferior, io, addr, to_unsigned(value), 2)
}

/// Writes four bytes.
pub fn write_i32(inferior: &Inferior, io: &mut Transcript, addr: i64, value: i64) -> (r: Result<(), Halt>)
    ensures
        told(r, *final(io), i32_poked(inferior@, addr, value, old(io).rest())),
{
    poke_word(inferior, io, addr, to_unsigned(value), 4)
}

/// Writes eight bytes.
pub fn write_i64(inferior: &Inferior, io: &mut Transcript, addr: i64, value: i64) -> (r: Result<(), Halt>)
    ensures
        told(r, *final(io), i64_poked(inferior@, addr, value, old(io).rest())),
{
    poke_word(inferior, io, addr, to_unsigned(value), 8)
}

/// Writes eight bytes.
pub fn write_u64(inferior: &Inferior, io: &mut Transcript, addr: i64, value: i64) -> (r: Result<(), Halt>)
    ensures
        told(r, *final(io), i64_poked(inferior@, addr, value, old(io).rest())),
{
    poke_word(inferior, io, addr, to_unsigned(value), 8)
}

/// Writes the bits of a floating-point number of eight bytes.
pub fn write_f64_bits(inferior: &Inferior, io: &mut Transcript, addr: i64, bits: u64) -> (r: Result<(), Halt>)
    ensures
        told(r, *final(io), f64_poked(inferior@, addr, bits, old(io).rest())),
{
    poke_word(inferior, io, addr, bits, 8)
}

/// Writes the bits of a floating-point number of four bytes.
pub fn write_f32_bits(inferior: &Inferior, io: &mut Transcript, addr: i64, bits: u32) -> (r: Result<(), Halt>)
    ensures
        told(r, *final(io), f32_poked(inferior@, addr, bits, old(io).rest())),
{
    poke_word(inferior, io, addr, bits as u64, 4)
}

// ---- fields ----

/// The offset of a field, or -1 where there is no such field.
pub open spec fn offset_told(meta: MetadataV, type_called: Text, field: Text) -> i64 {
    match field_found(meta, type_called, field) {
        Some((offset, _, _)) => signed(offset),
        None => -1i64,
    }
}

/// The size of a field, or -1 where there is no such field.
pub open spec fn size_told(meta: MetadataV, type_called: Text, field: Text) -> i64 {
    match field_found(meta, type_called, field) {
        Some((_, size, _)) => signed(size),
        None => -1i64,
    }
}

/// The offset of a field, or -1 where there is no such field.
pub fn field_offset(meta: &Metadata, type_called: &str, field: &str) -> (r: i64)
    ensures
        r == offset_told(meta@, type_called@, field@),
{
    match field_lookup(meta, type_called, field) {
        Some((offset, _, _)) => to_signed(offset),
        None => -1,
    }
}

/// The size of a field, or -1 where there is no such field.
pub fn field_size(meta: &Metadata, type_called: &str, field: &str) -> (r: i64)
    ensures
        r == size_told(meta@, type_called@, field@),
{
    match field_lookup(meta, type_called, field) {
        Some((_, size, _)) => to_signed(size),
        None => -1,
    }
}

/// What comes of a mod reading a field of a value: nothing where there is no such field.
pub open spec fn field_seen(
    s: InferiorV,
    meta: MetadataV,
    base: i64,
    type_called: Text,
    field: Text,
    replies: Seq<Reply>,
) -> Io<Option<Scalar>> {
    match field_found(meta, type_called, field) {
        None => Io::Gives(None, replies),
        Some((offset, size, kind)) => settled(
            mem_read(s.tracee(), plus(unsigned(base), offset as int), size as nat, replies),
            |b: Seq<u8>| Some(scalar_of(b, kind)),
            Some(scalar_of(Seq::empty(), kind)),
        ),
    }
}

/// What comes of a mod setting a field of a value.
pub open spec fn field_poked(
    s: InferiorV,
    meta: MetadataV,
    base: i64,
    type_called: Text,
    field: Text,
    value: i64,
    replies: Seq<Reply>,
) -> Io<()> {
    match field_found(meta, type_called, field) {
        None => Io::Gives((), replies),
        Some((offset, size, _)) => settled(
            mem_written(
                s.tracee(),
                plus(unsigned(base), offset as int),
                le_bytes(unsigned(value)).take(size as int),
                replies,
            ),
            |u: ()| (),
            (),
        ),
    }
}

/// Reads a field of the value at an address.
pub fn get_field(
    inferior: &Inferior,
    io: &mut Transcript,
    meta: &Metadata,
    base: i64,
    type_called: &str,
    field: &str,
) -> (r: Result<Option<Scalar>, Halt>)
    requires
        field_found(meta@, type_called@, field@) matches Some((_, size, _)) ==> size <= usize::MAX,
    ensures
        told(r, *final(io), field_seen(inferior@, meta@, base, type_called@, field@, old(io).rest())),
{
    match field_lookup(meta, type_called, field) {
        None => Ok(None),
        Some((offset, size, kind)) => {
            let addr: u64 = advance(to_unsigned(base), offset);
            match inferior.read_mem(io, addr, size as usize) {
                Ok(bytes) => Ok(Some(scalar_to_dynamic(&bytes, kind))),
                Err(Halt::Waiting) => Err(Halt::Waiting),
                Err(Halt::Failed(_)) => {
                    let none: Vec<u8> = Vec::new();
                    Ok(Some(scalar_to_dynamic(&none, kind)))
                },
            }
        },
    }
}

/// Sets a field of the value at an address, if there is such a field and that can be done. The field
/// can be no larger than a word.
pub fn set_field(
    inferior: &Inferior,
    io: &mut Transcript,
    meta: &Metadata,
    base: i64,
    type_called: &str,
    field: &str,
    value: i64,
) -> (r: Result<(), Halt>)
    requires
        field_found(meta@, type_called@, field@) matches Some((_, size, _)) ==> size <= 8,
    ensures
        told(r, *final(io), field_poked(inferior@, meta@, base, type_called@, field@, value, old(io).rest())),
{
    match field_lookup(meta, type_called, field) {
        None => Ok(()),
        Some((offset, size, _)) => {
            let addr: u64 = advance(to_unsigned(base), offset);
            let bytes: Vec<u8> = low_bytes(to_unsigned(value), size as usize);
            match inferior.write_mem(io, addr, bytes.as_slice()) {
                Err(Halt::Waiting) => Err(Halt::Waiting),
                _ => Ok(()),
            }
        },
    }
}

// ---- space of its own ----

/// What comes of a mod asking for a slot of its own space: nothing where there is no such slot.
pub open spec fn scratch_seen(s: InferiorV, slot: i64, replies: Seq<Reply>) -> Io<Option<i64>> {
    if 0 <= slot < SCRATCH_SIZE / 8 {
        settled(
            reg_read(s, "rsp"@, replies),
            |rsp: u64| Some(signed(plus(rsp, slot * 8 - SCRATCH_OFFSET))),
            Some(signed(plus(0, slot * 8 - SCRATCH_OFFSET))),
        )
    } else {
        Io::Gives(None, replies)
    }
}

/// Some way below an address, around the end of the address space.
pub(crate) fn retreat(addr: u64, n: u64) -> (r: u64)
    ensures
        r == plus(addr, -(n as int)),
{
    let r: u64 = addr.wrapping_sub(n);
    proof {
        if addr >= n {
            assert(plus(addr, -(n as int)) == addr - n);
        } else {
            assert(plus(addr, -(n as int)) == addr - n + 0x1_0000_0000_0000_0000);
        }
    }
    r
}

/// The address of a slot of the mod's own space, below the stack.
pub fn scratch(inferior: &Inferior, io: &mut Transcript, slot: i64) -> (r: Result<Option<i64>, Halt>)
    ensures
        told(r, *final(io), scratch_seen(inferior@, slot, old(io).rest())),
{
    if slot < 0 || slot >= (SCRATCH_SIZE / 8) as i64 {
        return Ok(None);
    }
    let rsp: u64 = match inferior.get_reg(io, "rsp") {
        Ok(v) => v,
        Err(Halt::Waiting) => {
            return Err(Halt::Waiting);
        },
        Err(Halt::Failed(_)) => 0,
    };
    let addr: u64 = retreat(rsp, SCRATCH_OFFSET - slot as u64 * 8);
    Ok(Some(to_signed(addr)))
}

} // verus!
