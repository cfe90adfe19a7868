//! Laws of fields: what is read back of a field that was set.

use vstd::prelude::*;

use crate::inferior::mem_read;
use crate::inferior::mem_written;
use crate::inferior::plus;
use crate::inferior::InferiorV;
use crate::memory_laws::held_with;
use crate::memory_laws::law_read_what_was_written;
use crate::memory_laws::lemma_same_asks;
use crate::memory_laws::open_io;
use crate::memory_laws::Memory;
use crate::meta::field_found;
use crate::meta::MetadataV;
use crate::meta::ScalarKind;
use crate::peek::field_poked;
use crate::peek::field_seen;
use crate::text::Text;
use crate::trace::Reply;
use crate::values::law_low_bytes;
use crate::values::range_of;
use crate::values::scalar_of;
use crate::values::Scalar;
use crate::words::law_signs;
use crate::words::law_word_of_bytes;
use crate::words::le_bytes;
use crate::words::unsigned;

verus! {

/// Whether a field of some size and kind can hold a number.
pub open spec fn holds_number(kind: ScalarKind, size: u64, value: i64) -> bool {
    match kind {
        ScalarKind::Signed => {
            ||| size == 8
            ||| size == 4 && -0x8000_0000 <= value < 0x8000_0000
            ||| size == 1 && -0x80 <= value < 0x80
            ||| size != 4 && size != 1 && size < 8 && 0 <= value < range_of(size as nat)
        },
        ScalarKind::Unsigned => size == 8 || size < 8 && 0 <= value < range_of(size as nat),
        ScalarKind::Pointer => size == 8 || size < 8 && 0 <= value < range_of(size as nat),
        ScalarKind::Other => size == 8 || size < 8 && 0 <= value < range_of(size as nat),
        _ => false,
    }
}

/// The bytes of a number that a field can hold are read as that number.
pub proof fn law_field_number(kind: ScalarKind, size: u64, value: i64)
    requires
        holds_number(kind, size, value),
    ensures
        scalar_of(le_bytes(unsigned(value)).take(size as int), kind) == Scalar::Int(value),
{
    let word = unsigned(value);
    law_word_of_bytes(word);
    law_low_bytes(word, size as nat);
    law_signs(word, value);
    let range = range_of(size as nat);
    if value >= 0 && value < range {
        assert(word as int % range == value) by {
            vstd::arithmetic::div_mod::lemma_small_mod(value as nat, range as nat);
        }
    }
}

/// Whenever a field was set and is read again, it is read as what its bytes were set to.
pub proof fn law_field_read_back(
    s: InferiorV,
    meta: MetadataV,
    base: i64,
    type_called: Text,
    field: Text,
    value: i64,
    setting: Seq<Reply>,
    m: Memory,
    reading: Seq<Reply>,
)
    requires
        field_found(meta, type_called, field) is Some,
        ({
            let (offset, size, kind) = field_found(meta, type_called, field).unwrap();
            let addr = plus(unsigned(base), offset as int);
            let bytes = le_bytes(unsigned(value)).take(size as int);
            let asks = |r: Seq<Reply>| open_io(field_poked(s, meta, base, type_called, field, value, r));
            let seeks = |r: Seq<Reply>| open_io(field_seen(s, meta, base, type_called, field, r));
            &&& size <= 8
            &&& mem_written(s.tracee(), addr, bytes, setting) is Gives
            &&& held_with(asks, setting, m) is Some
            &&& mem_read(s.tracee(), addr, size as nat, reading) is Gives
            &&& held_with(seeks, reading, held_with(asks, setting, m).unwrap()) is Some
        }),
    ensures
        ({
            let (offset, size, kind) = field_found(meta, type_called, field).unwrap();
            let bytes = le_bytes(unsigned(value)).take(size as int);
            let seen = field_seen(s, meta, base, type_called, field, reading);
            &&& seen is Gives
            &&& seen->Gives_0 == Some(scalar_of(bytes, kind))
            &&& holds_number(kind, size, value) ==> seen->Gives_0 == Some(Scalar::Int(value))
        }),
{
    let (offset, size, kind) = field_found(meta, type_called, field).unwrap();
    let addr = plus(unsigned(base), offset as int);
    let bytes = le_bytes(unsigned(value)).take(size as int);
    let tid = s.tracee();
    let asks = |r: Seq<Reply>| open_io(field_poked(s, meta, base, type_called, field, value, r));
    let seeks = |r: Seq<Reply>| open_io(field_seen(s, meta, base, type_called, field, r));
    let writes = |r: Seq<Reply>| open_io(mem_written(tid, addr, bytes, r));
    let reads = |r: Seq<Reply>| open_io(mem_read(tid, addr, size as nat, r));
    law_word_of_bytes(unsigned(value));
    lemma_same_asks(asks, writes, setting, m);
    let m1 = held_with(asks, setting, m).unwrap();
    lemma_same_asks(seeks, reads, reading, m1);
    assert(bytes.len() == size);
    law_read_what_was_written(tid, addr, bytes, setting, m, tid, reading);
    if holds_number(kind, size, value) {
        law_field_number(kind, size, value);
    }
}

} // verus!
