//! Pure models of the byte-level wire format: big-endian integers and
//! writing into a bounded buffer.

use vstd::prelude::*;
use crate::error::DnsError;

verus! {

/// The capacity of a datagram buffer, in bytes.
pub const CAPACITY: usize = 512;

/// The 16-bit big-endian integer whose two bytes start at `at`.
pub open spec fn u16_at(bytes: Seq<u8>, at: int) -> u16 {
    (bytes[at] as int * 256 + bytes[at + 1] as int) as u16
}

/// The 32-bit big-endian integer whose four bytes start at `at`.
pub open spec fn u32_at(bytes: Seq<u8>, at: int) -> u32 {
    (bytes[at] as int * 16777216 + bytes[at + 1] as int * 65536 + bytes[at + 2] as int * 256
        + bytes[at + 3] as int) as u32
}

/// The two bytes of a 16-bit integer, most significant first.
pub open spec fn u16_bytes(val: u16) -> Seq<u8> {
    seq![(val / 256) as u8, (val % 256) as u8]
}

/// The four bytes of a 32-bit integer, most significant first.
pub open spec fn u32_bytes(val: u32) -> Seq<u8> {
    seq![
        (val / 16777216) as u8,
        ((val / 65536) % 256) as u8,
        ((val / 256) % 256) as u8,
        (val % 256) as u8,
    ]
}

/// `base` with `data` laid over it from index `at` on.
pub open spec fn splice(base: Seq<u8>, at: int, data: Seq<u8>) -> Seq<u8> {
    Seq::new(
        base.len(),
        |i: int|
            if at <= i < at + data.len() {
                data[i - at]
            } else {
                base[i]
            },
    )
}

/// Where the position stands after an attempt to write `len` bytes from
/// `pos` on: behind them, or at the capacity when they did not all fit.
pub open spec fn advance(pos: int, len: int) -> int {
    if pos + len <= CAPACITY as int {
        pos + len
    } else {
        CAPACITY as int
    }
}

/// How an attempt to write `len` bytes from `pos` on ends, when the bytes are
/// all there is to write (`complete`) or stop short before a label that is
/// too long. Running out of room is met first.
pub open spec fn write_outcome(pos: int, len: int, complete: bool) -> Result<(), DnsError> {
    if pos + len > CAPACITY as int {
        Err(DnsError::BufferBounds)
    } else if !complete {
        Err(DnsError::LabelTooLong)
    } else {
        Ok(())
    }
}

/// What running out of room, or a label that is too long, in a first
/// piece leaves of the attempt to write a second behind it: nothing.
pub proof fn lemma_outcome_then(pos: int, len: int, complete: bool, more: int, more_complete: bool)
    requires
        0 <= len,
        0 <= more,
    ensures
        write_outcome(pos, len, complete) is Err ==> write_outcome(
            pos,
            if complete {
                len + more
            } else {
                len
            },
            complete && more_complete,
        ) == write_outcome(pos, len, complete),
        write_outcome(pos, len, complete) is Ok ==> write_outcome(
            pos,
            len + more,
            complete && more_complete,
        ) == write_outcome(pos + len, more, more_complete),
{
}

/// Laying two pieces one after the other is laying their concatenation.
pub proof fn lemma_splice_append(base: Seq<u8>, at: int, first: Seq<u8>, second: Seq<u8>)
    requires
        0 <= at,
    ensures
        splice(splice(base, at, first), at + first.len(), second) =~= splice(
            base,
            at,
            first + second,
        ),
{
}

/// Once the capacity is reached, a longer piece lays no more than its
/// prefix did.
pub proof fn lemma_splice_full(base: Seq<u8>, at: int, first: Seq<u8>, second: Seq<u8>)
    requires
        0 <= at,
        at + first.len() >= base.len(),
    ensures
        splice(base, at, first) =~= splice(base, at, first + second),
{
}

/// The two bytes of a 16-bit integer read back as that integer.
pub proof fn law_u16_round_trip(val: u16)
    ensures
        u16_bytes(val).len() == 2,
        u16_at(u16_bytes(val), 0) == val,
{
}

/// The four bytes of a 32-bit integer read back as that integer.
pub proof fn law_u32_round_trip(val: u32)
    ensures
        u32_bytes(val).len() == 4,
        u32_at(u32_bytes(val), 0) == val,
{
}

} // verus!
