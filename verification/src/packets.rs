//! The datagram buffer with its read/write position, and whole messages.

use vstd::prelude::*;
use crate::error::DnsError;
use crate::wire::{advance, splice, u16_at, u16_bytes, u32_at, u32_bytes, write_outcome, CAPACITY};
use crate::wire::{lemma_outcome_then, lemma_splice_append, lemma_splice_full};
use crate::name::{
    covers, label_string, name_attempt, name_end, name_text, parse_labels, prepend_labels, Attempt,
    DOT, MAX_JUMPS, MAX_LABEL,
};
use crate::name::{lemma_first_dot, lemma_name_attempt_unfold, zone_covers};
use vstd::utf8::encode_utf8;
use crate::header::{blank_header, header_at, header_bytes, DnsHeader, HEADER_LEN};
use crate::record::{
    parse_question, parse_record, question_attempt, record_attempt, DnsQuestion, DnsRecord,
    Ipv4Address, QueryType, QuestionView, RecordView,
};
use vstd::string::StringExecFns;
use vstd::string::StringSliceAdditionalSpecFns;

verus! {

/// A datagram buffer of fixed capacity with a read/write position.
pub struct BytePacketBuffer {
    pub buf: [u8; 512],
    pub pos: usize,
}

impl BytePacketBuffer {
    /// The position never lies beyond the capacity.
    pub open spec fn wf(&self) -> bool {
        self.pos <= CAPACITY
    }

    /// `self` is `before` after an attempt to write `data` at the position
    /// of `before`: the bytes that found room are in place, in order, and
    /// the position stands behind them.
    pub open spec fn is_write_of(&self, before: &BytePacketBuffer, data: Seq<u8>) -> bool {
        &&& self.pos == advance(before.pos as int, data.len() as int)
        &&& self.buf@ == splice(before.buf@, before.pos as int, data)
    }

    /// A buffer of zeroes, positioned at its start.
    pub fn new() -> (b: BytePacketBuffer)
        ensures
            b.pos == 0,
            b.wf(),
            forall|i: int| 0 <= i < 512 ==> b.buf@[i] == 0u8,
    {
        BytePacketBuffer { buf: [0; 512], pos: 0 }
    }

    /// A buffer that holds the first 512 bytes of `data`, zeroes behind
    /// them, positioned at its start.
    pub fn from_bytes(data: &[u8]) -> (b: BytePacketBuffer)
        ensures
            b.pos == 0,
            b.wf(),
            b.buf@ == datagram(data@),
    {
        let mut b = BytePacketBuffer::new();
        let mut i: usize = 0;
        while i < data.len() && i < CAPACITY
            invariant
                i <= CAPACITY,
                i <= data@.len(),
                b.pos == 0,
                forall|k: int| 0 <= k < i ==> b.buf@[k] == data@[k],
                forall|k: int| i <= k < CAPACITY ==> b.buf@[k] == 0u8,
            decreases CAPACITY - i,
        {
            b.buf[i] = data[i];
            i += 1;
        }
        assert(b.buf@ =~= datagram(data@));
        b
    }

    /// Current position within buffer
    pub fn pos(&self) -> (p: usize)
        ensures
            p == self.pos,
    {
        self.pos
    }

    /// Step the buffer position forward a specific number of steps
    pub fn step(&mut self, steps: usize) -> (res: Result<(), DnsError>)
        requires
            old(self).wf(),
        ensures
            final(self).buf == old(self).buf,
            old(self).pos + steps <= CAPACITY ==> res is Ok && final(self).pos == old(self).pos
                + steps,
            old(self).pos + steps > CAPACITY ==> res == Err::<(), DnsError>(DnsError::BufferBounds)
                && final(self).pos == old(self).pos,
    {
        if steps > CAPACITY - self.pos {
            return Err(DnsError::BufferBounds);
        }
        self.pos += steps;
        Ok(())
    }

    /// Change the buffer position
    pub fn seek(&mut self, pos: usize) -> (res: Result<(), DnsError>)
        ensures
            final(self).buf == old(self).buf,
            pos <= CAPACITY ==> res is Ok && final(self).pos == pos,
            pos > CAPACITY ==> res == Err::<(), DnsError>(DnsError::BufferBounds)
                && final(self).pos == old(self).pos,
    {
        if pos > CAPACITY {
            return Err(DnsError::BufferBounds);
        }
        self.pos = pos;
        Ok(())
    }

    /// Read a single byte and move the position one step forward
    pub fn read(&mut self) -> (res: Result<u8, DnsError>)
        requires
            old(self).wf(),
        ensures
            final(self).buf == old(self).buf,
            old(self).pos < CAPACITY ==> res == Ok::<u8, DnsError>(
                old(self).buf@[old(self).pos as int],
            ) && final(self).pos == old(self).pos + 1,
            old(self).pos >= CAPACITY ==> res == Err::<u8, DnsError>(DnsError::BufferBounds)
                && final(self).pos == old(self).pos,
    {
        if self.pos >= CAPACITY {
            return Err(DnsError::BufferBounds);
        }
        let res = self.buf[self.pos];
        self.pos += 1;
        Ok(res)
    }

    /// Get a single byte, without changing the buffer position
    pub fn get(&mut self, pos: usize) -> (res: Result<u8, DnsError>)
        ensures
            *final(self) == *old(self),
            pos < CAPACITY ==> res == Ok::<u8, DnsError>(old(self).buf@[pos as int]),
            pos >= CAPACITY ==> res == Err::<u8, DnsError>(DnsError::BufferBounds),
    {
        if pos >= CAPACITY {
            return Err(DnsError::BufferBounds);
        }
        Ok(self.buf[pos])
    }

    /// Get a range of bytes
    pub fn get_range(&mut self, start: usize, len: usize) -> (res: Result<&[u8], DnsError>)
        ensures
            *final(self) == *old(self),
            start + len <= CAPACITY ==> res is Ok && res->Ok_0@ == old(self).buf@.subrange(
                start as int,
                start + len,
            ),
            start + len > CAPACITY ==> res is Err && res->Err_0 == DnsError::BufferBounds,
    {
        if start > CAPACITY || len > CAPACITY - start {
            return Err(DnsError::BufferBounds);
        }
        Ok(vstd::slice::slice_subrange(self.buf.as_slice(), start, start + len))
    }

    /// Read two bytes, stepping two steps forward
    pub fn read_u16(&mut self) -> (res: Result<u16, DnsError>)
        requires
            old(self).wf(),
        ensures
            final(self).buf == old(self).buf,
            old(self).pos + 2 <= CAPACITY ==> res == Ok::<u16, DnsError>(
                u16_at(old(self).buf@, old(self).pos as int),
            ) && final(self).pos == old(self).pos + 2,
            old(self).pos + 2 > CAPACITY ==> res == Err::<u16, DnsError>(DnsError::BufferBounds)
                && final(self).pos == CAPACITY,
    {
        let hi = self.read()?;
        let lo = self.read()?;
        let res = ((hi as u16) << 8) | (lo as u16);
        assert(((hi as u16) << 8) | (lo as u16) == (hi as int * 256 + lo as int) as u16)
            by (bit_vector);
        Ok(res)
    }

    /// Read four bytes, stepping four steps forward
    pub fn read_u32(&mut self) -> (res: Result<u32, DnsError>)
        requires
            old(self).wf(),
        ensures
            final(self).buf == old(self).buf,
            old(self).pos + 4 <= CAPACITY ==> res == Ok::<u32, DnsError>(
                u32_at(old(self).buf@, old(self).pos as int),
            ) && final(self).pos == old(self).pos + 4,
            old(self).pos + 4 > CAPACITY ==> res == Err::<u32, DnsError>(DnsError::BufferBounds)
                && final(self).pos == CAPACITY,
    {
        let b0 = self.read()?;
        let b1 = self.read()?;
        let b2 = self.read()?;
        let b3 = self.read()?;
        let res = ((b0 as u32) << 24) | ((b1 as u32) << 16) | ((b2 as u32) << 8) | (b3 as u32);
        assert(((b0 as u32) << 24) | ((b1 as u32) << 16) | ((b2 as u32) << 8) | (b3 as u32) == (
        b0 as int * 16777216 + b1 as int * 65536 + b2 as int * 256 + b3 as int) as u32)
            by (bit_vector);
        Ok(res)
    }

    /// Write a single byte at the position and move one step forward
    pub fn write(&mut self, val: u8) -> (res: Result<(), DnsError>)
        requires
            old(self).wf(),
        ensures
            final(self).is_write_of(old(self), seq![val]),
            final(self).wf(),
            res == write_outcome(old(self).pos as int, 1, true),
    {
        if self.pos >= CAPACITY {
            assert(self.buf@ =~= splice(self.buf@, self.pos as int, seq![val]));
            return Err(DnsError::BufferBounds);
        }
        self.buf[self.pos] = val;
        self.pos += 1;
        assert(self.buf@ =~= splice(old(self).buf@, old(self).pos as int, seq![val]));
        Ok(())
    }

    /// Write one byte at the position and move one step forward.
    pub fn write_u8(&mut self, val: u8) -> (res: Result<(), DnsError>)
        requires
            old(self).wf(),
        ensures
            final(self).is_write_of(old(self), seq![val]),
            final(self).wf(),
            res == write_outcome(old(self).pos as int, 1, true),
    {
        self.write(val)?;
        Ok(())
    }

    /// Write two bytes, most significant first, until one finds no room.
    pub fn write_u16(&mut self, val: u16) -> (res: Result<(), DnsError>)
        requires
            old(self).wf(),
        ensures
            final(self).is_write_of(old(self), u16_bytes(val)),
            final(self).wf(),
            res == write_outcome(old(self).pos as int, 2, true),
    {
        let hi = (val >> 8) as u8;
        let lo = (val & 0xFF) as u8;
        assert((val >> 8) as u8 == (val / 256) as u8 && (val & 0xFF) as u8 == (val % 256) as u8)
            by (bit_vector);
        let data = [hi, lo];
        assert(data@ =~= u16_bytes(val));
        self.write_bytes(data.as_slice())
    }

    /// Write four bytes, most significant first, until one finds no room.
    pub fn write_u32(&mut self, val: u32) -> (res: Result<(), DnsError>)
        requires
            old(self).wf(),
        ensures
            final(self).is_write_of(old(self), u32_bytes(val)),
            final(self).wf(),
            res == write_outcome(old(self).pos as int, 4, true),
    {
        let b0 = ((val >> 24) & 0xFF) as u8;
        let b1 = ((val >> 16) & 0xFF) as u8;
        let b2 = ((val >> 8) & 0xFF) as u8;
        let b3 = (val & 0xFF) as u8;
        assert(((val >> 24) & 0xFF) as u8 == (val / 16777216) as u8 && ((val >> 16) & 0xFF) as u8
            == ((val / 65536) % 256) as u8 && ((val >> 8) & 0xFF) as u8 == ((val / 256) % 256) as u8
            && (val & 0xFF) as u8 == (val % 256) as u8) by (bit_vector);
        let data = [b0, b1, b2, b3];
        assert(data@ =~= u32_bytes(val));
        self.write_bytes(data.as_slice())
    }

    /// Write the bytes of `data` one after the other, until one finds no
    /// room.
    pub fn write_bytes(&mut self, data: &[u8]) -> (res: Result<(), DnsError>)
        requires
            old(self).wf(),
        ensures
            final(self).is_write_of(old(self), data@),
            final(self).wf(),
            res == write_outcome(old(self).pos as int, data@.len() as int, true),
    {
        let ghost start = *self;
        let mut i: usize = 0;
        proof {
            assert(self.buf@ =~= splice(start.buf@, start.pos as int, data@.take(0)));
        }
        while i < data.len()
            invariant
                i <= data@.len(),
                start == *old(self),
                start.wf(),
                self.wf(),
                start.pos + i <= CAPACITY,
                self.is_write_of(&start, data@.take(i as int)),
            decreases data@.len() - i,
        {
            let ghost before = *self;
            let r = self.write(data[i]);
            proof {
                lemma_splice_append(
                    start.buf@,
                    start.pos as int,
                    data@.take(i as int),
                    seq![data@[i as int]],
                );
                assert(data@.take(i as int) + seq![data@[i as int]] =~= data@.take(i + 1));
            }
            if r.is_err() {
                proof {
                    lemma_splice_full(
                        start.buf@,
                        start.pos as int,
                        data@.take(i as int),
                        data@.skip(i as int),
                    );
                    assert(data@.take(i as int) + data@.skip(i as int) =~= data@);
                    assert(self.buf@ =~= before.buf@);
                }
                return Err(DnsError::BufferBounds);
            }
            i += 1;
        }
        proof {
            assert(data@.take(i as int) =~= data@);
        }
        Ok(())
    }

    /// Write `count` zero bytes, until one finds no room.
    pub fn write_zeros(&mut self, count: usize) -> (res: Result<(), DnsError>)
        requires
            old(self).wf(),
        ensures
            final(self).is_write_of(old(self), zeros(count as nat)),
            final(self).wf(),
            res == write_outcome(old(self).pos as int, count as int, true),
    {
        let ghost start = *self;
        let mut i: usize = 0;
        proof {
            assert(self.buf@ =~= splice(start.buf@, start.pos as int, zeros(0)));
        }
        while i < count
            invariant
                i <= count,
                start == *old(self),
                start.wf(),
                self.wf(),
                start.pos + i <= CAPACITY,
                self.is_write_of(&start, zeros(i as nat)),
            decreases count - i,
        {
            let ghost before = *self;
            let r = self.write(0);
            proof {
                lemma_write_then(start, before, *self, zeros(i as nat), seq![0u8]);
                assert(zeros(i as nat) + seq![0u8] =~= zeros((i + 1) as nat));
            }
            if r.is_err() {
                proof {
                    assert(self.buf@ =~= before.buf@);
                    lemma_write_stopped(
                        start,
                        *self,
                        zeros(i as nat),
                        zeros((count - i) as nat),
                    );
                    assert(zeros(i as nat) + zeros((count - i) as nat) =~= zeros(count as nat));
                }
                return Err(DnsError::BufferBounds);
            }
            i += 1;
        }
        Ok(())
    }

    /// Overwrite the byte at `pos`, leaving the position where it is.
    pub fn set(&mut self, pos: usize, val: u8) -> (res: Result<(), DnsError>)
        ensures
            final(self).pos == old(self).pos,
            final(self).buf@ == splice(old(self).buf@, pos as int, seq![val]),
            pos < CAPACITY ==> res is Ok,
            pos >= CAPACITY ==> res == Err::<(), DnsError>(DnsError::BufferBounds),
    {
        if pos >= CAPACITY {
            assert(self.buf@ =~= splice(self.buf@, pos as int, seq![val]));
            return Err(DnsError::BufferBounds);
        }
        self.buf[pos] = val;
        assert(self.buf@ =~= splice(old(self).buf@, pos as int, seq![val]));
        Ok(())
    }

    /// Overwrite the two bytes at `pos` with `val`, most significant byte
    /// first, leaving the position where it is.
    pub fn set_u16(&mut self, pos: usize, val: u16) -> (res: Result<(), DnsError>)
        ensures
            final(self).pos == old(self).pos,
            final(self).buf@ == splice(old(self).buf@, pos as int, u16_bytes(val)),
            pos + 2 <= CAPACITY ==> res is Ok,
            pos + 2 > CAPACITY ==> res == Err::<(), DnsError>(DnsError::BufferBounds),
    {
        let hi = (val >> 8) as u8;
        let lo = (val & 0xFF) as u8;
        assert((val >> 8) as u8 == (val / 256) as u8 && (val & 0xFF) as u8 == (val % 256) as u8)
            by (bit_vector);
        if self.set(pos, hi).is_err() {
            assert(self.buf@ =~= splice(old(self).buf@, pos as int, u16_bytes(val)));
            return Err(DnsError::BufferBounds);
        }
        if pos + 1 >= CAPACITY {
            assert(self.buf@ =~= splice(old(self).buf@, pos as int, u16_bytes(val)));
            return Err(DnsError::BufferBounds);
        }
        let r = self.set(pos + 1, lo);
        assert(self.buf@ =~= splice(old(self).buf@, pos as int, u16_bytes(val)));
        r
    }

    /// Write a dotted name: each label behind its length byte, then a zero
    /// byte. Nothing is compressed. Writing stops before the first label
    /// longer than 63 bytes, and at the first byte that finds no room.
    pub fn write_qname(&mut self, qname: &str) -> (res: Result<(), DnsError>)
        requires
            old(self).wf(),
        ensures
            final(self).is_write_of(old(self), name_attempt(encode_utf8(qname@)).bytes),
            final(self).wf(),
            res == write_outcome(
                old(self).pos as int,
                name_attempt(encode_utf8(qname@)).bytes.len() as int,
                name_attempt(encode_utf8(qname@)).complete,
            ),
    {
        let bytes = qname.as_bytes();
        let n = bytes.len();
        let ghost whole = name_attempt(bytes@);
        let ghost mut done: Seq<u8> = Seq::empty();
        let mut start: usize = 0;
        proof {
            assert(bytes@.skip(0) =~= bytes@);
            assert(self.buf@ =~= splice(self.buf@, self.pos as int, done));
        }
        loop
            invariant_except_break
                whole == Attempt::plain(done).followed_by(name_attempt(bytes@.skip(start as int))),
            invariant
                bytes@ == qname.spec_bytes(),
                n == bytes@.len(),
                start <= n,
                old(self).wf(),
                self.wf(),
                self.is_write_of(old(self), done),
                old(self).pos + done.len() <= CAPACITY,
                whole == name_attempt(bytes@),
            ensures
                whole == Attempt::plain(done + seq![0u8]),
            decreases n - start,
        {
            let ghost rest = bytes@.skip(start as int);
            let mut end: usize = start;
            while end < n && bytes[end] != DOT
                invariant
                    n == bytes@.len(),
                    start <= end <= n,
                    forall|k: int| start <= k < end ==> bytes@[k] != DOT,
                decreases n - end,
            {
                end += 1;
            }
            let len = end - start;
            proof {
                lemma_first_dot(rest, len as int);
                lemma_name_attempt_unfold(rest);
                assert(rest.take(len as int) =~= bytes@.subrange(start as int, end as int));
                if end < n {
                    assert(rest.skip(len + 1) =~= bytes@.skip(end + 1));
                } else {
                    assert(rest =~= bytes@.subrange(start as int, end as int));
                }
            }
            if len > MAX_LABEL {
                proof {
                    assert(done + Seq::<u8>::empty() =~= done);
                }
                return Err(DnsError::LabelTooLong);
            }
            let ghost head = seq![len as u8] + bytes@.subrange(start as int, end as int);
            let ghost mid = *self;
            let r1 = self.write_u8(len as u8);
            if r1.is_err() {
                proof {
                    lemma_splice_full(
                        old(self).buf@,
                        old(self).pos as int,
                        done,
                        whole.bytes.skip(done.len() as int),
                    );
                    assert(done + whole.bytes.skip(done.len() as int) =~= whole.bytes);
                    assert(self.buf@ =~= mid.buf@);
                }
                return Err(DnsError::BufferBounds);
            }
            let label = vstd::slice::slice_subrange(bytes, start, end);
            let r2 = self.write_bytes(label);
            proof {
                lemma_splice_append(old(self).buf@, old(self).pos as int, done, seq![len as u8]);
                lemma_splice_append(
                    old(self).buf@,
                    old(self).pos as int,
                    done + seq![len as u8],
                    label@,
                );
                assert(done + seq![len as u8] + label@ =~= done + head);
            }
            if r2.is_err() {
                proof {
                    lemma_splice_full(
                        old(self).buf@,
                        old(self).pos as int,
                        done + head,
                        whole.bytes.skip((done + head).len() as int),
                    );
                    assert((done + head) + whole.bytes.skip((done + head).len() as int)
                        =~= whole.bytes);
                }
                return Err(DnsError::BufferBounds);
            }
            let ghost old_done = done;
            proof {
                done = done + head;
            }
            if end == n {
                proof {
                    assert(done =~= old_done + (seq![len as u8] + rest));
                    assert(old_done + (seq![len as u8] + rest + seq![0u8]) =~= done + seq![0u8]);
                }
                break;
            }
            start = end + 1;
            proof {
                let next = name_attempt(bytes@.skip(start as int));
                assert(whole.bytes =~= done + next.bytes);
            }
        }
        let r3 = self.write_u8(0);
        proof {
            lemma_splice_append(old(self).buf@, old(self).pos as int, done, seq![0u8]);
        }
        r3
    }

    /// Read a name and append its dotted text, in lower case, to `outstr`.
    ///
    /// A length byte with its two top bits set is the first byte of a
    /// pointer: the name goes on at the offset that the pointer names. The
    /// position ends up behind the name's zero byte, or behind the first
    /// pointer if there is one. At most five pointers are followed. Where
    /// the name cannot be read, the position and `outstr` stay as they were.
    pub fn read_qname(&mut self, outstr: &mut String) -> (res: Result<(), DnsError>)
        requires
            old(self).wf(),
        ensures
            final(self).buf == old(self).buf,
            final(self).wf(),
            match parse_labels(old(self).buf@, old(self).pos as int, 0) {
                Ok(labels) => res is Ok && final(outstr)@ == old(outstr)@ + name_text(labels)
                    && final(self).pos == name_end(old(self).buf@, old(self).pos as int),
                Err(e) => res == Err::<(), DnsError>(e) && final(self).pos == old(self).pos
                    && final(outstr)@ == old(outstr)@,
            },
    {
        let ghost buf = self.buf@;
        let ghost start = self.pos as int;
        let ghost whole = parse_labels(buf, start, 0);
        let ghost mut seen: Seq<Seq<u8>> = Seq::empty();
        // The position within the name, which follows the pointers.
        let mut pos: usize = self.pos;
        // Where the field behind the name starts, once a pointer was met.
        let mut resume: usize = 0;
        let mut jumped = false;
        let mut jumps_performed: usize = 0;
        let mut name = String::new();
        let mut first = true;
        proof {
            assert(name@ =~= name_text(seen));
            assert forall|r: Result<Seq<Seq<u8>>, DnsError>|
                #[trigger] prepend_labels(Seq::empty(), r) == r by {
                if let Ok(l) = r {
                    assert(Seq::<Seq<u8>>::empty() + l =~= l);
                }
            }
        }
        loop
            invariant_except_break
                whole == prepend_labels(seen, parse_labels(buf, pos as int, jumps_performed as int)),
                !jumped ==> name_end(buf, start) == name_end(buf, pos as int),
            invariant
                buf == old(self).buf@,
                start == old(self).pos,
                whole == parse_labels(buf, start, 0),
                *self == *old(self),
                *outstr == *old(outstr),
                self.wf(),
                pos < 16384,
                jumps_performed <= MAX_JUMPS + 1,
                jumped <==> jumps_performed > 0,
                first <==> seen.len() == 0,
                name@ == name_text(seen),
                jumped ==> resume == name_end(buf, start) && resume <= CAPACITY,
            ensures
                whole == Ok::<Seq<Seq<u8>>, DnsError>(seen),
                !jumped ==> pos == name_end(buf, start),
                pos <= CAPACITY,
            decreases MAX_JUMPS + 1 - jumps_performed, 16384 - pos,
        {
            // A name that leads through pointer after pointer may lead in
            // a circle: stop at the cap.
            if jumps_performed > MAX_JUMPS {
                return Err(DnsError::MalformedName);
            }
            let len = match self.get(pos) {
                Ok(b) => b,
                Err(e) => {
                    return Err(e);
                },
            };
            assert((len & 0xC0) == 0xC0 <==> len >= 0xC0) by (bit_vector);
            if (len & 0xC0) == 0xC0 {
                let b2 = match self.get(pos + 1) {
                    Ok(b) => b,
                    Err(e) => {
                        return Err(e);
                    },
                };
                if !jumped {
                    resume = pos + 2;
                }
                let offset = (((len as u16) ^ 0xC0) << 8) | (b2 as u16);
                assert((((len as u16) ^ 0xC0) << 8) | (b2 as u16) == (len - 0xC0) * 256 + b2)
                    by (bit_vector)
                    requires
                        len >= 0xC0,
                ;
                pos = offset as usize;
                jumped = true;
                jumps_performed += 1;
            } else {
                pos += 1;
                if len == 0 {
                    proof {
                        assert(seen + Seq::<Seq<u8>>::empty() =~= seen);
                    }
                    break;
                }
                let label = match self.get_range(pos, len as usize) {
                    Ok(l) => l,
                    Err(e) => {
                        return Err(e);
                    },
                };
                let ghost before = name@;
                if !first {
                    name.append(".");
                }
                let text = label_string(label);
                name.append(text.as_str());
                first = false;
                pos += len as usize;
                proof {
                    reveal_strlit(".");
                    let rest = parse_labels(buf, pos as int, jumps_performed as int);
                    let grown = seen.push(label@);
                    assert(grown.drop_last() =~= seen);
                    assert("."@ =~= seq!['.']);
                    assert(name@ =~= name_text(grown));
                    if let Ok(l) = rest {
                        assert(seen + (seq![label@] + l) =~= grown + l);
                    }
                    seen = grown;
                }
            }
        }
        let _ = self.seek(if jumped { resume } else { pos });
        outstr.append(name.as_str());
        Ok(())
    }
}

/// The contents of a buffer filled from `data`: its first 512 bytes, and
/// zeroes behind them.
pub open spec fn datagram(data: Seq<u8>) -> Seq<u8> {
    Seq::new(
        CAPACITY as nat,
        |i: int|
            if i < data.len() {
                data[i]
            } else {
                0u8
            },
    )
}

/// `count` zero bytes.
pub open spec fn zeros(count: nat) -> Seq<u8> {
    Seq::new(count, |i: int| 0u8)
}

/// Two attempts to write, one after the other, are one attempt to write
/// the two pieces joined.
pub proof fn lemma_write_then(
    a: BytePacketBuffer,
    b: BytePacketBuffer,
    c: BytePacketBuffer,
    first: Seq<u8>,
    second: Seq<u8>,
)
    requires
        a.wf(),
        b.is_write_of(&a, first),
        c.is_write_of(&b, second),
    ensures
        c.is_write_of(&a, first + second),
{
    if a.pos + first.len() <= CAPACITY {
        lemma_splice_append(a.buf@, a.pos as int, first, second);
    } else {
        lemma_splice_full(a.buf@, a.pos as int, first, second);
        assert(c.buf@ =~= b.buf@);
    }
}

/// An attempt to write that filled the buffer is also an attempt to write
/// any longer piece.
pub proof fn lemma_write_stopped(
    a: BytePacketBuffer,
    b: BytePacketBuffer,
    first: Seq<u8>,
    second: Seq<u8>,
)
    requires
        a.wf(),
        b.is_write_of(&a, first),
        a.pos + first.len() >= CAPACITY,
    ensures
        b.is_write_of(&a, first + second),
{
    lemma_splice_full(a.buf@, a.pos as int, first, second);
}

/// A whole message: its header, its questions, and its three sections of
/// records.
#[derive(Clone, Debug)]
pub struct DnsPacket {
    pub header: DnsHeader,
    pub questions: Vec<DnsQuestion>,
    pub answers: Vec<DnsRecord>,
    pub authorities: Vec<DnsRecord>,
    pub resources: Vec<DnsRecord>,
}

/// What a message says.
pub struct PacketView {
    pub header: DnsHeader,
    pub questions: Seq<QuestionView>,
    pub answers: Seq<RecordView>,
    pub authorities: Seq<RecordView>,
    pub resources: Seq<RecordView>,
}

/// What each of a list of questions says.
pub open spec fn question_views(questions: Seq<DnsQuestion>) -> Seq<QuestionView> {
    Seq::new(questions.len(), |i: int| questions[i]@)
}

/// What each of a list of records says.
pub open spec fn record_views(records: Seq<DnsRecord>) -> Seq<RecordView> {
    Seq::new(records.len(), |i: int| records[i]@)
}

impl View for DnsPacket {
    type V = PacketView;

    open spec fn view(&self) -> PacketView {
        PacketView {
            header: self.header,
            questions: question_views(self.questions@),
            answers: record_views(self.answers@),
            authorities: record_views(self.authorities@),
            resources: record_views(self.resources@),
        }
    }
}

impl PacketView {
    /// The message with the four counts of its header set to the lengths of
    /// its four lists, as they are when it is written.
    pub open spec fn counted(self) -> PacketView {
        PacketView {
            header: DnsHeader {
                questions: self.questions.len() as u16,
                answers: self.answers.len() as u16,
                authoritative_entries: self.authorities.len() as u16,
                resource_entries: self.resources.len() as u16,
                ..self.header
            },
            ..self
        }
    }
}

/// `count` questions in a row from `pos` on, and where the field behind
/// them starts.
pub open spec fn parse_questions(buf: Seq<u8>, pos: int, count: nat) -> Result<
    (Seq<QuestionView>, int),
    DnsError,
>
    decreases count,
{
    if count == 0 {
        Ok((Seq::empty(), pos))
    } else {
        match parse_question(buf, pos) {
            Err(e) => Err(e),
            Ok((q, next)) => prepend_questions(
                seq![q],
                parse_questions(buf, next, (count - 1) as nat),
            ),
        }
    }
}

/// `count` records in a row from `pos` on, and where the field behind them
/// starts.
pub open spec fn parse_records(buf: Seq<u8>, pos: int, count: nat) -> Result<
    (Seq<RecordView>, int),
    DnsError,
>
    decreases count,
{
    if count == 0 {
        Ok((Seq::empty(), pos))
    } else {
        match parse_record(buf, pos) {
            Err(e) => Err(e),
            Ok((r, next)) => prepend_records(seq![r], parse_records(buf, next, (count - 1) as nat)),
        }
    }
}

/// `done` put before the questions that the rest of a section gave, if it
/// gave any.
pub open spec fn prepend_questions(
    done: Seq<QuestionView>,
    rest: Result<(Seq<QuestionView>, int), DnsError>,
) -> Result<(Seq<QuestionView>, int), DnsError> {
    match rest {
        Ok((qs, end)) => Ok((done + qs, end)),
        Err(e) => Err(e),
    }
}

/// `done` put before the records that the rest of a section gave, if it
/// gave any.
pub open spec fn prepend_records(
    done: Seq<RecordView>,
    rest: Result<(Seq<RecordView>, int), DnsError>,
) -> Result<(Seq<RecordView>, int), DnsError> {
    match rest {
        Ok((rs, end)) => Ok((done + rs, end)),
        Err(e) => Err(e),
    }
}

/// The message at `pos` and where it ends: the header, then as many
/// questions, answers, authority records and additional records as the
/// header counts. The first failure is the failure of the whole.
pub open spec fn parse_packet(buf: Seq<u8>, pos: int) -> Result<(PacketView, int), DnsError> {
    if pos + HEADER_LEN > CAPACITY {
        Err(DnsError::BufferBounds)
    } else {
        let header = header_at(buf, pos);
        match parse_questions(buf, pos + HEADER_LEN, header.questions as nat) {
            Err(e) => Err(e),
            Ok((questions, after_questions)) => match parse_records(buf, after_questions, header.answers as nat) {
                Err(e) => Err(e),
                Ok((answers, after_answers)) => match parse_records(
                    buf,
                    after_answers,
                    header.authoritative_entries as nat,
                ) {
                    Err(e) => Err(e),
                    Ok((authorities, after_authorities)) => match parse_records(
                        buf,
                        after_authorities,
                        header.resource_entries as nat,
                    ) {
                        Err(e) => Err(e),
                        Ok((resources, end)) => Ok(
                            (PacketView { header, questions, answers, authorities, resources }, end),
                        ),
                    },
                },
            },
        }
    }
}

/// The wire form of a list of questions, one after the other.
pub open spec fn questions_attempt(questions: Seq<QuestionView>) -> Attempt
    decreases questions.len(),
{
    if questions.len() == 0 {
        Attempt::plain(Seq::empty())
    } else {
        question_attempt(questions[0]).followed_by(questions_attempt(questions.drop_first()))
    }
}

/// The wire form of a list of records, one after the other.
pub open spec fn records_attempt(records: Seq<RecordView>) -> Attempt
    decreases records.len(),
{
    if records.len() == 0 {
        Attempt::plain(Seq::empty())
    } else {
        record_attempt(records[0]).followed_by(records_attempt(records.drop_first()))
    }
}

/// The wire form of a message: the header with its counts set, the
/// questions, the answers, the authority records, the additional records.
pub open spec fn packet_attempt(p: PacketView) -> Attempt {
    Attempt::plain(header_bytes(p.counted().header)).followed_by(
        questions_attempt(p.questions),
    ).followed_by(records_attempt(p.answers)).followed_by(
        records_attempt(p.authorities),
    ).followed_by(records_attempt(p.resources))
}

/// Read `count` questions in a row. Where one of them cannot be read, the
/// position stays as it was.
pub fn read_questions(buffer: &mut BytePacketBuffer, count: u16) -> (res: Result<
    Vec<DnsQuestion>,
    DnsError,
>)
    requires
        old(buffer).wf(),
    ensures
        final(buffer).buf == old(buffer).buf,
        final(buffer).wf(),
        match parse_questions(old(buffer).buf@, old(buffer).pos as int, count as nat) {
            Ok((qs, end)) => res is Ok && question_views(res->Ok_0@) == qs && final(buffer).pos
                == end,
            Err(e) => res is Err && res->Err_0 == e && final(buffer).pos == old(buffer).pos,
        },
{
    let start = buffer.pos();
    let ghost buf = buffer.buf@;
    let ghost whole = parse_questions(buf, buffer.pos as int, count as nat);
    let mut out: Vec<DnsQuestion> = Vec::new();
    let mut i: u16 = 0;
    proof {
        assert(question_views(out@) =~= Seq::<QuestionView>::empty());
        let rest = parse_questions(buf, buffer.pos as int, count as nat);
        if let Ok((qs, end)) = rest {
            assert(Seq::<QuestionView>::empty() + qs =~= qs);
        }
    }
    while i < count
        invariant
            i <= count,
            buffer.buf == old(buffer).buf,
            buf == old(buffer).buf@,
            start == old(buffer).pos,
            start <= CAPACITY,
            buffer.wf(),
            whole == parse_questions(old(buffer).buf@, old(buffer).pos as int, count as nat),
            whole == prepend_questions(
                question_views(out@),
                parse_questions(buf, buffer.pos as int, (count - i) as nat),
            ),
        decreases count - i,
    {
        let mut question = DnsQuestion::new(String::new(), QueryType::UNKNOWN(0));
        let ghost at = buffer.pos as int;
        let ghost before = question_views(out@);
        if let Err(e) = question.read(buffer) {
            let _ = buffer.seek(start);
            return Err(e);
        }
        proof {
            let read = parse_question(buf, at)->Ok_0.0;
            assert(Seq::<char>::empty() + read.name =~= read.name);
            let rest = parse_questions(buf, buffer.pos as int, (count - i - 1) as nat);
            if let Ok((qs, end)) = rest {
                assert(before + (seq![question@] + qs) =~= before.push(question@) + qs);
            }
        }
        out.push(question);
        proof {
            assert(question_views(out@) =~= before.push(question@));
        }
        i += 1;
    }
    proof {
        assert(question_views(out@) + Seq::<QuestionView>::empty() =~= question_views(out@));
    }
    Ok(out)
}

/// Read `count` records in a row. Where one of them cannot be read, the
/// position stays as it was.
pub fn read_records(buffer: &mut BytePacketBuffer, count: u16) -> (res: Result<
    Vec<DnsRecord>,
    DnsError,
>)
    requires
        old(buffer).wf(),
    ensures
        final(buffer).buf == old(buffer).buf,
        final(buffer).wf(),
        match parse_records(old(buffer).buf@, old(buffer).pos as int, count as nat) {
            Ok((rs, end)) => res is Ok && record_views(res->Ok_0@) == rs && final(buffer).pos
                == end,
            Err(e) => res is Err && res->Err_0 == e && final(buffer).pos == old(buffer).pos,
        },
{
    let start = buffer.pos();
    let ghost buf = buffer.buf@;
    let ghost whole = parse_records(buf, buffer.pos as int, count as nat);
    let mut out: Vec<DnsRecord> = Vec::new();
    let mut i: u16 = 0;
    proof {
        assert(record_views(out@) =~= Seq::<RecordView>::empty());
        let rest = parse_records(buf, buffer.pos as int, count as nat);
        if let Ok((rs, end)) = rest {
            assert(Seq::<RecordView>::empty() + rs =~= rs);
        }
    }
    while i < count
        invariant
            i <= count,
            buffer.buf == old(buffer).buf,
            buf == old(buffer).buf@,
            start == old(buffer).pos,
            start <= CAPACITY,
            buffer.wf(),
            whole == parse_records(old(buffer).buf@, old(buffer).pos as int, count as nat),
            whole == prepend_records(
                record_views(out@),
                parse_records(buf, buffer.pos as int, (count - i) as nat),
            ),
        decreases count - i,
    {
        let ghost before = record_views(out@);
        let rec = match DnsRecord::read(buffer) {
            Ok(r) => r,
            Err(e) => {
                let _ = buffer.seek(start);
                return Err(e);
            },
        };
        proof {
            let rest = parse_records(buf, buffer.pos as int, (count - i - 1) as nat);
            if let Ok((rs, end)) = rest {
                assert(before + (seq![rec@] + rs) =~= before.push(rec@) + rs);
            }
        }
        out.push(rec);
        proof {
            assert(record_views(out@) =~= before.push(rec@));
        }
        i += 1;
    }
    proof {
        assert(record_views(out@) + Seq::<RecordView>::empty() =~= record_views(out@));
    }
    Ok(out)
}

/// Write a list of records, one after the other, up to the first that
/// fails.
pub fn write_records(records: &Vec<DnsRecord>, buffer: &mut BytePacketBuffer) -> (res: Result<
    (),
    DnsError,
>)
    requires
        old(buffer).wf(),
    ensures
        final(buffer).wf(),
        final(buffer).pos >= old(buffer).pos,
        forall|i: int| 0 <= i < old(buffer).pos ==> final(buffer).buf@[i] == old(buffer).buf@[i],
        res == write_outcome(
            old(buffer).pos as int,
            records_attempt(record_views(records@)).bytes.len() as int,
            records_attempt(record_views(records@)).complete,
        ),
        res is Ok ==> final(buffer).is_write_of(
            old(buffer),
            records_attempt(record_views(records@)).bytes,
        ),
{
    let ghost views = record_views(records@);
    let ghost whole = records_attempt(views);
    let ghost mut done: Seq<u8> = Seq::empty();
    let mut i: usize = 0;
    proof {
        assert(views.skip(0) =~= views);
        assert(done + whole.bytes =~= whole.bytes);
        assert(buffer.buf@ =~= splice(buffer.buf@, buffer.pos as int, done));
    }
    while i < records.len()
        invariant
            i <= records@.len(),
            views == record_views(records@),
            whole == records_attempt(views),
            old(buffer).wf(),
            buffer.wf(),
            buffer.is_write_of(old(buffer), done),
            old(buffer).pos + done.len() <= CAPACITY,
            whole.bytes == done + records_attempt(views.skip(i as int)).bytes,
            whole.complete == records_attempt(views.skip(i as int)).complete,
        decreases records@.len() - i,
    {
        let ghost mid = *buffer;
        let ghost one = record_attempt(views[i as int]);
        let ghost rest = records_attempt(views.skip(i + 1));
        proof {
            assert(views.skip(i as int).drop_first() =~= views.skip(i + 1));
            assert(views.skip(i as int)[0] == views[i as int]);
            assert(views[i as int] == records@[i as int]@);
            lemma_outcome_then(
                mid.pos as int,
                one.bytes.len() as int,
                one.complete,
                rest.bytes.len() as int,
                rest.complete,
            );
        }
        match records[i].write(buffer) {
            Err(e) => {
                return Err(e);
            },
            Ok(_) => {
                proof {
                    lemma_write_then(*old(buffer), mid, *buffer, done, one.bytes);
                    assert(done + (one.bytes + rest.bytes) =~= (done + one.bytes) + rest.bytes);
                    done = done + one.bytes;
                }
            },
        }
        i += 1;
    }
    proof {
        assert(views.skip(i as int) =~= Seq::<RecordView>::empty());
        assert(done + Seq::<u8>::empty() =~= done);
    }
    Ok(())
}

/// Write a list of questions, one after the other, up to the first that
/// fails.
pub fn write_questions(questions: &Vec<DnsQuestion>, buffer: &mut BytePacketBuffer) -> (res:
    Result<(), DnsError>)
    requires
        old(buffer).wf(),
    ensures
        final(buffer).wf(),
        final(buffer).pos >= old(buffer).pos,
        forall|i: int| 0 <= i < old(buffer).pos ==> final(buffer).buf@[i] == old(buffer).buf@[i],
        res == write_outcome(
            old(buffer).pos as int,
            questions_attempt(question_views(questions@)).bytes.len() as int,
            questions_attempt(question_views(questions@)).complete,
        ),
        res is Ok ==> final(buffer).is_write_of(
            old(buffer),
            questions_attempt(question_views(questions@)).bytes,
        ),
{
    let ghost views = question_views(questions@);
    let ghost whole = questions_attempt(views);
    let ghost mut done: Seq<u8> = Seq::empty();
    let mut i: usize = 0;
    proof {
        assert(views.skip(0) =~= views);
        assert(done + whole.bytes =~= whole.bytes);
        assert(buffer.buf@ =~= splice(buffer.buf@, buffer.pos as int, done));
    }
    while i < questions.len()
        invariant
            i <= questions@.len(),
            views == question_views(questions@),
            whole == questions_attempt(views),
            old(buffer).wf(),
            buffer.wf(),
            buffer.is_write_of(old(buffer), done),
            old(buffer).pos + done.len() <= CAPACITY,
            whole.bytes == done + questions_attempt(views.skip(i as int)).bytes,
            whole.complete == questions_attempt(views.skip(i as int)).complete,
        decreases questions@.len() - i,
    {
        let ghost mid = *buffer;
        let ghost one = question_attempt(views[i as int]);
        let ghost rest = questions_attempt(views.skip(i + 1));
        proof {
            assert(views.skip(i as int).drop_first() =~= views.skip(i + 1));
            assert(views.skip(i as int)[0] == views[i as int]);
            assert(views[i as int] == questions@[i as int]@);
            lemma_outcome_then(
                mid.pos as int,
                one.bytes.len() as int,
                one.complete,
                rest.bytes.len() as int,
                rest.complete,
            );
        }
        match questions[i].write(buffer) {
            Err(e) => {
                return Err(e);
            },
            Ok(_) => {
                proof {
                    lemma_write_then(*old(buffer), mid, *buffer, done, one.bytes);
                    assert(done + (one.bytes + rest.bytes) =~= (done + one.bytes) + rest.bytes);
                    done = done + one.bytes;
                }
            },
        }
        i += 1;
    }
    proof {
        assert(views.skip(i as int) =~= Seq::<QuestionView>::empty());
        assert(done + Seq::<u8>::empty() =~= done);
    }
    Ok(())
}

impl DnsPacket {
    /// A message with a header of zeroes and four empty lists.
    pub fn new() -> (p: DnsPacket)
        ensures
            p.header == blank_header(),
            p.questions@.len() == 0,
            p.answers@.len() == 0,
            p.authorities@.len() == 0,
            p.resources@.len() == 0,
    {
        DnsPacket {
            header: DnsHeader::new(),
            questions: Vec::new(),
            answers: Vec::new(),
            authorities: Vec::new(),
            resources: Vec::new(),
        }
    }

    /// Read a whole message at the position of `buffer`. The first failure
    /// is the failure of the whole: no part of a message is handed out, and
    /// the position stays as it was.
    pub fn from_buffer(buffer: &mut BytePacketBuffer) -> (res: Result<DnsPacket, DnsError>)
        requires
            old(buffer).wf(),
        ensures
            final(buffer).buf == old(buffer).buf,
            final(buffer).wf(),
            match parse_packet(old(buffer).buf@, old(buffer).pos as int) {
                Ok((p, end)) => res is Ok && res->Ok_0@ == p && final(buffer).pos == end,
                Err(e) => res is Err && res->Err_0 == e && final(buffer).pos == old(buffer).pos,
            },
    {
        let start = buffer.pos();
        match DnsPacket::read_sections(buffer) {
            Ok(packet) => Ok(packet),
            Err(e) => {
                let _ = buffer.seek(start);
                Err(e)
            },
        }
    }

    /// Read the header and the four sections that it counts.
    fn read_sections(buffer: &mut BytePacketBuffer) -> (res: Result<DnsPacket, DnsError>)
        requires
            old(buffer).wf(),
        ensures
            final(buffer).buf == old(buffer).buf,
            final(buffer).wf(),
            match parse_packet(old(buffer).buf@, old(buffer).pos as int) {
                Ok((p, end)) => res is Ok && res->Ok_0@ == p && final(buffer).pos == end,
                Err(e) => res is Err && res->Err_0 == e,
            },
    {
        let mut result = DnsPacket::new();
        result.header.read(buffer)?;
        result.questions = read_questions(buffer, result.header.questions)?;
        result.answers = read_records(buffer, result.header.answers)?;
        result.authorities = read_records(buffer, result.header.authoritative_entries)?;
        result.resources = read_records(buffer, result.header.resource_entries)?;
        Ok(result)
    }

    /// Set the four counts of the header to the lengths of the four lists,
    /// then write the header, the questions, the answers, the authority
    /// records and the additional records, up to the first that fails.
    pub fn write(&mut self, buffer: &mut BytePacketBuffer) -> (res: Result<(), DnsError>)
        requires
            old(buffer).wf(),
        ensures
            final(self)@ == old(self)@.counted(),
            final(self).questions == old(self).questions,
            final(self).answers == old(self).answers,
            final(self).authorities == old(self).authorities,
            final(self).resources == old(self).resources,
            final(buffer).wf(),
            final(buffer).pos >= old(buffer).pos,
            forall|i: int|
                0 <= i < old(buffer).pos ==> final(buffer).buf@[i] == old(buffer).buf@[i],
            res == write_outcome(
                old(buffer).pos as int,
                packet_attempt(old(self)@).bytes.len() as int,
                packet_attempt(old(self)@).complete,
            ),
            res is Ok ==> final(buffer).is_write_of(old(buffer), packet_attempt(old(self)@).bytes),
    {
        self.header.questions = self.questions.len() as u16;
        self.header.answers = self.answers.len() as u16;
        self.header.authoritative_entries = self.authorities.len() as u16;
        self.header.resource_entries = self.resources.len() as u16;
        let ghost head = header_bytes(self.header);
        let ghost qs = questions_attempt(self@.questions);
        let ghost an = records_attempt(self@.answers);
        let ghost au = records_attempt(self@.authorities);
        let ghost ad = records_attempt(self@.resources);
        let ghost origin = old(buffer).pos as int;
        proof {
            assert(self@ == old(self)@.counted());
            lemma_outcome_then(
                origin,
                head.len() as int,
                true,
                qs.bytes.len() as int,
                qs.complete,
            );
            let a1 = Attempt::plain(head).followed_by(qs);
            lemma_outcome_then(
                origin,
                a1.bytes.len() as int,
                a1.complete,
                an.bytes.len() as int,
                an.complete,
            );
            let a2 = a1.followed_by(an);
            lemma_outcome_then(
                origin,
                a2.bytes.len() as int,
                a2.complete,
                au.bytes.len() as int,
                au.complete,
            );
            let a3 = a2.followed_by(au);
            lemma_outcome_then(
                origin,
                a3.bytes.len() as int,
                a3.complete,
                ad.bytes.len() as int,
                ad.complete,
            );
        }
        self.header.write(buffer)?;
        let ghost b1 = *buffer;
        write_questions(&self.questions, buffer)?;
        let ghost b2 = *buffer;
        write_records(&self.answers, buffer)?;
        let ghost b3 = *buffer;
        write_records(&self.authorities, buffer)?;
        let ghost b4 = *buffer;
        write_records(&self.resources, buffer)?;
        proof {
            lemma_write_then(*old(buffer), b1, b2, head, qs.bytes);
            lemma_write_then(*old(buffer), b2, b3, head + qs.bytes, an.bytes);
            lemma_write_then(*old(buffer), b3, b4, head + qs.bytes + an.bytes, au.bytes);
            lemma_write_then(
                *old(buffer),
                b4,
                *buffer,
                head + qs.bytes + an.bytes + au.bytes,
                ad.bytes,
            );
        }
        Ok(())
    }

    /// Read a whole message from the first 512 bytes of a datagram.
    pub fn decode(data: &[u8]) -> (res: Result<DnsPacket, DnsError>)
        ensures
            match parse_packet(datagram(data@), 0) {
                Ok((p, end)) => res is Ok && res->Ok_0@ == p,
                Err(e) => res is Err && res->Err_0 == e,
            },
    {
        let mut buffer = BytePacketBuffer::from_bytes(data);
        DnsPacket::from_buffer(&mut buffer)
    }

    /// Set the four counts of the header, and give the bytes of the message
    /// as it is written into an empty buffer.
    pub fn encode(&mut self) -> (res: Result<Vec<u8>, DnsError>)
        ensures
            final(self)@ == old(self)@.counted(),
            final(self).questions == old(self).questions,
            final(self).answers == old(self).answers,
            final(self).authorities == old(self).authorities,
            final(self).resources == old(self).resources,
            match res {
                Ok(bytes) => bytes@ == packet_attempt(old(self)@).bytes && write_outcome(
                    0,
                    packet_attempt(old(self)@).bytes.len() as int,
                    packet_attempt(old(self)@).complete,
                ) is Ok,
                Err(e) => write_outcome(
                    0,
                    packet_attempt(old(self)@).bytes.len() as int,
                    packet_attempt(old(self)@).complete,
                ) == Err::<(), DnsError>(e),
            },
    {
        let mut buffer = BytePacketBuffer::new();
        if let Err(e) = self.write(&mut buffer) {
            return Err(e);
        }
        let len = buffer.pos();
        let bytes = vstd::slice::slice_to_vec(
            vstd::slice::slice_subrange(buffer.buf.as_slice(), 0, len),
        );
        assert(bytes@ =~= packet_attempt(old(self)@).bytes);
        Ok(bytes)
    }

    /// The address of the first address record among the answers.
    pub fn get_random_a(&self) -> (res: Option<Ipv4Address>)
        ensures
            res == first_address(self@.answers),
    {
        let mut i: usize = 0;
        proof {
            assert(self@.answers.skip(0) =~= self@.answers);
        }
        while i < self.answers.len()
            invariant
                i <= self.answers@.len(),
                first_address(self@.answers) == first_address(self@.answers.skip(i as int)),
            decreases self.answers@.len() - i,
        {
            proof {
                assert(self@.answers.skip(i as int).drop_first() =~= self@.answers.skip(i + 1));
                assert(self@.answers.skip(i as int)[0] == self.answers@[i as int]@);
            }
            match &self.answers[i] {
                DnsRecord::A { addr, .. } => {
                    return Some(*addr);
                },
                _ => {},
            }
            i += 1;
        }
        None
    }

    /// The name servers among the authority records whose zone holds
    /// `qname`, as pairs of zone and host, in the order of the records.
    pub fn get_ns<'a>(&'a self, qname: &'a str) -> (res: Vec<(&'a str, &'a str)>)
        ensures
            pair_views(res@) == name_servers(self@.authorities, qname@),
    {
        let mut out: Vec<(&'a str, &'a str)> = Vec::new();
        let mut i: usize = 0;
        proof {
            assert(self@.authorities.take(0) =~= Seq::<RecordView>::empty());
            assert(pair_views(out@) =~= Seq::<(Seq<char>, Seq<char>)>::empty());
        }
        while i < self.authorities.len()
            invariant
                i <= self.authorities@.len(),
                pair_views(out@) == name_servers(self@.authorities.take(i as int), qname@),
            decreases self.authorities@.len() - i,
        {
            let ghost before = pair_views(out@);
            proof {
                assert(self@.authorities.take(i + 1).drop_last() =~= self@.authorities.take(
                    i as int,
                ));
                assert(self@.authorities.take(i + 1).last() == self.authorities@[i as int]@);
            }
            match &self.authorities[i] {
                DnsRecord::NS { domain, host, .. } => {
                    if zone_covers(domain.as_str(), qname) {
                        out.push((domain.as_str(), host.as_str()));
                        proof {
                            assert(pair_views(out@) =~= before.push((domain@, host@)));
                        }
                    }
                },
                _ => {},
            }
            i += 1;
        }
        proof {
            assert(self@.authorities.take(i as int) =~= self@.authorities);
        }
        out
    }

    /// The address of a name server for `qname` that the message itself
    /// gives: the first address record among the additional records whose
    /// owner is the host of a name server for `qname`, the name servers
    /// taken in order.
    pub fn get_resolved_ns(&self, qname: &str) -> (res: Option<Ipv4Address>)
        ensures
            res == resolved_address(name_servers(self@.authorities, qname@), self@.resources),
    {
        let servers = self.get_ns(qname);
        let ghost ns = name_servers(self@.authorities, qname@);
        let mut i: usize = 0;
        proof {
            assert(ns.skip(0) =~= ns);
        }
        while i < servers.len()
            invariant
                i <= servers@.len(),
                pair_views(servers@) == ns,
                ns == name_servers(self@.authorities, qname@),
                resolved_address(ns, self@.resources) == resolved_address(
                    ns.skip(i as int),
                    self@.resources,
                ),
            decreases servers@.len() - i,
        {
            let host = servers[i].1;
            proof {
                assert(ns.skip(i as int).drop_first() =~= ns.skip(i + 1));
                assert(ns.skip(i as int)[0] == ns[i as int]);
                assert(ns[i as int].1 == host@);
            }
            if let Some(addr) = self.glue_for(host) {
                return Some(addr);
            }
            i += 1;
        }
        None
    }

    /// The address of the first address record among the additional
    /// records whose owner is `host`.
    pub fn glue_for(&self, host: &str) -> (res: Option<Ipv4Address>)
        ensures
            res == glue_address(self@.resources, host@),
    {
        let mut i: usize = 0;
        proof {
            assert(self@.resources.skip(0) =~= self@.resources);
        }
        while i < self.resources.len()
            invariant
                i <= self.resources@.len(),
                glue_address(self@.resources, host@) == glue_address(
                    self@.resources.skip(i as int),
                    host@,
                ),
            decreases self.resources@.len() - i,
        {
            proof {
                assert(self@.resources.skip(i as int).drop_first() =~= self@.resources.skip(i + 1));
                assert(self@.resources.skip(i as int)[0] == self.resources@[i as int]@);
            }
            match &self.resources[i] {
                DnsRecord::A { domain, addr, .. } => {
                    if same_text(domain.as_str(), host) {
                        return Some(*addr);
                    }
                },
                _ => {},
            }
            i += 1;
        }
        None
    }

    /// The host of the first name server for `qname` among the authority
    /// records, whether the message gives its address or not.
    pub fn get_unresolved_ns<'a>(&'a self, qname: &'a str) -> (res: Option<&'a str>)
        ensures
            res is Some <==> name_servers(self@.authorities, qname@).len() > 0,
            res is Some ==> res->Some_0@ == name_servers(self@.authorities, qname@)[0].1,
    {
        let servers = self.get_ns(qname);
        if servers.len() > 0 {
            Some(servers[0].1)
        } else {
            None
        }
    }
}

/// A query with one question: for `name` and `qtype`, under `id`, with
/// recursion asked for or not.
pub fn build_query(name: &str, qtype: QueryType, id: u16, recursion_desired: bool) -> (p: DnsPacket)
    ensures
        p@ == query_view(name@, qtype, id, recursion_desired),
{
    let mut packet = DnsPacket::new();
    packet.header.id = id;
    packet.header.questions = 1;
    packet.header.recursion_desired = recursion_desired;
    packet.questions.push(DnsQuestion::new(name.to_owned(), qtype));
    proof {
        assert(packet@.questions =~= seq![QuestionView { name: name@, qtype }]);
        assert(packet@.answers =~= Seq::<RecordView>::empty());
        assert(packet@.authorities =~= Seq::<RecordView>::empty());
        assert(packet@.resources =~= Seq::<RecordView>::empty());
    }
    packet
}

/// What a query with one question says.
pub open spec fn query_view(
    name: Seq<char>,
    qtype: QueryType,
    id: u16,
    recursion_desired: bool,
) -> PacketView {
    PacketView {
        header: DnsHeader { id, questions: 1, recursion_desired, ..blank_header() },
        questions: seq![QuestionView { name, qtype }],
        answers: Seq::empty(),
        authorities: Seq::empty(),
        resources: Seq::empty(),
    }
}

/// Whether two texts are the same.
pub fn same_text(a: &str, b: &str) -> (r: bool)
    ensures
        r == (a@ == b@),
{
    let x = a.as_bytes();
    let y = b.as_bytes();
    if x.len() != y.len() {
        return false;
    }
    let mut i: usize = 0;
    while i < x.len()
        invariant
            i <= x@.len(),
            x@ == a.spec_bytes(),
            y@ == b.spec_bytes(),
            x@.len() == y@.len(),
            forall|k: int| 0 <= k < i ==> x@[k] == y@[k],
        decreases x@.len() - i,
    {
        if x[i] != y[i] {
            return false;
        }
        i += 1;
    }
    proof {
        assert(x@ =~= y@);
        vstd::utf8::encode_utf8_decode_utf8(a@);
        vstd::utf8::encode_utf8_decode_utf8(b@);
    }
    true
}

/// The texts of a list of pairs of texts.
pub open spec fn pair_views(pairs: Seq<(&str, &str)>) -> Seq<(Seq<char>, Seq<char>)> {
    Seq::new(pairs.len(), |i: int| (pairs[i].0@, pairs[i].1@))
}

/// The address of the first address record in a list.
pub open spec fn first_address(records: Seq<RecordView>) -> Option<Ipv4Address>
    decreases records.len(),
{
    if records.len() == 0 {
        None
    } else {
        match records[0] {
            RecordView::A { addr, .. } => Some(addr),
            _ => first_address(records.drop_first()),
        }
    }
}

/// The name servers in a list of records whose zone holds `qname`, as pairs
/// of zone and host, in the order of the records.
pub open spec fn name_servers(records: Seq<RecordView>, qname: Seq<char>) -> Seq<
    (Seq<char>, Seq<char>),
>
    decreases records.len(),
{
    if records.len() == 0 {
        Seq::empty()
    } else {
        let before = name_servers(records.drop_last(), qname);
        match records.last() {
            RecordView::NS { domain, host, .. } => if covers(
                encode_utf8(domain),
                encode_utf8(qname),
            ) {
                before.push((domain, host))
            } else {
                before
            },
            _ => before,
        }
    }
}

/// The address of the first address record in a list whose owner is `host`.
pub open spec fn glue_address(records: Seq<RecordView>, host: Seq<char>) -> Option<Ipv4Address>
    decreases records.len(),
{
    if records.len() == 0 {
        None
    } else {
        match records[0] {
            RecordView::A { domain, addr, .. } => if domain == host {
                Some(addr)
            } else {
                glue_address(records.drop_first(), host)
            },
            _ => glue_address(records.drop_first(), host),
        }
    }
}

/// The first address that a list of additional records gives for the host
/// of one of the name servers, the name servers taken in order.
pub open spec fn resolved_address(
    servers: Seq<(Seq<char>, Seq<char>)>,
    records: Seq<RecordView>,
) -> Option<Ipv4Address>
    decreases servers.len(),
{
    if servers.len() == 0 {
        None
    } else {
        match glue_address(records, servers[0].1) {
            Some(addr) => Some(addr),
            None => resolved_address(servers.drop_first(), records),
        }
    }
}

} // verus!
