//! The fixed header of a message: id, flags, result code and four counts.

use vstd::prelude::*;
use crate::error::DnsError;
use crate::packets::BytePacketBuffer;
use crate::wire::{u16_at, u16_bytes, write_outcome, CAPACITY};

verus! {

/// The result code of a reply: the six codes with a name, and every other
/// code carried as it came.
#[derive(Copy, Clone, Debug, PartialEq, Eq, Structural, Hash)]
pub enum ResultCode {
    NOERROR,
    FORMERR,
    SERVFAIL,
    NXDOMAIN,
    NOTIMP,
    REFUSED,
    UNKNOWN(u8),
}

/// The result code that a number stands for.
pub open spec fn result_code_of(num: u8) -> ResultCode {
    if num == 0 {
        ResultCode::NOERROR
    } else if num == 1 {
        ResultCode::FORMERR
    } else if num == 2 {
        ResultCode::SERVFAIL
    } else if num == 3 {
        ResultCode::NXDOMAIN
    } else if num == 4 {
        ResultCode::NOTIMP
    } else if num == 5 {
        ResultCode::REFUSED
    } else {
        ResultCode::UNKNOWN(num)
    }
}

/// The number of a result code.
pub open spec fn result_code_num(code: ResultCode) -> u8 {
    match code {
        ResultCode::NOERROR => 0,
        ResultCode::FORMERR => 1,
        ResultCode::SERVFAIL => 2,
        ResultCode::NXDOMAIN => 3,
        ResultCode::NOTIMP => 4,
        ResultCode::REFUSED => 5,
        ResultCode::UNKNOWN(x) => x,
    }
}

impl ResultCode {
    /// A result code fits the header when its number fits four bits and it
    /// is what that number decodes to.
    pub open spec fn fits_header(self) -> bool {
        result_code_num(self) < 16 && result_code_of(result_code_num(self)) == self
    }

    /// The result code that a number stands for.
    pub fn from_num(num: u8) -> (code: ResultCode)
        ensures
            code == result_code_of(num),
    {
        match num {
            0 => ResultCode::NOERROR,
            1 => ResultCode::FORMERR,
            2 => ResultCode::SERVFAIL,
            3 => ResultCode::NXDOMAIN,
            4 => ResultCode::NOTIMP,
            5 => ResultCode::REFUSED,
            _ => ResultCode::UNKNOWN(num),
        }
    }

    /// The number of the result code.
    pub fn to_num(&self) -> (num: u8)
        ensures
            num == result_code_num(*self),
    {
        match *self {
            ResultCode::NOERROR => 0,
            ResultCode::FORMERR => 1,
            ResultCode::SERVFAIL => 2,
            ResultCode::NXDOMAIN => 3,
            ResultCode::NOTIMP => 4,
            ResultCode::REFUSED => 5,
            ResultCode::UNKNOWN(x) => x,
        }
    }
}

/// The fixed twelve-byte head of a message.
#[derive(Copy, Clone, Debug, PartialEq, Eq, Structural)]
pub struct DnsHeader {
    pub id: u16,
    pub recursion_desired: bool,
    pub truncated_message: bool,
    pub authoritative_answer: bool,
    pub opcode: u8,
    pub response: bool,
    pub rescode: ResultCode,
    pub z: bool,
    pub recursion_available: bool,
    pub questions: u16,
    pub answers: u16,
    pub authoritative_entries: u16,
    pub resource_entries: u16,
}

/// The header of zeroes: a query without flags, counts or id.
pub open spec fn blank_header() -> DnsHeader {
    DnsHeader {
        id: 0,
        recursion_desired: false,
        truncated_message: false,
        authoritative_answer: false,
        opcode: 0,
        response: false,
        rescode: ResultCode::NOERROR,
        z: false,
        recursion_available: false,
        questions: 0,
        answers: 0,
        authoritative_entries: 0,
        resource_entries: 0,
    }
}

/// The length of a header on the wire.
pub const HEADER_LEN: usize = 12;

/// One flag as a number.
pub open spec fn bit(flag: bool) -> int {
    if flag {
        1
    } else {
        0
    }
}

/// The high byte of the flags: response flag, four bits of opcode,
/// authoritative, truncated and recursion-desired flags, from the top bit
/// down.
pub open spec fn flags_high(h: DnsHeader) -> u8 {
    (bit(h.response) * 128 + (h.opcode % 16) * 8 + bit(h.authoritative_answer) * 4 + bit(
        h.truncated_message,
    ) * 2 + bit(h.recursion_desired)) as u8
}

/// The low byte of the flags: recursion-available flag, the reserved bit,
/// two bits that stay zero, and four bits of result code, from the top bit
/// down.
pub open spec fn flags_low(h: DnsHeader) -> u8 {
    (bit(h.recursion_available) * 128 + bit(h.z) * 64 + result_code_num(h.rescode) % 16) as u8
}

/// The twelve bytes of a header.
pub open spec fn header_bytes(h: DnsHeader) -> Seq<u8> {
    u16_bytes(h.id) + seq![flags_high(h), flags_low(h)] + u16_bytes(h.questions) + u16_bytes(
        h.answers,
    ) + u16_bytes(h.authoritative_entries) + u16_bytes(h.resource_entries)
}

/// The header that the twelve bytes from `pos` on spell.
pub open spec fn header_at(buf: Seq<u8>, pos: int) -> DnsHeader {
    let a = buf[pos + 2];
    let b = buf[pos + 3];
    DnsHeader {
        id: u16_at(buf, pos),
        recursion_desired: a % 2 == 1,
        truncated_message: (a / 2) % 2 == 1,
        authoritative_answer: (a / 4) % 2 == 1,
        opcode: (a / 8) % 16,
        response: a / 128 == 1,
        rescode: result_code_of(b % 16),
        z: (b / 64) % 2 == 1,
        recursion_available: b / 128 == 1,
        questions: u16_at(buf, pos + 4),
        answers: u16_at(buf, pos + 6),
        authoritative_entries: u16_at(buf, pos + 8),
        resource_entries: u16_at(buf, pos + 10),
    }
}

impl DnsHeader {
    /// A header survives the wire when its opcode fits four bits and its
    /// result code fits the header.
    pub open spec fn fits_wire(self) -> bool {
        self.opcode < 16 && self.rescode.fits_header()
    }

    /// A header of zeroes: a query without flags, counts or id.
    pub fn new() -> (h: DnsHeader)
        ensures
            h == blank_header(),
    {
        DnsHeader {
            id: 0,
            recursion_desired: false,
            truncated_message: false,
            authoritative_answer: false,
            opcode: 0,
            response: false,
            rescode: ResultCode::NOERROR,
            z: false,
            recursion_available: false,
            questions: 0,
            answers: 0,
            authoritative_entries: 0,
            resource_entries: 0,
        }
    }

    /// Read the twelve bytes of a header at the position of `buffer`. The
    /// header is left as it was unless all twelve could be read.
    pub fn read(&mut self, buffer: &mut BytePacketBuffer) -> (res: Result<(), DnsError>)
        requires
            old(buffer).wf(),
        ensures
            final(buffer).buf == old(buffer).buf,
            final(buffer).wf(),
            old(buffer).pos + HEADER_LEN <= CAPACITY ==> res is Ok && *final(self) == header_at(
                old(buffer).buf@,
                old(buffer).pos as int,
            ) && final(buffer).pos == old(buffer).pos + HEADER_LEN,
            old(buffer).pos + HEADER_LEN > CAPACITY ==> res == Err::<(), DnsError>(
                DnsError::BufferBounds,
            ) && final(buffer).pos == CAPACITY && *final(self) == *old(self),
    {
        let id = buffer.read_u16()?;
        let a = buffer.read()?;
        let b = buffer.read()?;
        let questions = buffer.read_u16()?;
        let answers = buffer.read_u16()?;
        let authoritative_entries = buffer.read_u16()?;
        let resource_entries = buffer.read_u16()?;
        assert(((a & 0x01) > 0) == (a % 2 == 1) && ((a & 0x02) > 0) == ((a / 2) % 2 == 1) && ((a
            & 0x04) > 0) == ((a / 4) % 2 == 1) && (a >> 3) & 0x0F == (a / 8) % 16 && ((a & 0x80)
            > 0) == (a / 128 == 1)) by (bit_vector);
        assert(b & 0x0F == b % 16 && ((b & 0x40) > 0) == ((b / 64) % 2 == 1) && ((b & 0x80) > 0)
            == (b / 128 == 1)) by (bit_vector);
        self.id = id;
        self.recursion_desired = (a & 0x01) > 0;
        self.truncated_message = (a & 0x02) > 0;
        self.authoritative_answer = (a & 0x04) > 0;
        self.opcode = (a >> 3) & 0x0F;
        self.response = (a & 0x80) > 0;
        self.rescode = ResultCode::from_num(b & 0x0F);
        self.z = (b & 0x40) > 0;
        self.recursion_available = (b & 0x80) > 0;
        self.questions = questions;
        self.answers = answers;
        self.authoritative_entries = authoritative_entries;
        self.resource_entries = resource_entries;
        Ok(())
    }

    /// Write the twelve bytes of the header at the position of `buffer`.
    /// Of the opcode and of the result code the low four bits are written.
    pub fn write(&self, buffer: &mut BytePacketBuffer) -> (res: Result<(), DnsError>)
        requires
            old(buffer).wf(),
        ensures
            final(buffer).is_write_of(old(buffer), header_bytes(*self)),
            final(buffer).wf(),
            res == write_outcome(old(buffer).pos as int, HEADER_LEN as int, true),
    {
        let rd: u8 = if self.recursion_desired { 1 } else { 0 };
        let tc: u8 = if self.truncated_message { 1 } else { 0 };
        let aa: u8 = if self.authoritative_answer { 1 } else { 0 };
        let qr: u8 = if self.response { 1 } else { 0 };
        let zz: u8 = if self.z { 1 } else { 0 };
        let ra: u8 = if self.recursion_available { 1 } else { 0 };
        let op: u8 = self.opcode;
        let rc: u8 = self.rescode.to_num();
        let high: u8 = rd | (tc << 1) | (aa << 2) | ((op & 0x0F) << 3) | (qr << 7);
        let low: u8 = (rc & 0x0F) | (zz << 6) | (ra << 7);
        assert(rd | (tc << 1) | (aa << 2) | ((op & 0x0F) << 3) | (qr << 7) == (qr * 128 + (op % 16)
            * 8 + aa * 4 + tc * 2 + rd) as u8) by (bit_vector)
            requires
                rd <= 1 && tc <= 1 && aa <= 1 && qr <= 1,
        ;
        assert((rc & 0x0F) | (zz << 6) | (ra << 7) == (ra * 128 + zz * 64 + rc % 16) as u8)
            by (bit_vector)
            requires
                zz <= 1 && ra <= 1,
        ;
        let data: [u8; 12] = [
            (self.id >> 8) as u8,
            (self.id & 0xFF) as u8,
            high,
            low,
            (self.questions >> 8) as u8,
            (self.questions & 0xFF) as u8,
            (self.answers >> 8) as u8,
            (self.answers & 0xFF) as u8,
            (self.authoritative_entries >> 8) as u8,
            (self.authoritative_entries & 0xFF) as u8,
            (self.resource_entries >> 8) as u8,
            (self.resource_entries & 0xFF) as u8,
        ];
        proof {
            lemma_u16_split(self.id);
            lemma_u16_split(self.questions);
            lemma_u16_split(self.answers);
            lemma_u16_split(self.authoritative_entries);
            lemma_u16_split(self.resource_entries);
            assert(data@ =~= header_bytes(*self));
        }
        buffer.write_bytes(data.as_slice())
    }
}

/// Shifting and masking a 16-bit integer gives its two bytes.
pub proof fn lemma_u16_split(val: u16)
    ensures
        (val >> 8) as u8 == (val / 256) as u8,
        (val & 0xFF) as u8 == (val % 256) as u8,
{
    assert((val >> 8) as u8 == (val / 256) as u8 && (val & 0xFF) as u8 == (val % 256) as u8)
        by (bit_vector);
}

} // verus!
