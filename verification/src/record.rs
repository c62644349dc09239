//! Questions and resource records, and their wire forms.

use vstd::prelude::*;
use vstd::utf8::encode_utf8;
use vstd::string::{StringExecFns, StringSliceAdditionalSpecFns};
use crate::error::DnsError;
use crate::name::{name_attempt, name_end, name_text, parse_labels, Attempt};
use crate::packets::{zeros, BytePacketBuffer};
use crate::packets::{lemma_write_stopped, lemma_write_then};
use crate::wire::{splice, u16_at, u16_bytes, u32_at, u32_bytes, write_outcome, CAPACITY};

verus! {

/// The type of a query or of a record: a few named types, and every other
/// code carried as it came.
#[derive(PartialEq, Eq, Structural, Debug, Clone, Hash, Copy)]
pub enum QueryType {
    UNKNOWN(u16),
    A,
    NS,
    CNAME,
    MX,
    AAAA,
}

/// The type that a wire code stands for.
pub open spec fn query_type_of(num: u16) -> QueryType {
    if num == 1 {
        QueryType::A
    } else if num == 2 {
        QueryType::NS
    } else if num == 5 {
        QueryType::CNAME
    } else if num == 15 {
        QueryType::MX
    } else if num == 28 {
        QueryType::AAAA
    } else {
        QueryType::UNKNOWN(num)
    }
}

/// The wire code of a type.
pub open spec fn query_type_code(t: QueryType) -> u16 {
    match t {
        QueryType::UNKNOWN(x) => x,
        QueryType::A => 1,
        QueryType::NS => 2,
        QueryType::CNAME => 5,
        QueryType::MX => 15,
        QueryType::AAAA => 28,
    }
}

impl QueryType {
    /// A type is canonical when it is what its own code decodes to: an
    /// `UNKNOWN` that carries the code of a named type is not.
    pub open spec fn canonical(self) -> bool {
        query_type_of(query_type_code(self)) == self
    }

    /// The wire code of the type.
    pub fn to_num(&self) -> (num: u16)
        ensures
            num == query_type_code(*self),
    {
        match *self {
            QueryType::UNKNOWN(x) => x,
            QueryType::A => 1,
            QueryType::NS => 2,
            QueryType::CNAME => 5,
            QueryType::MX => 15,
            QueryType::AAAA => 28,
        }
    }

    /// The type that a wire code stands for.
    pub fn from_num(num: u16) -> (t: QueryType)
        ensures
            t == query_type_of(num),
    {
        match num {
            1 => QueryType::A,
            2 => QueryType::NS,
            5 => QueryType::CNAME,
            15 => QueryType::MX,
            28 => QueryType::AAAA,
            _ => QueryType::UNKNOWN(num),
        }
    }
}

/// Every code survives the trip through `QueryType`, and what a code decodes
/// to is canonical.
pub proof fn lemma_query_type_code_round_trip(num: u16)
    ensures
        query_type_code(query_type_of(num)) == num,
        query_type_of(num).canonical(),
{
}

/// The class code of the Internet, the only class that is written.
pub const CLASS_IN: u16 = 1;

/// An IPv4 address, by its four octets in the order they are written.
#[derive(Debug, Clone, Copy, PartialEq, Eq, Structural, Hash, PartialOrd, Ord)]
pub struct Ipv4Address {
    pub a: u8,
    pub b: u8,
    pub c: u8,
    pub d: u8,
}

impl Ipv4Address {
    /// The address with these four octets.
    pub fn new(a: u8, b: u8, c: u8, d: u8) -> (addr: Ipv4Address)
        ensures
            addr == (Ipv4Address { a, b, c, d }),
    {
        Ipv4Address { a, b, c, d }
    }

    /// The four octets, first one first.
    pub fn octets(&self) -> (o: [u8; 4])
        ensures
            o@ == address_bytes(*self),
    {
        let o = [self.a, self.b, self.c, self.d];
        assert(o@ =~= address_bytes(*self));
        o
    }
}

/// The four bytes of an address on the wire.
pub open spec fn address_bytes(addr: Ipv4Address) -> Seq<u8> {
    seq![addr.a, addr.b, addr.c, addr.d]
}

/// The address that the four bytes from `at` on spell.
pub open spec fn address_at(buf: Seq<u8>, at: int) -> Ipv4Address {
    Ipv4Address { a: buf[at], b: buf[at + 1], c: buf[at + 2], d: buf[at + 3] }
}

/// A question: the name asked for and the type of record wanted.
#[derive(Debug, Clone, PartialEq, Eq)]
pub struct DnsQuestion {
    pub name: String,
    pub qtype: QueryType,
}

/// What a question says: its name as text, and its type.
pub struct QuestionView {
    pub name: Seq<char>,
    pub qtype: QueryType,
}

impl View for DnsQuestion {
    type V = QuestionView;

    open spec fn view(&self) -> QuestionView {
        QuestionView { name: self.name@, qtype: self.qtype }
    }
}

/// The question at `pos` and where the field behind it starts: a name, a
/// type code and a class, which is passed over.
pub open spec fn parse_question(buf: Seq<u8>, pos: int) -> Result<(QuestionView, int), DnsError> {
    match parse_labels(buf, pos, 0) {
        Err(e) => Err(e),
        Ok(labels) => {
            let p = name_end(buf, pos);
            if p + 4 > CAPACITY {
                Err(DnsError::BufferBounds)
            } else {
                Ok((QuestionView { name: name_text(labels), qtype: query_type_of(u16_at(buf, p)) }, p + 4))
            }
        },
    }
}

/// The wire form of a question: its name, its type code, and the class of
/// the Internet.
pub open spec fn question_attempt(q: QuestionView) -> Attempt {
    name_attempt(encode_utf8(q.name)).followed_by(
        Attempt::plain(u16_bytes(query_type_code(q.qtype)) + u16_bytes(CLASS_IN)),
    )
}

impl DnsQuestion {
    /// The question for `name` and `qtype`.
    pub fn new(name: String, qtype: QueryType) -> (q: DnsQuestion)
        ensures
            q.name == name,
            q.qtype == qtype,
    {
        DnsQuestion { name: name, qtype: qtype }
    }

    /// Read a question at the position of `buffer`. The name that is read
    /// is appended to the name that the question holds. Where the question
    /// cannot be read, it stays as it was, and so does the position.
    pub fn read(&mut self, buffer: &mut BytePacketBuffer) -> (res: Result<(), DnsError>)
        requires
            old(buffer).wf(),
        ensures
            final(buffer).buf == old(buffer).buf,
            final(buffer).wf(),
            match parse_question(old(buffer).buf@, old(buffer).pos as int) {
                Ok((q, end)) => res is Ok && final(self).name@ == old(self).name@ + q.name
                    && final(self).qtype == q.qtype && final(buffer).pos == end,
                Err(e) => res == Err::<(), DnsError>(e) && final(self)@ == old(self)@
                    && final(buffer).pos == old(buffer).pos,
            },
    {
        let start = buffer.pos();
        let mut name = String::new();
        buffer.read_qname(&mut name)?;
        assert(Seq::<char>::empty() + name@ =~= name@);
        let code = match buffer.read_u16() {
            Ok(c) => c,
            Err(e) => {
                let _ = buffer.seek(start);
                return Err(e);
            },
        };
        if let Err(e) = buffer.read_u16() {
            let _ = buffer.seek(start);
            return Err(e);
        }
        self.name.append(name.as_str());
        self.qtype = QueryType::from_num(code);
        Ok(())
    }

    /// Write the question at the position of `buffer`.
    pub fn write(&self, buffer: &mut BytePacketBuffer) -> (res: Result<(), DnsError>)
        requires
            old(buffer).wf(),
        ensures
            final(buffer).is_write_of(old(buffer), question_attempt(self@).bytes),
            final(buffer).wf(),
            res == write_outcome(
                old(buffer).pos as int,
                question_attempt(self@).bytes.len() as int,
                question_attempt(self@).complete,
            ),
    {
        let ghost name = name_attempt(encode_utf8(self.name@));
        let ghost code = u16_bytes(query_type_code(self.qtype));
        let ghost tail = code + u16_bytes(CLASS_IN);
        let r = buffer.write_qname(self.name.as_str());
        let ghost b1 = *buffer;
        if r.is_err() {
            proof {
                if name.complete {
                    lemma_write_stopped(*old(buffer), b1, name.bytes, tail);
                }
            }
            return r;
        }
        let r = buffer.write_u16(self.qtype.to_num());
        let ghost b2 = *buffer;
        proof {
            lemma_write_then(*old(buffer), b1, b2, name.bytes, code);
        }
        if r.is_err() {
            proof {
                lemma_write_stopped(*old(buffer), b2, name.bytes + code, u16_bytes(CLASS_IN));
                assert(name.bytes + code + u16_bytes(CLASS_IN) =~= name.bytes + tail);
            }
            return r;
        }
        let r = buffer.write_u16(CLASS_IN);
        proof {
            lemma_write_then(*old(buffer), b2, *buffer, name.bytes + code, u16_bytes(CLASS_IN));
            assert(name.bytes + code + u16_bytes(CLASS_IN) =~= name.bytes + tail);
        }
        r
    }
}

/// A resource record: an owner name, a time to live in seconds, and what
/// its type carries. Of a type without a shape of its own only the type code
/// and the length of the payload are kept.
#[derive(Debug, Clone, PartialEq, Eq, Hash, PartialOrd, Ord)]
#[allow(dead_code)]
pub enum DnsRecord {
    UNKNOWN { domain: String, qtype: u16, data_len: u16, ttl: u32 },
    A { domain: String, addr: Ipv4Address, ttl: u32 },
    NS { domain: String, host: String, ttl: u32 },
    CNAME { domain: String, host: String, ttl: u32 },
    MX { domain: String, priority: u16, host: String, ttl: u32 },
}

/// What a record says, its names as text.
pub enum RecordView {
    UNKNOWN { domain: Seq<char>, qtype: u16, data_len: u16, ttl: u32 },
    A { domain: Seq<char>, addr: Ipv4Address, ttl: u32 },
    NS { domain: Seq<char>, host: Seq<char>, ttl: u32 },
    CNAME { domain: Seq<char>, host: Seq<char>, ttl: u32 },
    MX { domain: Seq<char>, priority: u16, host: Seq<char>, ttl: u32 },
}

impl View for DnsRecord {
    type V = RecordView;

    open spec fn view(&self) -> RecordView {
        match self {
            DnsRecord::UNKNOWN { domain, qtype, data_len, ttl } => RecordView::UNKNOWN {
                domain: domain@,
                qtype: *qtype,
                data_len: *data_len,
                ttl: *ttl,
            },
            DnsRecord::A { domain, addr, ttl } => RecordView::A {
                domain: domain@,
                addr: *addr,
                ttl: *ttl,
            },
            DnsRecord::NS { domain, host, ttl } => RecordView::NS {
                domain: domain@,
                host: host@,
                ttl: *ttl,
            },
            DnsRecord::CNAME { domain, host, ttl } => RecordView::CNAME {
                domain: domain@,
                host: host@,
                ttl: *ttl,
            },
            DnsRecord::MX { domain, priority, host, ttl } => RecordView::MX {
                domain: domain@,
                priority: *priority,
                host: host@,
                ttl: *ttl,
            },
        }
    }
}

impl RecordView {
    /// The owner name.
    pub open spec fn domain(self) -> Seq<char> {
        match self {
            RecordView::UNKNOWN { domain, .. } => domain,
            RecordView::A { domain, .. } => domain,
            RecordView::NS { domain, .. } => domain,
            RecordView::CNAME { domain, .. } => domain,
            RecordView::MX { domain, .. } => domain,
        }
    }

    /// The time to live, in seconds.
    pub open spec fn ttl(self) -> u32 {
        match self {
            RecordView::UNKNOWN { ttl, .. } => ttl,
            RecordView::A { ttl, .. } => ttl,
            RecordView::NS { ttl, .. } => ttl,
            RecordView::CNAME { ttl, .. } => ttl,
            RecordView::MX { ttl, .. } => ttl,
        }
    }

    /// The type code that the record is written under.
    pub open spec fn type_code(self) -> u16 {
        match self {
            RecordView::UNKNOWN { qtype, .. } => qtype,
            RecordView::A { .. } => 1,
            RecordView::NS { .. } => 2,
            RecordView::CNAME { .. } => 5,
            RecordView::MX { .. } => 15,
        }
    }

    /// A record is canonical when it is what its own type code is read as:
    /// an `UNKNOWN` under the code of a type with a shape is not.
    pub open spec fn canonical(self) -> bool {
        self is UNKNOWN ==> !has_shape(self.type_code())
    }
}

/// Whether records of this type code are read into a shape of their own.
pub open spec fn has_shape(code: u16) -> bool {
    code == 1 || code == 2 || code == 5 || code == 15
}

/// The record whose payload starts at `at`, given what stands before the
/// payload, and where the field behind the record starts. A payload of a
/// type without a shape is passed over by its announced length.
pub open spec fn parse_rdata(
    buf: Seq<u8>,
    at: int,
    domain: Seq<char>,
    code: u16,
    ttl: u32,
    data_len: u16,
) -> Result<(RecordView, int), DnsError> {
    if code == 1 {
        if at + 4 > CAPACITY {
            Err(DnsError::BufferBounds)
        } else {
            Ok((RecordView::A { domain, addr: address_at(buf, at), ttl }, at + 4))
        }
    } else if code == 2 {
        match parse_labels(buf, at, 0) {
            Err(e) => Err(e),
            Ok(labels) => Ok(
                (RecordView::NS { domain, host: name_text(labels), ttl }, name_end(buf, at)),
            ),
        }
    } else if code == 5 {
        match parse_labels(buf, at, 0) {
            Err(e) => Err(e),
            Ok(labels) => Ok(
                (RecordView::CNAME { domain, host: name_text(labels), ttl }, name_end(buf, at)),
            ),
        }
    } else if code == 15 {
        if at + 2 > CAPACITY {
            Err(DnsError::BufferBounds)
        } else {
            match parse_labels(buf, at + 2, 0) {
                Err(e) => Err(e),
                Ok(labels) => Ok(
                    (
                        RecordView::MX {
                            domain,
                            priority: u16_at(buf, at),
                            host: name_text(labels),
                            ttl,
                        },
                        name_end(buf, at + 2),
                    ),
                ),
            }
        }
    } else if at + data_len > CAPACITY {
        Err(DnsError::BufferBounds)
    } else {
        Ok((RecordView::UNKNOWN { domain, qtype: code, data_len, ttl }, at + data_len))
    }
}

/// The record at `pos` and where the field behind it starts: owner name,
/// type code, class (passed over), time to live, payload length, payload.
pub open spec fn parse_record(buf: Seq<u8>, pos: int) -> Result<(RecordView, int), DnsError> {
    match parse_labels(buf, pos, 0) {
        Err(e) => Err(e),
        Ok(labels) => {
            let p = name_end(buf, pos);
            if p + 10 > CAPACITY {
                Err(DnsError::BufferBounds)
            } else {
                parse_rdata(
                    buf,
                    p + 10,
                    name_text(labels),
                    u16_at(buf, p),
                    u32_at(buf, p + 4),
                    u16_at(buf, p + 8),
                )
            }
        },
    }
}

/// The wire form of a record's payload. The payload of an `UNKNOWN` was not
/// kept: zero bytes of the same length stand for it.
pub open spec fn rdata_attempt(r: RecordView) -> Attempt {
    match r {
        RecordView::UNKNOWN { data_len, .. } => Attempt::plain(zeros(data_len as nat)),
        RecordView::A { addr, .. } => Attempt::plain(address_bytes(addr)),
        RecordView::NS { host, .. } => name_attempt(encode_utf8(host)),
        RecordView::CNAME { host, .. } => name_attempt(encode_utf8(host)),
        RecordView::MX { priority, host, .. } => Attempt::plain(u16_bytes(priority)).followed_by(
            name_attempt(encode_utf8(host)),
        ),
    }
}

/// The eight bytes between a record's owner name and its payload length.
pub open spec fn record_head(code: u16, ttl: u32) -> Seq<u8> {
    u16_bytes(code) + u16_bytes(CLASS_IN) + u32_bytes(ttl)
}

/// The wire form of a record: owner name, type code, class, time to live,
/// the length of the payload, and the payload.
pub open spec fn record_attempt(r: RecordView) -> Attempt {
    let payload = rdata_attempt(r);
    name_attempt(encode_utf8(r.domain())).followed_by(
        Attempt::plain(record_head(r.type_code(), r.ttl())),
    ).followed_by(
        Attempt {
            bytes: u16_bytes(payload.bytes.len() as u16) + payload.bytes,
            complete: payload.complete,
        },
    )
}

impl DnsRecord {
    /// The owner name.
    pub fn domain(&self) -> (name: &String)
        ensures
            name@ == self@.domain(),
    {
        match self {
            DnsRecord::UNKNOWN { domain, .. } => domain,
            DnsRecord::A { domain, .. } => domain,
            DnsRecord::NS { domain, .. } => domain,
            DnsRecord::CNAME { domain, .. } => domain,
            DnsRecord::MX { domain, .. } => domain,
        }
    }

    /// The time to live, in seconds.
    pub fn ttl(&self) -> (ttl: u32)
        ensures
            ttl == self@.ttl(),
    {
        match self {
            DnsRecord::UNKNOWN { ttl, .. } => *ttl,
            DnsRecord::A { ttl, .. } => *ttl,
            DnsRecord::NS { ttl, .. } => *ttl,
            DnsRecord::CNAME { ttl, .. } => *ttl,
            DnsRecord::MX { ttl, .. } => *ttl,
        }
    }

    /// The type code that the record is written under.
    pub fn type_code(&self) -> (code: u16)
        ensures
            code == self@.type_code(),
    {
        match self {
            DnsRecord::UNKNOWN { qtype, .. } => *qtype,
            DnsRecord::A { .. } => 1,
            DnsRecord::NS { .. } => 2,
            DnsRecord::CNAME { .. } => 5,
            DnsRecord::MX { .. } => 15,
        }
    }

    /// Read a record at the position of `buffer`. Where it cannot be read,
    /// the position stays as it was.
    pub fn read(buffer: &mut BytePacketBuffer) -> (res: Result<DnsRecord, DnsError>)
        requires
            old(buffer).wf(),
        ensures
            final(buffer).buf == old(buffer).buf,
            final(buffer).wf(),
            match parse_record(old(buffer).buf@, old(buffer).pos as int) {
                Ok((r, end)) => res is Ok && res->Ok_0@ == r && final(buffer).pos == end,
                Err(e) => res is Err && res->Err_0 == e && final(buffer).pos == old(buffer).pos,
            },
    {
        let start = buffer.pos();
        match DnsRecord::read_fields(buffer) {
            Ok(record) => Ok(record),
            Err(e) => {
                let _ = buffer.seek(start);
                Err(e)
            },
        }
    }

    /// Read the fields of a record one after the other.
    fn read_fields(buffer: &mut BytePacketBuffer) -> (res: Result<DnsRecord, DnsError>)
        requires
            old(buffer).wf(),
        ensures
            final(buffer).buf == old(buffer).buf,
            final(buffer).wf(),
            match parse_record(old(buffer).buf@, old(buffer).pos as int) {
                Ok((r, end)) => res is Ok && res->Ok_0@ == r && final(buffer).pos == end,
                Err(e) => res is Err && res->Err_0 == e,
            },
    {
        let mut domain = String::new();
        buffer.read_qname(&mut domain)?;
        assert(Seq::<char>::empty() + domain@ =~= domain@);
        let qtype_num = buffer.read_u16()?;
        let qtype = QueryType::from_num(qtype_num);
        let _ = buffer.read_u16()?;
        let ttl = buffer.read_u32()?;
        let data_len = buffer.read_u16()?;
        match qtype {
            QueryType::A => {
                let a = buffer.read()?;
                let b = buffer.read()?;
                let c = buffer.read()?;
                let d = buffer.read()?;
                let addr = Ipv4Address::new(a, b, c, d);
                Ok(DnsRecord::A { domain: domain, addr: addr, ttl: ttl })
            },
            QueryType::NS => {
                let mut host = String::new();
                buffer.read_qname(&mut host)?;
                assert(Seq::<char>::empty() + host@ =~= host@);
                Ok(DnsRecord::NS { domain: domain, host: host, ttl: ttl })
            },
            QueryType::CNAME => {
                let mut host = String::new();
                buffer.read_qname(&mut host)?;
                assert(Seq::<char>::empty() + host@ =~= host@);
                Ok(DnsRecord::CNAME { domain: domain, host: host, ttl: ttl })
            },
            QueryType::MX => {
                let priority = buffer.read_u16()?;
                let mut host = String::new();
                buffer.read_qname(&mut host)?;
                assert(Seq::<char>::empty() + host@ =~= host@);
                Ok(DnsRecord::MX { domain: domain, priority: priority, host: host, ttl: ttl })
            },
            QueryType::AAAA | QueryType::UNKNOWN(_) => {
                buffer.step(data_len as usize)?;
                Ok(
                    DnsRecord::UNKNOWN {
                        domain: domain,
                        qtype: qtype_num,
                        data_len: data_len,
                        ttl: ttl,
                    },
                )
            },
        }
    }

    /// Write the eight bytes between owner name and payload length.
    fn write_head(code: u16, ttl: u32, buffer: &mut BytePacketBuffer) -> (res: Result<
        (),
        DnsError,
    >)
        requires
            old(buffer).wf(),
        ensures
            final(buffer).is_write_of(old(buffer), record_head(code, ttl)),
            final(buffer).wf(),
            res == write_outcome(old(buffer).pos as int, 8, true),
    {
        let r = buffer.write_u16(code);
        let ghost b1 = *buffer;
        if r.is_err() {
            proof {
                lemma_write_stopped(
                    *old(buffer),
                    b1,
                    u16_bytes(code),
                    u16_bytes(CLASS_IN) + u32_bytes(ttl),
                );
                assert(u16_bytes(code) + (u16_bytes(CLASS_IN) + u32_bytes(ttl)) =~= record_head(
                    code,
                    ttl,
                ));
            }
            return r;
        }
        let r = buffer.write_u16(CLASS_IN);
        let ghost b2 = *buffer;
        proof {
            lemma_write_then(*old(buffer), b1, b2, u16_bytes(code), u16_bytes(CLASS_IN));
        }
        if r.is_err() {
            proof {
                lemma_write_stopped(
                    *old(buffer),
                    b2,
                    u16_bytes(code) + u16_bytes(CLASS_IN),
                    u32_bytes(ttl),
                );
            }
            return r;
        }
        let r = buffer.write_u32(ttl);
        proof {
            lemma_write_then(
                *old(buffer),
                b2,
                *buffer,
                u16_bytes(code) + u16_bytes(CLASS_IN),
                u32_bytes(ttl),
            );
        }
        r
    }

    /// Write the payload of the record.
    fn write_rdata(&self, buffer: &mut BytePacketBuffer) -> (res: Result<(), DnsError>)
        requires
            old(buffer).wf(),
        ensures
            final(buffer).is_write_of(old(buffer), rdata_attempt(self@).bytes),
            final(buffer).wf(),
            res == write_outcome(
                old(buffer).pos as int,
                rdata_attempt(self@).bytes.len() as int,
                rdata_attempt(self@).complete,
            ),
    {
        match self {
            DnsRecord::UNKNOWN { data_len, .. } => buffer.write_zeros(*data_len as usize),
            DnsRecord::A { addr, .. } => {
                let o = addr.octets();
                buffer.write_bytes(o.as_slice())
            },
            DnsRecord::NS { host, .. } => buffer.write_qname(host.as_str()),
            DnsRecord::CNAME { host, .. } => buffer.write_qname(host.as_str()),
            DnsRecord::MX { priority, host, .. } => {
                let ghost name = name_attempt(encode_utf8(host@));
                let r = buffer.write_u16(*priority);
                let ghost b1 = *buffer;
                if r.is_err() {
                    proof {
                        lemma_write_stopped(*old(buffer), b1, u16_bytes(*priority), name.bytes);
                    }
                    return r;
                }
                let r = buffer.write_qname(host.as_str());
                proof {
                    lemma_write_then(*old(buffer), b1, *buffer, u16_bytes(*priority), name.bytes);
                }
                r
            },
        }
    }

    /// Write the record at the position of `buffer`, and say how many bytes
    /// it took. The payload length is written as zero first, and set once
    /// the payload is written.
    pub fn write(&self, buffer: &mut BytePacketBuffer) -> (res: Result<usize, DnsError>)
        requires
            old(buffer).wf(),
        ensures
            final(buffer).wf(),
            final(buffer).pos >= old(buffer).pos,
            forall|i: int|
                0 <= i < old(buffer).pos ==> final(buffer).buf@[i] == old(buffer).buf@[i],
            match res {
                Ok(n) => n == record_attempt(self@).bytes.len() && final(buffer).is_write_of(
                    old(buffer),
                    record_attempt(self@).bytes,
                ) && write_outcome(
                    old(buffer).pos as int,
                    record_attempt(self@).bytes.len() as int,
                    record_attempt(self@).complete,
                ) is Ok,
                Err(e) => write_outcome(
                    old(buffer).pos as int,
                    record_attempt(self@).bytes.len() as int,
                    record_attempt(self@).complete,
                ) == Err::<(), DnsError>(e),
            },
    {
        let ghost name = name_attempt(encode_utf8(self@.domain()));
        let ghost head = record_head(self@.type_code(), self@.ttl());
        let ghost payload = rdata_attempt(self@);
        let start = buffer.pos();
        if let Err(e) = buffer.write_qname(self.domain().as_str()) {
            return Err(e);
        }
        let ghost b1 = *buffer;
        if let Err(e) = Self::write_head(self.type_code(), self.ttl(), buffer) {
            return Err(e);
        }
        let ghost b2 = *buffer;
        let len_pos = buffer.pos();
        if let Err(e) = buffer.write_u16(0) {
            return Err(e);
        }
        let ghost b3 = *buffer;
        if let Err(e) = self.write_rdata(buffer) {
            return Err(e);
        }
        let ghost b4 = *buffer;
        let size = buffer.pos() - (len_pos + 2);
        let _ = buffer.set_u16(len_pos, size as u16);
        proof {
            lemma_write_then(*old(buffer), b1, b2, name.bytes, head);
            lemma_write_then(*old(buffer), b2, b3, name.bytes + head, u16_bytes(0));
            lemma_write_then(*old(buffer), b3, b4, name.bytes + head + u16_bytes(0), payload.bytes);
            assert(buffer.buf@ =~= splice(
                old(buffer).buf@,
                old(buffer).pos as int,
                record_attempt(self@).bytes,
            ));
        }
        Ok(buffer.pos() - start)
    }
}

} // verus!
