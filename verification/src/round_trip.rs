//! What is written is read back: for names, headers, questions, records and
//! whole messages.

use vstd::prelude::*;
use vstd::utf8::{encode_utf8, is_ascii_chars};
use crate::name::{
    first_dot, is_pointer, label_text, lemma_first_dot_bounds, lemma_name_attempt_unfold,
    lossy_text, lowered, name_attempt, name_end, name_text, parse_labels, split_labels, DOT,
    MAX_JUMPS, MAX_LABEL,
};
use crate::error::DnsError;
use crate::header::{header_at, header_bytes, DnsHeader, HEADER_LEN};
use crate::record::{
    address_at, address_bytes, has_shape, parse_question, parse_record, query_type_code,
    question_attempt, rdata_attempt, record_attempt, record_head, QuestionView, RecordView,
    CLASS_IN,
};
use crate::packets::{
    datagram, packet_attempt, parse_packet, parse_questions, parse_records, questions_attempt,
    records_attempt, PacketView,
};
use crate::wire::{u16_at, u16_bytes, u32_at, u32_bytes, CAPACITY};

verus! {

/// A dotted name, given by its bytes, whose labels all have from 1 to 63
/// bytes.
pub open spec fn good_labels(name: Seq<u8>) -> bool {
    forall|k: int|
        0 <= k < split_labels(name).len() ==> 1 <= (#[trigger] split_labels(name)[k]).len()
            <= MAX_LABEL
}

/// A text without capital letters that is all ASCII.
pub open spec fn ascii_lower_case(text: Seq<char>) -> bool {
    is_ascii_chars(text) && forall|i: int|
        0 <= i < text.len() ==> !('A' <= #[trigger] text[i] <= 'Z')
}

/// A name that is read back as it was written: ASCII without capital
/// letters, each label from 1 to 63 bytes long.
pub open spec fn plain_name(name: Seq<char>) -> bool {
    ascii_lower_case(name) && good_labels(encode_utf8(name))
}

/// The bytes of an ASCII text, one for each character.
pub open spec fn ascii_bytes(text: Seq<char>) -> Seq<u8> {
    Seq::new(text.len(), |i: int| text[i] as u8)
}

/// The labels of a name behind its first dot are its labels but the first.
pub proof fn lemma_split_unfold(s: Seq<u8>)
    ensures
        0 <= first_dot(s) <= s.len(),
        split_labels(s).len() >= 1,
        split_labels(s)[0] == s.take(first_dot(s)),
        first_dot(s) < s.len() ==> split_labels(s).drop_first() == split_labels(
            s.skip(first_dot(s) + 1),
        ),
        first_dot(s) == s.len() ==> split_labels(s) == seq![s],
{
    lemma_first_dot_bounds(s);
    let d = first_dot(s);
    if d < s.len() {
        assert(split_labels(s).drop_first() =~= split_labels(s.skip(d + 1)));
    } else {
        assert(s.take(d) =~= s);
    }
}

/// A name with good labels keeps them behind its first dot.
pub proof fn lemma_good_labels_rest(s: Seq<u8>)
    requires
        good_labels(s),
        first_dot(s) < s.len(),
    ensures
        good_labels(s.skip(first_dot(s) + 1)),
        1 <= first_dot(s) <= MAX_LABEL,
{
    lemma_split_unfold(s);
    let rest = split_labels(s.skip(first_dot(s) + 1));
    assert(split_labels(s)[0].len() == first_dot(s));
    assert forall|k: int| 0 <= k < rest.len() implies 1 <= (#[trigger] rest[k]).len()
        <= MAX_LABEL by {
        assert(rest[k] == split_labels(s)[k + 1]);
    }
}

/// A name with good labels, written without compression, is read back
/// label by label, whatever stands around it in the buffer and however
/// many pointers were followed before; and reading ends behind its last
/// byte.
pub proof fn lemma_name_reads_back(buf: Seq<u8>, pos: int, jumps: int, s: Seq<u8>)
    requires
        buf.len() == CAPACITY,
        0 <= pos,
        0 <= jumps <= MAX_JUMPS,
        good_labels(s),
        pos + name_attempt(s).bytes.len() <= CAPACITY,
        buf.subrange(pos, pos + name_attempt(s).bytes.len()) == name_attempt(s).bytes,
    ensures
        name_attempt(s).complete,
        parse_labels(buf, pos, jumps) == Ok::<Seq<Seq<u8>>, crate::error::DnsError>(split_labels(s)),
        name_end(buf, pos) == pos + name_attempt(s).bytes.len(),
    decreases s.len(),
{
    lemma_split_unfold(s);
    lemma_name_attempt_unfold(s);
    let d = first_dot(s);
    let w = name_attempt(s).bytes;
    let label = s.take(d);
    assert(split_labels(s)[0].len() == d);
    assert(1 <= d <= MAX_LABEL);
    assert forall|i: int| 0 <= i < w.len() implies buf[pos + i] == w[i] by {
        assert(buf.subrange(pos, pos + w.len())[i] == buf[pos + i]);
    }
    if d < s.len() {
        let rest = s.skip(d + 1);
        let wr = name_attempt(rest).bytes;
        lemma_good_labels_rest(s);
        assert(w =~= seq![d as u8] + label + wr) by {
            lemma_name_reads_back_complete(rest);
        }
        assert(buf[pos] == w[0]);
        assert(w[0] == d as u8);
        assert(buf.subrange(pos + 1, pos + 1 + d) =~= label) by {
            assert forall|i: int| 0 <= i < d implies buf[pos + 1 + i] == label[i] by {
                assert(buf[pos + (1 + i)] == w[1 + i]);
            }
        }
        assert(buf.subrange(pos + 1 + d, pos + 1 + d + wr.len()) =~= wr) by {
            assert forall|i: int| 0 <= i < wr.len() implies buf[pos + 1 + d + i] == wr[i] by {
                assert(buf[pos + (1 + d + i)] == w[1 + d + i]);
            }
        }
        lemma_name_reads_back(buf, pos + 1 + d, jumps, rest);
        assert(seq![label] + split_labels(rest) =~= split_labels(s));
    } else {
        assert(w =~= seq![d as u8] + s + seq![0u8]);
        assert(buf[pos] == w[0]);
        assert(buf[pos + (1 + d)] == w[1 + d]);
        assert(buf.subrange(pos + 1, pos + 1 + d) =~= label) by {
            assert forall|i: int| 0 <= i < d implies buf[pos + 1 + i] == label[i] by {
                assert(buf[pos + (1 + i)] == w[1 + i]);
            }
        }
        assert(seq![label] + Seq::<Seq<u8>>::empty() =~= split_labels(s));
        assert(buf[pos + 1 + d] == 0);
        assert(name_end(buf, pos + 1 + d) == pos + 1 + d + 1);
        assert(parse_labels(buf, pos + 1 + d, jumps) == Ok::<Seq<Seq<u8>>, crate::error::DnsError>(
            Seq::empty(),
        ));
    }
    assert(buf[pos] == d as u8);
    assert(!is_pointer(buf[pos]) && buf[pos] != 0);
    assert(name_end(buf, pos) == name_end(buf, pos + 1 + d));
}

/// A name with good labels is written whole.
pub proof fn lemma_name_reads_back_complete(s: Seq<u8>)
    requires
        good_labels(s),
    ensures
        name_attempt(s).complete,
        name_attempt(s).bytes.len() >= 2,
    decreases s.len(),
{
    lemma_split_unfold(s);
    lemma_name_attempt_unfold(s);
    let d = first_dot(s);
    assert(split_labels(s)[0].len() == d);
    if d < s.len() {
        lemma_good_labels_rest(s);
        lemma_name_reads_back_complete(s.skip(d + 1));
    }
}

/// The text of a list of labels, first label first.
pub proof fn lemma_name_text_unfold(label: Seq<u8>, rest: Seq<Seq<u8>>)
    ensures
        name_text(seq![label] + rest) == (if rest.len() == 0 {
            label_text(label)
        } else {
            label_text(label) + seq!['.'] + name_text(rest)
        }),
    decreases rest.len(),
{
    let all = seq![label] + rest;
    if rest.len() == 0 {
        assert(all =~= seq![label]);
    } else if rest.len() == 1 {
        assert(all.drop_last() =~= seq![label]);
        assert(all.last() == rest[0]);
        assert(name_text(seq![label]) == label_text(label));
    } else {
        assert(all.drop_last() =~= seq![label] + rest.drop_last());
        assert(all.last() == rest.last());
        lemma_name_text_unfold(label, rest.drop_last());
        assert(label_text(label) + seq!['.'] + name_text(rest.drop_last()) + seq!['.']
            + label_text(rest.last()) =~= label_text(label) + seq!['.'] + (name_text(
            rest.drop_last(),
        ) + seq!['.'] + label_text(rest.last())));
    }
}

/// The bytes of an ASCII text without capital letters are read as that
/// text.
pub proof fn lemma_ascii_label_text(text: Seq<char>)
    requires
        ascii_lower_case(text),
    ensures
        encode_utf8(text) == ascii_bytes(text),
        label_text(ascii_bytes(text)) == text,
{
    vstd::utf8::is_ascii_chars_encode_utf8(text);
    assert(encode_utf8(text) =~= ascii_bytes(text));
    vstd::utf8::encode_utf8_valid_utf8(text);
    vstd::utf8::encode_utf8_decode_utf8(text);
    assert(lossy_text(ascii_bytes(text)) == text);
    assert(lowered(text) =~= text);
}

/// The labels of an ASCII name without capital letters, read as text and
/// joined by dots, are the name.
pub proof fn lemma_ascii_name_text(text: Seq<char>)
    requires
        ascii_lower_case(text),
    ensures
        name_text(split_labels(ascii_bytes(text))) == text,
    decreases text.len(),
{
    let s = ascii_bytes(text);
    lemma_split_unfold(s);
    let d = first_dot(s);
    let head = text.take(d);
    assert(ascii_lower_case(head));
    assert(s.take(d) =~= ascii_bytes(head));
    lemma_ascii_label_text(head);
    if d < s.len() {
        let tail = text.skip(d + 1);
        assert(ascii_lower_case(tail));
        assert(s.skip(d + 1) =~= ascii_bytes(tail));
        lemma_ascii_name_text(tail);
        let rest = split_labels(s.skip(d + 1));
        lemma_split_unfold(s.skip(d + 1));
        assert(split_labels(s) =~= seq![s.take(d)] + rest);
        lemma_name_text_unfold(s.take(d), rest);
        lemma_first_dot_bounds(s);
        assert(s[d] == DOT);
        assert(text[d] as u8 == 0x2Eu8);
        assert(text[d] == '.');
        assert(head + seq!['.'] + tail =~= text);
    } else {
        assert(head =~= text);
        assert(s.take(d) =~= s);
    }
}

/// A plain name, written without compression, is read back as it was
/// written, and reading ends behind its last byte.
pub proof fn law_name_round_trip(buf: Seq<u8>, pos: int, name: Seq<char>)
    requires
        buf.len() == CAPACITY,
        0 <= pos,
        plain_name(name),
        pos + name_attempt(encode_utf8(name)).bytes.len() <= CAPACITY,
        buf.subrange(pos, pos + name_attempt(encode_utf8(name)).bytes.len()) == name_attempt(
            encode_utf8(name),
        ).bytes,
    ensures
        name_attempt(encode_utf8(name)).complete,
        parse_labels(buf, pos, 0) is Ok,
        name_text(parse_labels(buf, pos, 0)->Ok_0) == name,
        name_end(buf, pos) == pos + name_attempt(encode_utf8(name)).bytes.len(),
{
    lemma_ascii_label_text(name);
    lemma_ascii_name_text(name);
    lemma_name_reads_back(buf, pos, 0, encode_utf8(name));
}

/// Where two pieces stand in a buffer one behind the other, each stands
/// where it stands.
pub proof fn lemma_subrange_split(buf: Seq<u8>, pos: int, first: Seq<u8>, second: Seq<u8>)
    requires
        0 <= pos,
        pos + first.len() + second.len() <= buf.len(),
        buf.subrange(pos, pos + first.len() + second.len()) == first + second,
    ensures
        buf.subrange(pos, pos + first.len()) == first,
        buf.subrange(pos + first.len(), pos + first.len() + second.len()) == second,
{
    let whole = buf.subrange(pos, pos + first.len() + second.len());
    assert forall|i: int| 0 <= i < first.len() implies buf[pos + i] == first[i] by {
        assert(whole[i] == (first + second)[i]);
    }
    assert forall|i: int| 0 <= i < second.len() implies buf[pos + first.len() + i]
        == second[i] by {
        assert(whole[first.len() + i] == (first + second)[first.len() + i]);
    }
    assert(buf.subrange(pos, pos + first.len()) =~= first);
    assert(buf.subrange(pos + first.len(), pos + first.len() + second.len()) =~= second);
}

/// The two bytes of a 16-bit integer, where they stand in a buffer, are
/// read as that integer.
pub proof fn lemma_u16_reads_back(buf: Seq<u8>, at: int, val: u16)
    requires
        0 <= at,
        at + 2 <= buf.len(),
        buf.subrange(at, at + 2) == u16_bytes(val),
    ensures
        u16_at(buf, at) == val,
{
    assert(buf.subrange(at, at + 2)[0] == buf[at]);
    assert(buf.subrange(at, at + 2)[1] == buf[at + 1]);
}

/// The four bytes of a 32-bit integer, where they stand in a buffer, are
/// read as that integer.
pub proof fn lemma_u32_reads_back(buf: Seq<u8>, at: int, val: u32)
    requires
        0 <= at,
        at + 4 <= buf.len(),
        buf.subrange(at, at + 4) == u32_bytes(val),
    ensures
        u32_at(buf, at) == val,
{
    assert(buf.subrange(at, at + 4)[0] == buf[at]);
    assert(buf.subrange(at, at + 4)[1] == buf[at + 1]);
    assert(buf.subrange(at, at + 4)[2] == buf[at + 2]);
    assert(buf.subrange(at, at + 4)[3] == buf[at + 3]);
}

/// A header whose opcode and result code fit their four bits is read back
/// as it was written.
pub proof fn law_header_round_trip(buf: Seq<u8>, pos: int, h: DnsHeader)
    requires
        0 <= pos,
        pos + HEADER_LEN <= buf.len(),
        h.fits_wire(),
        buf.subrange(pos, pos + HEADER_LEN) == header_bytes(h),
    ensures
        header_at(buf, pos) == h,
{
    let w = header_bytes(h);
    let part = buf.subrange(pos, pos + HEADER_LEN);
    assert forall|i: int| 0 <= i < 12 implies buf[pos + i] == w[i] by {
        assert(part[i] == buf[pos + i]);
    }
    assert(w.len() == 12);
    assert(w[0] == u16_bytes(h.id)[0] && w[1] == u16_bytes(h.id)[1]);
    assert(w[4] == u16_bytes(h.questions)[0] && w[5] == u16_bytes(h.questions)[1]);
    assert(w[6] == u16_bytes(h.answers)[0] && w[7] == u16_bytes(h.answers)[1]);
    assert(w[8] == u16_bytes(h.authoritative_entries)[0] && w[9] == u16_bytes(
        h.authoritative_entries,
    )[1]);
    assert(w[10] == u16_bytes(h.resource_entries)[0] && w[11] == u16_bytes(h.resource_entries)[1]);
    assert(buf[pos + 0] == w[0]);
    assert(buf[pos + 1] == w[1]);
    assert(buf[pos + 2] == w[2]);
    assert(buf[pos + 3] == w[3]);
    assert(buf[pos + 4] == w[4]);
    assert(buf[pos + 5] == w[5]);
    assert(buf[pos + 6] == w[6]);
    assert(buf[pos + 7] == w[7]);
    assert(buf[pos + 8] == w[8]);
    assert(buf[pos + 9] == w[9]);
    assert(buf[pos + 10] == w[10]);
    assert(buf[pos + 11] == w[11]);
    assert(w[2] == crate::header::flags_high(h));
    assert(w[3] == crate::header::flags_low(h));
}

/// A question that is read back as it was written: its name is plain and
/// its type is canonical.
pub open spec fn plain_question(q: QuestionView) -> bool {
    plain_name(q.name) && q.qtype.canonical()
}

/// A plain question is read back as it was written, and reading ends
/// behind its last byte.
pub proof fn law_question_round_trip(buf: Seq<u8>, pos: int, q: QuestionView)
    requires
        buf.len() == CAPACITY,
        0 <= pos,
        plain_question(q),
        pos + question_attempt(q).bytes.len() <= CAPACITY,
        buf.subrange(pos, pos + question_attempt(q).bytes.len()) == question_attempt(q).bytes,
    ensures
        question_attempt(q).complete,
        question_attempt(q).bytes.len() >= 6,
        parse_question(buf, pos) == Ok::<(QuestionView, int), DnsError>(
            (q, pos + question_attempt(q).bytes.len()),
        ),
{
    let name = name_attempt(encode_utf8(q.name));
    let code = u16_bytes(query_type_code(q.qtype));
    let class = u16_bytes(CLASS_IN);
    lemma_ascii_label_text(q.name);
    lemma_name_reads_back_complete(encode_utf8(q.name));
    assert(question_attempt(q).bytes == name.bytes + (code + class));
    lemma_subrange_split(buf, pos, name.bytes, code + class);
    lemma_subrange_split(buf, pos + name.bytes.len(), code, class);
    law_name_round_trip(buf, pos, q.name);
    lemma_u16_reads_back(buf, pos + name.bytes.len(), query_type_code(q.qtype));
}

/// A record that is read back as it was written: its names are plain, and
/// an `UNKNOWN` does not carry the code of a type with a shape.
pub open spec fn plain_record(r: RecordView) -> bool {
    &&& plain_name(r.domain())
    &&& r.canonical()
    &&& match r {
        RecordView::NS { host, .. } => plain_name(host),
        RecordView::CNAME { host, .. } => plain_name(host),
        RecordView::MX { host, .. } => plain_name(host),
        _ => true,
    }
}

/// The payload of a plain record is written whole.
pub proof fn lemma_rdata_complete(r: RecordView)
    requires
        plain_record(r),
    ensures
        rdata_attempt(r).complete,
{
    match r {
        RecordView::NS { host, .. } => {
            lemma_name_reads_back_complete(encode_utf8(host));
        },
        RecordView::CNAME { host, .. } => {
            lemma_name_reads_back_complete(encode_utf8(host));
        },
        RecordView::MX { host, .. } => {
            lemma_name_reads_back_complete(encode_utf8(host));
        },
        _ => {},
    }
}

/// A plain record is read back as it was written, and reading ends behind
/// its last byte: the payload length that was written is the number of
/// bytes that reading the payload takes.
pub proof fn law_record_round_trip(buf: Seq<u8>, pos: int, r: RecordView)
    requires
        buf.len() == CAPACITY,
        0 <= pos,
        plain_record(r),
        pos + record_attempt(r).bytes.len() <= CAPACITY,
        buf.subrange(pos, pos + record_attempt(r).bytes.len()) == record_attempt(r).bytes,
    ensures
        record_attempt(r).complete,
        record_attempt(r).bytes.len() >= 12,
        parse_record(buf, pos) == Ok::<(RecordView, int), DnsError>(
            (r, pos + record_attempt(r).bytes.len()),
        ),
        u16_at(buf, name_end(buf, pos) + 8) == rdata_attempt(r).bytes.len(),
        pos + record_attempt(r).bytes.len() == name_end(buf, pos) + 10 + u16_at(
            buf,
            name_end(buf, pos) + 8,
        ),
{
    let name = name_attempt(encode_utf8(r.domain()));
    let head = record_head(r.type_code(), r.ttl());
    let payload = rdata_attempt(r);
    let len_field = u16_bytes(payload.bytes.len() as u16);
    lemma_name_reads_back_complete(encode_utf8(r.domain()));
    lemma_rdata_complete(r);
    assert(record_attempt(r).bytes == name.bytes + head + (len_field + payload.bytes));
    lemma_subrange_split(buf, pos, name.bytes + head, len_field + payload.bytes);
    lemma_subrange_split(buf, pos, name.bytes, head);
    let p = pos + name.bytes.len();
    lemma_subrange_split(buf, p + 8, len_field, payload.bytes);
    assert(head == u16_bytes(r.type_code()) + u16_bytes(CLASS_IN) + u32_bytes(r.ttl()));
    lemma_subrange_split(buf, p, u16_bytes(r.type_code()) + u16_bytes(CLASS_IN), u32_bytes(r.ttl()));
    lemma_subrange_split(buf, p, u16_bytes(r.type_code()), u16_bytes(CLASS_IN));
    law_name_round_trip(buf, pos, r.domain());
    lemma_u16_reads_back(buf, p, r.type_code());
    lemma_u32_reads_back(buf, p + 4, r.ttl());
    lemma_u16_reads_back(buf, p + 8, payload.bytes.len() as u16);
    let at = p + 10;
    let domain = r.domain();
    match r {
        RecordView::A { addr, .. } => {
            let part = buf.subrange(at, at + 4);
            assert(part == address_bytes(addr));
            assert(part[0] == buf[at] && part[1] == buf[at + 1] && part[2] == buf[at + 2]
                && part[3] == buf[at + 3]);
            assert(address_at(buf, at) == addr);
        },
        RecordView::NS { host, .. } => {
            law_name_round_trip(buf, at, host);
        },
        RecordView::CNAME { host, .. } => {
            law_name_round_trip(buf, at, host);
        },
        RecordView::MX { priority, host, .. } => {
            let hn = name_attempt(encode_utf8(host));
            lemma_name_reads_back_complete(encode_utf8(host));
            assert(payload.bytes == u16_bytes(priority) + hn.bytes);
            lemma_subrange_split(buf, at, u16_bytes(priority), hn.bytes);
            lemma_u16_reads_back(buf, at, priority);
            law_name_round_trip(buf, at + 2, host);
        },
        RecordView::UNKNOWN { qtype, data_len, .. } => {
            assert(payload.bytes.len() == data_len);
            assert(!has_shape(qtype));
        },
    }
}

/// A plain question is written whole.
pub proof fn lemma_question_complete(q: QuestionView)
    requires
        plain_question(q),
    ensures
        question_attempt(q).complete,
        question_attempt(q).bytes.len() >= 6,
{
    lemma_name_reads_back_complete(encode_utf8(q.name));
}

/// A plain record is written whole.
pub proof fn lemma_record_complete(r: RecordView)
    requires
        plain_record(r),
    ensures
        record_attempt(r).complete,
        record_attempt(r).bytes.len() >= 12,
{
    lemma_name_reads_back_complete(encode_utf8(r.domain()));
    lemma_rdata_complete(r);
}

/// A list of plain questions.
pub open spec fn plain_questions(questions: Seq<QuestionView>) -> bool {
    forall|i: int| 0 <= i < questions.len() ==> plain_question(#[trigger] questions[i])
}

/// A list of plain records.
pub open spec fn plain_records(records: Seq<RecordView>) -> bool {
    forall|i: int| 0 <= i < records.len() ==> plain_record(#[trigger] records[i])
}

/// A list of plain questions is written whole, and takes more bytes than it
/// has questions.
pub proof fn lemma_questions_complete(questions: Seq<QuestionView>)
    requires
        plain_questions(questions),
    ensures
        questions_attempt(questions).complete,
        questions_attempt(questions).bytes.len() >= questions.len(),
    decreases questions.len(),
{
    if questions.len() > 0 {
        lemma_question_complete(questions[0]);
        lemma_questions_complete(questions.drop_first());
    }
}

/// A list of plain records is written whole, and takes more bytes than it
/// has records.
pub proof fn lemma_records_complete(records: Seq<RecordView>)
    requires
        plain_records(records),
    ensures
        records_attempt(records).complete,
        records_attempt(records).bytes.len() >= records.len(),
    decreases records.len(),
{
    if records.len() > 0 {
        lemma_record_complete(records[0]);
        lemma_records_complete(records.drop_first());
    }
}

/// A list of plain questions is read back as it was written.
pub proof fn lemma_questions_read_back(buf: Seq<u8>, pos: int, questions: Seq<QuestionView>)
    requires
        buf.len() == CAPACITY,
        0 <= pos,
        plain_questions(questions),
        pos + questions_attempt(questions).bytes.len() <= CAPACITY,
        buf.subrange(pos, pos + questions_attempt(questions).bytes.len()) == questions_attempt(
            questions,
        ).bytes,
    ensures
        parse_questions(buf, pos, questions.len()) == Ok::<(Seq<QuestionView>, int), DnsError>(
            (questions, pos + questions_attempt(questions).bytes.len()),
        ),
    decreases questions.len(),
{
    if questions.len() == 0 {
        assert(questions =~= Seq::<QuestionView>::empty());
    } else {
        let one = question_attempt(questions[0]);
        let rest = questions.drop_first();
        lemma_question_complete(questions[0]);
        lemma_questions_complete(rest);
        lemma_subrange_split(buf, pos, one.bytes, questions_attempt(rest).bytes);
        law_question_round_trip(buf, pos, questions[0]);
        lemma_questions_read_back(buf, pos + one.bytes.len(), rest);
        assert(seq![questions[0]] + rest =~= questions);
    }
}

/// A list of plain records is read back as it was written.
pub proof fn lemma_records_read_back(buf: Seq<u8>, pos: int, records: Seq<RecordView>)
    requires
        buf.len() == CAPACITY,
        0 <= pos,
        plain_records(records),
        pos + records_attempt(records).bytes.len() <= CAPACITY,
        buf.subrange(pos, pos + records_attempt(records).bytes.len()) == records_attempt(
            records,
        ).bytes,
    ensures
        parse_records(buf, pos, records.len()) == Ok::<(Seq<RecordView>, int), DnsError>(
            (records, pos + records_attempt(records).bytes.len()),
        ),
    decreases records.len(),
{
    if records.len() == 0 {
        assert(records =~= Seq::<RecordView>::empty());
    } else {
        let one = record_attempt(records[0]);
        let rest = records.drop_first();
        lemma_record_complete(records[0]);
        lemma_records_complete(rest);
        lemma_subrange_split(buf, pos, one.bytes, records_attempt(rest).bytes);
        law_record_round_trip(buf, pos, records[0]);
        lemma_records_read_back(buf, pos + one.bytes.len(), rest);
        assert(seq![records[0]] + rest =~= records);
    }
}

/// A message that is read back as it was written: the opcode and the
/// result code of its header fit their four bits, and its questions and
/// records are plain.
pub open spec fn plain_packet(p: PacketView) -> bool {
    &&& p.header.fits_wire()
    &&& plain_questions(p.questions)
    &&& plain_records(p.answers)
    &&& plain_records(p.authorities)
    &&& plain_records(p.resources)
}

/// A plain message that fits the buffer is read back as it was written,
/// with the four counts of its header set to the lengths of its lists; and
/// reading ends behind its last byte.
pub proof fn law_packet_round_trip(buf: Seq<u8>, pos: int, p: PacketView)
    requires
        buf.len() == CAPACITY,
        0 <= pos,
        plain_packet(p),
        pos + packet_attempt(p).bytes.len() <= CAPACITY,
        buf.subrange(pos, pos + packet_attempt(p).bytes.len()) == packet_attempt(p).bytes,
    ensures
        packet_attempt(p).complete,
        p.counted().header.questions == p.questions.len(),
        p.counted().header.answers == p.answers.len(),
        p.counted().header.authoritative_entries == p.authorities.len(),
        p.counted().header.resource_entries == p.resources.len(),
        parse_packet(buf, pos) == Ok::<(PacketView, int), DnsError>(
            (p.counted(), pos + packet_attempt(p).bytes.len()),
        ),
{
    let head = header_bytes(p.counted().header);
    let qs = questions_attempt(p.questions).bytes;
    let an = records_attempt(p.answers).bytes;
    let au = records_attempt(p.authorities).bytes;
    let ad = records_attempt(p.resources).bytes;
    lemma_questions_complete(p.questions);
    lemma_records_complete(p.answers);
    lemma_records_complete(p.authorities);
    lemma_records_complete(p.resources);
    assert(head.len() == HEADER_LEN);
    assert(packet_attempt(p).bytes == head + qs + an + au + ad);
    lemma_subrange_split(buf, pos, head + qs + an + au, ad);
    lemma_subrange_split(buf, pos, head + qs + an, au);
    lemma_subrange_split(buf, pos, head + qs, an);
    lemma_subrange_split(buf, pos, head, qs);
    law_header_round_trip(buf, pos, p.counted().header);
    let at_questions = pos + HEADER_LEN;
    lemma_questions_read_back(buf, at_questions, p.questions);
    let at_answers = at_questions + qs.len();
    lemma_records_read_back(buf, at_answers, p.answers);
    let at_authorities = at_answers + an.len();
    lemma_records_read_back(buf, at_authorities, p.authorities);
    let at_resources = at_authorities + au.len();
    lemma_records_read_back(buf, at_resources, p.resources);
}

/// Decoding the bytes that encoding a plain message gave, gives the message
/// back, with the four counts of its header set to the lengths of its lists.
pub proof fn law_decode_encode(p: PacketView)
    requires
        plain_packet(p),
        packet_attempt(p).bytes.len() <= CAPACITY,
    ensures
        packet_attempt(p).complete,
        parse_packet(datagram(packet_attempt(p).bytes), 0) is Ok,
        parse_packet(datagram(packet_attempt(p).bytes), 0)->Ok_0.0 == p.counted(),
{
    let bytes = packet_attempt(p).bytes;
    assert(datagram(bytes).subrange(0, bytes.len() as int) =~= bytes);
    law_packet_round_trip(datagram(bytes), 0, p);
}

} // verus!
