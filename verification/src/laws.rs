//! What holds of every buffer, every name and every resolution.

use vstd::prelude::*;
use vstd::utf8::encode_utf8;
use crate::error::DnsError;
use crate::name::{
    is_pointer, labels_attempt, name_attempt, name_end, name_text, parse_labels, pointer_target,
    split_labels, MAX_JUMPS, MAX_LABEL,
};
use crate::packets::{
    packet_attempt, parse_records, prepend_records, questions_attempt, records_attempt, PacketView,
};
use crate::record::{has_shape, parse_record, record_attempt, QuestionView, RecordView};
use crate::resolver::{finish_spec, reply_spec, FrameView, ResolverView, StepView};
use crate::resolver::{MAX_DEPTH, MAX_HOPS};
use crate::wire::{u16_at, u32_at, write_outcome, CAPACITY};

verus! {

/// Where a name is read with one pointer followed already, it is read the
/// same with none followed.
pub proof fn lemma_fewer_jumps(buf: Seq<u8>, pos: int, jumps: int)
    requires
        buf.len() == CAPACITY,
        0 <= jumps,
        parse_labels(buf, pos, jumps + 1) is Ok,
    ensures
        parse_labels(buf, pos, jumps) == parse_labels(buf, pos, jumps + 1),
    decreases MAX_JUMPS + 1 - jumps, CAPACITY - pos,
{
    if is_pointer(buf[pos]) {
        lemma_fewer_jumps(buf, pointer_target(buf[pos], buf[pos + 1]), jumps + 1);
    } else if buf[pos] != 0 {
        lemma_fewer_jumps(buf, pos + 1 + buf[pos], jumps);
    }
}

/// A pointer to an earlier name is read as that name is read where it
/// stands, as long as the earlier name leaves one pointer to spare; and
/// reading ends behind the pointer.
pub proof fn law_pointer_reads_as_target(buf: Seq<u8>, pos: int)
    requires
        buf.len() == CAPACITY,
        0 <= pos,
        pos + 1 < CAPACITY,
        is_pointer(buf[pos]),
        parse_labels(buf, pointer_target(buf[pos], buf[pos + 1]), 1) is Ok,
    ensures
        parse_labels(buf, pos, 0) == parse_labels(buf, pointer_target(buf[pos], buf[pos + 1]), 0),
        name_text(parse_labels(buf, pos, 0)->Ok_0) == name_text(
            parse_labels(buf, pointer_target(buf[pos], buf[pos + 1]), 0)->Ok_0,
        ),
        name_end(buf, pos) == pos + 2,
{
    lemma_fewer_jumps(buf, pointer_target(buf[pos], buf[pos + 1]), 0);
}

/// A label is read in front of what follows it. With the law above:
/// labels in front of a pointer are read in front of the name that the
/// pointer leads to.
pub proof fn law_label_before_the_rest(buf: Seq<u8>, pos: int)
    requires
        buf.len() == CAPACITY,
        0 <= pos < CAPACITY,
        !is_pointer(buf[pos]),
        buf[pos] != 0,
        parse_labels(buf, pos, 0) is Ok,
    ensures
        parse_labels(buf, pos + 1 + buf[pos], 0) is Ok,
        parse_labels(buf, pos, 0)->Ok_0 == seq![buf.subrange(pos + 1, pos + 1 + buf[pos])]
            + parse_labels(buf, pos + 1 + buf[pos], 0)->Ok_0,
        name_end(buf, pos) == name_end(buf, pos + 1 + buf[pos]),
{
}

/// Whether `count` pointers stand in a row from `pos` on, each at the
/// offset that the one before it names.
pub open spec fn pointers_in_a_row(buf: Seq<u8>, pos: int, count: nat) -> bool
    decreases count,
{
    count == 0 || (0 <= pos && pos + 1 < CAPACITY && is_pointer(buf[pos]) && pointers_in_a_row(
        buf,
        pointer_target(buf[pos], buf[pos + 1]),
        (count - 1) as nat,
    ))
}

/// Where following `count` pointers in a row from `pos` leads.
pub open spec fn after_pointers(buf: Seq<u8>, pos: int, count: nat) -> int
    decreases count,
{
    if count == 0 {
        pos
    } else {
        after_pointers(buf, pointer_target(buf[pos], buf[pos + 1]), (count - 1) as nat)
    }
}

/// A name that leads through more pointers in a row than may be followed
/// is malformed.
pub proof fn law_pointer_chain_is_malformed(buf: Seq<u8>, pos: int, jumps: int)
    requires
        buf.len() == CAPACITY,
        0 <= jumps <= MAX_JUMPS + 1,
        pointers_in_a_row(buf, pos, (MAX_JUMPS + 1 - jumps) as nat),
    ensures
        parse_labels(buf, pos, jumps) == Err::<Seq<Seq<u8>>, DnsError>(DnsError::MalformedName),
    decreases MAX_JUMPS + 1 - jumps,
{
    if jumps <= MAX_JUMPS {
        law_pointer_chain_is_malformed(buf, pointer_target(buf[pos], buf[pos + 1]), jumps + 1);
    }
}

/// Pointers in a row, and more pointers in a row from where they lead, are
/// pointers in a row.
pub proof fn lemma_rows_join(buf: Seq<u8>, pos: int, first: nat, second: nat)
    requires
        buf.len() == CAPACITY,
        pointers_in_a_row(buf, pos, first),
        pointers_in_a_row(buf, after_pointers(buf, pos, first), second),
    ensures
        pointers_in_a_row(buf, pos, first + second),
        after_pointers(buf, pos, first + second) == after_pointers(
            buf,
            after_pointers(buf, pos, first),
            second,
        ),
    decreases first,
{
    if first > 0 {
        lemma_rows_join(
            buf,
            pointer_target(buf[pos], buf[pos + 1]),
            (first - 1) as nat,
            second,
        );
    }
}

/// Of pointers in a row, the first few are pointers in a row.
pub proof fn lemma_rows_prefix(buf: Seq<u8>, pos: int, count: nat, fewer: nat)
    requires
        buf.len() == CAPACITY,
        pointers_in_a_row(buf, pos, count),
        fewer <= count,
    ensures
        pointers_in_a_row(buf, pos, fewer),
    decreases fewer,
{
    if fewer > 0 {
        lemma_rows_prefix(
            buf,
            pointer_target(buf[pos], buf[pos + 1]),
            (count - 1) as nat,
            (fewer - 1) as nat,
        );
    }
}

/// Pointers that lead back to where they began are pointers in a row of
/// any length.
pub proof fn lemma_loop_rows(buf: Seq<u8>, pos: int, round: nat, count: nat)
    requires
        buf.len() == CAPACITY,
        round >= 1,
        pointers_in_a_row(buf, pos, round),
        after_pointers(buf, pos, round) == pos,
    ensures
        pointers_in_a_row(buf, pos, count),
    decreases count,
{
    if count <= round {
        lemma_rows_prefix(buf, pos, round, count);
    } else {
        lemma_loop_rows(buf, pos, round, (count - round) as nat);
        lemma_rows_join(buf, pos, round, (count - round) as nat);
    }
}

/// A name whose pointers lead back to where it began is malformed: reading
/// it fails, and does not go on for ever.
pub proof fn law_pointer_loop_is_malformed(buf: Seq<u8>, pos: int, round: nat)
    requires
        buf.len() == CAPACITY,
        round >= 1,
        pointers_in_a_row(buf, pos, round),
        after_pointers(buf, pos, round) == pos,
    ensures
        parse_labels(buf, pos, 0) == Err::<Seq<Seq<u8>>, DnsError>(DnsError::MalformedName),
{
    lemma_loop_rows(buf, pos, round, (MAX_JUMPS + 1) as nat);
    law_pointer_chain_is_malformed(buf, pos, 0);
}

/// A dotted name, given by its bytes, with a label of more than 63 bytes.
pub open spec fn has_long_label(name: Seq<u8>) -> bool {
    exists|k: int|
        0 <= k < split_labels(name).len() && (#[trigger] split_labels(name)[k]).len() > MAX_LABEL
}

/// Labels that are written whole have at most 63 bytes each.
pub proof fn lemma_complete_labels_are_short(labels: Seq<Seq<u8>>, k: int)
    requires
        0 <= k < labels.len(),
        labels_attempt(labels).complete,
    ensures
        labels[k].len() <= MAX_LABEL,
    decreases labels.len(),
{
    if k > 0 {
        lemma_complete_labels_are_short(labels.drop_first(), k - 1);
    }
}

/// A name with a label of more than 63 bytes is not written whole: writing
/// it fails wherever it starts.
pub proof fn law_long_label_is_refused(name: Seq<u8>, pos: int)
    requires
        has_long_label(name),
    ensures
        !name_attempt(name).complete,
        write_outcome(
            pos,
            name_attempt(name).bytes.len() as int,
            name_attempt(name).complete,
        ) is Err,
{
    let k = choose|k: int|
        0 <= k < split_labels(name).len() && (#[trigger] split_labels(name)[k]).len() > MAX_LABEL;
    if name_attempt(name).complete {
        lemma_complete_labels_are_short(split_labels(name), k);
    }
}

/// A question whose name has a label of more than 63 bytes.
pub open spec fn question_has_long_label(q: QuestionView) -> bool {
    has_long_label(encode_utf8(q.name))
}

/// A record with a name, its owner or its host, that has a label of more
/// than 63 bytes.
pub open spec fn record_has_long_label(r: RecordView) -> bool {
    has_long_label(encode_utf8(r.domain())) || match r {
        RecordView::NS { host, .. } => has_long_label(encode_utf8(host)),
        RecordView::CNAME { host, .. } => has_long_label(encode_utf8(host)),
        RecordView::MX { host, .. } => has_long_label(encode_utf8(host)),
        _ => false,
    }
}

/// A message with a name that has a label of more than 63 bytes.
pub open spec fn packet_has_long_label(p: PacketView) -> bool {
    ||| exists|i: int| 0 <= i < p.questions.len() && question_has_long_label(#[trigger] p.questions[i])
    ||| exists|i: int| 0 <= i < p.answers.len() && record_has_long_label(#[trigger] p.answers[i])
    ||| exists|i: int|
        0 <= i < p.authorities.len() && record_has_long_label(#[trigger] p.authorities[i])
    ||| exists|i: int| 0 <= i < p.resources.len() && record_has_long_label(#[trigger] p.resources[i])
}

/// A record with a long label is not written whole.
pub proof fn lemma_record_with_long_label(r: RecordView)
    requires
        record_has_long_label(r),
    ensures
        !record_attempt(r).complete,
{
    if has_long_label(encode_utf8(r.domain())) {
        law_long_label_is_refused(encode_utf8(r.domain()), 0);
    } else {
        match r {
            RecordView::NS { host, .. } => {
                law_long_label_is_refused(encode_utf8(host), 0);
            },
            RecordView::CNAME { host, .. } => {
                law_long_label_is_refused(encode_utf8(host), 0);
            },
            RecordView::MX { host, .. } => {
                law_long_label_is_refused(encode_utf8(host), 0);
            },
            _ => {},
        }
    }
}

/// A list of questions, one of them with a long label, is not written
/// whole.
pub proof fn lemma_questions_with_long_label(questions: Seq<QuestionView>, i: int)
    requires
        0 <= i < questions.len(),
        question_has_long_label(questions[i]),
    ensures
        !questions_attempt(questions).complete,
    decreases questions.len(),
{
    if i == 0 {
        law_long_label_is_refused(encode_utf8(questions[0].name), 0);
    } else {
        lemma_questions_with_long_label(questions.drop_first(), i - 1);
    }
}

/// A list of records, one of them with a long label, is not written whole.
pub proof fn lemma_records_with_long_label(records: Seq<RecordView>, i: int)
    requires
        0 <= i < records.len(),
        record_has_long_label(records[i]),
    ensures
        !records_attempt(records).complete,
    decreases records.len(),
{
    if i == 0 {
        lemma_record_with_long_label(records[0]);
    } else {
        lemma_records_with_long_label(records.drop_first(), i - 1);
    }
}

/// A message with a label of more than 63 bytes in any of its names is not
/// written whole: writing it fails wherever it starts, so that there is
/// nothing to send.
pub proof fn law_packet_with_long_label_is_refused(p: PacketView, pos: int)
    requires
        packet_has_long_label(p),
    ensures
        !packet_attempt(p).complete,
        write_outcome(
            pos,
            packet_attempt(p).bytes.len() as int,
            packet_attempt(p).complete,
        ) is Err,
{
    if exists|i: int| 0 <= i < p.questions.len() && question_has_long_label(#[trigger] p.questions[i]) {
        let i = choose|i: int|
            0 <= i < p.questions.len() && question_has_long_label(#[trigger] p.questions[i]);
        lemma_questions_with_long_label(p.questions, i);
    } else if exists|i: int| 0 <= i < p.answers.len() && record_has_long_label(#[trigger] p.answers[i]) {
        let i = choose|i: int|
            0 <= i < p.answers.len() && record_has_long_label(#[trigger] p.answers[i]);
        lemma_records_with_long_label(p.answers, i);
    } else if exists|i: int|
        0 <= i < p.authorities.len() && record_has_long_label(#[trigger] p.authorities[i]) {
        let i = choose|i: int|
            0 <= i < p.authorities.len() && record_has_long_label(#[trigger] p.authorities[i]);
        lemma_records_with_long_label(p.authorities, i);
    } else {
        let i = choose|i: int|
            0 <= i < p.resources.len() && record_has_long_label(#[trigger] p.resources[i]);
        lemma_records_with_long_label(p.resources, i);
    }
}

/// A record of a type without a shape is passed over by the length that it
/// announces: reading ends that many bytes behind the length field, and the
/// records behind it are read from there.
pub proof fn law_unknown_record_is_skipped(buf: Seq<u8>, pos: int, count: nat)
    requires
        buf.len() == CAPACITY,
        parse_labels(buf, pos, 0) is Ok,
        name_end(buf, pos) + 10 + u16_at(buf, name_end(buf, pos) + 8) <= CAPACITY,
        !has_shape(u16_at(buf, name_end(buf, pos))),
    ensures
        parse_record(buf, pos) == Ok::<(RecordView, int), DnsError>(
            (
                RecordView::UNKNOWN {
                    domain: name_text(parse_labels(buf, pos, 0)->Ok_0),
                    qtype: u16_at(buf, name_end(buf, pos)),
                    data_len: u16_at(buf, name_end(buf, pos) + 8),
                    ttl: u32_at(buf, name_end(buf, pos) + 4),
                },
                name_end(buf, pos) + 10 + u16_at(buf, name_end(buf, pos) + 8),
            ),
        ),
        parse_records(buf, pos, count + 1) == prepend_records(
            seq![parse_record(buf, pos)->Ok_0.0],
            parse_records(
                buf,
                name_end(buf, pos) + 10 + u16_at(buf, name_end(buf, pos) + 8),
                count,
            ),
        ),
{
}

/// What a record of a type without a shape is read as, and where reading
/// ends, does not depend on what its payload holds.
pub proof fn law_unknown_payload_is_not_read(buf: Seq<u8>, other: Seq<u8>, pos: int)
    requires
        buf.len() == CAPACITY,
        other.len() == CAPACITY,
        parse_labels(buf, pos, 0) is Ok,
        name_end(buf, pos) + 10 + u16_at(buf, name_end(buf, pos) + 8) <= CAPACITY,
        !has_shape(u16_at(buf, name_end(buf, pos))),
        parse_labels(other, pos, 0) == parse_labels(buf, pos, 0),
        name_end(other, pos) == name_end(buf, pos),
        forall|i: int|
            name_end(buf, pos) <= i < name_end(buf, pos) + 10 ==> other[i] == buf[i],
    ensures
        parse_record(other, pos) == parse_record(buf, pos),
{
    let p = name_end(buf, pos);
    assert(other[p] == buf[p] && other[p + 1] == buf[p + 1]);
    assert(other[p + 4] == buf[p + 4] && other[p + 5] == buf[p + 5] && other[p + 6] == buf[p + 6]
        && other[p + 7] == buf[p + 7]);
    assert(other[p + 8] == buf[p + 8] && other[p + 9] == buf[p + 9]);
}

/// However a lookup ends, the resolution then either hands out a query,
/// having counted it, or has come to its end.
pub proof fn lemma_finish_progress(frames: Seq<FrameView>, hops: nat, result: PacketView)
    ensures
        step_progress(ResolverView { frames, hops }, finish_spec(frames, hops, result)),
        finish_spec(frames, hops, result).0.frames.len() <= frames.len(),
    decreases frames.len(),
{
    if frames.len() > 1 {
        let waiting = frames.drop_last();
        lemma_finish_progress(waiting, hops, waiting.last().held->Some_0);
    }
}

/// What one step of a resolution does to it: a query is counted, the
/// count stays within its bound, a lookup is waiting, and the query asks
/// one question without asking for recursion; any other step ends the
/// resolution. No more lookups wait than before, but for one.
pub open spec fn step_progress(before: ResolverView, after: (ResolverView, StepView)) -> bool {
    &&& after.1 is Query ==> after.0.hops == before.hops + 1 && after.0.hops <= MAX_HOPS
        && after.0.frames.len() > 0 && after.1->query.questions.len() == 1
        && !after.1->query.header.recursion_desired && after.1->query.questions[0].name
        == after.0.frames.last().qname && after.1->server == after.0.frames.last().server
    &&& !(after.1 is Query) ==> after.0.frames.len() == 0 && after.0.hops == before.hops
    &&& after.0.frames.len() <= before.frames.len() + 1
}

/// Every reply moves a resolution on: either a query is handed out and
/// counted, and at most twenty are, or the resolution has come to its end.
/// No more lookups wait for one another than the depth allows.
pub proof fn law_resolver_progress(state: ResolverView, reply: PacketView)
    ensures
        step_progress(state, reply_spec(state, reply)),
        state.frames.len() <= MAX_DEPTH ==> reply_spec(state, reply).0.frames.len() <= MAX_DEPTH,
{
    lemma_finish_progress(state.frames, state.hops, reply);
}

} // verus!
