//! What a server answers to one request, once the lookup it asked for has
//! ended.

use vstd::prelude::*;
use crate::error::DnsError;
use crate::header::{blank_header, DnsHeader, ResultCode};
use crate::packets::{datagram, packet_attempt, parse_packet, DnsPacket, PacketView};
use crate::record::{DnsQuestion, QuestionView, RecordView};
use crate::wire::write_outcome;

verus! {

/// How the handling of a request went.
#[derive(Debug, Clone)]
pub enum Outcome {
    /// The request held no question.
    NoQuestion,
    /// The lookup for `question` ended with `result`.
    Resolved { question: DnsQuestion, result: DnsPacket },
    /// The lookup failed.
    Failed,
}

/// What an outcome says.
pub enum OutcomeView {
    NoQuestion,
    Resolved { question: QuestionView, result: PacketView },
    Failed,
}

impl View for Outcome {
    type V = OutcomeView;

    open spec fn view(&self) -> OutcomeView {
        match self {
            Outcome::NoQuestion => OutcomeView::NoQuestion,
            Outcome::Resolved { question, result } => OutcomeView::Resolved {
                question: question@,
                result: result@,
            },
            Outcome::Failed => OutcomeView::Failed,
        }
    }
}

/// The header of every response: the id of the request, the response flag,
/// and recursion both desired and available.
pub open spec fn response_header(id: u16, rescode: ResultCode) -> DnsHeader {
    DnsHeader {
        id,
        recursion_desired: true,
        recursion_available: true,
        response: true,
        rescode,
        ..blank_header()
    }
}

/// The response to a request with the id `id`. A request without a question
/// is answered with a format error, a failed lookup with a server failure.
/// The result of a lookup is handed on: its result code, whatever it is,
/// and its three sections, behind the question that was asked.
pub open spec fn response_view(id: u16, outcome: OutcomeView) -> PacketView {
    match outcome {
        OutcomeView::NoQuestion => PacketView {
            header: response_header(id, ResultCode::FORMERR),
            questions: Seq::empty(),
            answers: Seq::empty(),
            authorities: Seq::empty(),
            resources: Seq::empty(),
        },
        OutcomeView::Failed => PacketView {
            header: response_header(id, ResultCode::SERVFAIL),
            questions: Seq::empty(),
            answers: Seq::empty(),
            authorities: Seq::empty(),
            resources: Seq::empty(),
        },
        OutcomeView::Resolved { question, result } => PacketView {
            header: response_header(id, result.header.rescode),
            questions: seq![question],
            answers: result.answers,
            authorities: result.authorities,
            resources: result.resources,
        },
    }
}

/// Take the question that a request asks: its last one. The others stay.
pub fn take_question(request: &mut DnsPacket) -> (question: Option<DnsQuestion>)
    ensures
        final(request).header == old(request).header,
        final(request).answers == old(request).answers,
        final(request).authorities == old(request).authorities,
        final(request).resources == old(request).resources,
        old(request).questions@.len() == 0 ==> question is None && final(request).questions@
            == old(request).questions@,
        old(request).questions@.len() > 0 ==> question == Some(old(request).questions@.last())
            && final(request).questions@ == old(request).questions@.drop_last(),
{
    request.questions.pop()
}

/// Build the response to a request with the id `id`.
pub fn respond(id: u16, outcome: Outcome) -> (response: DnsPacket)
    ensures
        response@ == response_view(id, outcome@),
{
    let mut packet = DnsPacket::new();
    packet.header.id = id;
    packet.header.recursion_desired = true;
    packet.header.recursion_available = true;
    packet.header.response = true;
    match outcome {
        Outcome::NoQuestion => {
            packet.header.rescode = ResultCode::FORMERR;
            proof {
                assert(packet@.questions =~= Seq::<QuestionView>::empty());
                assert(packet@.answers =~= Seq::<RecordView>::empty());
                assert(packet@.authorities =~= Seq::<RecordView>::empty());
                assert(packet@.resources =~= Seq::<RecordView>::empty());
            }
        },
        Outcome::Failed => {
            packet.header.rescode = ResultCode::SERVFAIL;
            proof {
                assert(packet@.questions =~= Seq::<QuestionView>::empty());
                assert(packet@.answers =~= Seq::<RecordView>::empty());
                assert(packet@.authorities =~= Seq::<RecordView>::empty());
                assert(packet@.resources =~= Seq::<RecordView>::empty());
            }
        },
        Outcome::Resolved { question, result } => {
            let ghost asked = question@;
            packet.questions.push(question);
            packet.header.rescode = result.header.rescode;
            packet.answers = result.answers;
            packet.authorities = result.authorities;
            packet.resources = result.resources;
            proof {
                assert(packet@.questions =~= seq![asked]);
            }
        },
    }
    packet
}

/// Read a request from a datagram: its id, and the question it asks, if
/// it asks any. A datagram that cannot be read is no request.
pub fn read_request(data: &[u8]) -> (res: Result<(u16, Option<DnsQuestion>), DnsError>)
    ensures
        match parse_packet(datagram(data@), 0) {
            Err(e) => res is Err && res->Err_0 == e,
            Ok((request, end)) => res is Ok && res->Ok_0.0 == request.header.id && (
            request.questions.len() == 0 ==> res->Ok_0.1 is None) && (request.questions.len() > 0
                ==> res->Ok_0.1 is Some && res->Ok_0.1->Some_0@ == request.questions.last()),
        },
{
    let mut request = DnsPacket::decode(data)?;
    let id = request.header.id;
    let question = take_question(&mut request);
    Ok((id, question))
}

/// Build the response to a request with the id `id`, and give its bytes.
pub fn write_response(id: u16, outcome: Outcome) -> (res: Result<Vec<u8>, DnsError>)
    ensures
        match res {
            Ok(bytes) => bytes@ == packet_attempt(response_view(id, outcome@)).bytes
                && write_outcome(
                0,
                packet_attempt(response_view(id, outcome@)).bytes.len() as int,
                packet_attempt(response_view(id, outcome@)).complete,
            ) is Ok,
            Err(e) => write_outcome(
                0,
                packet_attempt(response_view(id, outcome@)).bytes.len() as int,
                packet_attempt(response_view(id, outcome@)).complete,
            ) == Err::<(), DnsError>(e),
        },
{
    let mut response = respond(id, outcome);
    response.encode()
}

} // verus!
