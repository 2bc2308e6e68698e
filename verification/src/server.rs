//! What a server that answers queries by resolving them replies.
//!
//! Receiving the query, running the resolution and sending the reply are left
//! to the caller; this module decides which question is resolved and what
//! the reply holds.

use vstd::prelude::*;
use crate::dns_packet::{questions_view, records_view, DnsPacket, PacketView};
use crate::dns_record::{DnsQuestion, QuestionView, RecordView};
use crate::dns_types::{DnsHeader, ResultCode};

verus! {

/// The header that every reply begins with: the id of the query, and the
/// flags for a response, recursion desired and recursion available.
pub open spec fn reply_header(id: u16, rescode: ResultCode) -> DnsHeader {
    DnsHeader {
        id,
        recursion_desired: true,
        recursion_available: true,
        response: true,
        rescode,
        ..DnsHeader::new_header()
    }
}

/// The reply to a query with the id `id`.
///
/// A query without a question is answered with `FORMERR`. If the question
/// was resolved, the reply repeats the question and has the result code and
/// the three record sections of what the resolution found; if the resolution
/// failed, the reply is `SERVFAIL` and has no entries.
pub open spec fn response_for(
    id: u16,
    asked: Option<QuestionView>,
    outcome: Option<PacketView>,
) -> PacketView {
    match (asked, outcome) {
        (Some(question), Some(found)) => PacketView {
            header: reply_header(id, found.header.rescode),
            questions: seq![question],
            answers: found.answers,
            authorities: found.authorities,
            resources: found.resources,
        },
        (Some(_), None) => PacketView {
            header: reply_header(id, ResultCode::SERVFAIL),
            questions: Seq::empty(),
            answers: Seq::empty(),
            authorities: Seq::empty(),
            resources: Seq::empty(),
        },
        (None, _) => PacketView {
            header: reply_header(id, ResultCode::FORMERR),
            questions: Seq::empty(),
            answers: Seq::empty(),
            authorities: Seq::empty(),
            resources: Seq::empty(),
        },
    }
}

/// Takes the question to resolve out of `request`: its last one.
pub fn take_question(request: &mut DnsPacket) -> (r: Option<DnsQuestion>)
    ensures
        match r {
            Some(question) => old(request)@.questions.len() > 0 && question@ == old(
                request,
            )@.questions.last() && final(request)@ == (PacketView {
                questions: old(request)@.questions.drop_last(),
                ..old(request)@
            }),
            None => old(request)@.questions.len() == 0 && final(request)@ == old(request)@,
        },
{
    let taken = request.questions.pop();
    proof {
        if taken is Some {
            assert(questions_view(request.questions@) =~= old(request)@.questions.drop_last());
        } else {
            assert(questions_view(request.questions@) =~= old(request)@.questions);
        }
    }
    taken
}

/// Makes the reply to a query with the id `id`, of which `asked` was taken
/// and for which the resolution found `outcome`, or failed.
pub fn build_response(id: u16, asked: Option<DnsQuestion>, outcome: Option<DnsPacket>) -> (r:
    DnsPacket)
    ensures
        r@ == response_for(
            id,
            match asked {
                Some(question) => Some(question@),
                None => None,
            },
            match outcome {
                Some(found) => Some(found@),
                None => None,
            },
        ),
{
    let mut packet = DnsPacket::new();
    packet.header.id = id;
    packet.header.recursion_desired = true;
    packet.header.recursion_available = true;
    packet.header.response = true;
    proof {
        assert(questions_view(packet.questions@) =~= Seq::<QuestionView>::empty());
        assert(records_view(packet.answers@) =~= Seq::<RecordView>::empty());
        assert(records_view(packet.authorities@) =~= Seq::<RecordView>::empty());
        assert(records_view(packet.resources@) =~= Seq::<RecordView>::empty());
    }
    match asked {
        Some(question) => match outcome {
            Some(found) => {
                packet.header.rescode = found.header.rescode;
                packet.questions.push(question);
                packet.answers = found.answers;
                packet.authorities = found.authorities;
                packet.resources = found.resources;
                assert(questions_view(packet.questions@) =~= seq![question@]);
            },
            None => {
                packet.header.rescode = ResultCode::SERVFAIL;
            },
        },
        None => {
            packet.header.rescode = ResultCode::FORMERR;
        },
    }
    packet
}

} // verus!
