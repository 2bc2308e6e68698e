//! The rules of the interactive front end: which query types a typed word
//! stands for, which queries it leads to, and what is shown for a reply.
//! Reading the words and printing the table are left to the caller.

use vstd::prelude::*;
use vstd::string::*;
use crate::dns_packet::{DnsPacket, PacketView};
use crate::dns_types::{QueryType, ResultCode};

verus! {

/// The query type that `word` names. The word is taken as it is: the caller
/// trims it and puts it in capitals.
pub open spec fn type_named(word: Seq<char>) -> Option<QueryType> {
    if word == "A"@ {
        Some(QueryType::A)
    } else if word == "AAAA"@ {
        Some(QueryType::AAAA)
    } else if word == "MX"@ {
        Some(QueryType::MX)
    } else if word == "NS"@ {
        Some(QueryType::NS)
    } else if word == "CNAME"@ {
        Some(QueryType::CNAME)
    } else if word == "SRV"@ {
        Some(QueryType::SRV)
    } else if word == "TXT"@ {
        Some(QueryType::TXT)
    } else if word == "ALL"@ {
        Some(QueryType::ALL)
    } else {
        None
    }
}

/// The types that are queried, in order, when `qtype` is asked for: for
/// `ALL`, each of the seven record types; for any other, itself.
pub open spec fn types_for(qtype: QueryType) -> Seq<QueryType> {
    if qtype == QueryType::ALL {
        seq![
            QueryType::A,
            QueryType::AAAA,
            QueryType::MX,
            QueryType::NS,
            QueryType::CNAME,
            QueryType::SRV,
            QueryType::TXT,
        ]
    } else {
        seq![qtype]
    }
}

/// The type shown for a reply: that of its first question, or `UNKNOWN(0)`
/// if it has none.
pub open spec fn shown_type(reply: PacketView) -> QueryType {
    if reply.questions.len() > 0 {
        reply.questions[0].qtype
    } else {
        QueryType::UNKNOWN(0)
    }
}

/// The query type that `word` names, if it names one.
pub fn parse_query_type(word: &String) -> (r: Option<QueryType>)
    ensures
        r == type_named(word@),
{
    if *word == String::from_str("A") {
        Some(QueryType::A)
    } else if *word == String::from_str("AAAA") {
        Some(QueryType::AAAA)
    } else if *word == String::from_str("MX") {
        Some(QueryType::MX)
    } else if *word == String::from_str("NS") {
        Some(QueryType::NS)
    } else if *word == String::from_str("CNAME") {
        Some(QueryType::CNAME)
    } else if *word == String::from_str("SRV") {
        Some(QueryType::SRV)
    } else if *word == String::from_str("TXT") {
        Some(QueryType::TXT)
    } else if *word == String::from_str("ALL") {
        Some(QueryType::ALL)
    } else {
        None
    }
}

/// The query type to use for `word`, and whether `word` named it: a word
/// that names no type stands for `A`.
pub fn choose_query_type(word: &String) -> (r: (QueryType, bool))
    ensures
        r.1 == (type_named(word@) is Some),
        r.0 == match type_named(word@) {
            Some(qtype) => qtype,
            None => QueryType::A,
        },
{
    match parse_query_type(word) {
        Some(qtype) => (qtype, true),
        None => (QueryType::A, false),
    }
}

/// The types to query, in order, when `qtype` is asked for.
pub fn query_types(qtype: QueryType) -> (r: Vec<QueryType>)
    ensures
        r@ == types_for(qtype),
{
    let mut types: Vec<QueryType> = Vec::new();
    if qtype == QueryType::ALL {
        types.push(QueryType::A);
        types.push(QueryType::AAAA);
        types.push(QueryType::MX);
        types.push(QueryType::NS);
        types.push(QueryType::CNAME);
        types.push(QueryType::SRV);
        types.push(QueryType::TXT);
    } else {
        types.push(qtype);
    }
    assert(types@ =~= types_for(qtype));
    types
}

/// The type to show for `reply`.
pub fn displayed_type(reply: &DnsPacket) -> (r: QueryType)
    ensures
        r == shown_type(reply@),
{
    if reply.questions.len() > 0 {
        reply.questions[0].qtype
    } else {
        QueryType::UNKNOWN(0)
    }
}

/// Whether `word`, trimmed and in small letters, asks for another query: it
/// does if it is `y`.
pub fn wants_another(word: &String) -> (r: bool)
    ensures
        r == (word@ == "y"@),
{
    *word == String::from_str("y")
}

/// The name under which a query type is shown. An `UNKNOWN` type is shown
/// without its number.
pub fn type_label(qtype: QueryType) -> (r: &'static str)
    ensures
        r@ == match qtype {
            QueryType::UNKNOWN(_) => "UNKNOWN"@,
            QueryType::A => "A"@,
            QueryType::NS => "NS"@,
            QueryType::CNAME => "CNAME"@,
            QueryType::MX => "MX"@,
            QueryType::TXT => "TXT"@,
            QueryType::AAAA => "AAAA"@,
            QueryType::SRV => "SRV"@,
            QueryType::ALL => "ALL"@,
        },
{
    match qtype {
        QueryType::UNKNOWN(_) => "UNKNOWN",
        QueryType::A => "A",
        QueryType::NS => "NS",
        QueryType::CNAME => "CNAME",
        QueryType::MX => "MX",
        QueryType::TXT => "TXT",
        QueryType::AAAA => "AAAA",
        QueryType::SRV => "SRV",
        QueryType::ALL => "ALL",
    }
}

/// The name under which a result code is shown.
pub fn code_label(code: ResultCode) -> (r: &'static str)
    ensures
        r@ == match code {
            ResultCode::NOERROR => "NOERROR"@,
            ResultCode::FORMERR => "FORMERR"@,
            ResultCode::SERVFAIL => "SERVFAIL"@,
            ResultCode::NXDOMAIN => "NXDOMAIN"@,
            ResultCode::NOTIMP => "NOTIMP"@,
            ResultCode::REFUSED => "REFUSED"@,
        },
{
    match code {
        ResultCode::NOERROR => "NOERROR",
        ResultCode::FORMERR => "FORMERR",
        ResultCode::SERVFAIL => "SERVFAIL",
        ResultCode::NXDOMAIN => "NXDOMAIN",
        ResultCode::NOTIMP => "NOTIMP",
        ResultCode::REFUSED => "REFUSED",
    }
}

} // verus!
