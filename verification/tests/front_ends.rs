use dns_resolver::dns_packet::DnsPacket;
use dns_resolver::dns_record::{DnsQuestion, DnsRecord};
use dns_resolver::dns_types::{QueryType, ResultCode};
use dns_resolver::prompt::{
    choose_query_type, code_label, displayed_type, parse_query_type, query_types, type_label,
    wants_another,
};
use dns_resolver::server::{build_response, take_question};

fn found() -> DnsPacket {
    let mut packet = DnsPacket::new();
    packet.header.id = 6666;
    packet.header.rescode = ResultCode::NXDOMAIN;
    packet.header.authoritative_answer = true;
    packet.questions.push(DnsQuestion::new("other".to_string(), QueryType::A));
    packet.answers.push(DnsRecord::A { domain: "a".to_string(), addr: 1, ttl: 1 });
    packet.authorities.push(DnsRecord::NS {
        domain: "b".to_string(),
        host: "c".to_string(),
        ttl: 2,
    });
    packet.resources.push(DnsRecord::A { domain: "c".to_string(), addr: 3, ttl: 3 });
    packet
}

#[test]
fn the_last_question_of_a_request_is_taken() {
    let mut request = DnsPacket::new();
    request.header.id = 77;
    assert_eq!(take_question(&mut request), None);
    request.questions.push(DnsQuestion::new("first".to_string(), QueryType::A));
    request.questions.push(DnsQuestion::new("last".to_string(), QueryType::MX));
    assert_eq!(
        take_question(&mut request),
        Some(DnsQuestion::new("last".to_string(), QueryType::MX))
    );
    assert_eq!(request.questions, vec![DnsQuestion::new("first".to_string(), QueryType::A)]);
    assert_eq!(request.header.id, 77);
}

#[test]
fn a_request_without_a_question_is_answered_with_formerr() {
    let response = build_response(42, None, Some(found()));
    assert_eq!(response.header.id, 42);
    assert!(response.header.response);
    assert!(response.header.recursion_desired);
    assert!(response.header.recursion_available);
    assert!(!response.header.authoritative_answer);
    assert_eq!(response.header.rescode, ResultCode::FORMERR);
    assert!(response.questions.is_empty() && response.answers.is_empty());
    assert!(response.authorities.is_empty() && response.resources.is_empty());
}

#[test]
fn a_resolution_that_failed_is_answered_with_servfail() {
    let asked = DnsQuestion::new("example.com".to_string(), QueryType::A);
    let response = build_response(42, Some(asked), None);
    assert_eq!(response.header.id, 42);
    assert!(response.header.response);
    assert_eq!(response.header.rescode, ResultCode::SERVFAIL);
    assert!(response.questions.is_empty() && response.answers.is_empty());
    assert!(response.authorities.is_empty() && response.resources.is_empty());
}

#[test]
fn a_resolution_that_ended_is_answered_with_what_it_found() {
    let asked = DnsQuestion::new("example.com".to_string(), QueryType::A);
    let response = build_response(0xABCD, Some(asked.clone()), Some(found()));
    assert_eq!(response.header.id, 0xABCD);
    assert!(response.header.response);
    assert!(response.header.recursion_desired);
    assert!(response.header.recursion_available);
    assert!(!response.header.authoritative_answer);
    assert_eq!(response.header.rescode, ResultCode::NXDOMAIN);
    assert_eq!(response.questions, vec![asked]);
    assert_eq!(response.answers, found().answers);
    assert_eq!(response.authorities, found().authorities);
    assert_eq!(response.resources, found().resources);
}

#[test]
fn the_words_for_the_query_types() {
    let word = |w: &str| parse_query_type(&w.to_string());
    assert_eq!(word("A"), Some(QueryType::A));
    assert_eq!(word("AAAA"), Some(QueryType::AAAA));
    assert_eq!(word("MX"), Some(QueryType::MX));
    assert_eq!(word("NS"), Some(QueryType::NS));
    assert_eq!(word("CNAME"), Some(QueryType::CNAME));
    assert_eq!(word("SRV"), Some(QueryType::SRV));
    assert_eq!(word("TXT"), Some(QueryType::TXT));
    assert_eq!(word("ALL"), Some(QueryType::ALL));
    assert_eq!(word("a"), None);
    assert_eq!(word(" A"), None);
    assert_eq!(word(""), None);
    assert_eq!(word("PTR"), None);
}

#[test]
fn a_word_that_names_no_type_stands_for_a() {
    assert_eq!(choose_query_type(&"MX".to_string()), (QueryType::MX, true));
    assert_eq!(choose_query_type(&"A".to_string()), (QueryType::A, true));
    assert_eq!(choose_query_type(&"bogus".to_string()), (QueryType::A, false));
}

#[test]
fn all_stands_for_the_seven_record_types() {
    assert_eq!(
        query_types(QueryType::ALL),
        vec![
            QueryType::A,
            QueryType::AAAA,
            QueryType::MX,
            QueryType::NS,
            QueryType::CNAME,
            QueryType::SRV,
            QueryType::TXT
        ]
    );
    assert_eq!(query_types(QueryType::MX), vec![QueryType::MX]);
    assert_eq!(query_types(QueryType::UNKNOWN(255)), vec![QueryType::UNKNOWN(255)]);
}

#[test]
fn the_type_shown_is_that_of_the_first_question() {
    let mut packet = DnsPacket::new();
    assert_eq!(displayed_type(&packet), QueryType::UNKNOWN(0));
    packet.questions.push(DnsQuestion::new("a".to_string(), QueryType::TXT));
    packet.questions.push(DnsQuestion::new("b".to_string(), QueryType::MX));
    assert_eq!(displayed_type(&packet), QueryType::TXT);
}

#[test]
fn only_y_asks_for_another_query() {
    assert!(wants_another(&"y".to_string()));
    assert!(!wants_another(&"Y".to_string()));
    assert!(!wants_another(&"yes".to_string()));
    assert!(!wants_another(&"n".to_string()));
    assert!(!wants_another(&"".to_string()));
}

#[test]
fn the_labels_of_types_and_codes() {
    assert_eq!(type_label(QueryType::A), "A");
    assert_eq!(type_label(QueryType::NS), "NS");
    assert_eq!(type_label(QueryType::CNAME), "CNAME");
    assert_eq!(type_label(QueryType::MX), "MX");
    assert_eq!(type_label(QueryType::TXT), "TXT");
    assert_eq!(type_label(QueryType::AAAA), "AAAA");
    assert_eq!(type_label(QueryType::SRV), "SRV");
    assert_eq!(type_label(QueryType::ALL), "ALL");
    assert_eq!(type_label(QueryType::UNKNOWN(3)), "UNKNOWN");
    assert_eq!(code_label(ResultCode::NOERROR), "NOERROR");
    assert_eq!(code_label(ResultCode::FORMERR), "FORMERR");
    assert_eq!(code_label(ResultCode::SERVFAIL), "SERVFAIL");
    assert_eq!(code_label(ResultCode::NXDOMAIN), "NXDOMAIN");
    assert_eq!(code_label(ResultCode::NOTIMP), "NOTIMP");
    assert_eq!(code_label(ResultCode::REFUSED), "REFUSED");
}
