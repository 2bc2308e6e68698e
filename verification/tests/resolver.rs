use dns_resolver::buffer::BytePacketBuffer;
use dns_resolver::dns_packet::DnsPacket;
use dns_resolver::dns_record::{DnsQuestion, DnsRecord};
use dns_resolver::dns_types::{QueryType, ResultCode};
use dns_resolver::error::DnsError;
use dns_resolver::resolver::{
    build_query, Action, Cache, Event, Resolver, DNS_PORT, MAX_NANOS, QUERY_ID, RECEIVE_SECONDS,
    ROOT_SERVER,
};

fn reply(rescode: ResultCode) -> DnsPacket {
    let mut packet = DnsPacket::new();
    packet.header.id = QUERY_ID;
    packet.header.response = true;
    packet.header.rescode = rescode;
    packet.questions.push(DnsQuestion::new("www.example.com".to_string(), QueryType::A));
    packet
}

fn answer() -> DnsPacket {
    let mut packet = reply(ResultCode::NOERROR);
    packet.answers.push(DnsRecord::A {
        domain: "www.example.com".to_string(),
        addr: 0x5DB8_D822,
        ttl: 60,
    });
    packet
}

fn referral(with_address: bool) -> DnsPacket {
    let mut packet = reply(ResultCode::NOERROR);
    packet.authorities.push(DnsRecord::NS {
        domain: "com".to_string(),
        host: "a.gtld-servers.net".to_string(),
        ttl: 60,
    });
    if with_address {
        packet.resources.push(DnsRecord::A {
            domain: "a.gtld-servers.net".to_string(),
            addr: 0xC005_061E,
            ttl: 60,
        });
    }
    packet
}

fn resolver() -> Resolver {
    Resolver::new("www.example.com".to_string(), QueryType::A)
}

fn query_to(server: u32) -> Action {
    Action::Query {
        server,
        port: 53,
        packet: build_query(&"www.example.com".to_string(), QueryType::A),
    }
}

#[test]
fn the_constants_of_a_resolution() {
    assert_eq!(ROOT_SERVER, u32::from_be_bytes([198, 41, 0, 4]));
    assert_eq!(DNS_PORT, 53);
    assert_eq!(QUERY_ID, 6666);
    assert_eq!(MAX_NANOS, 10_000_000_000);
    assert_eq!(RECEIVE_SECONDS, 10);
}

#[test]
fn a_query_has_one_question_and_asks_for_recursion() {
    let mut query = build_query(&"Example.com".to_string(), QueryType::MX);
    assert_eq!(query.header.id, 6666);
    assert!(query.header.recursion_desired);
    assert!(!query.header.response);
    assert_eq!(query.header.questions, 1);
    assert_eq!(query.questions, vec![DnsQuestion::new("Example.com".to_string(), QueryType::MX)]);
    assert!(query.answers.is_empty() && query.authorities.is_empty() && query.resources.is_empty());
    let mut buffer = BytePacketBuffer::new();
    query.write(&mut buffer).unwrap();
    assert_eq!(
        &buffer.buf[0..buffer.pos()],
        &[
            0x1A, 0x0A, 0x01, 0x00, 0, 1, 0, 0, 0, 0, 0, 0, 7, b'E', b'x', b'a', b'm', b'p', b'l',
            b'e', 3, b'c', b'o', b'm', 0, 0, 15, 0, 1
        ]
    );
}

#[test]
fn a_resolution_starts_at_the_root_server() {
    let mut r = resolver();
    assert_eq!(r.server, ROOT_SERVER);
    assert!(r.cache.entries.is_empty());
    assert_eq!(r.step(Event::Turn { elapsed_nanos: 0 }), query_to(ROOT_SERVER));
    assert_eq!(r.server, ROOT_SERVER);
}

#[test]
fn a_reply_that_says_nxdomain_ends_the_resolution_unchanged() {
    let mut r = resolver();
    assert_eq!(r.step(Event::Turn { elapsed_nanos: 1 }), query_to(ROOT_SERVER));
    let nxdomain = reply(ResultCode::NXDOMAIN);
    assert_eq!(r.step(Event::Reply(nxdomain.clone())), Action::Finish(nxdomain));
    assert!(r.cache.entries.is_empty());
    assert_eq!(r.server, ROOT_SERVER);
}

#[test]
fn nxdomain_with_a_referral_still_ends_the_resolution() {
    let mut r = resolver();
    let mut nxdomain = referral(true);
    nxdomain.header.rescode = ResultCode::NXDOMAIN;
    assert_eq!(r.step(Event::Reply(nxdomain.clone())), Action::Finish(nxdomain));
    assert_eq!(r.server, ROOT_SERVER);
}

#[test]
fn an_answer_ends_the_resolution_and_is_kept_for_the_next_turn() {
    let mut r = resolver();
    assert_eq!(r.step(Event::Turn { elapsed_nanos: 1 }), query_to(ROOT_SERVER));
    assert_eq!(r.step(Event::Reply(answer())), Action::Finish(answer()));
    assert_eq!(r.cache.get(&"www.example.com".to_string(), QueryType::A), Some(answer()));
    assert_eq!(r.step(Event::Turn { elapsed_nanos: 2 }), Action::Finish(answer()));
}

#[test]
fn an_answer_with_an_error_code_is_not_kept() {
    let mut r = resolver();
    let mut failed = answer();
    failed.header.rescode = ResultCode::SERVFAIL;
    assert_eq!(r.step(Event::Reply(failed.clone())), Action::Finish(failed));
    assert!(r.cache.entries.is_empty());
    assert_eq!(r.step(Event::Turn { elapsed_nanos: 2 }), query_to(ROOT_SERVER));
}

#[test]
fn no_reply_in_time_fails_with_timeout() {
    let mut r = resolver();
    assert_eq!(r.step(Event::Turn { elapsed_nanos: 1 }), query_to(ROOT_SERVER));
    assert_eq!(r.step(Event::Failed { timed_out: true }), Action::Fail(DnsError::Timeout));
}

#[test]
fn a_socket_failure_fails_with_transport() {
    let mut r = resolver();
    assert_eq!(r.step(Event::Failed { timed_out: false }), Action::Fail(DnsError::Transport));
}

#[test]
fn a_turn_after_the_deadline_fails_with_timeout() {
    let mut r = resolver();
    assert_eq!(r.step(Event::Turn { elapsed_nanos: 10_000_000_000 }), query_to(ROOT_SERVER));
    assert_eq!(
        r.step(Event::Turn { elapsed_nanos: 10_000_000_001 }),
        Action::Fail(DnsError::Timeout)
    );
}

#[test]
fn the_deadline_comes_before_the_kept_reply() {
    let mut r = resolver();
    r.step(Event::Reply(answer()));
    assert_eq!(r.step(Event::Turn { elapsed_nanos: u128::MAX }), Action::Fail(DnsError::Timeout));
}

#[test]
fn a_referral_with_an_address_moves_to_that_server() {
    let mut r = resolver();
    assert_eq!(r.step(Event::Reply(referral(true))), Action::Continue);
    assert_eq!(r.server, 0xC005_061E);
    assert_eq!(r.step(Event::Turn { elapsed_nanos: 5 }), query_to(0xC005_061E));
}

#[test]
fn a_referral_without_an_address_asks_for_the_name_server() {
    let mut r = resolver();
    assert_eq!(
        r.step(Event::Reply(referral(false))),
        Action::Resolve { name: "a.gtld-servers.net".to_string(), reply: referral(false) }
    );
    assert_eq!(r.server, ROOT_SERVER);
}

#[test]
fn a_name_server_that_was_found_is_asked_next() {
    let mut r = resolver();
    let mut found = DnsPacket::new();
    found.answers.push(DnsRecord::A {
        domain: "a.gtld-servers.net".to_string(),
        addr: 0x0A00_0001,
        ttl: 1,
    });
    assert_eq!(
        r.step(Event::Nameserver { reply: referral(false), found: Some(found) }),
        Action::Continue
    );
    assert_eq!(r.server, 0x0A00_0001);
}

#[test]
fn a_name_server_that_was_not_found_ends_with_the_referral() {
    let mut r = resolver();
    assert_eq!(
        r.step(Event::Nameserver { reply: referral(false), found: None }),
        Action::Finish(referral(false))
    );
    let mut without_address = DnsPacket::new();
    without_address.answers.push(DnsRecord::CNAME {
        domain: "a.gtld-servers.net".to_string(),
        host: "elsewhere".to_string(),
        ttl: 1,
    });
    assert_eq!(
        r.step(Event::Nameserver { reply: referral(false), found: Some(without_address) }),
        Action::Finish(referral(false))
    );
    assert_eq!(r.server, ROOT_SERVER);
}

#[test]
fn a_reply_without_a_referral_ends_the_resolution_as_it_is() {
    let mut r = resolver();
    let bare = reply(ResultCode::NOERROR);
    assert_eq!(r.step(Event::Reply(bare.clone())), Action::Finish(bare));
    let refused = reply(ResultCode::REFUSED);
    assert_eq!(r.step(Event::Reply(refused.clone())), Action::Finish(refused));
}

#[test]
fn a_cache_holds_the_last_reply_for_a_name_and_type() {
    let mut cache = Cache::new();
    let name = "example.com".to_string();
    assert_eq!(cache.get(&name, QueryType::A), None);
    cache.insert(name.clone(), QueryType::A, reply(ResultCode::REFUSED));
    cache.insert(name.clone(), QueryType::MX, reply(ResultCode::NOTIMP));
    cache.insert("example.org".to_string(), QueryType::A, reply(ResultCode::FORMERR));
    assert_eq!(cache.get(&name, QueryType::A), Some(reply(ResultCode::REFUSED)));
    assert_eq!(cache.get(&name, QueryType::MX), Some(reply(ResultCode::NOTIMP)));
    assert_eq!(cache.get(&name, QueryType::TXT), None);
    assert_eq!(cache.get(&"Example.com".to_string(), QueryType::A), None);
    cache.insert(name.clone(), QueryType::A, answer());
    assert_eq!(cache.get(&name, QueryType::A), Some(answer()));
    assert_eq!(cache.get(&name, QueryType::MX), Some(reply(ResultCode::NOTIMP)));
}

#[test]
fn each_resolution_has_a_cache_of_its_own() {
    let mut first = resolver();
    first.step(Event::Reply(answer()));
    let mut second = resolver();
    assert_eq!(second.step(Event::Turn { elapsed_nanos: 0 }), query_to(ROOT_SERVER));
}
