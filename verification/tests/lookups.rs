use dns_resolver::dns_packet::{bytes_end_with, clone_records, DnsPacket};
use dns_resolver::dns_record::DnsRecord;

fn ns(domain: &str, host: &str) -> DnsRecord {
    DnsRecord::NS { domain: domain.to_string(), host: host.to_string(), ttl: 1 }
}

fn a(domain: &str, addr: u32) -> DnsRecord {
    DnsRecord::A { domain: domain.to_string(), addr, ttl: 1 }
}

#[test]
fn bytes_end_with_their_suffixes() {
    assert!(bytes_end_with(b"www.example.com", b"example.com"));
    assert!(bytes_end_with(b"example.com", b"example.com"));
    assert!(bytes_end_with(b"example.com", b""));
    assert!(bytes_end_with(b"", b""));
    assert!(bytes_end_with(b"example.com", b"ample.com"));
    assert!(!bytes_end_with(b"example.com", b"example.org"));
    assert!(!bytes_end_with(b"com", b"example.com"));
    assert!(!bytes_end_with(b"example.com", b"example.co"));
}

#[test]
fn the_first_a_record_of_the_answers_is_chosen() {
    let mut packet = DnsPacket::new();
    assert_eq!(packet.get_random_a(), None);
    packet.answers.push(DnsRecord::CNAME {
        domain: "x".to_string(),
        host: "y".to_string(),
        ttl: 1,
    });
    assert_eq!(packet.get_random_a(), None);
    packet.answers.push(a("y", 7));
    packet.answers.push(a("y", 8));
    assert_eq!(packet.get_random_a(), Some(7));
    packet.resources.push(a("z", 9));
    packet.answers.clear();
    assert_eq!(packet.get_random_a(), None);
}

#[test]
fn a_name_server_with_an_address_is_resolved() {
    let mut packet = DnsPacket::new();
    packet.authorities.push(ns("com", "a.gtld-servers.net"));
    packet.authorities.push(ns("com", "b.gtld-servers.net"));
    packet.resources.push(a("b.gtld-servers.net", 0xC021_0E1E));
    packet.resources.push(a("a.gtld-servers.net", 0xC005_061E));
    packet.resources.push(a("a.gtld-servers.net", 0x0101_0101));
    assert_eq!(packet.get_resolved_ns("www.example.com"), Some(0xC005_061E));
    assert_eq!(packet.get_unresolved_ns("www.example.com"), None);
}

#[test]
fn a_name_server_for_another_zone_is_passed_over() {
    let mut packet = DnsPacket::new();
    packet.authorities.push(ns("org", "ns.org-servers.net"));
    packet.authorities.push(a("com", 5));
    packet.authorities.push(ns("example.com", "ns.example.com"));
    packet.resources.push(a("ns.org-servers.net", 1));
    packet.resources.push(a("ns.example.com", 2));
    assert_eq!(packet.get_resolved_ns("www.example.com"), Some(2));
    assert_eq!(packet.get_resolved_ns("example.org"), Some(1));
    assert_eq!(packet.get_resolved_ns("example.net"), None);
    assert_eq!(packet.get_unresolved_ns("example.net"), None);
}

#[test]
fn a_name_server_without_an_address_is_named() {
    let mut packet = DnsPacket::new();
    packet.authorities.push(ns("com", "a.gtld-servers.net"));
    packet.authorities.push(ns("com", "b.gtld-servers.net"));
    packet.resources.push(DnsRecord::AAAA {
        domain: "a.gtld-servers.net".to_string(),
        addr: [1, 2, 3, 4, 5, 6, 7, 8],
        ttl: 1,
    });
    assert_eq!(packet.get_resolved_ns("example.com"), None);
    assert_eq!(packet.get_unresolved_ns("example.com"), Some("a.gtld-servers.net".to_string()));
    packet.resources.push(a("a.gtld-servers.net", 3));
    assert_eq!(packet.get_resolved_ns("example.com"), Some(3));
    assert_eq!(packet.get_unresolved_ns("example.com"), Some("b.gtld-servers.net".to_string()));
}

#[test]
fn a_later_name_server_with_an_address_is_found() {
    let mut packet = DnsPacket::new();
    packet.authorities.push(ns("com", "a.gtld-servers.net"));
    packet.authorities.push(ns("com", "b.gtld-servers.net"));
    packet.resources.push(a("b.gtld-servers.net", 4));
    assert_eq!(packet.get_resolved_ns("example.com"), Some(4));
}

#[test]
fn the_root_zone_serves_every_name() {
    let mut packet = DnsPacket::new();
    packet.authorities.push(ns("", "a.root-servers.net"));
    assert_eq!(packet.get_unresolved_ns("anything.at.all"), Some("a.root-servers.net".to_string()));
    assert_eq!(packet.get_unresolved_ns(""), Some("a.root-servers.net".to_string()));
}

#[test]
fn only_the_authority_section_names_servers() {
    let mut packet = DnsPacket::new();
    packet.answers.push(ns("com", "a.gtld-servers.net"));
    packet.resources.push(ns("com", "a.gtld-servers.net"));
    packet.resources.push(a("a.gtld-servers.net", 4));
    assert_eq!(packet.get_resolved_ns("example.com"), None);
    assert_eq!(packet.get_unresolved_ns("example.com"), None);
}

#[test]
fn records_are_copied_in_order() {
    let records = vec![a("x", 1), ns("y", "z"), a("x", 2)];
    assert_eq!(clone_records(&records), records);
    assert_eq!(clone_records(&Vec::new()), Vec::new());
}
