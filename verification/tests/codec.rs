use dns_resolver::buffer::BytePacketBuffer;
use dns_resolver::dns_packet::DnsPacket;
use dns_resolver::dns_record::{read_name, DnsQuestion, DnsRecord};
use dns_resolver::dns_types::{DnsHeader, QueryType, ResultCode};
use dns_resolver::error::DnsError;

fn buffer_with(bytes: &[u8]) -> BytePacketBuffer {
    let mut buffer = BytePacketBuffer::new();
    buffer.buf[..bytes.len()].copy_from_slice(bytes);
    buffer
}

fn written(record: &DnsRecord) -> Vec<u8> {
    let mut buffer = BytePacketBuffer::new();
    record.write(&mut buffer).unwrap();
    buffer.buf[..buffer.pos()].to_vec()
}

fn sample_header() -> DnsHeader {
    DnsHeader {
        id: 0x1234,
        recursion_desired: true,
        truncated_message: false,
        authoritative_answer: true,
        opcode: 2,
        response: true,
        rescode: ResultCode::NXDOMAIN,
        recursion_available: true,
        questions: 1,
        answers: 2,
        authoritative_entries: 3,
        resource_entries: 4,
    }
}

#[test]
fn query_type_numbers() {
    assert_eq!(QueryType::A.to_num(), 1);
    assert_eq!(QueryType::NS.to_num(), 2);
    assert_eq!(QueryType::CNAME.to_num(), 5);
    assert_eq!(QueryType::MX.to_num(), 15);
    assert_eq!(QueryType::TXT.to_num(), 16);
    assert_eq!(QueryType::AAAA.to_num(), 28);
    assert_eq!(QueryType::SRV.to_num(), 33);
    assert_eq!(QueryType::ALL.to_num(), 255);
    assert_eq!(QueryType::UNKNOWN(999).to_num(), 999);
    assert_eq!(QueryType::from_num(1), QueryType::A);
    assert_eq!(QueryType::from_num(2), QueryType::NS);
    assert_eq!(QueryType::from_num(5), QueryType::CNAME);
    assert_eq!(QueryType::from_num(15), QueryType::MX);
    assert_eq!(QueryType::from_num(16), QueryType::TXT);
    assert_eq!(QueryType::from_num(28), QueryType::AAAA);
    assert_eq!(QueryType::from_num(33), QueryType::SRV);
    assert_eq!(QueryType::from_num(255), QueryType::ALL);
    assert_eq!(QueryType::from_num(0), QueryType::UNKNOWN(0));
    assert_eq!(QueryType::from_num(999), QueryType::UNKNOWN(999));
}

#[test]
fn every_number_comes_back_from_its_query_type() {
    for n in 0..=u16::MAX {
        assert_eq!(QueryType::from_num(n).to_num(), n);
    }
}

#[test]
fn result_code_numbers() {
    assert_eq!(ResultCode::NOERROR.to_num(), 0);
    assert_eq!(ResultCode::FORMERR.to_num(), 1);
    assert_eq!(ResultCode::SERVFAIL.to_num(), 2);
    assert_eq!(ResultCode::NXDOMAIN.to_num(), 3);
    assert_eq!(ResultCode::NOTIMP.to_num(), 4);
    assert_eq!(ResultCode::REFUSED.to_num(), 5);
    assert_eq!(ResultCode::from_num(0), ResultCode::NOERROR);
    assert_eq!(ResultCode::from_num(1), ResultCode::FORMERR);
    assert_eq!(ResultCode::from_num(2), ResultCode::SERVFAIL);
    assert_eq!(ResultCode::from_num(3), ResultCode::NXDOMAIN);
    assert_eq!(ResultCode::from_num(4), ResultCode::NOTIMP);
    assert_eq!(ResultCode::from_num(5), ResultCode::REFUSED);
}

#[test]
fn a_result_code_out_of_range_is_noerror() {
    for n in 6..=255u8 {
        assert_eq!(ResultCode::from_num(n), ResultCode::NOERROR);
    }
}

#[test]
fn a_fresh_header_is_an_empty_query() {
    let header = DnsHeader::new();
    assert_eq!(header.id, 0);
    assert!(!header.response && !header.recursion_desired && !header.recursion_available);
    assert!(!header.truncated_message && !header.authoritative_answer);
    assert_eq!(header.opcode, 0);
    assert_eq!(header.rescode, ResultCode::NOERROR);
    assert_eq!(
        (header.questions, header.answers, header.authoritative_entries, header.resource_entries),
        (0, 0, 0, 0)
    );
}

#[test]
fn a_header_is_written_as_twelve_bytes() {
    let mut buffer = BytePacketBuffer::new();
    sample_header().write(&mut buffer).unwrap();
    assert_eq!(buffer.pos(), 12);
    assert_eq!(
        &buffer.buf[0..12],
        &[0x12, 0x34, 0x95, 0x83, 0x00, 0x01, 0x00, 0x02, 0x00, 0x03, 0x00, 0x04]
    );
}

#[test]
fn a_header_is_read_from_its_twelve_bytes() {
    let mut buffer =
        buffer_with(&[0x12, 0x34, 0x95, 0x83, 0x00, 0x01, 0x00, 0x02, 0x00, 0x03, 0x00, 0x04]);
    assert_eq!(DnsHeader::read(&mut buffer), Ok(sample_header()));
    assert_eq!(buffer.pos(), 12);
}

#[test]
fn each_flag_has_its_bit() {
    let cases: [(fn(&mut DnsHeader), u8, u8); 6] = [
        (|h| h.recursion_desired = true, 0x01, 0x00),
        (|h| h.truncated_message = true, 0x02, 0x00),
        (|h| h.authoritative_answer = true, 0x04, 0x00),
        (|h| h.opcode = 0x0F, 0x78, 0x00),
        (|h| h.response = true, 0x80, 0x00),
        (|h| h.recursion_available = true, 0x00, 0x80),
    ];
    for (set, hi, lo) in cases {
        let mut header = DnsHeader::new();
        set(&mut header);
        let mut buffer = BytePacketBuffer::new();
        header.write(&mut buffer).unwrap();
        assert_eq!((buffer.buf[2], buffer.buf[3]), (hi, lo));
        buffer.seek(0).unwrap();
        assert_eq!(DnsHeader::read(&mut buffer), Ok(header));
    }
}

#[test]
fn only_four_bits_of_the_opcode_are_written() {
    let mut header = DnsHeader::new();
    header.opcode = 0xF3;
    let mut buffer = BytePacketBuffer::new();
    header.write(&mut buffer).unwrap();
    assert_eq!(buffer.buf[2], 0x03 << 3);
    buffer.seek(0).unwrap();
    assert_eq!(DnsHeader::read(&mut buffer).unwrap().opcode, 3);
}

#[test]
fn the_reserved_bits_are_not_kept() {
    let mut buffer = buffer_with(&[0, 1, 0x00, 0x73, 0, 0, 0, 0, 0, 0, 0, 0]);
    let header = DnsHeader::read(&mut buffer).unwrap();
    assert_eq!(header.rescode, ResultCode::NXDOMAIN);
    assert!(!header.recursion_available);
    let mut again = BytePacketBuffer::new();
    header.write(&mut again).unwrap();
    assert_eq!(again.buf[3], 0x03);
}

#[test]
fn a_header_cut_short_fails_with_buffer_bounds() {
    let mut buffer = BytePacketBuffer::new();
    buffer.seek(505).unwrap();
    assert_eq!(DnsHeader::read(&mut buffer), Err(DnsError::BufferBounds));
    assert_eq!(buffer.pos(), 512);
}

#[test]
fn a_question_is_written_as_name_type_and_class() {
    let question = DnsQuestion::new("a.b".to_string(), QueryType::MX);
    let mut buffer = BytePacketBuffer::new();
    question.write(&mut buffer).unwrap();
    assert_eq!(buffer.pos(), 9);
    assert_eq!(&buffer.buf[0..9], &[1, b'a', 1, b'b', 0, 0, 15, 0, 1]);
    buffer.seek(0).unwrap();
    assert_eq!(DnsQuestion::read(&mut buffer), Ok(question));
    assert_eq!(buffer.pos(), 9);
}

#[test]
fn the_class_of_a_question_is_not_kept() {
    let mut buffer = buffer_with(&[1, b'a', 0, 0, 28, 0xAB, 0xCD]);
    assert_eq!(
        DnsQuestion::read(&mut buffer),
        Ok(DnsQuestion::new("a".to_string(), QueryType::AAAA))
    );
    assert_eq!(buffer.pos(), 7);
}

#[test]
fn read_name_reads_the_name_at_the_position() {
    let mut buffer = buffer_with(&[0xFF, 2, b'H', b'i', 0]);
    buffer.seek(1).unwrap();
    assert_eq!(read_name(&mut buffer), Ok("hi".to_string()));
    assert_eq!(buffer.pos(), 5);
    let mut looped = buffer_with(&[0xC0, 0x00]);
    assert_eq!(read_name(&mut looped), Err(DnsError::CompressionLoopLimit));
}

#[test]
fn an_a_record_on_the_wire() {
    let record = DnsRecord::A { domain: "a.b".to_string(), addr: 0x5DB8_D822, ttl: 0x0102_0304 };
    assert_eq!(
        written(&record),
        vec![1, b'a', 1, b'b', 0, 0, 1, 0, 1, 1, 2, 3, 4, 0, 4, 0x5D, 0xB8, 0xD8, 0x22]
    );
}

#[test]
fn a_txt_record_has_its_length_filled_in() {
    let record = DnsRecord::TXT { domain: "a.b".to_string(), text: "hello".to_string(), ttl: 300 };
    let bytes = written(&record);
    assert_eq!(
        bytes,
        vec![1, b'a', 1, b'b', 0, 0, 16, 0, 1, 0, 0, 1, 0x2C, 0, 5, b'h', b'e', b'l', b'l', b'o']
    );
    assert_eq!(&bytes[13..15], &[0, 5]);
    let mut buffer = buffer_with(&bytes);
    assert_eq!(DnsRecord::read(&mut buffer), Ok(record));
    assert_eq!(buffer.pos(), 20);
}

#[test]
fn an_ns_record_on_the_wire() {
    let record = DnsRecord::NS { domain: "x".to_string(), host: "ns.x".to_string(), ttl: 1 };
    assert_eq!(
        written(&record),
        vec![1, b'x', 0, 0, 2, 0, 1, 0, 0, 0, 1, 0, 6, 2, b'n', b's', 1, b'x', 0]
    );
}

#[test]
fn a_cname_record_on_the_wire() {
    let record = DnsRecord::CNAME { domain: "x".to_string(), host: "y".to_string(), ttl: 1 };
    assert_eq!(written(&record), vec![1, b'x', 0, 0, 5, 0, 1, 0, 0, 0, 1, 0, 3, 1, b'y', 0]);
}

#[test]
fn an_mx_record_on_the_wire() {
    let record =
        DnsRecord::MX { domain: "x".to_string(), priority: 10, host: "m.x".to_string(), ttl: 1 };
    assert_eq!(
        written(&record),
        vec![1, b'x', 0, 0, 15, 0, 1, 0, 0, 0, 1, 0, 7, 0, 10, 1, b'm', 1, b'x', 0]
    );
}

#[test]
fn an_srv_record_on_the_wire() {
    let record = DnsRecord::SRV {
        domain: "x".to_string(),
        priority: 1,
        weight: 2,
        port: 8080,
        target: "t.x".to_string(),
        ttl: 1,
    };
    assert_eq!(
        written(&record),
        vec![
            1, b'x', 0, 0, 33, 0, 1, 0, 0, 0, 1, 0, 11, 0, 1, 0, 2, 0x1F, 0x90, 1, b't', 1, b'x',
            0
        ]
    );
}

#[test]
fn an_aaaa_record_on_the_wire() {
    let record = DnsRecord::AAAA {
        domain: "x".to_string(),
        addr: [0x2001, 0x0db8, 0, 0, 0, 0, 0, 1],
        ttl: 1,
    };
    assert_eq!(
        written(&record),
        vec![
            1, b'x', 0, 0, 28, 0, 1, 0, 0, 0, 1, 0, 16, 0x20, 0x01, 0x0d, 0xb8, 0, 0, 0, 0, 0, 0,
            0, 0, 0, 0, 0, 1
        ]
    );
}

#[test]
fn an_unknown_record_is_written_with_zeros_for_its_data() {
    let record = DnsRecord::UNKNOWN { domain: "x".to_string(), qtype: 99, data_len: 3, ttl: 1 };
    assert_eq!(written(&record), vec![1, b'x', 0, 0, 99, 0, 1, 0, 0, 0, 1, 0, 3, 0, 0, 0]);
}

#[test]
fn a_record_of_another_type_is_skipped_and_kept_as_unknown() {
    let mut buffer =
        buffer_with(&[1, b'x', 0, 0, 99, 0, 1, 0, 0, 0, 7, 0, 3, 0xAA, 0xBB, 0xCC, 0x55]);
    assert_eq!(
        DnsRecord::read(&mut buffer),
        Ok(DnsRecord::UNKNOWN { domain: "x".to_string(), qtype: 99, data_len: 3, ttl: 7 })
    );
    assert_eq!(buffer.pos(), 16);
}

#[test]
fn a_record_of_the_type_for_all_is_kept_as_unknown() {
    let mut buffer = buffer_with(&[0, 0, 255, 0, 1, 0, 0, 0, 0, 0, 1, 9]);
    assert_eq!(
        DnsRecord::read(&mut buffer),
        Ok(DnsRecord::UNKNOWN { domain: "".to_string(), qtype: 255, data_len: 1, ttl: 0 })
    );
    assert_eq!(buffer.pos(), 12);
}

#[test]
fn skipping_data_that_the_store_does_not_hold_grows_the_store() {
    let mut buffer = buffer_with(&[0, 0, 99, 0, 1, 0, 0, 0, 0, 0x02, 0x58]);
    assert_eq!(
        DnsRecord::read(&mut buffer),
        Ok(DnsRecord::UNKNOWN { domain: "".to_string(), qtype: 99, data_len: 600, ttl: 0 })
    );
    assert_eq!(buffer.pos(), 611);
    assert_eq!(buffer.buf.len(), 1024);
}

#[test]
fn text_that_the_store_does_not_hold_fails_with_buffer_bounds() {
    let mut buffer = buffer_with(&[0, 0, 16, 0, 1, 0, 0, 0, 0, 0x02, 0x58]);
    assert_eq!(DnsRecord::read(&mut buffer), Err(DnsError::BufferBounds));
    assert_eq!(buffer.pos(), 11);
    assert_eq!(buffer.buf.len(), 512);
}

#[test]
fn text_that_is_not_utf8_is_read_lossily() {
    let mut buffer = buffer_with(&[0, 0, 16, 0, 1, 0, 0, 0, 0, 0, 3, b'A', 0xFF, b'b']);
    assert_eq!(
        DnsRecord::read(&mut buffer),
        Ok(DnsRecord::TXT { domain: "".to_string(), text: "A\u{FFFD}b".to_string(), ttl: 0 })
    );
}

#[test]
fn text_keeps_its_case_and_its_characters() {
    let record =
        DnsRecord::TXT { domain: "x".to_string(), text: "Grüße, World.".to_string(), ttl: 9 };
    let mut buffer = buffer_with(&written(&record));
    assert_eq!(DnsRecord::read(&mut buffer), Ok(record));
}

#[test]
fn the_data_of_a_name_record_may_use_a_jump() {
    // owner "x" at 0; NS data: "ns" and a jump to 0.
    let mut buffer =
        buffer_with(&[1, b'X', 0, 0xC0, 0, 0, 2, 0, 1, 0, 0, 0, 5, 0, 5, 2, b'n', b's', 0xC0, 0]);
    buffer.seek(3).unwrap();
    assert_eq!(
        DnsRecord::read(&mut buffer),
        Ok(DnsRecord::NS { domain: "x".to_string(), host: "ns.x".to_string(), ttl: 5 })
    );
    assert_eq!(buffer.pos(), 20);
}

#[test]
fn every_kind_of_record_is_read_back_as_written() {
    let records = vec![
        DnsRecord::A { domain: "example.com".to_string(), addr: 0x7F00_0001, ttl: 60 },
        DnsRecord::AAAA {
            domain: "example.com".to_string(),
            addr: [0xfe80, 0, 0, 0, 0x0202, 0xb3ff, 0xfe1e, 0x8329],
            ttl: u32::MAX,
        },
        DnsRecord::NS {
            domain: "example.com".to_string(),
            host: "ns1.example.com".to_string(),
            ttl: 0,
        },
        DnsRecord::CNAME {
            domain: "www.example.com".to_string(),
            host: "example.com".to_string(),
            ttl: 5,
        },
        DnsRecord::MX {
            domain: "example.com".to_string(),
            priority: 0xFFFF,
            host: "mail.example.com".to_string(),
            ttl: 5,
        },
        DnsRecord::SRV {
            domain: "_sip._tcp.example.com".to_string(),
            priority: 1,
            weight: 0xFFFF,
            port: 5060,
            target: "sip.example.com".to_string(),
            ttl: 5,
        },
        DnsRecord::TXT { domain: "example.com".to_string(), text: "".to_string(), ttl: 5 },
        DnsRecord::UNKNOWN { domain: "example.com".to_string(), qtype: 6, data_len: 40, ttl: 5 },
        DnsRecord::UNKNOWN { domain: "example.com".to_string(), qtype: 0, data_len: 0, ttl: 5 },
    ];
    for record in records {
        let bytes = written(&record);
        let mut buffer = buffer_with(&bytes);
        assert_eq!(DnsRecord::read(&mut buffer), Ok(record.clone()));
        assert_eq!(buffer.pos(), bytes.len());
    }
}

#[test]
fn text_of_65535_bytes_is_written_and_one_more_is_malformed() {
    let fits = DnsRecord::TXT { domain: "x".to_string(), text: "t".repeat(65535), ttl: 0 };
    let mut buffer = BytePacketBuffer::new();
    assert_eq!(fits.write(&mut buffer), Ok(()));
    assert_eq!(&buffer.buf[11..13], &[0xFF, 0xFF]);
    assert_eq!(buffer.pos(), 13 + 65535);
    buffer.seek(0).unwrap();
    assert_eq!(DnsRecord::read(&mut buffer), Ok(fits));

    let too_long = DnsRecord::TXT { domain: "x".to_string(), text: "t".repeat(65536), ttl: 0 };
    let mut buffer = BytePacketBuffer::new();
    assert_eq!(too_long.write(&mut buffer), Err(DnsError::Malformed));
    assert_eq!(&buffer.buf[11..13], &[0, 0]);
    assert_eq!(buffer.pos(), 13 + 65536);
}

#[test]
fn a_name_too_long_for_the_length_of_its_record_is_malformed() {
    let host = vec!["a".repeat(50); 1300].join(".");
    let record = DnsRecord::NS { domain: "x".to_string(), host, ttl: 0 };
    let mut buffer = BytePacketBuffer::new();
    assert_eq!(record.write(&mut buffer), Err(DnsError::Malformed));
}

#[test]
fn a_label_too_long_in_the_data_leaves_the_length_open() {
    let record = DnsRecord::MX {
        domain: "x".to_string(),
        priority: 3,
        host: format!("ok.{}", "b".repeat(53)),
        ttl: 0,
    };
    let mut buffer = BytePacketBuffer::new();
    assert_eq!(record.write(&mut buffer), Err(DnsError::LabelTooLong));
    assert_eq!(&buffer.buf[0..18], &[1, b'x', 0, 0, 15, 0, 1, 0, 0, 0, 0, 0, 0, 0, 3, 2, b'o', b'k']);
    assert_eq!(buffer.pos(), 18);
}

#[test]
fn a_label_too_long_in_the_owner_fails_before_the_rest() {
    let record = DnsRecord::A { domain: "c".repeat(60), addr: 1, ttl: 0 };
    let mut buffer = BytePacketBuffer::new();
    assert_eq!(record.write(&mut buffer), Err(DnsError::LabelTooLong));
    assert_eq!(buffer.pos(), 0);
}

fn sample_packet() -> DnsPacket {
    let mut packet = DnsPacket::new();
    packet.header.id = 0xBEEF;
    packet.header.response = true;
    packet.header.recursion_desired = true;
    packet.header.recursion_available = true;
    packet.header.authoritative_answer = true;
    packet.header.opcode = 5;
    packet.header.rescode = ResultCode::REFUSED;
    packet.questions.push(DnsQuestion::new("example.com".to_string(), QueryType::ALL));
    packet.questions.push(DnsQuestion::new("example.org".to_string(), QueryType::UNKNOWN(77)));
    packet.answers.push(DnsRecord::A {
        domain: "example.com".to_string(),
        addr: 0x5DB8_D822,
        ttl: 3600,
    });
    packet.answers.push(DnsRecord::TXT {
        domain: "example.com".to_string(),
        text: "v=spf1 -all".to_string(),
        ttl: 3600,
    });
    packet.answers.push(DnsRecord::AAAA {
        domain: "example.com".to_string(),
        addr: [0x2606, 0x2800, 0x220, 1, 0x248, 0x1893, 0x25c8, 0x1946],
        ttl: 1,
    });
    packet.authorities.push(DnsRecord::NS {
        domain: "com".to_string(),
        host: "a.gtld-servers.net".to_string(),
        ttl: 172800,
    });
    packet.authorities.push(DnsRecord::UNKNOWN {
        domain: "com".to_string(),
        qtype: 6,
        data_len: 61,
        ttl: 900,
    });
    packet.resources.push(DnsRecord::MX {
        domain: "example.com".to_string(),
        priority: 10,
        host: "mail.example.com".to_string(),
        ttl: 60,
    });
    packet.resources.push(DnsRecord::SRV {
        domain: "_x._tcp.example.com".to_string(),
        priority: 0,
        weight: 5,
        port: 443,
        target: "srv.example.com".to_string(),
        ttl: 60,
    });
    packet.resources.push(DnsRecord::CNAME {
        domain: "www.example.com".to_string(),
        host: "example.com".to_string(),
        ttl: 60,
    });
    packet
}

#[test]
fn a_message_is_read_back_as_written() {
    let mut packet = sample_packet();
    let mut buffer = BytePacketBuffer::new();
    assert_eq!(packet.write(&mut buffer), Ok(()));
    let end = buffer.pos();
    assert_eq!(
        (
            packet.header.questions,
            packet.header.answers,
            packet.header.authoritative_entries,
            packet.header.resource_entries
        ),
        (2, 3, 2, 3)
    );
    buffer.seek(0).unwrap();
    assert_eq!(DnsPacket::from_buffer(&mut buffer), Ok(packet));
    assert_eq!(buffer.pos(), end);
}

#[test]
fn a_message_is_read_back_from_anywhere_in_a_store() {
    let mut packet = sample_packet();
    let mut buffer = BytePacketBuffer::new();
    buffer.seek(700).unwrap();
    packet.write(&mut buffer).unwrap();
    let end = buffer.pos();
    buffer.seek(700).unwrap();
    assert_eq!(DnsPacket::from_buffer(&mut buffer), Ok(packet));
    assert_eq!(buffer.pos(), end);
}

#[test]
fn the_counts_are_written_from_the_sections() {
    let mut packet = DnsPacket::new();
    packet.header.questions = 9;
    packet.header.answers = 9;
    packet.header.authoritative_entries = 9;
    packet.header.resource_entries = 9;
    packet.answers.push(DnsRecord::A { domain: "x".to_string(), addr: 1, ttl: 1 });
    let mut buffer = BytePacketBuffer::new();
    packet.write(&mut buffer).unwrap();
    assert_eq!(&buffer.buf[4..12], &[0, 0, 0, 1, 0, 0, 0, 0]);
    assert_eq!(packet.header.questions, 0);
    assert_eq!(packet.header.answers, 1);
    assert_eq!(packet.header.authoritative_entries, 0);
    assert_eq!(packet.header.resource_entries, 0);
}

#[test]
fn an_empty_message_is_its_header() {
    let mut packet = DnsPacket::new();
    let mut buffer = BytePacketBuffer::new();
    packet.write(&mut buffer).unwrap();
    assert_eq!(buffer.pos(), 12);
    assert!(buffer.buf[0..12].iter().all(|b| *b == 0));
    buffer.seek(0).unwrap();
    assert_eq!(DnsPacket::from_buffer(&mut buffer), Ok(DnsPacket::new()));
}

#[test]
fn reading_trusts_the_counts_of_the_header() {
    // One question is counted; a second one on the wire is not read.
    let mut buffer = buffer_with(&[
        0, 7, 0, 0, 0, 1, 0, 0, 0, 0, 0, 0, 1, b'a', 0, 0, 1, 0, 1, 1, b'b', 0, 0, 1, 0, 1,
    ]);
    let packet = DnsPacket::from_buffer(&mut buffer).unwrap();
    assert_eq!(packet.questions, vec![DnsQuestion::new("a".to_string(), QueryType::A)]);
    assert_eq!(buffer.pos(), 19);
}

#[test]
fn counts_that_promise_more_than_the_store_holds_fail_with_buffer_bounds() {
    let mut buffer = buffer_with(&[0, 7, 0, 0, 0, 0, 0xFF, 0xFF, 0, 0, 0, 0]);
    assert_eq!(DnsPacket::from_buffer(&mut buffer), Err(DnsError::BufferBounds));
}

#[test]
fn a_section_with_more_entries_than_a_count_can_say_is_malformed() {
    let mut packet = DnsPacket::new();
    packet.header.answers = 3;
    for _ in 0..65536 {
        packet.questions.push(DnsQuestion::new("x".to_string(), QueryType::A));
    }
    let mut buffer = BytePacketBuffer::new();
    assert_eq!(packet.write(&mut buffer), Err(DnsError::Malformed));
    assert_eq!(buffer.pos(), 0);
    assert_eq!(packet.header.questions, 0);
    assert_eq!(packet.header.answers, 3);
    packet.questions.pop();
    assert_eq!(packet.write(&mut buffer), Ok(()));
    assert_eq!(&buffer.buf[4..6], &[0xFF, 0xFF]);
}

#[test]
fn a_message_with_a_label_too_long_is_written_up_to_it() {
    let mut packet = DnsPacket::new();
    packet.questions.push(DnsQuestion::new("ok".to_string(), QueryType::A));
    packet.answers.push(DnsRecord::A { domain: "d".repeat(53), addr: 1, ttl: 1 });
    let mut buffer = BytePacketBuffer::new();
    assert_eq!(packet.write(&mut buffer), Err(DnsError::LabelTooLong));
    assert_eq!(buffer.pos(), 12 + 8);
}

#[test]
fn a_copy_of_a_message_is_equal_to_it() {
    let packet = sample_packet();
    assert_eq!(packet.clone(), packet);
}
