use dns_client::header::{Flag, Header};
use dns_client::message::DnsMessage;
use dns_client::name::decode_name;
use dns_client::question::Question;
use dns_client::rr::ResourceRecord;
use dns_client::resolver::get_ip_addr;
use dns_client::DnsError;
use dns_client::{find_first_null, to_u16, to_u32};

fn captured_response() -> Vec<u8> {
    vec![
        0x00, 0x16, 0x80, 0x80, 0x00, 0x01, 0x00, 0x02, 0x00, 0x00, 0x00, 0x00, 0x03, 0x64, 0x6e,
        0x73, 0x06, 0x67, 0x6f, 0x6f, 0x67, 0x6c, 0x65, 0x03, 0x63, 0x6f, 0x6d, 0x00, 0x00, 0x01,
        0x00, 0x01, 0xc0, 0x0c, 0x00, 0x01, 0x00, 0x01, 0x00, 0x00, 0x02, 0x14, 0x00, 0x04, 0x08,
        0x08, 0x08, 0x08, 0xc0, 0x0c, 0x00, 0x01, 0x00, 0x01, 0x00, 0x00, 0x02, 0x14, 0x00, 0x04,
        0x08, 0x08, 0x04, 0x04,
    ]
}

#[test]
fn create_header() {
    let dns_flags = Flag {
        qr: 0,
        op_code: 0,
        aa: 0,
        tc: 0,
        rd: 1,
        ra: 0,
        z: 0,
        r_code: 0,
    };

    let dns_header = Header {
        id: 1,
        flags: dns_flags,
        qd_cnt: 1,
        an_cnt: 0,
        ns_cnt: 0,
        ar_cnt: 0,
    };

    assert_eq!(
        dns_header.to_be_bytes(),
        vec![0x00, 0x01, 0x01, 0x00, 0x00, 0x01, 0x00, 0x00, 0x00, 0x00, 0x00, 0x00]
    );
}

#[test]
fn encode_valid_address() {
    let enc_addr = DnsMessage::encode_address("dns.google.com").unwrap();
    assert_eq!(enc_addr[0], 3);
    assert_eq!(enc_addr[1..4], ['d' as u8, 'n' as u8, 's' as u8]);
    assert_eq!(enc_addr[4], 6);
    assert_eq!(
        enc_addr[5..11],
        ['g' as u8, 'o' as u8, 'o' as u8, 'g' as u8, 'l' as u8, 'e' as u8]
    );
    assert_eq!(enc_addr[11], 3);
    assert_eq!(enc_addr[12..15], ['c' as u8, 'o' as u8, 'm' as u8]);
}

#[test]
fn decode_valid_address() {
    let enc_addr = DnsMessage::encode_address("dns.google.com").unwrap();
    assert_eq!(DnsMessage::decode_address(&enc_addr).unwrap(), "dns.google.com");
}

#[test]
fn encode_invalid_address() {
    let enc_addr = DnsMessage::encode_address("abc").unwrap();
    assert_eq!(enc_addr[0..5], [3, 'a' as u8, 'b' as u8, 'c' as u8, 0]);
}

#[test]
fn decode_invalid_address() {
    let enc_addr = DnsMessage::encode_address("abc").unwrap();
    assert_eq!(DnsMessage::decode_address(&enc_addr).unwrap(), "abc");
}

#[test]
fn encode_another_invalid_address() {
    let enc_addr = DnsMessage::encode_address(".abc").unwrap();
    assert_eq!(enc_addr[0..5], [3, 'a' as u8, 'b' as u8, 'c' as u8, 0]);
}

#[test]
fn parse_dns_response() {
    let response_bytes = captured_response();

    let dns_response = DnsMessage::parse(&response_bytes).unwrap();
    let q_name = DnsMessage::decode_address(&dns_response.question.q_name).unwrap();
    println!("address: {}", q_name);
    let answers = dns_response.answers;
    println!("IP Address:");
    for answer in answers {
        let ip_addr = get_ip_addr(&answer);
        println!("{}", ip_addr);
    }
}

#[test]
fn create_question() {
    let name = vec!['h' as u8, 'e' as u8, 'l' as u8, 'l' as u8, 'o' as u8];
    let question = Question {
        q_name: name,
        q_type: 1,
        q_class: 1,
    };

    let mut bytes = question.q_name.to_vec();
    bytes.push(0x00);
    bytes.push(0x01);
    bytes.push(0x00);
    bytes.push(0x01);
    assert_eq!(question.to_be_bytes(), bytes);
}

#[test]
fn byte_utilities() {
    assert_eq!(to_u16(&[0x12, 0x34]), 0x1234);
    assert_eq!(to_u32(&[0x01, 0x02, 0x03, 0x04]), 0x01020304);
    assert_eq!(find_first_null(&[7, 8, 0, 9]).unwrap(), 2);
    assert_eq!(
        find_first_null(&[7, 8, 9]).unwrap_err(),
        DnsError::MissingTerminator
    );
}

#[test]
fn pack_rd_flag() {
    let flags = Flag {
        qr: 0,
        op_code: 0,
        aa: 0,
        tc: 0,
        rd: 1,
        ra: 0,
        z: 0,
        r_code: 0,
    };
    assert_eq!(flags.to_be_bytes(), 0x0100);
}

#[test]
fn unpack_response_flags() {
    let flags = Flag::parse(&[0x81, 0x80]);
    assert_eq!(flags.qr, 1);
    assert_eq!(flags.op_code, 0);
    assert_eq!(flags.aa, 0);
    assert_eq!(flags.tc, 0);
    assert_eq!(flags.rd, 1);
    assert_eq!(flags.ra, 1);
    assert_eq!(flags.z, 0);
    assert_eq!(flags.r_code, 0);
}

#[test]
fn header_roundtrip() {
    let bytes = captured_response();
    let (next, header) = Header::parse(&bytes, 0).unwrap();
    assert_eq!(next, 12);
    assert_eq!(header.id, 0x0016);
    assert_eq!(header.qd_cnt, 1);
    assert_eq!(header.an_cnt, 2);
    assert_eq!(header.ns_cnt, 0);
    assert_eq!(header.ar_cnt, 0);
    assert_eq!(header.to_be_bytes(), bytes[0..12].to_vec());
}

#[test]
fn truncated_header_rejected() {
    let bytes = vec![0x00, 0x16, 0x80];
    assert_eq!(
        DnsMessage::parse(&bytes).unwrap_err(),
        DnsError::TruncatedHeader
    );
}

#[test]
fn message_roundtrip_bytes() {
    let bytes = captured_response();
    let message = DnsMessage::parse(&bytes).unwrap();
    assert_eq!(message.to_be_bytes(), bytes);
}

#[test]
fn message_into_fixed_buffer() {
    let bytes = captured_response();
    let message = DnsMessage::parse(&bytes).unwrap();
    let buf = message.into_bytes();
    assert_eq!(buf[0..bytes.len()], bytes[..]);
    for i in bytes.len()..128 {
        assert_eq!(buf[i], 0);
    }
}

#[test]
fn pointer_decodes_to_target() {
    let bytes = captured_response();
    // the first answer's name, at offset 32, is the pointer pair 0xC0 0x0C
    let (via_pointer, consumed) = decode_name(&bytes, 32).unwrap();
    assert_eq!(consumed, 34);
    let (literal, _) = decode_name(&bytes, 12).unwrap();
    assert_eq!(via_pointer, literal);
    assert_eq!(via_pointer, b"dns.google.com".to_vec());
}

#[test]
fn forward_pointer_rejected() {
    let mut bytes = captured_response();
    // redirect the first answer's name pointer to offset 48: not strictly
    // backward from position 32, so the parse must stop
    bytes[33] = 0x30;
    assert_eq!(
        DnsMessage::parse(&bytes).unwrap_err(),
        DnsError::InvalidPointer
    );
}

#[test]
fn self_pointer_rejected() {
    let bytes = vec![0xC0, 0x00];
    assert_eq!(
        decode_name(&bytes, 0).unwrap_err(),
        DnsError::InvalidPointer
    );
}

#[test]
fn oversized_label_rejected() {
    let long_label = "a".repeat(64);
    assert_eq!(
        DnsMessage::encode_address(&long_label).unwrap_err(),
        DnsError::InvalidLabel
    );
    let just_fits = "a".repeat(63);
    assert!(DnsMessage::encode_address(&just_fits).is_ok());
}

#[test]
fn missing_terminator_rejected() {
    // a label that claims five octets with only one present
    let bytes = vec![
        0x00, 0x01, 0x01, 0x00, 0x00, 0x01, 0x00, 0x00, 0x00, 0x00, 0x00, 0x00, 0x05, 0x61,
    ];
    assert_eq!(
        DnsMessage::parse(&bytes).unwrap_err(),
        DnsError::MissingTerminator
    );
}

#[test]
fn truncated_question_rejected() {
    // a complete name but only two of the four fixed question octets
    let bytes = vec![
        0x00, 0x01, 0x01, 0x00, 0x00, 0x01, 0x00, 0x00, 0x00, 0x00, 0x00, 0x00, 0x01, 0x61, 0x00,
        0x00, 0x01,
    ];
    assert_eq!(
        DnsMessage::parse(&bytes).unwrap_err(),
        DnsError::TruncatedQuestion
    );
}

#[test]
fn rdata_overrun_rejected() {
    // one answer declaring four rdata octets with only two present
    let bytes = vec![
        0x00, 0x01, 0x01, 0x00, 0x00, 0x01, 0x00, 0x01, 0x00, 0x00, 0x00, 0x00, 0x01, 0x61, 0x00,
        0x00, 0x01, 0x00, 0x01, 0x00, 0x00, 0x01, 0x00, 0x01, 0x00, 0x00, 0x00, 0x3c, 0x00, 0x04,
        0x08, 0x08,
    ];
    assert_eq!(
        DnsMessage::parse(&bytes).unwrap_err(),
        DnsError::RdataOverrun
    );
}

#[test]
fn unsupported_question_count_rejected() {
    let mut bytes = captured_response();
    bytes[5] = 0x02;
    assert_eq!(
        DnsMessage::parse(&bytes).unwrap_err(),
        DnsError::UnsupportedQuestionCount
    );
}

#[test]
fn undecodable_label_text_rejected() {
    let bytes = vec![0x02, 0xFF, 0xFE, 0x00];
    assert_eq!(
        DnsMessage::decode_address(&bytes).unwrap_err(),
        DnsError::InvalidLabel
    );
}

#[test]
fn empty_hostname_encodes_to_terminator() {
    let enc = DnsMessage::encode_address("").unwrap();
    assert_eq!(enc, vec![0]);
    assert_eq!(DnsMessage::decode_address(&enc).unwrap(), "");
}

#[test]
fn empty_segments_are_dropped() {
    let enc = DnsMessage::encode_address("a..b").unwrap();
    assert_eq!(enc, vec![1, 'a' as u8, 1, 'b' as u8, 0]);
    assert_eq!(DnsMessage::decode_address(&enc).unwrap(), "a.b");
}

#[test]
fn authority_records_parsed() {
    let mut bytes = captured_response();
    // recount the two records: one answer, one authority
    bytes[7] = 0x01;
    bytes[9] = 0x01;
    let message = DnsMessage::parse(&bytes).unwrap();
    assert_eq!(message.answers.len(), 1);
    assert_eq!(message.authorities.len(), 1);
    assert_eq!(message.additionals.len(), 0);
    assert_eq!(message.authorities[0].an_rdata, vec![8, 8, 4, 4]);
    assert_eq!(message.to_be_bytes(), bytes);
}

#[test]
fn resource_record_roundtrip() {
    let bytes = captured_response();
    let (next, rr) = ResourceRecord::parse(&bytes, 32).unwrap();
    assert_eq!(next, 48);
    assert_eq!(rr.an_type, 1);
    assert_eq!(rr.an_class, 1);
    assert_eq!(rr.an_ttl, 0x0214);
    assert_eq!(rr.an_rdlength, 4);
    assert_eq!(rr.an_rdata, vec![8, 8, 8, 8]);
    assert_eq!(rr.to_be_bytes(), bytes[32..48].to_vec());
}
