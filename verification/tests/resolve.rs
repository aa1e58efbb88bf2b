use dns_client::header::{Flag, Header};
use dns_client::message::DnsMessage;
use dns_client::question::Question;
use dns_client::resolver::{
    collect_addresses, get_ip_addr, ResolveState, Resolver, ResolverEvent, DNS_PORT, TYPE_A,
};
use dns_client::rr::ResourceRecord;
use dns_client::DnsError;

fn answered_response() -> Vec<u8> {
    vec![
        0x00, 0x16, 0x80, 0x80, 0x00, 0x01, 0x00, 0x02, 0x00, 0x00, 0x00, 0x00, 0x03, 0x64, 0x6e,
        0x73, 0x06, 0x67, 0x6f, 0x6f, 0x67, 0x6c, 0x65, 0x03, 0x63, 0x6f, 0x6d, 0x00, 0x00, 0x01,
        0x00, 0x01, 0xc0, 0x0c, 0x00, 0x01, 0x00, 0x01, 0x00, 0x00, 0x02, 0x14, 0x00, 0x04, 0x08,
        0x08, 0x08, 0x08, 0xc0, 0x0c, 0x00, 0x01, 0x00, 0x01, 0x00, 0x00, 0x02, 0x14, 0x00, 0x04,
        0x08, 0x08, 0x04, 0x04,
    ]
}

fn response_flags() -> Flag {
    Flag {
        qr: 1,
        op_code: 0,
        aa: 0,
        tc: 0,
        rd: 1,
        ra: 1,
        z: 0,
        r_code: 0,
    }
}

fn a_record(name: Vec<u8>, address: [u8; 4]) -> ResourceRecord {
    ResourceRecord {
        an_name: name,
        an_type: TYPE_A,
        an_class: 1,
        an_ttl: 60,
        an_rdlength: 4,
        an_rdata: address.to_vec(),
    }
}

fn referral_response() -> Vec<u8> {
    let message = DnsMessage {
        header: Header {
            id: 7,
            flags: response_flags(),
            qd_cnt: 1,
            an_cnt: 0,
            ns_cnt: 0,
            ar_cnt: 1,
        },
        question: Question {
            q_name: DnsMessage::encode_address("dns.google.com").unwrap(),
            q_type: 1,
            q_class: 1,
        },
        answers: vec![],
        authorities: vec![],
        additionals: vec![a_record(
            DnsMessage::encode_address("f.root-servers.net").unwrap(),
            [192, 5, 5, 241],
        )],
    };
    message.to_be_bytes()
}

fn empty_response() -> Vec<u8> {
    let message = DnsMessage {
        header: Header {
            id: 9,
            flags: response_flags(),
            qd_cnt: 1,
            an_cnt: 0,
            ns_cnt: 0,
            ar_cnt: 0,
        },
        question: Question {
            q_name: DnsMessage::encode_address("dns.google.com").unwrap(),
            q_type: 1,
            q_class: 1,
        },
        answers: vec![],
        authorities: vec![],
        additionals: vec![],
    };
    message.to_be_bytes()
}

#[test]
fn answered_after_one_attempt() {
    let mut session = Resolver::new("dns.google.com", "198.41.0.4", 3).unwrap();
    session.step(ResolverEvent::Reply(answered_response()));
    assert_eq!(session.failures, 0);
    match &session.state {
        ResolveState::Answered(addresses) => {
            assert_eq!(addresses, &vec!["8.8.8.8".to_string(), "8.8.4.4".to_string()]);
        }
        _ => panic!("expected the answered state"),
    }
}

#[test]
fn referral_redirects_next_query() {
    let mut session = Resolver::new("dns.google.com", "198.41.0.4", 3).unwrap();
    session.step(ResolverEvent::Reply(referral_response()));
    assert!(matches!(session.state, ResolveState::Querying));
    assert_eq!(session.server, "192.5.5.241");
    assert_eq!(session.failures, 0);
    assert_eq!(DNS_PORT, 53);

    let query = session.build_query();
    let parsed = DnsMessage::parse(&query).unwrap();
    assert_eq!(
        DnsMessage::decode_address(&parsed.question.q_name).unwrap(),
        "dns.google.com"
    );
    assert_eq!(parsed.question.q_type, TYPE_A);
    assert_eq!(parsed.header.flags.rd, 1);
    assert_eq!(parsed.header.qd_cnt, 1);
}

#[test]
fn failing_transport_exhausts_budget() {
    let mut session = Resolver::new("dns.google.com", "198.41.0.4", 3).unwrap();

    session.step(ResolverEvent::SendFailed);
    assert_eq!(session.failures, 1);
    assert!(matches!(session.state, ResolveState::Querying));

    session.step(ResolverEvent::SendFailed);
    assert_eq!(session.failures, 2);
    assert!(matches!(session.state, ResolveState::Querying));

    session.step(ResolverEvent::SendFailed);
    assert_eq!(session.failures, 3);
    assert!(matches!(session.state, ResolveState::Failed));
}

#[test]
fn empty_reply_counts_one_retry() {
    let mut session = Resolver::new("dns.google.com", "198.41.0.4", 2).unwrap();
    session.step(ResolverEvent::Reply(empty_response()));
    assert_eq!(session.failures, 1);
    assert!(matches!(session.state, ResolveState::Querying));
    assert_eq!(session.server, "198.41.0.4");
}

#[test]
fn malformed_reply_counts_one_retry() {
    let mut session = Resolver::new("dns.google.com", "198.41.0.4", 1).unwrap();
    session.step(ResolverEvent::Reply(vec![0xFF, 0x00]));
    assert_eq!(session.failures, 1);
    assert!(matches!(session.state, ResolveState::Failed));
}

#[test]
fn receive_failure_counts_one_retry() {
    let mut session = Resolver::new("dns.google.com", "198.41.0.4", 2).unwrap();
    session.step(ResolverEvent::ReceiveFailed);
    assert_eq!(session.failures, 1);
    assert!(matches!(session.state, ResolveState::Querying));
}

#[test]
fn malformed_hostname_is_fatal() {
    let long_label = "a".repeat(64);
    assert_eq!(
        Resolver::new(&long_label, "198.41.0.4", 3).unwrap_err(),
        DnsError::InvalidLabel
    );
}

#[test]
fn zero_budget_starts_failed() {
    let session = Resolver::new("dns.google.com", "198.41.0.4", 0).unwrap();
    assert!(matches!(session.state, ResolveState::Failed));
}

#[test]
fn rdata_renders_as_dotted_decimal() {
    let record = a_record(vec![0], [192, 5, 5, 241]);
    assert_eq!(get_ip_addr(&record), "192.5.5.241");
    let zero = a_record(vec![0], [0, 0, 0, 0]);
    assert_eq!(get_ip_addr(&zero), "0.0.0.0");
}

#[test]
fn collect_addresses_filters_by_type() {
    let mut other = a_record(vec![0], [10, 0, 0, 1]);
    other.an_type = 2;
    let records = vec![
        a_record(vec![0], [8, 8, 8, 8]),
        other,
        a_record(vec![0], [8, 8, 4, 4]),
    ];
    let addresses = collect_addresses(TYPE_A, &records);
    assert_eq!(addresses, vec!["8.8.8.8".to_string(), "8.8.4.4".to_string()]);
}
