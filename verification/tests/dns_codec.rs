//! Query and response codec behaviour on concrete packets.

use slipstream::base32;
use slipstream::dns_codec::{
    build_qname, decode_query, decode_query_with_domains, decode_response, encode_query,
    encode_response, is_response,
};
use slipstream::dns_name::{encode_name, parse_name};
use slipstream::dns_types::{
    DecodeQueryError, Question, QueryParams, Rcode, ResponseParams, CLASS_IN, RR_A, RR_TXT,
};

fn build_query_packet(qname: &[u8], qtype: u16, id: u16) -> Vec<u8> {
    encode_query(&QueryParams {
        id,
        qname: qname.to_vec(),
        qtype,
        qclass: CLASS_IN,
        rd: true,
        cd: false,
        qdcount: 1,
        is_query: true,
    })
    .expect("encode query")
}

#[test]
fn encode_response_rejects_large_payload() {
    let question = Question {
        name: b"a.test.com.".to_vec(),
        qtype: RR_TXT,
        qclass: CLASS_IN,
    };
    let payload = vec![0u8; u16::MAX as usize];
    let params = ResponseParams {
        id: 0x1234,
        rd: false,
        cd: false,
        question,
        payload: Some(payload),
        rcode: None,
    };
    assert!(encode_response(&params).is_err());
}

fn build_name(last_label_len: usize) -> Vec<u8> {
    let mut name = Vec::new();
    for len in [63usize, 63, 63] {
        name.extend(std::iter::repeat(b'a').take(len));
        name.push(b'.');
    }
    name.extend(std::iter::repeat(b'd').take(last_label_len));
    name.push(b'.');
    name
}

#[test]
fn encode_name_rejects_long_name() {
    let mut out = Vec::new();
    let max_name = build_name(61);
    assert_eq!(max_name.len() - 1, 253);
    assert!(encode_name(&max_name, &mut out).is_ok());

    let mut out = Vec::new();
    let too_long = build_name(62);
    assert!(encode_name(&too_long, &mut out).is_err());
}

#[test]
fn parse_name_rejects_long_name() {
    let mut packet = Vec::new();
    for len in [63usize, 63, 63, 61] {
        packet.push(len as u8);
        packet.extend(std::iter::repeat(b'a').take(len));
    }
    packet.push(0);
    assert!(parse_name(&packet, 0).is_ok());

    let mut packet = Vec::new();
    for len in [63usize, 63, 63, 62] {
        packet.push(len as u8);
        packet.extend(std::iter::repeat(b'a').take(len));
    }
    packet.push(0);
    assert!(parse_name(&packet, 0).is_err());
}

#[test]
fn parse_name_rejects_pointer_loop() {
    // A pointer at offset 0 that points at itself.
    let packet = vec![0xC0u8, 0x00];
    assert!(parse_name(&packet, 0).is_err());
}

#[test]
fn parse_name_rejects_deep_pointer_chains() {
    // Seventeen chained pointers: 0 -> 2 -> 4 -> ... then a real label.
    let mut packet = Vec::new();
    for i in 0..17u8 {
        packet.push(0xC0);
        packet.push(2 * (i + 1));
    }
    packet.push(1);
    packet.push(b'x');
    packet.push(0);
    assert!(parse_name(&packet, 0).is_err());

    // Sixteen jumps stay within the allowance.
    let mut packet = Vec::new();
    for i in 0..16u8 {
        packet.push(0xC0);
        packet.push(2 * (i + 1));
    }
    packet.push(1);
    packet.push(b'x');
    packet.push(0);
    let (name, end) = parse_name(&packet, 0).expect("sixteen jumps parse");
    assert_eq!(name, b"x.".to_vec());
    assert_eq!(end, 2);
}

#[test]
fn decode_query_with_domains_accepts_any_match() {
    let payload = vec![1u8, 2, 3];
    let qname = build_qname(&payload, b"example.com").expect("build qname");
    let query = build_query_packet(&qname, RR_TXT, 42);
    let domains = vec![b"alt.example.com".to_vec(), b"example.com".to_vec()];
    let decoded = decode_query_with_domains(&query, &domains).expect("decode query");
    assert_eq!(decoded.payload, payload);
}

#[test]
fn decode_query_with_domains_prefers_longest_suffix() {
    let payload = vec![9u8, 8, 7, 6, 5];
    let qname = build_qname(&payload, b"tunnel.example.com").expect("build qname");
    let query = build_query_packet(&qname, RR_TXT, 7);
    let domains = vec![b"example.com".to_vec(), b"tunnel.example.com".to_vec()];
    let decoded = decode_query_with_domains(&query, &domains).expect("decode query");
    assert_eq!(decoded.payload, payload);
}

#[test]
fn decode_query_with_domains_rejects_unknown_domain() {
    let payload = vec![1u8, 2, 3];
    let qname = build_qname(&payload, b"example.com").expect("build qname");
    let query = build_query_packet(&qname, RR_TXT, 99);
    let domains = vec![b"other.com".to_vec()];
    match decode_query_with_domains(&query, &domains) {
        Err(DecodeQueryError::Reply { .. }) => {}
        other => panic!("expected reply error, got {:?}", other),
    }
}

#[test]
fn decode_query_with_domains_rejects_empty_subdomain_on_overlap() {
    let query = build_query_packet(b"aa.example.com.", RR_TXT, 100);
    let domains = vec![b"aa.example.com".to_vec(), b"example.com".to_vec()];
    match decode_query_with_domains(&query, &domains) {
        Err(DecodeQueryError::Reply { rcode, .. }) => assert_eq!(rcode, Rcode::NameError),
        other => panic!("expected name error, got {:?}", other),
    }
}

#[test]
fn query_round_trip_returns_payload() {
    // One byte, a block-boundary length, and an MTU-sized payload.
    for len in [1usize, 5, 143] {
        let payload: Vec<u8> = (0..len).map(|i| (i * 7 + 3) as u8).collect();
        let qname = build_qname(&payload, b"t.example.com").expect("qname fits");
        let query = build_query_packet(&qname, RR_TXT, 4660);
        let decoded = decode_query(&query, b"t.example.com").expect("decode");
        assert_eq!(decoded.payload, payload);
        assert_eq!(decoded.id, 4660);
        assert!(decoded.rd);
        assert!(!decoded.cd);
        assert_eq!(decoded.question.qtype, RR_TXT);
        assert_eq!(decoded.question.name, qname.iter().chain(b".".iter()).copied().collect::<Vec<u8>>());
    }
}

#[test]
fn query_decode_rejects_non_txt() {
    let payload = vec![1u8, 2, 3];
    let qname = build_qname(&payload, b"example.com").expect("qname");
    let query = build_query_packet(&qname, RR_A, 5);
    match decode_query(&query, b"example.com") {
        Err(DecodeQueryError::Reply { rcode, .. }) => assert_eq!(rcode, Rcode::NameError),
        other => panic!("expected name error, got {:?}", other),
    }
}

#[test]
fn query_decode_rejects_bad_base32() {
    // An underscore is not a base32 character: SERVFAIL.
    let query = build_query_packet(b"ab_cd.example.com", RR_TXT, 6);
    match decode_query(&query, b"example.com") {
        Err(DecodeQueryError::Reply { rcode, .. }) => assert_eq!(rcode, Rcode::ServerFailure),
        other => panic!("expected server failure, got {:?}", other),
    }
}

#[test]
fn query_decode_drops_short_packets() {
    match decode_query(b"hello", b"example.com") {
        Err(DecodeQueryError::Drop) => {}
        other => panic!("expected drop, got {:?}", other),
    }
}

#[test]
fn query_decode_replies_formerr_to_responses() {
    let payload = vec![1u8, 2, 3];
    let qname = build_qname(&payload, b"example.com").expect("qname");
    let mut query = build_query_packet(&qname, RR_TXT, 7);
    query[2] |= 0x80;
    match decode_query(&query, b"example.com") {
        Err(DecodeQueryError::Reply { rcode, .. }) => assert_eq!(rcode, Rcode::FormatError),
        other => panic!("expected format error, got {:?}", other),
    }
}

#[test]
fn response_round_trip_returns_payload() {
    let question = Question {
        name: b"abc.example.com.".to_vec(),
        qtype: RR_TXT,
        qclass: CLASS_IN,
    };
    // A payload crossing the 255-byte character-string boundary.
    let payload: Vec<u8> = (0..700).map(|i| (i % 251) as u8).collect();
    let packet = encode_response(&ResponseParams {
        id: 77,
        rd: true,
        cd: false,
        question,
        payload: Some(payload.clone()),
        rcode: None,
    })
    .expect("encode response");
    assert!(is_response(&packet));
    let decoded = decode_response(&packet).expect("decode response");
    assert_eq!(decoded, payload);
}

#[test]
fn response_decode_rejects_error_codes() {
    let question = Question {
        name: b"abc.example.com.".to_vec(),
        qtype: RR_TXT,
        qclass: CLASS_IN,
    };
    let packet = encode_response(&ResponseParams {
        id: 78,
        rd: false,
        cd: false,
        question,
        payload: None,
        rcode: Some(Rcode::NameError),
    })
    .expect("encode response");
    assert!(is_response(&packet));
    assert!(decode_response(&packet).is_none());
}

#[test]
fn base32_round_trips_and_folds_case() {
    let data = b"\x00\x01\xfe\xffhello world".to_vec();
    let encoded = base32::encode(&data);
    let decoded = base32::decode(&encoded).expect("decode");
    assert_eq!(decoded, data);
    let upper: Vec<u8> = encoded.iter().map(|c| c.to_ascii_uppercase()).collect();
    let decoded_upper = base32::decode(&upper).expect("case-insensitive decode");
    assert_eq!(decoded_upper, data);
    assert!(base32::decode(b"a").is_none());
    assert!(base32::decode(b"a_c").is_none());
}
