//! Plugin-option grammar, endpoint selection and list splitting.

use slipstream::client_cfg::{
    parse_congestion_control, parse_domain_option, parse_keep_alive_interval,
    parse_max_connections, parse_resolvers_from_options,
};
use slipstream::net::AddressFamily;
use slipstream::resolver::ResolverMode;
use slipstream::sip003::{parse_endpoint, parse_plugin_options, split_list, Sip003Option};
use slipstream::net::{parse_host_port, AddressKind};
use slipstream::net::normalize_domain;

fn opt(key: &[u8], value: &[u8]) -> Sip003Option {
    Sip003Option {
        key: key.to_vec(),
        value: value.to_vec(),
    }
}

#[test]
fn parses_plugin_options_with_escapes() {
    let options = parse_plugin_options(br"mode=http\;tcp;path=dir\\file\=a").unwrap();
    assert_eq!(
        options,
        vec![
            opt(b"mode", b"http;tcp"),
            opt(b"path", br"dir\file=a"),
        ]
    );
}

#[test]
fn allows_authoritative_without_value() {
    let options = parse_plugin_options(b"authoritative;mode=test").unwrap();
    assert_eq!(
        options,
        vec![opt(b"authoritative", b""), opt(b"mode", b"test")]
    );
}

#[test]
fn rejects_dangling_escape() {
    assert!(parse_plugin_options(br"mode=test\").is_err());
}

#[test]
fn rejects_missing_value_separator() {
    assert!(parse_plugin_options(b"justakey").is_err());
}

#[test]
fn rejects_empty_key() {
    assert!(parse_plugin_options(b"=value").is_err());
}

#[test]
fn splits_list_values() {
    let values = split_list(b"a,b, c").unwrap();
    assert_eq!(values, vec![b"a".to_vec(), b"b".to_vec(), b"c".to_vec()]);
}

#[test]
fn rejects_empty_list_entry() {
    assert!(split_list(b"a,,b").is_err());
}

#[test]
fn parses_endpoint_pair() {
    let endpoint = parse_endpoint(
        &Some(b"127.0.0.1".to_vec()),
        &Some(b"8080".to_vec()),
        "SS_LOCAL",
    )
    .unwrap();
    let endpoint = endpoint.expect("endpoint");
    assert_eq!(endpoint.host, b"127.0.0.1".to_vec());
    assert_eq!(endpoint.port, 8080);
}

#[test]
fn rejects_zero_port_in_endpoint() {
    assert!(parse_endpoint(&Some(b"127.0.0.1".to_vec()), &Some(b"0".to_vec()), "SS_LOCAL").is_err());
}

#[test]
fn rejects_lone_endpoint_host() {
    assert!(parse_endpoint(&Some(b"127.0.0.1".to_vec()), &None, "SS_LOCAL").is_err());
}

#[test]
fn plugin_domain_single_entry() {
    let options = vec![opt(b"domain", b"example.com")];
    let domain = parse_domain_option(&options)
        .expect("options should parse")
        .expect("domain should exist");
    assert_eq!(domain, b"example.com".to_vec());
}

#[test]
fn plugin_domain_rejects_repeated_option() {
    let options = vec![opt(b"domain", b"example.com"), opt(b"domain", b"example.net")];
    assert!(parse_domain_option(&options).is_err());
}

#[test]
fn plugin_domain_rejects_multiple_entries() {
    let options = vec![opt(b"domain", b"example.com,example.net")];
    assert!(parse_domain_option(&options).is_err());
}

#[test]
fn parses_plugin_resolvers_in_order() {
    let options = vec![
        opt(b"resolver", b"1.1.1.1,2.2.2.2:5353"),
        opt(b"authoritative", b"3.3.3.3"),
        opt(b"resolver", b"4.4.4.4"),
    ];
    let parsed = parse_resolvers_from_options(&options).expect("options should parse");
    assert_eq!(parsed.resolvers.len(), 4);
    assert_eq!(parsed.resolvers[0].resolver.host, b"1.1.1.1".to_vec());
    assert_eq!(parsed.resolvers[0].resolver.port, 53);
    assert_eq!(parsed.resolvers[0].mode, ResolverMode::Recursive);
    assert_eq!(parsed.resolvers[1].resolver.host, b"2.2.2.2".to_vec());
    assert_eq!(parsed.resolvers[1].resolver.port, 5353);
    assert_eq!(parsed.resolvers[2].resolver.host, b"3.3.3.3".to_vec());
    assert_eq!(parsed.resolvers[2].mode, ResolverMode::Authoritative);
    assert_eq!(parsed.resolvers[3].resolver.host, b"4.4.4.4".to_vec());
    assert!(!parsed.authoritative_remote);
}

#[test]
fn authoritative_flag_applies_to_remote() {
    let options = vec![opt(b"authoritative", b"")];
    let parsed = parse_resolvers_from_options(&options).expect("options should parse");
    assert!(parsed.resolvers.is_empty());
    assert!(parsed.authoritative_remote);
}

#[test]
fn congestion_control_takes_last_valid_name() {
    let options = vec![
        opt(b"congestion-control", b"bbr"),
        opt(b"congestion-control", b"dcubic"),
    ];
    let cc = parse_congestion_control(&options).expect("parse");
    assert_eq!(cc, Some(b"dcubic".to_vec()));
    let bad = vec![opt(b"congestion-control", b"reno")];
    assert!(parse_congestion_control(&bad).is_err());
}

#[test]
fn keep_alive_interval_is_sixteen_bit() {
    let options = vec![opt(b"keep-alive-interval", b"400")];
    assert_eq!(parse_keep_alive_interval(&options).unwrap(), Some(400));
    let too_big = vec![opt(b"keep-alive-interval", b"65536")];
    assert!(parse_keep_alive_interval(&too_big).is_err());
}

#[test]
fn max_connections_must_be_positive() {
    assert_eq!(parse_max_connections(b" 256 ").unwrap(), 256);
    assert!(parse_max_connections(b"0").is_err());
    assert!(parse_max_connections(b"abc").is_err());
}

#[test]
fn host_port_parsing_covers_both_families() {
    let hp = parse_host_port(b"9.9.9.9", 53, AddressKind::Resolver).unwrap();
    assert_eq!(hp.host, b"9.9.9.9".to_vec());
    assert_eq!(hp.port, 53);
    assert_eq!(hp.family, AddressFamily::V4);
    let hp = parse_host_port(b"example.net:5353", 53, AddressKind::Resolver).unwrap();
    assert_eq!(hp.host, b"example.net".to_vec());
    assert_eq!(hp.port, 5353);
    let hp = parse_host_port(b"[2001:db8::1]:853", 53, AddressKind::Resolver).unwrap();
    assert_eq!(hp.host, b"2001:db8::1".to_vec());
    assert_eq!(hp.port, 853);
    assert_eq!(hp.family, AddressFamily::V6);
    let hp = parse_host_port(b"[2001:db8::1]", 53, AddressKind::Resolver).unwrap();
    assert_eq!(hp.port, 53);
    assert!(parse_host_port(b"host:", 53, AddressKind::Resolver).is_err());
    assert!(parse_host_port(b"host:0", 53, AddressKind::Resolver).is_err());
    assert!(parse_host_port(b"host:x1", 53, AddressKind::Resolver).is_err());
    assert!(parse_host_port(b"[::1", 53, AddressKind::Resolver).is_err());
}

#[test]
fn normalize_domain_trims_dots_and_space() {
    assert_eq!(normalize_domain(b" example.com. ").unwrap(), b"example.com".to_vec());
    assert!(normalize_domain(b"  ").is_err());
    assert!(normalize_domain(b"...").is_err());
}
