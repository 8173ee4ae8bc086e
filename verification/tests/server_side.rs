//! Server dispatch decisions: fallback classification, idle collection and
//! domain overlap.

use slipstream::dns_codec::decode_query_with_domains;
use slipstream::fallback::{
    FallbackClassifier, FALLBACK_CLEANUP_INTERVAL_US, FALLBACK_IDLE_TIMEOUT_US,
    NON_DNS_STREAK_THRESHOLD,
};
use slipstream::resolver::DualStackAddr;
use slipstream::server::{
    classify_decode, domains_overlap, is_label_suffix, overlapping_domains,
    prune_and_collect_idle, slot_needs_prepare, slot_reply_plan, DispatchKind, SlotReply,
};
use slipstream::dns_types::Rcode;
use slipstream::resolver::{resolve_resolvers, ResolverMode};
use slipstream::server::{no_connection_outcome, NoConnectionOutcome};
use slipstream::fallback::{route_inbound, PacketRoute};

fn peer(n: u16) -> DualStackAddr {
    DualStackAddr { ip: 0xFFFF_0000_0000u128 + n as u128, port: 4000 + n }
}

#[test]
fn prune_and_collect_idle_prunes_and_collects() {
    let now: u64 = 20_000_000;
    let idle_timeout: u64 = 10_000_000;
    let mut last_seen = vec![
        (1u64, now - 11_000_000),
        (2u64, now - 5_000_000),
        (3u64, now - 12_000_000),
    ];
    let active = vec![1u64, 2u64];
    let mut idle = prune_and_collect_idle(&mut last_seen, &active, idle_timeout, now);
    idle.sort_unstable();
    assert_eq!(idle, vec![1]);
    assert!(last_seen.iter().any(|e| e.0 == 1));
    assert!(last_seen.iter().any(|e| e.0 == 2));
    assert!(!last_seen.iter().any(|e| e.0 == 3));
}

#[test]
fn fallback_forwards_unclassified_peers_at_once() {
    let mut mgr = FallbackClassifier::new(0);
    assert!(mgr.handle_non_dns(peer(1)));
}

#[test]
fn fallback_holds_fifteen_then_forwards_the_sixteenth() {
    let mut mgr = FallbackClassifier::new(0);
    mgr.mark_dns(peer(1), 1);
    for _ in 0..NON_DNS_STREAK_THRESHOLD - 1 {
        assert!(!mgr.handle_non_dns(peer(1)));
    }
    assert!(mgr.handle_non_dns(peer(1)));
    // Demoted: the next packet forwards immediately again.
    assert!(mgr.handle_non_dns(peer(1)));
}

#[test]
fn fallback_streak_resets_on_dns() {
    let mut mgr = FallbackClassifier::new(0);
    mgr.mark_dns(peer(2), 1);
    for _ in 0..10 {
        assert!(!mgr.handle_non_dns(peer(2)));
    }
    mgr.mark_dns(peer(2), 2);
    for _ in 0..NON_DNS_STREAK_THRESHOLD - 1 {
        assert!(!mgr.handle_non_dns(peer(2)));
    }
    assert!(mgr.handle_non_dns(peer(2)));
}

#[test]
fn fallback_sessions_expire() {
    let mut mgr = FallbackClassifier::new(0);
    let created = mgr.touch_session(peer(3), 1_000_000);
    assert!(created);
    assert!(mgr.is_active_fallback_peer(peer(3), 2_000_000));
    assert!(!mgr.is_active_fallback_peer(peer(3), 2_000_000 + FALLBACK_IDLE_TIMEOUT_US + 1));
    // The lapsed session was dropped.
    assert!(!mgr.is_active_fallback_peer(peer(3), 2_000_000));
}

#[test]
fn cleanup_sweeps_expired_state() {
    let mut mgr = FallbackClassifier::new(0);
    mgr.mark_dns(peer(4), 1_000_000);
    mgr.touch_session(peer(5), 1_000_000);
    mgr.touch_session(peer(6), FALLBACK_CLEANUP_INTERVAL_US + 1_000_000);
    let expired = mgr.cleanup(FALLBACK_IDLE_TIMEOUT_US + 2_000_000);
    assert_eq!(expired, vec![peer(5)]);
    assert!(!mgr.is_active_fallback_peer(peer(5), FALLBACK_IDLE_TIMEOUT_US + 2_000_000));
    assert!(mgr.is_active_fallback_peer(peer(6), FALLBACK_IDLE_TIMEOUT_US + 2_000_000));
}

#[test]
fn classify_decode_routes_empty_question_to_fallback() {
    // A header-only packet with QDCOUNT=0 decodes to a reply without a
    // question, which dispatch treats as non-DNS.
    let mut packet = Vec::new();
    packet.extend_from_slice(&1u16.to_be_bytes());
    packet.extend_from_slice(&0x0100u16.to_be_bytes());
    packet.extend_from_slice(&0u16.to_be_bytes());
    packet.extend_from_slice(&0u16.to_be_bytes());
    packet.extend_from_slice(&0u16.to_be_bytes());
    packet.extend_from_slice(&0u16.to_be_bytes());
    let domains = vec![b"example.com".to_vec()];
    let outcome = decode_query_with_domains(&packet, &domains);
    match classify_decode(outcome) {
        DispatchKind::NonDns => {}
        other => panic!("expected non-DNS dispatch, got {:?}", other),
    }
}

#[test]
fn classify_decode_answers_unknown_domains() {
    let qname = b"abc.other.org";
    let packet = slipstream::dns_codec::encode_query(&slipstream::dns_types::QueryParams {
        id: 9,
        qname: qname.to_vec(),
        qtype: slipstream::dns_types::RR_TXT,
        qclass: slipstream::dns_types::CLASS_IN,
        rd: true,
        cd: false,
        qdcount: 1,
        is_query: true,
    })
    .expect("encode");
    let domains = vec![b"example.com".to_vec()];
    let outcome = decode_query_with_domains(&packet, &domains);
    match classify_decode(outcome) {
        DispatchKind::ReplyError { rcode, .. } => assert_eq!(rcode, Rcode::NameError),
        other => panic!("expected a reply error, got {:?}", other),
    }
}

#[test]
fn overlapping_domains_flags_ancestors_and_duplicates() {
    assert!(domains_overlap(b"Example.COM.", b"example.com"));
    assert!(domains_overlap(b"tunnel.example.com", b"example.com"));
    assert!(domains_overlap(b"example.com", b"tunnel.example.com"));
    assert!(!domains_overlap(b"tunnelexample.com", b"example.com"));
    assert!(!domains_overlap(b"example.com", b"example.org"));
    assert!(is_label_suffix(b"a.b.c", b"b.c"));
    assert!(!is_label_suffix(b"ab.c", b"b.c"));
    let domains = vec![
        b"example.com".to_vec(),
        b"tunnel.example.com".to_vec(),
        b"other.net".to_vec(),
    ];
    let pairs = overlapping_domains(&domains);
    assert_eq!(pairs, vec![(0, 1)]);
}

#[test]
fn slot_decisions_follow_the_reply_ladder() {
    assert!(slot_needs_prepare(false, None, true));
    assert!(!slot_needs_prepare(true, None, true));
    assert!(!slot_needs_prepare(false, Some(Rcode::NameError), true));
    assert!(!slot_needs_prepare(false, None, false));
    assert_eq!(slot_reply_plan(true, 0, None), SlotReply::OverridePayload);
    assert_eq!(slot_reply_plan(false, 42, None), SlotReply::PreparedPacket);
    assert_eq!(slot_reply_plan(false, 0, None), SlotReply::EmptyNoError);
    assert_eq!(
        slot_reply_plan(false, 0, Some(Rcode::ServerFailure)),
        SlotReply::ErrorOnly
    );
}

#[test]
fn resolver_duplicates_are_rejected() {
    let resolved = vec![
        (peer(9), ResolverMode::Recursive),
        (peer(9), ResolverMode::Authoritative),
    ];
    match resolve_resolvers(&resolved, 900, false) {
        Ok(_) => panic!("expected duplicate resolver error"),
        Err(err) => assert!(err.message().contains("Duplicate resolver address")),
    }
}

#[test]
fn rejects_duplicate_resolver_addr() {
    let addr = DualStackAddr { ip: 0xFFFF_0000_0000u128 + 0x7F00_0001, port: 8853 };
    let resolved = vec![
        (addr, ResolverMode::Recursive),
        (addr, ResolverMode::Authoritative),
    ];
    match resolve_resolvers(&resolved, 900, false) {
        Ok(_) => panic!("expected duplicate resolver error"),
        Err(err) => assert!(err.message().contains("Duplicate resolver address")),
    }
}

#[test]
fn primary_resolver_holds_the_initial_path() {
    let resolved = vec![
        (peer(1), ResolverMode::Authoritative),
        (peer(2), ResolverMode::Recursive),
    ];
    let states = resolve_resolvers(&resolved, 900, false).expect("no duplicates");
    assert_eq!(states.len(), 2);
    assert!(states[0].added);
    assert_eq!(states[0].path_id, 0);
    assert!(states[0].pacing_budget.is_some());
    assert!(!states[1].added);
    assert_eq!(states[1].path_id, -1);
    assert!(states[1].pacing_budget.is_none());
}

#[test]
fn dns_always_answers_even_with_a_session() {
    assert_eq!(route_inbound(true, true), PacketRoute::AnswerDns);
    assert_eq!(route_inbound(true, false), PacketRoute::AnswerDns);
    assert_eq!(route_inbound(false, true), PacketRoute::ForwardFallback);
    assert_eq!(route_inbound(false, false), PacketRoute::GateNonDns);
}

#[test]
fn unknown_connections_reset_only_with_a_payload() {
    assert_eq!(no_connection_outcome(true, 40), NoConnectionOutcome::ResetSlot);
    assert_eq!(no_connection_outcome(true, 0), NoConnectionOutcome::MarkOnly);
    assert_eq!(no_connection_outcome(false, 0), NoConnectionOutcome::MarkOnly);
}
