//! Flow-control accounting and the pacing budget on concrete runs.

use slipstream::failure::FailureCounter;
use slipstream::flow::{reset_code_for_write_error, SLIPSTREAM_FILE_CANCEL_ERROR, SLIPSTREAM_INTERNAL_ERROR};
use slipstream::flow::{
    apply_consumed_offset, consume_error_log_message, handle_queue_overflow,
    handle_stream_receive, overflow_log_message, promote_streams, reserve_target_offset,
    FlowControlState, PromoteEntry, StreamReceiveConfig,
};
use slipstream::pacing::{
    cwnd_target_polls, inflight_packet_estimate, PacingPollBudget, PathQuality,
};
use slipstream::resolver::{
    expire_inflight_polls, path_probe_backoff, refill_pending_polls, MAX_POLL_BURST,
};
use slipstream::resolver::{poll_prepare_outcome, poll_send_failed};
use slipstream::resolver::{resolve_resolvers, select_resolver, DualStackAddr, ResolverMode};

#[test]
fn multi_stream_overflow_stops_and_discards() {
    let config = StreamReceiveConfig::with_max_queue(true, 0, 100);
    let mut st = FlowControlState::new();
    // Two chunks fit.
    let a = handle_stream_receive(&mut st, 60, &config, true);
    assert!(a.enqueue);
    assert!(!a.overflowed);
    assert_eq!(a.consume_target, Some(60));
    let a = handle_stream_receive(&mut st, 40, &config, true);
    assert!(a.enqueue);
    assert_eq!(st.queued_bytes, 100);
    // The next one overflows: stop-sending once, queue cleared, discard on.
    let a = handle_stream_receive(&mut st, 1, &config, true);
    assert!(a.overflowed);
    assert!(a.stop_sending);
    assert!(!a.enqueue);
    assert!(st.discarding);
    assert_eq!(st.queued_bytes, 0);
    // Once discarding, nothing is enqueued and consumption keeps pace.
    let a = handle_stream_receive(&mut st, 50, &config, true);
    assert!(!a.enqueue);
    assert!(!a.stop_sending);
    assert_eq!(a.consume_target, Some(151));
    assert!(st.discarding);
}

#[test]
fn single_stream_reserve_caps_consumption() {
    let config = StreamReceiveConfig::with_max_queue(false, 10, 0);
    let mut st = FlowControlState::new();
    let a = handle_stream_receive(&mut st, 100, &config, true);
    assert!(a.enqueue);
    // Nothing drained yet: reserve of 10 beyond drained 0, capped by rx.
    assert_eq!(a.consume_target, Some(10));
    assert_eq!(reserve_target_offset(100, 100, None, 10), 10);
    assert_eq!(reserve_target_offset(100, 0, None, 10), 100);
    assert_eq!(reserve_target_offset(100, 50, Some(55), 10), 55);
}

#[test]
fn consumed_offset_is_monotone() {
    let mut off: u64 = 5;
    assert!(apply_consumed_offset(&mut off, 3, 0));
    assert_eq!(off, 5);
    assert!(!apply_consumed_offset(&mut off, 9, -1));
    assert_eq!(off, 5);
    assert!(apply_consumed_offset(&mut off, 9, 0));
    assert_eq!(off, 9);
}

#[test]
fn promote_streams_picks_lagging_streams() {
    let entries = vec![
        PromoteEntry { stream_id: 1, rx_bytes: 10, consumed_offset: 4, discarding: false },
        PromoteEntry { stream_id: 2, rx_bytes: 10, consumed_offset: 10, discarding: false },
        PromoteEntry { stream_id: 3, rx_bytes: 10, consumed_offset: 0, discarding: true },
    ];
    let plan = promote_streams(&entries);
    assert_eq!(plan, vec![(1, 10)]);
}

#[test]
fn zero_rate_target_comes_from_cwnd() {
    let mut budget = PacingPollBudget::new(1200);
    let quality = PathQuality { pacing_rate: 0, cwin: 12001, rtt: 50_000, bytes_in_transit: 0 };
    let snap = budget.target_inflight(&quality, 0);
    assert_eq!(snap.target_inflight, 11);
    assert_eq!(snap.gain_percent, 100);
    assert_eq!(cwnd_target_polls(12000, 1200), 10);
    assert_eq!(cwnd_target_polls(1, 1200), 1);
    assert_eq!(inflight_packet_estimate(2400, 1200), 2);
}

#[test]
fn rate_target_probes_on_growth() {
    let mut budget = PacingPollBudget::new(1200);
    // 120 kB/s at 100 ms: 100 qps for one tenth of a second = 10 polls,
    // probed by a quarter on the jump from zero.
    let quality = PathQuality {
        pacing_rate: 120_000,
        cwin: 0,
        rtt: 100_000,
        bytes_in_transit: 0,
    };
    let snap = budget.target_inflight(&quality, 0);
    assert_eq!(snap.gain_percent, 125);
    assert_eq!(snap.target_inflight, 13);
    // The same rate again is steady.
    let snap = budget.target_inflight(&quality, 0);
    assert_eq!(snap.gain_percent, 100);
    assert_eq!(snap.target_inflight, 10);
}

#[test]
fn rtt_falls_back_to_proxy_and_floor() {
    let mut budget = PacingPollBudget::new(1200);
    let quality = PathQuality { pacing_rate: 12_000_000, cwin: 0, rtt: 0, bytes_in_transit: 0 };
    // Proxy of 1 ms: 10000 qps * 1 ms = 10 polls at gain 125 -> 13.
    let snap = budget.target_inflight(&quality, 1000);
    assert_eq!(snap.target_inflight, 13);
    let mut budget = PacingPollBudget::new(1200);
    // No RTT at all floors at one microsecond.
    let quality = PathQuality { pacing_rate: 12_000_000, cwin: 0, rtt: 0, bytes_in_transit: 0 };
    let snap = budget.target_inflight(&quality, 0);
    assert_eq!(snap.target_inflight, 1);
}

#[test]
fn inflight_polls_expire_after_timeout() {
    let mut inflight = vec![(1u16, 1_000_000u64), (2, 5_000_000), (3, 6_500_000)];
    expire_inflight_polls(&mut inflight, 10_000_000);
    assert_eq!(inflight, vec![(3, 6_500_000)]);
}

#[test]
fn refill_caps_at_burst() {
    assert_eq!(refill_pending_polls(0), 1);
    assert_eq!(refill_pending_polls(MAX_POLL_BURST - 1), MAX_POLL_BURST);
    assert_eq!(refill_pending_polls(MAX_POLL_BURST), MAX_POLL_BURST);
}

#[test]
fn probe_backoff_doubles_and_caps() {
    assert_eq!(path_probe_backoff(1), 250_000);
    assert_eq!(path_probe_backoff(2), 500_000);
    assert_eq!(path_probe_backoff(6), 8_000_000);
    assert_eq!(path_probe_backoff(7), 10_000_000);
    assert_eq!(path_probe_backoff(40), 10_000_000);
}

#[test]
fn overflow_decision_fires_once() {
    let d = handle_queue_overflow(90, 20, 100, false);
    assert!(d.overflowed);
    assert!(d.stop_sending);
    let d = handle_queue_overflow(90, 20, 100, true);
    assert!(d.overflowed);
    assert!(!d.stop_sending);
    let d = handle_queue_overflow(80, 20, 100, false);
    assert!(!d.overflowed);
    assert!(!d.stop_sending);
}

#[test]
fn log_lines_spell_their_numbers() {
    let line = overflow_log_message(7, 100, 42, 128);
    assert_eq!(
        line,
        b"stream 7: queued_bytes 100 + 42 exceeds limit 128; stopping".to_vec()
    );
    let line = consume_error_log_message(3, " during promote", -17, 5, 9);
    assert_eq!(
        line,
        b"stream 3: stream_data_consumed failed during promote ret=-17 consumed_offset=5 target=9"
            .to_vec()
    );
}

#[test]
fn failure_counter_hands_out_its_budget() {
    let mut counter = FailureCounter::new();
    assert!(!counter.take());
    counter.set(2);
    assert!(counter.take());
    assert!(counter.take());
    assert!(!counter.take());
}

#[test]
fn write_errors_map_to_their_reset_codes() {
    assert_eq!(reset_code_for_write_error(true), SLIPSTREAM_FILE_CANCEL_ERROR);
    assert_eq!(reset_code_for_write_error(false), SLIPSTREAM_INTERNAL_ERROR);
    assert_eq!(SLIPSTREAM_INTERNAL_ERROR, 0x101);
    assert_eq!(SLIPSTREAM_FILE_CANCEL_ERROR, 0x105);
}

#[test]
fn poll_steps_keep_their_budget_on_stalls() {
    assert_eq!(poll_prepare_outcome(0, true, 3), (false, 3));
    assert_eq!(poll_prepare_outcome(42, false, 3), (false, 3));
    assert_eq!(poll_prepare_outcome(42, true, 3), (true, 2));
    assert_eq!(poll_send_failed(2, true), Some(3));
    assert_eq!(poll_send_failed(2, false), None);
}

#[test]
fn responses_select_by_path_then_address() {
    let a = DualStackAddr { ip: 0xFFFF_0000_0001u128, port: 53 };
    let b = DualStackAddr { ip: 0xFFFF_0000_0002u128, port: 53 };
    let mut states = resolve_resolvers(
        &vec![(a, ResolverMode::Recursive), (b, ResolverMode::Authoritative)],
        900,
        false,
    )
    .expect("no duplicates");
    states[1].added = true;
    states[1].path_id = 7;
    assert_eq!(select_resolver(&states, 7, a), Some(1));
    assert_eq!(select_resolver(&states, 9, b), Some(1));
    assert_eq!(select_resolver(&states, -1, a), Some(0));
    let c = DualStackAddr { ip: 0xFFFF_0000_0003u128, port: 53 };
    assert_eq!(select_resolver(&states, -1, c), None);
}
