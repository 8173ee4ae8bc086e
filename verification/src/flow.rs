//! Per-stream flow control: queue accounting, consume-offset promotion,
//! stop-sending on overflow, and discard mode.
//!
//! The runtime owns the transport; these functions decide. The caller
//! reports whether the stream's local queue can take data, performs the
//! transport calls a plan asks for, and feeds the results back.

use vstd::prelude::*;
use crate::bytestr::{append_bytes, i32_decimal, i32_to_decimal, u64_decimal, u64_to_decimal};
use vstd::string::StringSliceAdditionalSpecFns;

verus! {

/// Default per-stream queue cap in multi-stream mode.
pub const DEFAULT_STREAM_QUEUE_MAX_BYTES: usize = 2097152;

/// Default reserve kept open beyond drained bytes in single-stream mode.
pub const DEFAULT_CONN_RESERVE_BYTES: usize = 65536;

/// Flow-control accounting of one stream.
#[derive(Debug, Clone, Copy)]
pub struct FlowControlState {
    pub queued_bytes: usize,
    pub rx_bytes: u64,
    pub consumed_offset: u64,
    pub fin_offset: Option<u64>,
    pub discarding: bool,
    pub stop_sending_sent: bool,
}

impl FlowControlState {
    /// A fresh stream: nothing received, nothing queued.
    pub fn new() -> (r: FlowControlState)
        ensures
            r.queued_bytes == 0 && r.rx_bytes == 0 && r.consumed_offset == 0 && r.fin_offset
                is None && !r.discarding && !r.stop_sending_sent,
    {
        FlowControlState {
            queued_bytes: 0,
            rx_bytes: 0,
            consumed_offset: 0,
            fin_offset: None,
            discarding: false,
            stop_sending_sent: false,
        }
    }
}

/// How stream receive behaves: one shared stream with a reserve, or many
/// capped streams that are stopped and discarded on overflow.
#[derive(Debug, Clone, Copy)]
pub struct StreamReceiveConfig {
    pub multi_stream: bool,
    pub reserve_bytes: usize,
    pub max_queue: usize,
}

impl StreamReceiveConfig {
    /// A configuration with the default queue cap in multi-stream mode.
    pub fn new(multi_stream: bool, reserve_bytes: usize) -> (r: StreamReceiveConfig)
        ensures
            r.multi_stream == multi_stream,
            r.reserve_bytes == reserve_bytes,
            r.max_queue == if multi_stream {
                DEFAULT_STREAM_QUEUE_MAX_BYTES as int
            } else {
                0int
            },
    {
        let max_queue: usize = if multi_stream {
            DEFAULT_STREAM_QUEUE_MAX_BYTES
        } else {
            0
        };
        StreamReceiveConfig { multi_stream, reserve_bytes, max_queue }
    }

    /// A configuration with an explicit queue cap.
    pub fn with_max_queue(multi_stream: bool, reserve_bytes: usize, max_queue: usize) -> (r:
        StreamReceiveConfig)
        ensures
            r.multi_stream == multi_stream,
            r.reserve_bytes == reserve_bytes,
            r.max_queue == max_queue,
    {
        StreamReceiveConfig { multi_stream, reserve_bytes, max_queue }
    }
}

/// What one receive step asks the caller to do.
#[derive(Debug, Clone, Copy)]
pub struct ReceiveActions {
    /// Hand the incoming bytes to the stream's local queue.
    pub enqueue: bool,
    /// Advance the transport's consumed offset to this target.
    pub consume_target: Option<u64>,
    /// A refused consume on this path resets the stream.
    pub consume_strict: bool,
    /// Send STOP_SENDING now.
    pub stop_sending: bool,
    /// The queue cap was exceeded: the queue was cleared and the stream
    /// discards from now on.
    pub overflowed: bool,
    /// Reset the stream: its queue could not take the bytes.
    pub reset_stream: bool,
}

/// Saturating addition on the 64-bit receive counter.
pub open spec fn sat_add_u64(a: u64, b: u64) -> u64 {
    if a + b > u64::MAX {
        u64::MAX
    } else {
        (a + b) as u64
    }
}

/// Saturating addition on queue sizes.
pub open spec fn sat_add_usize(a: usize, b: usize) -> usize {
    if a + b > usize::MAX {
        usize::MAX
    } else {
        (a + b) as usize
    }
}

/// The consumed-offset target in single-stream mode: drained bytes plus the
/// reserve, never past what was received nor past the final offset.
pub open spec fn spec_reserve_target(
    rx_bytes: u64,
    queued_bytes: usize,
    fin_offset: Option<u64>,
    reserve_bytes: usize,
) -> u64 {
    let drained: u64 = if rx_bytes >= queued_bytes as u64 {
        (rx_bytes - queued_bytes as u64) as u64
    } else {
        0u64
    };
    let base: u64 = if reserve_bytes > 0 {
        let lifted = sat_add_u64(drained, reserve_bytes as u64);
        if lifted < rx_bytes {
            lifted
        } else {
            rx_bytes
        }
    } else {
        drained
    };
    match fin_offset {
        Some(fin) => if base > fin {
            fin
        } else {
            base
        },
        None => base,
    }
}

/// Computes the single-stream consumed-offset target.
pub fn reserve_target_offset(
    rx_bytes: u64,
    queued_bytes: usize,
    fin_offset: Option<u64>,
    reserve_bytes: usize,
) -> (r: u64)
    ensures
        r == spec_reserve_target(rx_bytes, queued_bytes, fin_offset, reserve_bytes),
{
    let drained: u64 = if rx_bytes >= queued_bytes as u64 {
        rx_bytes - queued_bytes as u64
    } else {
        0
    };
    let mut target: u64 = if reserve_bytes > 0 {
        let lifted: u64 = if drained > u64::MAX - reserve_bytes as u64 {
            u64::MAX
        } else {
            drained + reserve_bytes as u64
        };
        if lifted < rx_bytes {
            lifted
        } else {
            rx_bytes
        }
    } else {
        drained
    };
    if let Some(fin) = fin_offset {
        if target > fin {
            target = fin;
        }
    }
    target
}

/// Advances the consumed offset to `target` when the transport accepted the
/// advance; reports whether the offset is now at or past the target.
///
/// `ret` is the transport's return value for the consume call; a negative
/// value refuses it.
pub fn apply_consumed_offset(consumed_offset: &mut u64, target: u64, ret: i32) -> (r: bool)
    ensures
        *old(consumed_offset) >= target ==> r && *final(consumed_offset) == *old(consumed_offset),
        *old(consumed_offset) < target && ret < 0 ==> !r && *final(consumed_offset) == *old(
            consumed_offset,
        ),
        *old(consumed_offset) < target && ret >= 0 ==> r && *final(consumed_offset) == target,
        *final(consumed_offset) >= *old(consumed_offset),
{
    if target <= *consumed_offset {
        return true;
    }
    if ret < 0 {
        return false;
    }
    *consumed_offset = target;
    true
}

/// Advances the consumed offset for freshly received bytes; the same
/// contract as `apply_consumed_offset`.
pub fn consume_stream_data(consumed_offset: &mut u64, target: u64, ret: i32) -> (r: bool)
    ensures
        *old(consumed_offset) >= target ==> r && *final(consumed_offset) == *old(consumed_offset),
        *old(consumed_offset) < target && ret < 0 ==> !r && *final(consumed_offset) == *old(
            consumed_offset,
        ),
        *old(consumed_offset) < target && ret >= 0 ==> r && *final(consumed_offset) == target,
        *final(consumed_offset) >= *old(consumed_offset),
{
    apply_consumed_offset(consumed_offset, target, ret)
}

/// What a queue-overflow check decided.
#[derive(Debug, Clone, Copy, PartialEq, Eq, Structural)]
pub struct OverflowDecision {
    /// The projected queue exceeds the cap: clear it and discard from now on.
    pub overflowed: bool,
    /// Send STOP_SENDING now, once.
    pub stop_sending: bool,
}

/// Checks the projected queue against the cap: overflow asks for the queue
/// to be cleared, the consumed offset pushed to the receive counter, and
/// STOP_SENDING sent once.
pub fn handle_queue_overflow(
    queued_bytes: usize,
    incoming_len: usize,
    max_queue: usize,
    stop_sending_sent: bool,
) -> (r: OverflowDecision)
    ensures
        r.overflowed <==> sat_add_usize(queued_bytes, incoming_len) > max_queue,
        r.stop_sending <==> (r.overflowed && !stop_sending_sent),
{
    let projected: usize = if queued_bytes > usize::MAX - incoming_len {
        usize::MAX
    } else {
        queued_bytes + incoming_len
    };
    if projected <= max_queue {
        return OverflowDecision { overflowed: false, stop_sending: false };
    }
    OverflowDecision { overflowed: true, stop_sending: !stop_sending_sent }
}

/// The state after one receive step, at spec level.
pub open spec fn spec_receive_state(
    st: FlowControlState,
    incoming_len: usize,
    config: StreamReceiveConfig,
    enqueue_ok: bool,
) -> FlowControlState {
    if incoming_len == 0 {
        st
    } else {
        let rx = sat_add_u64(st.rx_bytes, incoming_len as u64);
        if st.discarding {
            FlowControlState { rx_bytes: rx, ..st }
        } else if config.multi_stream && sat_add_usize(st.queued_bytes, incoming_len)
            > config.max_queue {
            FlowControlState {
                rx_bytes: rx,
                queued_bytes: 0,
                discarding: true,
                stop_sending_sent: true,
                ..st
            }
        } else if enqueue_ok {
            FlowControlState {
                rx_bytes: rx,
                queued_bytes: sat_add_usize(st.queued_bytes, incoming_len),
                ..st
            }
        } else {
            FlowControlState { rx_bytes: rx, ..st }
        }
    }
}

/// The consume target one receive step asks for, at spec level.
pub open spec fn spec_receive_target(
    st: FlowControlState,
    incoming_len: usize,
    config: StreamReceiveConfig,
    enqueue_ok: bool,
) -> Option<u64> {
    if incoming_len == 0 {
        None
    } else {
        let rx = sat_add_u64(st.rx_bytes, incoming_len as u64);
        let post = spec_receive_state(st, incoming_len, config, enqueue_ok);
        if st.discarding {
            Some(rx)
        } else if config.multi_stream {
            Some(rx)
        } else if config.reserve_bytes > 0 {
            Some(
                spec_reserve_target(rx, post.queued_bytes, st.fin_offset, config.reserve_bytes),
            )
        } else {
            None
        }
    }
}

/// Runs one receive step on the stream's accounting.
///
/// `enqueue_ok` says whether the stream's local queue can take data; the
/// returned actions tell the caller what to do at the transport, and
/// `apply_consumed_offset` then takes the transport's answer.
pub fn handle_stream_receive(
    st: &mut FlowControlState,
    incoming_len: usize,
    config: &StreamReceiveConfig,
    enqueue_ok: bool,
) -> (r: ReceiveActions)
    ensures
        *final(st) == spec_receive_state(*old(st), incoming_len, *config, enqueue_ok),
        r.consume_target == spec_receive_target(*old(st), incoming_len, *config, enqueue_ok),
        final(st).consumed_offset == old(st).consumed_offset,
        final(st).fin_offset == old(st).fin_offset,
        final(st).rx_bytes >= old(st).rx_bytes,
        r.enqueue <==> (incoming_len > 0 && !old(st).discarding && enqueue_ok && !r.overflowed),
        r.overflowed <==> (incoming_len > 0 && !old(st).discarding && config.multi_stream
            && sat_add_usize(old(st).queued_bytes, incoming_len) > config.max_queue),
        r.stop_sending <==> (r.overflowed && !old(st).stop_sending_sent),
        r.reset_stream <==> (incoming_len > 0 && !old(st).discarding && !r.overflowed
            && !enqueue_ok),
        old(st).discarding ==> final(st).discarding,
        final(st).discarding ==> final(st).queued_bytes == 0 || final(st).queued_bytes == old(
            st,
        ).queued_bytes,
        (incoming_len > 0 && config.multi_stream && !old(st).discarding) ==> (final(st).queued_bytes <= config.max_queue || final(st).queued_bytes == 0),
        r.consume_strict <==> (incoming_len > 0 && !old(st).discarding && !r.overflowed && (
        config.multi_stream || config.reserve_bytes > 0)),
{
    if incoming_len == 0 {
        return ReceiveActions {
            enqueue: false,
            consume_target: None,
            consume_strict: false,
            stop_sending: false,
            overflowed: false,
            reset_stream: false,
        };
    }
    let rx: u64 = if st.rx_bytes > u64::MAX - incoming_len as u64 {
        u64::MAX
    } else {
        st.rx_bytes + incoming_len as u64
    };
    st.rx_bytes = rx;
    if st.discarding {
        return ReceiveActions {
            enqueue: false,
            consume_target: Some(rx),
            consume_strict: false,
            stop_sending: false,
            overflowed: false,
            reset_stream: false,
        };
    }
    if config.multi_stream {
        let projected: usize = if st.queued_bytes > usize::MAX - incoming_len {
            usize::MAX
        } else {
            st.queued_bytes + incoming_len
        };
        if projected > config.max_queue {
            let stop = !st.stop_sending_sent;
            st.discarding = true;
            st.queued_bytes = 0;
            st.stop_sending_sent = true;
            return ReceiveActions {
                enqueue: false,
                consume_target: Some(rx),
                consume_strict: false,
                stop_sending: stop,
                overflowed: true,
                reset_stream: false,
            };
        }
        let mut reset = false;
        let mut enq = false;
        if enqueue_ok {
            st.queued_bytes = projected;
            enq = true;
        } else {
            reset = true;
        }
        return ReceiveActions {
            enqueue: enq,
            consume_target: Some(rx),
            consume_strict: true,
            stop_sending: false,
            overflowed: false,
            reset_stream: reset,
        };
    }
    let mut reset = false;
    let mut enq = false;
    if enqueue_ok {
        st.queued_bytes = if st.queued_bytes > usize::MAX - incoming_len {
            usize::MAX
        } else {
            st.queued_bytes + incoming_len
        };
        enq = true;
    } else {
        reset = true;
    }
    let target: Option<u64> = if config.reserve_bytes > 0 {
        Some(reserve_target_offset(rx, st.queued_bytes, st.fin_offset, config.reserve_bytes))
    } else {
        None
    };
    ReceiveActions {
        enqueue: enq,
        consume_target: target,
        consume_strict: config.reserve_bytes > 0,
        stop_sending: false,
        overflowed: false,
        reset_stream: reset,
    }
}

/// Application error code carried in resets for internal stream faults.
pub const SLIPSTREAM_INTERNAL_ERROR: u64 = 0x101;

/// Application error code carried in resets for a broken local pipe.
pub const SLIPSTREAM_FILE_CANCEL_ERROR: u64 = 0x105;

/// The application error code a failed local write propagates over the
/// transport reset: a broken pipe keeps its own code, every other fault is
/// internal.
pub fn reset_code_for_write_error(broken_pipe: bool) -> (r: u64)
    ensures
        broken_pipe ==> r == SLIPSTREAM_FILE_CANCEL_ERROR,
        !broken_pipe ==> r == SLIPSTREAM_INTERNAL_ERROR,
{
    if broken_pipe {
        SLIPSTREAM_FILE_CANCEL_ERROR
    } else {
        SLIPSTREAM_INTERNAL_ERROR
    }
}

/// A stream due for consumed-offset promotion after local writers drained
/// bytes out of its queue.
#[derive(Debug, Clone, Copy)]
pub struct PromoteEntry {
    pub stream_id: u64,
    pub rx_bytes: u64,
    pub consumed_offset: u64,
    pub discarding: bool,
}

/// Whether a sweep should promote this stream's consumed offset.
pub open spec fn spec_needs_promote(e: PromoteEntry) -> bool {
    !e.discarding && e.consumed_offset < e.rx_bytes
}

/// Decides one stream's promotion: the idempotent sweep step.
pub fn promote_consumed_offset(rx_bytes: u64, consumed_offset: u64, discarding: bool) -> (r: Option<
    u64,
>)
    ensures
        r matches Some(t) ==> t == rx_bytes && !discarding && consumed_offset < rx_bytes,
        r is None <==> (discarding || consumed_offset >= rx_bytes),
{
    if discarding {
        return None;
    }
    if consumed_offset >= rx_bytes {
        return None;
    }
    Some(rx_bytes)
}

/// Plans the idempotent promotion sweep: exactly the non-discarding streams
/// whose consumed offset lags what they received, each promoted to its
/// receive counter, in order.
pub fn promote_streams(entries: &Vec<PromoteEntry>) -> (r: Vec<(u64, u64)>)
    ensures
        r@ == entries@.filter(|e: PromoteEntry| spec_needs_promote(e)).map_values(
            |e: PromoteEntry| (e.stream_id, e.rx_bytes),
        ),
{
    let ghost pred: spec_fn(PromoteEntry) -> bool = |e: PromoteEntry| spec_needs_promote(e);
    let ghost f: spec_fn(PromoteEntry) -> (u64, u64) = |e: PromoteEntry| (e.stream_id, e.rx_bytes);
    let mut out: Vec<(u64, u64)> = Vec::new();
    let mut i: usize = 0;
    proof {
        reveal(Seq::filter);
        assert(entries@.take(0) =~= Seq::<PromoteEntry>::empty());
        assert(out@ =~= entries@.take(0).filter(pred).map_values(f));
    }
    while i < entries.len()
        invariant
            i <= entries@.len(),
            out@ == entries@.take(i as int).filter(pred).map_values(f),
            pred == (|e: PromoteEntry| spec_needs_promote(e)),
            f == (|e: PromoteEntry| (e.stream_id, e.rx_bytes)),
        decreases entries@.len() - i,
    {
        let e = entries[i];
        proof {
            reveal(Seq::filter);
            assert(entries@.take(i + 1).drop_last() =~= entries@.take(i as int));
            assert(entries@.take(i + 1).last() == entries@[i as int]);
        }
        match promote_consumed_offset(e.rx_bytes, e.consumed_offset, e.discarding) {
            Some(target) => {
                out.push((e.stream_id, target));
                proof {
                    reveal(Seq::filter);
                    assert(pred(entries@[i as int]));
                    let fl = entries@.take(i + 1).filter(pred);
                    assert(fl == entries@.take(i as int).filter(pred).push(entries@[i as int]));
                    assert(out@ =~= fl.map_values(f));
                }
            },
            None => {
                proof {
                    reveal(Seq::filter);
                    assert(!pred(entries@[i as int]));
                    assert(entries@.take(i + 1).filter(pred) == entries@.take(i as int).filter(
                        pred,
                    ));
                }
            },
        }
        i = i + 1;
    }
    proof {
        assert(entries@.take(entries@.len() as int) =~= entries@);
    }
    out
}

/// The accounting after a whole run of receive events, each an incoming
/// length with whether the local queue could take it.
pub open spec fn spec_receive_run(
    st: FlowControlState,
    events: Seq<(usize, bool)>,
    config: StreamReceiveConfig,
) -> FlowControlState
    decreases events.len(),
{
    if events.len() == 0 {
        st
    } else {
        spec_receive_run(
            spec_receive_state(st, events[0].0, config, events[0].1),
            events.drop_first(),
            config,
        )
    }
}

/// Over every sequence of receive events under a cap: the queue never
/// exceeds the cap, the receive counter never moves backwards, and a
/// discarding stream discards for good.
pub proof fn lemma_flow_run_invariants(
    st: FlowControlState,
    events: Seq<(usize, bool)>,
    config: StreamReceiveConfig,
)
    requires
        config.multi_stream,
        st.queued_bytes <= config.max_queue,
    ensures
        spec_receive_run(st, events, config).queued_bytes <= config.max_queue,
        spec_receive_run(st, events, config).rx_bytes >= st.rx_bytes,
        st.discarding ==> spec_receive_run(st, events, config).discarding
            && spec_receive_run(st, events, config).queued_bytes == st.queued_bytes,
    decreases events.len(),
{
    if events.len() > 0 {
        let st2 = spec_receive_state(st, events[0].0, config, events[0].1);
        lemma_queue_bounded(st, events[0].0, config, events[0].1);
        lemma_receive_monotone(st, events[0].0, config, events[0].1);
        if st.discarding {
            lemma_discard_is_sticky(st, events[0].0, config, events[0].1);
        }
        lemma_flow_run_invariants(st2, events.drop_first(), config);
    }
}

/// Once a stream discards, it discards for good: no later receive step
/// enqueues anything, and each step asks the transport to keep the consumed
/// offset at the receive counter.
pub proof fn lemma_discard_is_sticky(
    st: FlowControlState,
    incoming_len: usize,
    config: StreamReceiveConfig,
    enqueue_ok: bool,
)
    requires
        st.discarding,
    ensures
        spec_receive_state(st, incoming_len, config, enqueue_ok).discarding,
        spec_receive_state(st, incoming_len, config, enqueue_ok).queued_bytes == st.queued_bytes,
        incoming_len > 0 ==> spec_receive_target(st, incoming_len, config, enqueue_ok) == Some(
            sat_add_u64(st.rx_bytes, incoming_len as u64),
        ),
        spec_receive_state(st, incoming_len, config, enqueue_ok).rx_bytes == if incoming_len > 0 {
            sat_add_u64(st.rx_bytes, incoming_len as u64)
        } else {
            st.rx_bytes
        },
{
}

/// The queue bound under a cap: however the steps interleave, a
/// multi-stream queue never exceeds its cap once below it, and an overflow
/// clears it.
pub proof fn lemma_queue_bounded(
    st: FlowControlState,
    incoming_len: usize,
    config: StreamReceiveConfig,
    enqueue_ok: bool,
)
    requires
        config.multi_stream,
        st.queued_bytes <= config.max_queue,
    ensures
        spec_receive_state(st, incoming_len, config, enqueue_ok).queued_bytes <= config.max_queue,
{
}

/// Receive steps never move the receive counter backwards, and the consume
/// targets they ask for never exceed it.
pub proof fn lemma_receive_monotone(
    st: FlowControlState,
    incoming_len: usize,
    config: StreamReceiveConfig,
    enqueue_ok: bool,
)
    ensures
        spec_receive_state(st, incoming_len, config, enqueue_ok).rx_bytes >= st.rx_bytes,
        spec_receive_target(st, incoming_len, config, enqueue_ok) matches Some(t) ==> t
            <= spec_receive_state(st, incoming_len, config, enqueue_ok).rx_bytes,
{
}

/// The text of one queue-overflow log line.
pub open spec fn spec_overflow_log(
    stream_id: u64,
    queued_bytes: usize,
    incoming_len: usize,
    max_queue: usize,
) -> Seq<u8> {
    "stream ".spec_bytes() + u64_decimal(stream_id) + ": queued_bytes ".spec_bytes() + u64_decimal(
        queued_bytes as u64,
    ) + " + ".spec_bytes() + u64_decimal(incoming_len as u64) + " exceeds limit ".spec_bytes()
        + u64_decimal(max_queue as u64) + "; stopping".spec_bytes()
}

/// Writes the queue-overflow log line.
pub fn overflow_log_message(
    stream_id: u64,
    queued_bytes: usize,
    incoming_len: usize,
    max_queue: usize,
) -> (r: Vec<u8>)
    ensures
        r@ == spec_overflow_log(stream_id, queued_bytes, incoming_len, max_queue),
{
    let mut out: Vec<u8> = Vec::new();
    append_bytes(&mut out, "stream ".as_bytes());
    let d = u64_to_decimal(stream_id);
    append_bytes(&mut out, d.as_slice());
    append_bytes(&mut out, ": queued_bytes ".as_bytes());
    let d = u64_to_decimal(queued_bytes as u64);
    append_bytes(&mut out, d.as_slice());
    append_bytes(&mut out, " + ".as_bytes());
    let d = u64_to_decimal(incoming_len as u64);
    append_bytes(&mut out, d.as_slice());
    append_bytes(&mut out, " exceeds limit ".as_bytes());
    let d = u64_to_decimal(max_queue as u64);
    append_bytes(&mut out, d.as_slice());
    append_bytes(&mut out, "; stopping".as_bytes());
    proof {
        assert(out@ =~= spec_overflow_log(stream_id, queued_bytes, incoming_len, max_queue));
    }
    out
}

/// The text of one refused-consume log line.
pub open spec fn spec_consume_error_log(
    stream_id: u64,
    context: Seq<u8>,
    ret: i32,
    current: u64,
    target: u64,
) -> Seq<u8> {
    "stream ".spec_bytes() + u64_decimal(stream_id) + ": stream_data_consumed failed".spec_bytes()
        + context + " ret=".spec_bytes() + i32_decimal(ret) + " consumed_offset=".spec_bytes()
        + u64_decimal(current) + " target=".spec_bytes() + u64_decimal(target)
}

/// Writes the log line for a consume call the transport refused.
pub fn consume_error_log_message(
    stream_id: u64,
    context: &str,
    ret: i32,
    current: u64,
    target: u64,
) -> (r: Vec<u8>)
    ensures
        r@ == spec_consume_error_log(stream_id, context.spec_bytes(), ret, current, target),
{
    let mut out: Vec<u8> = Vec::new();
    append_bytes(&mut out, "stream ".as_bytes());
    let d = u64_to_decimal(stream_id);
    append_bytes(&mut out, d.as_slice());
    append_bytes(&mut out, ": stream_data_consumed failed".as_bytes());
    append_bytes(&mut out, context.as_bytes());
    append_bytes(&mut out, " ret=".as_bytes());
    let d = i32_to_decimal(ret);
    append_bytes(&mut out, d.as_slice());
    append_bytes(&mut out, " consumed_offset=".as_bytes());
    let d = u64_to_decimal(current);
    append_bytes(&mut out, d.as_slice());
    append_bytes(&mut out, " target=".as_bytes());
    let d = u64_to_decimal(target);
    append_bytes(&mut out, d.as_slice());
    proof {
        assert(out@ =~= spec_consume_error_log(
            stream_id,
            context.spec_bytes(),
            ret,
            current,
            target,
        ));
    }
    out
}

/// Writes the log line for a refused consume during promotion.
pub fn promote_error_log_message(stream_id: u64, ret: i32, current: u64, target: u64) -> (r: Vec<
    u8,
>)
    ensures
        r@ == spec_consume_error_log(
            stream_id,
            " during promote".spec_bytes(),
            ret,
            current,
            target,
        ),
{
    consume_error_log_message(stream_id, " during promote", ret, current, target)
}

} // verus!
