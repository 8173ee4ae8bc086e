//! Per-resolver path state for the client poll engine: creation with
//! duplicate rejection, probe backoff, in-flight poll bookkeeping and
//! demand-driven refill.

use vstd::prelude::*;
use crate::error::ClientError;
use crate::net::HostPort;
use crate::pacing::PacingPollBudget;

verus! {

/// How a resolver answers: through recursion, or directly.
#[derive(Debug, Clone, Copy, PartialEq, Eq, Structural)]
pub enum ResolverMode {
    Recursive,
    Authoritative,
}

/// One configured resolver: its endpoint text and mode.
#[derive(Debug, Clone)]
pub struct ResolverSpec {
    pub resolver: HostPort,
    pub mode: ResolverMode,
}

/// A resolved UDP address in dual-stack form: sixteen address bytes as one
/// integer, plus the port.
#[derive(Debug, Clone, Copy, PartialEq, Eq, Hash, Structural)]
pub struct DualStackAddr {
    pub ip: u128,
    pub port: u16,
}

/// Maps a four-byte address into its dual-stack form.
pub fn map_v4_to_dual(v4: u32, port: u16) -> (r: DualStackAddr)
    ensures
        r.ip == 0xFFFF_0000_0000u128 + v4 as u128,
        r.port == port,
{
    DualStackAddr { ip: 0xFFFF_0000_0000u128 + (v4 as u128), port }
}

/// How many polls a burst may hold.
pub const MAX_POLL_BURST: usize = 10;

/// How long an authoritative poll may stay in flight, in microseconds.
pub const AUTHORITATIVE_POLL_TIMEOUT_US: u64 = 5000000;

/// Counters behind the per-resolver debug line.
#[derive(Debug, Clone, Copy)]
pub struct DebugMetrics {
    pub enabled: bool,
    pub last_report_at: u64,
    pub dns_responses: u64,
    pub zero_send_loops: u64,
    pub zero_send_with_streams: u64,
    pub enqueued_bytes: u64,
    pub send_packets: u64,
    pub send_bytes: u64,
    pub polls_sent: u64,
    pub last_enqueue_at: u64,
    pub last_report_dns: u64,
    pub last_report_zero: u64,
    pub last_report_zero_streams: u64,
    pub last_report_enqueued: u64,
    pub last_report_send_packets: u64,
    pub last_report_send_bytes: u64,
    pub last_report_polls: u64,
}

impl DebugMetrics {
    /// Fresh counters, reporting only when enabled.
    pub fn new(enabled: bool) -> (r: DebugMetrics)
        ensures
            r.enabled == enabled,
            r.last_report_at == 0 && r.dns_responses == 0 && r.polls_sent == 0 && r.send_packets
                == 0 && r.send_bytes == 0 && r.enqueued_bytes == 0,
    {
        DebugMetrics {
            enabled,
            last_report_at: 0,
            dns_responses: 0,
            zero_send_loops: 0,
            zero_send_with_streams: 0,
            enqueued_bytes: 0,
            send_packets: 0,
            send_bytes: 0,
            polls_sent: 0,
            last_enqueue_at: 0,
            last_report_dns: 0,
            last_report_zero: 0,
            last_report_zero_streams: 0,
            last_report_enqueued: 0,
            last_report_send_packets: 0,
            last_report_send_bytes: 0,
            last_report_polls: 0,
        }
    }
}

/// The counter deltas of one debug line.
#[derive(Debug, Clone, Copy)]
pub struct DebugReport {
    pub dns_delta: u64,
    pub zero_delta: u64,
    pub zero_stream_delta: u64,
    pub enqueued_delta: u64,
    pub send_packets_delta: u64,
    pub send_bytes_delta: u64,
    pub polls_delta: u64,
    pub enqueue_age_ms: u64,
}

/// How often the debug line may fire, in microseconds.
pub const DEBUG_REPORT_INTERVAL_US: u64 = 1000000;

/// Saturating 64-bit difference.
pub open spec fn sat_sub(a: u64, b: u64) -> u64 {
    if a >= b {
        (a - b) as u64
    } else {
        0u64
    }
}

impl DebugMetrics {
    /// One rate-limited debug report: the deltas since the last report, or
    /// nothing while disabled, on the very first pass, or inside the
    /// interval. A produced report moves the baselines.
    pub fn report_deltas(&mut self, now: u64) -> (r: Option<DebugReport>)
        ensures
            !old(self).enabled ==> r is None && *final(self) == *old(self),
            (old(self).enabled && old(self).last_report_at == 0) ==> r is None && final(self).last_report_at == now,
            (old(self).enabled && old(self).last_report_at != 0 && sat_sub(
                now,
                old(self).last_report_at,
            ) < DEBUG_REPORT_INTERVAL_US) ==> r is None && *final(self) == *old(self),
            (old(self).enabled && old(self).last_report_at != 0 && sat_sub(
                now,
                old(self).last_report_at,
            ) >= DEBUG_REPORT_INTERVAL_US) ==> (r matches Some(rep) && rep.dns_delta == sat_sub(
                old(self).dns_responses,
                old(self).last_report_dns,
            ) && rep.polls_delta == sat_sub(old(self).polls_sent, old(self).last_report_polls)
                && rep.send_packets_delta == sat_sub(
                old(self).send_packets,
                old(self).last_report_send_packets,
            ) && rep.send_bytes_delta == sat_sub(
                old(self).send_bytes,
                old(self).last_report_send_bytes,
            ) && rep.enqueued_delta == sat_sub(
                old(self).enqueued_bytes,
                old(self).last_report_enqueued,
            ) && final(self).last_report_at == now && final(self).last_report_dns == old(self).dns_responses && final(self).last_report_polls == old(self).polls_sent),
    {
        if !self.enabled {
            return None;
        }
        if self.last_report_at == 0 {
            self.last_report_at = now;
            return None;
        }
        let elapsed: u64 = if now >= self.last_report_at {
            now - self.last_report_at
        } else {
            0
        };
        if elapsed < DEBUG_REPORT_INTERVAL_US {
            return None;
        }
        let report = DebugReport {
            dns_delta: if self.dns_responses >= self.last_report_dns {
                self.dns_responses - self.last_report_dns
            } else {
                0
            },
            zero_delta: if self.zero_send_loops >= self.last_report_zero {
                self.zero_send_loops - self.last_report_zero
            } else {
                0
            },
            zero_stream_delta: if self.zero_send_with_streams >= self.last_report_zero_streams {
                self.zero_send_with_streams - self.last_report_zero_streams
            } else {
                0
            },
            enqueued_delta: if self.enqueued_bytes >= self.last_report_enqueued {
                self.enqueued_bytes - self.last_report_enqueued
            } else {
                0
            },
            send_packets_delta: if self.send_packets >= self.last_report_send_packets {
                self.send_packets - self.last_report_send_packets
            } else {
                0
            },
            send_bytes_delta: if self.send_bytes >= self.last_report_send_bytes {
                self.send_bytes - self.last_report_send_bytes
            } else {
                0
            },
            polls_delta: if self.polls_sent >= self.last_report_polls {
                self.polls_sent - self.last_report_polls
            } else {
                0
            },
            enqueue_age_ms: if self.last_enqueue_at == 0 {
                0
            } else if now >= self.last_enqueue_at {
                (now - self.last_enqueue_at) / 1000
            } else {
                0
            },
        };
        self.last_report_at = now;
        self.last_report_dns = self.dns_responses;
        self.last_report_zero = self.zero_send_loops;
        self.last_report_zero_streams = self.zero_send_with_streams;
        self.last_report_enqueued = self.enqueued_bytes;
        self.last_report_send_packets = self.send_packets;
        self.last_report_send_bytes = self.send_bytes;
        self.last_report_polls = self.polls_sent;
        Some(report)
    }
}

/// The client's live view of one resolver path.
#[derive(Debug, Clone)]
pub struct ResolverState {
    pub addr: DualStackAddr,
    pub mode: ResolverMode,
    pub added: bool,
    pub path_id: i32,
    pub unique_path_id: Option<u64>,
    pub probe_attempts: u32,
    pub next_probe_at: u64,
    pub pending_polls: usize,
    pub inflight_poll_ids: Vec<(u16, u64)>,
    pub pacing_budget: Option<PacingPollBudget>,
    pub debug: DebugMetrics,
}

/// Builds resolver state from resolved dual-stack addresses; two resolvers
/// on one normalized address are refused. The first resolver is primary
/// and holds the initial transport path.
pub fn resolve_resolvers(resolved: &Vec<(DualStackAddr, ResolverMode)>, mtu: u32, debug_poll: bool)
    -> (r: Result<Vec<ResolverState>, ClientError>)
    requires
        mtu >= 1,
    ensures
        r is Err <==> exists|i: int, j: int|
            0 <= i < j < resolved@.len() && (#[trigger] resolved@[i]).0 == (
            #[trigger] resolved@[j]).0,
        r matches Ok(v) ==> v@.len() == resolved@.len() && forall|i: int|
            0 <= i < v@.len() ==> (#[trigger] v@[i]).addr == resolved@[i].0 && v@[i].mode
                == resolved@[i].1 && v@[i].added == (i == 0) && v@[i].path_id == (if i == 0 {
                0int
            } else {
                -1int
            }) && v@[i].unique_path_id == (if i == 0 {
                Some(0u64)
            } else {
                None::<u64>
            }) && v@[i].pending_polls == 0 && v@[i].inflight_poll_ids@.len() == 0 && (
            v@[i].pacing_budget is Some <==> resolved@[i].1 is Authoritative),
{
    let mut out: Vec<ResolverState> = Vec::new();
    let mut i: usize = 0;
    while i < resolved.len()
        invariant
            mtu >= 1,
            i <= resolved@.len(),
            out@.len() == i,
            forall|a: int, b: int|
                0 <= a < b < i ==> (#[trigger] resolved@[a]).0 != (#[trigger] resolved@[b]).0,
            forall|j: int|
                0 <= j < i ==> (#[trigger] out@[j]).addr == resolved@[j].0 && out@[j].mode
                    == resolved@[j].1 && out@[j].added == (j == 0) && out@[j].path_id == (if j == 0 {
                    0int
                } else {
                    -1int
                }) && out@[j].unique_path_id == (if j == 0 {
                    Some(0u64)
                } else {
                    None::<u64>
                }) && out@[j].pending_polls == 0 && out@[j].inflight_poll_ids@.len() == 0 && (
                out@[j].pacing_budget is Some <==> resolved@[j].1 is Authoritative),
        decreases resolved@.len() - i,
    {
        let (addr, mode) = resolved[i];
        let mut j: usize = 0;
        while j < i
            invariant
                j <= i < resolved@.len(),
                addr == resolved@[i as int].0,
                forall|a: int| 0 <= a < j ==> (#[trigger] resolved@[a]).0 != addr,
            decreases i - j,
        {
            let (prev, _) = resolved[j];
            if prev.ip == addr.ip && prev.port == addr.port {
                proof {
                    assert(prev == resolved@[j as int].0);
                    assert(prev == addr);
                    assert(0 <= j < i < resolved@.len());
                    assert((resolved@[j as int]).0 == (resolved@[i as int]).0);
                }
                return Err(ClientError::new("Duplicate resolver address"));
            }
            j = j + 1;
        }
        let is_primary = i == 0;
        let budget: Option<PacingPollBudget> = match mode {
            ResolverMode::Authoritative => Some(PacingPollBudget::new(mtu)),
            ResolverMode::Recursive => None,
        };
        out.push(
            ResolverState {
                addr,
                mode,
                added: is_primary,
                path_id: if is_primary {
                    0
                } else {
                    -1
                },
                unique_path_id: if is_primary {
                    Some(0)
                } else {
                    None
                },
                probe_attempts: 0,
                next_probe_at: 0,
                pending_polls: 0,
                inflight_poll_ids: Vec::new(),
                pacing_budget: budget,
                debug: DebugMetrics::new(debug_poll),
            },
        );
        i = i + 1;
    }
    Ok(out)
}

/// Clears a resolver's path state after its transport path went away.
pub fn reset_resolver_path(resolver: &mut ResolverState)
    ensures
        !final(resolver).added,
        final(resolver).path_id == -1,
        final(resolver).unique_path_id is None,
        final(resolver).pending_polls == 0,
        final(resolver).inflight_poll_ids@.len() == 0,
        final(resolver).probe_attempts == 0,
        final(resolver).next_probe_at == 0,
        final(resolver).addr == old(resolver).addr,
        final(resolver).mode == old(resolver).mode,
{
    resolver.added = false;
    resolver.path_id = -1;
    resolver.unique_path_id = None;
    resolver.pending_polls = 0;
    resolver.inflight_poll_ids = Vec::new();
    resolver.probe_attempts = 0;
    resolver.next_probe_at = 0;
}

/// The probe backoff after a number of failed attempts: a quarter second
/// doubled per failure, six doublings at most, capped at ten seconds.
pub open spec fn spec_probe_backoff(attempts: u32) -> u64 {
    let shift: u32 = if attempts >= 1 {
        if attempts - 1 < 6 {
            (attempts - 1) as u32
        } else {
            6u32
        }
    } else {
        0u32
    };
    let delay = (250000u64 * (1u64 << shift)) as u64;
    if delay > 10000000 {
        10000000u64
    } else {
        delay
    }
}

/// Computes the probe backoff for one more failed attempt.
pub fn path_probe_backoff(attempts: u32) -> (r: u64)
    ensures
        r == spec_probe_backoff(attempts),
{
    let shift: u32 = if attempts >= 1 {
        if attempts - 1 < 6 {
            attempts - 1
        } else {
            6
        }
    } else {
        0
    };
    proof {
        assert(shift <= 6);
        assert(250000u64 * (1u64 << shift) <= 250000u64 * 64) by (bit_vector)
            requires
                shift <= 6u32,
        ;
    }
    let delay = 250000u64 * (1u64 << shift);
    if delay > 10000000 {
        10000000
    } else {
        delay
    }
}

/// Drops in-flight polls older than the authoritative timeout; what stays
/// is exactly the young entries, in order.
pub fn expire_inflight_polls(inflight: &mut Vec<(u16, u64)>, now: u64)
    ensures
        final(inflight)@ == old(inflight)@.filter(
            |e: (u16, u64)| e.1 > sat_sub(now, AUTHORITATIVE_POLL_TIMEOUT_US),
        ),
{
    let expire_before: u64 = if now >= AUTHORITATIVE_POLL_TIMEOUT_US {
        now - AUTHORITATIVE_POLL_TIMEOUT_US
    } else {
        0
    };
    let ghost pred: spec_fn((u16, u64)) -> bool = |e: (u16, u64)| e.1 > sat_sub(
        now,
        AUTHORITATIVE_POLL_TIMEOUT_US,
    );
    let mut kept: Vec<(u16, u64)> = Vec::new();
    let mut i: usize = 0;
    proof {
        reveal(Seq::filter);
        assert(old(inflight)@.take(0) =~= Seq::<(u16, u64)>::empty());
        assert(kept@ =~= old(inflight)@.take(0).filter(pred));
    }
    while i < inflight.len()
        invariant
            i <= inflight@.len(),
            inflight@ == old(inflight)@,
            expire_before == sat_sub(now, AUTHORITATIVE_POLL_TIMEOUT_US),
            kept@ == old(inflight)@.take(i as int).filter(pred),
            pred == (|e: (u16, u64)| e.1 > sat_sub(now, AUTHORITATIVE_POLL_TIMEOUT_US)),
        decreases inflight@.len() - i,
    {
        let e = inflight[i];
        proof {
            reveal(Seq::filter);
            assert(inflight@.take(i + 1).drop_last() =~= inflight@.take(i as int));
            assert(inflight@.take(i + 1).last() == inflight@[i as int]);
        }
        if e.1 > expire_before {
            kept.push(e);
        }
        i = i + 1;
    }
    proof {
        assert(old(inflight)@.take(old(inflight)@.len() as int) =~= old(inflight)@);
    }
    *inflight = kept;
}

/// Records one sent poll in the in-flight map.
pub fn record_inflight_poll(inflight: &mut Vec<(u16, u64)>, id: u16, sent_at: u64)
    ensures
        final(inflight)@ == old(inflight)@.push((id, sent_at)),
{
    inflight.push((id, sent_at));
}

/// Removes one answered poll from the in-flight map: every entry with the
/// answered id leaves, the rest stay in order.
pub fn remove_inflight_poll(inflight: &mut Vec<(u16, u64)>, id: u16)
    ensures
        final(inflight)@ == old(inflight)@.filter(|e: (u16, u64)| e.0 != id),
{
    let ghost pred: spec_fn((u16, u64)) -> bool = |e: (u16, u64)| e.0 != id;
    let mut kept: Vec<(u16, u64)> = Vec::new();
    let mut i: usize = 0;
    proof {
        reveal(Seq::filter);
        assert(old(inflight)@.take(0) =~= Seq::<(u16, u64)>::empty());
        assert(kept@ =~= old(inflight)@.take(0).filter(pred));
    }
    while i < inflight.len()
        invariant
            i <= inflight@.len(),
            inflight@ == old(inflight)@,
            kept@ == old(inflight)@.take(i as int).filter(pred),
            pred == (|e: (u16, u64)| e.0 != id),
        decreases inflight@.len() - i,
    {
        let e = inflight[i];
        proof {
            reveal(Seq::filter);
            assert(inflight@.take(i + 1).drop_last() =~= inflight@.take(i as int));
            assert(inflight@.take(i + 1).last() == inflight@[i as int]);
        }
        if e.0 != id {
            kept.push(e);
        }
        i = i + 1;
    }
    proof {
        assert(old(inflight)@.take(old(inflight)@.len() as int) =~= old(inflight)@);
    }
    *inflight = kept;
}

/// One demand-driven refill: a response adds one pending poll, never past
/// the burst cap.
pub fn refill_pending_polls(pending: usize) -> (r: usize)
    ensures
        r == if pending + 1 > MAX_POLL_BURST {
            MAX_POLL_BURST as int
        } else {
            pending + 1
        },
        r >= pending || r == MAX_POLL_BURST,
{
    if pending >= MAX_POLL_BURST {
        MAX_POLL_BURST
    } else {
        pending + 1
    }
}

/// The pacing floor on pending polls: at least the target beyond what is
/// already in transit, and at least the in-flight poll count, so expired
/// polls are replaced.
pub fn pending_polls_floor(
    pending: usize,
    target_inflight: usize,
    in_transit_packets: usize,
    inflight_count: usize,
) -> (r: usize)
    ensures
        r >= pending && r >= inflight_count,
        target_inflight > in_transit_packets ==> r >= target_inflight - in_transit_packets,
        r == pending || r == inflight_count || (target_inflight > in_transit_packets && r
            == target_inflight - in_transit_packets),
{
    let wanted: usize = if target_inflight > in_transit_packets {
        target_inflight - in_transit_packets
    } else {
        0
    };
    let mut r = pending;
    if wanted > r {
        r = wanted;
    }
    if inflight_count > r {
        r = inflight_count;
    }
    proof {
        if r != pending && r != inflight_count {
            assert(r == wanted);
            assert(wanted > pending);
            assert(target_inflight > in_transit_packets);
        }
    }
    r
}

/// One poll-loop step after the transport prepared a datagram: a zero-byte
/// packet or an unusable destination stops the burst and keeps the budget;
/// otherwise the poll goes out and the budget shrinks by one.
pub fn poll_prepare_outcome(send_length: usize, addr_valid: bool, remaining: usize) -> (r: (
    bool,
    usize,
))
    requires
        remaining >= 1,
    ensures
        (send_length == 0 || !addr_valid) ==> !r.0 && r.1 == remaining,
        (send_length > 0 && addr_valid) ==> r.0 && r.1 == remaining - 1,
{
    if send_length == 0 || !addr_valid {
        (false, remaining)
    } else {
        (true, remaining - 1)
    }
}

/// The poll budget after a UDP send failed: a transient fault re-arms the
/// poll for the next pass; a lasting one stops the engine.
pub fn poll_send_failed(remaining: usize, transient: bool) -> (r: Option<usize>)
    ensures
        transient ==> r == Some(
            (if remaining + 1 > usize::MAX {
                usize::MAX as int
            } else {
                remaining + 1
            }) as usize,
        ),
        !transient ==> r is None,
{
    if transient {
        if remaining == usize::MAX {
            Some(usize::MAX)
        } else {
            Some(remaining + 1)
        }
    } else {
        None
    }
}

/// The first resolver added on the given transport path.
pub open spec fn spec_first_path_match(rs: Seq<ResolverState>, path_id: int, j: int) -> Option<int>
    decreases rs.len() - j,
{
    if j < 0 || j >= rs.len() {
        None
    } else if rs[j].added && rs[j].path_id == path_id {
        Some(j)
    } else {
        spec_first_path_match(rs, path_id, j + 1)
    }
}

/// The first resolver bound to the given normalized address.
pub open spec fn spec_first_addr_match(rs: Seq<ResolverState>, peer: DualStackAddr, j: int) -> Option<
    int,
>
    decreases rs.len() - j,
{
    if j < 0 || j >= rs.len() {
        None
    } else if rs[j].addr == peer {
        Some(j)
    } else {
        spec_first_addr_match(rs, peer, j + 1)
    }
}

/// The resolver an inbound response belongs to: the resolver added on the
/// response's transport path when there is one, else the resolver bound to
/// the sender's normalized address.
pub fn select_resolver(resolvers: &Vec<ResolverState>, path_id: i32, peer: DualStackAddr) -> (r:
    Option<usize>)
    ensures
        (path_id >= 0 && spec_first_path_match(resolvers@, path_id as int, 0) is Some) ==> r
            == Some(spec_first_path_match(resolvers@, path_id as int, 0)->Some_0 as usize),
        !(path_id >= 0 && spec_first_path_match(resolvers@, path_id as int, 0) is Some) ==> (
        match spec_first_addr_match(resolvers@, peer, 0) {
            Option::Some(i) => r == Some(i as usize),
            Option::None => r is None,
        }),
{
    if path_id >= 0 {
        let mut i: usize = 0;
        while i < resolvers.len()
            invariant
                i <= resolvers@.len(),
                path_id >= 0,
                spec_first_path_match(resolvers@, path_id as int, 0) == spec_first_path_match(
                    resolvers@,
                    path_id as int,
                    i as int,
                ),
            decreases resolvers@.len() - i,
        {
            if resolvers[i].added && resolvers[i].path_id == path_id {
                proof {
                    assert(spec_first_path_match(resolvers@, path_id as int, i as int) == Some(
                        i as int,
                    ));
                }
                return Some(i);
            }
            i = i + 1;
        }
        proof {
            assert(spec_first_path_match(resolvers@, path_id as int, resolvers@.len() as int)
                is None);
        }
    }
    let mut i: usize = 0;
    while i < resolvers.len()
        invariant
            i <= resolvers@.len(),
            spec_first_addr_match(resolvers@, peer, 0) == spec_first_addr_match(
                resolvers@,
                peer,
                i as int,
            ),
            !(path_id >= 0 && spec_first_path_match(resolvers@, path_id as int, 0) is Some),
        decreases resolvers@.len() - i,
    {
        let (k_ip, k_port) = (resolvers[i].addr.ip, resolvers[i].addr.port);
        if k_ip == peer.ip && k_port == peer.port {
            proof {
                assert(resolvers@[i as int].addr == peer);
                assert(spec_first_addr_match(resolvers@, peer, i as int) == Some(i as int));
            }
            return Some(i);
        }
        proof {
            assert(resolvers@[i as int].addr != peer);
        }
        i = i + 1;
    }
    proof {
        assert(spec_first_addr_match(resolvers@, peer, resolvers@.len() as int) is None);
    }
    None
}

/// The id of a DNS response packet: the first two bytes, wherever the
/// header is whole and has the response bit set.
pub fn dns_response_id(packet: &[u8]) -> (r: Option<u16>)
    ensures
        packet@.len() < 12 ==> r is None,
        packet@.len() >= 12 ==> ({
            let flags = crate::dns_wire::be16(packet@[2], packet@[3]);
            if flags & 0x8000 == 0 {
                r is None
            } else {
                r == Some(crate::dns_wire::be16(packet@[0], packet@[1]))
            }
        }),
{
    if packet.len() < 12 {
        return None;
    }
    let id = (packet[0] as u16) * 256 + (packet[1] as u16);
    let flags = (packet[2] as u16) * 256 + (packet[3] as u16);
    if flags & 0x8000 == 0 {
        return None;
    }
    Some(id)
}

} // verus!
