//! Server-side decisions: idle-connection collection, overlapping-domain
//! detection, and the shape of each DNS reply slot.

use vstd::prelude::*;
use crate::bytestr::{DOT, ends_with, lower_seq, trim_dots};
use crate::dns_types::{DecodeQueryError, DecodedQuery, Question, Rcode};
use crate::resolver::sat_sub;

verus! {

/// How often idle connections are collected, in microseconds.
pub const IDLE_GC_INTERVAL_US: u64 = 1000000;

/// The server's configuration, as the launcher assembles it.
#[derive(Debug, Clone)]
pub struct ServerConfig {
    pub dns_listen_host: Vec<u8>,
    pub dns_listen_port: u16,
    pub target_address: crate::net::HostPort,
    pub fallback_address: Option<crate::net::HostPort>,
    pub cert: Vec<u8>,
    pub key: Vec<u8>,
    pub reset_seed_path: Option<Vec<u8>>,
    pub domains: Vec<Vec<u8>>,
    pub max_connections: u32,
    pub idle_timeout_seconds: u64,
    pub debug_streams: bool,
    pub debug_commands: bool,
}

/// Whether a connection id is among the active ones.
pub open spec fn id_active(active: Seq<u64>, id: u64) -> bool {
    exists|i: int| 0 <= i < active.len() && active[i] == id
}

/// Scans the active list for a connection id.
fn find_active(active: &Vec<u64>, id: u64) -> (r: bool)
    ensures
        r == id_active(active@, id),
{
    let mut i: usize = 0;
    while i < active.len()
        invariant
            i <= active@.len(),
            forall|j: int| 0 <= j < i ==> active@[j] != id,
        decreases active@.len() - i,
    {
        if active[i] == id {
            return true;
        }
        i = i + 1;
    }
    false
}

/// Prunes connections that no longer exist and collects the idle ones:
/// what stays is exactly the active entries, and what comes back is
/// exactly the keys of those last seen a whole timeout ago.
pub fn prune_and_collect_idle(
    last_seen: &mut Vec<(u64, u64)>,
    active: &Vec<u64>,
    idle_timeout: u64,
    now: u64,
) -> (idle: Vec<u64>)
    ensures
        final(last_seen)@ == old(last_seen)@.filter(
            |e: (u64, u64)| id_active(active@, e.0),
        ),
        idle@ == old(last_seen)@.filter(
            |e: (u64, u64)| id_active(active@, e.0) && sat_sub(now, e.1) >= idle_timeout,
        ).map_values(|e: (u64, u64)| e.0),
{
    let ghost keep: spec_fn((u64, u64)) -> bool = |e: (u64, u64)| id_active(active@, e.0);
    let ghost is_idle: spec_fn((u64, u64)) -> bool = |e: (u64, u64)| id_active(active@, e.0)
        && sat_sub(now, e.1) >= idle_timeout;
    let mut kept: Vec<(u64, u64)> = Vec::new();
    let mut idle: Vec<u64> = Vec::new();
    let mut i: usize = 0;
    proof {
        reveal(Seq::filter);
        assert(old(last_seen)@.take(0) =~= Seq::<(u64, u64)>::empty());
        assert(kept@ =~= old(last_seen)@.take(0).filter(keep));
        assert(idle@ =~= old(last_seen)@.take(0).filter(is_idle).map_values(
            |e: (u64, u64)| e.0,
        ));
    }
    while i < last_seen.len()
        invariant
            i <= last_seen@.len(),
            last_seen@ == old(last_seen)@,
            kept@ == old(last_seen)@.take(i as int).filter(keep),
            idle@ == old(last_seen)@.take(i as int).filter(is_idle).map_values(
                |e: (u64, u64)| e.0,
            ),
            keep == (|e: (u64, u64)| id_active(active@, e.0)),
            is_idle == (|e: (u64, u64)| id_active(active@, e.0) && sat_sub(now, e.1)
                >= idle_timeout),
        decreases last_seen@.len() - i,
    {
        let e = last_seen[i];
        proof {
            reveal(Seq::filter);
            assert(last_seen@.take(i + 1).drop_last() =~= last_seen@.take(i as int));
            assert(last_seen@.take(i + 1).last() == last_seen@[i as int]);
        }
        if find_active(active, e.0) {
            kept.push(e);
            let age: u64 = if now >= e.1 {
                now - e.1
            } else {
                0
            };
            if age >= idle_timeout {
                idle.push(e.0);
                proof {
                    assert(idle@ =~= last_seen@.take(i + 1).filter(is_idle).map_values(
                        |e: (u64, u64)| e.0,
                    ));
                }
            }
        }
        i = i + 1;
    }
    proof {
        assert(old(last_seen)@.take(old(last_seen)@.len() as int) =~= old(last_seen)@);
    }
    *last_seen = kept;
    idle
}

/// A connection seen a whole timeout ago is collected: the decision behind
/// the idle sweep, for any one entry still active.
pub proof fn lemma_idle_entry_collected(
    entries: Seq<(u64, u64)>,
    active: Seq<u64>,
    idle_timeout: u64,
    now: u64,
    i: int,
)
    requires
        0 <= i < entries.len(),
        id_active(active, entries[i].0),
        sat_sub(now, entries[i].1) >= idle_timeout,
    ensures
        entries.filter(
            |e: (u64, u64)| id_active(active, e.0) && sat_sub(now, e.1) >= idle_timeout,
        ).contains(entries[i]),
{
    broadcast use vstd::seq_lib::group_filter_ensures;

    let pred = |e: (u64, u64)| id_active(active, e.0) && sat_sub(now, e.1) >= idle_timeout;
    assert(pred(entries[i]));
    Seq::lemma_filter_contains(entries, pred, i);
}

/// Whether `suffix` names a strict ancestor zone of `domain`: a proper
/// suffix that starts at a label boundary.
pub fn is_label_suffix(domain: &[u8], suffix: &[u8]) -> (r: bool)
    ensures
        r <==> (domain@.len() > suffix@.len() && ends_with(domain@, suffix@) && domain@[domain@.len()
            - suffix@.len() - 1] == DOT),
{
    if domain.len() <= suffix.len() {
        return false;
    }
    proof {
        assert(domain@.take(domain@.len() as int) =~= domain@);
        assert(suffix@.take(suffix@.len() as int) =~= suffix@);
    }
    if !crate::bytestr::range_ends_with(domain, domain.len(), suffix, suffix.len()) {
        return false;
    }
    domain[domain.len() - suffix.len() - 1] == DOT
}

/// Whether two configured domains collide: equal once trimmed and lowered,
/// or one an ancestor zone of the other.
pub open spec fn spec_domains_overlap(a: Seq<u8>, b: Seq<u8>) -> bool {
    let ta = lower_seq(trim_dots(a));
    let tb = lower_seq(trim_dots(b));
    ta == tb || (ta.len() > tb.len() && ends_with(ta, tb) && ta[ta.len() - tb.len() - 1] == DOT)
        || (tb.len() > ta.len() && ends_with(tb, ta) && tb[tb.len() - ta.len() - 1] == DOT)
}

/// Tests two configured domains for collision.
pub fn domains_overlap(a: &[u8], b: &[u8]) -> (r: bool)
    ensures
        r == spec_domains_overlap(a@, b@),
{
    let a_end = crate::bytestr::trim_dots_len(a);
    let at = crate::dns_name::copy_range(a, 0, a_end);
    let b_end = crate::bytestr::trim_dots_len(b);
    let bt = crate::dns_name::copy_range(b, 0, b_end);
    let al = crate::bytestr::to_lower_bytes(at.as_slice());
    let bl = crate::bytestr::to_lower_bytes(bt.as_slice());
    proof {
        assert(al@ =~= lower_seq(trim_dots(a@)));
        assert(bl@ =~= lower_seq(trim_dots(b@)));
    }
    if crate::bytestr::bytes_eq(al.as_slice(), bl.as_slice()) {
        return true;
    }
    if is_label_suffix(al.as_slice(), bl.as_slice()) {
        return true;
    }
    is_label_suffix(bl.as_slice(), al.as_slice())
}

/// The colliding pairs among the first `j` partners of row `i`.
pub open spec fn overlap_row(domains: Seq<Seq<u8>>, i: int, j: int) -> Seq<(usize, usize)>
    decreases j - i,
{
    if j <= i + 1 {
        Seq::empty()
    } else {
        overlap_row(domains, i, j - 1) + (if spec_domains_overlap(domains[i], domains[j - 1]) {
            seq![(i as usize, (j - 1) as usize)]
        } else {
            Seq::empty()
        })
    }
}

/// The colliding pairs among the first `i` rows, row by row.
pub open spec fn overlap_pairs(domains: Seq<Seq<u8>>, i: int) -> Seq<(usize, usize)>
    decreases i,
{
    if i <= 0 {
        Seq::empty()
    } else {
        overlap_pairs(domains, i - 1) + overlap_row(domains, i - 1, domains.len() as int)
    }
}

/// Finds every pair of configured domains that collide: duplicates, and
/// ancestor zones where the longest suffix would win at decode time.
pub fn overlapping_domains(domains: &Vec<Vec<u8>>) -> (r: Vec<(usize, usize)>)
    ensures
        r@ == overlap_pairs(domains.deep_view(), domains@.len() as int),
{
    let ghost dv = domains.deep_view();
    let mut out: Vec<(usize, usize)> = Vec::new();
    let mut i: usize = 0;
    proof {
        assert(out@ =~= overlap_pairs(dv, 0));
        assert(dv.len() == domains@.len());
    }
    while i < domains.len()
        invariant
            i <= domains@.len(),
            dv == domains.deep_view(),
            dv.len() == domains@.len(),
            out@ == overlap_pairs(dv, i as int),
        decreases domains@.len() - i,
    {
        let mut j: usize = i + 1;
        proof {
            assert(overlap_row(dv, i as int, i + 1) =~= Seq::<(usize, usize)>::empty());
            assert(out@ =~= overlap_pairs(dv, i as int) + overlap_row(dv, i as int, i + 1));
        }
        while j < domains.len()
            invariant
                i < j <= domains@.len() || (j == i + 1),
                i < domains@.len(),
                dv == domains.deep_view(),
                dv.len() == domains@.len(),
                out@ == overlap_pairs(dv, i as int) + overlap_row(dv, i as int, j as int),
            decreases domains@.len() - j,
        {
            proof {
                assert(dv[i as int] == domains@[i as int]@);
                assert(dv[j as int] == domains@[j as int]@);
            }
            if domains_overlap(domains[i].as_slice(), domains[j].as_slice()) {
                out.push((i, j));
                proof {
                    assert(out@ =~= overlap_pairs(dv, i as int) + overlap_row(
                        dv,
                        i as int,
                        j + 1,
                    ));
                }
            } else {
                proof {
                    assert(out@ =~= overlap_pairs(dv, i as int) + overlap_row(
                        dv,
                        i as int,
                        j + 1,
                    ));
                }
            }
            j = j + 1;
        }
        proof {
            assert(out@ =~= overlap_pairs(dv, i + 1));
        }
        i = i + 1;
    }
    out
}

/// What a tunnel query gets when the transport knows no connection for it.
#[derive(Debug, Clone, Copy, PartialEq, Eq, Structural)]
pub enum NoConnectionOutcome {
    /// Answer with the stateless-reset payload the transport produced.
    ResetSlot,
    /// Produce no reply slot; the peer still counts as DNS-classified.
    MarkOnly,
}

/// Decides the unknown-connection case: a non-empty stateless-reset payload
/// is sent back as the answer; otherwise the query is only noted.
pub fn no_connection_outcome(has_reset_payload: bool, payload_len: usize) -> (r:
    NoConnectionOutcome)
    ensures
        r == NoConnectionOutcome::ResetSlot <==> (has_reset_payload && payload_len > 0),
{
    if has_reset_payload && payload_len > 0 {
        NoConnectionOutcome::ResetSlot
    } else {
        NoConnectionOutcome::MarkOnly
    }
}

/// Whether a reply slot still needs a transport packet prepared: no
/// override payload, no fixed error code, and a live connection.
pub fn slot_needs_prepare(has_override: bool, rcode: Option<Rcode>, has_cnx: bool) -> (r: bool)
    ensures
        r <==> (!has_override && rcode is None && has_cnx),
{
    !has_override && rcode.is_none() && has_cnx
}

/// What a reply slot sends, decided once the transport was asked.
#[derive(Debug, Clone, Copy, PartialEq, Eq, Structural)]
pub enum SlotReply {
    /// Send the stateless-reset override payload with the slot's code.
    OverridePayload,
    /// Send the freshly prepared transport packet with the slot's code.
    PreparedPacket,
    /// Answer the poll with no payload and a clean code.
    EmptyNoError,
    /// Send no payload with the slot's own error code.
    ErrorOnly,
}

/// Decides a slot's reply: an override payload wins, then a prepared
/// packet, then a clean empty answer for an unanswered poll, and an error
/// code stands alone.
pub fn slot_reply_plan(has_override: bool, send_length: usize, rcode: Option<Rcode>) -> (r:
    SlotReply)
    ensures
        has_override ==> r == SlotReply::OverridePayload,
        (!has_override && send_length > 0) ==> r == SlotReply::PreparedPacket,
        (!has_override && send_length == 0 && rcode is None) ==> r == SlotReply::EmptyNoError,
        (!has_override && send_length == 0 && rcode is Some) ==> r == SlotReply::ErrorOnly,
{
    if has_override {
        SlotReply::OverridePayload
    } else if send_length > 0 {
        SlotReply::PreparedPacket
    } else if rcode.is_none() {
        SlotReply::EmptyNoError
    } else {
        SlotReply::ErrorOnly
    }
}

/// Where one inbound packet goes after a decode attempt.
#[derive(Debug)]
pub enum DispatchKind {
    /// A tunnel query: feed the payload to the transport and answer.
    Tunnel(DecodedQuery),
    /// Syntactically DNS but refused: answer with this code.
    ReplyError { id: u16, rd: bool, cd: bool, question: Question, rcode: Rcode },
    /// Not DNS at all, or an empty question: fallback-eligible.
    NonDns,
}

/// Classifies a decode outcome for dispatch: a clean decode tunnels, a
/// refusal with a question is answered, and everything else — unparseable
/// packets and empty-question refusals alike — is treated as non-DNS.
pub fn classify_decode(outcome: Result<DecodedQuery, DecodeQueryError>) -> (r: DispatchKind)
    ensures
        outcome matches Ok(q) ==> (r matches DispatchKind::Tunnel(t) && t.id == q.id && t.payload@
            == q.payload@ && t.question.name@ == q.question.name@),
        (outcome is Err && outcome->Err_0 is Drop) ==> r is NonDns,
        (outcome is Err && outcome->Err_0 is Reply && outcome->Err_0->Reply_question is None)
            ==> r is NonDns,
        (outcome is Err && outcome->Err_0 is Reply && outcome->Err_0->Reply_question is Some) ==> (
        r matches DispatchKind::ReplyError { id: rid, rd: rrd, cd: rcd, question: rq, rcode: rrc }
            && rid == outcome->Err_0->Reply_id && rrd == outcome->Err_0->Reply_rd && rcd
            == outcome->Err_0->Reply_cd && rrc == outcome->Err_0->Reply_rcode && rq.name@
            == outcome->Err_0->Reply_question->Some_0.name@),
{
    match outcome {
        Ok(query) => DispatchKind::Tunnel(query),
        Err(DecodeQueryError::Drop) => DispatchKind::NonDns,
        Err(DecodeQueryError::Reply { id, rd, cd, question, rcode }) => {
            match question {
                Some(question) => DispatchKind::ReplyError { id, rd, cd, question, rcode },
                None => DispatchKind::NonDns,
            }
        },
    }
}

} // verus!
