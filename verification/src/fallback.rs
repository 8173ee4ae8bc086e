//! Per-peer routing for UDP fallback: peers that speak DNS are answered,
//! peers that do not are proxied, and a long run of non-DNS packets from a
//! DNS peer demotes it.
//!
//! The runtime owns the sockets and the clock; the classifier owns the
//! decisions, over peers as plain dual-stack addresses and times in
//! microseconds.

use vstd::prelude::*;
use crate::resolver::{sat_sub, DualStackAddr};

verus! {

/// How long a fallback session or a DNS classification survives idleness,
/// in microseconds.
pub const FALLBACK_IDLE_TIMEOUT_US: u64 = 180000000;

/// How often the classifier sweeps expired state, in microseconds.
pub const FALLBACK_CLEANUP_INTERVAL_US: u64 = 30000000;

/// Non-DNS packets in a row that demote a DNS peer to fallback.
pub const NON_DNS_STREAK_THRESHOLD: usize = 16;

/// What the classifier remembers of a DNS peer.
#[derive(Debug, Clone, Copy, PartialEq, Eq, Structural)]
pub struct DnsPeerState {
    pub last_seen: u64,
    pub non_dns_streak: usize,
}

/// The first value under a key, scanning left to right.
pub open spec fn lookup_peer(s: Seq<(DualStackAddr, DnsPeerState)>, k: DualStackAddr) -> Option<
    DnsPeerState,
>
    decreases s.len(),
{
    if s.len() == 0 {
        None
    } else if s[0].0 == k {
        Some(s[0].1)
    } else {
        lookup_peer(s.drop_first(), k)
    }
}

/// The first session time under a key, scanning left to right.
pub open spec fn lookup_session(s: Seq<(DualStackAddr, u64)>, k: DualStackAddr) -> Option<u64>
    decreases s.len(),
{
    if s.len() == 0 {
        None
    } else if s[0].0 == k {
        Some(s[0].1)
    } else {
        lookup_session(s.drop_first(), k)
    }
}

/// No two entries share a peer key.
pub open spec fn peer_keys_distinct(s: Seq<(DualStackAddr, DnsPeerState)>) -> bool {
    forall|i: int, j: int| 0 <= i < j < s.len() ==> (#[trigger] s[i]).0 != (#[trigger] s[j]).0
}

/// No two sessions share a peer key.
pub open spec fn session_keys_distinct(s: Seq<(DualStackAddr, u64)>) -> bool {
    forall|i: int, j: int| 0 <= i < j < s.len() ==> (#[trigger] s[i]).0 != (#[trigger] s[j]).0
}

/// Tracks per-peer routing for UDP fallback.
///
/// A peer becomes DNS-classified on its first decoded query; a streak of
/// non-DNS packets reaching the threshold demotes it. Both classifications
/// and sessions lapse after the idle timeout.
#[derive(Debug, Clone)]
pub struct FallbackClassifier {
    pub dns_peers: Vec<(DualStackAddr, DnsPeerState)>,
    pub sessions: Vec<(DualStackAddr, u64)>,
    pub last_cleanup: u64,
}

impl FallbackClassifier {
    /// Well-formedness: each peer appears at most once in each table.
    pub open spec fn wf(&self) -> bool {
        peer_keys_distinct(self.dns_peers@) && session_keys_distinct(self.sessions@)
    }

    /// A fresh classifier with nothing remembered.
    pub fn new(now: u64) -> (r: FallbackClassifier)
        ensures
            r.dns_peers@.len() == 0,
            r.sessions@.len() == 0,
            r.last_cleanup == now,
            r.wf(),
    {
        FallbackClassifier { dns_peers: Vec::new(), sessions: Vec::new(), last_cleanup: now }
    }

    /// Marks a peer DNS-classified: its streak resets and its time renews.
    pub fn mark_dns(&mut self, peer: DualStackAddr, now: u64)
        requires
            old(self).wf(),
        ensures
            final(self).wf(),
            lookup_peer(final(self).dns_peers@, peer) == Some(
                DnsPeerState { last_seen: now, non_dns_streak: 0 },
            ),
            forall|q: DualStackAddr|
                q != peer ==> #[trigger] lookup_peer(final(self).dns_peers@, q) == lookup_peer(
                    old(self).dns_peers@,
                    q,
                ),
            final(self).sessions@ == old(self).sessions@,
            final(self).last_cleanup == old(self).last_cleanup,
    {
        let fresh = DnsPeerState { last_seen: now, non_dns_streak: 0 };
        let mut i: usize = 0;
        while i < self.dns_peers.len()
            invariant
                i <= self.dns_peers@.len(),
                self.dns_peers@ == old(self).dns_peers@,
                self.sessions@ == old(self).sessions@,
                self.last_cleanup == old(self).last_cleanup,
                old(self).wf(),
                fresh == (DnsPeerState { last_seen: now, non_dns_streak: 0 }),
                forall|j: int| 0 <= j < i ==> (#[trigger] self.dns_peers@[j]).0 != peer,
            decreases self.dns_peers@.len() - i,
        {
            let (k, _) = self.dns_peers[i];
            if k.ip == peer.ip && k.port == peer.port {
                proof {
                    assert(k == peer);
                }
                self.dns_peers.set(i, (peer, fresh));
                proof {
                    lemma_lookup_update(old(self).dns_peers@, self.dns_peers@, i as int, peer, fresh);
                    lemma_distinct_update_peers(old(self).dns_peers@, i as int, peer, fresh);
                }
                return ;
            }
            proof {
                assert(self.dns_peers@[i as int].0 != peer);
            }
            i = i + 1;
        }
        self.dns_peers.push((peer, fresh));
        proof {
            lemma_lookup_append(old(self).dns_peers@, peer, fresh);
            assert forall|a: int, b: int|
                0 <= a < b < self.dns_peers@.len() implies (#[trigger] self.dns_peers@[a]).0 != (
            #[trigger] self.dns_peers@[b]).0 by {
                if b < self.dns_peers@.len() - 1 {
                    assert(old(self).dns_peers@[a].0 != old(self).dns_peers@[b].0);
                } else {
                    assert(old(self).dns_peers@[a].0 != peer);
                }
            }
        }
    }

    /// Whether the peer has a live fallback session; a lapsed one is
    /// dropped and reported for shutdown.
    pub fn is_active_fallback_peer(&mut self, peer: DualStackAddr, now: u64) -> (r: bool)
        requires
            old(self).wf(),
        ensures
            final(self).wf(),
            r <==> (lookup_session(old(self).sessions@, peer) matches Some(t) && sat_sub(now, t)
                <= FALLBACK_IDLE_TIMEOUT_US),
            final(self).dns_peers@ == old(self).dns_peers@,
            final(self).last_cleanup == old(self).last_cleanup,
            r ==> final(self).sessions@ == old(self).sessions@,
            lookup_session(old(self).sessions@, peer) is None ==> final(self).sessions@ == old(
                self,
            ).sessions@,
            !r ==> lookup_session(final(self).sessions@, peer) is None,
            forall|q: DualStackAddr|
                q != peer ==> #[trigger] lookup_session(final(self).sessions@, q) == lookup_session(
                    old(self).sessions@,
                    q,
                ),
    {
        let mut i: usize = 0;
        while i < self.sessions.len()
            invariant
                i <= self.sessions@.len(),
                self.sessions@ == old(self).sessions@,
                self.dns_peers@ == old(self).dns_peers@,
                self.last_cleanup == old(self).last_cleanup,
                old(self).wf(),
                forall|j: int| 0 <= j < i ==> (#[trigger] self.sessions@[j]).0 != peer,
            decreases self.sessions@.len() - i,
        {
            let (k, t) = self.sessions[i];
            if k.ip == peer.ip && k.port == peer.port {
                proof {
                    assert(k == peer);
                    lemma_lookup_session_first(self.sessions@, i as int, peer);
                }
                let age: u64 = if now >= t {
                    now - t
                } else {
                    0
                };
                if age > FALLBACK_IDLE_TIMEOUT_US {
                    proof {
                        assert forall|j: int|
                            i < j < self.sessions@.len() implies (
                        #[trigger] self.sessions@[j]).0 != peer by {
                            assert(self.sessions@[i as int].0 != self.sessions@[j].0);
                        }
                    }
                    self.sessions.remove(i);
                    proof {
                        lemma_distinct_remove_sessions(old(self).sessions@, i as int);
                        lemma_lookup_session_remove(old(self).sessions@, i as int, peer);
                    }
                    return false;
                }
                return true;
            }
            proof {
                assert(self.sessions@[i as int].0 != peer);
            }
            i = i + 1;
        }
        proof {
            lemma_lookup_session_absent(self.sessions@, peer);
        }
        false
    }

    /// One non-DNS packet from a peer: forwarded at once when the peer is
    /// not DNS-classified; otherwise held back while the streak is short,
    /// and demoting the peer once it reaches the threshold.
    pub fn handle_non_dns(&mut self, peer: DualStackAddr) -> (r: bool)
        requires
            old(self).wf(),
        ensures
            final(self).wf(),
            lookup_peer(old(self).dns_peers@, peer) is None ==> r && final(self).dns_peers@ == old(self).dns_peers@,
            lookup_peer(old(self).dns_peers@, peer) matches Some(st) ==> (r <==> st.non_dns_streak
                + 1 >= NON_DNS_STREAK_THRESHOLD),
            (lookup_peer(old(self).dns_peers@, peer) is Some && lookup_peer(
                old(self).dns_peers@,
                peer,
            )->Some_0.non_dns_streak + 1 < NON_DNS_STREAK_THRESHOLD) ==> lookup_peer(
                final(self).dns_peers@,
                peer,
            ) == Some(
                DnsPeerState {
                    last_seen: lookup_peer(old(self).dns_peers@, peer)->Some_0.last_seen,
                    non_dns_streak: (lookup_peer(
                        old(self).dns_peers@,
                        peer,
                    )->Some_0.non_dns_streak + 1) as usize,
                },
            ),
            (lookup_peer(old(self).dns_peers@, peer) is Some && lookup_peer(
                old(self).dns_peers@,
                peer,
            )->Some_0.non_dns_streak + 1 >= NON_DNS_STREAK_THRESHOLD) ==> lookup_peer(
                final(self).dns_peers@,
                peer,
            ) is None,
            forall|q: DualStackAddr|
                q != peer ==> #[trigger] lookup_peer(final(self).dns_peers@, q) == lookup_peer(
                    old(self).dns_peers@,
                    q,
                ),
            final(self).sessions@ == old(self).sessions@,
            final(self).last_cleanup == old(self).last_cleanup,
    {
        let mut i: usize = 0;
        while i < self.dns_peers.len()
            invariant
                i <= self.dns_peers@.len(),
                self.dns_peers@ == old(self).dns_peers@,
                self.sessions@ == old(self).sessions@,
                self.last_cleanup == old(self).last_cleanup,
                old(self).wf(),
                forall|j: int| 0 <= j < i ==> (#[trigger] self.dns_peers@[j]).0 != peer,
            decreases self.dns_peers@.len() - i,
        {
            let (k, st) = self.dns_peers[i];
            if k.ip == peer.ip && k.port == peer.port {
                proof {
                    assert(k == peer);
                    lemma_lookup_peer_first(self.dns_peers@, i as int, peer);
                }
                let streak: usize = if st.non_dns_streak >= NON_DNS_STREAK_THRESHOLD {
                    NON_DNS_STREAK_THRESHOLD
                } else {
                    st.non_dns_streak + 1
                };
                if streak < NON_DNS_STREAK_THRESHOLD {
                    let updated = DnsPeerState { last_seen: st.last_seen, non_dns_streak: streak };
                    self.dns_peers.set(i, (peer, updated));
                    proof {
                        lemma_lookup_update(
                            old(self).dns_peers@,
                            self.dns_peers@,
                            i as int,
                            peer,
                            updated,
                        );
                        lemma_distinct_update_peers(old(self).dns_peers@, i as int, peer, updated);
                    }
                    return false;
                }
                proof {
                    assert forall|j: int|
                        i < j < self.dns_peers@.len() implies (
                    #[trigger] self.dns_peers@[j]).0 != peer by {
                        assert(self.dns_peers@[i as int].0 != self.dns_peers@[j].0);
                    }
                }
                self.dns_peers.remove(i);
                proof {
                    lemma_lookup_remove(old(self).dns_peers@, i as int, peer);
                    lemma_distinct_remove_peers(old(self).dns_peers@, i as int);
                }
                return true;
            }
            proof {
                assert(self.dns_peers@[i as int].0 != peer);
            }
            i = i + 1;
        }
        proof {
            lemma_lookup_peer_absent(self.dns_peers@, peer);
        }
        true
    }

    /// Renews or opens the session bookkeeping for a peer; the runtime
    /// opens the socket when this reports a new session.
    pub fn touch_session(&mut self, peer: DualStackAddr, now: u64) -> (created: bool)
        requires
            old(self).wf(),
        ensures
            final(self).wf(),
            lookup_session(final(self).sessions@, peer) == Some(now),
            created <==> lookup_session(old(self).sessions@, peer) is None,
            final(self).dns_peers@ == old(self).dns_peers@,
            final(self).last_cleanup == old(self).last_cleanup,
    {
        let mut i: usize = 0;
        while i < self.sessions.len()
            invariant
                i <= self.sessions@.len(),
                self.sessions@ == old(self).sessions@,
                self.dns_peers@ == old(self).dns_peers@,
                self.last_cleanup == old(self).last_cleanup,
                old(self).wf(),
                forall|j: int| 0 <= j < i ==> (#[trigger] self.sessions@[j]).0 != peer,
            decreases self.sessions@.len() - i,
        {
            let (k, _) = self.sessions[i];
            if k.ip == peer.ip && k.port == peer.port {
                proof {
                    assert(k == peer);
                    lemma_lookup_session_first(self.sessions@, i as int, peer);
                }
                self.sessions.set(i, (peer, now));
                proof {
                    lemma_lookup_session_update(
                        old(self).sessions@,
                        self.sessions@,
                        i as int,
                        peer,
                        now,
                    );
                    lemma_distinct_update_sessions(old(self).sessions@, i as int, peer, now);
                }
                return false;
            }
            proof {
                assert(self.sessions@[i as int].0 != peer);
            }
            i = i + 1;
        }
        proof {
            lemma_lookup_session_absent(self.sessions@, peer);
        }
        self.sessions.push((peer, now));
        proof {
            lemma_lookup_session_append(old(self).sessions@, peer, now);
            assert forall|a: int, b: int|
                0 <= a < b < self.sessions@.len() implies (#[trigger] self.sessions@[a]).0 != (
            #[trigger] self.sessions@[b]).0 by {
                if b < self.sessions@.len() - 1 {
                    assert(old(self).sessions@[a].0 != old(self).sessions@[b].0);
                } else {
                    assert(old(self).sessions@[a].0 != peer);
                }
            }
        }
        true
    }

    /// The periodic sweep: at most once per interval, classifications and
    /// sessions idle beyond the timeout leave; the expired session peers
    /// come back so the runtime can close their sockets.
    pub fn cleanup(&mut self, now: u64) -> (expired: Vec<DualStackAddr>)
        requires
            old(self).wf(),
        ensures
            final(self).wf(),
            sat_sub(now, old(self).last_cleanup) < FALLBACK_CLEANUP_INTERVAL_US ==> (*final(self)
                == *old(self) && expired@.len() == 0),
            sat_sub(now, old(self).last_cleanup) >= FALLBACK_CLEANUP_INTERVAL_US ==> (final(self).dns_peers@ == old(self).dns_peers@.filter(
                |e: (DualStackAddr, DnsPeerState)| sat_sub(now, e.1.last_seen)
                    <= FALLBACK_IDLE_TIMEOUT_US,
            ) && final(self).sessions@ == old(self).sessions@.filter(
                |e: (DualStackAddr, u64)| sat_sub(now, e.1) <= FALLBACK_IDLE_TIMEOUT_US,
            ) && expired@ == old(self).sessions@.filter(
                |e: (DualStackAddr, u64)| sat_sub(now, e.1) > FALLBACK_IDLE_TIMEOUT_US,
            ).map_values(|e: (DualStackAddr, u64)| e.0) && final(self).last_cleanup == now),
    {
        let since: u64 = if now >= self.last_cleanup {
            now - self.last_cleanup
        } else {
            0
        };
        if since < FALLBACK_CLEANUP_INTERVAL_US {
            return Vec::new();
        }
        self.last_cleanup = now;
        let ghost live_peer: spec_fn((DualStackAddr, DnsPeerState)) -> bool = |e: (
            DualStackAddr,
            DnsPeerState,
        )| sat_sub(now, e.1.last_seen) <= FALLBACK_IDLE_TIMEOUT_US;
        let mut kept_peers: Vec<(DualStackAddr, DnsPeerState)> = Vec::new();
        let mut i: usize = 0;
        proof {
            reveal(Seq::filter);
            assert(self.dns_peers@.take(0) =~= Seq::<(DualStackAddr, DnsPeerState)>::empty());
            assert(kept_peers@ =~= self.dns_peers@.take(0).filter(live_peer));
        }
        while i < self.dns_peers.len()
            invariant
                i <= self.dns_peers@.len(),
                kept_peers@ == self.dns_peers@.take(i as int).filter(live_peer),
                live_peer == (|e: (DualStackAddr, DnsPeerState)| sat_sub(now, e.1.last_seen)
                    <= FALLBACK_IDLE_TIMEOUT_US),
                peer_keys_distinct(self.dns_peers@),
                peer_keys_distinct(kept_peers@),
                forall|a: int|
                    0 <= a < kept_peers@.len() ==> exists|j: int|
                        0 <= j < i && #[trigger] kept_peers@[a] == self.dns_peers@[j],
            decreases self.dns_peers@.len() - i,
        {
            let e = self.dns_peers[i];
            proof {
                reveal(Seq::filter);
                assert(self.dns_peers@.take(i + 1).drop_last() =~= self.dns_peers@.take(i as int));
                assert(self.dns_peers@.take(i + 1).last() == self.dns_peers@[i as int]);
            }
            let age: u64 = if now >= e.1.last_seen {
                now - e.1.last_seen
            } else {
                0
            };
            if age <= FALLBACK_IDLE_TIMEOUT_US {
                let ghost kept0 = kept_peers@;
                kept_peers.push(e);
                proof {
                    assert(kept_peers@[kept_peers@.len() - 1] == self.dns_peers@[i as int]);
                    assert forall|a: int, b: int|
                        0 <= a < b < kept_peers@.len() implies (#[trigger] kept_peers@[a]).0 != (
                    #[trigger] kept_peers@[b]).0 by {
                        if b == kept_peers@.len() - 1 {
                            let j = choose|j: int|
                                0 <= j < i && #[trigger] kept0[a] == self.dns_peers@[j];
                            assert(self.dns_peers@[j].0 != self.dns_peers@[i as int].0);
                        }
                    }
                }
            }
            i = i + 1;
        }
        proof {
            assert(self.dns_peers@.take(self.dns_peers@.len() as int) =~= self.dns_peers@);
        }
        self.dns_peers = kept_peers;
        let ghost live_sess: spec_fn((DualStackAddr, u64)) -> bool = |e: (DualStackAddr, u64)|
            sat_sub(now, e.1) <= FALLBACK_IDLE_TIMEOUT_US;
        let ghost dead_sess: spec_fn((DualStackAddr, u64)) -> bool = |e: (DualStackAddr, u64)|
            sat_sub(now, e.1) > FALLBACK_IDLE_TIMEOUT_US;
        let mut kept_sessions: Vec<(DualStackAddr, u64)> = Vec::new();
        let mut expired: Vec<DualStackAddr> = Vec::new();
        let mut j: usize = 0;
        proof {
            reveal(Seq::filter);
            assert(self.sessions@.take(0) =~= Seq::<(DualStackAddr, u64)>::empty());
            assert(kept_sessions@ =~= self.sessions@.take(0).filter(live_sess));
            assert(expired@ =~= self.sessions@.take(0).filter(dead_sess).map_values(
                |e: (DualStackAddr, u64)| e.0,
            ));
        }
        while j < self.sessions.len()
            invariant
                j <= self.sessions@.len(),
                session_keys_distinct(self.sessions@),
                session_keys_distinct(kept_sessions@),
                forall|a: int|
                    0 <= a < kept_sessions@.len() ==> exists|jj: int|
                        0 <= jj < j && #[trigger] kept_sessions@[a] == self.sessions@[jj],
                kept_sessions@ == self.sessions@.take(j as int).filter(live_sess),
                expired@ == self.sessions@.take(j as int).filter(dead_sess).map_values(
                    |e: (DualStackAddr, u64)| e.0,
                ),
                live_sess == (|e: (DualStackAddr, u64)| sat_sub(now, e.1)
                    <= FALLBACK_IDLE_TIMEOUT_US),
                dead_sess == (|e: (DualStackAddr, u64)| sat_sub(now, e.1)
                    > FALLBACK_IDLE_TIMEOUT_US),
            decreases self.sessions@.len() - j,
        {
            let e = self.sessions[j];
            proof {
                reveal(Seq::filter);
                assert(self.sessions@.take(j + 1).drop_last() =~= self.sessions@.take(j as int));
                assert(self.sessions@.take(j + 1).last() == self.sessions@[j as int]);
            }
            let age: u64 = if now >= e.1 {
                now - e.1
            } else {
                0
            };
            if age <= FALLBACK_IDLE_TIMEOUT_US {
                let ghost kept0 = kept_sessions@;
                kept_sessions.push(e);
                proof {
                    assert(kept_sessions@[kept_sessions@.len() - 1] == self.sessions@[j as int]);
                    assert forall|a: int, b: int|
                        0 <= a < b < kept_sessions@.len() implies (
                    #[trigger] kept_sessions@[a]).0 != (#[trigger] kept_sessions@[b]).0 by {
                        if b == kept_sessions@.len() - 1 {
                            let jj = choose|jj: int|
                                0 <= jj < j && #[trigger] kept0[a] == self.sessions@[jj];
                            assert(self.sessions@[jj].0 != self.sessions@[j as int].0);
                        }
                    }
                }
            } else {
                expired.push(e.0);
                proof {
                    assert(expired@ =~= self.sessions@.take(j + 1).filter(dead_sess).map_values(
                        |e: (DualStackAddr, u64)| e.0,
                    ));
                }
            }
            j = j + 1;
        }
        proof {
            assert(self.sessions@.take(self.sessions@.len() as int) =~= self.sessions@);
        }
        self.sessions = kept_sessions;
        expired
    }
}

/// Updating the entry at the key's own slot moves its lookup and no other.
proof fn lemma_lookup_update(
    olds: Seq<(DualStackAddr, DnsPeerState)>,
    news: Seq<(DualStackAddr, DnsPeerState)>,
    i: int,
    peer: DualStackAddr,
    v: DnsPeerState,
)
    requires
        0 <= i < olds.len(),
        news == olds.update(i, (peer, v)),
        olds[i].0 == peer,
        forall|j: int| 0 <= j < i ==> (#[trigger] olds[j]).0 != peer,
    ensures
        lookup_peer(news, peer) == Some(v),
        forall|q: DualStackAddr|
            q != peer ==> #[trigger] lookup_peer(news, q) == lookup_peer(olds, q),
    decreases i,
{
    if i == 0 {
        assert(news[0] == (peer, v));
        assert(news.drop_first() =~= olds.drop_first());
        assert forall|q: DualStackAddr| q != peer implies #[trigger] lookup_peer(news, q)
            == lookup_peer(olds, q) by {
            assert(olds[0].0 == peer);
            assert(news[0].0 == peer);
            assert(lookup_peer(news, q) == lookup_peer(news.drop_first(), q));
            assert(lookup_peer(olds, q) == lookup_peer(olds.drop_first(), q));
        }
    } else {
        assert(news[0] == olds[0]);
        assert(news.drop_first() =~= olds.drop_first().update(i - 1, (peer, v)));
        lemma_lookup_update(olds.drop_first(), news.drop_first(), i - 1, peer, v);
        assert forall|q: DualStackAddr| q != peer implies #[trigger] lookup_peer(news, q)
            == lookup_peer(olds, q) by {
            if news[0].0 != q {
                assert(lookup_peer(news, q) == lookup_peer(news.drop_first(), q));
                assert(lookup_peer(olds, q) == lookup_peer(olds.drop_first(), q));
                assert(lookup_peer(news.drop_first(), q) == lookup_peer(olds.drop_first(), q));
            }
        }
    }
}

/// Removing the key's own slot clears its lookup and moves no other.
proof fn lemma_lookup_remove(
    olds: Seq<(DualStackAddr, DnsPeerState)>,
    i: int,
    peer: DualStackAddr,
)
    requires
        0 <= i < olds.len(),
        olds[i].0 == peer,
        forall|j: int| 0 <= j < i ==> (#[trigger] olds[j]).0 != peer,
        forall|j: int| i < j < olds.len() ==> (#[trigger] olds[j]).0 != peer,
    ensures
        lookup_peer(olds.remove(i), peer) is None,
        forall|q: DualStackAddr|
            q != peer ==> #[trigger] lookup_peer(olds.remove(i), q) == lookup_peer(olds, q),
    decreases i,
{
    if i == 0 {
        assert(olds.remove(0) =~= olds.drop_first());
        lemma_lookup_peer_absent_tail(olds.drop_first(), peer, olds, 1);
        assert forall|q: DualStackAddr| q != peer implies #[trigger] lookup_peer(
            olds.remove(0),
            q,
        ) == lookup_peer(olds, q) by {
            assert(olds[0].0 == peer);
            assert(lookup_peer(olds, q) == lookup_peer(olds.drop_first(), q));
        }
    } else {
        assert(olds.remove(i)[0] == olds[0]);
        assert(olds.remove(i).drop_first() =~= olds.drop_first().remove(i - 1));
        assert(forall|j: int|
            0 <= j < i - 1 ==> (#[trigger] olds.drop_first()[j]).0 != peer);
        assert(forall|j: int|
            i - 1 < j < olds.drop_first().len() ==> (#[trigger] olds.drop_first()[j]).0 != peer);
        lemma_lookup_remove(olds.drop_first(), i - 1, peer);
        assert forall|q: DualStackAddr| q != peer implies #[trigger] lookup_peer(
            olds.remove(i),
            q,
        ) == lookup_peer(olds, q) by {
            if olds[0].0 != q {
                assert(lookup_peer(olds.remove(i), q) == lookup_peer(
                    olds.remove(i).drop_first(),
                    q,
                ));
                assert(lookup_peer(olds, q) == lookup_peer(olds.drop_first(), q));
            }
        }
        assert(lookup_peer(olds.remove(i), peer) is None) by {
            assert(olds.remove(i)[0].0 != peer);
            assert(lookup_peer(olds.remove(i), peer) == lookup_peer(
                olds.remove(i).drop_first(),
                peer,
            ));
        }
    }
}

/// A key found at its first slot is what lookup sees.
proof fn lemma_lookup_peer_first(s: Seq<(DualStackAddr, DnsPeerState)>, i: int, peer: DualStackAddr)
    requires
        0 <= i < s.len(),
        s[i].0 == peer,
        forall|j: int| 0 <= j < i ==> (#[trigger] s[j]).0 != peer,
    ensures
        lookup_peer(s, peer) == Some(s[i].1),
    decreases i,
{
    if i > 0 {
        lemma_lookup_peer_first(s.drop_first(), i - 1, peer);
    }
}

/// A key on no slot has no lookup.
proof fn lemma_lookup_peer_absent(s: Seq<(DualStackAddr, DnsPeerState)>, peer: DualStackAddr)
    requires
        forall|j: int| 0 <= j < s.len() ==> (#[trigger] s[j]).0 != peer,
    ensures
        lookup_peer(s, peer) is None,
    decreases s.len(),
{
    if s.len() > 0 {
        lemma_lookup_peer_absent(s.drop_first(), peer);
    }
}

/// A suffix free of the key keeps its lookup clear.
proof fn lemma_lookup_peer_absent_tail(
    s: Seq<(DualStackAddr, DnsPeerState)>,
    peer: DualStackAddr,
    whole: Seq<(DualStackAddr, DnsPeerState)>,
    off: int,
)
    requires
        0 <= off,
        s =~= whole.skip(off),
        off <= whole.len(),
        forall|j: int| off <= j < whole.len() ==> (#[trigger] whole[j]).0 != peer,
    ensures
        lookup_peer(s, peer) is None,
{
    assert(forall|j: int| 0 <= j < s.len() ==> (#[trigger] s[j]).0 != peer) by {
        assert(forall|j: int| 0 <= j < s.len() ==> s[j] == whole[off + j]);
    }
    lemma_lookup_peer_absent(s, peer);
}

/// Appending a new key's entry makes its lookup and moves no other.
proof fn lemma_lookup_append(
    olds: Seq<(DualStackAddr, DnsPeerState)>,
    peer: DualStackAddr,
    v: DnsPeerState,
)
    requires
        forall|j: int| 0 <= j < olds.len() ==> (#[trigger] olds[j]).0 != peer,
    ensures
        lookup_peer(olds.push((peer, v)), peer) == Some(v),
        forall|q: DualStackAddr|
            q != peer ==> #[trigger] lookup_peer(olds.push((peer, v)), q) == lookup_peer(olds, q),
    decreases olds.len(),
{
    let news = olds.push((peer, v));
    if olds.len() == 0 {
        assert(news[0] == (peer, v));
        assert(news.drop_first() =~= Seq::<(DualStackAddr, DnsPeerState)>::empty());
        assert forall|q: DualStackAddr| q != peer implies #[trigger] lookup_peer(news, q)
            == lookup_peer(olds, q) by {
            assert(lookup_peer(news, q) == lookup_peer(news.drop_first(), q));
        }
    } else {
        assert(news[0] == olds[0]);
        assert(news.drop_first() =~= olds.drop_first().push((peer, v)));
        lemma_lookup_append(olds.drop_first(), peer, v);
        assert forall|q: DualStackAddr| q != peer implies #[trigger] lookup_peer(news, q)
            == lookup_peer(olds, q) by {
            if news[0].0 != q {
                assert(lookup_peer(news, q) == lookup_peer(news.drop_first(), q));
                assert(lookup_peer(olds, q) == lookup_peer(olds.drop_first(), q));
            }
        }
    }
}

/// Removing the session at the key's own slot clears its lookup and moves
/// no other.
proof fn lemma_lookup_session_remove(olds: Seq<(DualStackAddr, u64)>, i: int, peer: DualStackAddr)
    requires
        0 <= i < olds.len(),
        olds[i].0 == peer,
        forall|j: int| 0 <= j < i ==> (#[trigger] olds[j]).0 != peer,
        forall|j: int| i < j < olds.len() ==> (#[trigger] olds[j]).0 != peer,
    ensures
        lookup_session(olds.remove(i), peer) is None,
        forall|q: DualStackAddr|
            q != peer ==> #[trigger] lookup_session(olds.remove(i), q) == lookup_session(olds, q),
    decreases i,
{
    if i == 0 {
        assert(olds.remove(0) =~= olds.drop_first());
        assert(forall|j: int|
            0 <= j < olds.drop_first().len() ==> (#[trigger] olds.drop_first()[j]).0 != peer) by {
            assert(forall|j: int| 0 <= j < olds.drop_first().len() ==> olds.drop_first()[j]
                == olds[j + 1]);
        }
        lemma_lookup_session_absent(olds.drop_first(), peer);
        assert forall|q: DualStackAddr| q != peer implies #[trigger] lookup_session(
            olds.remove(0),
            q,
        ) == lookup_session(olds, q) by {
            assert(olds[0].0 == peer);
            assert(lookup_session(olds, q) == lookup_session(olds.drop_first(), q));
        }
    } else {
        assert(olds.remove(i)[0] == olds[0]);
        assert(olds.remove(i).drop_first() =~= olds.drop_first().remove(i - 1));
        assert(forall|j: int|
            0 <= j < i - 1 ==> (#[trigger] olds.drop_first()[j]).0 != peer);
        assert(forall|j: int|
            i - 1 < j < olds.drop_first().len() ==> (#[trigger] olds.drop_first()[j]).0 != peer);
        lemma_lookup_session_remove(olds.drop_first(), i - 1, peer);
        assert forall|q: DualStackAddr| q != peer implies #[trigger] lookup_session(
            olds.remove(i),
            q,
        ) == lookup_session(olds, q) by {
            if olds[0].0 != q {
                assert(lookup_session(olds.remove(i), q) == lookup_session(
                    olds.remove(i).drop_first(),
                    q,
                ));
                assert(lookup_session(olds, q) == lookup_session(olds.drop_first(), q));
            }
        }
        assert(lookup_session(olds.remove(i), peer) is None) by {
            assert(olds.remove(i)[0].0 != peer);
            assert(lookup_session(olds.remove(i), peer) == lookup_session(
                olds.remove(i).drop_first(),
                peer,
            ));
        }
    }
}

/// A session key found at its first slot is what lookup sees.
proof fn lemma_lookup_session_first(s: Seq<(DualStackAddr, u64)>, i: int, peer: DualStackAddr)
    requires
        0 <= i < s.len(),
        s[i].0 == peer,
        forall|j: int| 0 <= j < i ==> (#[trigger] s[j]).0 != peer,
    ensures
        lookup_session(s, peer) == Some(s[i].1),
    decreases i,
{
    if i > 0 {
        lemma_lookup_session_first(s.drop_first(), i - 1, peer);
    }
}

/// A session key on no slot has no lookup.
proof fn lemma_lookup_session_absent(s: Seq<(DualStackAddr, u64)>, peer: DualStackAddr)
    requires
        forall|j: int| 0 <= j < s.len() ==> (#[trigger] s[j]).0 != peer,
    ensures
        lookup_session(s, peer) is None,
    decreases s.len(),
{
    if s.len() > 0 {
        lemma_lookup_session_absent(s.drop_first(), peer);
    }
}

/// Updating the session at the key's own slot moves its lookup.
proof fn lemma_lookup_session_update(
    olds: Seq<(DualStackAddr, u64)>,
    news: Seq<(DualStackAddr, u64)>,
    i: int,
    peer: DualStackAddr,
    v: u64,
)
    requires
        0 <= i < olds.len(),
        news == olds.update(i, (peer, v)),
        olds[i].0 == peer,
        forall|j: int| 0 <= j < i ==> (#[trigger] olds[j]).0 != peer,
    ensures
        lookup_session(news, peer) == Some(v),
    decreases i,
{
    if i == 0 {
        assert(news[0] == (peer, v));
    } else {
        assert(news[0] == olds[0]);
        assert(news.drop_first() =~= olds.drop_first().update(i - 1, (peer, v)));
        lemma_lookup_session_update(olds.drop_first(), news.drop_first(), i - 1, peer, v);
    }
}

/// Appending a new session makes its lookup.
proof fn lemma_lookup_session_append(olds: Seq<(DualStackAddr, u64)>, peer: DualStackAddr, v: u64)
    requires
        forall|j: int| 0 <= j < olds.len() ==> (#[trigger] olds[j]).0 != peer,
    ensures
        lookup_session(olds.push((peer, v)), peer) == Some(v),
    decreases olds.len(),
{
    if olds.len() == 0 {
        assert(olds.push((peer, v))[0] == (peer, v));
    } else {
        assert(olds.push((peer, v))[0] == olds[0]);
        assert(olds.push((peer, v)).drop_first() =~= olds.drop_first().push((peer, v)));
        lemma_lookup_session_append(olds.drop_first(), peer, v);
    }
}

/// Updating a slot in place with the same key keeps the keys distinct.
proof fn lemma_distinct_update_peers(
    olds: Seq<(DualStackAddr, DnsPeerState)>,
    i: int,
    peer: DualStackAddr,
    v: DnsPeerState,
)
    requires
        peer_keys_distinct(olds),
        0 <= i < olds.len(),
        olds[i].0 == peer,
    ensures
        peer_keys_distinct(olds.update(i, (peer, v))),
{
    let news = olds.update(i, (peer, v));
    assert forall|a: int, b: int| 0 <= a < b < news.len() implies (#[trigger] news[a]).0 != (
    #[trigger] news[b]).0 by {
        assert(olds[a].0 != olds[b].0);
    }
}

/// Removing a slot keeps the keys distinct.
proof fn lemma_distinct_remove_peers(olds: Seq<(DualStackAddr, DnsPeerState)>, i: int)
    requires
        peer_keys_distinct(olds),
        0 <= i < olds.len(),
    ensures
        peer_keys_distinct(olds.remove(i)),
{
    let news = olds.remove(i);
    assert forall|a: int, b: int| 0 <= a < b < news.len() implies (#[trigger] news[a]).0 != (
    #[trigger] news[b]).0 by {
        let a2 = if a < i {
            a
        } else {
            a + 1
        };
        let b2 = if b < i {
            b
        } else {
            b + 1
        };
        assert(news[a] == olds[a2]);
        assert(news[b] == olds[b2]);
        assert(olds[a2].0 != olds[b2].0);
    }
}

/// Updating a session slot in place with the same key keeps keys distinct.
proof fn lemma_distinct_update_sessions(
    olds: Seq<(DualStackAddr, u64)>,
    i: int,
    peer: DualStackAddr,
    v: u64,
)
    requires
        session_keys_distinct(olds),
        0 <= i < olds.len(),
        olds[i].0 == peer,
    ensures
        session_keys_distinct(olds.update(i, (peer, v))),
{
    let news = olds.update(i, (peer, v));
    assert forall|a: int, b: int| 0 <= a < b < news.len() implies (#[trigger] news[a]).0 != (
    #[trigger] news[b]).0 by {
        assert(olds[a].0 != olds[b].0);
    }
}

/// Removing a session slot keeps keys distinct.
proof fn lemma_distinct_remove_sessions(olds: Seq<(DualStackAddr, u64)>, i: int)
    requires
        session_keys_distinct(olds),
        0 <= i < olds.len(),
    ensures
        session_keys_distinct(olds.remove(i)),
{
    let news = olds.remove(i);
    assert forall|a: int, b: int| 0 <= a < b < news.len() implies (#[trigger] news[a]).0 != (
    #[trigger] news[b]).0 by {
        let a2 = if a < i {
            a
        } else {
            a + 1
        };
        let b2 = if b < i {
            b
        } else {
            b + 1
        };
        assert(news[a] == olds[a2]);
        assert(news[b] == olds[b2]);
        assert(olds[a2].0 != olds[b2].0);
    }
}

/// Where one inbound packet goes.
#[derive(Debug, Clone, Copy, PartialEq, Eq, Structural)]
pub enum PacketRoute {
    /// Decoded as DNS: answer it, whatever session the peer holds.
    AnswerDns,
    /// Not DNS, and the peer holds a live fallback session: proxy it.
    ForwardFallback,
    /// Not DNS and no live session: the demotion gate decides.
    GateNonDns,
}

/// Routes one inbound packet: anything that decodes as DNS is answered,
/// even from a peer holding a fallback session; only non-DNS bytes are
/// proxied outright or held behind the demotion gate.
pub fn route_inbound(decodes_as_dns: bool, session_active: bool) -> (r: PacketRoute)
    ensures
        decodes_as_dns ==> r == PacketRoute::AnswerDns,
        (!decodes_as_dns && session_active) ==> r == PacketRoute::ForwardFallback,
        (!decodes_as_dns && !session_active) ==> r == PacketRoute::GateNonDns,
{
    if decodes_as_dns {
        PacketRoute::AnswerDns
    } else if session_active {
        PacketRoute::ForwardFallback
    } else {
        PacketRoute::GateNonDns
    }
}

/// The classifier state of a peer after `k` consecutive non-DNS packets,
/// counted from a fresh DNS classification at time `t`: each held-back
/// packet grows the streak, and reaching the threshold removes the peer.
pub open spec fn non_dns_iter(t: u64, k: int) -> Option<DnsPeerState>
    decreases k,
{
    if k <= 0 {
        Some(DnsPeerState { last_seen: t, non_dns_streak: 0 })
    } else {
        match non_dns_iter(t, k - 1) {
            None => None,
            Some(s) => if s.non_dns_streak + 1 < NON_DNS_STREAK_THRESHOLD {
                Some(
                    DnsPeerState {
                        last_seen: s.last_seen,
                        non_dns_streak: (s.non_dns_streak + 1) as usize,
                    },
                )
            } else {
                None
            },
        }
    }
}

/// Whether the k-th consecutive non-DNS packet is forwarded, counting from
/// a fresh DNS classification.
pub open spec fn non_dns_forwarded(t: u64, k: int) -> bool {
    match non_dns_iter(t, k - 1) {
        None => true,
        Some(s) => s.non_dns_streak + 1 >= NON_DNS_STREAK_THRESHOLD,
    }
}

/// From a fresh DNS classification, the packets before the threshold stay
/// inside and the one at the threshold goes through: the k-th packet sees
/// a streak of k - 1, so exactly the sixteenth is forwarded.
pub proof fn lemma_fallback_gate(t: u64, k: int)
    requires
        1 <= k <= NON_DNS_STREAK_THRESHOLD,
    ensures
        non_dns_iter(t, k - 1) == Some(
            DnsPeerState { last_seen: t, non_dns_streak: (k - 1) as usize },
        ),
        non_dns_forwarded(t, k) <==> k == NON_DNS_STREAK_THRESHOLD,
    decreases k,
{
    if k > 1 {
        lemma_fallback_gate(t, k - 1);
    }
}

} // verus!
