//! The watchdog's decision core.
//!
//! Each tick the surrounding process lists the gateway's namespaces,
//! fetches a WireGuard dump per network, and hands the parsed observation
//! here together with the cached observation of the previous tick. This
//! module decides, peer by peer, which connection-lifecycle events to
//! emit, which traffic deltas to record, and what to cache for the next
//! tick.

use vstd::prelude::*;
use crate::bytes::{copy_bytes, has_prefix, bytes_eq, starts_with};
use crate::config::{netns_prefix, wgif_prefix};
use crate::keys::Pubkey;
use crate::kvmap::{kv_at, kv_contains, kv_unique, lemma_kv_at_index};
use crate::stats::{NetworkStats, PeerStats};
use crate::traffic::by_text;
use crate::{GatewayEvent, GatewayPeerConnectedEvent, GatewayPeerDisconnectedEvent,
    GatewayPeerEndpointEvent};

verus! {

/// Least delta sum worth a traffic record. Persistent keepalives make some
/// traffic at all times; below this bound nothing is recorded, and the
/// bytes still accumulate in the counters, so no information is lost.
pub const TRAFFIC_MINIMUM: usize = 1024;

/// Seconds after which a peer without a fresh handshake counts as
/// disconnected.
pub const WIREGUARD_HANDSHAKE_TIMEOUT: u64 = 3 * 60;

/// A handshake timestamp is fresh at `now`: present, not in the future,
/// and no older than the timeout.
pub open spec fn handshake_fresh(h: Option<u64>, now: u64) -> bool {
    h matches Some(t) && t <= now && now - t <= WIREGUARD_HANDSHAKE_TIMEOUT
}

/// The cache entry a tick leaves behind: the observation with its
/// handshake cleared unless fresh.
pub open spec fn cache_after(peer: PeerStats, now: u64) -> PeerStats {
    PeerStats {
        latest_handshake: if handshake_fresh(peer.latest_handshake, now) {
            peer.latest_handshake
        } else {
            Option::None
        },
        ..peer
    }
}

/// The cached observation said the peer was connected.
pub open spec fn was_connected(prev: Option<PeerStats>) -> bool {
    prev matches Some(q) && q.latest_handshake is Some
}

/// A tick emits a traffic record: there was a previous observation, no
/// counter went backwards, and the byte delta reaches the minimum.
pub open spec fn emits_record(prev: Option<PeerStats>, peer: PeerStats) -> bool {
    prev matches Some(q) && q.transfer_rx <= peer.transfer_rx && q.transfer_tx
        <= peer.transfer_tx && (peer.transfer_rx - q.transfer_rx) + (peer.transfer_tx
        - q.transfer_tx) >= TRAFFIC_MINIMUM
}

/// The textual view of an optional endpoint.
pub open spec fn endpoint_view(e: Option<Vec<u8>>) -> Option<Seq<u8>> {
    match e {
        Option::Some(v) => Option::Some(v@),
        Option::None => Option::None,
    }
}

/// The observed endpoint moved to a new, present value.
pub open spec fn endpoint_changed(prev: Option<PeerStats>, peer: PeerStats) -> bool {
    prev matches Some(q) && endpoint_view(peer.endpoint) != endpoint_view(q.endpoint)
        && peer.endpoint is Some
}

/// An optional borrowed observation, by value.
pub open spec fn opt_deref(p: Option<&PeerStats>) -> Option<PeerStats> {
    match p {
        Option::Some(q) => Option::Some(*q),
        Option::None => Option::None,
    }
}

/// One traffic record: deltas since the previous tick plus the raw
/// counters they were computed from.
#[derive(Clone, Debug)]
pub struct TrafficRecord {
    /// The network's public key.
    pub network: Pubkey,
    /// The peer's public key.
    pub device: Pubkey,
    /// Sample time, seconds since the epoch.
    pub time: u64,
    /// Received bytes since the previous tick.
    pub rx: usize,
    /// Sent bytes since the previous tick.
    pub tx: usize,
    /// The raw received-bytes counter at this tick.
    pub rx_raw: usize,
    /// The raw sent-bytes counter at this tick.
    pub tx_raw: usize,
}

/// What one peer's tick produced.
#[derive(Clone, Debug)]
pub struct PeerTick {
    /// Lifecycle events, endpoint change first.
    pub events: Vec<GatewayEvent>,
    /// The traffic record, if the delta reached the minimum.
    pub record: Option<TrafficRecord>,
    /// The cache entry for the next tick.
    pub entry: PeerStats,
}

/// Decide one peer's events, record and next cache entry from the cached
/// and the current observation.
pub fn watchdog_peer(network: &Pubkey, prev: Option<&PeerStats>, peer: PeerStats, now: u64) -> (r:
    PeerTick)
    requires
        peer.transfer_rx + peer.transfer_tx <= usize::MAX,
        handshake_fresh(peer.latest_handshake, now) && !was_connected(opt_deref(prev))
            ==> peer.endpoint is Some,
    ensures
        r.entry == cache_after(peer, now),
        r.record is Some <==> emits_record(opt_deref(prev), peer),
        r.record matches Some(rec) ==> (opt_deref(prev) matches Some(q) && rec.network.text@
            == network.text@ && rec.device.text@ == peer.public_key.text@ && rec.time == now
            && rec.rx == peer.transfer_rx - q.transfer_rx && rec.tx == peer.transfer_tx
            - q.transfer_tx && rec.rx_raw == peer.transfer_rx && rec.tx_raw == peer.transfer_tx
            && rec.rx + rec.tx >= TRAFFIC_MINIMUM),
        r.events@.len() == (if endpoint_changed(opt_deref(prev), peer) {
            1int
        } else {
            0int
        }) + (if was_connected(opt_deref(prev)) != handshake_fresh(peer.latest_handshake, now) {
            1int
        } else {
            0int
        }),
        endpoint_changed(opt_deref(prev), peer) ==> (r.events@[0] matches GatewayEvent::Endpoint(e)
            && e.network.text@ == network.text@ && e.peer.text@ == peer.public_key.text@ && (
        peer.endpoint matches Some(v) && e.endpoint@ == v@)),
        !was_connected(opt_deref(prev)) && handshake_fresh(peer.latest_handshake, now) ==> (
        r.events@.last() matches GatewayEvent::PeerConnected(c) && c.network.text@
            == network.text@ && c.peer.text@ == peer.public_key.text@ && (peer.endpoint matches
        Some(v) && c.endpoint@ == v@)),
        was_connected(opt_deref(prev)) && !handshake_fresh(peer.latest_handshake, now) ==> (
        r.events@.last() matches GatewayEvent::PeerDisconnected(d) && d.network.text@
            == network.text@ && d.peer.text@ == peer.public_key.text@),
{
    let fresh: bool = match &peer.latest_handshake {
        Option::Some(t) => {
            if *t <= now {
                now - *t <= WIREGUARD_HANDSHAKE_TIMEOUT
            } else {
                false
            }
        },
        Option::None => false,
    };
    let mut events: Vec<GatewayEvent> = Vec::new();
    let mut record: Option<TrafficRecord> = Option::None;
    match prev {
        Option::Some(q) => {
            if q.transfer_rx <= peer.transfer_rx && q.transfer_tx <= peer.transfer_tx {
                let drx: usize = peer.transfer_rx - q.transfer_rx;
                let dtx: usize = peer.transfer_tx - q.transfer_tx;
                if drx + dtx >= TRAFFIC_MINIMUM {
                    record = Option::Some(
                        TrafficRecord {
                            network: Pubkey { text: copy_bytes(&network.text) },
                            device: Pubkey { text: copy_bytes(&peer.public_key.text) },
                            time: now,
                            rx: drx,
                            tx: dtx,
                            rx_raw: peer.transfer_rx,
                            tx_raw: peer.transfer_tx,
                        },
                    );
                }
            }
            let changed: bool = match (&peer.endpoint, &q.endpoint) {
                (Option::Some(a), Option::Some(b)) => !bytes_eq(a, b),
                (Option::Some(_), Option::None) => true,
                (Option::None, _) => false,
            };
            if changed {
                let ep: Vec<u8> = match &peer.endpoint {
                    Option::Some(v) => copy_bytes(v),
                    Option::None => {
                        proof {
                            assert(false);
                        }
                        Vec::new()
                    },
                };
                events.push(
                    GatewayEvent::Endpoint(
                        GatewayPeerEndpointEvent {
                            network: Pubkey { text: copy_bytes(&network.text) },
                            peer: Pubkey { text: copy_bytes(&peer.public_key.text) },
                            endpoint: ep,
                        },
                    ),
                );
            }
            let cb: bool = q.latest_handshake.is_some();
            if cb && !fresh {
                events.push(
                    GatewayEvent::PeerDisconnected(
                        GatewayPeerDisconnectedEvent {
                            network: Pubkey { text: copy_bytes(&network.text) },
                            peer: Pubkey { text: copy_bytes(&peer.public_key.text) },
                        },
                    ),
                );
            }
            if !cb && fresh {
                let ep: Vec<u8> = match &peer.endpoint {
                    Option::Some(v) => copy_bytes(v),
                    Option::None => {
                        proof {
                            assert(false);
                        }
                        Vec::new()
                    },
                };
                events.push(
                    GatewayEvent::PeerConnected(
                        GatewayPeerConnectedEvent {
                            network: Pubkey { text: copy_bytes(&network.text) },
                            peer: Pubkey { text: copy_bytes(&peer.public_key.text) },
                            endpoint: ep,
                        },
                    ),
                );
            }
        },
        Option::None => {
            if fresh {
                let ep: Vec<u8> = match &peer.endpoint {
                    Option::Some(v) => copy_bytes(v),
                    Option::None => {
                        proof {
                            assert(false);
                        }
                        Vec::new()
                    },
                };
                events.push(
                    GatewayEvent::PeerConnected(
                        GatewayPeerConnectedEvent {
                            network: Pubkey { text: copy_bytes(&network.text) },
                            peer: Pubkey { text: copy_bytes(&peer.public_key.text) },
                            endpoint: ep,
                        },
                    ),
                );
            }
        },
    }
    let entry = PeerStats {
        latest_handshake: if fresh {
            peer.latest_handshake
        } else {
            Option::None
        },
        ..peer
    };
    PeerTick { events, record, entry }
}

/// No record is ever emitted below the minimum byte delta.
///
/// For every cached and current observation: if a record is emitted at
/// all, the summed delta reaches `TRAFFIC_MINIMUM`; in particular a tick
/// whose delta sum lies below the minimum emits none.
pub proof fn lemma_traffic_threshold(prev: Option<PeerStats>, peer: PeerStats)
    ensures
        emits_record(prev, peer) ==> (prev matches Some(q) && (peer.transfer_rx - q.transfer_rx)
            + (peer.transfer_tx - q.transfer_tx) >= TRAFFIC_MINIMUM),
{
}

/// A decrease of either raw counter produces no traffic record.
pub proof fn lemma_no_record_on_decrease(prev: PeerStats, peer: PeerStats)
    requires
        prev.transfer_rx > peer.transfer_rx || prev.transfer_tx > peer.transfer_tx,
    ensures
        !emits_record(Option::Some(prev), peer),
{
}

/// Raw-counter monotonicity across ticks: when one tick caches an
/// observation and the next tick emits a record, the raw counters in that
/// record are no smaller than the first observation's; so the raw values
/// of consecutive records of one interface session never decrease.
pub proof fn lemma_traffic_raw_monotonic(p1: PeerStats, p2: PeerStats, now1: u64)
    requires
        emits_record(Option::Some(cache_after(p1, now1)), p2),
    ensures
        p1.transfer_rx <= p2.transfer_rx,
        p1.transfer_tx <= p2.transfer_tx,
{
}

/// The lifecycle events a sequence of connection states produces: one
/// entry per change of state, `true` for a connect, starting from
/// disconnected.
pub open spec fn lifecycle_events(states: Seq<bool>) -> Seq<bool>
    decreases states.len(),
{
    if states.len() == 0 {
        Seq::empty()
    } else {
        let prefix = lifecycle_events(states.drop_last());
        let before: bool = if states.len() == 1 {
            false
        } else {
            states[states.len() - 2]
        };
        if states.last() == before {
            prefix
        } else {
            prefix.push(states.last())
        }
    }
}

/// Events alternate: connects at even positions, disconnects at odd ones.
pub open spec fn alternates(evs: Seq<bool>) -> bool {
    forall|i: int| 0 <= i < evs.len() ==> evs[i] == (i % 2 == 0)
}

/// Connect/disconnect symmetry: whatever connection states a peer moves
/// through, the emitted lifecycle events strictly alternate, starting
/// with a connect. The per-tick functions emit a connect exactly when a
/// disconnected peer turns connected and a disconnect exactly when a
/// connected peer turns disconnected or is evicted, so their event stream
/// for one peer is `lifecycle_events` of its connection states.
pub proof fn lemma_connect_disconnect_alternate(states: Seq<bool>)
    ensures
        alternates(lifecycle_events(states)),
        lifecycle_events(states).len() % 2 == (if states.len() > 0 && states.last() {
            1int
        } else {
            0int
        }),
    decreases states.len(),
{
    if states.len() > 0 {
        lemma_connect_disconnect_alternate(states.drop_last());
        let prefix = lifecycle_events(states.drop_last());
        let before: bool = if states.len() == 1 {
            false
        } else {
            states[states.len() - 2]
        };
        if states.len() > 1 {
            assert(states.drop_last().last() == states[states.len() - 2]);
        }
        if states.last() != before {
            assert(lifecycle_events(states) == prefix.push(states.last()));
        }
    }
}

/// Within one tick, a peer key never gets both a connect and a
/// disconnect: a justified connect needs the key in the snapshot, fresh
/// and previously disconnected, while a justified disconnect needs it
/// previously connected or gone from the snapshot. Together with
/// `events_unique` this bounds a key's lifecycle events per tick to the
/// single state change, so the emitted stream per key is
/// `lifecycle_events` of its connection states and alternates strictly.
pub proof fn lemma_lifecycle_exclusive(
    ev1: GatewayEvent,
    ev2: GatewayEvent,
    ps: Seq<PeerStats>,
    cache: Seq<(Pubkey, PeerStats)>,
    netkey: Seq<u8>,
    now: u64,
)
    requires
        event_ok(ev1, ps, cache, netkey, now),
        event_ok(ev2, ps, cache, netkey, now),
        peer_keys_unique(ps),
    ensures
        connect_key(ev1) is Some ==> connect_key(ev1) != disconnect_key(ev2),
{
    match (ev1, ev2) {
        (GatewayEvent::PeerConnected(cc), GatewayEvent::PeerDisconnected(dd)) => {
            if cc.peer.text@ == dd.peer.text@ {
                let k = cc.peer.text@;
                let i1 = choose|i1: int|
                    0 <= i1 < ps.len() && (#[trigger] ps[i1]).public_key.text@ == k
                        && !was_connected(cache_lookup(cache, ps[i1].public_key.text@))
                        && handshake_fresh(ps[i1].latest_handshake, now);
                if in_snapshot(ps, k) {
                    if exists|i2: int|
                        0 <= i2 < ps.len() && (#[trigger] ps[i2]).public_key.text@ == k
                            && was_connected(cache_lookup(cache, ps[i2].public_key.text@))
                            && !handshake_fresh(ps[i2].latest_handshake, now) {
                        let i2 = choose|i2: int|
                            0 <= i2 < ps.len() && (#[trigger] ps[i2]).public_key.text@ == k
                                && was_connected(cache_lookup(cache, ps[i2].public_key.text@))
                                && !handshake_fresh(ps[i2].latest_handshake, now);
                        if i1 < i2 {
                            assert(ps[i1].public_key.text@ != ps[i2].public_key.text@);
                        } else if i2 < i1 {
                            assert(ps[i2].public_key.text@ != ps[i1].public_key.text@);
                        }
                    }
                } else {
                    assert(in_snapshot(ps, k)) by {
                        assert(ps[i1].public_key.text@ == k);
                    }
                }
            }
        },
        _ => {},
    }
}

/// The WireGuard interface name observed inside a gateway namespace: `wg`
/// followed by what comes after the reserved prefix. Absent when the
/// namespace name does not carry the prefix.
pub fn wgif_for_netns(name: &Vec<u8>) -> (r: Option<Vec<u8>>)
    ensures
        r is Some <==> has_prefix(name@, netns_prefix()),
        r matches Some(v) ==> v@ == wgif_prefix() + name@.skip(netns_prefix().len() as int),
{
    let prefix = crate::config::netns_prefix_bytes();
    if !starts_with(name, &prefix) {
        return Option::None;
    }
    let mut v: Vec<u8> = Vec::new();
    v.push(119);
    v.push(103);
    proof {
        assert(v@ =~= wgif_prefix());
    }
    let n: usize = name.len();
    let mut i: usize = 8;
    while i < n
        invariant
            n == name@.len(),
            8 <= i <= n,
            v@ =~= wgif_prefix() + name@.subrange(8, i as int),
        decreases n - i,
    {
        v.push(name[i]);
        proof {
            assert(name@.subrange(8, i + 1) =~= name@.subrange(8, i as int).push(
                name@[i as int],
            ));
            assert(wgif_prefix() + name@.subrange(8, i + 1) =~= (wgif_prefix() + name@.subrange(
                8,
                i as int,
            )).push(name@[i as int]));
        }
        i = i + 1;
    }
    proof {
        assert(name@.skip(8) =~= name@.subrange(8, n as int));
    }
    Option::Some(v)
}

/// The cached observation for a key, if any.
pub open spec fn cache_lookup(cache: Seq<(Pubkey, PeerStats)>, k: Seq<u8>) -> Option<PeerStats> {
    if kv_contains(by_text(cache), k) {
        Option::Some(kv_at(by_text(cache), k))
    } else {
        Option::None
    }
}

/// Peer observations carry pairwise-distinct public keys.
pub open spec fn peer_keys_unique(ps: Seq<PeerStats>) -> bool {
    forall|i: int, j: int|
        0 <= i < j < ps.len() ==> ps[i].public_key.text@ != ps[j].public_key.text@
}

/// A key occurs in the snapshot.
pub open spec fn in_snapshot(ps: Seq<PeerStats>, k: Seq<u8>) -> bool {
    exists|i: int| 0 <= i < ps.len() && ps[i].public_key.text@ == k
}

/// An emitted event is justified by the snapshot and the cache.
pub open spec fn event_ok(
    ev: GatewayEvent,
    ps: Seq<PeerStats>,
    cache: Seq<(Pubkey, PeerStats)>,
    netkey: Seq<u8>,
    now: u64,
) -> bool {
    match ev {
        GatewayEvent::PeerConnected(c) => c.network.text@ == netkey && (exists|i: int|
            0 <= i < ps.len() && (#[trigger] ps[i]).public_key.text@ == c.peer.text@
                && !was_connected(cache_lookup(cache, ps[i].public_key.text@)) && handshake_fresh(
                ps[i].latest_handshake,
                now,
            )),
        GatewayEvent::PeerDisconnected(d) => d.network.text@ == netkey && ((exists|i: int|
            0 <= i < ps.len() && (#[trigger] ps[i]).public_key.text@ == d.peer.text@
                && was_connected(cache_lookup(cache, ps[i].public_key.text@))
                && !handshake_fresh(ps[i].latest_handshake, now)) || (was_connected(
            cache_lookup(cache, d.peer.text@),
        ) && !in_snapshot(ps, d.peer.text@))),
        GatewayEvent::Endpoint(e) => e.network.text@ == netkey && (exists|i: int|
            0 <= i < ps.len() && (#[trigger] ps[i]).public_key.text@ == e.peer.text@
                && endpoint_changed(cache_lookup(cache, ps[i].public_key.text@), ps[i])),
    }
}

/// Some connect event for this key is present.
pub open spec fn connect_reported(events: Seq<GatewayEvent>, k: Seq<u8>) -> bool {
    exists|j: int|
        0 <= j < events.len() && ((#[trigger] events[j]) matches GatewayEvent::PeerConnected(c)
            && c.peer.text@ == k)
}

/// Some disconnect event for this key is present.
pub open spec fn disconnect_reported(events: Seq<GatewayEvent>, k: Seq<u8>) -> bool {
    exists|j: int|
        0 <= j < events.len() && ((#[trigger] events[j]) matches GatewayEvent::PeerDisconnected(
        d) && d.peer.text@ == k)
}

/// Some endpoint event for this key is present.
pub open spec fn endpoint_reported(events: Seq<GatewayEvent>, k: Seq<u8>) -> bool {
    exists|j: int|
        0 <= j < events.len() && ((#[trigger] events[j]) matches GatewayEvent::Endpoint(e)
            && e.peer.text@ == k)
}

/// The peer key of a connect event.
pub open spec fn connect_key(ev: GatewayEvent) -> Option<Seq<u8>> {
    match ev {
        GatewayEvent::PeerConnected(c) => Option::Some(c.peer.text@),
        _ => Option::None,
    }
}

/// The peer key of a disconnect event.
pub open spec fn disconnect_key(ev: GatewayEvent) -> Option<Seq<u8>> {
    match ev {
        GatewayEvent::PeerDisconnected(d) => Option::Some(d.peer.text@),
        _ => Option::None,
    }
}

/// The peer key of an endpoint event.
pub open spec fn endpoint_key(ev: GatewayEvent) -> Option<Seq<u8>> {
    match ev {
        GatewayEvent::Endpoint(e) => Option::Some(e.peer.text@),
        _ => Option::None,
    }
}

/// No peer key gets two events of one kind: at most one connect, one
/// disconnect and one endpoint change per key.
pub open spec fn events_unique(events: Seq<GatewayEvent>) -> bool {
    &&& (forall|j1: int, j2: int|
        0 <= j1 < j2 < events.len() && (#[trigger] connect_key(events[j1])) is Some
            ==> connect_key(events[j1]) != #[trigger] connect_key(events[j2]))
    &&& (forall|j1: int, j2: int|
        0 <= j1 < j2 < events.len() && (#[trigger] disconnect_key(events[j1])) is Some
            ==> disconnect_key(events[j1]) != #[trigger] disconnect_key(events[j2]))
    &&& (forall|j1: int, j2: int|
        0 <= j1 < j2 < events.len() && (#[trigger] endpoint_key(events[j1])) is Some
            ==> endpoint_key(events[j1]) != #[trigger] endpoint_key(events[j2]))
}

/// No peer key gets two records.
pub open spec fn records_unique(records: Seq<TrafficRecord>) -> bool {
    forall|j1: int, j2: int|
        0 <= j1 < j2 < records.len() ==> (#[trigger] records[j1]).device.text@ != (
        #[trigger] records[j2]).device.text@
}

/// An emitted record is justified by the snapshot and the cache.
pub open spec fn record_ok(
    rec: TrafficRecord,
    ps: Seq<PeerStats>,
    cache: Seq<(Pubkey, PeerStats)>,
    netkey: Seq<u8>,
    now: u64,
) -> bool {
    &&& rec.network.text@ == netkey
    &&& rec.time == now
    &&& rec.rx + rec.tx >= TRAFFIC_MINIMUM
    &&& (exists|i: int|
        0 <= i < ps.len() && (#[trigger] ps[i]).public_key.text@ == rec.device.text@
            && emits_record(cache_lookup(cache, ps[i].public_key.text@), ps[i]) && (cache_lookup(
            cache,
            ps[i].public_key.text@,
        ) matches Some(q) && rec.rx == ps[i].transfer_rx - q.transfer_rx && rec.tx
            == ps[i].transfer_tx - q.transfer_tx && rec.rx_raw == ps[i].transfer_rx && rec.tx_raw
            == ps[i].transfer_tx))
}

/// Some record for this key is present.
pub open spec fn record_reported(records: Seq<TrafficRecord>, k: Seq<u8>) -> bool {
    exists|j: int| 0 <= j < records.len() && (#[trigger] records[j]).device.text@ == k
}

/// What one namespace's tick produced.
pub struct NetnsTick {
    /// Lifecycle events of all peers, snapshot order, evictions last.
    pub events: Vec<GatewayEvent>,
    /// Traffic records of peers whose delta reached the minimum.
    pub records: Vec<TrafficRecord>,
    /// The peer cache for the next tick: exactly the snapshot's peers.
    pub cache: Vec<(Pubkey, PeerStats)>,
}

/// Process one namespace's observation against its cached predecessor:
/// decide every peer's events and records, rebuild the cache from the
/// snapshot alone, and report a disconnect for every connected cached
/// peer that left the snapshot.
pub fn watchdog_netns(cache: &Vec<(Pubkey, PeerStats)>, stats: NetworkStats, now: u64) -> (r:
    NetnsTick)
    requires
        kv_unique(by_text(cache@)),
        peer_keys_unique(stats.peers@),
        forall|i: int|
            0 <= i < stats.peers@.len() ==> (#[trigger] stats.peers@[i]).transfer_rx
                + stats.peers@[i].transfer_tx <= usize::MAX,
        forall|i: int|
            0 <= i < stats.peers@.len() ==> ((handshake_fresh(
                (#[trigger] stats.peers@[i]).latest_handshake,
                now,
            ) && !was_connected(cache_lookup(cache@, stats.peers@[i].public_key.text@)))
                ==> stats.peers@[i].endpoint is Some),
    ensures
        kv_unique(by_text(r.cache@)),
        forall|k: Seq<u8>| kv_contains(by_text(r.cache@), k) <==> in_snapshot(stats.peers@, k),
        forall|i: int|
            0 <= i < stats.peers@.len() ==> kv_at(
                by_text(r.cache@),
                (#[trigger] stats.peers@[i]).public_key.text@,
            ) == cache_after(stats.peers@[i], now),
        records_unique(r.records@),
        events_unique(r.events@),
        forall|j: int|
            0 <= j < r.records@.len() ==> record_ok(
                #[trigger] r.records@[j],
                stats.peers@,
                cache@,
                stats.public_key.text@,
                now,
            ),
        forall|i: int|
            0 <= i < stats.peers@.len() && emits_record(
                cache_lookup(cache@, (#[trigger] stats.peers@[i]).public_key.text@),
                stats.peers@[i],
            ) ==> record_reported(r.records@, stats.peers@[i].public_key.text@),
        forall|j: int|
            0 <= j < r.events@.len() ==> event_ok(
                #[trigger] r.events@[j],
                stats.peers@,
                cache@,
                stats.public_key.text@,
                now,
            ),
        forall|i: int|
            0 <= i < stats.peers@.len() && !was_connected(
                cache_lookup(cache@, (#[trigger] stats.peers@[i]).public_key.text@),
            ) && handshake_fresh(stats.peers@[i].latest_handshake, now) ==> connect_reported(
                r.events@,
                stats.peers@[i].public_key.text@,
            ),
        forall|i: int|
            0 <= i < stats.peers@.len() && was_connected(
                cache_lookup(cache@, (#[trigger] stats.peers@[i]).public_key.text@),
            ) && !handshake_fresh(stats.peers@[i].latest_handshake, now) ==> disconnect_reported(
                r.events@,
                stats.peers@[i].public_key.text@,
            ),
        forall|i: int|
            0 <= i < stats.peers@.len() && endpoint_changed(
                cache_lookup(cache@, (#[trigger] stats.peers@[i]).public_key.text@),
                stats.peers@[i],
            ) ==> endpoint_reported(r.events@, stats.peers@[i].public_key.text@),
        forall|c: int|
            0 <= c < cache@.len() && (#[trigger] cache@[c]).1.latest_handshake is Some
                && !in_snapshot(stats.peers@, cache@[c].0.text@) ==> disconnect_reported(
                r.events@,
                cache@[c].0.text@,
            ),
{
    let netkey: Pubkey = stats.public_key;
    let ghost ps = stats.peers@;
    let mut rest: Vec<PeerStats> = stats.peers;
    let rest_len: usize = rest.len();
    let ghost n: nat = ps.len();
    proof {
        assert(n == rest_len as nat);
    }
    let mut events: Vec<GatewayEvent> = Vec::new();
    let mut records: Vec<TrafficRecord> = Vec::new();
    let mut newcache: Vec<(Pubkey, PeerStats)> = Vec::new();
    let mut i: usize = 0;
    while rest.len() > 0
        invariant
            n == ps.len(),
            i + rest@.len() == n,
            i <= n <= usize::MAX,
            ps =~= ps.take(i as int) + rest@,
            kv_unique(by_text(cache@)),
            peer_keys_unique(ps),
            forall|x: int|
                0 <= x < ps.len() ==> (#[trigger] ps[x]).transfer_rx + ps[x].transfer_tx
                    <= usize::MAX,
            forall|x: int|
                0 <= x < ps.len() ==> ((handshake_fresh(
                    (#[trigger] ps[x]).latest_handshake,
                    now,
                ) && !was_connected(cache_lookup(cache@, ps[x].public_key.text@))) ==> ps[x].endpoint
                    is Some),
            newcache@.len() == i,
            forall|x: int|
                0 <= x < i ==> (#[trigger] newcache@[x]).0.text@ == ps[x].public_key.text@,
            forall|x: int| 0 <= x < i ==> (#[trigger] newcache@[x]).1 == cache_after(ps[x], now),
            forall|j: int|
                0 <= j < records@.len() ==> record_ok(
                    #[trigger] records@[j],
                    ps,
                    cache@,
                    netkey.text@,
                    now,
                ),
            forall|x: int|
                0 <= x < i && emits_record(
                    cache_lookup(cache@, (#[trigger] ps[x]).public_key.text@),
                    ps[x],
                ) ==> record_reported(records@, ps[x].public_key.text@),
            forall|j: int|
                0 <= j < events@.len() ==> event_ok(
                    #[trigger] events@[j],
                    ps,
                    cache@,
                    netkey.text@,
                    now,
                ),
            forall|x: int|
                0 <= x < i && !was_connected(
                    cache_lookup(cache@, (#[trigger] ps[x]).public_key.text@),
                ) && handshake_fresh(ps[x].latest_handshake, now) ==> connect_reported(
                    events@,
                    ps[x].public_key.text@,
                ),
            forall|x: int|
                0 <= x < i && was_connected(
                    cache_lookup(cache@, (#[trigger] ps[x]).public_key.text@),
                ) && !handshake_fresh(ps[x].latest_handshake, now) ==> disconnect_reported(
                    events@,
                    ps[x].public_key.text@,
                ),
            forall|x: int|
                0 <= x < i && endpoint_changed(
                    cache_lookup(cache@, (#[trigger] ps[x]).public_key.text@),
                    ps[x],
                ) ==> endpoint_reported(events@, ps[x].public_key.text@),
            records_unique(records@),
            forall|j: int|
                0 <= j < records@.len() ==> in_snapshot(
                    ps.take(i as int),
                    (#[trigger] records@[j]).device.text@,
                ),
            events_unique(events@),
            forall|j: int|
                0 <= j < events@.len() && (#[trigger] connect_key(events@[j])) is Some
                    ==> in_snapshot(ps.take(i as int), connect_key(events@[j])->0),
            forall|j: int|
                0 <= j < events@.len() && (#[trigger] disconnect_key(events@[j])) is Some
                    ==> in_snapshot(ps.take(i as int), disconnect_key(events@[j])->0),
            forall|j: int|
                0 <= j < events@.len() && (#[trigger] endpoint_key(events@[j])) is Some
                    ==> in_snapshot(ps.take(i as int), endpoint_key(events@[j])->0),
        decreases rest@.len(),
    {
        let ghost rest0 = rest@;
        let peer: PeerStats = rest.remove(0);
        proof {
            assert((ps.take(i as int) + rest0)[i as int] == rest0[0]);
            assert(peer == ps[i as int]);
            assert(rest@ =~= rest0.skip(1));
            assert(ps.take(i + 1) =~= ps.take(i as int).push(peer));
            assert(ps.take(i as int) + rest0 =~= ps);
            assert(ps.take(i + 1) + rest@ =~= ps);
        }
        // look the peer up in the old cache
        let cn: usize = cache.len();
        let mut c: usize = 0;
        let mut found: Option<usize> = Option::None;
        while c < cn && found.is_none()
            invariant
                cn == cache@.len(),
                0 <= c <= cn,
                kv_unique(by_text(cache@)),
                found matches Some(w) ==> 0 <= w < cn && cache@[w as int].0.text@
                    == peer.public_key.text@,
                found is None ==> forall|y: int|
                    0 <= y < c ==> by_text(cache@)[y].0 != peer.public_key.text@,
            decreases cn - c, (if found is None {
                1int
            } else {
                0int
            }),
        {
            if bytes_eq(&cache[c].0.text, &peer.public_key.text) {
                found = Option::Some(c);
            } else {
                c = c + 1;
            }
        }
        let prev: Option<&PeerStats> = match found {
            Option::Some(w) => Option::Some(&cache[w].1),
            Option::None => Option::None,
        };
        proof {
            match found {
                Option::Some(w) => {
                    lemma_kv_at_index(by_text(cache@), w as int);
                    assert(cache_lookup(cache@, peer.public_key.text@) == Option::Some(
                        cache@[w as int].1,
                    ));
                },
                Option::None => {
                    assert(!kv_contains(by_text(cache@), peer.public_key.text@));
                    assert(cache_lookup(cache@, peer.public_key.text@) is None);
                },
            }
            assert(opt_deref(prev) == cache_lookup(cache@, peer.public_key.text@));
        }
        let ghost peer0 = peer;
        let ghost events0 = events@;
        let ghost records0 = records@;
        let tick = watchdog_peer(&netkey, prev, peer, now);
        let mut tick_events = tick.events;
        events.append(&mut tick_events);
        match tick.record {
            Option::Some(rec) => {
                records.push(rec);
            },
            Option::None => {},
        }
        let key = Pubkey { text: copy_bytes(&tick.entry.public_key.text) };
        newcache.push((key, tick.entry));
        proof {
            let kx = peer0.public_key.text@;
            let prevv = cache_lookup(cache@, kx);
            assert(cache_after(peer0, now).public_key.text@ == kx);
            // records
            if emits_record(prevv, peer0) {
                assert(records@.last().device.text@ == kx);
                assert(record_ok(records@.last(), ps, cache@, netkey.text@, now));
            }
            assert forall|j: int| 0 <= j < records@.len() implies record_ok(
                #[trigger] records@[j],
                ps,
                cache@,
                netkey.text@,
                now,
            ) by {
                if j < records0.len() {
                    assert(records@[j] == records0[j]);
                }
            }
            // events
            assert forall|j: int| 0 <= j < events@.len() implies event_ok(
                #[trigger] events@[j],
                ps,
                cache@,
                netkey.text@,
                now,
            ) by {
                if j < events0.len() {
                    assert(events@[j] == events0[j]);
                } else {
                    let t = tick.events@;
                    assert(events@[j] == t[j - events0.len()]);
                    if endpoint_changed(prevv, peer0) && j == events0.len() {
                        assert(event_ok(events@[j], ps, cache@, netkey.text@, now));
                    } else {
                        assert(events@[j] == t.last());
                    }
                }
            }
            assert forall|x: int|
                0 <= x < i + 1 && !was_connected(
                    cache_lookup(cache@, (#[trigger] ps[x]).public_key.text@),
                ) && handshake_fresh(ps[x].latest_handshake, now) implies connect_reported(
                events@,
                ps[x].public_key.text@,
            ) by {
                if x < i {
                    let j = choose|j: int|
                        0 <= j < events0.len() && ((#[trigger] events0[j]) matches
                            GatewayEvent::PeerConnected(cc) && cc.peer.text@
                            == ps[x].public_key.text@);
                    assert(events@[j] == events0[j]);
                } else {
                    let j = events@.len() - 1;
                    assert(events@[j] == tick.events@.last());
                }
            }
            assert forall|x: int|
                0 <= x < i + 1 && was_connected(
                    cache_lookup(cache@, (#[trigger] ps[x]).public_key.text@),
                ) && !handshake_fresh(ps[x].latest_handshake, now) implies disconnect_reported(
                events@,
                ps[x].public_key.text@,
            ) by {
                if x < i {
                    let j = choose|j: int|
                        0 <= j < events0.len() && ((#[trigger] events0[j]) matches
                            GatewayEvent::PeerDisconnected(dd) && dd.peer.text@
                            == ps[x].public_key.text@);
                    assert(events@[j] == events0[j]);
                } else {
                    let j = events@.len() - 1;
                    assert(events@[j] == tick.events@.last());
                }
            }
            assert forall|x: int|
                0 <= x < i + 1 && endpoint_changed(
                    cache_lookup(cache@, (#[trigger] ps[x]).public_key.text@),
                    ps[x],
                ) implies endpoint_reported(events@, ps[x].public_key.text@) by {
                if x < i {
                    let j = choose|j: int|
                        0 <= j < events0.len() && ((#[trigger] events0[j]) matches
                            GatewayEvent::Endpoint(ee) && ee.peer.text@
                            == ps[x].public_key.text@);
                    assert(events@[j] == events0[j]);
                } else {
                    let j = events0.len() as int;
                    assert(events@[j] == tick.events@[0]);
                }
            }
            assert forall|x: int|
                0 <= x < i + 1 && emits_record(
                    cache_lookup(cache@, (#[trigger] ps[x]).public_key.text@),
                    ps[x],
                ) implies record_reported(records@, ps[x].public_key.text@) by {
                if x < i {
                    let j = choose|j: int|
                        0 <= j < records0.len() && (#[trigger] records0[j]).device.text@
                            == ps[x].public_key.text@;
                    assert(records@[j] == records0[j]);
                } else {
                    assert(records@[records@.len() - 1].device.text@ == kx);
                }
            }
            // this peer's key is new to the processed prefix, so the fresh
            // items collide with nothing
            assert(!in_snapshot(ps.take(i as int), kx)) by {
                if in_snapshot(ps.take(i as int), kx) {
                    let x = choose|x: int|
                        0 <= x < ps.take(i as int).len() && ps.take(i as int)[x].public_key.text@
                            == kx;
                    assert(ps[x].public_key.text@ == ps[i as int].public_key.text@);
                }
            }
            assert forall|k: Seq<u8>| in_snapshot(ps.take(i as int), k) implies in_snapshot(
                ps.take(i + 1),
                k,
            ) by {
                let x = choose|x: int|
                    0 <= x < ps.take(i as int).len() && ps.take(i as int)[x].public_key.text@
                        == k;
                assert(ps.take(i + 1)[x].public_key.text@ == k);
            }
            assert(in_snapshot(ps.take(i + 1), kx)) by {
                assert(ps.take(i + 1)[i as int].public_key.text@ == kx);
            }
            let newlo = events0.len() as int;
            assert forall|j: int| newlo <= j < events@.len() implies (((
            #[trigger] connect_key(events@[j])) is Some ==> connect_key(events@[j])
                == Option::Some(kx)) && (disconnect_key(events@[j]) is Some ==> disconnect_key(
                events@[j],
            ) == Option::Some(kx)) && (endpoint_key(events@[j]) is Some ==> endpoint_key(
                events@[j],
            ) == Option::Some(kx))) by {
                let t = tick.events@;
                assert(events@[j] == t[j - newlo]);
                if endpoint_changed(prevv, peer0) && j == newlo {
                } else {
                    assert(events@[j] == t.last());
                }
            }
            assert(records_unique(records@)) by {
                assert forall|j1: int, j2: int|
                    0 <= j1 < j2 < records@.len() implies (#[trigger] records@[j1]).device.text@
                    != (#[trigger] records@[j2]).device.text@ by {
                    if j2 < records0.len() {
                        assert(records@[j1] == records0[j1] && records@[j2] == records0[j2]);
                    } else {
                        assert(records@[j1] == records0[j1]);
                        assert(in_snapshot(ps.take(i as int), records0[j1].device.text@));
                        assert(records@[j2].device.text@ == kx);
                    }
                }
            }
            assert forall|j: int| 0 <= j < records@.len() implies in_snapshot(
                ps.take(i + 1),
                (#[trigger] records@[j]).device.text@,
            ) by {
                if j < records0.len() {
                    assert(records@[j] == records0[j]);
                    assert(in_snapshot(ps.take(i as int), records@[j].device.text@));
                }
            }
            assert(events_unique(events@)) by {
                assert forall|j1: int, j2: int|
                    0 <= j1 < j2 < events@.len() && (#[trigger] connect_key(events@[j1])) is Some
                        implies connect_key(events@[j1]) != #[trigger] connect_key(
                    events@[j2],
                ) by {
                    if j2 < newlo {
                        assert(events@[j1] == events0[j1] && events@[j2] == events0[j2]);
                    } else if j1 < newlo {
                        assert(events@[j1] == events0[j1]);
                        assert(in_snapshot(ps.take(i as int), connect_key(events@[j1])->0));
                    } else {
                        assert(j1 == newlo && j2 == newlo + 1);
                        assert(endpoint_changed(prevv, peer0));
                        assert(events@[j1] == tick.events@[0]);
                    }
                }
                assert forall|j1: int, j2: int|
                    0 <= j1 < j2 < events@.len() && (#[trigger] disconnect_key(
                        events@[j1],
                    )) is Some implies disconnect_key(events@[j1]) != #[trigger] disconnect_key(
                    events@[j2],
                ) by {
                    if j2 < newlo {
                        assert(events@[j1] == events0[j1] && events@[j2] == events0[j2]);
                    } else if j1 < newlo {
                        assert(events@[j1] == events0[j1]);
                        assert(in_snapshot(ps.take(i as int), disconnect_key(events@[j1])->0));
                    } else {
                        assert(j1 == newlo && j2 == newlo + 1);
                        assert(endpoint_changed(prevv, peer0));
                        assert(events@[j1] == tick.events@[0]);
                    }
                }
                assert forall|j1: int, j2: int|
                    0 <= j1 < j2 < events@.len() && (#[trigger] endpoint_key(events@[j1])) is Some
                        implies endpoint_key(events@[j1]) != #[trigger] endpoint_key(
                    events@[j2],
                ) by {
                    if j2 < newlo {
                        assert(events@[j1] == events0[j1] && events@[j2] == events0[j2]);
                    } else if j1 < newlo {
                        assert(events@[j1] == events0[j1]);
                        assert(in_snapshot(ps.take(i as int), endpoint_key(events@[j1])->0));
                    } else {
                        assert(j1 == newlo && j2 == newlo + 1);
                        assert(endpoint_changed(prevv, peer0));
                        assert(events@[j2] == tick.events@.last());
                    }
                }
            }
            assert forall|j: int|
                0 <= j < events@.len() && (#[trigger] connect_key(events@[j])) is Some implies
                in_snapshot(ps.take(i + 1), connect_key(events@[j])->0) by {
                if j < newlo {
                    assert(events@[j] == events0[j]);
                    assert(in_snapshot(ps.take(i as int), connect_key(events@[j])->0));
                }
            }
            assert forall|j: int|
                0 <= j < events@.len() && (#[trigger] disconnect_key(events@[j])) is Some implies
                in_snapshot(ps.take(i + 1), disconnect_key(events@[j])->0) by {
                if j < newlo {
                    assert(events@[j] == events0[j]);
                    assert(in_snapshot(ps.take(i as int), disconnect_key(events@[j])->0));
                }
            }
            assert forall|j: int|
                0 <= j < events@.len() && (#[trigger] endpoint_key(events@[j])) is Some implies
                in_snapshot(ps.take(i + 1), endpoint_key(events@[j])->0) by {
                if j < newlo {
                    assert(events@[j] == events0[j]);
                    assert(in_snapshot(ps.take(i as int), endpoint_key(events@[j])->0));
                }
            }
        }
        i = i + 1;
    }
    proof {
        assert(ps.take(n as int) =~= ps);
        assert(kv_unique(by_text(newcache@))) by {
            assert forall|a: int, b: int|
                0 <= a < b < by_text(newcache@).len() implies by_text(newcache@)[a].0 != by_text(
                newcache@,
            )[b].0 by {
                assert(newcache@[a].0.text@ == ps[a].public_key.text@);
                assert(newcache@[b].0.text@ == ps[b].public_key.text@);
            }
        }
        // the processed prefix is the whole snapshot now
        assert forall|j: int|
            0 <= j < events@.len() && (#[trigger] connect_key(events@[j])) is Some implies
            in_snapshot(ps, connect_key(events@[j])->0) by {
            assert(in_snapshot(ps.take(i as int), connect_key(events@[j])->0));
        }
        assert forall|j: int|
            0 <= j < events@.len() && (#[trigger] disconnect_key(events@[j])) is Some implies
            in_snapshot(ps, disconnect_key(events@[j])->0) by {
            assert(in_snapshot(ps.take(i as int), disconnect_key(events@[j])->0));
        }
        assert forall|j: int|
            0 <= j < events@.len() && (#[trigger] endpoint_key(events@[j])) is Some implies
            in_snapshot(ps, endpoint_key(events@[j])->0) by {
            assert(in_snapshot(ps.take(i as int), endpoint_key(events@[j])->0));
        }
    }
    // evictions: cached peers absent from the snapshot
    let ghost base_events = events@;
    let cn: usize = cache.len();
    let mut c: usize = 0;
    while c < cn
        invariant
            cn == cache@.len(),
            0 <= c <= cn,
            kv_unique(by_text(cache@)),
            newcache@.len() == n,
            n == ps.len(),
            forall|x: int|
                0 <= x < ps.len() ==> (#[trigger] newcache@[x]).0.text@ == ps[x].public_key.text@,
            forall|j: int|
                0 <= j < events@.len() ==> event_ok(
                    #[trigger] events@[j],
                    ps,
                    cache@,
                    netkey.text@,
                    now,
                ),
            events@.len() >= base_events.len(),
            forall|j: int| 0 <= j < base_events.len() ==> events@[j] == base_events[j],
            forall|x: int|
                0 <= x < c && (#[trigger] cache@[x]).1.latest_handshake is Some && !in_snapshot(
                    ps,
                    cache@[x].0.text@,
                ) ==> disconnect_reported(events@, cache@[x].0.text@),
            events_unique(events@),
            forall|j: int|
                0 <= j < events@.len() && (#[trigger] connect_key(events@[j])) is Some
                    ==> in_snapshot(ps, connect_key(events@[j])->0),
            forall|j: int|
                0 <= j < events@.len() && (#[trigger] endpoint_key(events@[j])) is Some
                    ==> in_snapshot(ps, endpoint_key(events@[j])->0),
            forall|j: int|
                0 <= j < events@.len() && (#[trigger] disconnect_key(events@[j])) is Some ==> (
                in_snapshot(ps, disconnect_key(events@[j])->0) || (exists|x: int|
                    0 <= x < c && (#[trigger] cache@[x]).0.text@ == disconnect_key(
                        events@[j],
                    )->0 && !in_snapshot(ps, cache@[x].0.text@))),
        decreases cn - c,
    {
        let ghost events1 = events@;
        let mut f: usize = 0;
        let nn: usize = newcache.len();
        let mut present: bool = false;
        while f < nn && !present
            invariant
                nn == newcache@.len(),
                0 <= f <= nn,
                n == ps.len(),
                nn == n,
                0 <= c < cn,
                cn == cache@.len(),
                forall|x: int|
                    0 <= x < ps.len() ==> (#[trigger] newcache@[x]).0.text@
                        == ps[x].public_key.text@,
                present ==> in_snapshot(ps, cache@[c as int].0.text@),
                !present ==> forall|y: int|
                    0 <= y < f ==> (#[trigger] ps[y]).public_key.text@ != cache@[c as int].0.text@,
            decreases nn - f, (if present {
                0int
            } else {
                1int
            }),
        {
            if bytes_eq(&newcache[f].0.text, &cache[c].0.text) {
                present = true;
                proof {
                    assert(ps[f as int].public_key.text@ == cache@[c as int].0.text@);
                }
            } else {
                f = f + 1;
            }
        }
        if !present && cache[c].1.latest_handshake.is_some() {
            events.push(
                GatewayEvent::PeerDisconnected(
                    GatewayPeerDisconnectedEvent {
                        network: Pubkey { text: copy_bytes(&netkey.text) },
                        peer: Pubkey { text: copy_bytes(&cache[c].0.text) },
                    },
                ),
            );
            proof {
                let kx = cache@[c as int].0.text@;
                assert(!in_snapshot(ps, kx));
                lemma_kv_at_index(by_text(cache@), c as int);
                assert(was_connected(cache_lookup(cache@, kx)));
                assert(event_ok(events@.last(), ps, cache@, netkey.text@, now));
                assert forall|j: int| 0 <= j < events@.len() implies event_ok(
                    #[trigger] events@[j],
                    ps,
                    cache@,
                    netkey.text@,
                    now,
                ) by {
                    if j < events1.len() {
                        assert(events@[j] == events1[j]);
                    }
                }
                // the new disconnect carries an evicted key no other event
                // of its kind holds
                assert(disconnect_key(events@.last()) == Option::Some(kx));
                assert(connect_key(events@.last()) is None);
                assert(endpoint_key(events@.last()) is None);
                assert forall|j1: int, j2: int|
                    0 <= j1 < j2 < events@.len() && (#[trigger] disconnect_key(
                        events@[j1],
                    )) is Some implies disconnect_key(events@[j1]) != #[trigger] disconnect_key(
                    events@[j2],
                ) by {
                    if j2 < events1.len() {
                        assert(events@[j1] == events1[j1] && events@[j2] == events1[j2]);
                    } else {
                        assert(events@[j1] == events1[j1]);
                        assert(disconnect_key(events@[j2]) == Option::Some(kx));
                        let k1 = disconnect_key(events1[j1])->0;
                        if in_snapshot(ps, k1) {
                        } else {
                            let x = choose|x: int|
                                0 <= x < c && (#[trigger] cache@[x]).0.text@ == k1
                                    && !in_snapshot(ps, cache@[x].0.text@);
                            assert(by_text(cache@)[x].0 == cache@[x].0.text@);
                            assert(by_text(cache@)[c as int].0 == kx);
                        }
                    }
                }
                assert forall|j1: int, j2: int|
                    0 <= j1 < j2 < events@.len() && (#[trigger] connect_key(events@[j1])) is Some
                        implies connect_key(events@[j1]) != #[trigger] connect_key(
                    events@[j2],
                ) by {
                    if j2 < events1.len() {
                        assert(events@[j1] == events1[j1] && events@[j2] == events1[j2]);
                    } else {
                        assert(connect_key(events@[j2]) is None);
                    }
                }
                assert forall|j1: int, j2: int|
                    0 <= j1 < j2 < events@.len() && (#[trigger] endpoint_key(events@[j1])) is Some
                        implies endpoint_key(events@[j1]) != #[trigger] endpoint_key(
                    events@[j2],
                ) by {
                    if j2 < events1.len() {
                        assert(events@[j1] == events1[j1] && events@[j2] == events1[j2]);
                    } else {
                        assert(endpoint_key(events@[j2]) is None);
                    }
                }
                assert(events_unique(events@));
                assert forall|j: int|
                    0 <= j < events@.len() && (#[trigger] connect_key(events@[j])) is Some implies
                    in_snapshot(ps, connect_key(events@[j])->0) by {
                    if j < events1.len() {
                        assert(events@[j] == events1[j]);
                    }
                }
                assert forall|j: int|
                    0 <= j < events@.len() && (#[trigger] endpoint_key(events@[j])) is Some
                        implies in_snapshot(ps, endpoint_key(events@[j])->0) by {
                    if j < events1.len() {
                        assert(events@[j] == events1[j]);
                    }
                }
                assert forall|j: int|
                    0 <= j < events@.len() && (#[trigger] disconnect_key(events@[j])) is Some
                        implies (in_snapshot(ps, disconnect_key(events@[j])->0) || (exists|x: int|
                    0 <= x < c + 1 && (#[trigger] cache@[x]).0.text@ == disconnect_key(
                        events@[j],
                    )->0 && !in_snapshot(ps, cache@[x].0.text@))) by {
                    if j < events1.len() {
                        assert(events@[j] == events1[j]);
                    } else {
                        assert(cache@[c as int].0.text@ == disconnect_key(events@[j])->0);
                    }
                }
            }
        }
        proof {
            assert forall|x: int|
                0 <= x < c + 1 && (#[trigger] cache@[x]).1.latest_handshake is Some
                    && !in_snapshot(ps, cache@[x].0.text@) implies disconnect_reported(
                events@,
                cache@[x].0.text@,
            ) by {
                if x < c {
                    let j = choose|j: int|
                        0 <= j < events1.len() && ((#[trigger] events1[j]) matches
                            GatewayEvent::PeerDisconnected(dd) && dd.peer.text@
                            == cache@[x].0.text@);
                    assert(events@[j] == events1[j]);
                } else {
                    if present {
                    } else {
                        lemma_kv_at_index(by_text(cache@), c as int);
                        assert(events@.last() matches GatewayEvent::PeerDisconnected(dd)
                            && dd.peer.text@ == cache@[x].0.text@);
                    }
                }
            }
        }
        c = c + 1;
    }
    proof {
        // cache key set equals the snapshot key set
        assert forall|k: Seq<u8>| kv_contains(by_text(newcache@), k) <==> in_snapshot(ps, k) by {
            if kv_contains(by_text(newcache@), k) {
                let w = choose|w: int|
                    0 <= w < by_text(newcache@).len() && by_text(newcache@)[w].0 == k;
                assert(ps[w].public_key.text@ == k);
            }
            if in_snapshot(ps, k) {
                let w = choose|w: int| 0 <= w < ps.len() && ps[w].public_key.text@ == k;
                assert(by_text(newcache@)[w].0 == k);
            }
        }
        assert forall|x: int| 0 <= x < ps.len() implies kv_at(
            by_text(newcache@),
            (#[trigger] ps[x]).public_key.text@,
        ) == cache_after(ps[x], now) by {
            lemma_kv_at_index(by_text(newcache@), x);
        }
    }
    NetnsTick { events, records, cache: newcache }
}

} // verus!
