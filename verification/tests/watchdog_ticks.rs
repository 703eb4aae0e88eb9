use fractal_gateway::keys::Pubkey;
use fractal_gateway::stats::{NetworkStats, PeerStats};
use fractal_gateway::watchdog::{watchdog_netns, watchdog_peer, TRAFFIC_MINIMUM};
use fractal_gateway::GatewayEvent;

fn key(c: u8) -> Vec<u8> {
    let mut v = vec![c; 42];
    v.push(b'A');
    v.push(b'=');
    v
}

fn pk(c: u8) -> Pubkey {
    Pubkey::parse(key(c)).unwrap()
}

fn peer(c: u8, handshake: Option<u64>, rx: usize, tx: usize) -> PeerStats {
    PeerStats {
        public_key: pk(c),
        preshared_key: None,
        endpoint: Some(b"203.0.113.5:51820".to_vec()),
        allowed_ips: vec![b"10.0.0.2/32".to_vec()],
        latest_handshake: handshake,
        transfer_rx: rx,
        transfer_tx: tx,
        persistent_keepalive: Some(25),
    }
}

#[test]
fn first_sight_connects_then_traffic_flows() {
    let network = pk(b'B');
    // first tick: fresh handshake, no previous observation
    let t1 = watchdog_peer(&network, None, peer(b'C', Some(950), 0, 0), 1000);
    assert!(t1.record.is_none());
    assert_eq!(t1.events.len(), 1);
    assert!(matches!(&t1.events[0], GatewayEvent::PeerConnected(c)
        if c.peer.text == key(b'C') && c.endpoint == b"203.0.113.5:51820".to_vec()));
    // second tick: the counters moved
    let t2 = watchdog_peer(&network, Some(&t1.entry), peer(b'C', Some(1000), 2000, 3000), 1010);
    assert!(t2.events.is_empty());
    let rec = t2.record.unwrap();
    assert_eq!(rec.rx, 2000);
    assert_eq!(rec.tx, 3000);
    assert_eq!(rec.rx_raw, 2000);
    assert_eq!(rec.tx_raw, 3000);
    assert_eq!(rec.time, 1010);
    assert_eq!(rec.network.text, key(b'B'));
    assert_eq!(rec.device.text, key(b'C'));
}

#[test]
fn small_deltas_make_no_record() {
    let network = pk(b'B');
    let t1 = watchdog_peer(&network, None, peer(b'C', Some(950), 0, 0), 1000);
    let t2 = watchdog_peer(
        &network,
        Some(&t1.entry),
        peer(b'C', Some(1000), 500, TRAFFIC_MINIMUM - 501),
        1010,
    );
    assert!(t2.record.is_none());
    // exactly at the threshold a record is emitted
    let t3 = watchdog_peer(
        &network,
        Some(&t1.entry),
        peer(b'C', Some(1000), 500, TRAFFIC_MINIMUM - 500),
        1010,
    );
    assert!(t3.record.is_some());
}

#[test]
fn counter_decrease_resets_the_baseline() {
    let network = pk(b'B');
    let t1 = watchdog_peer(&network, None, peer(b'C', Some(950), 5000, 5000), 1000);
    // the interface was recreated: counters went backwards
    let t2 = watchdog_peer(&network, Some(&t1.entry), peer(b'C', Some(1000), 2000, 2000), 1010);
    assert!(t2.record.is_none());
    assert_eq!(t2.entry.transfer_rx, 2000);
    // the next delta counts from the new baseline
    let t3 = watchdog_peer(&network, Some(&t2.entry), peer(b'C', Some(1010), 4000, 2000), 1020);
    assert_eq!(t3.record.unwrap().rx, 2000);
}

#[test]
fn connect_and_disconnect_alternate() {
    let network = pk(b'B');
    let t1 = watchdog_peer(&network, None, peer(b'C', Some(950), 0, 0), 1000);
    assert!(matches!(&t1.events[0], GatewayEvent::PeerConnected(_)));
    // the handshake ages past the timeout
    let t2 = watchdog_peer(&network, Some(&t1.entry), peer(b'C', Some(1000), 0, 0), 2000);
    assert_eq!(t2.events.len(), 1);
    assert!(matches!(&t2.events[0], GatewayEvent::PeerDisconnected(_)));
    assert!(t2.entry.latest_handshake.is_none());
    // a fresh handshake reconnects
    let t3 = watchdog_peer(&network, Some(&t2.entry), peer(b'C', Some(2005), 0, 0), 2010);
    assert_eq!(t3.events.len(), 1);
    assert!(matches!(&t3.events[0], GatewayEvent::PeerConnected(_)));
}

#[test]
fn endpoint_change_is_reported() {
    let network = pk(b'B');
    let t1 = watchdog_peer(&network, None, peer(b'C', Some(950), 0, 0), 1000);
    let mut moved = peer(b'C', Some(1000), 0, 0);
    moved.endpoint = Some(b"198.51.100.9:7777".to_vec());
    let t2 = watchdog_peer(&network, Some(&t1.entry), moved, 1010);
    assert_eq!(t2.events.len(), 1);
    assert!(matches!(&t2.events[0], GatewayEvent::Endpoint(e)
        if e.endpoint == b"198.51.100.9:7777".to_vec()));
}

#[test]
fn eviction_disconnects_connected_peers_only() {
    let stats = NetworkStats {
        private_key: fractal_gateway::keys::Privkey::parse(key(b'A')).unwrap(),
        public_key: pk(b'B'),
        listen_port: 51820,
        fwmark: None,
        peers: vec![],
    };
    // a connected peer left the configuration
    let cache = vec![(pk(b'C'), peer(b'C', Some(990), 0, 0))];
    let tick = watchdog_netns(&cache, stats, 1000);
    assert_eq!(tick.events.len(), 1);
    assert!(matches!(&tick.events[0], GatewayEvent::PeerDisconnected(d)
        if d.peer.text == key(b'C')));
    assert!(tick.cache.is_empty());
    assert!(tick.records.is_empty());
}

#[test]
fn eviction_of_a_disconnected_peer_is_silent() {
    let stats = NetworkStats {
        private_key: fractal_gateway::keys::Privkey::parse(key(b'A')).unwrap(),
        public_key: pk(b'B'),
        listen_port: 51820,
        fwmark: None,
        peers: vec![],
    };
    let cache = vec![(pk(b'C'), peer(b'C', None, 0, 0))];
    let tick = watchdog_netns(&cache, stats, 1000);
    assert!(tick.events.is_empty());
    assert!(tick.cache.is_empty());
}

#[test]
fn netns_tick_builds_the_cache_from_the_snapshot() {
    let stats = NetworkStats {
        private_key: fractal_gateway::keys::Privkey::parse(key(b'A')).unwrap(),
        public_key: pk(b'B'),
        listen_port: 51820,
        fwmark: None,
        peers: vec![peer(b'C', Some(990), 2000, 3000), peer(b'D', None, 0, 0)],
    };
    let cache = Vec::new();
    let tick = watchdog_netns(&cache, stats, 1000);
    // the fresh peer connects, the stale one stays silent
    assert_eq!(tick.events.len(), 1);
    assert!(matches!(&tick.events[0], GatewayEvent::PeerConnected(c)
        if c.peer.text == key(b'C')));
    // no previous observation: no records yet
    assert!(tick.records.is_empty());
    assert_eq!(tick.cache.len(), 2);
    assert_eq!(tick.cache[0].0.text, key(b'C'));
    assert_eq!(tick.cache[1].0.text, key(b'D'));
    assert!(tick.cache[1].1.latest_handshake.is_none());
}

#[test]
fn one_tick_emits_one_event_per_peer() {
    let stats = NetworkStats {
        private_key: fractal_gateway::keys::Privkey::parse(key(b'A')).unwrap(),
        public_key: pk(b'B'),
        listen_port: 51820,
        fwmark: None,
        peers: vec![peer(b'C', Some(990), 0, 0)],
    };
    // one fresh peer arrives while one connected peer left the snapshot
    let cache = vec![(pk(b'D'), peer(b'D', Some(980), 0, 0))];
    let tick = watchdog_netns(&cache, stats, 1000);
    assert_eq!(tick.events.len(), 2);
    assert!(matches!(&tick.events[0], GatewayEvent::PeerConnected(c)
        if c.peer.text == key(b'C')));
    assert!(matches!(&tick.events[1], GatewayEvent::PeerDisconnected(d)
        if d.peer.text == key(b'D')));
    assert_eq!(tick.cache.len(), 1);
    assert!(tick.records.is_empty());
}
