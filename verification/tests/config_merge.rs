use fractal_gateway::addr::Cidr;
use fractal_gateway::config::{GatewayConfig, GatewayConfigPartial, NetworkState, PeerState};
use fractal_gateway::keys::Privkey;
use fractal_gateway::token::Token;

fn key(c: u8) -> Vec<u8> {
    let mut v = vec![c; 42];
    v.push(b'A');
    v.push(b'=');
    v
}

fn network(port: u16) -> NetworkState {
    NetworkState {
        private_key: Privkey::parse(key(b'A')).unwrap(),
        listen_port: port,
        mtu: 1420,
        address: vec![Cidr::V4 { addr: 0x0A00_0001, prefix: 24 }],
        peers: vec![],
        proxy: vec![],
    }
}

#[test]
fn upsert_and_tombstone() {
    let mut cfg = GatewayConfig::empty();
    cfg.insert(51820, network(51820));
    cfg.insert(51821, network(51821));
    assert!(cfg.get(51820).is_some());

    // a partial that deletes one port and creates another
    let diff = GatewayConfigPartial {
        entries: vec![(51821, None), (51822, Some(network(51822)))],
    };
    cfg.apply_partial(diff);
    assert!(cfg.get(51820).is_some());
    assert!(cfg.get(51821).is_none());
    assert!(cfg.get(51822).is_some());
    assert_eq!(cfg.networks.len(), 2);
}

#[test]
fn upsert_replaces_in_place() {
    let mut cfg = GatewayConfig::empty();
    cfg.insert(51820, network(51820));
    let mut replacement = network(51820);
    replacement.mtu = 1300;
    cfg.insert(51820, replacement);
    assert_eq!(cfg.networks.len(), 1);
    assert_eq!(cfg.get(51820).unwrap().mtu, 1300);
}

#[test]
fn remove_absent_port_is_a_no_op() {
    let mut cfg = GatewayConfig::empty();
    cfg.insert(51820, network(51820));
    cfg.remove(51999);
    assert_eq!(cfg.networks.len(), 1);
}

#[test]
fn token_checks_byte_for_byte() {
    let t = Token::new("SECRET-REDACTED");
    assert!(t.check("SECRET-REDACTED"));
    assert!(!t.check("SECRET-REDACTED2"));
    assert!(!t.check(""));
}
