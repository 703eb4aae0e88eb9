use fractal_gateway::addr::Cidr;
use fractal_gateway::config::{GatewayConfig, NetworkState};
use fractal_gateway::keys::Privkey;
use fractal_gateway::reconcile::{
    addr_missing, create_needed, master_action, mtu_action, surplus_namespaces, up_action,
    wg_conf_path, RealizedState,
};

fn key(c: u8) -> Vec<u8> {
    let mut v = vec![c; 42];
    v.push(b'A');
    v.push(b'=');
    v
}

fn network(port: u16) -> NetworkState {
    NetworkState {
        private_key: Privkey::parse(key(b'A')).unwrap(),
        listen_port: port,
        mtu: 1420,
        address: vec![Cidr::V4 { addr: 0x0A00_0001, prefix: 24 }],
        peers: vec![],
        proxy: vec![],
    }
}

#[test]
fn surplus_namespaces_respect_the_prefix() {
    let mut cfg = GatewayConfig::empty();
    cfg.insert(51821, network(51821));
    let existing = vec![
        b"network-51820".to_vec(),
        b"network-51821".to_vec(),
        b"unrelated".to_vec(),
    ];
    let surplus = surplus_namespaces(&existing, &cfg);
    assert_eq!(surplus, vec![b"network-51820".to_vec()]);
}

#[test]
fn replacing_a_port_frees_its_namespace() {
    // a config that moved from port 51820 to 51821
    let mut cfg = GatewayConfig::empty();
    cfg.insert(51821, network(51821));
    let existing = vec![b"network-51820".to_vec()];
    let surplus = surplus_namespaces(&existing, &cfg);
    assert_eq!(surplus, vec![b"network-51820".to_vec()]);
    let mut realized = RealizedState::new();
    realized.apply_full(cfg);
    assert!(realized.config.get(51821).is_some());
    assert!(realized.config.get(51820).is_none());
}

#[test]
fn address_reconciliation_is_additive() {
    let current = vec![
        Cidr::V4 { addr: 0x0A00_0001, prefix: 24 },
        Cidr::V4 { addr: 0x0A00_0009, prefix: 32 },
    ];
    let target = vec![
        Cidr::V4 { addr: 0x0A00_0001, prefix: 24 },
        Cidr::V4 { addr: 0x0A00_0002, prefix: 24 },
    ];
    let missing = addr_missing(&current, &target);
    assert_eq!(missing, vec![Cidr::V4 { addr: 0x0A00_0002, prefix: 24 }]);
    // after adding, a second pass adds nothing
    let mut applied = current.clone();
    applied.extend_from_slice(&missing);
    assert!(addr_missing(&applied, &target).is_empty());
}

#[test]
fn small_stage_decisions() {
    assert!(create_needed(false));
    assert!(!create_needed(true));
    assert!(up_action(true));
    assert_eq!(mtu_action(Some(1420), 1420).unwrap(), None);
    assert_eq!(mtu_action(Some(1300), 1420).unwrap(), Some(1420));
    assert!(mtu_action(None, 1420).is_err());
    assert!(master_action(None, &b"ensbr0".to_vec()));
    assert!(master_action(Some(&b"other".to_vec()), &b"ensbr0".to_vec()));
    assert!(!master_action(Some(&b"ensbr0".to_vec()), &b"ensbr0".to_vec()));
}

#[test]
fn config_file_path() {
    assert_eq!(wg_conf_path(51820), b"wireguard/wg51820.conf".to_vec());
}
