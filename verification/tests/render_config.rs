use fractal_gateway::addr::Cidr;
use fractal_gateway::config::{Endpoint, NetworkState, PeerState, UrlParts};
use fractal_gateway::keys::{Privkey, Pubkey, Secret};

fn key(c: u8) -> Vec<u8> {
    let mut v = vec![c; 42];
    v.push(b'A');
    v.push(b'=');
    v
}

fn base_network() -> NetworkState {
    NetworkState {
        private_key: Privkey::parse(key(b'A')).unwrap(),
        listen_port: 51820,
        mtu: 1420,
        address: vec![Cidr::V4 { addr: 0x0A00_0001, prefix: 24 }],
        peers: vec![],
        proxy: vec![],
    }
}

#[test]
fn interface_section_alone() {
    let ns = base_network();
    let mut expected = b"[Interface]\nListenPort = 51820\nPrivateKey = ".to_vec();
    expected.extend_from_slice(&key(b'A'));
    expected.push(b'\n');
    assert_eq!(ns.to_config(), expected);
}

#[test]
fn peer_section_with_psk_and_endpoint() {
    let mut ns = base_network();
    ns.peers = vec![(
        Pubkey::parse(key(b'B')).unwrap(),
        PeerState {
            preshared_key: Some(Secret::parse(key(b'C')).unwrap()),
            allowed_ips: vec![
                Cidr::V4 { addr: 0x0A00_0002, prefix: 32 },
                Cidr::V4 { addr: 0x0A00_0107, prefix: 24 },
            ],
            endpoint: Some(b"192.0.2.7:4000".to_vec()),
        },
    )];
    let text = ns.to_config();
    let rendered = String::from_utf8(text).unwrap();
    let mut expected = String::new();
    expected.push_str("[Interface]\nListenPort = 51820\nPrivateKey = ");
    expected.push_str(core::str::from_utf8(&key(b'A')).unwrap());
    expected.push_str("\n\n[Peer]\nPublicKey = ");
    expected.push_str(core::str::from_utf8(&key(b'B')).unwrap());
    // the second block is truncated to its network address
    expected.push_str("\nAllowedIPs = 10.0.0.2/32, 10.0.1.0/24\n");
    expected.push_str("PresharedKey = ");
    expected.push_str(core::str::from_utf8(&key(b'C')).unwrap());
    expected.push_str("\nEndpoint = 192.0.2.7:4000\nPersistentKeepalive = 25\n");
    assert_eq!(rendered, expected);
}

#[test]
fn port_mappings_count_from_2000() {
    let mut ns = base_network();
    let url = UrlParts {
        text: b"https://host.example/".to_vec(),
        scheme: b"https".to_vec(),
        host: b"host.example".to_vec(),
    };
    ns.proxy = vec![(
        url,
        vec![
            Endpoint { ip_text: b"192.0.2.7".to_vec(), port: 8080 },
            Endpoint { ip_text: b"192.0.2.8".to_vec(), port: 8081 },
        ],
    )];
    let maps = fractal_gateway::render::port_mappings(&ns);
    assert_eq!(maps.len(), 2);
    assert_eq!(maps[0].1, 2000);
    assert_eq!(maps[1].1, 2001);
    assert_eq!(maps[0].2.ip_text, b"192.0.2.7".to_vec());
    assert_eq!(maps[1].2.port, 8081);

    let pc = ns.port_config();
    assert_eq!(pc.interface_in, b"veth51820".to_vec());
    assert_eq!(pc.interface_out, b"wg51820".to_vec());
    assert_eq!(pc.ip_source, b"10.0.0.1".to_vec());
    assert_eq!(pc.mappings.len(), 2);
    assert_eq!(pc.mappings[0].port_in, 2000);
    assert_eq!(pc.mappings[0].port_out, 8080);
    assert_eq!(pc.mappings[0].ip_out, b"192.0.2.7".to_vec());
}

#[test]
fn iptables_render_and_normal_form() {
    let pc = fractal_gateway::render::PortConfig {
        interface_in: b"veth51820".to_vec(),
        interface_out: b"wg51820".to_vec(),
        ip_source: b"10.0.0.1".to_vec(),
        mappings: vec![fractal_gateway::render::PortMapping {
            port_in: 2000,
            port_out: 8080,
            ip_out: b"192.0.2.7".to_vec(),
        }],
    };
    let text = fractal_gateway::render::render_iptables(&pc);
    let expected = "*nat\n:PREROUTING ACCEPT [0:0]\n:POSTROUTING ACCEPT [0:0]\n\
-A PREROUTING -i veth51820 -p tcp --dport 2000 -j DNAT --to-destination 192.0.2.7:8080\n\
-A POSTROUTING -o wg51820 -j SNAT --to-source 10.0.0.1\nCOMMIT\n";
    assert_eq!(String::from_utf8(text).unwrap(), expected);
}

#[test]
fn normalization_drops_comments_and_zeroes_counters() {
    let input = b"# generated\n:INPUT ACCEPT [123:4567]\n\n-A FOO -j BAR\n".to_vec();
    let cleaned = fractal_gateway::render::clean_iptables(&input);
    assert_eq!(
        String::from_utf8(cleaned).unwrap(),
        ":INPUT ACCEPT [0:0]\n-A FOO -j BAR\n"
    );
}

#[test]
fn firewall_restore_only_on_difference() {
    let a = b"# x\n:INPUT ACCEPT [1:2]\n".to_vec();
    let b = b":INPUT ACCEPT [3:4]\n# y\n".to_vec();
    // equal after normalization: no restore
    assert!(fractal_gateway::render::firewall_action(&a, &b).is_none());
    let c = b":INPUT DROP [0:0]\n".to_vec();
    let restored = fractal_gateway::render::firewall_action(&a, &c).unwrap();
    assert_eq!(restored, b":INPUT DROP [0:0]\n".to_vec());
    // restoring then comparing again asks for nothing
    assert!(fractal_gateway::render::firewall_action(&restored, &c).is_none());
}
