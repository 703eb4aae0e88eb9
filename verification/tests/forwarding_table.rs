use fractal_gateway::addr::Cidr;
use fractal_gateway::config::{Endpoint, NetworkState, UrlParts};
use fractal_gateway::forwarding::Forwarding;
use fractal_gateway::keys::Privkey;

fn ep(port: u16) -> Endpoint {
    Endpoint { ip_text: b"172.99.202.108".to_vec(), port }
}

#[test]
fn https_group_names_encode_the_host() {
    let mut f = Forwarding::new();
    f.add_https(&b"a".to_vec(), ep(2000));
    assert_eq!(f.https_forwarding.len(), 1);
    assert_eq!(f.https_forwarding[0].0, b"a".to_vec());
    // RFC 4648 base32 of "a" without padding is "ME"
    assert_eq!(f.https_forwarding[0].1, b"https_ME".to_vec());
    assert_eq!(f.https_upstream.len(), 1);
    assert_eq!(f.https_upstream[0].0, b"https_ME".to_vec());
    assert_eq!(f.https_upstream[0].1.len(), 1);
}

#[test]
fn one_host_collects_all_its_servers() {
    let mut f = Forwarding::new();
    f.add_https(&b"host.example".to_vec(), ep(2000));
    f.add_https(&b"host.example".to_vec(), ep(2001));
    assert_eq!(f.https_forwarding.len(), 1);
    assert_eq!(f.https_upstream.len(), 1);
    assert_eq!(f.https_upstream[0].1.len(), 2);
    assert_eq!(f.https_upstream[0].1[0].port, 2000);
    assert_eq!(f.https_upstream[0].1[1].port, 2001);
}

#[test]
fn http_uses_its_own_section() {
    let mut f = Forwarding::new();
    f.add_http(&b"a".to_vec(), ep(2000));
    assert_eq!(f.http_forwarding[0].1, b"http_ME".to_vec());
    assert!(f.https_forwarding.is_empty());
}

#[test]
fn custom_forwardings_dispatch_by_scheme() {
    let mut f = Forwarding::new();
    let https_url = UrlParts {
        text: b"https://h/".to_vec(),
        scheme: b"https".to_vec(),
        host: b"h".to_vec(),
    };
    let ssh_url = UrlParts {
        text: b"ssh://h/".to_vec(),
        scheme: b"ssh".to_vec(),
        host: b"h".to_vec(),
    };
    f.add_custom(&https_url, ep(2000));
    f.add_custom(&ssh_url, ep(2001));
    assert_eq!(f.https_forwarding.len(), 1);
    assert!(f.http_forwarding.is_empty());
    assert!(f.ssh_forwarding.is_empty());
}

#[test]
fn a_network_publishes_all_its_mappings() {
    let mut k = vec![b'A'; 42];
    k.push(b'A');
    k.push(b'=');
    let ns = NetworkState {
        private_key: Privkey::parse(k).unwrap(),
        listen_port: 51820,
        mtu: 1420,
        address: vec![Cidr::V4 { addr: 0x0A00_0001, prefix: 24 }],
        peers: vec![],
        proxy: vec![(
            UrlParts {
                text: b"https://host.example/".to_vec(),
                scheme: b"https".to_vec(),
                host: b"host.example".to_vec(),
            },
            vec![
                Endpoint { ip_text: b"192.0.2.7".to_vec(), port: 8080 },
                Endpoint { ip_text: b"192.0.2.8".to_vec(), port: 8081 },
            ],
        )],
    };
    let mut f = Forwarding::new();
    f.add(&ns);
    assert_eq!(f.https_forwarding.len(), 1);
    assert_eq!(f.https_upstream.len(), 1);
    let servers = &f.https_upstream[0].1;
    assert_eq!(servers.len(), 2);
    // both mappings point at the inner veth address with ports from 2000
    assert_eq!(servers[0].ip_text, b"172.99.202.108".to_vec());
    assert_eq!(servers[0].port, 2000);
    assert_eq!(servers[1].port, 2001);
}

#[test]
fn nginx_text_lists_groups_and_servers() {
    let mut f = Forwarding::new();
    f.add_https(&b"a".to_vec(), ep(2000));
    let text = String::from_utf8(fractal_gateway::forwarding::render_nginx(&f)).unwrap();
    let expected = "upstream https_ME {\n    server 172.99.202.108:2000;\n}\n\
server {\n    listen 443 ssl;\n    server_name a;\n    location / {\n        proxy_pass https://https_ME;\n    }\n}\n";
    assert_eq!(text, expected);
}
