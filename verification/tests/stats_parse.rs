use fractal_gateway::keys::{Privkey, Pubkey, Secret};
use fractal_gateway::stats::{
    parse_network_stats, parse_peer, render_network_stats, render_peer_line, NetworkStats,
    ParseFault, PeerStats,
};

fn key(c: u8) -> Vec<u8> {
    let mut v = vec![c; 42];
    v.push(b'A');
    v.push(b'=');
    v
}

fn dump() -> Vec<u8> {
    let mut d = Vec::new();
    d.extend_from_slice(&key(b'A')); // private key
    d.push(b'\t');
    d.extend_from_slice(&key(b'B')); // public key
    d.extend_from_slice(b"\t51820\toff\n");
    d.extend_from_slice(&key(b'C')); // peer public key
    d.extend_from_slice(b"\t(none)\t203.0.113.5:51820\t10.0.0.2/32,10.0.1.0/24\t950\t2000\t3000\t25\n");
    d
}

#[test]
fn whole_dump_parses() {
    let ns = parse_network_stats(&dump()).unwrap();
    assert_eq!(ns.private_key.text, key(b'A'));
    assert_eq!(ns.public_key.text, key(b'B'));
    assert_eq!(ns.listen_port(), 51820);
    assert!(ns.fwmark.is_none());
    assert_eq!(ns.peers().len(), 1);
    let p = &ns.peers()[0];
    assert_eq!(p.public_key.text, key(b'C'));
    assert!(p.preshared_key.is_none());
    assert_eq!(p.endpoint.as_ref().unwrap(), &b"203.0.113.5:51820".to_vec());
    assert_eq!(p.allowed_ips, vec![b"10.0.0.2/32".to_vec(), b"10.0.1.0/24".to_vec()]);
    assert_eq!(p.latest_handshake, Some(950));
    assert_eq!(p.transfer(), (2000, 3000));
    assert_eq!(p.persistent_keepalive, Some(25));
}

#[test]
fn zero_handshake_means_none() {
    let mut line = key(b'C');
    line.extend_from_slice(b"\t(none)\t(none)\t(none)\t0\t0\t0\toff");
    let p = parse_peer(&line).unwrap();
    assert!(p.latest_handshake.is_none());
    assert!(p.endpoint.is_none());
    assert!(p.allowed_ips.is_empty());
    assert!(p.persistent_keepalive.is_none());
}

#[test]
fn preshared_key_is_validated() {
    let mut line = key(b'C');
    line.extend_from_slice(b"\t");
    line.extend_from_slice(&key(b'D'));
    line.extend_from_slice(b"\t(none)\t(none)\t1\t0\t0\toff");
    let p = parse_peer(&line).unwrap();
    assert_eq!(p.preshared_key.unwrap().text, key(b'D'));
}

#[test]
fn empty_dump_misses_the_network_line() {
    assert!(matches!(
        parse_network_stats(&Vec::new()),
        Err(ParseFault::MissingNetworkLine)
    ));
}

#[test]
fn wrong_field_count_is_reported() {
    let d = b"just\tthree\tfields".to_vec();
    assert!(matches!(parse_network_stats(&d), Err(ParseFault::WrongFieldCount)));
    let mut line = key(b'C');
    line.extend_from_slice(b"\t(none)\t(none)");
    assert!(matches!(parse_peer(&line), Err(ParseFault::WrongFieldCount)));
}

#[test]
fn invalid_key_is_reported() {
    let d = b"notakey\talsonot\t51820\toff".to_vec();
    assert!(matches!(parse_network_stats(&d), Err(ParseFault::BadKey)));
}

#[test]
fn invalid_number_is_reported() {
    let mut d = key(b'A');
    d.push(b'\t');
    d.extend_from_slice(&key(b'B'));
    d.extend_from_slice(b"\tnotaport\toff");
    assert!(matches!(parse_network_stats(&d), Err(ParseFault::BadNumber)));
    let mut line = key(b'C');
    line.extend_from_slice(b"\t(none)\t(none)\t(none)\txx\t0\t0\toff");
    assert!(matches!(parse_peer(&line), Err(ParseFault::BadNumber)));
}

#[test]
fn rendered_peer_line_parses_back() {
    let p = PeerStats {
        public_key: Pubkey::parse(key(b'C')).unwrap(),
        preshared_key: Some(Secret::parse(key(b'D')).unwrap()),
        endpoint: Some(b"203.0.113.5:51820".to_vec()),
        allowed_ips: vec![b"10.0.0.2/32".to_vec(), b"10.0.1.0/24".to_vec()],
        latest_handshake: Some(950),
        transfer_rx: 2000,
        transfer_tx: 3000,
        persistent_keepalive: Some(25),
    };
    let line = render_peer_line(&p);
    let q = parse_peer(&line).unwrap();
    assert_eq!(q.public_key.text, p.public_key.text);
    assert_eq!(q.preshared_key.unwrap().text, key(b'D'));
    assert_eq!(q.endpoint, p.endpoint);
    assert_eq!(q.allowed_ips, p.allowed_ips);
    assert_eq!(q.latest_handshake, p.latest_handshake);
    assert_eq!(q.transfer_rx, p.transfer_rx);
    assert_eq!(q.transfer_tx, p.transfer_tx);
    assert_eq!(q.persistent_keepalive, p.persistent_keepalive);
}

#[test]
fn rendered_absent_fields_parse_back() {
    let p = PeerStats {
        public_key: Pubkey::parse(key(b'C')).unwrap(),
        preshared_key: None,
        endpoint: None,
        allowed_ips: vec![],
        latest_handshake: None,
        transfer_rx: 0,
        transfer_tx: 0,
        persistent_keepalive: None,
    };
    let line = render_peer_line(&p);
    let q = parse_peer(&line).unwrap();
    assert!(q.preshared_key.is_none());
    assert!(q.endpoint.is_none());
    assert!(q.allowed_ips.is_empty());
    assert!(q.latest_handshake.is_none());
    assert!(q.persistent_keepalive.is_none());
}

#[test]
fn rendered_dump_parses_back() {
    let ns = NetworkStats {
        private_key: Privkey::parse(key(b'A')).unwrap(),
        public_key: Pubkey::parse(key(b'B')).unwrap(),
        listen_port: 51820,
        fwmark: Some(7),
        peers: vec![PeerStats {
            public_key: Pubkey::parse(key(b'C')).unwrap(),
            preshared_key: None,
            endpoint: Some(b"203.0.113.5:51820".to_vec()),
            allowed_ips: vec![b"10.0.0.2/32".to_vec()],
            latest_handshake: Some(950),
            transfer_rx: 2000,
            transfer_tx: 3000,
            persistent_keepalive: Some(25),
        }],
    };
    let text = render_network_stats(&ns);
    let back = parse_network_stats(&text).unwrap();
    assert_eq!(back.private_key.text, ns.private_key.text);
    assert_eq!(back.public_key.text, ns.public_key.text);
    assert_eq!(back.listen_port, ns.listen_port);
    assert_eq!(back.fwmark, ns.fwmark);
    assert_eq!(back.peers().len(), 1);
    let p = &back.peers()[0];
    assert_eq!(p.public_key.text, key(b'C'));
    assert_eq!(p.endpoint.as_ref().unwrap(), &b"203.0.113.5:51820".to_vec());
    assert_eq!(p.allowed_ips, vec![b"10.0.0.2/32".to_vec()]);
    assert_eq!(p.latest_handshake, Some(950));
    assert_eq!(p.transfer(), (2000, 3000));
    assert_eq!(p.persistent_keepalive, Some(25));
}
