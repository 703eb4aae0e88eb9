use fractal_gateway::keys::Pubkey;
use fractal_gateway::traffic::{DeviceTraffic, Traffic, TrafficInfo};

fn key(c: u8) -> Vec<u8> {
    let mut v = vec![c; 42];
    v.push(b'A');
    v.push(b'=');
    v
}

fn pk(c: u8) -> Pubkey {
    Pubkey::parse(key(c)).unwrap()
}

#[test]
fn traffic_new_and_add() {
    let mut t = Traffic::new(10, 20);
    t.add(&Traffic::new(5, 7));
    assert_eq!(t.rx, 15);
    assert_eq!(t.tx, 27);
}

#[test]
fn device_traffic_tracks_times() {
    let mut d = DeviceTraffic::new();
    d.add(100, Traffic::new(1, 2));
    d.add(200, Traffic::new(3, 4));
    assert_eq!(d.traffic.rx, 4);
    assert_eq!(d.traffic.tx, 6);
    assert_eq!(d.times.len(), 2);
    // inserting at a known time replaces the entry but still adds to the total
    d.add(200, Traffic::new(10, 0));
    assert_eq!(d.traffic.rx, 14);
    assert_eq!(d.times.len(), 2);
}

#[test]
fn slice_totals_and_stop_time() {
    let mut info = TrafficInfo::new(1000);
    assert_eq!(info.start_time, 1000);
    assert_eq!(info.stop_time, 1000);
    info.add(pk(b'B'), pk(b'C'), 1010, Traffic::new(2000, 3000));
    info.add(pk(b'B'), pk(b'D'), 1005, Traffic::new(10, 20));
    assert_eq!(info.start_time, 1000);
    assert_eq!(info.stop_time, 1010);
    assert_eq!(info.traffic.rx, 2010);
    assert_eq!(info.traffic.tx, 3020);
    assert_eq!(info.networks.len(), 1);
    let nt = info.get_network(&pk(b'B')).unwrap();
    assert_eq!(nt.traffic.rx, 2010);
    assert_eq!(nt.devices.len(), 2);
    assert_eq!(nt.get_device(&pk(b'C')).unwrap().traffic.tx, 3000);
}

#[test]
fn checked_add_refuses_overflow() {
    let mut info = TrafficInfo::new(0);
    assert!(info.add_checked(pk(b'B'), pk(b'C'), 10, Traffic::new(usize::MAX, 0)));
    // a second addition to the same counters would overflow
    assert!(!info.add_checked(pk(b'B'), pk(b'C'), 20, Traffic::new(1, 0)));
    assert_eq!(info.traffic.rx, usize::MAX);
    assert_eq!(info.stop_time, 10);
}
