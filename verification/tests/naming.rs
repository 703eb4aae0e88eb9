use fractal_gateway::addr::{bridge_net, cidr_text, veth_ipv4net, Cidr};
use fractal_gateway::bytes::{parse_u16, parse_u64, render_u64};
use fractal_gateway::config::{netns_name_of, veth_name_of, wgif_name_of, default_mtu};
use fractal_gateway::watchdog::wgif_for_netns;

#[test]
fn derived_names_follow_the_port() {
    assert_eq!(netns_name_of(51820), b"network-51820".to_vec());
    assert_eq!(wgif_name_of(51820), b"wg51820".to_vec());
    assert_eq!(veth_name_of(51820), b"veth51820".to_vec());
    assert_eq!(netns_name_of(0), b"network-0".to_vec());
}

#[test]
fn veth_address_is_bridge_base_plus_port() {
    let c = veth_ipv4net(51820);
    // 172.99.0.0 + 51820 = 172.99.202.108
    assert_eq!(c, Cidr::V4 { addr: 0xAC63_0000 + 51820, prefix: 16 });
    assert_eq!(cidr_text(&c), b"172.99.202.108/16".to_vec());
}

#[test]
fn bridge_address_is_fixed() {
    assert_eq!(cidr_text(&bridge_net()), b"172.99.0.1/16".to_vec());
}

#[test]
fn cidr_rendering() {
    assert_eq!(cidr_text(&Cidr::V4 { addr: 0x0A00_0001, prefix: 24 }), b"10.0.0.1/24".to_vec());
    let v6 = Cidr::V6 { addr: 0x2001_0db8_0000_0000_0000_0000_0000_0001, prefix: 64 };
    assert_eq!(cidr_text(&v6), b"2001:db8:0:0:0:0:0:1/64".to_vec());
}

#[test]
fn trunc_clears_host_bits() {
    let c = Cidr::V4 { addr: 0x0A00_0007, prefix: 24 };
    assert_eq!(c.trunc(), Cidr::V4 { addr: 0x0A00_0000, prefix: 24 });
    let full = Cidr::V4 { addr: 0x0A00_0007, prefix: 32 };
    assert_eq!(full.trunc(), full);
}

#[test]
fn decimal_round_trip() {
    assert_eq!(render_u64(0), b"0".to_vec());
    assert_eq!(render_u64(51820), b"51820".to_vec());
    assert_eq!(parse_u64(&b"51820".to_vec()), Some(51820));
    assert_eq!(parse_u64(&b"0051820".to_vec()), Some(51820));
    assert_eq!(parse_u64(&b"".to_vec()), None);
    assert_eq!(parse_u64(&b"12x".to_vec()), None);
    assert_eq!(parse_u16(&b"65535".to_vec()), Some(65535));
    assert_eq!(parse_u16(&b"65536".to_vec()), None);
}

#[test]
fn wg_interface_from_namespace_name() {
    assert_eq!(wgif_for_netns(&b"network-51820".to_vec()), Some(b"wg51820".to_vec()));
    assert_eq!(wgif_for_netns(&b"other".to_vec()), None);
}

#[test]
fn default_mtu_value() {
    assert_eq!(default_mtu(), 1420);
}
