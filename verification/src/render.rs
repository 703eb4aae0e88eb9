//! Rendered configuration text.
//!
//! The WireGuard configuration for a network is canonical text: an
//! `[Interface]` section with the listen port and private key, then one
//! `[Peer]` section per peer in stored (key-sorted) order, with the
//! comma-joined truncated allowed blocks, the optional preshared key and
//! endpoint, and a fixed keepalive. Port mappings flatten the proxy table,
//! assigning external ports from 2000 upward; the firewall save-file is
//! rendered from them, and save-files are normalized (comments and empty
//! lines dropped, packet counters zeroed) before comparison, so that equal
//! normalized text means no restore is needed.

use vstd::prelude::*;
use crate::addr::{addr_text, addr_text_spec, cidr_text, cidr_text_spec, Cidr};
use crate::bytes::{dec_of, render_u64, push_all, copy_bytes};
use crate::config::{Endpoint, NetworkState, PeerState, UrlParts, veth_name_spec, wgif_name_spec};
use crate::keys::Pubkey;

verus! {

/// The interface section up to the port: `[Interface]`, `ListenPort = `.
pub open spec fn lit_interface() -> Seq<u8> {
    seq![91u8, 73u8, 110u8, 116u8, 101u8, 114u8, 102u8, 97u8, 99u8, 101u8, 93u8, 10u8, 76u8, 105u8, 115u8, 116u8, 101u8, 110u8, 80u8, 111u8, 114u8, 116u8, 32u8, 61u8, 32u8]
}

/// `lit_interface` as a vector.
pub fn lit_interface_bytes() -> (r: Vec<u8>)
    ensures
        r@ == lit_interface(),
{
    let mut v: Vec<u8> = Vec::new();
    v.push(91);
    v.push(73);
    v.push(110);
    v.push(116);
    v.push(101);
    v.push(114);
    v.push(102);
    v.push(97);
    v.push(99);
    v.push(101);
    v.push(93);
    v.push(10);
    v.push(76);
    v.push(105);
    v.push(115);
    v.push(116);
    v.push(101);
    v.push(110);
    v.push(80);
    v.push(111);
    v.push(114);
    v.push(116);
    v.push(32);
    v.push(61);
    v.push(32);
    proof {
        assert(v@ =~= lit_interface());
    }
    v
}
/// The private-key line lead.
pub open spec fn lit_privkey() -> Seq<u8> {
    seq![10u8, 80u8, 114u8, 105u8, 118u8, 97u8, 116u8, 101u8, 75u8, 101u8, 121u8, 32u8, 61u8, 32u8]
}

/// `lit_privkey` as a vector.
pub fn lit_privkey_bytes() -> (r: Vec<u8>)
    ensures
        r@ == lit_privkey(),
{
    let mut v: Vec<u8> = Vec::new();
    v.push(10);
    v.push(80);
    v.push(114);
    v.push(105);
    v.push(118);
    v.push(97);
    v.push(116);
    v.push(101);
    v.push(75);
    v.push(101);
    v.push(121);
    v.push(32);
    v.push(61);
    v.push(32);
    proof {
        assert(v@ =~= lit_privkey());
    }
    v
}
/// The peer section lead.
pub open spec fn lit_peer() -> Seq<u8> {
    seq![10u8, 91u8, 80u8, 101u8, 101u8, 114u8, 93u8, 10u8, 80u8, 117u8, 98u8, 108u8, 105u8, 99u8, 75u8, 101u8, 121u8, 32u8, 61u8, 32u8]
}

/// `lit_peer` as a vector.
pub fn lit_peer_bytes() -> (r: Vec<u8>)
    ensures
        r@ == lit_peer(),
{
    let mut v: Vec<u8> = Vec::new();
    v.push(10);
    v.push(91);
    v.push(80);
    v.push(101);
    v.push(101);
    v.push(114);
    v.push(93);
    v.push(10);
    v.push(80);
    v.push(117);
    v.push(98);
    v.push(108);
    v.push(105);
    v.push(99);
    v.push(75);
    v.push(101);
    v.push(121);
    v.push(32);
    v.push(61);
    v.push(32);
    proof {
        assert(v@ =~= lit_peer());
    }
    v
}
/// The allowed-blocks line lead.
pub open spec fn lit_allowed() -> Seq<u8> {
    seq![10u8, 65u8, 108u8, 108u8, 111u8, 119u8, 101u8, 100u8, 73u8, 80u8, 115u8, 32u8, 61u8, 32u8]
}

/// `lit_allowed` as a vector.
pub fn lit_allowed_bytes() -> (r: Vec<u8>)
    ensures
        r@ == lit_allowed(),
{
    let mut v: Vec<u8> = Vec::new();
    v.push(10);
    v.push(65);
    v.push(108);
    v.push(108);
    v.push(111);
    v.push(119);
    v.push(101);
    v.push(100);
    v.push(73);
    v.push(80);
    v.push(115);
    v.push(32);
    v.push(61);
    v.push(32);
    proof {
        assert(v@ =~= lit_allowed());
    }
    v
}
/// The preshared-key line lead.
pub open spec fn lit_psk() -> Seq<u8> {
    seq![80u8, 114u8, 101u8, 115u8, 104u8, 97u8, 114u8, 101u8, 100u8, 75u8, 101u8, 121u8, 32u8, 61u8, 32u8]
}

/// `lit_psk` as a vector.
pub fn lit_psk_bytes() -> (r: Vec<u8>)
    ensures
        r@ == lit_psk(),
{
    let mut v: Vec<u8> = Vec::new();
    v.push(80);
    v.push(114);
    v.push(101);
    v.push(115);
    v.push(104);
    v.push(97);
    v.push(114);
    v.push(101);
    v.push(100);
    v.push(75);
    v.push(101);
    v.push(121);
    v.push(32);
    v.push(61);
    v.push(32);
    proof {
        assert(v@ =~= lit_psk());
    }
    v
}
/// The endpoint line lead.
pub open spec fn lit_endpoint() -> Seq<u8> {
    seq![69u8, 110u8, 100u8, 112u8, 111u8, 105u8, 110u8, 116u8, 32u8, 61u8, 32u8]
}

/// `lit_endpoint` as a vector.
pub fn lit_endpoint_bytes() -> (r: Vec<u8>)
    ensures
        r@ == lit_endpoint(),
{
    let mut v: Vec<u8> = Vec::new();
    v.push(69);
    v.push(110);
    v.push(100);
    v.push(112);
    v.push(111);
    v.push(105);
    v.push(110);
    v.push(116);
    v.push(32);
    v.push(61);
    v.push(32);
    proof {
        assert(v@ =~= lit_endpoint());
    }
    v
}
/// The fixed keepalive line.
pub open spec fn lit_keepalive() -> Seq<u8> {
    seq![80u8, 101u8, 114u8, 115u8, 105u8, 115u8, 116u8, 101u8, 110u8, 116u8, 75u8, 101u8, 101u8, 112u8, 97u8, 108u8, 105u8, 118u8, 101u8, 32u8, 61u8, 32u8, 50u8, 53u8, 10u8]
}

/// `lit_keepalive` as a vector.
pub fn lit_keepalive_bytes() -> (r: Vec<u8>)
    ensures
        r@ == lit_keepalive(),
{
    let mut v: Vec<u8> = Vec::new();
    v.push(80);
    v.push(101);
    v.push(114);
    v.push(115);
    v.push(105);
    v.push(115);
    v.push(116);
    v.push(101);
    v.push(110);
    v.push(116);
    v.push(75);
    v.push(101);
    v.push(101);
    v.push(112);
    v.push(97);
    v.push(108);
    v.push(105);
    v.push(118);
    v.push(101);
    v.push(32);
    v.push(61);
    v.push(32);
    v.push(50);
    v.push(53);
    v.push(10);
    proof {
        assert(v@ =~= lit_keepalive());
    }
    v
}
/// The list separator.
pub open spec fn lit_comma_sep() -> Seq<u8> {
    seq![44u8, 32u8]
}

/// `lit_comma_sep` as a vector.
pub fn lit_comma_sep_bytes() -> (r: Vec<u8>)
    ensures
        r@ == lit_comma_sep(),
{
    let mut v: Vec<u8> = Vec::new();
    v.push(44);
    v.push(32);
    proof {
        assert(v@ =~= lit_comma_sep());
    }
    v
}
/// The truncated blocks, comma-joined.
pub open spec fn allowed_join(ips: Seq<Cidr>) -> Seq<u8>
    decreases ips.len(),
{
    if ips.len() == 0 {
        Seq::empty()
    } else if ips.len() == 1 {
        cidr_text_spec(ips[0].trunc_spec())
    } else {
        allowed_join(ips.drop_last()) + lit_comma_sep() + cidr_text_spec(
            ips.last().trunc_spec(),
        )
    }
}

/// One peer's section of the configuration text.
pub open spec fn peer_section(key: Seq<u8>, p: PeerState) -> Seq<u8> {
    lit_peer() + key + lit_allowed() + allowed_join(p.allowed_ips@) + seq![10u8] + (match p.preshared_key {
        Option::Some(s) => lit_psk() + s.text@ + seq![10u8],
        Option::None => Seq::empty(),
    }) + (match p.endpoint {
        Option::Some(e) => lit_endpoint() + e@ + seq![10u8],
        Option::None => Seq::empty(),
    }) + lit_keepalive()
}

/// The peer sections of a configuration, in stored order.
pub open spec fn peer_sections(ps: Seq<(Pubkey, PeerState)>) -> Seq<u8>
    decreases ps.len(),
{
    if ps.len() == 0 {
        Seq::empty()
    } else {
        peer_sections(ps.drop_last()) + peer_section(ps.last().0.text@, ps.last().1)
    }
}

/// The whole canonical configuration text of a network.
pub open spec fn wg_config_spec(ns: NetworkState) -> Seq<u8> {
    lit_interface() + dec_of(ns.listen_port as nat) + lit_privkey() + ns.private_key.text@
        + seq![10u8] + peer_sections(ns.peers@)
}

/// Render one peer's section.
pub fn peer_config(key: &Pubkey, p: &PeerState) -> (r: Vec<u8>)
    requires
        p.wf(),
    ensures
        r@ == peer_section(key.text@, *p),
{
    let mut out = lit_peer_bytes();
    push_all(&mut out, &key.text);
    let lead = lit_allowed_bytes();
    push_all(&mut out, &lead);
    let na: usize = p.allowed_ips.len();
    let mut i: usize = 0;
    let ghost head = lit_peer() + key.text@ + lit_allowed();
    proof {
        assert(out@ =~= head);
        assert(allowed_join(p.allowed_ips@.take(0)) =~= Seq::<u8>::empty());
        assert(out@ =~= head + allowed_join(p.allowed_ips@.take(0)));
    }
    while i < na
        invariant
            na == p.allowed_ips@.len(),
            0 <= i <= na,
            p.wf(),
            head == lit_peer() + key.text@ + lit_allowed(),
            out@ =~= head + allowed_join(p.allowed_ips@.take(i as int)),
        decreases na - i,
    {
        if i > 0 {
            let sep = lit_comma_sep_bytes();
            push_all(&mut out, &sep);
        }
        let t = cidr_text(&p.allowed_ips[i].trunc());
        push_all(&mut out, &t);
        proof {
            let taken = p.allowed_ips@.take(i + 1);
            assert(taken.drop_last() =~= p.allowed_ips@.take(i as int));
            assert(taken.last() == p.allowed_ips@[i as int]);
            assert(out@ =~= head + allowed_join(taken));
        }
        i = i + 1;
    }
    proof {
        assert(p.allowed_ips@.take(na as int) =~= p.allowed_ips@);
    }
    out.push(10);
    match &p.preshared_key {
        Option::Some(s) => {
            let lead2 = lit_psk_bytes();
            push_all(&mut out, &lead2);
            push_all(&mut out, &s.text);
            out.push(10);
        },
        Option::None => {},
    }
    match &p.endpoint {
        Option::Some(e) => {
            let lead3 = lit_endpoint_bytes();
            push_all(&mut out, &lead3);
            push_all(&mut out, e);
            out.push(10);
        },
        Option::None => {},
    }
    let tail = lit_keepalive_bytes();
    push_all(&mut out, &tail);
    proof {
        assert(out@ =~= peer_section(key.text@, *p));
    }
    out
}

impl NetworkState {
    /// Render the canonical configuration text.
    pub fn to_config(&self) -> (r: Vec<u8>)
        requires
            self.wf(),
        ensures
            r@ == wg_config_spec(*self),
    {
        let mut out = lit_interface_bytes();
        let port = render_u64(self.listen_port as u64);
        push_all(&mut out, &port);
        let lead = lit_privkey_bytes();
        push_all(&mut out, &lead);
        push_all(&mut out, &self.private_key.text);
        out.push(10);
        let ghost head = lit_interface() + dec_of(self.listen_port as nat) + lit_privkey()
            + self.private_key.text@ + seq![10u8];
        proof {
            assert(out@ =~= head);
            assert(out@ =~= head + peer_sections(self.peers@.take(0)));
        }
        let np: usize = self.peers.len();
        let mut i: usize = 0;
        while i < np
            invariant
                np == self.peers@.len(),
                0 <= i <= np,
                self.wf(),
                head == lit_interface() + dec_of(self.listen_port as nat) + lit_privkey()
                    + self.private_key.text@ + seq![10u8],
                out@ =~= head + peer_sections(self.peers@.take(i as int)),
            decreases np - i,
        {
            proof {
                assert(self.peers@[i as int].1.wf());
            }
            let section = peer_config(&self.peers[i].0, &self.peers[i].1);
            push_all(&mut out, &section);
            proof {
                let taken = self.peers@.take(i + 1);
                assert(taken.drop_last() =~= self.peers@.take(i as int));
                assert(taken.last() == self.peers@[i as int]);
                assert(out@ =~= head + peer_sections(taken));
            }
            i = i + 1;
        }
        proof {
            assert(self.peers@.take(np as int) =~= self.peers@);
        }
        out
    }
}

/// The table header of the rendered save-file.
pub open spec fn lit_nat_header() -> Seq<u8> {
    seq![42u8, 110u8, 97u8, 116u8, 10u8, 58u8, 80u8, 82u8, 69u8, 82u8, 79u8, 85u8, 84u8, 73u8, 78u8, 71u8, 32u8, 65u8, 67u8, 67u8, 69u8, 80u8, 84u8, 32u8, 91u8, 48u8, 58u8, 48u8, 93u8, 10u8, 58u8, 80u8, 79u8, 83u8, 84u8, 82u8, 79u8, 85u8, 84u8, 73u8, 78u8, 71u8, 32u8, 65u8, 67u8, 67u8, 69u8, 80u8, 84u8, 32u8, 91u8, 48u8, 58u8, 48u8, 93u8, 10u8]
}

/// `lit_nat_header` as a vector.
pub fn lit_nat_header_bytes() -> (r: Vec<u8>)
    ensures
        r@ == lit_nat_header(),
{
    let mut v: Vec<u8> = Vec::new();
    v.push(42);
    v.push(110);
    v.push(97);
    v.push(116);
    v.push(10);
    v.push(58);
    v.push(80);
    v.push(82);
    v.push(69);
    v.push(82);
    v.push(79);
    v.push(85);
    v.push(84);
    v.push(73);
    v.push(78);
    v.push(71);
    v.push(32);
    v.push(65);
    v.push(67);
    v.push(67);
    v.push(69);
    v.push(80);
    v.push(84);
    v.push(32);
    v.push(91);
    v.push(48);
    v.push(58);
    v.push(48);
    v.push(93);
    v.push(10);
    v.push(58);
    v.push(80);
    v.push(79);
    v.push(83);
    v.push(84);
    v.push(82);
    v.push(79);
    v.push(85);
    v.push(84);
    v.push(73);
    v.push(78);
    v.push(71);
    v.push(32);
    v.push(65);
    v.push(67);
    v.push(67);
    v.push(69);
    v.push(80);
    v.push(84);
    v.push(32);
    v.push(91);
    v.push(48);
    v.push(58);
    v.push(48);
    v.push(93);
    v.push(10);
    proof {
        assert(v@ =~= lit_nat_header());
    }
    v
}
/// A forwarding rule up to the inbound interface.
pub open spec fn lit_prerouting_a() -> Seq<u8> {
    seq![45u8, 65u8, 32u8, 80u8, 82u8, 69u8, 82u8, 79u8, 85u8, 84u8, 73u8, 78u8, 71u8, 32u8, 45u8, 105u8, 32u8]
}

/// `lit_prerouting_a` as a vector.
pub fn lit_prerouting_a_bytes() -> (r: Vec<u8>)
    ensures
        r@ == lit_prerouting_a(),
{
    let mut v: Vec<u8> = Vec::new();
    v.push(45);
    v.push(65);
    v.push(32);
    v.push(80);
    v.push(82);
    v.push(69);
    v.push(82);
    v.push(79);
    v.push(85);
    v.push(84);
    v.push(73);
    v.push(78);
    v.push(71);
    v.push(32);
    v.push(45);
    v.push(105);
    v.push(32);
    proof {
        assert(v@ =~= lit_prerouting_a());
    }
    v
}
/// A forwarding rule between interface and port.
pub open spec fn lit_prerouting_b() -> Seq<u8> {
    seq![32u8, 45u8, 112u8, 32u8, 116u8, 99u8, 112u8, 32u8, 45u8, 45u8, 100u8, 112u8, 111u8, 114u8, 116u8, 32u8]
}

/// `lit_prerouting_b` as a vector.
pub fn lit_prerouting_b_bytes() -> (r: Vec<u8>)
    ensures
        r@ == lit_prerouting_b(),
{
    let mut v: Vec<u8> = Vec::new();
    v.push(32);
    v.push(45);
    v.push(112);
    v.push(32);
    v.push(116);
    v.push(99);
    v.push(112);
    v.push(32);
    v.push(45);
    v.push(45);
    v.push(100);
    v.push(112);
    v.push(111);
    v.push(114);
    v.push(116);
    v.push(32);
    proof {
        assert(v@ =~= lit_prerouting_b());
    }
    v
}
/// A forwarding rule between port and target.
pub open spec fn lit_prerouting_c() -> Seq<u8> {
    seq![32u8, 45u8, 106u8, 32u8, 68u8, 78u8, 65u8, 84u8, 32u8, 45u8, 45u8, 116u8, 111u8, 45u8, 100u8, 101u8, 115u8, 116u8, 105u8, 110u8, 97u8, 116u8, 105u8, 111u8, 110u8, 32u8]
}

/// `lit_prerouting_c` as a vector.
pub fn lit_prerouting_c_bytes() -> (r: Vec<u8>)
    ensures
        r@ == lit_prerouting_c(),
{
    let mut v: Vec<u8> = Vec::new();
    v.push(32);
    v.push(45);
    v.push(106);
    v.push(32);
    v.push(68);
    v.push(78);
    v.push(65);
    v.push(84);
    v.push(32);
    v.push(45);
    v.push(45);
    v.push(116);
    v.push(111);
    v.push(45);
    v.push(100);
    v.push(101);
    v.push(115);
    v.push(116);
    v.push(105);
    v.push(110);
    v.push(97);
    v.push(116);
    v.push(105);
    v.push(111);
    v.push(110);
    v.push(32);
    proof {
        assert(v@ =~= lit_prerouting_c());
    }
    v
}
/// The masquerade rule up to the outbound interface.
pub open spec fn lit_postrouting_a() -> Seq<u8> {
    seq![45u8, 65u8, 32u8, 80u8, 79u8, 83u8, 84u8, 82u8, 79u8, 85u8, 84u8, 73u8, 78u8, 71u8, 32u8, 45u8, 111u8, 32u8]
}

/// `lit_postrouting_a` as a vector.
pub fn lit_postrouting_a_bytes() -> (r: Vec<u8>)
    ensures
        r@ == lit_postrouting_a(),
{
    let mut v: Vec<u8> = Vec::new();
    v.push(45);
    v.push(65);
    v.push(32);
    v.push(80);
    v.push(79);
    v.push(83);
    v.push(84);
    v.push(82);
    v.push(79);
    v.push(85);
    v.push(84);
    v.push(73);
    v.push(78);
    v.push(71);
    v.push(32);
    v.push(45);
    v.push(111);
    v.push(32);
    proof {
        assert(v@ =~= lit_postrouting_a());
    }
    v
}
/// The masquerade rule between interface and source.
pub open spec fn lit_postrouting_b() -> Seq<u8> {
    seq![32u8, 45u8, 106u8, 32u8, 83u8, 78u8, 65u8, 84u8, 32u8, 45u8, 45u8, 116u8, 111u8, 45u8, 115u8, 111u8, 117u8, 114u8, 99u8, 101u8, 32u8]
}

/// `lit_postrouting_b` as a vector.
pub fn lit_postrouting_b_bytes() -> (r: Vec<u8>)
    ensures
        r@ == lit_postrouting_b(),
{
    let mut v: Vec<u8> = Vec::new();
    v.push(32);
    v.push(45);
    v.push(106);
    v.push(32);
    v.push(83);
    v.push(78);
    v.push(65);
    v.push(84);
    v.push(32);
    v.push(45);
    v.push(45);
    v.push(116);
    v.push(111);
    v.push(45);
    v.push(115);
    v.push(111);
    v.push(117);
    v.push(114);
    v.push(99);
    v.push(101);
    v.push(32);
    proof {
        assert(v@ =~= lit_postrouting_b());
    }
    v
}
/// The table trailer.
pub open spec fn lit_commit() -> Seq<u8> {
    seq![67u8, 79u8, 77u8, 77u8, 73u8, 84u8, 10u8]
}

/// `lit_commit` as a vector.
pub fn lit_commit_bytes() -> (r: Vec<u8>)
    ensures
        r@ == lit_commit(),
{
    let mut v: Vec<u8> = Vec::new();
    v.push(67);
    v.push(79);
    v.push(77);
    v.push(77);
    v.push(73);
    v.push(84);
    v.push(10);
    proof {
        assert(v@ =~= lit_commit());
    }
    v
}
/// A zeroed packet counter.
pub open spec fn lit_zero_counter() -> Seq<u8> {
    seq![91u8, 48u8, 58u8, 48u8, 93u8]
}

/// `lit_zero_counter` as a vector.
pub fn lit_zero_counter_bytes() -> (r: Vec<u8>)
    ensures
        r@ == lit_zero_counter(),
{
    let mut v: Vec<u8> = Vec::new();
    v.push(91);
    v.push(48);
    v.push(58);
    v.push(48);
    v.push(93);
    proof {
        assert(v@ =~= lit_zero_counter());
    }
    v
}
/// One flattened mapping per inner endpoint of every published URL, in
/// proxy order then inner order.
pub open spec fn flat_entries(proxy: Seq<(UrlParts, Vec<Endpoint>)>) -> Seq<(UrlParts, Endpoint)>
    decreases proxy.len(),
{
    if proxy.len() == 0 {
        Seq::empty()
    } else {
        flat_entries(proxy.drop_last()) + proxy.last().1@.map(
            |j: int, e: Endpoint| (proxy.last().0, e),
        )
    }
}

/// Flattening more entries never shortens the result.
pub proof fn lemma_flat_take_mono(proxy: Seq<(UrlParts, Vec<Endpoint>)>, i: int, j: int)
    requires
        0 <= i <= j <= proxy.len(),
    ensures
        flat_entries(proxy.take(i)).len() <= flat_entries(proxy.take(j)).len(),
    decreases j - i,
{
    if i < j {
        lemma_flat_take_mono(proxy, i, j - 1);
        assert(proxy.take(j).drop_last() =~= proxy.take(j - 1));
    }
}

/// The whole sequence is its own take.
pub proof fn lemma_flat_full(proxy: Seq<(UrlParts, Vec<Endpoint>)>)
    ensures
        flat_entries(proxy.take(proxy.len() as int)) == flat_entries(proxy),
{
    assert(proxy.take(proxy.len() as int) =~= proxy);
}

/// The flattened proxy table with external ports assigned from 2000 up.
pub fn port_mappings(ns: &NetworkState) -> (r: Vec<(UrlParts, u16, Endpoint)>)
    requires
        flat_entries(ns.proxy@).len() <= 63535,
    ensures
        r@.len() == flat_entries(ns.proxy@).len(),
        forall|k: int|
            0 <= k < r@.len() ==> ((#[trigger] r@[k]).0.text@ == flat_entries(ns.proxy@)[k].0.text@
                && r@[k].0.scheme@ == flat_entries(ns.proxy@)[k].0.scheme@ && r@[k].0.host@
                == flat_entries(ns.proxy@)[k].0.host@ && r@[k].1 == 2000 + k && r@[k].2.ip_text@
                == flat_entries(ns.proxy@)[k].1.ip_text@ && r@[k].2.port == flat_entries(
                ns.proxy@,
            )[k].1.port),
{
    let ghost proxy = ns.proxy@;
    let ghost total = flat_entries(proxy).len();
    let mut r: Vec<(UrlParts, u16, Endpoint)> = Vec::new();
    let np: usize = ns.proxy.len();
    let mut i: usize = 0;
    while i < np
        invariant
            np == proxy.len(),
            proxy == ns.proxy@,
            0 <= i <= np,
            total == flat_entries(proxy).len(),
            total <= 63535,
            r@.len() == flat_entries(proxy.take(i as int)).len(),
            forall|k: int|
                0 <= k < r@.len() ==> ((#[trigger] r@[k]).0.text@ == flat_entries(
                    proxy.take(i as int),
                )[k].0.text@ && r@[k].0.scheme@ == flat_entries(proxy.take(i as int))[k].0.scheme@
                    && r@[k].0.host@ == flat_entries(proxy.take(i as int))[k].0.host@ && r@[k].1
                    == 2000 + k && r@[k].2.ip_text@ == flat_entries(
                    proxy.take(i as int),
                )[k].1.ip_text@ && r@[k].2.port == flat_entries(proxy.take(i as int))[k].1.port),
        decreases np - i,
    {
        let ghost fe = flat_entries(proxy.take(i as int));
        let ghost fe1 = flat_entries(proxy.take(i + 1));
        proof {
            assert(proxy.take(i + 1).drop_last() =~= proxy.take(i as int));
            assert(proxy.take(i + 1).last() == proxy[i as int]);
            assert(fe1 == fe + proxy[i as int].1@.map(
                |j: int, e: Endpoint| (proxy[i as int].0, e),
            ));
            lemma_flat_take_mono(proxy, i + 1, np as int);
            lemma_flat_full(proxy);
        }
        let ne: usize = ns.proxy[i].1.len();
        let mut j: usize = 0;
        while j < ne
            invariant
                np == proxy.len(),
                proxy == ns.proxy@,
                0 <= i < np,
                ne == proxy[i as int].1@.len(),
                0 <= j <= ne,
                total == flat_entries(proxy).len(),
                total <= 63535,
                fe == flat_entries(proxy.take(i as int)),
                fe1 == flat_entries(proxy.take(i + 1)),
                fe1 == fe + proxy[i as int].1@.map(|jj: int, e: Endpoint| (proxy[i as int].0, e)),
                fe1.len() <= total,
                r@.len() == fe.len() + j,
                forall|k: int|
                    0 <= k < r@.len() ==> ((#[trigger] r@[k]).0.text@ == fe1[k].0.text@
                        && r@[k].0.scheme@ == fe1[k].0.scheme@ && r@[k].0.host@ == fe1[k].0.host@
                        && r@[k].1 == 2000 + k && r@[k].2.ip_text@ == fe1[k].1.ip_text@
                        && r@[k].2.port == fe1[k].1.port),
            decreases ne - j,
        {
            let url = UrlParts {
                text: copy_bytes(&ns.proxy[i].0.text),
                scheme: copy_bytes(&ns.proxy[i].0.scheme),
                host: copy_bytes(&ns.proxy[i].0.host),
            };
            let ep = Endpoint {
                ip_text: copy_bytes(&ns.proxy[i].1[j].ip_text),
                port: ns.proxy[i].1[j].port,
            };
            let port: u16 = 2000 + (r.len() as u16);
            r.push((url, port, ep));
            proof {
                let k = r@.len() - 1;
                assert(fe1[k] == (proxy[i as int].0, proxy[i as int].1@[j as int]));
            }
            j = j + 1;
        }
        proof {
            assert forall|k: int|
                0 <= k < r@.len() implies ((#[trigger] r@[k]).0.text@ == flat_entries(
                proxy.take(i + 1),
            )[k].0.text@ && r@[k].0.scheme@ == flat_entries(proxy.take(i + 1))[k].0.scheme@
                && r@[k].0.host@ == flat_entries(proxy.take(i + 1))[k].0.host@ && r@[k].1 == 2000
                + k && r@[k].2.ip_text@ == flat_entries(proxy.take(i + 1))[k].1.ip_text@
                && r@[k].2.port == flat_entries(proxy.take(i + 1))[k].1.port) by {
                assert(fe1[k].0.text@ == flat_entries(proxy.take(i + 1))[k].0.text@);
            }
        }
        i = i + 1;
    }
    proof {
        lemma_flat_full(proxy);
    }
    r
}

/// One port forwarding of the firewall template.
#[derive(Clone, Debug)]
pub struct PortMapping {
    /// External port, on the veth side.
    pub port_in: u16,
    /// Inner destination port.
    pub port_out: u16,
    /// Inner destination address text.
    pub ip_out: Vec<u8>,
}

/// The input of the firewall template for one network.
#[derive(Clone, Debug)]
pub struct PortConfig {
    /// The veth interface, where forwarded traffic enters.
    pub interface_in: Vec<u8>,
    /// The WireGuard interface, where it leaves.
    pub interface_out: Vec<u8>,
    /// The source address for masquerading: the first interface address.
    pub ip_source: Vec<u8>,
    /// The port forwardings.
    pub mappings: Vec<PortMapping>,
}

impl NetworkState {
    /// The firewall template input of this network.
    pub fn port_config(&self) -> (r: PortConfig)
        requires
            self.address@.len() > 0,
            flat_entries(self.proxy@).len() <= 63535,
        ensures
            r.interface_in@ == veth_name_spec(self.listen_port),
            r.interface_out@ == wgif_name_spec(self.listen_port),
            r.ip_source@ == addr_text_spec(self.address@[0]),
            r.mappings@.len() == flat_entries(self.proxy@).len(),
            forall|k: int|
                0 <= k < r.mappings@.len() ==> ((#[trigger] r.mappings@[k]).port_in == 2000 + k
                    && r.mappings@[k].port_out == flat_entries(self.proxy@)[k].1.port
                    && r.mappings@[k].ip_out@ == flat_entries(self.proxy@)[k].1.ip_text@),
    {
        let flat = port_mappings(self);
        let mut mappings: Vec<PortMapping> = Vec::new();
        let n: usize = flat.len();
        let mut k: usize = 0;
        while k < n
            invariant
                n == flat@.len(),
                0 <= k <= n,
                n == flat_entries(self.proxy@).len(),
                forall|x: int|
                    0 <= x < n ==> ((#[trigger] flat@[x]).1 == 2000 + x && flat@[x].2.ip_text@
                        == flat_entries(self.proxy@)[x].1.ip_text@ && flat@[x].2.port
                        == flat_entries(self.proxy@)[x].1.port),
                mappings@.len() == k,
                forall|x: int|
                    0 <= x < k ==> ((#[trigger] mappings@[x]).port_in == 2000 + x
                        && mappings@[x].port_out == flat_entries(self.proxy@)[x].1.port
                        && mappings@[x].ip_out@ == flat_entries(self.proxy@)[x].1.ip_text@),
            decreases n - k,
        {
            let m = PortMapping {
                port_in: flat[k].1,
                port_out: flat[k].2.port,
                ip_out: copy_bytes(&flat[k].2.ip_text),
            };
            mappings.push(m);
            k = k + 1;
        }
        PortConfig {
            interface_in: crate::config::veth_name_of(self.listen_port),
            interface_out: crate::config::wgif_name_of(self.listen_port),
            ip_source: addr_text(&self.address[0]),
            mappings,
        }
    }
}

/// One rendered forwarding rule.
pub open spec fn prerouting_rule(ifin: Seq<u8>, m: PortMapping) -> Seq<u8> {
    lit_prerouting_a() + ifin + lit_prerouting_b() + dec_of(m.port_in as nat)
        + lit_prerouting_c() + m.ip_out@ + seq![58u8] + dec_of(m.port_out as nat) + seq![10u8]
}

/// All rendered forwarding rules, in order.
pub open spec fn prerouting_rules(ifin: Seq<u8>, ms: Seq<PortMapping>) -> Seq<u8>
    decreases ms.len(),
{
    if ms.len() == 0 {
        Seq::empty()
    } else {
        prerouting_rules(ifin, ms.drop_last()) + prerouting_rule(ifin, ms.last())
    }
}

/// The whole rendered save-file of one network.
pub open spec fn iptables_save_spec(pc: PortConfig) -> Seq<u8> {
    lit_nat_header() + prerouting_rules(pc.interface_in@, pc.mappings@) + lit_postrouting_a()
        + pc.interface_out@ + lit_postrouting_b() + pc.ip_source@ + seq![10u8] + lit_commit()
}

/// Render the save-file of one network.
pub fn render_iptables(pc: &PortConfig) -> (r: Vec<u8>)
    ensures
        r@ == iptables_save_spec(*pc),
{
    let mut out = lit_nat_header_bytes();
    let ghost head = lit_nat_header();
    proof {
        assert(out@ =~= head + prerouting_rules(pc.interface_in@, pc.mappings@.take(0)));
    }
    let n: usize = pc.mappings.len();
    let mut i: usize = 0;
    while i < n
        invariant
            n == pc.mappings@.len(),
            0 <= i <= n,
            head == lit_nat_header(),
            out@ =~= head + prerouting_rules(pc.interface_in@, pc.mappings@.take(i as int)),
        decreases n - i,
    {
        let a = lit_prerouting_a_bytes();
        push_all(&mut out, &a);
        push_all(&mut out, &pc.interface_in);
        let b = lit_prerouting_b_bytes();
        push_all(&mut out, &b);
        let pi = render_u64(pc.mappings[i].port_in as u64);
        push_all(&mut out, &pi);
        let cc = lit_prerouting_c_bytes();
        push_all(&mut out, &cc);
        push_all(&mut out, &pc.mappings[i].ip_out);
        out.push(58);
        let po = render_u64(pc.mappings[i].port_out as u64);
        push_all(&mut out, &po);
        out.push(10);
        proof {
            let taken = pc.mappings@.take(i + 1);
            assert(taken.drop_last() =~= pc.mappings@.take(i as int));
            assert(taken.last() == pc.mappings@[i as int]);
            assert(out@ =~= head + prerouting_rules(pc.interface_in@, taken));
        }
        i = i + 1;
    }
    proof {
        assert(pc.mappings@.take(n as int) =~= pc.mappings@);
    }
    let pa = lit_postrouting_a_bytes();
    push_all(&mut out, &pa);
    push_all(&mut out, &pc.interface_out);
    let pb = lit_postrouting_b_bytes();
    push_all(&mut out, &pb);
    push_all(&mut out, &pc.ip_source);
    out.push(10);
    let cm = lit_commit_bytes();
    push_all(&mut out, &cm);
    proof {
        assert(out@ =~= iptables_save_spec(*pc));
    }
    out
}

/// Positions `k` (of `[`) and `m` (of `:`) of a trailing packet counter
/// `[digits:digits]` at the end of a line.
pub open spec fn counter_suffix_at(line: Seq<u8>, k: int, m: int) -> bool {
    &&& 0 <= k
    &&& k + 2 <= m
    &&& m + 2 <= line.len() - 1
    &&& line[k] == 91
    &&& line[m] == 58
    &&& line[line.len() - 1] == 93
    &&& (forall|t: int| k < t < m ==> crate::bytes::is_digit(line[t]))
    &&& (forall|t: int| m < t < line.len() - 1 ==> crate::bytes::is_digit(line[t]))
}

/// The line ends in a packet counter.
pub open spec fn has_counter_suffix(line: Seq<u8>) -> bool {
    exists|k: int, m: int| counter_suffix_at(line, k, m)
}

/// A trailing counter sits at one position only.
pub proof fn lemma_counter_unique(line: Seq<u8>, k1: int, m1: int, k2: int, m2: int)
    requires
        counter_suffix_at(line, k1, m1),
        counter_suffix_at(line, k2, m2),
    ensures
        k1 == k2,
        m1 == m2,
{
    if m1 < m2 {
        assert(crate::bytes::is_digit(line[m1]));
        assert(false);
    }
    if m2 < m1 {
        assert(crate::bytes::is_digit(line[m2]));
        assert(false);
    }
    if k1 < k2 {
        assert(crate::bytes::is_digit(line[k2]));
        assert(false);
    }
    if k2 < k1 {
        assert(crate::bytes::is_digit(line[k1]));
        assert(false);
    }
}

/// The line with a trailing packet counter zeroed.
pub open spec fn zeroed(line: Seq<u8>) -> Seq<u8> {
    if has_counter_suffix(line) {
        let (k, m) = choose|k: int, m: int| counter_suffix_at(line, k, m);
        line.take(k) + lit_zero_counter()
    } else {
        line
    }
}

/// Zero the trailing packet counter of a line, if it carries one.
pub fn zero_counters(line: &Vec<u8>) -> (r: Vec<u8>)
    ensures
        r@ == zeroed(line@),
{
    let n: usize = line.len();
    if n < 5 || line[n - 1] != 93 {
        proof {
            assert(!has_counter_suffix(line@)) by {
                if has_counter_suffix(line@) {
                    let (k, m) = choose|k: int, m: int| counter_suffix_at(line@, k, m);
                    assert(line@[line@.len() - 1] == 93);
                    assert(m + 2 <= n - 1 && k + 2 <= m && 0 <= k);
                }
            }
        }
        return copy_bytes(line);
    }
    // scan the digits before the closing bracket, expecting a colon
    let mut m: usize = n - 1;
    while m > 0 && 48 <= line[m - 1] && line[m - 1] <= 57
        invariant
            n == line@.len(),
            n >= 5,
            0 <= m <= n - 1,
            forall|t: int| m <= t < n - 1 ==> crate::bytes::is_digit(line@[t]),
        decreases m,
    {
        m = m - 1;
    }
    // now line[m-1] (if any) is not a digit; the colon must sit at m-1
    if m == 0 || m == n - 1 || line[m - 1] != 58 {
        proof {
            assert(!has_counter_suffix(line@)) by {
                if has_counter_suffix(line@) {
                    let (k2, m2) = choose|k2: int, m2: int| counter_suffix_at(line@, k2, m2);
                    assert(m2 >= m - 1) by {
                        if m2 < m - 1 {
                            assert(crate::bytes::is_digit(line@[m2]));
                        }
                    }
                    assert(m2 <= m - 1) by {
                        if m2 > m - 1 {
                            assert(m2 < n - 1);
                            assert(crate::bytes::is_digit(line@[m2])) by {
                                if m2 >= m {
                                } else {
                                }
                            }
                            assert(line@[m2] == 58);
                        }
                    }
                }
            }
        }
        return copy_bytes(line);
    }
    let mc: usize = m - 1;
    // scan the digits before the colon, expecting the opening bracket
    let mut k: usize = mc;
    while k > 0 && 48 <= line[k - 1] && line[k - 1] <= 57
        invariant
            n == line@.len(),
            n >= 5,
            0 <= k <= mc,
            mc <= n - 2,
            forall|t: int| k <= t < mc ==> crate::bytes::is_digit(line@[t]),
        decreases k,
    {
        k = k - 1;
    }
    if k == 0 || k == mc || line[k - 1] != 91 {
        proof {
            assert(!has_counter_suffix(line@)) by {
                if has_counter_suffix(line@) {
                    let (k2, m2) = choose|k2: int, m2: int| counter_suffix_at(line@, k2, m2);
                    assert(m2 == mc as int) by {
                        if m2 < mc {
                            if m2 >= m {
                                assert(crate::bytes::is_digit(line@[m2]));
                            } else {
                                assert(m2 < m - 1);
                                assert(crate::bytes::is_digit(line@[m2]));
                            }
                        }
                        if m2 > mc {
                            assert(line@[mc as int] == 58);
                            assert(crate::bytes::is_digit(line@[mc as int])) by {
                                if m2 < n - 1 {
                                }
                            }
                        }
                    }
                    assert(k2 >= k - 1) by {
                        if k2 < k - 1 {
                            assert(crate::bytes::is_digit(line@[k2]));
                        }
                    }
                    assert(k2 <= k - 1) by {
                        if k2 > k - 1 {
                            assert(crate::bytes::is_digit(line@[k2]));
                            assert(line@[k2] == 91);
                        }
                    }
                }
            }
        }
        return copy_bytes(line);
    }
    let kb: usize = k - 1;
    proof {
        assert(counter_suffix_at(line@, kb as int, mc as int));
        let (k2, m2) = choose|k2: int, m2: int| counter_suffix_at(line@, k2, m2);
        lemma_counter_unique(line@, k2, m2, kb as int, mc as int);
    }
    let mut out: Vec<u8> = Vec::new();
    let mut i: usize = 0;
    while i < kb
        invariant
            n == line@.len(),
            kb < n,
            0 <= i <= kb,
            out@ =~= line@.take(i as int),
        decreases kb - i,
    {
        out.push(line[i]);
        proof {
            assert(line@.take(i + 1) =~= line@.take(i as int).push(line@[i as int]));
        }
        i = i + 1;
    }
    let z = lit_zero_counter_bytes();
    push_all(&mut out, &z);
    proof {
        assert(out@ =~= zeroed(line@));
    }
    out
}

/// A line survives normalization: non-empty and no comment.
pub open spec fn kept(line: Seq<u8>) -> bool {
    line.len() > 0 && line[0] != 35
}

/// The surviving lines, counters zeroed.
pub open spec fn cleaned_lines(lines: Seq<Seq<u8>>) -> Seq<Seq<u8>>
    decreases lines.len(),
{
    if lines.len() == 0 {
        Seq::empty()
    } else {
        let rest = cleaned_lines(lines.drop_last());
        if kept(lines.last()) {
            rest.push(zeroed(lines.last()))
        } else {
            rest
        }
    }
}

/// The normal form of a save-file: comment and empty lines dropped,
/// counters zeroed, a single trailing newline.
pub open spec fn clean_spec(lines: Seq<Seq<u8>>) -> Seq<u8> {
    crate::bytes::join_with(cleaned_lines(lines), 10) + seq![10u8]
}

/// Normalize a save-file for comparison: equal results mean no restore is
/// needed.
pub fn clean_iptables(text: &Vec<u8>) -> (r: Vec<u8>)
    ensures
        forall|lines: Seq<Seq<u8>>|
            crate::stats::input_lines(text@, lines) ==> r@ == clean_spec(lines),
{
    let mut lines = crate::bytes::split_bytes(text, 10);
    let ghost ls = crate::bytes::seq_views(lines@);
    proof {
        assert(crate::stats::input_lines(text@, ls));
        assert forall|other: Seq<Seq<u8>>|
            crate::stats::input_lines(text@, other) implies other =~= ls by {
            crate::bytes::lemma_split_unique(other, ls, 10);
        }
    }
    let mut out: Vec<u8> = Vec::new();
    let ghost done: Seq<Seq<u8>> = Seq::empty();
    let n: usize = lines.len();
    let mut i: usize = 0;
    let mut first: bool = true;
    while i < n
        invariant
            n == lines@.len(),
            0 <= i <= n,
            ls == crate::bytes::seq_views(lines@),
            first <==> cleaned_lines(ls.take(i as int)).len() == 0,
            first ==> out@ =~= Seq::<u8>::empty(),
            !first ==> out@ =~= crate::bytes::join_with(cleaned_lines(ls.take(i as int)), 10),
        decreases n - i,
    {
        let ghost pre = cleaned_lines(ls.take(i as int));
        proof {
            assert(ls.take(i + 1).drop_last() =~= ls.take(i as int));
            assert(ls.take(i + 1).last() == ls[i as int]);
        }
        if lines[i].len() > 0 && lines[i][0] != 35 {
            if !first {
                out.push(10);
            }
            let z = zero_counters(&lines[i]);
            push_all(&mut out, &z);
            proof {
                assert(cleaned_lines(ls.take(i + 1)) == pre.push(zeroed(ls[i as int])));
                crate::bytes::lemma_join_push(pre, zeroed(ls[i as int]), 10);
            }
            first = false;
        } else {
            proof {
                assert(!kept(ls[i as int]));
                assert(cleaned_lines(ls.take(i + 1)) == pre);
            }
        }
        i = i + 1;
    }
    out.push(10);
    proof {
        assert(ls.take(n as int) =~= ls);
        if cleaned_lines(ls).len() == 0 {
            assert(crate::bytes::join_with(cleaned_lines(ls), 10) =~= Seq::<u8>::empty());
            assert(out@ =~= clean_spec(ls));
        } else {
            assert(out@ =~= clean_spec(ls));
        }
    }
    out
}

/// Whether the firewall must be restored, and with what: the desired
/// save-file, normalized, when it differs from the current one normalized.
pub fn firewall_action(current: &Vec<u8>, desired: &Vec<u8>) -> (r: Option<Vec<u8>>)
    ensures
        forall|lc: Seq<Seq<u8>>, ld: Seq<Seq<u8>>|
            crate::stats::input_lines(current@, lc) && crate::stats::input_lines(desired@, ld)
                ==> (r is Some <==> clean_spec(lc) != clean_spec(ld)),
        r matches Some(v) ==> (forall|ld: Seq<Seq<u8>>|
            crate::stats::input_lines(desired@, ld) ==> v@ == clean_spec(ld)),
{
    let c = clean_iptables(current);
    let d = clean_iptables(desired);
    if crate::bytes::bytes_eq(&c, &d) {
        Option::None
    } else {
        Option::Some(d)
    }
}

/// Zeroing is idempotent, keeps a line kept, and adds no newline.
pub proof fn lemma_zeroed_stable(l: Seq<u8>)
    requires
        crate::bytes::sep_free(l, 10),
    ensures
        zeroed(zeroed(l)) == zeroed(l),
        kept(l) ==> kept(zeroed(l)),
        crate::bytes::sep_free(zeroed(l), 10),
{
    if has_counter_suffix(l) {
        let (k, m) = choose|k: int, m: int| counter_suffix_at(l, k, m);
        let zl = l.take(k) + lit_zero_counter();
        assert(zl.len() == k + 5);
        assert(zl[k] == 91);
        assert(zl[k + 1] == 48);
        assert(zl[k + 2] == 58);
        assert(zl[k + 3] == 48);
        assert(zl[k + 4] == 93);
        assert(counter_suffix_at(zl, k, k + 2));
        let (k2, m2) = choose|k2: int, m2: int| counter_suffix_at(zl, k2, m2);
        lemma_counter_unique(zl, k2, m2, k, k + 2);
        assert(zeroed(zl) == zl.take(k) + lit_zero_counter());
        assert(zl.take(k) =~= l.take(k));
        if kept(l) {
            if k > 0 {
                assert(zl[0] == l[0]);
            } else {
                assert(zl[0] == 91);
            }
        }
        assert(crate::bytes::sep_free(zl, 10)) by {
            assert forall|t: int| 0 <= t < zl.len() implies zl[t] != 10 by {
                if t < k {
                    assert(zl[t] == l[t]);
                }
            }
        }
    }
}

/// Lines that are kept and fixed under zeroing pass through normalization
/// unchanged.
proof fn lemma_cleaned_fixed(s: Seq<Seq<u8>>)
    requires
        forall|i: int| 0 <= i < s.len() ==> kept(#[trigger] s[i]),
        forall|i: int| 0 <= i < s.len() ==> zeroed(#[trigger] s[i]) == s[i],
    ensures
        cleaned_lines(s) == s,
    decreases s.len(),
{
    if s.len() > 0 {
        assert forall|i: int| 0 <= i < s.drop_last().len() implies kept(
            #[trigger] s.drop_last()[i],
        ) && zeroed(s.drop_last()[i]) == s.drop_last()[i] by {
            assert(s.drop_last()[i] == s[i]);
        }
        lemma_cleaned_fixed(s.drop_last());
        assert(cleaned_lines(s) =~= s);
    }
}

/// Normalized lines are kept, fixed under zeroing, and newline-free.
proof fn lemma_cleaned_lines_stable(lines: Seq<Seq<u8>>)
    requires
        forall|i: int| 0 <= i < lines.len() ==> crate::bytes::sep_free(#[trigger] lines[i], 10),
    ensures
        forall|i: int|
            0 <= i < cleaned_lines(lines).len() ==> kept(#[trigger] cleaned_lines(lines)[i]),
        forall|i: int|
            0 <= i < cleaned_lines(lines).len() ==> zeroed(#[trigger] cleaned_lines(lines)[i])
                == cleaned_lines(lines)[i],
        forall|i: int|
            0 <= i < cleaned_lines(lines).len() ==> crate::bytes::sep_free(
                #[trigger] cleaned_lines(lines)[i],
                10,
            ),
    decreases lines.len(),
{
    if lines.len() > 0 {
        assert forall|i: int| 0 <= i < lines.drop_last().len() implies crate::bytes::sep_free(
            #[trigger] lines.drop_last()[i],
            10,
        ) by {
            assert(lines.drop_last()[i] == lines[i]);
        }
        lemma_cleaned_lines_stable(lines.drop_last());
        lemma_zeroed_stable(lines.last());
        let pre = cleaned_lines(lines.drop_last());
        if kept(lines.last()) {
            assert(cleaned_lines(lines) == pre.push(zeroed(lines.last())));
            assert forall|i: int| 0 <= i < cleaned_lines(lines).len() implies kept(
                #[trigger] cleaned_lines(lines)[i],
            ) && zeroed(cleaned_lines(lines)[i]) == cleaned_lines(lines)[i]
                && crate::bytes::sep_free(cleaned_lines(lines)[i], 10) by {
                if i < pre.len() {
                    assert(cleaned_lines(lines)[i] == pre[i]);
                } else {
                    assert(cleaned_lines(lines)[i] == zeroed(lines.last()));
                }
            }
        }
    }
}

/// Normalization is idempotent: the normal form of a save-file is its own
/// normal form, so a restore is never needed right after a restore.
pub proof fn lemma_clean_idempotent(lines: Seq<Seq<u8>>)
    requires
        lines.len() >= 1,
        forall|i: int| 0 <= i < lines.len() ==> crate::bytes::sep_free(#[trigger] lines[i], 10),
    ensures
        ({
            let cl = cleaned_lines(lines);
            let w = (if cl.len() == 0 {
                seq![Seq::<u8>::empty()]
            } else {
                cl
            }).push(Seq::<u8>::empty());
            crate::stats::input_lines(clean_spec(lines), w) && clean_spec(w) == clean_spec(lines)
        }),
{
    let cl = cleaned_lines(lines);
    lemma_cleaned_lines_stable(lines);
    let base: Seq<Seq<u8>> = if cl.len() == 0 {
        seq![Seq::<u8>::empty()]
    } else {
        cl
    };
    let w = base.push(Seq::<u8>::empty());
    crate::bytes::lemma_join_push(base, Seq::<u8>::empty(), 10);
    if cl.len() == 0 {
        assert(crate::bytes::join_with(base, 10) =~= Seq::<u8>::empty());
        assert(crate::bytes::join_with(w, 10) =~= clean_spec(lines));
    } else {
        assert(crate::bytes::join_with(w, 10) =~= clean_spec(lines));
    }
    assert forall|i: int| 0 <= i < w.len() implies crate::bytes::sep_free(
        #[trigger] w[i],
        10,
    ) by {
        if i < base.len() {
            if cl.len() == 0 {
                assert(w[i] =~= Seq::<u8>::empty());
            } else {
                assert(w[i] == cl[i]);
            }
        } else {
            assert(w[i] =~= Seq::<u8>::empty());
        }
    }
    assert(crate::stats::input_lines(clean_spec(lines), w));
    // the normal form of `w` is the normal form of `lines`
    assert(cleaned_lines(w) == cleaned_lines(base)) by {
        assert(w.drop_last() =~= base);
        assert(!kept(w.last()));
    }
    if cl.len() == 0 {
        assert(base.drop_last() =~= Seq::<Seq<u8>>::empty());
        assert(cleaned_lines(base.drop_last()) =~= Seq::<Seq<u8>>::empty());
        assert(base.last() =~= Seq::<u8>::empty());
        assert(!kept(base.last()));
        assert(cleaned_lines(base) == cleaned_lines(base.drop_last()));
        assert(cleaned_lines(base) =~= cl);
    } else {
        assert forall|i: int| 0 <= i < cl.len() implies kept(#[trigger] cl[i]) && zeroed(cl[i])
            == cl[i] by {}
        lemma_cleaned_fixed(cl);
    }
}

/// Whether the proxy table flattens to few enough mappings for the port
/// range starting at 2000.
pub fn flat_count_check(ns: &NetworkState) -> (r: bool)
    ensures
        r == (flat_entries(ns.proxy@).len() <= 63535),
{
    let ghost proxy = ns.proxy@;
    let n: usize = ns.proxy.len();
    let mut total: usize = 0;
    let mut i: usize = 0;
    while i < n
        invariant
            n == proxy.len(),
            proxy == ns.proxy@,
            0 <= i <= n,
            total == flat_entries(proxy.take(i as int)).len(),
            total <= 63535,
        decreases n - i,
    {
        let len: usize = ns.proxy[i].1.len();
        proof {
            assert(proxy.take(i + 1).drop_last() =~= proxy.take(i as int));
            assert(proxy.take(i + 1).last() == proxy[i as int]);
            lemma_flat_take_mono(proxy, i + 1, n as int);
            lemma_flat_full(proxy);
        }
        if len > 63535 - total {
            return false;
        }
        total = total + len;
        i = i + 1;
    }
    proof {
        lemma_flat_full(proxy);
    }
    true
}

} // verus!
