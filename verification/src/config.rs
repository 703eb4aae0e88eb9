//! The gateway's configuration model.
//!
//! A `GatewayConfig` maps listen ports to `NetworkState`s; the port is the
//! stable identity of a network inside the gateway. A partial configuration
//! lists ports with an optional value: a present value means upsert, an
//! absent value is an explicit tombstone meaning delete. Derived naming
//! (namespace, WireGuard interface, veth pair, veth address) depends on the
//! listen port alone.

use vstd::prelude::*;
use crate::addr::{Cidr, veth_ipv4net, BRIDGE_BASE_ADDR, BRIDGE_PREFIX};
use crate::bytes::{dec_of, lex_lt, render_u64, push_all};
use crate::keys::{Privkey, Pubkey, Secret};

verus! {

/// Default MTU for WireGuard networks.
pub fn default_mtu() -> (r: usize)
    ensures
        r == 1420,
{
    1420
}

/// The scheme, host and full text of a published URL, as plain values.
#[derive(Clone, Debug)]
pub struct UrlParts {
    /// The full URL text, the map key of `proxy`.
    pub text: Vec<u8>,
    /// The URL scheme, one of `http`, `https`, `ssh` for published URLs.
    pub scheme: Vec<u8>,
    /// The host component: the external name to publish.
    pub host: Vec<u8>,
}

/// An inner endpoint reachable across the tunnel: textual IP plus port.
#[derive(Clone, Debug)]
pub struct Endpoint {
    pub ip_text: Vec<u8>,
    pub port: u16,
}

/// Configuration state of one peer of a WireGuard network.
#[derive(Clone, Debug)]
pub struct PeerState {
    /// Preshared key for this peer.
    pub preshared_key: Option<Secret>,
    /// Allowed IP blocks of this peer.
    pub allowed_ips: Vec<Cidr>,
    /// Last known endpoint, carried textually, used to resume talking.
    pub endpoint: Option<Vec<u8>>,
}

impl PeerState {
    pub open spec fn wf(self) -> bool {
        &&& (self.preshared_key matches Some(k) ==> k.wf())
        &&& (forall|i: int| 0 <= i < self.allowed_ips@.len() ==> self.allowed_ips@[i].wf())
    }
}

/// Configuration state of one WireGuard network.
#[derive(Clone, Debug)]
pub struct NetworkState {
    /// WireGuard private key.
    pub private_key: Privkey,
    /// UDP port this network is reachable on; its identity in the gateway.
    pub listen_port: u16,
    /// MTU for the WireGuard interface.
    pub mtu: usize,
    /// Address blocks assigned to the WireGuard interface.
    pub address: Vec<Cidr>,
    /// Peers, keyed by public key, in key-sorted order.
    pub peers: Vec<(Pubkey, PeerState)>,
    /// Forwarding settings: published URL to ordered inner endpoints,
    /// keyed by URL text, in key-sorted order.
    pub proxy: Vec<(UrlParts, Vec<Endpoint>)>,
}

/// Peers are strictly sorted by public-key text (hence unique).
pub open spec fn peers_sorted(s: Seq<(Pubkey, PeerState)>) -> bool {
    forall|i: int, j: int| 0 <= i < j < s.len() ==> lex_lt(s[i].0.text@, s[j].0.text@)
}

/// Proxy entries are strictly sorted by URL text (hence unique).
pub open spec fn proxy_sorted(s: Seq<(UrlParts, Vec<Endpoint>)>) -> bool {
    forall|i: int, j: int| 0 <= i < j < s.len() ==> lex_lt(s[i].0.text@, s[j].0.text@)
}

impl NetworkState {
    pub open spec fn wf(self) -> bool {
        &&& self.private_key.wf()
        &&& self.mtu >= 1
        &&& (forall|i: int| 0 <= i < self.address@.len() ==> self.address@[i].wf())
        &&& peers_sorted(self.peers@)
        &&& (forall|i: int| 0 <= i < self.peers@.len() ==> self.peers@[i].1.wf())
        &&& proxy_sorted(self.proxy@)
    }

    /// The namespace name derived from this network's port.
    pub fn netns_name(&self) -> (r: Vec<u8>)
        ensures
            r@ == netns_name_spec(self.listen_port),
    {
        netns_name_of(self.listen_port)
    }

    /// The WireGuard interface name derived from this network's port.
    pub fn wgif_name(&self) -> (r: Vec<u8>)
        ensures
            r@ == wgif_name_spec(self.listen_port),
    {
        wgif_name_of(self.listen_port)
    }

    /// The veth interface name derived from this network's port.
    pub fn veth_name(&self) -> (r: Vec<u8>)
        ensures
            r@ == veth_name_spec(self.listen_port),
    {
        veth_name_of(self.listen_port)
    }

    /// The inner veth address derived from this network's port.
    pub fn veth_ipv4net(&self) -> (r: Cidr)
        ensures
            r == (Cidr::V4 {
                addr: (BRIDGE_BASE_ADDR + self.listen_port) as u32,
                prefix: BRIDGE_PREFIX,
            }),
    {
        veth_ipv4net(self.listen_port)
    }
}

/// The reserved namespace prefix, `network-`.
pub open spec fn netns_prefix() -> Seq<u8> {
    seq![110u8, 101u8, 116u8, 119u8, 111u8, 114u8, 107u8, 45u8]
}

/// The WireGuard interface prefix, `wg`.
pub open spec fn wgif_prefix() -> Seq<u8> {
    seq![119u8, 103u8]
}

/// The veth interface prefix, `veth`.
pub open spec fn veth_prefix() -> Seq<u8> {
    seq![118u8, 101u8, 116u8, 104u8]
}

/// The namespace name for a port: `network-<port>`.
pub open spec fn netns_name_spec(port: u16) -> Seq<u8> {
    netns_prefix() + dec_of(port as nat)
}

/// The WireGuard interface name for a port: `wg<port>`.
pub open spec fn wgif_name_spec(port: u16) -> Seq<u8> {
    wgif_prefix() + dec_of(port as nat)
}

/// The veth name for a port: `veth<port>`.
pub open spec fn veth_name_spec(port: u16) -> Seq<u8> {
    veth_prefix() + dec_of(port as nat)
}

/// The reserved namespace prefix as a byte vector.
pub fn netns_prefix_bytes() -> (r: Vec<u8>)
    ensures
        r@ == netns_prefix(),
{
    let mut v: Vec<u8> = Vec::new();
    v.push(110);
    v.push(101);
    v.push(116);
    v.push(119);
    v.push(111);
    v.push(114);
    v.push(107);
    v.push(45);
    proof {
        assert(v@ =~= netns_prefix());
    }
    v
}

/// The namespace name for a port.
pub fn netns_name_of(port: u16) -> (r: Vec<u8>)
    ensures
        r@ == netns_name_spec(port),
{
    let mut v = netns_prefix_bytes();
    let d = render_u64(port as u64);
    push_all(&mut v, &d);
    v
}

/// The WireGuard interface name for a port.
pub fn wgif_name_of(port: u16) -> (r: Vec<u8>)
    ensures
        r@ == wgif_name_spec(port),
{
    let mut v: Vec<u8> = Vec::new();
    v.push(119);
    v.push(103);
    proof {
        assert(v@ =~= wgif_prefix());
    }
    let d = render_u64(port as u64);
    push_all(&mut v, &d);
    v
}

/// The veth name for a port.
pub fn veth_name_of(port: u16) -> (r: Vec<u8>)
    ensures
        r@ == veth_name_spec(port),
{
    let mut v: Vec<u8> = Vec::new();
    v.push(118);
    v.push(101);
    v.push(116);
    v.push(104);
    proof {
        assert(v@ =~= veth_prefix());
    }
    let d = render_u64(port as u64);
    push_all(&mut v, &d);
    v
}

/// Naming determinism: every derived name and the derived veth address
/// depend on the listen port alone, so two networks with the same port get
/// the same names whatever their other fields hold.
pub proof fn lemma_naming_deterministic(a: NetworkState, b: NetworkState)
    requires
        a.listen_port == b.listen_port,
    ensures
        netns_name_spec(a.listen_port) == netns_name_spec(b.listen_port),
        wgif_name_spec(a.listen_port) == wgif_name_spec(b.listen_port),
        veth_name_spec(a.listen_port) == veth_name_spec(b.listen_port),
{
}

/// Distinct ports derive distinct namespace names.
pub proof fn lemma_netns_name_injective(p1: u16, p2: u16)
    ensures
        netns_name_spec(p1) == netns_name_spec(p2) ==> p1 == p2,
{
    if netns_name_spec(p1) == netns_name_spec(p2) {
        let a = netns_prefix();
        assert(dec_of(p1 as nat) =~= (a + dec_of(p1 as nat)).skip(a.len() as int));
        assert(dec_of(p2 as nat) =~= (a + dec_of(p2 as nat)).skip(a.len() as int));
        crate::bytes::lemma_dec_of_injective(p1 as nat, p2 as nat);
    }
}

/// The whole configuration of the gateway: networks keyed by listen port.
#[derive(Clone, Debug)]
pub struct GatewayConfig {
    pub networks: Vec<(u16, NetworkState)>,
}

/// The ports of the entries are pairwise distinct.
pub open spec fn config_ports_unique(s: Seq<(u16, NetworkState)>) -> bool {
    forall|i: int, j: int| 0 <= i < j < s.len() ==> s[i].0 != s[j].0
}

impl GatewayConfig {
    /// Keys unique, and every network well-formed.
    pub open spec fn wf(self) -> bool {
        &&& config_ports_unique(self.networks@)
        &&& (forall|i: int| 0 <= i < self.networks@.len() ==> self.networks@[i].1.wf())
    }

    /// Whether a port is configured.
    pub open spec fn has_port(self, p: u16) -> bool {
        exists|i: int| 0 <= i < self.networks@.len() && self.networks@[i].0 == p
    }

    /// The network configured at a port.
    pub open spec fn net_at(self, p: u16) -> NetworkState {
        self.networks@[choose|i: int|
            0 <= i < self.networks@.len() && self.networks@[i].0 == p].1
    }

    /// The configuration as a mathematical map from port to network.
    pub open spec fn as_map(self) -> Map<u16, NetworkState> {
        Map::new(|p: u16| self.has_port(p), |p: u16| self.net_at(p))
    }

    /// The empty configuration.
    pub fn empty() -> (r: GatewayConfig)
        ensures
            r.networks@.len() == 0,
            r.as_map() =~= Map::<u16, NetworkState>::empty(),
            r.wf(),
    {
        GatewayConfig { networks: Vec::new() }
    }

    /// Move the port-to-network entries out.
    pub fn into_inner(self) -> (r: Vec<(u16, NetworkState)>)
        ensures
            r@ == self.networks@,
    {
        self.networks
    }

    /// Look a port up.
    pub fn get(&self, p: u16) -> (r: Option<&NetworkState>)
        requires
            config_ports_unique(self.networks@),
        ensures
            r is Some <==> self.has_port(p),
            r matches Some(ns) ==> *ns == self.net_at(p),
    {
        let n: usize = self.networks.len();
        let mut i: usize = 0;
        while i < n
            invariant
                n == self.networks@.len(),
                0 <= i <= n,
                config_ports_unique(self.networks@),
                forall|j: int| 0 <= j < i ==> self.networks@[j].0 != p,
            decreases n - i,
        {
            if self.networks[i].0 == p {
                proof {
                    let w = choose|w: int| 0 <= w < self.networks@.len() && self.networks@[w].0 == p;
                    assert(w == i);
                }
                return Some(&self.networks[i].1);
            }
            i = i + 1;
        }
        None
    }

    /// With unique ports, the entry at any index is what the map lookup
    /// gives for its port.
    proof fn lemma_net_at_index(self, i: int)
        requires
            config_ports_unique(self.networks@),
            0 <= i < self.networks@.len(),
        ensures
            self.has_port(self.networks@[i].0),
            self.net_at(self.networks@[i].0) == self.networks@[i].1,
    {
        let q = self.networks@[i].0;
        assert(0 <= i < self.networks@.len() && self.networks@[i].0 == q);
        let k = choose|k: int| 0 <= k < self.networks@.len() && self.networks@[k].0 == q;
        if k != i {
            if k < i {
                assert(self.networks@[k].0 != self.networks@[i].0);
            } else {
                assert(self.networks@[i].0 != self.networks@[k].0);
            }
        }
    }

    /// Upsert a network at a port.
    pub fn insert(&mut self, p: u16, ns: NetworkState)
        requires
            config_ports_unique(old(self).networks@),
        ensures
            config_ports_unique(final(self).networks@),
            final(self).as_map() =~= old(self).as_map().insert(p, ns),
            old(self).wf() && ns.wf() ==> final(self).wf(),
    {
        let n: usize = self.networks.len();
        let mut i: usize = 0;
        while i < n
            invariant
                n == self.networks@.len(),
                0 <= i <= n,
                self.networks@ == old(self).networks@,
                config_ports_unique(self.networks@),
                forall|j: int| 0 <= j < i ==> self.networks@[j].0 != p,
            decreases n - i,
        {
            if self.networks[i].0 == p {
                let ghost prev = *self;
                let ghost ii = i as int;
                self.networks[i] = (p, ns);
                proof {
                    let cur = *self;
                    let s_old = prev.networks@;
                    let s_new = cur.networks@;
                    assert(s_new == s_old.update(ii, (p, ns)));
                    assert(config_ports_unique(s_new)) by {
                        assert forall|a: int, b: int|
                            0 <= a < b < s_new.len() implies s_new[a].0 != s_new[b].0 by {
                            if a != ii && b != ii {
                                assert(s_old[a].0 != s_old[b].0);
                            } else if a == ii {
                                assert(s_old[b].0 != p);
                            } else {
                                assert(s_old[a].0 != p);
                            }
                        }
                    }
                    assert forall|q: u16| #[trigger] cur.as_map().dom().contains(q)
                        == prev.as_map().insert(p, ns).dom().contains(q) by {
                        if q == p {
                            assert(s_new[ii].0 == p);
                            assert(cur.has_port(p));
                        } else {
                            if cur.has_port(q) {
                                let k = choose|k: int|
                                    0 <= k < s_new.len() && s_new[k].0 == q;
                                assert(s_old[k].0 == q);
                                assert(prev.has_port(q));
                            }
                            if prev.has_port(q) {
                                let k = choose|k: int|
                                    0 <= k < s_old.len() && s_old[k].0 == q;
                                assert(s_new[k].0 == q);
                                assert(cur.has_port(q));
                            }
                        }
                    }
                    assert forall|q: u16|
                        cur.as_map().dom().contains(q) implies #[trigger] cur.as_map()[q]
                        == prev.as_map().insert(p, ns)[q] by {
                        if q == p {
                            cur.lemma_net_at_index(ii);
                        } else {
                            let k = choose|k: int| 0 <= k < s_new.len() && s_new[k].0 == q;
                            cur.lemma_net_at_index(k);
                            prev.lemma_net_at_index(k);
                        }
                    }
                    assert(cur.as_map() =~= prev.as_map().insert(p, ns));
                }
                return ;
            }
            i = i + 1;
        }
        let ghost prev = *self;
        self.networks.push((p, ns));
        proof {
            let cur = *self;
            let s_old = prev.networks@;
            let s_new = cur.networks@;
            let nn = s_old.len() as int;
            assert(s_new =~= s_old.push((p, ns)));
            assert(config_ports_unique(s_new)) by {
                assert forall|a: int, b: int|
                    0 <= a < b < s_new.len() implies s_new[a].0 != s_new[b].0 by {
                    if b < nn {
                        assert(s_old[a].0 != s_old[b].0);
                    } else {
                        assert(s_old[a].0 != p);
                    }
                }
            }
            assert forall|q: u16| #[trigger] cur.as_map().dom().contains(q)
                == prev.as_map().insert(p, ns).dom().contains(q) by {
                if q == p {
                    assert(s_new[nn].0 == p);
                    assert(cur.has_port(p));
                } else {
                    if cur.has_port(q) {
                        let k = choose|k: int| 0 <= k < s_new.len() && s_new[k].0 == q;
                        assert(k < nn);
                        assert(s_old[k].0 == q);
                        assert(prev.has_port(q));
                    }
                    if prev.has_port(q) {
                        let k = choose|k: int| 0 <= k < s_old.len() && s_old[k].0 == q;
                        assert(s_new[k].0 == q);
                        assert(cur.has_port(q));
                    }
                }
            }
            assert forall|q: u16|
                cur.as_map().dom().contains(q) implies #[trigger] cur.as_map()[q]
                == prev.as_map().insert(p, ns)[q] by {
                if q == p {
                    cur.lemma_net_at_index(nn);
                } else {
                    let k = choose|k: int| 0 <= k < s_new.len() && s_new[k].0 == q;
                    assert(k < nn);
                    cur.lemma_net_at_index(k);
                    prev.lemma_net_at_index(k);
                }
            }
            assert(cur.as_map() =~= prev.as_map().insert(p, ns));
        }
    }

    /// Delete a port, if present.
    pub fn remove(&mut self, p: u16)
        requires
            config_ports_unique(old(self).networks@),
        ensures
            config_ports_unique(final(self).networks@),
            final(self).as_map() =~= old(self).as_map().remove(p),
            old(self).wf() ==> final(self).wf(),
    {
        let n: usize = self.networks.len();
        let mut i: usize = 0;
        while i < n
            invariant
                n == self.networks@.len(),
                0 <= i <= n,
                self.networks@ == old(self).networks@,
                config_ports_unique(self.networks@),
                forall|j: int| 0 <= j < i ==> self.networks@[j].0 != p,
            decreases n - i,
        {
            if self.networks[i].0 == p {
                let ghost prev = *self;
                let ghost ii = i as int;
                self.networks.remove(i);
                proof {
                    let cur = *self;
                    let s_old = prev.networks@;
                    let s_new = cur.networks@;
                    assert(s_new == s_old.remove(ii));
                    assert(s_new.len() == s_old.len() - 1);
                    assert forall|k: int| 0 <= k < s_new.len() implies #[trigger] s_new[k] == (
                    if k < ii {
                        s_old[k]
                    } else {
                        s_old[k + 1]
                    }) by {}
                    assert(config_ports_unique(s_new)) by {
                        assert forall|a: int, b: int|
                            0 <= a < b < s_new.len() implies s_new[a].0 != s_new[b].0 by {
                            let a0 = if a < ii { a } else { a + 1 };
                            let b0 = if b < ii { b } else { b + 1 };
                            assert(s_old[a0].0 != s_old[b0].0);
                        }
                    }
                    assert forall|q: u16| #[trigger] cur.as_map().dom().contains(q)
                        == prev.as_map().remove(p).dom().contains(q) by {
                        if q == p {
                            if cur.has_port(p) {
                                let k = choose|k: int|
                                    0 <= k < s_new.len() && s_new[k].0 == p;
                                let k0 = if k < ii { k } else { k + 1 };
                                assert(s_old[k0].0 == p);
                                assert(s_old[ii].0 == p);
                                if k0 < ii {
                                    assert(s_old[k0].0 != s_old[ii].0);
                                } else {
                                    assert(s_old[ii].0 != s_old[k0].0);
                                }
                            }
                        } else {
                            if cur.has_port(q) {
                                let k = choose|k: int|
                                    0 <= k < s_new.len() && s_new[k].0 == q;
                                let k0 = if k < ii { k } else { k + 1 };
                                assert(s_old[k0].0 == q);
                                assert(prev.has_port(q));
                            }
                            if prev.has_port(q) {
                                let k = choose|k: int|
                                    0 <= k < s_old.len() && s_old[k].0 == q;
                                assert(k != ii);
                                if k < ii {
                                    assert(s_new[k].0 == q);
                                } else {
                                    assert(s_new[k - 1].0 == q);
                                }
                                assert(cur.has_port(q));
                            }
                        }
                    }
                    assert forall|q: u16|
                        cur.as_map().dom().contains(q) implies #[trigger] cur.as_map()[q]
                        == prev.as_map().remove(p)[q] by {
                        let k = choose|k: int| 0 <= k < s_new.len() && s_new[k].0 == q;
                        let k0 = if k < ii { k } else { k + 1 };
                        assert(s_old[k0] == s_new[k]);
                        cur.lemma_net_at_index(k);
                        prev.lemma_net_at_index(k0);
                    }
                    assert(cur.as_map() =~= prev.as_map().remove(p));
                }
                return ;
            }
            i = i + 1;
        }
        proof {
            assert forall|q: u16| #[trigger] self.as_map().dom().contains(q)
                == old(self).as_map().remove(p).dom().contains(q) by {}
            assert(self.as_map() =~= old(self).as_map().remove(p));
        }
    }
}

/// A partial configuration: every listed port changes; a present value is
/// an upsert, an absent value an explicit tombstone meaning delete.
#[derive(Clone, Debug)]
pub struct GatewayConfigPartial {
    pub entries: Vec<(u16, Option<NetworkState>)>,
}

/// The ports of the entries are pairwise distinct.
pub open spec fn partial_ports_unique(s: Seq<(u16, Option<NetworkState>)>) -> bool {
    forall|i: int, j: int| 0 <= i < j < s.len() ==> s[i].0 != s[j].0
}

impl GatewayConfigPartial {
    pub open spec fn wf(self) -> bool {
        &&& partial_ports_unique(self.entries@)
        &&& (forall|i: int|
            0 <= i < self.entries@.len() ==> (#[trigger] self.entries@[i].1 matches Some(ns)
                ==> ns.wf()))
    }

    /// Move the entries out.
    pub fn into_inner(self) -> (r: Vec<(u16, Option<NetworkState>)>)
        ensures
            r@ == self.entries@,
    {
        self.entries
    }
}

/// The meaning of a partial configuration: entries applied to a base map in
/// order, a present value upserting its port, an absent one deleting it.
pub open spec fn merge_spec(
    base: Map<u16, NetworkState>,
    part: Seq<(u16, Option<NetworkState>)>,
) -> Map<u16, NetworkState>
    decreases part.len(),
{
    if part.len() == 0 {
        base
    } else {
        let m = merge_spec(base, part.drop_last());
        match part.last().1 {
            Option::None => m.remove(part.last().0),
            Option::Some(ns) => m.insert(part.last().0, ns),
        }
    }
}

impl GatewayConfig {
    /// Apply a partial configuration: upsert every present value, delete
    /// every tombstoned port.
    pub fn apply_partial(&mut self, partial: GatewayConfigPartial)
        requires
            config_ports_unique(old(self).networks@),
        ensures
            config_ports_unique(final(self).networks@),
            final(self).as_map() =~= merge_spec(old(self).as_map(), partial.entries@),
            old(self).wf() && partial.wf() ==> final(self).wf(),
    {
        let ghost all = partial.entries@;
        let ghost base = old(self).as_map();
        let mut rest: Vec<(u16, Option<NetworkState>)> = partial.into_inner();
        let rest_len: usize = rest.len();
        let ghost n: nat = all.len();
        proof {
            assert(n == rest_len as nat);
        }
        let mut i: usize = 0;
        while rest.len() > 0
            invariant
                n == all.len(),
                base == old(self).as_map(),
                i + rest@.len() == n,
                i <= n <= usize::MAX,
                all =~= all.take(i as int) + rest@,
                config_ports_unique(self.networks@),
                self.as_map() =~= merge_spec(base, all.take(i as int)),
                old(self).wf() && (forall|k: int|
                    0 <= k < all.len() ==> (#[trigger] all[k].1 matches Some(ns) ==> ns.wf()))
                    ==> self.wf(),
            decreases rest@.len(),
        {
            let ghost pre = self.as_map();
            let ghost rest0 = rest@;
            let e = rest.remove(0);
            proof {
                assert(rest0.len() > 0);
                assert(i < n);
                assert(all.take(i as int).len() == i as int);
                assert((all.take(i as int) + rest0)[i as int] == rest0[0]);
                assert(e == all[i as int]);
                assert(all.take(i + 1) =~= all.take(i as int).push(e));
                assert(rest@ =~= rest0.skip(1));
            }
            let (p, entry) = e;
            match entry {
                Option::None => {
                    self.remove(p);
                },
                Option::Some(ns) => {
                    self.insert(p, ns);
                },
            }
            proof {
                let t1 = all.take(i + 1);
                assert(t1.drop_last() =~= all.take(i as int));
                assert(t1.last() == all[i as int]);
                assert(all.take(i as int) + rest0 =~= all);
                assert(all.take(i + 1) + rest@ =~= all);
            }
            i = i + 1;
        }
        proof {
            assert(all.take(n as int) =~= all);
        }
    }
}

/// Tombstone/upsert semantics, port-wise: after a merge, a port listed in
/// the partial holds its new value (or is gone, for a tombstone), and every
/// unlisted port is untouched.
pub proof fn lemma_merge_portwise(
    base: Map<u16, NetworkState>,
    part: Seq<(u16, Option<NetworkState>)>,
    p: u16,
)
    requires
        forall|i: int, j: int| 0 <= i < j < part.len() ==> part[i].0 != part[j].0,
    ensures
        (forall|i: int| 0 <= i < part.len() ==> part[i].0 != p) ==> (merge_spec(
            base,
            part,
        ).dom().contains(p) == base.dom().contains(p) && (base.dom().contains(p) ==> merge_spec(
            base,
            part,
        )[p] == base[p])),
        forall|i: int|
            0 <= i < part.len() && part[i].0 == p ==> (match part[i].1 {
                Option::None => !merge_spec(base, part).dom().contains(p),
                Option::Some(ns) => merge_spec(base, part).dom().contains(p) && merge_spec(
                    base,
                    part,
                )[p] == ns,
            }),
    decreases part.len(),
{
    if part.len() > 0 {
        lemma_merge_portwise(base, part.drop_last(), p);
        assert forall|i: int| 0 <= i < part.len() - 1 implies part.drop_last()[i]
            == part[i] by {}
    }
}


/// Whether every port in the configuration occurs once.
pub fn config_ports_unique_check(cfg: &GatewayConfig) -> (r: bool)
    ensures
        r == config_ports_unique(cfg.networks@),
{
    let n: usize = cfg.networks.len();
    let mut i: usize = 0;
    while i < n
        invariant
            n == cfg.networks@.len(),
            0 <= i <= n,
            forall|a: int, b: int| 0 <= a < b < i ==> cfg.networks@[a].0 != cfg.networks@[b].0,
        decreases n - i,
    {
        let mut j: usize = 0;
        while j < i
            invariant
                n == cfg.networks@.len(),
                0 <= j <= i < n,
                forall|a: int, b: int| 0 <= a < b < i ==> cfg.networks@[a].0 != cfg.networks@[b].0,
                forall|a: int| 0 <= a < j ==> cfg.networks@[a].0 != cfg.networks@[i as int].0,
            decreases i - j,
        {
            if cfg.networks[j].0 == cfg.networks[i].0 {
                return false;
            }
            j = j + 1;
        }
        i = i + 1;
    }
    true
}

/// Whether a peer's fields are well-formed.
fn peer_wf_check(p: &PeerState) -> (r: bool)
    ensures
        r == p.wf(),
{
    match &p.preshared_key {
        Option::Some(k) => {
            if !k.valid() {
                return false;
            }
        },
        Option::None => {},
    }
    let n: usize = p.allowed_ips.len();
    let mut i: usize = 0;
    while i < n
        invariant
            n == p.allowed_ips@.len(),
            0 <= i <= n,
            p.preshared_key matches Some(k) ==> k.wf(),
            forall|j: int| 0 <= j < i ==> p.allowed_ips@[j].wf(),
        decreases n - i,
    {
        if !p.allowed_ips[i].valid() {
            return false;
        }
        i = i + 1;
    }
    true
}

/// Whether a network's fields are well-formed: valid keys, a positive
/// MTU, bounded prefixes, and key-sorted peer and proxy tables.
pub fn network_wf_check(ns: &NetworkState) -> (r: bool)
    ensures
        r == ns.wf(),
{
    if !ns.private_key.valid() {
        return false;
    }
    if ns.mtu < 1 {
        return false;
    }
    let na: usize = ns.address.len();
    let mut i: usize = 0;
    while i < na
        invariant
            na == ns.address@.len(),
            0 <= i <= na,
            forall|j: int| 0 <= j < i ==> ns.address@[j].wf(),
        decreases na - i,
    {
        if !ns.address[i].valid() {
            return false;
        }
        i = i + 1;
    }
    let np: usize = ns.peers.len();
    let mut i: usize = 0;
    while i < np
        invariant
            np == ns.peers@.len(),
            0 <= i <= np,
            forall|a: int, b: int|
                0 <= a < b < i ==> lex_lt(ns.peers@[a].0.text@, ns.peers@[b].0.text@),
            forall|j: int| 0 <= j < i ==> ns.peers@[j].1.wf(),
        decreases np - i,
    {
        if i > 0 && !crate::bytes::bytes_lt(&ns.peers[i - 1].0.text, &ns.peers[i].0.text) {
            return false;
        }
        if !peer_wf_check(&ns.peers[i].1) {
            return false;
        }
        proof {
            assert forall|a: int, b: int|
                0 <= a < b < i + 1 implies lex_lt(
                ns.peers@[a].0.text@,
                ns.peers@[b].0.text@,
            ) by {
                if b == i {
                    if a < i - 1 {
                        assert(lex_lt(ns.peers@[a].0.text@, ns.peers@[i - 1].0.text@));
                        crate::bytes::lemma_lex_trans(
                            ns.peers@[a].0.text@,
                            ns.peers@[i - 1].0.text@,
                            ns.peers@[i as int].0.text@,
                        );
                    }
                }
            }
        }
        i = i + 1;
    }
    let nx: usize = ns.proxy.len();
    let mut i: usize = 0;
    while i < nx
        invariant
            nx == ns.proxy@.len(),
            0 <= i <= nx,
            ns.private_key.wf(),
            forall|a: int, b: int|
                0 <= a < b < i ==> lex_lt(ns.proxy@[a].0.text@, ns.proxy@[b].0.text@),
        decreases nx - i,
    {
        if i > 0 && !crate::bytes::bytes_lt(&ns.proxy[i - 1].0.text, &ns.proxy[i].0.text) {
            return false;
        }
        proof {
            assert forall|a: int, b: int|
                0 <= a < b < i + 1 implies lex_lt(
                ns.proxy@[a].0.text@,
                ns.proxy@[b].0.text@,
            ) by {
                if b == i {
                    if a < i - 1 {
                        assert(lex_lt(ns.proxy@[a].0.text@, ns.proxy@[i - 1].0.text@));
                        crate::bytes::lemma_lex_trans(
                            ns.proxy@[a].0.text@,
                            ns.proxy@[i - 1].0.text@,
                            ns.proxy@[i as int].0.text@,
                        );
                    }
                }
            }
        }
        i = i + 1;
    }
    true
}

} // verus!
