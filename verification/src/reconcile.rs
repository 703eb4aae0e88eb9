//! The differential reconciler's decisions.
//!
//! The reconciler drives the host from its realized state to a declared
//! configuration. The surrounding process queries the host (which
//! namespaces exist, an interface's MTU and addresses, the current firewall
//! text) and performs the actions; every decision between a query and an
//! action is taken here, on plain values. Deletion of surplus namespaces
//! comes before any creation; within one network the order is namespace,
//! WireGuard, veth, firewall; reconciliation of addresses is additive, so
//! addresses no longer declared stay until the interface is recreated.

use vstd::prelude::*;
use crate::addr::Cidr;
use crate::bytes::{has_prefix, bytes_eq, push_all, starts_with};
use crate::config::{
    config_ports_unique, merge_spec, netns_name_of, netns_name_spec, netns_prefix,
    netns_prefix_bytes, wgif_name_spec, GatewayConfig, GatewayConfigPartial,
};
use crate::GatewayError;

verus! {

/// The namespace names a configuration calls for.
pub open spec fn expected_netns(cfg: GatewayConfig) -> Set<Seq<u8>> {
    Set::new(
        |n: Seq<u8>| exists|p: u16| #[trigger] cfg.has_port(p) && n == netns_name_spec(p),
    )
}

/// Every derived namespace name carries the reserved prefix.
pub proof fn lemma_netns_name_prefixed(p: u16)
    ensures
        has_prefix(netns_name_spec(p), netns_prefix()),
{
    assert((netns_prefix() + crate::bytes::dec_of(p as nat)).take(netns_prefix().len() as int)
        =~= netns_prefix());
}

/// Whether a namespace name is called for by the configuration.
pub fn netns_expected(cfg: &GatewayConfig, name: &Vec<u8>) -> (r: bool)
    requires
        config_ports_unique(cfg.networks@),
    ensures
        r == expected_netns(*cfg).contains(name@),
{
    let n: usize = cfg.networks.len();
    let mut i: usize = 0;
    while i < n
        invariant
            n == cfg.networks@.len(),
            0 <= i <= n,
            config_ports_unique(cfg.networks@),
            forall|j: int| 0 <= j < i ==> name@ != netns_name_spec((#[trigger] cfg.networks@[j]).0),
        decreases n - i,
    {
        let cand = netns_name_of(cfg.networks[i].0);
        if bytes_eq(name, &cand) {
            proof {
                let p = cfg.networks@[i as int].0;
                assert(cfg.has_port(p));
            }
            return true;
        }
        i = i + 1;
    }
    proof {
        if expected_netns(*cfg).contains(name@) {
            let p = choose|p: u16| #[trigger] cfg.has_port(p) && name@ == netns_name_spec(p);
            let j = choose|j: int|
                0 <= j < cfg.networks@.len() && cfg.networks@[j].0 == p;
            assert(name@ != netns_name_spec(cfg.networks@[j].0));
        }
    }
    false
}

/// The namespaces to delete: every existing name with the reserved prefix
/// whose port the configuration does not hold. Surplus deletion comes
/// before any creation, so freed ports can be reassigned in the same call.
pub fn surplus_namespaces(existing: &Vec<Vec<u8>>, cfg: &GatewayConfig) -> (r: Vec<Vec<u8>>)
    requires
        config_ports_unique(cfg.networks@),
    ensures
        forall|j: int|
            0 <= j < r@.len() ==> (has_prefix(#[trigger] r@[j]@, netns_prefix())
                && !expected_netns(*cfg).contains(r@[j]@) && (exists|i: int|
                0 <= i < existing@.len() && (#[trigger] existing@[i])@ == r@[j]@)),
        forall|i: int|
            0 <= i < existing@.len() && has_prefix((#[trigger] existing@[i])@, netns_prefix())
                && !expected_netns(*cfg).contains(existing@[i]@) ==> (exists|j: int|
                0 <= j < r@.len() && (#[trigger] r@[j])@ == existing@[i]@),
{
    let prefix = netns_prefix_bytes();
    let n: usize = existing.len();
    let mut r: Vec<Vec<u8>> = Vec::new();
    let mut i: usize = 0;
    while i < n
        invariant
            n == existing@.len(),
            0 <= i <= n,
            config_ports_unique(cfg.networks@),
            prefix@ == netns_prefix(),
            forall|j: int|
                0 <= j < r@.len() ==> (has_prefix(#[trigger] r@[j]@, netns_prefix())
                    && !expected_netns(*cfg).contains(r@[j]@) && (exists|x: int|
                    0 <= x < existing@.len() && (#[trigger] existing@[x])@ == r@[j]@)),
            forall|x: int|
                0 <= x < i && has_prefix((#[trigger] existing@[x])@, netns_prefix())
                    && !expected_netns(*cfg).contains(existing@[x]@) ==> (exists|j: int|
                    0 <= j < r@.len() && (#[trigger] r@[j])@ == existing@[x]@),
        decreases n - i,
    {
        let ghost r0 = r@;
        if starts_with(&existing[i], &prefix) && !netns_expected(cfg, &existing[i]) {
            let name = crate::bytes::copy_bytes(&existing[i]);
            let ghost namev = name@;
            r.push(name);
            proof {
                assert(r@ =~= r0.push(r@.last()));
                assert(r@.last()@ == existing@[i as int]@);
                assert forall|j: int|
                    0 <= j < r@.len() implies (has_prefix(#[trigger] r@[j]@, netns_prefix())
                    && !expected_netns(*cfg).contains(r@[j]@) && (exists|x: int|
                    0 <= x < existing@.len() && (#[trigger] existing@[x])@ == r@[j]@)) by {
                    if j < r0.len() {
                        assert(r@[j] == r0[j]);
                    } else {
                        assert(r@[j]@ == existing@[i as int]@);
                        assert(0 <= i < existing@.len() && existing@[i as int]@ == r@[j]@);
                    }
                }
                assert forall|x: int|
                    0 <= x < i + 1 && has_prefix((#[trigger] existing@[x])@, netns_prefix())
                        && !expected_netns(*cfg).contains(existing@[x]@) implies (exists|j: int|
                    0 <= j < r@.len() && (#[trigger] r@[j])@ == existing@[x]@) by {
                    if x < i {
                        let j = choose|j: int|
                            0 <= j < r0.len() && (#[trigger] r0[j])@ == existing@[x]@;
                        assert(r@[j]@ == existing@[x]@);
                    } else {
                        assert(r@[r@.len() - 1]@ == existing@[x]@);
                    }
                }
            }
        } else {
            proof {
                assert forall|x: int|
                    0 <= x < i + 1 && has_prefix((#[trigger] existing@[x])@, netns_prefix())
                        && !expected_netns(*cfg).contains(existing@[x]@) implies (exists|j: int|
                    0 <= j < r@.len() && (#[trigger] r@[j])@ == existing@[x]@) by {
                    if x < i {
                    } else {
                    }
                }
            }
        }
        i = i + 1;
    }
    proof {
        assert forall|j: int|
            0 <= j < r@.len() implies (has_prefix(#[trigger] r@[j]@, netns_prefix())
            && !expected_netns(*cfg).contains(r@[j]@) && (exists|x: int|
            0 <= x < existing@.len() && (#[trigger] existing@[x])@ == r@[j]@)) by {}
    }
    r
}

/// The namespaces left with the reserved prefix after deleting surplus
/// ones and creating the expected ones.
pub open spec fn surplus_set(existing: Set<Seq<u8>>, cfg: GatewayConfig) -> Set<Seq<u8>> {
    Set::new(
        |n: Seq<u8>|
            existing.contains(n) && has_prefix(n, netns_prefix()) && !expected_netns(
                cfg,
            ).contains(n),
    )
}

/// The namespace set after one reconciliation.
pub open spec fn netns_after_apply(existing: Set<Seq<u8>>, cfg: GatewayConfig) -> Set<Seq<u8>> {
    existing.difference(surplus_set(existing, cfg)).union(expected_netns(cfg))
}

/// Namespace reservation: after a reconciliation, every namespace whose
/// name carries the reserved prefix belongs to a configured port.
pub proof fn lemma_namespace_reservation(existing: Set<Seq<u8>>, cfg: GatewayConfig, n: Seq<u8>)
    ensures
        netns_after_apply(existing, cfg).contains(n) && has_prefix(n, netns_prefix()) ==> (
        exists|p: u16| #[trigger] cfg.has_port(p) && n == netns_name_spec(p)),
{
}

/// Idempotence of the namespace stage: a second reconciliation of the same
/// configuration deletes nothing and creates nothing.
pub proof fn lemma_netns_idempotent(existing: Set<Seq<u8>>, cfg: GatewayConfig)
    ensures
        surplus_set(netns_after_apply(existing, cfg), cfg) =~= Set::<Seq<u8>>::empty(),
        expected_netns(cfg).subset_of(netns_after_apply(existing, cfg)),
{
}

/// Convergence of the namespace stage: applying one configuration and then
/// another leaves exactly the namespaces the second alone would leave.
pub proof fn lemma_netns_convergence(
    existing: Set<Seq<u8>>,
    c1: GatewayConfig,
    c2: GatewayConfig,
)
    ensures
        netns_after_apply(netns_after_apply(existing, c1), c2) =~= netns_after_apply(
            existing,
            c2,
        ),
{
    assert forall|n: Seq<u8>|
        netns_after_apply(netns_after_apply(existing, c1), c2).contains(n)
            == netns_after_apply(existing, c2).contains(n) by {
        if expected_netns(c1).contains(n) {
            let p = choose|p: u16| #[trigger] c1.has_port(p) && n == netns_name_spec(p);
            lemma_netns_name_prefixed(p);
        }
    }
}

/// Whether a missing thing must be created.
pub fn create_needed(already_exists: bool) -> (r: bool)
    ensures
        r == !already_exists,
{
    !already_exists
}

/// Whether an interface's MTU must be changed: the interface must report
/// one, and it is set only when it differs from the declared value.
pub fn mtu_action(current: Option<usize>, desired: usize) -> (r: Result<
    Option<usize>,
    GatewayError,
>)
    ensures
        r is Ok <==> current is Some,
        r matches Ok(a) ==> a == (if current == Some(desired) {
            Option::<usize>::None
        } else {
            Option::Some(desired)
        }),
        r matches Err(e) ==> e is StateInconsistent,
{
    match current {
        Option::Some(m) => {
            if m == desired {
                Ok(Option::None)
            } else {
                Ok(Option::Some(desired))
            }
        },
        Option::None => {
            let mut msg: Vec<u8> = Vec::new();
            msg.push(109);
            msg.push(116);
            msg.push(117);
            Err(GatewayError::StateInconsistent(msg))
        },
    }
}

/// Whether an interface that reports as down must be brought up.
pub fn up_action(is_down: bool) -> (r: bool)
    ensures
        r == is_down,
{
    is_down
}

/// Whether an interface's master must be set to the bridge: when none is
/// set, or another one is.
pub fn master_action(current: Option<&Vec<u8>>, desired: &Vec<u8>) -> (r: bool)
    ensures
        r == (match current {
            Option::None => true,
            Option::Some(c) => c@ != desired@,
        }),
{
    match current {
        Option::None => true,
        Option::Some(c) => !bytes_eq(c, desired),
    }
}

/// The blocks of `target` absent from `current`, in target order.
pub open spec fn missing_spec(current: Seq<Cidr>, target: Seq<Cidr>) -> Seq<Cidr>
    decreases target.len(),
{
    if target.len() == 0 {
        Seq::empty()
    } else {
        let rest = missing_spec(current, target.drop_last());
        if current.contains(target.last()) {
            rest
        } else {
            rest.push(target.last())
        }
    }
}

/// The addresses to add so that every declared block is present.
/// Reconciliation is additive: blocks no longer declared are not removed.
pub fn addr_missing(current: &Vec<Cidr>, target: &Vec<Cidr>) -> (r: Vec<Cidr>)
    ensures
        r@ == missing_spec(current@, target@),
{
    let nt: usize = target.len();
    let mut r: Vec<Cidr> = Vec::new();
    let mut i: usize = 0;
    while i < nt
        invariant
            nt == target@.len(),
            0 <= i <= nt,
            r@ =~= missing_spec(current@, target@.take(i as int)),
        decreases nt - i,
    {
        let nc: usize = current.len();
        let mut j: usize = 0;
        let mut present: bool = false;
        while j < nc && !present
            invariant
                nc == current@.len(),
                0 <= j <= nc,
                0 <= i < nt,
                nt == target@.len(),
                present ==> current@.contains(target@[i as int]),
                !present ==> forall|y: int| 0 <= y < j ==> current@[y] != target@[i as int],
            decreases nc - j, (if present {
                0int
            } else {
                1int
            }),
        {
            if current[j] == target[i] {
                present = true;
            } else {
                j = j + 1;
            }
        }
        proof {
            assert(target@.take(i + 1).drop_last() =~= target@.take(i as int));
            assert(target@.take(i + 1).last() == target@[i as int]);
            if !present {
                assert(!current@.contains(target@[i as int]));
            }
        }
        if !present {
            r.push(target[i]);
        }
        i = i + 1;
    }
    proof {
        assert(target@.take(nt as int) =~= target@);
    }
    r
}

/// Each target block ends up present after the missing ones are added.
proof fn lemma_missing_covers(current: Seq<Cidr>, target: Seq<Cidr>, t: int)
    requires
        0 <= t < target.len(),
    ensures
        current.contains(target[t]) || missing_spec(current, target).contains(target[t]),
    decreases target.len(),
{
    if t == target.len() - 1 {
        if !current.contains(target.last()) {
            let m = missing_spec(current, target);
            assert(m.last() == target.last());
        }
    } else {
        lemma_missing_covers(current, target.drop_last(), t);
        assert(target.drop_last()[t] == target[t]);
        if missing_spec(current, target.drop_last()).contains(target[t]) {
            let w = choose|w: int|
                0 <= w < missing_spec(current, target.drop_last()).len() && missing_spec(
                    current,
                    target.drop_last(),
                )[w] == target[t];
            if !current.contains(target.last()) {
                assert(missing_spec(current, target)[w] == target[t]);
            }
        }
    }
}

/// When every target block is already present, nothing is missing.
proof fn lemma_missing_none(current: Seq<Cidr>, target: Seq<Cidr>)
    requires
        forall|t: int| 0 <= t < target.len() ==> current.contains(#[trigger] target[t]),
    ensures
        missing_spec(current, target).len() == 0,
    decreases target.len(),
{
    if target.len() > 0 {
        assert forall|t: int| 0 <= t < target.drop_last().len() implies current.contains(
            #[trigger] target.drop_last()[t],
        ) by {
            assert(target.drop_last()[t] == target[t]);
        }
        lemma_missing_none(current, target.drop_last());
        assert(current.contains(target.last()));
    }
}

/// Idempotence of the address stage: after the missing blocks are added,
/// a second pass adds nothing.
pub proof fn lemma_addr_idempotent(current: Seq<Cidr>, target: Seq<Cidr>)
    ensures
        missing_spec(current + missing_spec(current, target), target).len() == 0,
{
    let cur2 = current + missing_spec(current, target);
    assert forall|t: int| 0 <= t < target.len() implies cur2.contains(#[trigger] target[t]) by {
        lemma_missing_covers(current, target, t);
        if current.contains(target[t]) {
            let w = choose|w: int| 0 <= w < current.len() && current[w] == target[t];
            assert(cur2[w] == target[t]);
        } else {
            let m = missing_spec(current, target);
            let w = choose|w: int| 0 <= w < m.len() && m[w] == target[t];
            assert(cur2[current.len() + w] == target[t]);
        }
    }
    lemma_missing_none(cur2, target);
}

/// The per-namespace private path of the rendered WireGuard configuration:
/// `wireguard/wg<port>.conf`.
pub open spec fn wg_conf_path_spec(port: u16) -> Seq<u8> {
    seq![119u8, 105u8, 114u8, 101u8, 103u8, 117u8, 97u8, 114u8, 100u8, 47u8] + wgif_name_spec(
        port,
    ) + seq![46u8, 99u8, 111u8, 110u8, 102u8]
}

/// Render the configuration-file path for a port.
pub fn wg_conf_path(port: u16) -> (r: Vec<u8>)
    ensures
        r@ == wg_conf_path_spec(port),
{
    let mut v: Vec<u8> = Vec::new();
    v.push(119);
    v.push(105);
    v.push(114);
    v.push(101);
    v.push(103);
    v.push(117);
    v.push(97);
    v.push(114);
    v.push(100);
    v.push(47);
    proof {
        assert(v@ =~= seq![
            119u8,
            105u8,
            114u8,
            101u8,
            103u8,
            117u8,
            97u8,
            114u8,
            100u8,
            47u8,
        ]);
    }
    let name = crate::config::wgif_name_of(port);
    push_all(&mut v, &name);
    v.push(46);
    v.push(99);
    v.push(111);
    v.push(110);
    v.push(102);
    proof {
        assert(v@ =~= wg_conf_path_spec(port));
    }
    v
}

/// The realized configuration the gateway has applied.
#[derive(Debug)]
pub struct RealizedState {
    pub config: GatewayConfig,
}

impl RealizedState {
    /// The state before any reconciliation: nothing realized.
    pub fn new() -> (r: RealizedState)
        ensures
            r.config.networks@.len() == 0,
            r.config.wf(),
    {
        RealizedState { config: GatewayConfig::empty() }
    }

    /// A full apply replaces the realized configuration.
    pub fn apply_full(&mut self, cfg: GatewayConfig)
        ensures
            final(self).config == cfg,
    {
        self.config = cfg;
    }

    /// A partial apply merges into the realized configuration.
    pub fn apply_partial(&mut self, diff: GatewayConfigPartial)
        requires
            config_ports_unique(old(self).config.networks@),
        ensures
            config_ports_unique(final(self).config.networks@),
            final(self).config.as_map() =~= merge_spec(old(self).config.as_map(), diff.entries@),
            old(self).config.wf() && diff.wf() ==> final(self).config.wf(),
    {
        self.config.apply_partial(diff);
    }
}

/// One listed network namespace, as the host reports it.
#[derive(Clone, Debug)]
pub struct NetnsItem {
    /// The namespace name.
    pub name: Vec<u8>,
    /// The numeric id, when one is assigned.
    pub id: Option<usize>,
}

/// One observed link, as the host reports it.
#[derive(Clone, Debug)]
pub struct InterfaceShow {
    /// The interface index.
    pub ifindex: usize,
    /// The interface name.
    pub ifname: Vec<u8>,
    /// The reported MTU, when known.
    pub mtu: Option<usize>,
    /// The reported operational state.
    pub operstate: Vec<u8>,
}

/// The bytes of the operational state `DOWN`.
pub open spec fn down_text() -> Seq<u8> {
    seq![68u8, 79u8, 87u8, 78u8]
}

impl InterfaceShow {
    /// Whether the link reports as down.
    pub fn is_down(&self) -> (r: bool)
        ensures
            r == (self.operstate@ == down_text()),
    {
        let mut d: Vec<u8> = Vec::new();
        d.push(68);
        d.push(79);
        d.push(87);
        d.push(78);
        proof {
            assert(d@ =~= down_text());
        }
        bytes_eq(&self.operstate, &d)
    }
}

} // verus!
