//! The reverse-proxy forwarding table.
//!
//! Published URLs become forwarding entries: each external host maps to a
//! stable upstream group name (a scheme tag plus a base32 encoding of the
//! host), and each group maps to the ordered inner socket list that serves
//! it. HTTPS and HTTP get their own sections; SSH is accepted but placed
//! nowhere yet; custom forwardings supplied out of band are added with the
//! same semantics.

use vstd::prelude::*;
use crate::bytes::{bytes_eq, copy_bytes, push_all};
use crate::addr::addr_text_spec;
use crate::config::{Endpoint, NetworkState, UrlParts};
use crate::render::flat_entries;
use crate::kvmap::{kv_at, kv_contains, kv_map, kv_unique, lemma_kv_at_index, lemma_kv_push,
    lemma_kv_update};

verus! {

/// What `base32::encode` returns for the RFC 4648 alphabet without
/// padding: a function of the input bytes alone.
pub uninterp spec fn base32_nopad(data: Seq<u8>) -> Seq<u8>;

/// Relies on `base32::encode` with `Alphabet::Rfc4648 { padding: false }`:
/// the encoding depends on the input bytes alone, and the empty input
/// encodes to the empty string.
#[verifier::external_body]
fn base32_encode_nopad(data: &Vec<u8>) -> (r: Vec<u8>)
    ensures
        r@ == base32_nopad(data@),
        data@.len() == 0 ==> r@.len() == 0,
{
    base32::encode(base32::Alphabet::Rfc4648 { padding: false }, data.as_slice()).into_bytes()
}

/// The scheme tag of an HTTPS group name: `https_`.
pub open spec fn lit_https_tag() -> Seq<u8> {
    seq![104u8, 116u8, 116u8, 112u8, 115u8, 95u8]
}

/// The scheme tag of an HTTP group name: `http_`.
pub open spec fn lit_http_tag() -> Seq<u8> {
    seq![104u8, 116u8, 116u8, 112u8, 95u8]
}

/// The bytes of the scheme `https`.
pub open spec fn lit_https() -> Seq<u8> {
    seq![104u8, 116u8, 116u8, 112u8, 115u8]
}

/// The bytes of the scheme `http`.
pub open spec fn lit_http() -> Seq<u8> {
    seq![104u8, 116u8, 116u8, 112u8]
}

/// The bytes of the scheme `ssh`.
pub open spec fn lit_ssh() -> Seq<u8> {
    seq![115u8, 115u8, 104u8]
}

/// The upstream group name of an HTTPS host.
pub open spec fn https_group(host: Seq<u8>) -> Seq<u8> {
    lit_https_tag() + base32_nopad(host)
}

/// The upstream group name of an HTTP host.
pub open spec fn http_group(host: Seq<u8>) -> Seq<u8> {
    lit_http_tag() + base32_nopad(host)
}

/// Key-value pairs with byte-vector keys and values, read by views.
pub open spec fn kv_views(s: Seq<(Vec<u8>, Vec<u8>)>) -> Seq<(Seq<u8>, Seq<u8>)> {
    s.map(|i: int, e: (Vec<u8>, Vec<u8>)| (e.0@, e.1@))
}

/// An endpoint list, read as (address text, port) pairs.
pub open spec fn eps_view(v: Seq<Endpoint>) -> Seq<(Seq<u8>, u16)> {
    v.map(|i: int, e: Endpoint| (e.ip_text@, e.port))
}

/// Upstream pairs, read by views.
pub open spec fn up_views(s: Seq<(Vec<u8>, Vec<Endpoint>)>) -> Seq<(Seq<u8>, Seq<(Seq<u8>, u16)>)> {
    s.map(|i: int, e: (Vec<u8>, Vec<Endpoint>)| (e.0@, eps_view(e.1@)))
}

/// The forwarding table: host-to-group and group-to-servers maps per
/// scheme, plus a placeholder section for SSH.
#[derive(Debug)]
pub struct Forwarding {
    /// HTTPS: external host to upstream group name.
    pub https_forwarding: Vec<(Vec<u8>, Vec<u8>)>,
    /// HTTPS: upstream group name to inner endpoints.
    pub https_upstream: Vec<(Vec<u8>, Vec<Endpoint>)>,
    /// HTTP: external host to upstream group name.
    pub http_forwarding: Vec<(Vec<u8>, Vec<u8>)>,
    /// HTTP: upstream group name to inner endpoints.
    pub http_upstream: Vec<(Vec<u8>, Vec<Endpoint>)>,
    /// SSH: external host to inner endpoint; nothing fills it yet.
    pub ssh_forwarding: Vec<(Vec<u8>, Endpoint)>,
}

/// The mathematical reading of a forwarding table.
pub struct FwdModel {
    pub hf: Map<Seq<u8>, Seq<u8>>,
    pub hu: Map<Seq<u8>, Seq<(Seq<u8>, u16)>>,
    pub tf: Map<Seq<u8>, Seq<u8>>,
    pub tu: Map<Seq<u8>, Seq<(Seq<u8>, u16)>>,
}

impl Forwarding {
    /// Keys are unique in every section.
    pub open spec fn wf(self) -> bool {
        &&& kv_unique(kv_views(self.https_forwarding@))
        &&& kv_unique(up_views(self.https_upstream@))
        &&& kv_unique(kv_views(self.http_forwarding@))
        &&& kv_unique(up_views(self.http_upstream@))
    }

    /// The table as maps.
    pub open spec fn model(self) -> FwdModel {
        FwdModel {
            hf: kv_map(kv_views(self.https_forwarding@)),
            hu: kv_map(up_views(self.https_upstream@)),
            tf: kv_map(kv_views(self.http_forwarding@)),
            tu: kv_map(up_views(self.http_upstream@)),
        }
    }

    /// The empty table.
    pub fn new() -> (r: Forwarding)
        ensures
            r.wf(),
            r.model().hf =~= Map::<Seq<u8>, Seq<u8>>::empty(),
            r.model().hu =~= Map::<Seq<u8>, Seq<(Seq<u8>, u16)>>::empty(),
            r.model().tf =~= Map::<Seq<u8>, Seq<u8>>::empty(),
            r.model().tu =~= Map::<Seq<u8>, Seq<(Seq<u8>, u16)>>::empty(),
            r.ssh_forwarding@.len() == 0,
    {
        Forwarding {
            https_forwarding: Vec::new(),
            https_upstream: Vec::new(),
            http_forwarding: Vec::new(),
            http_upstream: Vec::new(),
            ssh_forwarding: Vec::new(),
        }
    }
}

/// One HTTPS forwarding added to the model: the host keeps its group (or
/// gets the derived one), and the socket is appended to that group.
pub open spec fn add_https_model(m: FwdModel, host: Seq<u8>, sock: (Seq<u8>, u16)) -> FwdModel {
    let g = if m.hf.dom().contains(host) {
        m.hf[host]
    } else {
        https_group(host)
    };
    let servers = if m.hu.dom().contains(g) {
        m.hu[g]
    } else {
        Seq::empty()
    };
    FwdModel { hf: m.hf.insert(host, g), hu: m.hu.insert(g, servers.push(sock)), ..m }
}

/// One HTTP forwarding added to the model.
pub open spec fn add_http_model(m: FwdModel, host: Seq<u8>, sock: (Seq<u8>, u16)) -> FwdModel {
    let g = if m.tf.dom().contains(host) {
        m.tf[host]
    } else {
        http_group(host)
    };
    let servers = if m.tu.dom().contains(g) {
        m.tu[g]
    } else {
        Seq::empty()
    };
    FwdModel { tf: m.tf.insert(host, g), tu: m.tu.insert(g, servers.push(sock)), ..m }
}

/// A forwarding dispatched by scheme; unknown schemes change nothing.
pub open spec fn add_by_scheme_model(
    m: FwdModel,
    scheme: Seq<u8>,
    host: Seq<u8>,
    sock: (Seq<u8>, u16),
) -> FwdModel {
    if scheme == lit_https() {
        add_https_model(m, host, sock)
    } else if scheme == lit_http() {
        add_http_model(m, host, sock)
    } else {
        m
    }
}

/// Two model tables agree on every section.
pub open spec fn model_eqv(a: FwdModel, b: FwdModel) -> bool {
    a.hf =~= b.hf && a.hu =~= b.hu && a.tf =~= b.tf && a.tu =~= b.tu
}

impl Forwarding {
    /// Publish an HTTPS forwarding: the host's upstream group gains the
    /// socket; an unseen host first gets its derived group name.
    pub fn add_https(&mut self, host: &Vec<u8>, socket: Endpoint)
        requires
            old(self).wf(),
        ensures
            final(self).wf(),
            model_eqv(
                final(self).model(),
                add_https_model(old(self).model(), host@, (socket.ip_text@, socket.port)),
            ),
            final(self).http_forwarding@ == old(self).http_forwarding@,
            final(self).http_upstream@ == old(self).http_upstream@,
            final(self).ssh_forwarding@ == old(self).ssh_forwarding@,
    {
        let ghost m0 = self.model();
        let ghost hf0 = kv_views(self.https_forwarding@);
        let n: usize = self.https_forwarding.len();
        let mut i: usize = 0;
        let mut group: Option<Vec<u8>> = Option::None;
        while i < n && group.is_none()
            invariant
                n == self.https_forwarding@.len(),
                0 <= i <= n,
                *self == *old(self),
                old(self).wf(),
                hf0 == kv_views(self.https_forwarding@),
                group matches Some(g) ==> kv_contains(hf0, host@) && g@ == kv_at(hf0, host@),
                group is None ==> forall|y: int| 0 <= y < i ==> hf0[y].0 != host@,
            decreases n - i, (if group is None {
                1int
            } else {
                0int
            }),
        {
            if bytes_eq(&self.https_forwarding[i].0, host) {
                proof {
                    lemma_kv_at_index(hf0, i as int);
                }
                group = Option::Some(copy_bytes(&self.https_forwarding[i].1));
            } else {
                i = i + 1;
            }
        }
        let ghost had = kv_contains(hf0, host@);
        let g: Vec<u8> = match group {
            Option::Some(g) => g,
            Option::None => {
                let mut g: Vec<u8> = Vec::new();
                g.push(104);
                g.push(116);
                g.push(116);
                g.push(112);
                g.push(115);
                g.push(95);
                proof {
                    assert(g@ =~= lit_https_tag());
                }
                let enc = base32_encode_nopad(host);
                push_all(&mut g, &enc);
                proof {
                    assert(g@ =~= https_group(host@));
                }
                let hostc = copy_bytes(host);
                let gc = copy_bytes(&g);
                self.https_forwarding.push((hostc, gc));
                proof {
                    assert(kv_views(self.https_forwarding@) =~= hf0.push((host@, g@)));
                    lemma_kv_push(hf0, host@, g@);
                }
                g
            },
        };
        proof {
            if had {
                assert(kv_views(self.https_forwarding@) == hf0);
                assert(g@ == m0.hf[host@]);
                assert(kv_map(kv_views(self.https_forwarding@)) =~= m0.hf.insert(host@, g@));
            } else {
                assert(kv_map(kv_views(self.https_forwarding@)) =~= m0.hf.insert(host@, g@));
            }
        }
        let ghost hu0 = up_views(self.https_upstream@);
        proof {
            assert(kv_map(hu0) =~= m0.hu);
        }
        let m: usize = self.https_upstream.len();
        let mut j: usize = 0;
        let mut found: Option<usize> = Option::None;
        while j < m && found.is_none()
            invariant
                m == self.https_upstream@.len(),
                0 <= j <= m,
                kv_unique(up_views(self.https_upstream@)),
                hu0 == up_views(self.https_upstream@),
                found matches Some(w) ==> 0 <= w < m && self.https_upstream@[w as int].0@ == g@,
                found is None ==> forall|y: int| 0 <= y < j ==> hu0[y].0 != g@,
            decreases m - j, (if found is None {
                1int
            } else {
                0int
            }),
        {
            if bytes_eq(&self.https_upstream[j].0, &g) {
                found = Option::Some(j);
            } else {
                j = j + 1;
            }
        }
        let ghost pre_up = self.https_upstream@;
        match found {
            Option::Some(w) => {
                proof {
                    assert(hu0[w as int].0 == g@);
                    lemma_kv_at_index(hu0, w as int);
                }
                let (k0, mut servers) = self.https_upstream.remove(w);
                let ghost servers0 = servers@;
                servers.push(socket);
                self.https_upstream.insert(w, (k0, servers));
                proof {
                    let s1 = self.https_upstream@;
                    assert(s1 =~= pre_up.update(w as int, (k0, servers)));
                    assert(up_views(s1) =~= hu0.update(w as int, (g@, eps_view(servers@))));
                    assert(eps_view(servers@) =~= eps_view(servers0).push(
                        (socket.ip_text@, socket.port),
                    ));
                    lemma_kv_update(hu0, w as int, eps_view(servers@));
                    assert(kv_map(up_views(s1)) =~= kv_map(hu0).insert(
                        g@,
                        kv_at(hu0, g@).push((socket.ip_text@, socket.port)),
                    ));
                }
            },
            Option::None => {
                proof {
                    assert(!kv_contains(hu0, g@));
                }
                let kc = copy_bytes(&g);
                let mut servers: Vec<Endpoint> = Vec::new();
                servers.push(socket);
                let ghost sv = eps_view(servers@);
                self.https_upstream.push((kc, servers));
                proof {
                    assert(sv =~= Seq::<(Seq<u8>, u16)>::empty().push(
                        (socket.ip_text@, socket.port),
                    ));
                    assert(up_views(self.https_upstream@) =~= hu0.push((g@, sv)));
                    lemma_kv_push(hu0, g@, sv);
                }
            },
        }
    }

    /// Publish an HTTP forwarding, as `add_https` does for its section.
    pub fn add_http(&mut self, host: &Vec<u8>, socket: Endpoint)
        requires
            old(self).wf(),
        ensures
            final(self).wf(),
            model_eqv(
                final(self).model(),
                add_http_model(old(self).model(), host@, (socket.ip_text@, socket.port)),
            ),
            final(self).https_forwarding@ == old(self).https_forwarding@,
            final(self).https_upstream@ == old(self).https_upstream@,
            final(self).ssh_forwarding@ == old(self).ssh_forwarding@,
    {
        let ghost m0 = self.model();
        let ghost hf0 = kv_views(self.http_forwarding@);
        let n: usize = self.http_forwarding.len();
        let mut i: usize = 0;
        let mut group: Option<Vec<u8>> = Option::None;
        while i < n && group.is_none()
            invariant
                n == self.http_forwarding@.len(),
                0 <= i <= n,
                *self == *old(self),
                old(self).wf(),
                hf0 == kv_views(self.http_forwarding@),
                group matches Some(g) ==> kv_contains(hf0, host@) && g@ == kv_at(hf0, host@),
                group is None ==> forall|y: int| 0 <= y < i ==> hf0[y].0 != host@,
            decreases n - i, (if group is None {
                1int
            } else {
                0int
            }),
        {
            if bytes_eq(&self.http_forwarding[i].0, host) {
                proof {
                    lemma_kv_at_index(hf0, i as int);
                }
                group = Option::Some(copy_bytes(&self.http_forwarding[i].1));
            } else {
                i = i + 1;
            }
        }
        let ghost had = kv_contains(hf0, host@);
        let g: Vec<u8> = match group {
            Option::Some(g) => g,
            Option::None => {
                let mut g: Vec<u8> = Vec::new();
                g.push(104);
                g.push(116);
                g.push(116);
                g.push(112);
                g.push(95);
                proof {
                    assert(g@ =~= lit_http_tag());
                }
                let enc = base32_encode_nopad(host);
                push_all(&mut g, &enc);
                proof {
                    assert(g@ =~= http_group(host@));
                }
                let hostc = copy_bytes(host);
                let gc = copy_bytes(&g);
                self.http_forwarding.push((hostc, gc));
                proof {
                    assert(kv_views(self.http_forwarding@) =~= hf0.push((host@, g@)));
                    lemma_kv_push(hf0, host@, g@);
                }
                g
            },
        };
        proof {
            if had {
                assert(kv_views(self.http_forwarding@) == hf0);
                assert(g@ == m0.tf[host@]);
                assert(kv_map(kv_views(self.http_forwarding@)) =~= m0.tf.insert(host@, g@));
            } else {
                assert(kv_map(kv_views(self.http_forwarding@)) =~= m0.tf.insert(host@, g@));
            }
        }
        let ghost hu0 = up_views(self.http_upstream@);
        proof {
            assert(kv_map(hu0) =~= m0.tu);
        }
        let m: usize = self.http_upstream.len();
        let mut j: usize = 0;
        let mut found: Option<usize> = Option::None;
        while j < m && found.is_none()
            invariant
                m == self.http_upstream@.len(),
                0 <= j <= m,
                kv_unique(up_views(self.http_upstream@)),
                hu0 == up_views(self.http_upstream@),
                found matches Some(w) ==> 0 <= w < m && self.http_upstream@[w as int].0@ == g@,
                found is None ==> forall|y: int| 0 <= y < j ==> hu0[y].0 != g@,
            decreases m - j, (if found is None {
                1int
            } else {
                0int
            }),
        {
            if bytes_eq(&self.http_upstream[j].0, &g) {
                found = Option::Some(j);
            } else {
                j = j + 1;
            }
        }
        let ghost pre_up = self.http_upstream@;
        match found {
            Option::Some(w) => {
                proof {
                    assert(hu0[w as int].0 == g@);
                    lemma_kv_at_index(hu0, w as int);
                }
                let (k0, mut servers) = self.http_upstream.remove(w);
                let ghost servers0 = servers@;
                servers.push(socket);
                self.http_upstream.insert(w, (k0, servers));
                proof {
                    let s1 = self.http_upstream@;
                    assert(s1 =~= pre_up.update(w as int, (k0, servers)));
                    assert(up_views(s1) =~= hu0.update(w as int, (g@, eps_view(servers@))));
                    assert(eps_view(servers@) =~= eps_view(servers0).push(
                        (socket.ip_text@, socket.port),
                    ));
                    lemma_kv_update(hu0, w as int, eps_view(servers@));
                    assert(kv_map(up_views(s1)) =~= kv_map(hu0).insert(
                        g@,
                        kv_at(hu0, g@).push((socket.ip_text@, socket.port)),
                    ));
                }
            },
            Option::None => {
                proof {
                    assert(!kv_contains(hu0, g@));
                }
                let kc = copy_bytes(&g);
                let mut servers: Vec<Endpoint> = Vec::new();
                servers.push(socket);
                let ghost sv = eps_view(servers@);
                self.http_upstream.push((kc, servers));
                proof {
                    assert(sv =~= Seq::<(Seq<u8>, u16)>::empty().push(
                        (socket.ip_text@, socket.port),
                    ));
                    assert(up_views(self.http_upstream@) =~= hu0.push((g@, sv)));
                    lemma_kv_push(hu0, g@, sv);
                }
            },
        }
    }

    /// Accept an SSH forwarding; nothing is published for it yet.
    pub fn add_ssh(&mut self, host: &Vec<u8>, socket: Endpoint)
        ensures
            *final(self) == *old(self),
    {
    }

    /// Publish a forwarding supplied out of band, dispatched by scheme;
    /// an unrecognized scheme changes nothing.
    pub fn add_custom(&mut self, url: &UrlParts, socket: Endpoint)
        requires
            old(self).wf(),
        ensures
            final(self).wf(),
            model_eqv(
                final(self).model(),
                add_by_scheme_model(
                    old(self).model(),
                    url.scheme@,
                    url.host@,
                    (socket.ip_text@, socket.port),
                ),
            ),
            final(self).ssh_forwarding@ == old(self).ssh_forwarding@,
    {
        let mut https_lit: Vec<u8> = Vec::new();
        https_lit.push(104);
        https_lit.push(116);
        https_lit.push(116);
        https_lit.push(112);
        https_lit.push(115);
        proof {
            assert(https_lit@ =~= lit_https());
        }
        let mut http_lit: Vec<u8> = Vec::new();
        http_lit.push(104);
        http_lit.push(116);
        http_lit.push(116);
        http_lit.push(112);
        proof {
            assert(http_lit@ =~= lit_http());
        }
        if bytes_eq(&url.scheme, &https_lit) {
            self.add_https(&url.host, socket);
        } else if bytes_eq(&url.scheme, &http_lit) {
            self.add_http(&url.host, socket);
        }
    }
}

/// An upstream block up to its name.
pub open spec fn lit_upstream_head() -> Seq<u8> {
    seq![117u8, 112u8, 115u8, 116u8, 114u8, 101u8, 97u8, 109u8, 32u8]
}

/// `lit_upstream_head` as a vector.
fn lit_upstream_head_bytes() -> (r: Vec<u8>)
    ensures
        r@ == lit_upstream_head(),
{
    let mut v: Vec<u8> = Vec::new();
    v.push(117);
    v.push(112);
    v.push(115);
    v.push(116);
    v.push(114);
    v.push(101);
    v.push(97);
    v.push(109);
    v.push(32);
    proof {
        assert(v@ =~= lit_upstream_head());
    }
    v
}

/// The opening of a block.
pub open spec fn lit_block_open() -> Seq<u8> {
    seq![32u8, 123u8, 10u8]
}

/// `lit_block_open` as a vector.
fn lit_block_open_bytes() -> (r: Vec<u8>)
    ensures
        r@ == lit_block_open(),
{
    let mut v: Vec<u8> = Vec::new();
    v.push(32);
    v.push(123);
    v.push(10);
    proof {
        assert(v@ =~= lit_block_open());
    }
    v
}

/// A server line up to its address.
pub open spec fn lit_server_line() -> Seq<u8> {
    seq![32u8, 32u8, 32u8, 32u8, 115u8, 101u8, 114u8, 118u8, 101u8, 114u8, 32u8]
}

/// `lit_server_line` as a vector.
fn lit_server_line_bytes() -> (r: Vec<u8>)
    ensures
        r@ == lit_server_line(),
{
    let mut v: Vec<u8> = Vec::new();
    v.push(32);
    v.push(32);
    v.push(32);
    v.push(32);
    v.push(115);
    v.push(101);
    v.push(114);
    v.push(118);
    v.push(101);
    v.push(114);
    v.push(32);
    proof {
        assert(v@ =~= lit_server_line());
    }
    v
}

/// The address-port separator.
pub open spec fn lit_colon() -> Seq<u8> {
    seq![58u8]
}

/// `lit_colon` as a vector.
fn lit_colon_bytes() -> (r: Vec<u8>)
    ensures
        r@ == lit_colon(),
{
    let mut v: Vec<u8> = Vec::new();
    v.push(58);
    proof {
        assert(v@ =~= lit_colon());
    }
    v
}

/// The end of a directive.
pub open spec fn lit_line_end() -> Seq<u8> {
    seq![59u8, 10u8]
}

/// `lit_line_end` as a vector.
fn lit_line_end_bytes() -> (r: Vec<u8>)
    ensures
        r@ == lit_line_end(),
{
    let mut v: Vec<u8> = Vec::new();
    v.push(59);
    v.push(10);
    proof {
        assert(v@ =~= lit_line_end());
    }
    v
}

/// The closing of a block.
pub open spec fn lit_block_close() -> Seq<u8> {
    seq![125u8, 10u8]
}

/// `lit_block_close` as a vector.
fn lit_block_close_bytes() -> (r: Vec<u8>)
    ensures
        r@ == lit_block_close(),
{
    let mut v: Vec<u8> = Vec::new();
    v.push(125);
    v.push(10);
    proof {
        assert(v@ =~= lit_block_close());
    }
    v
}

/// An HTTPS server block up to its name.
pub open spec fn lit_https_server_head() -> Seq<u8> {
    seq![115u8, 101u8, 114u8, 118u8, 101u8, 114u8, 32u8, 123u8, 10u8, 32u8, 32u8, 32u8, 32u8, 108u8, 105u8, 115u8, 116u8, 101u8, 110u8, 32u8, 52u8, 52u8, 51u8, 32u8, 115u8, 115u8, 108u8, 59u8, 10u8, 32u8, 32u8, 32u8, 32u8, 115u8, 101u8, 114u8, 118u8, 101u8, 114u8, 95u8, 110u8, 97u8, 109u8, 101u8, 32u8]
}

/// `lit_https_server_head` as a vector.
fn lit_https_server_head_bytes() -> (r: Vec<u8>)
    ensures
        r@ == lit_https_server_head(),
{
    let mut v: Vec<u8> = Vec::new();
    v.push(115);
    v.push(101);
    v.push(114);
    v.push(118);
    v.push(101);
    v.push(114);
    v.push(32);
    v.push(123);
    v.push(10);
    v.push(32);
    v.push(32);
    v.push(32);
    v.push(32);
    v.push(108);
    v.push(105);
    v.push(115);
    v.push(116);
    v.push(101);
    v.push(110);
    v.push(32);
    v.push(52);
    v.push(52);
    v.push(51);
    v.push(32);
    v.push(115);
    v.push(115);
    v.push(108);
    v.push(59);
    v.push(10);
    v.push(32);
    v.push(32);
    v.push(32);
    v.push(32);
    v.push(115);
    v.push(101);
    v.push(114);
    v.push(118);
    v.push(101);
    v.push(114);
    v.push(95);
    v.push(110);
    v.push(97);
    v.push(109);
    v.push(101);
    v.push(32);
    proof {
        assert(v@ =~= lit_https_server_head());
    }
    v
}

/// An HTTP server block up to its name.
pub open spec fn lit_http_server_head() -> Seq<u8> {
    seq![115u8, 101u8, 114u8, 118u8, 101u8, 114u8, 32u8, 123u8, 10u8, 32u8, 32u8, 32u8, 32u8, 108u8, 105u8, 115u8, 116u8, 101u8, 110u8, 32u8, 56u8, 48u8, 59u8, 10u8, 32u8, 32u8, 32u8, 32u8, 115u8, 101u8, 114u8, 118u8, 101u8, 114u8, 95u8, 110u8, 97u8, 109u8, 101u8, 32u8]
}

/// `lit_http_server_head` as a vector.
fn lit_http_server_head_bytes() -> (r: Vec<u8>)
    ensures
        r@ == lit_http_server_head(),
{
    let mut v: Vec<u8> = Vec::new();
    v.push(115);
    v.push(101);
    v.push(114);
    v.push(118);
    v.push(101);
    v.push(114);
    v.push(32);
    v.push(123);
    v.push(10);
    v.push(32);
    v.push(32);
    v.push(32);
    v.push(32);
    v.push(108);
    v.push(105);
    v.push(115);
    v.push(116);
    v.push(101);
    v.push(110);
    v.push(32);
    v.push(56);
    v.push(48);
    v.push(59);
    v.push(10);
    v.push(32);
    v.push(32);
    v.push(32);
    v.push(32);
    v.push(115);
    v.push(101);
    v.push(114);
    v.push(118);
    v.push(101);
    v.push(114);
    v.push(95);
    v.push(110);
    v.push(97);
    v.push(109);
    v.push(101);
    v.push(32);
    proof {
        assert(v@ =~= lit_http_server_head());
    }
    v
}

/// The HTTPS proxy-pass lead.
pub open spec fn lit_https_pass() -> Seq<u8> {
    seq![59u8, 10u8, 32u8, 32u8, 32u8, 32u8, 108u8, 111u8, 99u8, 97u8, 116u8, 105u8, 111u8, 110u8, 32u8, 47u8, 32u8, 123u8, 10u8, 32u8, 32u8, 32u8, 32u8, 32u8, 32u8, 32u8, 32u8, 112u8, 114u8, 111u8, 120u8, 121u8, 95u8, 112u8, 97u8, 115u8, 115u8, 32u8, 104u8, 116u8, 116u8, 112u8, 115u8, 58u8, 47u8, 47u8]
}

/// `lit_https_pass` as a vector.
fn lit_https_pass_bytes() -> (r: Vec<u8>)
    ensures
        r@ == lit_https_pass(),
{
    let mut v: Vec<u8> = Vec::new();
    v.push(59);
    v.push(10);
    v.push(32);
    v.push(32);
    v.push(32);
    v.push(32);
    v.push(108);
    v.push(111);
    v.push(99);
    v.push(97);
    v.push(116);
    v.push(105);
    v.push(111);
    v.push(110);
    v.push(32);
    v.push(47);
    v.push(32);
    v.push(123);
    v.push(10);
    v.push(32);
    v.push(32);
    v.push(32);
    v.push(32);
    v.push(32);
    v.push(32);
    v.push(32);
    v.push(32);
    v.push(112);
    v.push(114);
    v.push(111);
    v.push(120);
    v.push(121);
    v.push(95);
    v.push(112);
    v.push(97);
    v.push(115);
    v.push(115);
    v.push(32);
    v.push(104);
    v.push(116);
    v.push(116);
    v.push(112);
    v.push(115);
    v.push(58);
    v.push(47);
    v.push(47);
    proof {
        assert(v@ =~= lit_https_pass());
    }
    v
}

/// The HTTP proxy-pass lead.
pub open spec fn lit_http_pass() -> Seq<u8> {
    seq![59u8, 10u8, 32u8, 32u8, 32u8, 32u8, 108u8, 111u8, 99u8, 97u8, 116u8, 105u8, 111u8, 110u8, 32u8, 47u8, 32u8, 123u8, 10u8, 32u8, 32u8, 32u8, 32u8, 32u8, 32u8, 32u8, 32u8, 112u8, 114u8, 111u8, 120u8, 121u8, 95u8, 112u8, 97u8, 115u8, 115u8, 32u8, 104u8, 116u8, 116u8, 112u8, 58u8, 47u8, 47u8]
}

/// `lit_http_pass` as a vector.
fn lit_http_pass_bytes() -> (r: Vec<u8>)
    ensures
        r@ == lit_http_pass(),
{
    let mut v: Vec<u8> = Vec::new();
    v.push(59);
    v.push(10);
    v.push(32);
    v.push(32);
    v.push(32);
    v.push(32);
    v.push(108);
    v.push(111);
    v.push(99);
    v.push(97);
    v.push(116);
    v.push(105);
    v.push(111);
    v.push(110);
    v.push(32);
    v.push(47);
    v.push(32);
    v.push(123);
    v.push(10);
    v.push(32);
    v.push(32);
    v.push(32);
    v.push(32);
    v.push(32);
    v.push(32);
    v.push(32);
    v.push(32);
    v.push(112);
    v.push(114);
    v.push(111);
    v.push(120);
    v.push(121);
    v.push(95);
    v.push(112);
    v.push(97);
    v.push(115);
    v.push(115);
    v.push(32);
    v.push(104);
    v.push(116);
    v.push(116);
    v.push(112);
    v.push(58);
    v.push(47);
    v.push(47);
    proof {
        assert(v@ =~= lit_http_pass());
    }
    v
}

/// The tail of a server block.
pub open spec fn lit_pass_tail() -> Seq<u8> {
    seq![59u8, 10u8, 32u8, 32u8, 32u8, 32u8, 125u8, 10u8, 125u8, 10u8]
}

/// `lit_pass_tail` as a vector.
fn lit_pass_tail_bytes() -> (r: Vec<u8>)
    ensures
        r@ == lit_pass_tail(),
{
    let mut v: Vec<u8> = Vec::new();
    v.push(59);
    v.push(10);
    v.push(32);
    v.push(32);
    v.push(32);
    v.push(32);
    v.push(125);
    v.push(10);
    v.push(125);
    v.push(10);
    proof {
        assert(v@ =~= lit_pass_tail());
    }
    v
}

/// The server lines of one upstream block.
pub open spec fn server_lines(eps: Seq<(Seq<u8>, u16)>) -> Seq<u8>
    decreases eps.len(),
{
    if eps.len() == 0 {
        Seq::empty()
    } else {
        server_lines(eps.drop_last()) + lit_server_line() + eps.last().0 + lit_colon()
            + crate::bytes::dec_of(eps.last().1 as nat) + lit_line_end()
    }
}

/// One upstream block.
pub open spec fn upstream_block(name: Seq<u8>, eps: Seq<(Seq<u8>, u16)>) -> Seq<u8> {
    lit_upstream_head() + name + lit_block_open() + server_lines(eps) + lit_block_close()
}

/// The upstream blocks of one section, in stored order.
pub open spec fn upstream_blocks(ups: Seq<(Seq<u8>, Seq<(Seq<u8>, u16)>)>) -> Seq<u8>
    decreases ups.len(),
{
    if ups.len() == 0 {
        Seq::empty()
    } else {
        upstream_blocks(ups.drop_last()) + upstream_block(ups.last().0, ups.last().1)
    }
}

/// One server block, HTTPS or HTTP by the given leads.
pub open spec fn server_block(head: Seq<u8>, pass: Seq<u8>, host: Seq<u8>, group: Seq<u8>) -> Seq<
    u8,
> {
    head + host + pass + group + lit_pass_tail()
}

/// The server blocks of one section, in stored order.
pub open spec fn server_blocks(
    head: Seq<u8>,
    pass: Seq<u8>,
    fwd: Seq<(Seq<u8>, Seq<u8>)>,
) -> Seq<u8>
    decreases fwd.len(),
{
    if fwd.len() == 0 {
        Seq::empty()
    } else {
        server_blocks(head, pass, fwd.drop_last()) + server_block(
            head,
            pass,
            fwd.last().0,
            fwd.last().1,
        )
    }
}

/// The whole rendered reverse-proxy configuration.
pub open spec fn nginx_spec(f: Forwarding) -> Seq<u8> {
    upstream_blocks(up_views(f.https_upstream@)) + upstream_blocks(up_views(f.http_upstream@))
        + server_blocks(lit_https_server_head(), lit_https_pass(), kv_views(f.https_forwarding@))
        + server_blocks(lit_http_server_head(), lit_http_pass(), kv_views(f.http_forwarding@))
}

/// Render one section's upstream blocks onto `out`.
fn render_upstreams(out: &mut Vec<u8>, ups: &Vec<(Vec<u8>, Vec<Endpoint>)>)
    ensures
        final(out)@ =~= old(out)@ + upstream_blocks(up_views(ups@)),
{
    let n: usize = ups.len();
    let mut i: usize = 0;
    proof {
        assert(old(out)@ + upstream_blocks(up_views(ups@).take(0)) =~= old(out)@);
    }
    while i < n
        invariant
            n == ups@.len(),
            0 <= i <= n,
            out@ =~= old(out)@ + upstream_blocks(up_views(ups@).take(i as int)),
        decreases n - i,
    {
        let head = lit_upstream_head_bytes();
        push_all(out, &head);
        push_all(out, &ups[i].0);
        let open = lit_block_open_bytes();
        push_all(out, &open);
        let ghost eps = eps_view(ups@[i as int].1@);
        let ne: usize = ups[i].1.len();
        let mut j: usize = 0;
        let ghost mid = old(out)@ + upstream_blocks(up_views(ups@).take(i as int))
            + lit_upstream_head() + ups@[i as int].0@ + lit_block_open();
        proof {
            assert(out@ =~= mid + server_lines(eps.take(0)));
        }
        while j < ne
            invariant
                n == ups@.len(),
                0 <= i < n,
                ne == ups@[i as int].1@.len(),
                0 <= j <= ne,
                eps == eps_view(ups@[i as int].1@),
                out@ =~= mid + server_lines(eps.take(j as int)),
            decreases ne - j,
        {
            let line = lit_server_line_bytes();
            push_all(out, &line);
            push_all(out, &ups[i].1[j].ip_text);
            let colon = lit_colon_bytes();
            push_all(out, &colon);
            let port = crate::bytes::render_u64(ups[i].1[j].port as u64);
            push_all(out, &port);
            let endl = lit_line_end_bytes();
            push_all(out, &endl);
            proof {
                assert(eps.take(j + 1).drop_last() =~= eps.take(j as int));
                assert(eps.take(j + 1).last() == eps[j as int]);
                assert(eps[j as int].0 == ups@[i as int].1@[j as int].ip_text@);
                assert(eps[j as int].1 == ups@[i as int].1@[j as int].port);
                assert(out@ =~= mid + server_lines(eps.take(j + 1)));
            }
            j = j + 1;
        }
        let close = lit_block_close_bytes();
        push_all(out, &close);
        proof {
            assert(eps.take(ne as int) =~= eps);
            let taken = up_views(ups@).take(i + 1);
            assert(taken.drop_last() =~= up_views(ups@).take(i as int));
            assert(taken.last() == up_views(ups@)[i as int]);
            assert(up_views(ups@)[i as int].0 == ups@[i as int].0@);
            assert(up_views(ups@)[i as int].1 == eps);
            assert(out@ =~= old(out)@ + upstream_blocks(taken));
        }
        i = i + 1;
    }
    proof {
        assert(up_views(ups@).take(n as int) =~= up_views(ups@));
    }
}

/// Render one section's server blocks onto `out`.
fn render_servers(out: &mut Vec<u8>, https: bool, fwd: &Vec<(Vec<u8>, Vec<u8>)>)
    ensures
        https ==> final(out)@ =~= old(out)@ + server_blocks(
            lit_https_server_head(),
            lit_https_pass(),
            kv_views(fwd@),
        ),
        !https ==> final(out)@ =~= old(out)@ + server_blocks(
            lit_http_server_head(),
            lit_http_pass(),
            kv_views(fwd@),
        ),
{
    let ghost head_s = if https {
        lit_https_server_head()
    } else {
        lit_http_server_head()
    };
    let ghost pass_s = if https {
        lit_https_pass()
    } else {
        lit_http_pass()
    };
    let head = if https {
        lit_https_server_head_bytes()
    } else {
        lit_http_server_head_bytes()
    };
    let pass = if https {
        lit_https_pass_bytes()
    } else {
        lit_http_pass_bytes()
    };
    let n: usize = fwd.len();
    let mut i: usize = 0;
    proof {
        assert(old(out)@ + server_blocks(head_s, pass_s, kv_views(fwd@).take(0)) =~= old(out)@);
    }
    while i < n
        invariant
            n == fwd@.len(),
            0 <= i <= n,
            head@ == head_s,
            pass@ == pass_s,
            out@ =~= old(out)@ + server_blocks(head_s, pass_s, kv_views(fwd@).take(i as int)),
        decreases n - i,
    {
        push_all(out, &head);
        push_all(out, &fwd[i].0);
        push_all(out, &pass);
        push_all(out, &fwd[i].1);
        let tail = lit_pass_tail_bytes();
        push_all(out, &tail);
        proof {
            let taken = kv_views(fwd@).take(i + 1);
            assert(taken.drop_last() =~= kv_views(fwd@).take(i as int));
            assert(taken.last() == kv_views(fwd@)[i as int]);
            assert(kv_views(fwd@)[i as int].0 == fwd@[i as int].0@);
            assert(kv_views(fwd@)[i as int].1 == fwd@[i as int].1@);
            assert(out@ =~= old(out)@ + server_blocks(head_s, pass_s, taken));
        }
        i = i + 1;
    }
    proof {
        assert(kv_views(fwd@).take(n as int) =~= kv_views(fwd@));
    }
}

/// The module part of the rendered configuration: the upstream groups of
/// both schemes, in stored order.
pub open spec fn nginx_modules_spec(f: Forwarding) -> Seq<u8> {
    upstream_blocks(up_views(f.https_upstream@)) + upstream_blocks(up_views(f.http_upstream@))
}

/// The site part of the rendered configuration: the server blocks of both
/// schemes, in stored order.
pub open spec fn nginx_sites_spec(f: Forwarding) -> Seq<u8> {
    server_blocks(lit_https_server_head(), lit_https_pass(), kv_views(f.https_forwarding@))
        + server_blocks(lit_http_server_head(), lit_http_pass(), kv_views(f.http_forwarding@))
}

/// Render the module file: all upstream groups.
pub fn render_nginx_modules(f: &Forwarding) -> (r: Vec<u8>)
    ensures
        r@ == nginx_modules_spec(*f),
{
    let mut out: Vec<u8> = Vec::new();
    render_upstreams(&mut out, &f.https_upstream);
    render_upstreams(&mut out, &f.http_upstream);
    proof {
        assert(out@ =~= nginx_modules_spec(*f));
    }
    out
}

/// Render the site file: all server blocks.
pub fn render_nginx_sites(f: &Forwarding) -> (r: Vec<u8>)
    ensures
        r@ == nginx_sites_spec(*f),
{
    let mut out: Vec<u8> = Vec::new();
    render_servers(&mut out, true, &f.https_forwarding);
    render_servers(&mut out, false, &f.http_forwarding);
    proof {
        assert(out@ =~= nginx_sites_spec(*f));
    }
    out
}

/// Render the whole reverse-proxy configuration in one text: the module
/// part, then the site part.
pub fn render_nginx(f: &Forwarding) -> (r: Vec<u8>)
    ensures
        r@ == nginx_spec(*f),
        r@ == nginx_modules_spec(*f) + nginx_sites_spec(*f),
{
    let mut out = render_nginx_modules(f);
    let sites = render_nginx_sites(f);
    crate::bytes::push_all(&mut out, &sites);
    proof {
        assert(out@ =~= nginx_spec(*f));
    }
    out
}

/// A whole network's port mappings added to the model: mapping `k` gets
/// external port `2000 + k` on the network's inner veth address.
pub open spec fn add_network_model(
    m: FwdModel,
    addr: Seq<u8>,
    flat: Seq<(UrlParts, Endpoint)>,
    upto: int,
) -> FwdModel
    decreases upto,
{
    if upto <= 0 {
        m
    } else {
        let prev = add_network_model(m, addr, flat, upto - 1);
        add_by_scheme_model(
            prev,
            flat[upto - 1].0.scheme@,
            flat[upto - 1].0.host@,
            (addr, (2000 + upto - 1) as u16),
        )
    }
}

impl Forwarding {
    /// Publish every port mapping of a network: each flattened mapping is
    /// dispatched by its URL's scheme, with the network's inner veth
    /// address and the mapping's external port as the socket.
    pub fn add(&mut self, network: &NetworkState)
        requires
            old(self).wf(),
            flat_entries(network.proxy@).len() <= 63535,
        ensures
            final(self).wf(),
            model_eqv(
                final(self).model(),
                add_network_model(
                    old(self).model(),
                    addr_text_spec(
                        crate::addr::Cidr::V4 {
                            addr: (crate::addr::BRIDGE_BASE_ADDR + network.listen_port) as u32,
                            prefix: crate::addr::BRIDGE_PREFIX,
                        },
                    ),
                    flat_entries(network.proxy@),
                    flat_entries(network.proxy@).len() as int,
                ),
            ),
            final(self).ssh_forwarding@ == old(self).ssh_forwarding@,
    {
        let ghost m0 = self.model();
        let ghost flat = flat_entries(network.proxy@);
        let inner = crate::addr::addr_text(&network.veth_ipv4net());
        let ghost addrv = inner@;
        let maps = crate::render::port_mappings(network);
        let n: usize = maps.len();
        let mut k: usize = 0;
        while k < n
            invariant
                n == maps@.len(),
                0 <= k <= n,
                n == flat.len(),
                addrv == inner@,
                self.wf(),
                forall|x: int|
                    0 <= x < n ==> ((#[trigger] maps@[x]).0.scheme@ == flat[x].0.scheme@
                        && maps@[x].0.host@ == flat[x].0.host@ && maps@[x].1 == 2000 + x),
                model_eqv(self.model(), add_network_model(m0, addrv, flat, k as int)),
                self.ssh_forwarding@ == old(self).ssh_forwarding@,
            decreases n - k,
        {
            let socket = Endpoint { ip_text: copy_bytes(&inner), port: maps[k].1 };
            self.add_custom(&maps[k].0, socket);
            k = k + 1;
        }
    }
}

} // verus!
