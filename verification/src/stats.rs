//! Observed WireGuard state, parsed from the tool's dump output.
//!
//! The dump is a text block: a first line with four tab-separated fields
//! (private key, public key, listen port, fwmark or `off`), then one line
//! per peer with eight tab-separated fields (public key, preshared key or
//! `(none)`, endpoint or `(none)`, comma-joined allowed blocks or `(none)`,
//! latest-handshake timestamp, received bytes, sent bytes, persistent
//! keepalive or `off`). Keys are validated; endpoints and allowed blocks
//! are carried as opaque tokens.

use vstd::prelude::*;
use crate::bytes::{
    all_digits, dec_of, dec_val, join_with, parse_u16, parse_u64, sep_free, seq_views,
    split_bytes, bytes_eq, lemma_split_unique,
};
use crate::keys::{key_text_ok, Privkey, Pubkey, Secret};

verus! {

/// Why a dump failed to parse.
#[derive(Clone, Copy, Debug, PartialEq, Eq, Structural)]
pub enum ParseFault {
    /// The dump held no network line at all.
    MissingNetworkLine,
    /// A line held the wrong number of tab-separated fields.
    WrongFieldCount,
    /// A key field was no valid key text.
    BadKey,
    /// A numeric field was no decimal number in range.
    BadNumber,
}

/// The bytes of `off`.
pub open spec fn off_text() -> Seq<u8> {
    seq![111u8, 102u8, 102u8]
}

/// The bytes of `(none)`.
pub open spec fn none_text() -> Seq<u8> {
    seq![40u8, 110u8, 111u8, 110u8, 101u8, 41u8]
}

/// The bytes of `off` as a vector.
pub fn off_text_bytes() -> (r: Vec<u8>)
    ensures
        r@ == off_text(),
{
    let mut v: Vec<u8> = Vec::new();
    v.push(111);
    v.push(102);
    v.push(102);
    proof {
        assert(v@ =~= off_text());
    }
    v
}

/// The bytes of `(none)` as a vector.
pub fn none_text_bytes() -> (r: Vec<u8>)
    ensures
        r@ == none_text(),
{
    let mut v: Vec<u8> = Vec::new();
    v.push(40);
    v.push(110);
    v.push(111);
    v.push(110);
    v.push(101);
    v.push(41);
    proof {
        assert(v@ =~= none_text());
    }
    v
}

/// Observed state of one peer.
#[derive(Clone, Debug)]
pub struct PeerStats {
    /// The peer's public key.
    pub public_key: Pubkey,
    /// The preshared key, if one is set.
    pub preshared_key: Option<Secret>,
    /// The current source endpoint, as an opaque token.
    pub endpoint: Option<Vec<u8>>,
    /// The allowed blocks, as opaque tokens.
    pub allowed_ips: Vec<Vec<u8>>,
    /// Seconds since the epoch of the latest handshake, absent if none.
    pub latest_handshake: Option<u64>,
    /// Received bytes, monotone within one interface session.
    pub transfer_rx: usize,
    /// Sent bytes, monotone within one interface session.
    pub transfer_tx: usize,
    /// The persistent-keepalive interval, absent if off.
    pub persistent_keepalive: Option<u64>,
}

impl PeerStats {
    /// The two transfer counters.
    pub fn transfer(&self) -> (r: (usize, usize))
        ensures
            r.0 == self.transfer_rx,
            r.1 == self.transfer_tx,
    {
        (self.transfer_rx, self.transfer_tx)
    }
}

/// Observed state of one WireGuard interface.
#[derive(Clone, Debug)]
pub struct NetworkStats {
    /// The interface's private key.
    pub private_key: Privkey,
    /// The interface's public key.
    pub public_key: Pubkey,
    /// The UDP listen port.
    pub listen_port: u16,
    /// The firewall mark, absent if off.
    pub fwmark: Option<u16>,
    /// One entry per configured peer.
    pub peers: Vec<PeerStats>,
}

impl NetworkStats {
    /// The observed peers.
    pub fn peers(&self) -> (r: &Vec<PeerStats>)
        ensures
            r@ == self.peers@,
    {
        &self.peers
    }

    /// The observed listen port.
    pub fn listen_port(&self) -> (r: u16)
        ensures
            r == self.listen_port,
    {
        self.listen_port
    }
}

/// `fields` is the decomposition of `line` into tab-separated parts.
pub open spec fn line_splits(line: Seq<u8>, fields: Seq<Seq<u8>>) -> bool {
    &&& fields.len() >= 1
    &&& (forall|i: int| 0 <= i < fields.len() ==> sep_free(#[trigger] fields[i], 9))
    &&& join_with(fields, 9) == line
}

/// The eight fields of a peer line are acceptable.
pub open spec fn peer_fields_ok(fields: Seq<Seq<u8>>) -> bool {
    &&& fields.len() == 8
    &&& key_text_ok(fields[0])
    &&& (fields[1] == none_text() || key_text_ok(fields[1]))
    &&& (fields[4].len() > 0 && all_digits(fields[4]) && dec_val(fields[4]) <= u64::MAX)
    &&& (fields[5].len() > 0 && all_digits(fields[5]) && dec_val(fields[5]) <= usize::MAX)
    &&& (fields[6].len() > 0 && all_digits(fields[6]) && dec_val(fields[6]) <= usize::MAX)
    &&& (fields[7] == off_text() || (fields[7].len() > 0 && all_digits(fields[7]) && dec_val(
        fields[7],
    ) <= u64::MAX))
}

/// The peer a well-formed peer line denotes.
pub open spec fn peer_from_fields(fields: Seq<Seq<u8>>, p: PeerStats) -> bool {
    &&& p.public_key.text@ == fields[0]
    &&& (if fields[1] == none_text() {
        p.preshared_key is None
    } else {
        p.preshared_key matches Some(s) && s.text@ == fields[1]
    })
    &&& (if fields[2] == none_text() {
        p.endpoint is None
    } else {
        p.endpoint matches Some(e) && e@ == fields[2]
    })
    &&& (if fields[3] == none_text() {
        p.allowed_ips@.len() == 0
    } else {
        join_with(seq_views(p.allowed_ips@), 44) == fields[3] && (forall|i: int|
            0 <= i < p.allowed_ips@.len() ==> sep_free(#[trigger] p.allowed_ips@[i]@, 44))
    })
    &&& p.latest_handshake == (if dec_val(fields[4]) == 0 {
        Option::<u64>::None
    } else {
        Option::Some(dec_val(fields[4]) as u64)
    })
    &&& p.transfer_rx == dec_val(fields[5])
    &&& p.transfer_tx == dec_val(fields[6])
    &&& p.persistent_keepalive == (if fields[7] == off_text() {
        Option::<u64>::None
    } else {
        Option::Some(dec_val(fields[7]) as u64)
    })
}

/// A line parses as a peer.
pub open spec fn peer_line_ok(line: Seq<u8>) -> bool {
    exists|fields: Seq<Seq<u8>>| #[trigger] line_splits(line, fields) && peer_fields_ok(fields)
}

/// A line denotes this peer.
pub open spec fn peer_matches_line(line: Seq<u8>, p: PeerStats) -> bool {
    exists|fields: Seq<Seq<u8>>|
        #[trigger] line_splits(line, fields) && peer_fields_ok(fields) && peer_from_fields(
            fields,
            p,
        )
}

/// Parse a u64 whose value must also fit a usize.
fn parse_usize(s: &Vec<u8>) -> (r: Option<usize>)
    ensures
        r is Some <==> s@.len() > 0 && all_digits(s@) && dec_val(s@) <= usize::MAX,
        r is Some ==> r->0 == dec_val(s@),
{
    match parse_u64(s) {
        Option::Some(v) => {
            if v <= usize::MAX as u64 {
                Option::Some(v as usize)
            } else {
                Option::None
            }
        },
        Option::None => {
            proof {
                if s@.len() > 0 && all_digits(s@) && dec_val(s@) <= usize::MAX {
                    assert(dec_val(s@) <= u64::MAX);
                }
            }
            Option::None
        },
    }
}

/// Parse one peer line of the dump.
pub fn parse_peer(line: &Vec<u8>) -> (r: Result<PeerStats, ParseFault>)
    ensures
        r is Ok <==> peer_line_ok(line@),
        r matches Ok(p) ==> peer_matches_line(line@, p),
        r matches Err(f) ==> f != ParseFault::MissingNetworkLine,
        r == Result::<PeerStats, ParseFault>::Err(ParseFault::WrongFieldCount) <==> (
        exists|fields: Seq<Seq<u8>>| #[trigger] line_splits(line@, fields) && fields.len() != 8),
        r == Result::<PeerStats, ParseFault>::Err(ParseFault::BadKey) <==> (
        exists|fields: Seq<Seq<u8>>|
            #[trigger] line_splits(line@, fields) && fields.len() == 8 && (!key_text_ok(fields[0])
                || (fields[1] != none_text() && !key_text_ok(fields[1])))),
{
    let mut fields = split_bytes(line, 9);
    let ghost fs = seq_views(fields@);
    proof {
        assert(line_splits(line@, fs));
        assert forall|other: Seq<Seq<u8>>| #[trigger] line_splits(line@, other) implies other
            =~= fs by {
            lemma_split_unique(other, fs, 9);
        }
    }
    if fields.len() != 8 {
        return Err(ParseFault::WrongFieldCount);
    }
    let none_t = none_text_bytes();
    let off_t = off_text_bytes();
    let f0 = fields.remove(0);
    let f1 = fields.remove(0);
    let f2 = fields.remove(0);
    let f3 = fields.remove(0);
    let f4 = fields.remove(0);
    let f5 = fields.remove(0);
    let f6 = fields.remove(0);
    let f7 = fields.remove(0);
    proof {
        assert(f0@ == fs[0] && f1@ == fs[1] && f2@ == fs[2] && f3@ == fs[3] && f4@ == fs[4] && f5@
            == fs[5] && f6@ == fs[6] && f7@ == fs[7]);
    }
    let public_key = match Pubkey::parse(f0) {
        Ok(k) => k,
        Err(_) => {
            return Err(ParseFault::BadKey);
        },
    };
    let preshared_key = if bytes_eq(&f1, &none_t) {
        Option::None
    } else {
        match Secret::parse(f1) {
            Ok(k) => Option::Some(k),
            Err(_) => {
                return Err(ParseFault::BadKey);
            },
        }
    };
    let endpoint = if bytes_eq(&f2, &none_t) {
        Option::None
    } else {
        Option::Some(f2)
    };
    let allowed_ips: Vec<Vec<u8>> = if bytes_eq(&f3, &none_t) {
        Vec::new()
    } else {
        let toks = split_bytes(&f3, 44);
        proof {
            assert(join_with(seq_views(toks@), 44) == fs[3]);
        }
        toks
    };
    let latest_raw = match parse_u64(&f4) {
        Option::Some(v) => v,
        Option::None => {
            return Err(ParseFault::BadNumber);
        },
    };
    let latest_handshake = if latest_raw > 0 {
        Option::Some(latest_raw)
    } else {
        Option::None
    };
    let transfer_rx = match parse_usize(&f5) {
        Option::Some(v) => v,
        Option::None => {
            return Err(ParseFault::BadNumber);
        },
    };
    let transfer_tx = match parse_usize(&f6) {
        Option::Some(v) => v,
        Option::None => {
            return Err(ParseFault::BadNumber);
        },
    };
    let persistent_keepalive = if bytes_eq(&f7, &off_t) {
        Option::None
    } else {
        match parse_u64(&f7) {
            Option::Some(v) => Option::Some(v),
            Option::None => {
                return Err(ParseFault::BadNumber);
            },
        }
    };
    let p = PeerStats {
        public_key,
        preshared_key,
        endpoint,
        allowed_ips,
        latest_handshake,
        transfer_rx,
        transfer_tx,
        persistent_keepalive,
    };
    proof {
        assert(peer_fields_ok(fs));
        assert(peer_from_fields(fs, p));
        assert(line_splits(line@, fs));
    }
    Ok(p)
}

/// The lines of a dump: a trailing empty line (from a final newline) is
/// dropped.
pub open spec fn logical_lines(lines: Seq<Seq<u8>>) -> Seq<Seq<u8>> {
    if lines.len() > 1 && lines.last().len() == 0 {
        lines.drop_last()
    } else {
        lines
    }
}

/// `lines` is the decomposition of `input` into newline-separated lines.
pub open spec fn input_lines(input: Seq<u8>, lines: Seq<Seq<u8>>) -> bool {
    &&& lines.len() >= 1
    &&& (forall|i: int| 0 <= i < lines.len() ==> sep_free(#[trigger] lines[i], 10))
    &&& join_with(lines, 10) == input
}

/// The four fields of the network line are acceptable.
pub open spec fn network_fields_ok(fields: Seq<Seq<u8>>) -> bool {
    &&& fields.len() == 4
    &&& key_text_ok(fields[0])
    &&& key_text_ok(fields[1])
    &&& (fields[2].len() > 0 && all_digits(fields[2]) && dec_val(fields[2]) <= u16::MAX)
    &&& (fields[3] == off_text() || (fields[3].len() > 0 && all_digits(fields[3]) && dec_val(
        fields[3],
    ) <= u16::MAX))
}

/// The interface identity a well-formed network line denotes.
pub open spec fn network_from_fields(fields: Seq<Seq<u8>>, ns: NetworkStats) -> bool {
    &&& ns.private_key.text@ == fields[0]
    &&& ns.public_key.text@ == fields[1]
    &&& ns.listen_port == dec_val(fields[2])
    &&& ns.fwmark == (if fields[3] == off_text() {
        Option::<u16>::None
    } else {
        Option::Some(dec_val(fields[3]) as u16)
    })
}

/// A whole dump parses.
pub open spec fn stats_ok(input: Seq<u8>) -> bool {
    input.len() > 0 && exists|lines: Seq<Seq<u8>>|
        #[trigger] input_lines(input, lines) && ({
            let ll = logical_lines(lines);
            (exists|fields: Seq<Seq<u8>>|
                #[trigger] line_splits(ll[0], fields) && network_fields_ok(fields)) && (forall|
                i: int,
            |
                1 <= i < ll.len() ==> peer_line_ok(#[trigger] ll[i]))
        })
}

/// A whole dump denotes this observation.
pub open spec fn stats_matches(input: Seq<u8>, ns: NetworkStats) -> bool {
    exists|lines: Seq<Seq<u8>>|
        #[trigger] input_lines(input, lines) && ({
            let ll = logical_lines(lines);
            (exists|fields: Seq<Seq<u8>>|
                #[trigger] line_splits(ll[0], fields) && network_fields_ok(fields)
                    && network_from_fields(fields, ns)) && ns.peers@.len() == ll.len() - 1 && (
            forall|i: int|
                0 <= i < ns.peers@.len() ==> peer_matches_line(#[trigger] ll[i + 1], ns.peers@[i]))
        })
}

/// Parse a whole dump.
pub fn parse_network_stats(input: &Vec<u8>) -> (r: Result<NetworkStats, ParseFault>)
    ensures
        r is Ok <==> stats_ok(input@),
        r matches Ok(ns) ==> stats_matches(input@, ns),
        r == Result::<NetworkStats, ParseFault>::Err(ParseFault::MissingNetworkLine) <==> input@.len() == 0,
{
    if input.len() == 0 {
        return Err(ParseFault::MissingNetworkLine);
    }
    let mut lines = split_bytes(input, 10);
    let ghost ls0 = seq_views(lines@);
    proof {
        assert(input_lines(input@, ls0));
        assert forall|other: Seq<Seq<u8>>| #[trigger] input_lines(input@, other) implies other
            =~= ls0 by {
            lemma_split_unique(other, ls0, 10);
        }
    }
    if lines.len() > 1 && lines[lines.len() - 1].len() == 0 {
        lines.pop();
    }
    let ghost ll = seq_views(lines@);
    proof {
        assert(ll =~= logical_lines(ls0));
    }
    let first = lines.remove(0);
    proof {
        assert(first@ == ll[0]);
    }
    let mut fields = split_bytes(&first, 9);
    let ghost fs = seq_views(fields@);
    proof {
        assert(line_splits(first@, fs));
        assert forall|other: Seq<Seq<u8>>| #[trigger] line_splits(first@, other) implies other
            =~= fs by {
            lemma_split_unique(other, fs, 9);
        }
    }
    if fields.len() != 4 {
        return Err(ParseFault::WrongFieldCount);
    }
    let off_t = off_text_bytes();
    let f0 = fields.remove(0);
    let f1 = fields.remove(0);
    let f2 = fields.remove(0);
    let f3 = fields.remove(0);
    proof {
        assert(f0@ == fs[0] && f1@ == fs[1] && f2@ == fs[2] && f3@ == fs[3]);
    }
    let private_key = match Privkey::parse(f0) {
        Ok(k) => k,
        Err(_) => {
            return Err(ParseFault::BadKey);
        },
    };
    let public_key = match Pubkey::parse(f1) {
        Ok(k) => k,
        Err(_) => {
            return Err(ParseFault::BadKey);
        },
    };
    let listen_port = match parse_u16(&f2) {
        Option::Some(v) => v,
        Option::None => {
            return Err(ParseFault::BadNumber);
        },
    };
    let fwmark = if bytes_eq(&f3, &off_t) {
        Option::None
    } else {
        match parse_u16(&f3) {
            Option::Some(v) => Option::Some(v),
            Option::None => {
                return Err(ParseFault::BadNumber);
            },
        }
    };
    let n: usize = lines.len();
    let mut peers: Vec<PeerStats> = Vec::new();
    let mut i: usize = 0;
    while i < n
        invariant
            n == lines@.len(),
            0 <= i <= n,
            ll.len() == n + 1,
            forall|j: int| 0 <= j < n ==> #[trigger] lines@[j]@ == ll[j + 1],
            peers@.len() == i,
            forall|j: int|
                0 <= j < i ==> peer_matches_line(#[trigger] ll[j + 1], peers@[j]),
            forall|j: int| 0 <= j < i ==> peer_line_ok(#[trigger] ll[j + 1]),
            input@.len() > 0,
            input_lines(input@, ls0),
            ll =~= logical_lines(ls0),
            forall|other: Seq<Seq<u8>>|
                #[trigger] input_lines(input@, other) ==> other =~= ls0,
            line_splits(ll[0], fs),
            network_fields_ok(fs),
            private_key.text@ == fs[0],
            public_key.text@ == fs[1],
            listen_port == dec_val(fs[2]),
            fwmark == (if fs[3] == off_text() {
                Option::<u16>::None
            } else {
                Option::Some(dec_val(fs[3]) as u16)
            }),
        decreases n - i,
    {
        match parse_peer(&lines[i]) {
            Ok(p) => {
                peers.push(p);
            },
            Err(f) => {
                proof {
                    assert(!peer_line_ok(ll[i + 1]));
                    if stats_ok(input@) {
                        let other = choose|other: Seq<Seq<u8>>|
                            #[trigger] input_lines(input@, other) && ({
                                let l2 = logical_lines(other);
                                (exists|fields: Seq<Seq<u8>>|
                                    #[trigger] line_splits(l2[0], fields) && network_fields_ok(
                                        fields,
                                    )) && (forall|k: int|
                                    1 <= k < l2.len() ==> peer_line_ok(#[trigger] l2[k]))
                            });
                        assert(other =~= ls0);
                        assert(logical_lines(other) =~= ll);
                        assert(peer_line_ok(ll[i + 1]));
                    }
                }
                return Err(f);
            },
        }
        i = i + 1;
    }
    let ns = NetworkStats { private_key, public_key, listen_port, fwmark, peers };
    proof {
        assert(stats_matches(input@, ns)) by {
            assert(input_lines(input@, ls0));
            assert(logical_lines(ls0) =~= ll);
            assert(line_splits(ll[0], fs) && network_fields_ok(fs) && network_from_fields(fs, ns));
        }
        assert forall|k: int| 1 <= k < ll.len() implies peer_line_ok(#[trigger] ll[k]) by {
            assert(peer_line_ok(ll[(k - 1) + 1]));
        }
        assert(stats_ok(input@));
    }
    Ok(ns)
}

/// The rendered fields of one peer line.
pub open spec fn peer_fields_of(p: PeerStats) -> Seq<Seq<u8>> {
    seq![
        p.public_key.text@,
        match p.preshared_key {
            Option::Some(s) => s.text@,
            Option::None => none_text(),
        },
        match p.endpoint {
            Option::Some(e) => e@,
            Option::None => none_text(),
        },
        if p.allowed_ips@.len() == 0 {
            none_text()
        } else {
            join_with(seq_views(p.allowed_ips@), 44)
        },
        dec_of(
            match p.latest_handshake {
                Option::Some(t) => t as nat,
                Option::None => 0,
            },
        ),
        dec_of(p.transfer_rx as nat),
        dec_of(p.transfer_tx as nat),
        match p.persistent_keepalive {
            Option::Some(k) => dec_of(k as nat),
            Option::None => off_text(),
        },
    ]
}

/// One peer line of a rendered dump.
pub open spec fn peer_line_spec(p: PeerStats) -> Seq<u8> {
    join_with(peer_fields_of(p), 9)
}

/// A token of the dump: free of the tab and newline separators.
pub open spec fn token_clean(s: Seq<u8>) -> bool {
    sep_free(s, 9) && sep_free(s, 10)
}

/// A peer whose rendered line parses back to it: keys are valid, every
/// token is free of tabs and newlines (and commas, inside the allowed
/// list), present values do not collide with the absent markers, and a
/// present handshake is a positive timestamp.
pub open spec fn peer_renderable(p: PeerStats) -> bool {
    &&& key_text_ok(p.public_key.text@)
    &&& token_clean(p.public_key.text@)
    &&& (p.preshared_key matches Option::Some(s) ==> (key_text_ok(s.text@) && token_clean(s.text@)
        && s.text@ != none_text()))
    &&& (p.endpoint matches Option::Some(e) ==> (token_clean(e@) && e@ != none_text()))
    &&& (forall|i: int|
        0 <= i < p.allowed_ips@.len() ==> (token_clean(#[trigger] p.allowed_ips@[i]@) && sep_free(
            p.allowed_ips@[i]@,
            44,
        )))
    &&& (p.allowed_ips@.len() > 0 ==> join_with(seq_views(p.allowed_ips@), 44) != none_text())
    &&& (p.latest_handshake matches Option::Some(t) ==> t > 0)
}

/// The rendered fields of a renderable peer hold neither tabs nor
/// newlines.
proof fn lemma_peer_fields_sep_free(p: PeerStats, sep: u8)
    requires
        peer_renderable(p),
        sep == 9 || sep == 10,
    ensures
        forall|i: int|
            0 <= i < peer_fields_of(p).len() ==> sep_free(#[trigger] peer_fields_of(p)[i], sep),
{
    let fields = peer_fields_of(p);
    assert forall|i: int| 0 <= i < fields.len() implies sep_free(#[trigger] fields[i], sep) by {
        if i == 0 {
        } else if i == 1 {
            match p.preshared_key {
                Option::Some(s) => {},
                Option::None => {
                    assert forall|t: int| 0 <= t < none_text().len() implies none_text()[t]
                        != sep by {}
                },
            }
        } else if i == 2 {
            match p.endpoint {
                Option::Some(e) => {},
                Option::None => {
                    assert forall|t: int| 0 <= t < none_text().len() implies none_text()[t]
                        != sep by {}
                },
            }
        } else if i == 3 {
            if p.allowed_ips@.len() == 0 {
                assert forall|t: int| 0 <= t < none_text().len() implies none_text()[t]
                    != sep by {}
            } else {
                assert forall|k: int| 0 <= k < seq_views(p.allowed_ips@).len() implies sep_free(
                    #[trigger] seq_views(p.allowed_ips@)[k],
                    sep,
                ) by {
                    assert(seq_views(p.allowed_ips@)[k] == p.allowed_ips@[k]@);
                }
                lemma_join_sep_free(seq_views(p.allowed_ips@), 44, sep);
            }
        } else if i == 4 {
            let v: nat = match p.latest_handshake {
                Option::Some(t) => t as nat,
                Option::None => 0,
            };
            crate::bytes::lemma_dec_of_val(v);
            assert forall|t: int| 0 <= t < dec_of(v).len() implies dec_of(v)[t] != sep by {
                assert(crate::bytes::is_digit(dec_of(v)[t]));
            }
        } else if i == 5 {
            crate::bytes::lemma_dec_of_val(p.transfer_rx as nat);
            assert forall|t: int|
                0 <= t < dec_of(p.transfer_rx as nat).len() implies dec_of(p.transfer_rx as nat)[t]
                != sep by {
                assert(crate::bytes::is_digit(dec_of(p.transfer_rx as nat)[t]));
            }
        } else if i == 6 {
            crate::bytes::lemma_dec_of_val(p.transfer_tx as nat);
            assert forall|t: int|
                0 <= t < dec_of(p.transfer_tx as nat).len() implies dec_of(p.transfer_tx as nat)[t]
                != sep by {
                assert(crate::bytes::is_digit(dec_of(p.transfer_tx as nat)[t]));
            }
        } else {
            match p.persistent_keepalive {
                Option::Some(k) => {
                    crate::bytes::lemma_dec_of_val(k as nat);
                    assert forall|t: int|
                        0 <= t < dec_of(k as nat).len() implies dec_of(k as nat)[t] != sep by {
                        assert(crate::bytes::is_digit(dec_of(k as nat)[t]));
                    }
                },
                Option::None => {
                    assert forall|t: int| 0 <= t < off_text().len() implies off_text()[t]
                        != sep by {}
                },
            }
        }
    }
}

/// Joining tab-free parts with commas yields a tab-free string.
proof fn lemma_join_sep_free(parts: Seq<Seq<u8>>, inner: u8, outer: u8)
    requires
        forall|i: int|
            0 <= i < parts.len() ==> sep_free(#[trigger] parts[i], outer),
        inner != outer,
    ensures
        sep_free(join_with(parts, inner), outer),
    decreases parts.len(),
{
    if parts.len() > 1 {
        assert forall|i: int| 0 <= i < parts.drop_last().len() implies sep_free(
            #[trigger] parts.drop_last()[i],
            outer,
        ) by {
            assert(parts.drop_last()[i] == parts[i]);
        }
        lemma_join_sep_free(parts.drop_last(), inner, outer);
        let j = join_with(parts, inner);
        let pre = join_with(parts.drop_last(), inner);
        assert forall|t: int| 0 <= t < j.len() implies j[t] != outer by {
            if t < pre.len() {
                assert(j[t] == pre[t]);
            } else if t == pre.len() {
                assert(j[t] == inner);
            } else {
                assert(j[t] == parts.last()[t - pre.len() - 1]);
            }
        }
    }
}

/// A rendered peer line parses back to the peer it came from: the
/// round-trip law for one record of the dump format.
pub proof fn lemma_peer_line_round_trip(p: PeerStats)
    requires
        peer_renderable(p),
    ensures
        peer_line_ok(peer_line_spec(p)),
        peer_matches_line(peer_line_spec(p), p),
{
    let fields = peer_fields_of(p);
    assert(none_text().len() == 6);
    assert(off_text().len() == 3);
    lemma_peer_fields_sep_free(p, 9);
    assert(line_splits(peer_line_spec(p), fields));
    assert(peer_fields_ok(fields)) by {
        crate::bytes::lemma_dec_of_val(
            match p.latest_handshake {
                Option::Some(t) => t as nat,
                Option::None => 0,
            },
        );
        crate::bytes::lemma_dec_of_val(p.transfer_rx as nat);
        crate::bytes::lemma_dec_of_val(p.transfer_tx as nat);
        match p.preshared_key {
            Option::Some(s) => {
                assert(fields[1] == s.text@);
            },
            Option::None => {},
        }
        match p.persistent_keepalive {
            Option::Some(k) => {
                crate::bytes::lemma_dec_of_val(k as nat);
            },
            Option::None => {},
        }
    }
    assert(peer_from_fields(fields, p)) by {
        crate::bytes::lemma_dec_of_val(
            match p.latest_handshake {
                Option::Some(t) => t as nat,
                Option::None => 0,
            },
        );
        crate::bytes::lemma_dec_of_val(p.transfer_rx as nat);
        crate::bytes::lemma_dec_of_val(p.transfer_tx as nat);
        match p.preshared_key {
            Option::Some(s) => {
                assert(fields[1] != none_text());
            },
            Option::None => {},
        }
        match p.persistent_keepalive {
            Option::Some(k) => {
                crate::bytes::lemma_dec_of_val(k as nat);
                assert(all_digits(dec_of(k as nat)));
                assert(off_text()[0] == 111);
                assert(!crate::bytes::is_digit(111));
                assert(fields[7] != off_text()) by {
                    if fields[7] == off_text() {
                        assert(dec_of(k as nat)[0] == 111);
                    }
                }
            },
            Option::None => {},
        }
        match p.endpoint {
            Option::Some(e) => {},
            Option::None => {},
        }
    }
}

/// Render one peer line of the dump format; its fields are exactly
/// `peer_fields_of`, so with a renderable peer, `parse_peer` gives the
/// peer back.
pub fn render_peer_line(p: &PeerStats) -> (r: Vec<u8>)
    ensures
        r@ == peer_line_spec(*p),
{
    let ghost fields = peer_fields_of(*p);
    let mut out: Vec<u8> = crate::bytes::copy_bytes(&p.public_key.text);
    proof {
        crate::bytes::lemma_join_push(Seq::<Seq<u8>>::empty(), fields[0], 9);
        assert(seq![fields[0]] =~= Seq::<Seq<u8>>::empty().push(fields[0]));
        assert(out@ =~= join_with(fields.take(1), 9)) by {
            assert(fields.take(1) =~= Seq::<Seq<u8>>::empty().push(fields[0]));
        }
    }
    out.push(9);
    match &p.preshared_key {
        Option::Some(s) => {
            let t = crate::bytes::copy_bytes(&s.text);
            crate::bytes::push_all(&mut out, &t);
        },
        Option::None => {
            let t = none_text_bytes();
            crate::bytes::push_all(&mut out, &t);
        },
    }
    proof {
        crate::bytes::lemma_join_push(fields.take(1), fields[1], 9);
        assert(fields.take(2) =~= fields.take(1).push(fields[1]));
        assert(out@ =~= join_with(fields.take(2), 9));
    }
    out.push(9);
    match &p.endpoint {
        Option::Some(e) => {
            crate::bytes::push_all(&mut out, e);
        },
        Option::None => {
            let t = none_text_bytes();
            crate::bytes::push_all(&mut out, &t);
        },
    }
    proof {
        crate::bytes::lemma_join_push(fields.take(2), fields[2], 9);
        assert(fields.take(3) =~= fields.take(2).push(fields[2]));
        assert(out@ =~= join_with(fields.take(3), 9));
    }
    out.push(9);
    if p.allowed_ips.len() == 0 {
        let t = none_text_bytes();
        crate::bytes::push_all(&mut out, &t);
    } else {
        let ghost toks = seq_views(p.allowed_ips@);
        let ghost head = out@;
        let n: usize = p.allowed_ips.len();
        let mut i: usize = 0;
        while i < n
            invariant
                n == p.allowed_ips@.len(),
                n > 0,
                0 <= i <= n,
                toks == seq_views(p.allowed_ips@),
                i == 0 ==> out@ =~= head,
                i > 0 ==> out@ =~= head + join_with(toks.take(i as int), 44),
            decreases n - i,
        {
            if i > 0 {
                out.push(44);
            }
            crate::bytes::push_all(&mut out, &p.allowed_ips[i]);
            proof {
                crate::bytes::lemma_join_push(toks.take(i as int), toks[i as int], 44);
                assert(toks.take(i + 1) =~= toks.take(i as int).push(toks[i as int]));
                assert(toks[i as int] == p.allowed_ips@[i as int]@);
                if i == 0 {
                    assert(join_with(toks.take(1), 44) =~= toks[0]);
                    assert(out@ =~= head + join_with(toks.take(1), 44));
                } else {
                    assert(out@ =~= head + join_with(toks.take(i + 1), 44));
                }
            }
            i = i + 1;
        }
        proof {
            assert(toks.take(n as int) =~= toks);
        }
    }
    proof {
        crate::bytes::lemma_join_push(fields.take(3), fields[3], 9);
        assert(fields.take(4) =~= fields.take(3).push(fields[3]));
        assert(out@ =~= join_with(fields.take(4), 9));
    }
    out.push(9);
    let hs: u64 = match &p.latest_handshake {
        Option::Some(t) => *t,
        Option::None => 0,
    };
    let hsd = crate::bytes::render_u64(hs);
    crate::bytes::push_all(&mut out, &hsd);
    proof {
        crate::bytes::lemma_join_push(fields.take(4), fields[4], 9);
        assert(fields.take(5) =~= fields.take(4).push(fields[4]));
        assert(out@ =~= join_with(fields.take(5), 9));
    }
    out.push(9);
    let rxd = crate::bytes::render_u64(p.transfer_rx as u64);
    crate::bytes::push_all(&mut out, &rxd);
    proof {
        crate::bytes::lemma_join_push(fields.take(5), fields[5], 9);
        assert(fields.take(6) =~= fields.take(5).push(fields[5]));
        assert(out@ =~= join_with(fields.take(6), 9));
    }
    out.push(9);
    let txd = crate::bytes::render_u64(p.transfer_tx as u64);
    crate::bytes::push_all(&mut out, &txd);
    proof {
        crate::bytes::lemma_join_push(fields.take(6), fields[6], 9);
        assert(fields.take(7) =~= fields.take(6).push(fields[6]));
        assert(out@ =~= join_with(fields.take(7), 9));
    }
    out.push(9);
    match &p.persistent_keepalive {
        Option::Some(k) => {
            let kd = crate::bytes::render_u64(*k);
            crate::bytes::push_all(&mut out, &kd);
        },
        Option::None => {
            let t = off_text_bytes();
            crate::bytes::push_all(&mut out, &t);
        },
    }
    proof {
        crate::bytes::lemma_join_push(fields.take(7), fields[7], 9);
        assert(fields.take(8) =~= fields.take(7).push(fields[7]));
        assert(fields.take(8) =~= fields);
        assert(out@ =~= join_with(fields, 9));
    }
    out
}

/// The rendered fields of the network line.
pub open spec fn network_fields_of(ns: NetworkStats) -> Seq<Seq<u8>> {
    seq![
        ns.private_key.text@,
        ns.public_key.text@,
        dec_of(ns.listen_port as nat),
        match ns.fwmark {
            Option::Some(m) => dec_of(m as nat),
            Option::None => off_text(),
        },
    ]
}

/// The lines of a rendered dump: the network line, then one line per peer.
pub open spec fn stats_lines_of(ns: NetworkStats) -> Seq<Seq<u8>> {
    seq![join_with(network_fields_of(ns), 9)] + ns.peers@.map(|i: int, p: PeerStats| peer_line_spec(p))
}

/// A whole rendered dump.
pub open spec fn stats_render_spec(ns: NetworkStats) -> Seq<u8> {
    join_with(stats_lines_of(ns), 10)
}

/// Render the network line of a dump.
fn render_network_line(ns: &NetworkStats) -> (r: Vec<u8>)
    ensures
        r@ == join_with(network_fields_of(*ns), 9),
{
    let ghost fields = network_fields_of(*ns);
    let mut out: Vec<u8> = crate::bytes::copy_bytes(&ns.private_key.text);
    proof {
        assert(fields.take(1) =~= Seq::<Seq<u8>>::empty().push(fields[0]));
        crate::bytes::lemma_join_push(Seq::<Seq<u8>>::empty(), fields[0], 9);
        assert(out@ =~= join_with(fields.take(1), 9));
    }
    out.push(9);
    let pk = crate::bytes::copy_bytes(&ns.public_key.text);
    crate::bytes::push_all(&mut out, &pk);
    proof {
        crate::bytes::lemma_join_push(fields.take(1), fields[1], 9);
        assert(fields.take(2) =~= fields.take(1).push(fields[1]));
        assert(out@ =~= join_with(fields.take(2), 9));
    }
    out.push(9);
    let port = crate::bytes::render_u64(ns.listen_port as u64);
    crate::bytes::push_all(&mut out, &port);
    proof {
        crate::bytes::lemma_join_push(fields.take(2), fields[2], 9);
        assert(fields.take(3) =~= fields.take(2).push(fields[2]));
        assert(out@ =~= join_with(fields.take(3), 9));
    }
    out.push(9);
    match &ns.fwmark {
        Option::Some(m) => {
            let md = crate::bytes::render_u64(*m as u64);
            crate::bytes::push_all(&mut out, &md);
        },
        Option::None => {
            let t = off_text_bytes();
            crate::bytes::push_all(&mut out, &t);
        },
    }
    proof {
        crate::bytes::lemma_join_push(fields.take(3), fields[3], 9);
        assert(fields.take(4) =~= fields.take(3).push(fields[3]));
        assert(fields.take(4) =~= fields);
        assert(out@ =~= join_with(fields, 9));
    }
    out
}

/// Render a whole dump: the inverse direction of `parse_network_stats`
/// for observations whose fields respect the dump's separators.
pub fn render_network_stats(ns: &NetworkStats) -> (r: Vec<u8>)
    ensures
        r@ == stats_render_spec(*ns),
{
    let ghost lines = stats_lines_of(*ns);
    let mut out = render_network_line(ns);
    proof {
        assert(lines.take(1) =~= Seq::<Seq<u8>>::empty().push(lines[0]));
        crate::bytes::lemma_join_push(Seq::<Seq<u8>>::empty(), lines[0], 10);
        assert(out@ =~= join_with(lines.take(1), 10));
    }
    let n: usize = ns.peers.len();
    let mut i: usize = 0;
    while i < n
        invariant
            n == ns.peers@.len(),
            0 <= i <= n,
            lines == stats_lines_of(*ns),
            lines.len() == n + 1,
            out@ =~= join_with(lines.take(i + 1), 10),
        decreases n - i,
    {
        out.push(10);
        let line = render_peer_line(&ns.peers[i]);
        crate::bytes::push_all(&mut out, &line);
        proof {
            assert(lines[i + 1] == peer_line_spec(ns.peers@[i as int]));
            crate::bytes::lemma_join_push(lines.take(i + 1), lines[i + 1], 10);
            assert(lines.take(i + 2) =~= lines.take(i + 1).push(lines[i + 1]));
            assert(out@ =~= join_with(lines.take(i + 2), 10));
        }
        i = i + 1;
    }
    proof {
        assert(lines.take(n + 1) =~= lines);
    }
    out
}

/// An observation whose rendered dump parses back to it: valid,
/// separator-free keys on the network line and renderable peers.
pub open spec fn stats_renderable(ns: NetworkStats) -> bool {
    &&& key_text_ok(ns.private_key.text@)
    &&& token_clean(ns.private_key.text@)
    &&& key_text_ok(ns.public_key.text@)
    &&& token_clean(ns.public_key.text@)
    &&& (forall|i: int| 0 <= i < ns.peers@.len() ==> peer_renderable(#[trigger] ns.peers@[i]))
}

/// The rendered network-line fields hold neither tabs nor newlines.
proof fn lemma_network_fields_sep_free(ns: NetworkStats, sep: u8)
    requires
        stats_renderable(ns),
        sep == 9 || sep == 10,
    ensures
        forall|i: int|
            0 <= i < network_fields_of(ns).len() ==> sep_free(
                #[trigger] network_fields_of(ns)[i],
                sep,
            ),
{
    let fields = network_fields_of(ns);
    assert forall|i: int| 0 <= i < fields.len() implies sep_free(#[trigger] fields[i], sep) by {
        if i == 2 {
            crate::bytes::lemma_dec_of_val(ns.listen_port as nat);
            assert forall|t: int|
                0 <= t < dec_of(ns.listen_port as nat).len() implies dec_of(
                ns.listen_port as nat,
            )[t] != sep by {
                assert(crate::bytes::is_digit(dec_of(ns.listen_port as nat)[t]));
            }
        } else if i == 3 {
            match ns.fwmark {
                Option::Some(m) => {
                    crate::bytes::lemma_dec_of_val(m as nat);
                    assert forall|t: int|
                        0 <= t < dec_of(m as nat).len() implies dec_of(m as nat)[t] != sep by {
                        assert(crate::bytes::is_digit(dec_of(m as nat)[t]));
                    }
                },
                Option::None => {
                    assert forall|t: int| 0 <= t < off_text().len() implies off_text()[t]
                        != sep by {}
                },
            }
        }
    }
}

/// A rendered dump parses back to the observation it came from: the
/// round-trip law of the dump format.
pub proof fn lemma_stats_round_trip(ns: NetworkStats)
    requires
        stats_renderable(ns),
    ensures
        stats_ok(stats_render_spec(ns)),
        stats_matches(stats_render_spec(ns), ns),
{
    let nf = network_fields_of(ns);
    let lines = stats_lines_of(ns);
    let input = stats_render_spec(ns);
    lemma_network_fields_sep_free(ns, 9);
    lemma_network_fields_sep_free(ns, 10);
    let line0 = join_with(nf, 9);
    assert(lines[0] == line0);
    // the network line is non-empty and newline-free
    assert(line0.len() > 0) by {
        assert(line0 == join_with(nf.drop_last(), 9) + seq![9u8] + nf.last());
    }
    lemma_join_sep_free(nf, 9, 10);
    // every peer line is non-empty and newline-free
    assert forall|i: int| 1 <= i < lines.len() implies sep_free(#[trigger] lines[i], 10)
        && lines[i].len() > 0 && lines[i] == peer_line_spec(ns.peers@[i - 1]) by {
        assert(lines[i] == peer_line_spec(ns.peers@[i - 1]));
        let p = ns.peers@[i - 1];
        lemma_peer_fields_sep_free(p, 10);
        lemma_join_sep_free(peer_fields_of(p), 9, 10);
        let pf = peer_fields_of(p);
        assert(peer_line_spec(p) == join_with(pf.drop_last(), 9) + seq![9u8] + pf.last());
    }
    assert(input_lines(input, lines)) by {
        assert forall|i: int| 0 <= i < lines.len() implies sep_free(#[trigger] lines[i], 10) by {
            if i == 0 {
            }
        }
    }
    // no trailing empty line: the logical lines are the lines themselves
    assert(logical_lines(lines) =~= lines) by {
        if lines.len() > 1 {
            assert(lines.last().len() > 0);
        }
    }
    // the input is non-empty
    assert(input.len() > 0) by {
        if lines.len() == 1 {
            assert(input == line0);
        } else {
            assert(input == join_with(lines.drop_last(), 10) + seq![10u8] + lines.last());
        }
    }
    // the network line is acceptable and denotes the identity
    crate::bytes::lemma_dec_of_val(ns.listen_port as nat);
    assert(line_splits(line0, nf));
    assert(network_fields_ok(nf)) by {
        match ns.fwmark {
            Option::Some(m) => {
                crate::bytes::lemma_dec_of_val(m as nat);
            },
            Option::None => {},
        }
    }
    assert(network_from_fields(nf, ns)) by {
        match ns.fwmark {
            Option::Some(m) => {
                crate::bytes::lemma_dec_of_val(m as nat);
                assert(all_digits(dec_of(m as nat)));
                assert(off_text()[0] == 111);
                assert(nf[3] != off_text()) by {
                    if nf[3] == off_text() {
                        assert(crate::bytes::is_digit(dec_of(m as nat)[0]));
                        assert(dec_of(m as nat)[0] == 111);
                    }
                }
            },
            Option::None => {},
        }
    }
    // every peer line round-trips
    assert forall|i: int| 0 <= i < ns.peers@.len() implies peer_matches_line(
        #[trigger] logical_lines(lines)[i + 1],
        ns.peers@[i],
    ) by {
        lemma_peer_line_round_trip(ns.peers@[i]);
        assert(lines[i + 1] == peer_line_spec(ns.peers@[i]));
    }
    assert forall|i: int| 1 <= i < logical_lines(lines).len() implies peer_line_ok(
        #[trigger] logical_lines(lines)[i],
    ) by {
        lemma_peer_line_round_trip(ns.peers@[i - 1]);
        assert(lines[i] == peer_line_spec(ns.peers@[i - 1]));
    }
    assert(ns.peers@.len() == logical_lines(lines).len() - 1);
    assert(stats_ok(input));
    assert(stats_matches(input, ns));
}

} // verus!




