//! Plain-value model of IP networks.
//!
//! Addresses run through the gateway's logic as integers plus a prefix
//! length; the rendering to the textual forms the OS tools take is verified
//! here. The host-side bridge network is fixed, and each WireGuard network's
//! inner veth address is derived from its listen port inside that network.

use vstd::prelude::*;
use vstd::arithmetic::power2::{
    pow2, lemma2_to64, lemma2_to64_rest, lemma_pow2_adds, lemma_pow2_strictly_increases,
    lemma_pow2_unfold, lemma_pow2_pos,
};
use crate::bytes::{dec_of, render_u64};

verus! {

/// The fixed bridge network base, `172.99.0.0` as an integer.
pub const BRIDGE_BASE_ADDR: u32 = 0xAC63_0000;

/// The fixed address of the bridge interface itself, `172.99.0.1`.
pub const BRIDGE_IF_ADDR: u32 = 0xAC63_0001;

/// The prefix length of the bridge network.
pub const BRIDGE_PREFIX: u8 = 16;

/// A CIDR block, carried as address integer plus prefix length.
#[derive(Clone, Copy, Debug, PartialEq, Eq, Structural)]
pub enum Cidr {
    V4 { addr: u32, prefix: u8 },
    V6 { addr: u128, prefix: u8 },
}

impl Cidr {
    /// The prefix length does not exceed the address width.
    pub open spec fn wf(self) -> bool {
        match self {
            Cidr::V4 { addr, prefix } => prefix <= 32,
            Cidr::V6 { addr, prefix } => prefix <= 128,
        }
    }
}

/// `pow2(127)` fits in a `u128`.
proof fn lemma_pow2_127()
    ensures
        pow2(127) == 0x8000_0000_0000_0000_0000_0000_0000_0000,
{
    lemma2_to64();
    lemma2_to64_rest();
    lemma_pow2_adds(63, 64);
}

/// Compute a power of two.
pub fn two_pow_u128(k: usize) -> (r: u128)
    requires
        k < 128,
    ensures
        r == pow2(k as nat),
{
    proof {
        lemma_pow2_127();
        lemma2_to64();
    }
    let mut d: u128 = 1;
    let mut i: usize = 0;
    while i < k
        invariant
            i <= k < 128,
            d == pow2(i as nat),
        decreases k - i,
    {
        proof {
            lemma_pow2_127();
            if i + 1 < 127 {
                lemma_pow2_strictly_increases((i + 1) as nat, 127);
            }
            lemma_pow2_unfold((i + 1) as nat);
            assert(pow2((i + 1) as nat) == 2 * d);
            assert(2 * d <= pow2(127));
        }
        d = d * 2;
        i = i + 1;
    }
    d
}

/// The network address of a block: its address with all host bits cleared.
pub open spec fn trunc_val(addr: nat, width: nat, prefix: nat) -> nat
    recommends
        prefix <= width,
{
    if prefix == 0 {
        0
    } else {
        (addr / pow2((width - prefix) as nat)) * pow2((width - prefix) as nat)
    }
}

impl Cidr {
    /// The block with the same prefix and all host bits cleared.
    pub open spec fn trunc_spec(self) -> Cidr {
        match self {
            Cidr::V4 { addr, prefix } => Cidr::V4 {
                addr: trunc_val(addr as nat, 32, prefix as nat) as u32,
                prefix,
            },
            Cidr::V6 { addr, prefix } => Cidr::V6 {
                addr: trunc_val(addr as nat, 128, prefix as nat) as u128,
                prefix,
            },
        }
    }

    /// Clear the host bits of the block.
    pub fn trunc(&self) -> (r: Cidr)
        requires
            self.wf(),
        ensures
            r == self.trunc_spec(),
            r.wf(),
    {
        match self {
            Cidr::V4 { addr, prefix } => {
                if *prefix == 0 {
                    Cidr::V4 { addr: 0, prefix: 0 }
                } else {
                    let k: usize = (32 - *prefix) as usize;
                    let d128: u128 = two_pow_u128(k);
                    proof {
                        lemma2_to64();
                        if k < 31 {
                            lemma_pow2_strictly_increases(k as nat, 31);
                        }
                    }
                    let d: u32 = d128 as u32;
                    let q: u32 = *addr / d;
                    proof {
                        assert(q * d <= *addr) by (nonlinear_arith)
                            requires
                                d > 0,
                                q == *addr / d,
                        ;
                    }
                    Cidr::V4 { addr: q * d, prefix: *prefix }
                }
            },
            Cidr::V6 { addr, prefix } => {
                if *prefix == 0 {
                    Cidr::V6 { addr: 0, prefix: 0 }
                } else {
                    let k: usize = (128 - *prefix) as usize;
                    let d: u128 = two_pow_u128(k);
                    proof {
                        lemma_pow2_pos(k as nat);
                    }
                    let q: u128 = *addr / d;
                    proof {
                        assert(q * d <= *addr) by (nonlinear_arith)
                            requires
                                d > 0,
                                q == *addr / d,
                        ;
                    }
                    Cidr::V6 { addr: q * d, prefix: *prefix }
                }
            },
        }
    }
}

/// Textual rendering of an IPv4 address, dotted decimal.
pub open spec fn v4_text(addr: u32) -> Seq<u8> {
    dec_of((addr / 0x100_0000) as nat) + seq![46u8] + dec_of(((addr / 0x1_0000) % 256) as nat)
        + seq![46u8] + dec_of(((addr / 256) % 256) as nat) + seq![46u8] + dec_of((addr % 256) as nat)
}

/// An ASCII hex digit, lowercase.
pub open spec fn hex_digit_of(n: nat) -> u8
    recommends
        n < 16,
{
    if n < 10 {
        (48 + n) as u8
    } else {
        (87 + n) as u8
    }
}

/// Hex digits of `n`, empty for zero.
pub open spec fn hex_digits(n: nat) -> Seq<u8>
    decreases n,
{
    if n == 0 {
        Seq::empty()
    } else {
        hex_digits(n / 16).push(hex_digit_of(n % 16))
    }
}

/// Hex rendering of `n` (a single `0` for zero, no leading zeros).
pub open spec fn hex_of(n: nat) -> Seq<u8> {
    if n == 0 {
        seq![48u8]
    } else {
        hex_digits(n)
    }
}

/// The `i`-th 16-bit group of an IPv6 address, leftmost first.
pub open spec fn v6_group(addr: u128, i: int) -> nat
    recommends
        0 <= i < 8,
{
    ((addr as nat) / pow2((16 * (7 - i)) as nat)) % 65536
}

/// The first `i` colon-separated groups of an IPv6 address.
pub open spec fn v6_text_upto(addr: u128, i: int) -> Seq<u8>
    decreases i,
{
    if i <= 0 {
        Seq::empty()
    } else if i == 1 {
        hex_of(v6_group(addr, 0))
    } else {
        v6_text_upto(addr, i - 1) + seq![58u8] + hex_of(v6_group(addr, i - 1))
    }
}

/// Textual rendering of an IPv6 address: all eight groups, lowercase hex
/// without leading zeros, never compressed.
pub open spec fn v6_text(addr: u128) -> Seq<u8> {
    v6_text_upto(addr, 8)
}

/// Textual rendering of a block, `address/prefix`.
pub open spec fn cidr_text_spec(c: Cidr) -> Seq<u8> {
    match c {
        Cidr::V4 { addr, prefix } => v4_text(addr) + seq![47u8] + dec_of(prefix as nat),
        Cidr::V6 { addr, prefix } => v6_text(addr) + seq![47u8] + dec_of(prefix as nat),
    }
}

/// Render a hex number below 2^16.
fn render_hex16(n: u64) -> (r: Vec<u8>)
    requires
        n < 65536,
    ensures
        r@ == hex_of(n as nat),
{
    if n == 0 {
        let mut r: Vec<u8> = Vec::new();
        r.push(48);
        assert(r@ =~= seq![48u8]);
        return r;
    }
    let mut rev: Vec<u8> = Vec::new();
    let mut m: u64 = n;
    while m > 0
        invariant
            hex_digits(n as nat) =~= hex_digits(m as nat) + rev@.reverse(),
        decreases m,
    {
        let ghost old_m = m as nat;
        let ghost old_rev = rev@;
        let d16: u64 = m % 16;
        let d: u8 = if d16 < 10 {
            (48 + d16) as u8
        } else {
            (87 + d16) as u8
        };
        rev.push(d);
        m = m / 16;
        proof {
            assert(hex_digit_of(old_m % 16) == d);
            assert(rev@ =~= old_rev.push(d));
            assert(rev@.reverse() =~= seq![d] + old_rev.reverse());
            assert(hex_digits(old_m) =~= hex_digits(m as nat) + seq![d]);
            assert(hex_digits(m as nat) + rev@.reverse() =~= (hex_digits(m as nat) + seq![d])
                + old_rev.reverse());
        }
    }
    let r = crate::bytes::reverse_bytes(&rev);
    proof {
        assert(hex_digits(m as nat) =~= Seq::<u8>::empty());
        assert(r@ =~= hex_digits(n as nat));
    }
    r
}

/// Render a block as the OS tools take it.
pub fn cidr_text(c: &Cidr) -> (r: Vec<u8>)
    ensures
        r@ == cidr_text_spec(*c),
{
    match c {
        Cidr::V4 { addr, prefix } => {
            let mut out: Vec<u8> = Vec::new();
            let o0 = render_u64((*addr / 0x100_0000) as u64);
            let o1 = render_u64(((*addr / 0x1_0000) % 256) as u64);
            let o2 = render_u64(((*addr / 256) % 256) as u64);
            let o3 = render_u64((*addr % 256) as u64);
            let p = render_u64(*prefix as u64);
            crate::bytes::push_all(&mut out, &o0);
            out.push(46);
            crate::bytes::push_all(&mut out, &o1);
            out.push(46);
            crate::bytes::push_all(&mut out, &o2);
            out.push(46);
            crate::bytes::push_all(&mut out, &o3);
            out.push(47);
            crate::bytes::push_all(&mut out, &p);
            proof {
                assert(out@ =~= cidr_text_spec(*c));
            }
            out
        },
        Cidr::V6 { addr, prefix } => {
            let mut out: Vec<u8> = Vec::new();
            let mut i: usize = 0;
            while i < 8
                invariant
                    i <= 8,
                    out@ =~= v6_text_upto(*addr, i as int),
                decreases 8 - i,
            {
                if i > 0 {
                    out.push(58);
                }
                let k: usize = 16 * (7 - i);
                let d: u128 = two_pow_u128(k);
                proof {
                    lemma_pow2_pos(k as nat);
                }
                let g: u64 = ((*addr / d) % 65536) as u64;
                let gt = render_hex16(g);
                crate::bytes::push_all(&mut out, &gt);
                proof {
                    assert(g as nat == v6_group(*addr, i as int));
                    if i == 0 {
                        assert(out@ =~= v6_text_upto(*addr, 1));
                    } else {
                        assert(out@ =~= v6_text_upto(*addr, i + 1));
                    }
                }
                i = i + 1;
            }
            out.push(47);
            let p = render_u64(*prefix as u64);
            crate::bytes::push_all(&mut out, &p);
            proof {
                assert(out@ =~= cidr_text_spec(*c));
            }
            out
        },
    }
}

/// The inner veth address derived from a listen port: the bridge network
/// base plus the port, keeping the bridge prefix.
pub fn veth_ipv4net(port: u16) -> (r: Cidr)
    ensures
        r == (Cidr::V4 { addr: (BRIDGE_BASE_ADDR + port) as u32, prefix: BRIDGE_PREFIX }),
        r.wf(),
{
    Cidr::V4 { addr: BRIDGE_BASE_ADDR + port as u32, prefix: BRIDGE_PREFIX }
}

/// The fixed address block of the bridge interface, `172.99.0.1/16`.
pub fn bridge_net() -> (r: Cidr)
    ensures
        r == (Cidr::V4 { addr: BRIDGE_IF_ADDR, prefix: BRIDGE_PREFIX }),
        r.wf(),
    {
    Cidr::V4 { addr: BRIDGE_IF_ADDR, prefix: BRIDGE_PREFIX }
}

/// Textual rendering of the address alone, without the prefix length.
pub open spec fn addr_text_spec(c: Cidr) -> Seq<u8> {
    match c {
        Cidr::V4 { addr, prefix } => v4_text(addr),
        Cidr::V6 { addr, prefix } => v6_text(addr),
    }
}

/// Render the address of a block without its prefix length.
pub fn addr_text(c: &Cidr) -> (r: Vec<u8>)
    ensures
        r@ == addr_text_spec(*c),
{
    match c {
        Cidr::V4 { addr, prefix } => {
            let mut out: Vec<u8> = Vec::new();
            let o0 = render_u64((*addr / 0x100_0000) as u64);
            let o1 = render_u64(((*addr / 0x1_0000) % 256) as u64);
            let o2 = render_u64(((*addr / 256) % 256) as u64);
            let o3 = render_u64((*addr % 256) as u64);
            crate::bytes::push_all(&mut out, &o0);
            out.push(46);
            crate::bytes::push_all(&mut out, &o1);
            out.push(46);
            crate::bytes::push_all(&mut out, &o2);
            out.push(46);
            crate::bytes::push_all(&mut out, &o3);
            proof {
                assert(out@ =~= addr_text_spec(*c));
            }
            out
        },
        Cidr::V6 { addr, prefix } => {
            let mut out: Vec<u8> = Vec::new();
            let mut i: usize = 0;
            while i < 8
                invariant
                    i <= 8,
                    out@ =~= v6_text_upto(*addr, i as int),
                decreases 8 - i,
            {
                if i > 0 {
                    out.push(58);
                }
                let k: usize = 16 * (7 - i);
                let d: u128 = two_pow_u128(k);
                proof {
                    lemma_pow2_pos(k as nat);
                }
                let g: u64 = ((*addr / d) % 65536) as u64;
                let gt = render_hex16(g);
                crate::bytes::push_all(&mut out, &gt);
                proof {
                    assert(g as nat == v6_group(*addr, i as int));
                    if i == 0 {
                        assert(out@ =~= v6_text_upto(*addr, 1));
                    } else {
                        assert(out@ =~= v6_text_upto(*addr, i + 1));
                    }
                }
                i = i + 1;
            }
            proof {
                assert(out@ =~= addr_text_spec(*c));
            }
            out
        },
    }
}

impl Cidr {
    /// Whether the prefix length fits the address width.
    pub fn valid(&self) -> (r: bool)
        ensures
            r == self.wf(),
    {
        match self {
            Cidr::V4 { addr, prefix } => *prefix <= 32,
            Cidr::V6 { addr, prefix } => *prefix <= 128,
        }
    }
}

} // verus!
