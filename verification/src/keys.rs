//! WireGuard key handles.
//!
//! The gateway performs no cryptography: private keys, public keys and
//! preshared secrets are opaque 32-byte values carried in their textual
//! renderings (base64 or hex). Each handle stores the text it was parsed
//! from; validity is decided by the `wireguard_keys` crate through a
//! single trusted wrapper.

use vstd::prelude::*;

verus! {

/// Whether `s` is a textual rendering of a 32-byte key that
/// `wireguard_keys` accepts: 64 hex digits, or 44 base64 characters
/// (standard or URL-safe alphabet).
pub uninterp spec fn key_text_ok(s: Seq<u8>) -> bool;

/// Relies on `wireguard_keys::Pubkey::from_str` (via `Pubkey::parse`): it
/// dispatches on the text's byte length and accepts exactly the hex
/// (length 64) and base64 (length 44) renderings of a 32-byte key,
/// deciding by the text alone. Every other length fails with a length
/// error; in particular the crate's base32 support (length 56) is not
/// compiled into this build.
#[verifier::external_body]
fn key_text_valid(s: &Vec<u8>) -> (r: bool)
    ensures
        r == key_text_ok(s@),
        r ==> s@.len() == 44 || s@.len() == 64,
{
    match core::str::from_utf8(s.as_slice()) {
        Ok(text) => <wireguard_keys::Pubkey as core::str::FromStr>::from_str(text).is_ok(),
        Err(_) => false,
    }
}

/// A WireGuard public key, as its textual rendering.
#[derive(Clone, Debug)]
pub struct Pubkey {
    pub text: Vec<u8>,
}

/// A WireGuard private key, as its textual rendering.
#[derive(Clone, Debug)]
pub struct Privkey {
    pub text: Vec<u8>,
}

/// A WireGuard preshared secret, as its textual rendering.
#[derive(Clone, Debug)]
pub struct Secret {
    pub text: Vec<u8>,
}

impl Pubkey {
    /// The stored text denotes a 32-byte key.
    pub open spec fn wf(self) -> bool {
        key_text_ok(self.text@)
    }

    /// Parse a public key from its textual rendering.
    pub fn parse(text: Vec<u8>) -> (r: Result<Pubkey, ()>)
        ensures
            r is Ok <==> key_text_ok(text@),
            r is Ok ==> r->Ok_0.text@ == text@ && r->Ok_0.wf(),
    {
        if key_text_valid(&text) {
            Ok(Pubkey { text })
        } else {
            Err(())
        }
    }
}

impl Privkey {
    /// The stored text denotes a 32-byte key.
    pub open spec fn wf(self) -> bool {
        key_text_ok(self.text@)
    }

    /// Parse a private key from its textual rendering.
    pub fn parse(text: Vec<u8>) -> (r: Result<Privkey, ()>)
        ensures
            r is Ok <==> key_text_ok(text@),
            r is Ok ==> r->Ok_0.text@ == text@ && r->Ok_0.wf(),
    {
        if key_text_valid(&text) {
            Ok(Privkey { text })
        } else {
            Err(())
        }
    }
}

impl Secret {
    /// The stored text denotes a 32-byte key.
    pub open spec fn wf(self) -> bool {
        key_text_ok(self.text@)
    }

    /// Parse a preshared secret from its textual rendering.
    pub fn parse(text: Vec<u8>) -> (r: Result<Secret, ()>)
        ensures
            r is Ok <==> key_text_ok(text@),
            r is Ok ==> r->Ok_0.text@ == text@ && r->Ok_0.wf(),
    {
        if key_text_valid(&text) {
            Ok(Secret { text })
        } else {
            Err(())
        }
    }
}

impl Pubkey {
    /// Whether the stored text denotes a key.
    pub fn valid(&self) -> (r: bool)
        ensures
            r == self.wf(),
    {
        key_text_valid(&self.text)
    }
}

impl Privkey {
    /// Whether the stored text denotes a key.
    pub fn valid(&self) -> (r: bool)
        ensures
            r == self.wf(),
    {
        key_text_valid(&self.text)
    }
}

impl Secret {
    /// Whether the stored text denotes a key.
    pub fn valid(&self) -> (r: bool)
        ensures
            r == self.wf(),
    {
        key_text_valid(&self.text)
    }
}

} // verus!
