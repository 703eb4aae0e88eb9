//! The bearer token presented on the control-plane channel.

use vstd::prelude::*;
use vstd::string::StringSliceAdditionalSpecFns;
use vstd::string::StrSliceExecFns;

verus! {

/// An opaque bearer token, compared byte for byte.
#[derive(Clone, Debug)]
pub struct Token {
    pub text: Vec<u8>,
}

impl Token {
    /// Hold a token value.
    pub fn new(value: &str) -> (r: Token)
        ensures
            r.text@ == value.spec_bytes(),
    {
        Token { text: value.as_bytes_vec() }
    }

    /// Whether a supplied value matches the token.
    pub fn check(&self, supplied: &str) -> (r: bool)
        ensures
            r == (self.text@ == supplied.spec_bytes()),
    {
        let other = supplied.as_bytes_vec();
        crate::bytes::bytes_eq(&self.text, &other)
    }
}

} // verus!
