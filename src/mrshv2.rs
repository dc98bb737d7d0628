//! MRSHv2 digests, produced by a native adapter that this build does not link.

use vstd::prelude::*;
use vstd::string::*;

verus! {

/// The message of every MRSHv2 request in a build without the native adapter.
pub open spec fn mrshv2_unavailable() -> Seq<char> {
    "MRSHv2 support is disabled in this build: no native adapter library is linked."@
}

/// An MRSHv2 digest: the adapter's text and the payload length.
#[derive(Clone, Debug, Eq, PartialEq)]
pub struct Mrshv2Hash {
    digest: String,
    payload_len: usize,
}

/// What an MRSHv2 digest holds.
pub struct Mrshv2View {
    pub digest: Seq<char>,
    pub payload_len: nat,
}

impl View for Mrshv2Hash {
    type V = Mrshv2View;

    closed spec fn view(&self) -> Mrshv2View {
        Mrshv2View { digest: self.digest@, payload_len: self.payload_len as nat }
    }
}

impl Mrshv2Hash {
    /// The digest text, `mrshv2:` followed by the adapter's output.
    pub fn as_string(&self) -> (r: &str)
        ensures
            r@ == self@.digest,
    {
        self.digest.as_str()
    }

    /// The length of the payload the digest was built from.
    pub fn payload_len(&self) -> (r: usize)
        ensures
            r as nat == self@.payload_len,
    {
        self.payload_len
    }
}

/// Builds an MRSHv2 digest. Without the native adapter every request fails.
pub fn calculate_mrshv2_hash(payload: &[u8]) -> (r: Result<Mrshv2Hash, String>)
    ensures
        r is Err,
        r->Err_0@ == mrshv2_unavailable(),
{
    Err(String::from_str("MRSHv2 support is disabled in this build: no native adapter library is linked."))
}

/// Compares two MRSHv2 digests. Without the native adapter every request fails.
pub fn diff_mrshv2_hash(left: &Mrshv2Hash, right: &Mrshv2Hash, include_file_length: bool) -> (r: Result<i32, String>)
    ensures
        r is Err,
        r->Err_0@ == mrshv2_unavailable(),
{
    Err(String::from_str("MRSHv2 support is disabled in this build: no native adapter library is linked."))
}

} // verus!
