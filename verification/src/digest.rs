//! MD5 content digests, streamed chunk by chunk and written as lowercase hex.

use vstd::prelude::*;
use md5::Digest;
use crate::text::{hex_bytes, hex_of_bytes, string_of};

verus! {

/// An MD5 hasher of the `md-5` crate, held opaquely.
#[verifier::external_body]
pub struct Md5State {
    inner: md5::Md5,
}

/// A name for the bytes that an [`Md5State`] has absorbed since it was made.
pub uninterp spec fn md5_absorbed(h: Md5State) -> Seq<u8>;

/// A name for the MD5 digest of a byte string, as the `md-5` crate's
/// `finalize` returns it.
pub uninterp spec fn md5_digest(data: Seq<u8>) -> Seq<u8>;

/// Makes a fresh hasher with `Md5::new`.
///
/// Trusted: a new hasher has absorbed nothing.
#[verifier::external_body]
fn md5_new() -> (h: Md5State)
    ensures
        md5_absorbed(h) == Seq::<u8>::empty(),
{
    Md5State { inner: md5::Md5::new() }
}

/// Feeds `data` to the hasher with `Digest::update`.
///
/// Trusted: the absorbed bytes are extended by `data`, in order.
#[verifier::external_body]
fn md5_update(h: &mut Md5State, data: &[u8])
    ensures
        md5_absorbed(*final(h)) == md5_absorbed(*old(h)) + data@,
{
    h.inner.update(data);
}

/// Finishes the hash with `Digest::finalize` and copies the 16 digest bytes.
///
/// Trusted: the result is the digest of everything absorbed; MD5 digests
/// are 16 bytes long.
#[verifier::external_body]
fn md5_finalize(h: Md5State) -> (d: Vec<u8>)
    ensures
        d@ == md5_digest(md5_absorbed(h)),
        d@.len() == 16,
{
    h.inner.finalize().to_vec()
}

/// A streaming MD5 of a file's content.
pub struct ContentHash {
    state: Md5State,
}

impl View for ContentHash {
    type V = Seq<u8>;

    /// The bytes hashed so far.
    closed spec fn view(&self) -> Seq<u8> {
        md5_absorbed(self.state)
    }
}

impl ContentHash {
    /// Starts a hash over no bytes.
    pub fn new() -> (h: ContentHash)
        ensures
            h@ == Seq::<u8>::empty(),
    {
        ContentHash { state: md5_new() }
    }

    /// Appends a chunk of the content.
    pub fn update(&mut self, chunk: &[u8])
        ensures
            final(self)@ == old(self)@ + chunk@,
    {
        md5_update(&mut self.state, chunk);
    }

    /// The digest as 32 lowercase hexadecimal digits, as `format!("{:x}", digest)` writes it.
    pub fn finish_hex(self) -> (s: String)
        ensures
            s@ == hex_bytes(md5_digest(self@)),
            s@.len() == 32,
    {
        let d = md5_finalize(self.state);
        let v = hex_of_bytes(d.as_slice());
        proof {
            lemma_hex_len(d@);
        }
        string_of(v.as_slice())
    }
}

/// Each byte gives two digits.
pub proof fn lemma_hex_len(b: Seq<u8>)
    ensures
        hex_bytes(b).len() == 2 * b.len(),
    decreases b.len(),
{
    if b.len() > 0 {
        lemma_hex_len(b.drop_last());
    }
}

} // verus!
