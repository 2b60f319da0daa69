//! Content digests: SHA-256, rendered in lowercase hexadecimal.

use crate::text::{hex_digits, hex_string};
use sha2::Digest;
use sha2::Sha256;
use vstd::prelude::*;
use vstd::slice::slice_subrange;

verus! {

/// A running SHA-256 computation over the chunks of one file.
///
/// The state of the computation is that of `sha2::Sha256`; nothing is
/// known of it here but the bytes that it has taken in.
#[verifier::external_body]
pub struct ContentHasher {
    state: Sha256,
}

/// The bytes that a hasher has taken in so far, in the order of arrival.
pub uninterp spec fn absorbed(hasher: ContentHasher) -> Seq<u8>;

/// The SHA-256 digest of a byte string.
pub uninterp spec fn sha256(data: Seq<u8>) -> Seq<u8>;

/// `sha2::Sha256::new`: a fresh hasher has taken in nothing.
#[verifier::external_body]
fn sha256_new() -> (hasher: ContentHasher)
    ensures
        absorbed(hasher) == Seq::<u8>::empty(),
{
    ContentHasher { state: Sha256::new() }
}

/// `sha2::Sha256::update`: the hasher takes in `chunk` behind what it
/// already has.
#[verifier::external_body]
fn sha256_update(hasher: &mut ContentHasher, chunk: &[u8])
    ensures
        absorbed(*final(hasher)) == absorbed(*old(hasher)) + chunk@,
{
    hasher.state.update(chunk)
}

/// `sha2::Sha256::finalize`: the digest of all that the hasher has taken
/// in, which has 32 bytes.
#[verifier::external_body]
fn sha256_finalize(hasher: ContentHasher) -> (digest: Vec<u8>)
    ensures
        digest@ == sha256(absorbed(hasher)),
        digest@.len() == 32,
{
    hasher.state.finalize().to_vec()
}

/// The digest of a file's content as the scan compares it: SHA-256 in
/// lowercase hexadecimal.
pub open spec fn content_digest(data: Seq<u8>) -> Seq<char> {
    hex_digits(sha256(data))
}

/// The number of bytes that `hash_bytes` feeds to the hasher at a time.
pub const CHUNK_SIZE: usize = 8192;

impl View for ContentHasher {
    type V = Seq<u8>;

    open spec fn view(&self) -> Seq<u8> {
        absorbed(*self)
    }
}

impl ContentHasher {
    /// Starts a digest of no bytes.
    pub fn new() -> (hasher: Self)
        ensures
            hasher@ == Seq::<u8>::empty(),
    {
        sha256_new()
    }

    /// Takes in the next chunk of the content.
    pub fn update(&mut self, chunk: &[u8])
        ensures
            final(self)@ == old(self)@ + chunk@,
    {
        sha256_update(self, chunk)
    }

    /// Ends the computation and renders the digest of all chunks taken
    /// in: 64 hexadecimal characters.
    pub fn finish(self) -> (digest: String)
        ensures
            digest@ == content_digest(self@),
            digest@.len() == 64,
    {
        let raw = sha256_finalize(self);
        hex_string(raw.as_slice())
    }
}

/// The digest of `data`, computed chunk by chunk.
pub fn hash_bytes(data: &[u8]) -> (digest: String)
    ensures
        digest@ == content_digest(data@),
        digest@.len() == 64,
{
    let mut hasher = ContentHasher::new();
    let mut done: usize = 0;
    while done < data.len()
        invariant
            done <= data.len(),
            hasher@ == data@.take(done as int),
        decreases data.len() - done,
    {
        let rest: usize = data.len() - done;
        let step: usize = if rest < CHUNK_SIZE {
            rest
        } else {
            CHUNK_SIZE
        };
        let chunk = slice_subrange(data, done, done + step);
        hasher.update(chunk);
        assert(data@.take(done as int) + data@.subrange(done as int, done + step) =~= data@.take(
            done + step,
        ));
        done = done + step;
    }
    assert(data@.take(data.len() as int) =~= data@);
    hasher.finish()
}

} // verus!
