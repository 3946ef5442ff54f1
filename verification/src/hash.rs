//! SHA-256 content hashes, written as lowercase hexadecimal.
use vstd::prelude::*;
use crate::json::hex_digit;

verus! {

/// The SHA-256 digest of `data`.
pub uninterp spec fn sha256(data: Seq<u8>) -> Seq<u8>;

/// Lowercase hexadecimal text of `bytes`: two digits per byte, high nibble first.
pub open spec fn hex_lower(bytes: Seq<u8>) -> Seq<char>
    decreases bytes.len(),
{
    if bytes.len() == 0 {
        Seq::empty()
    } else {
        hex_lower(bytes.drop_last()) + seq![
            hex_digit((bytes.last() as u32) / 16),
            hex_digit((bytes.last() as u32) % 16),
        ]
    }
}

/// The lowercase hex SHA-256 of `data`.
pub open spec fn hash_hex(data: Seq<u8>) -> Seq<char> {
    hex_lower(sha256(data))
}

/// `sha2::Sha256::digest`: the 32-byte SHA-256 digest of `data`.
#[verifier::external_body]
fn sha256_digest(data: &[u8]) -> (d: Vec<u8>)
    ensures
        d@ == sha256(data@),
        d@.len() == 32,
{
    <sha2::Sha256 as sha2::Digest>::digest(data).to_vec()
}

/// `hex::encode`: two lowercase hex digits per byte, in order.
#[verifier::external_body]
fn hex_encode(bytes: &[u8]) -> (s: String)
    ensures
        s@ == hex_lower(bytes@),
{
    hex::encode(bytes)
}

/// The SHA-256 of `data`, as lowercase hex.
pub fn hash_bytes(data: &[u8]) -> (h: String)
    ensures
        h@ == hash_hex(data@),
        h@.len() == 64,
        forall|i: int| 0 <= i < 64 ==> crate::event::is_lower_hex(#[trigger] h@[i]),
{
    let digest = sha256_digest(data);
    let h = hex_encode(digest.as_slice());
    proof {
        lemma_hex_lower(digest@);
    }
    h
}

/// A SHA-256 computation fed in chunks: `sha2::Sha256` through its `Digest`
/// methods. Verus cannot be given `sha2::Sha256` itself (it is a stack of
/// generic types whose bounds name `digest` and `typenum` traits), so the
/// hasher is held in a private field Verus does not see, and `fed_bytes`
/// names what the stream has been fed.
#[verifier::external_body]
pub struct Sha256Stream {
    state: sha2::Sha256,
}

/// The bytes fed to a stream so far, in order.
pub uninterp spec fn fed_bytes(s: Sha256Stream) -> Seq<u8>;

impl Sha256Stream {
    /// `<sha2::Sha256 as Digest>::new()`: a stream fed nothing.
    #[verifier::external_body]
    pub fn new() -> (s: Sha256Stream)
        ensures
            fed_bytes(s) == Seq::<u8>::empty(),
    {
        Sha256Stream { state: <sha2::Sha256 as sha2::Digest>::new() }
    }

    /// `Digest::update`: feeds `chunk` after what was fed before.
    #[verifier::external_body]
    pub fn update(&mut self, chunk: &[u8])
        ensures
            fed_bytes(*final(self)) == fed_bytes(*old(self)) + chunk@,
    {
        sha2::Digest::update(&mut self.state, chunk)
    }

    /// `Digest::finalize`: the 32-byte SHA-256 digest of all that was fed.
    #[verifier::external_body]
    fn digest(self) -> (d: Vec<u8>)
        ensures
            d@ == sha256(fed_bytes(self)),
            d@.len() == 32,
    {
        sha2::Digest::finalize(self.state).to_vec()
    }

    /// The SHA-256 of all that was fed, as lowercase hex: the same text
    /// `hash_bytes` gives for those bytes at once.
    pub fn finish(self) -> (h: String)
        ensures
            h@ == hash_hex(fed_bytes(self)),
            h@.len() == 64,
            forall|i: int| 0 <= i < 64 ==> crate::event::is_lower_hex(#[trigger] h@[i]),
    {
        let digest = self.digest();
        let h = hex_encode(digest.as_slice());
        proof {
            lemma_hex_lower(digest@);
        }
        h
    }
}

/// Hex text has two characters per byte, each a lowercase hex digit.
pub proof fn lemma_hex_lower(bytes: Seq<u8>)
    ensures
        hex_lower(bytes).len() == 2 * bytes.len(),
        forall|i: int| 0 <= i < hex_lower(bytes).len() ==> crate::event::is_lower_hex(#[trigger] hex_lower(bytes)[i]),
    decreases bytes.len(),
{
    if bytes.len() > 0 {
        lemma_hex_lower(bytes.drop_last());
        let hi = (bytes.last() as u32) / 16;
        let lo = (bytes.last() as u32) % 16;
        lemma_hex_digit(hi);
        lemma_hex_digit(lo);
        let h = hex_lower(bytes);
        assert forall|i: int| 0 <= i < h.len() implies crate::event::is_lower_hex(#[trigger] h[i]) by {
            if i < h.len() - 2 {
                assert(h[i] == hex_lower(bytes.drop_last())[i]);
            }
        }
    }
}

pub proof fn lemma_hex_digit(d: u32)
    requires
        d < 16,
    ensures
        crate::event::is_lower_hex(hex_digit(d)),
{
}

} // verus!
