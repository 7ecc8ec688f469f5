//! Hashes, the message authentication code and the stream cipher that the
//! onion format is built on.
//!
//! None of these algorithms is written out here. Each is the work of a crate
//! made for it, reached through one function whose contract gives the result
//! a name.
use chacha20::cipher::{NewCipher, StreamCipher, StreamCipherSeek};
use hmac::Mac;
use sha2::Digest;
use vstd::prelude::*;

verus! {

/// `hmac::digest::InvalidLength`, the error of keying a message
/// authentication code. Nothing here looks inside it.
#[verifier::external_type_specification]
#[verifier::external_body]
pub struct ExInvalidLength(hmac::digest::InvalidLength);

/// The SHA-256 digest of `data`, 32 bytes.
pub uninterp spec fn sha256(data: Seq<u8>) -> Seq<u8>;

/// The HMAC-SHA256 tag of `msg` under `key`, 32 bytes.
pub uninterp spec fn hmac_sha256(key: Seq<u8>, msg: Seq<u8>) -> Seq<u8>;

/// The unkeyed Blake2b digest of `data` with an output of 32 bytes.
pub uninterp spec fn blake2b_256(data: Seq<u8>) -> Seq<u8>;

/// The byte at position `pos` of the ChaCha20 keystream that starts at block
/// zero for the 32-byte `key` and the 12-byte `nonce`.
pub uninterp spec fn chacha20_keystream(key: Seq<u8>, nonce: Seq<u8>, pos: int) -> u8;

/// How many bytes of keystream one key and nonce give: `2^32` blocks of 64
/// bytes.
pub const KEYSTREAM_LEN: u64 = 0x40_0000_0000;

/// `sha2::Sha256::digest`: the digest of the whole input, as the name
/// `sha256` has it.
#[verifier::external_body]
pub(crate) fn sha256_digest(data: &[u8]) -> (r: [u8; 32])
    ensures
        r@ == sha256(data@),
{
    sha2::Sha256::digest(data).into()
}

/// `hmac::Hmac::<Sha256>`, keyed by `new_from_slice`, fed `msg` once and
/// finalized. The crate's source builds the keyed state for a key of any
/// length and returns `Ok` in every case, which is what the first clause
/// claims; the tag is the one that the name `hmac_sha256` stands for.
#[verifier::external_body]
pub(crate) fn hmac_sha256_tag(key: &[u8], msg: &[u8]) -> (r: Result<
    [u8; 32],
    hmac::digest::InvalidLength,
>)
    ensures
        r is Ok,
        r matches Ok(tag) ==> tag@ == hmac_sha256(key@, msg@),
{
    let mut mac = hmac::Hmac::<sha2::Sha256>::new_from_slice(key)?;
    mac.update(msg);
    Ok(mac.finalize().into_bytes().into())
}

/// `blake2_rfc::blake2b::Blake2b::new(32)`, fed `data` once and finalized.
#[verifier::external_body]
pub(crate) fn blake2b_256_digest(data: &[u8]) -> (r: [u8; 32])
    ensures
        r@ == blake2b_256(data@),
{
    let mut hasher = blake2_rfc::blake2b::Blake2b::new(32);
    hasher.update(data);
    let mut out = [0u8; 32];
    out.copy_from_slice(hasher.finalize().as_bytes());
    out
}

/// `chacha20::ChaCha20`: a cipher made of `key` and `nonce`, moved to
/// `offset` with `seek`, then `apply_keystream` on a copy of `data`. The
/// crate documents that the keystream is XORed onto the data; which byte of
/// the keystream meets which byte of the data is all that `offset` decides.
/// Both calls panic past the end of the keystream, which `requires` rules out.
#[verifier::external_body]
pub(crate) fn chacha20_xor(key: &[u8; 32], nonce: &[u8; 12], offset: u64, data: &[u8]) -> (r: Vec<
    u8,
>)
    requires
        offset + data@.len() < KEYSTREAM_LEN,
    ensures
        r@.len() == data@.len(),
        forall|i: int|
            0 <= i < data@.len() ==> #[trigger] r@[i] == data@[i] ^ chacha20_keystream(
                key@,
                nonce@,
                offset + i,
            ),
{
    let mut cipher = chacha20::ChaCha20::new(
        chacha20::Key::from_slice(key),
        chacha20::Nonce::from_slice(nonce),
    );
    cipher.seek(offset);
    let mut out = data.to_vec();
    cipher.apply_keystream(&mut out);
    out
}

/// `data` with the keystream from position `offset` on XORed onto it.
pub open spec fn xor_keystream(key: Seq<u8>, nonce: Seq<u8>, offset: int, data: Seq<u8>) -> Seq<
    u8,
> {
    Seq::new(data.len(), |i: int| data[i] ^ chacha20_keystream(key, nonce, offset + i))
}

/// XORing the same stretch of keystream twice gives the data back.
pub proof fn lemma_xor_keystream_involution(
    key: Seq<u8>,
    nonce: Seq<u8>,
    offset: int,
    data: Seq<u8>,
)
    ensures
        xor_keystream(key, nonce, offset, xor_keystream(key, nonce, offset, data)) == data,
{
    let once = xor_keystream(key, nonce, offset, data);
    let twice = xor_keystream(key, nonce, offset, once);
    assert forall|i: int| 0 <= i < data.len() implies twice[i] == data[i] by {
        let d = data[i];
        let k = chacha20_keystream(key, nonce, offset + i);
        assert((d ^ k) ^ k == d) by (bit_vector);
    }
    assert(twice =~= data);
}

/// A ChaCha20 keystream and how far into it the cipher has come.
pub struct StreamCipherState {
    key: [u8; 32],
    nonce: [u8; 12],
    pos: u64,
}

impl StreamCipherState {
    #[verifier::type_invariant]
    spec fn inv(self) -> bool {
        self.pos < KEYSTREAM_LEN
    }

    pub closed spec fn key(self) -> Seq<u8> {
        self.key@
    }

    pub closed spec fn nonce(self) -> Seq<u8> {
        self.nonce@
    }

    /// The position in the keystream of the next byte to be used.
    pub closed spec fn pos(self) -> int {
        self.pos as int
    }

    /// A cipher at the start of the keystream of `key` and `nonce`.
    pub fn new(key: [u8; 32], nonce: [u8; 12]) -> (r: Self)
        ensures
            r.key() == key@,
            r.nonce() == nonce@,
            r.pos() == 0,
    {
        StreamCipherState { key, nonce, pos: 0 }
    }

    /// How many bytes can still be passed through the cipher.
    pub fn capacity(&self) -> (n: u64)
        ensures
            n == KEYSTREAM_LEN - 1 - self.pos(),
    {
        proof {
            use_type_invariant(self);
        }
        KEYSTREAM_LEN - 1 - self.pos
    }

    /// XORs the next bytes of the keystream onto `data` and moves on by as
    /// many bytes.
    pub fn apply_keystream(&mut self, data: &[u8]) -> (r: Vec<u8>)
        requires
            old(self).pos() + data@.len() < KEYSTREAM_LEN,
        ensures
            r@ == xor_keystream(old(self).key(), old(self).nonce(), old(self).pos(), data@),
            final(self).key() == old(self).key(),
            final(self).nonce() == old(self).nonce(),
            final(self).pos() == old(self).pos() + data@.len(),
    {
        let out = chacha20_xor(&self.key, &self.nonce, self.pos, data);
        proof {
            assert(out@ =~= xor_keystream(self.key@, self.nonce@, self.pos as int, data@));
        }
        self.pos = self.pos + data.len() as u64;
        out
    }
}

} // verus!
