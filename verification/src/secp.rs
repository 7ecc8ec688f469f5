//! Keys, Pedersen commitments and range proofs over secp256k1.
//!
//! The curve arithmetic is that of the `secp256k1zkp` bindings. This module
//! holds every value as the bytes of its serialized form, hands those bytes
//! to the bindings, and takes bytes back. What the bindings compute is not
//! restated: each operation has a name, and the contracts of this library say
//! which names were applied to which bytes.
use crate::bytes::{be_digits, bytes_eq, put_bytes, take_bytes, u64_to_be, Reader, SerError};
use crate::crypto::{blake2b_256, blake2b_256_digest};
use crate::hex::{decode_hex, encode_hex, hex_string, spec_decode_hex, HexError};
use vstd::prelude::*;

verus! {

/// `secp256k1zkp::Error`, the error of every operation of the curve library.
/// It is carried through as it comes; nothing here looks inside it.
#[verifier::external_type_specification]
#[verifier::external_body]
pub struct ExSecpError(secp256k1zkp::Error);

/// `Clone::clone` of the curve library's error type, which is `Copy`: the
/// clone is the value itself.
pub assume_specification[ <secp256k1zkp::Error as Clone>::clone ](
    e: &secp256k1zkp::Error,
) -> (r: secp256k1zkp::Error)
    ensures
        r == *e,
;

/// The size of a secret key in bytes.
pub const SECRET_KEY_SIZE: usize = 32;

/// The size of a public key in compressed form.
pub const COMPRESSED_PUBLIC_KEY_SIZE: usize = 33;

/// The size of a Pedersen commitment.
pub const PEDERSEN_COMMITMENT_SIZE: usize = 33;

/// The most bytes that a range proof can have: the size of a bulletproof
/// for one 64-bit value.
pub const MAX_PROOF_SIZE: usize = 675;

/// The size of a Schnorr signature.
pub const AGG_SIGNATURE_SIZE: usize = 64;

/// Whether `bytes` are the 32 bytes of a scalar that the curve library takes
/// as a secret key.
pub uninterp spec fn valid_secret_key(bytes: Seq<u8>) -> bool;

/// The compressed form of the curve point that `bytes` encode, where they
/// encode one.
pub uninterp spec fn parse_public_key(bytes: Seq<u8>) -> Option<Seq<u8>>;

/// The public key of the secret key `secret`, compressed.
pub uninterp spec fn public_key_of(secret: Seq<u8>) -> Option<Seq<u8>>;

/// The point `point` multiplied by the scalar `scalar`, compressed.
pub uninterp spec fn public_key_times(point: Seq<u8>, scalar: Seq<u8>) -> Option<Seq<u8>>;

/// The Diffie-Hellman secret of the point `point` and the scalar `scalar`.
pub uninterp spec fn ecdh_secret(point: Seq<u8>, scalar: Seq<u8>) -> Option<Seq<u8>>;

/// The product of two scalars modulo the order of the curve.
pub uninterp spec fn scalar_product(a: Seq<u8>, b: Seq<u8>) -> Option<Seq<u8>>;

/// The sum of two scalars modulo the order of the curve.
pub uninterp spec fn scalar_sum(a: Seq<u8>, b: Seq<u8>) -> Option<Seq<u8>>;

/// The commitment `value * H + blind * G`.
pub uninterp spec fn pedersen_commit(value: u64, blind: Seq<u8>) -> Option<Seq<u8>>;

/// The commitment `value * H + blind * G` for a value that is a scalar.
pub uninterp spec fn pedersen_commit_blind(value: Seq<u8>, blind: Seq<u8>) -> Option<Seq<u8>>;

/// The sum of the commitments `positive` less the sum of `negative`.
pub uninterp spec fn pedersen_sum(positive: Seq<Seq<u8>>, negative: Seq<Seq<u8>>) -> Option<
    Seq<u8>,
>;

/// The commitment `commit` read as a curve point, compressed.
pub uninterp spec fn commitment_as_public_key(commit: Seq<u8>) -> Option<Seq<u8>>;

/// The curve point `point` read as a commitment.
pub uninterp spec fn public_key_as_commitment(point: Seq<u8>) -> Option<Seq<u8>>;

/// Whether `proof` is a bulletproof that the value committed to in `commit`
/// lies in the 64-bit range.
pub uninterp spec fn bullet_proof_valid(commit: Seq<u8>, proof: Seq<u8>) -> bool;

/// `SecretKey::from_slice`: accepts exactly the byte strings for which
/// `valid_secret_key` holds, and returns them unchanged.
#[verifier::external_body]
fn secret_key_from_slice(data: &[u8]) -> (r: Result<[u8; 32], secp256k1zkp::Error>)
    ensures
        match r {
            Ok(k) => valid_secret_key(data@) && k@ == data@,
            Err(_) => !valid_secret_key(data@),
        },
{
    let secp = secp256k1zkp::Secp256k1::with_caps(secp256k1zkp::ContextFlag::None);
    secp256k1zkp::key::SecretKey::from_slice(&secp, data).map(|k| k.0)
}

/// `SecretKey::new` with the thread's random number generator. The bindings
/// draw 32 bytes again and again until the curve library accepts them, so
/// whatever comes back is a valid key; nothing else is known of it.
#[verifier::external_body]
fn secret_key_random() -> (r: [u8; 32])
    ensures
        valid_secret_key(r@),
{
    let secp = secp256k1zkp::Secp256k1::with_caps(secp256k1zkp::ContextFlag::None);
    secp256k1zkp::key::SecretKey::new(&secp, &mut secp256k1zkp::rand::thread_rng()).0
}

/// `SecretKey::mul_assign` on a copy of `a`.
#[verifier::external_body]
fn secret_key_mul(a: &[u8; 32], b: &[u8; 32]) -> (r: Result<[u8; 32], secp256k1zkp::Error>)
    ensures
        match r {
            Ok(k) => scalar_product(a@, b@) == Some(k@),
            Err(_) => scalar_product(a@, b@) is None,
        },
{
    let secp = secp256k1zkp::Secp256k1::with_caps(secp256k1zkp::ContextFlag::None);
    let mut k = secp256k1zkp::key::SecretKey(*a);
    k.mul_assign(&secp, &secp256k1zkp::key::SecretKey(*b))?;
    Ok(k.0)
}

/// `SecretKey::add_assign` on a copy of `a`.
#[verifier::external_body]
fn secret_key_add(a: &[u8; 32], b: &[u8; 32]) -> (r: Result<[u8; 32], secp256k1zkp::Error>)
    ensures
        match r {
            Ok(k) => scalar_sum(a@, b@) == Some(k@),
            Err(_) => scalar_sum(a@, b@) is None,
        },
{
    let secp = secp256k1zkp::Secp256k1::with_caps(secp256k1zkp::ContextFlag::None);
    let mut k = secp256k1zkp::key::SecretKey(*a);
    k.add_assign(&secp, &secp256k1zkp::key::SecretKey(*b))?;
    Ok(k.0)
}

/// `PublicKey::from_slice`, then `serialize_vec` in compressed form: the
/// point is parsed and written out again in 33 bytes.
#[verifier::external_body]
fn public_key_parse(data: &[u8]) -> (r: Result<[u8; 33], secp256k1zkp::Error>)
    ensures
        match r {
            Ok(p) => parse_public_key(data@) == Some(p@),
            Err(_) => parse_public_key(data@) is None,
        },
{
    let secp = secp256k1zkp::Secp256k1::with_caps(secp256k1zkp::ContextFlag::None);
    let pk = secp256k1zkp::key::PublicKey::from_slice(&secp, data)?;
    let mut out = [0u8; 33];
    out.copy_from_slice(&pk.serialize_vec(&secp, true));
    Ok(out)
}

/// `PublicKey::from_secret_key`, written out in compressed form. The
/// bindings assert in debug builds that the key is valid, so `requires` asks
/// for that.
#[verifier::external_body]
fn public_key_create(secret: &[u8; 32]) -> (r: Result<[u8; 33], secp256k1zkp::Error>)
    requires
        valid_secret_key(secret@),
    ensures
        match r {
            Ok(p) => public_key_of(secret@) == Some(p@),
            Err(_) => public_key_of(secret@) is None,
        },
{
    let secp = secp256k1zkp::Secp256k1::new();
    let sk = secp256k1zkp::key::SecretKey(*secret);
    let pk = secp256k1zkp::key::PublicKey::from_secret_key(&secp, &sk)?;
    let mut out = [0u8; 33];
    out.copy_from_slice(&pk.serialize_vec(&secp, true));
    Ok(out)
}

/// `PublicKey::mul_assign` on the point that `point` encodes, written out in
/// compressed form.
#[verifier::external_body]
fn public_key_mul(point: &[u8; 33], scalar: &[u8; 32]) -> (r: Result<
    [u8; 33],
    secp256k1zkp::Error,
>)
    ensures
        match r {
            Ok(p) => public_key_times(point@, scalar@) == Some(p@),
            Err(_) => public_key_times(point@, scalar@) is None,
        },
{
    let secp = secp256k1zkp::Secp256k1::new();
    let mut pk = secp256k1zkp::key::PublicKey::from_slice(&secp, point)?;
    pk.mul_assign(&secp, &secp256k1zkp::key::SecretKey(*scalar))?;
    let mut out = [0u8; 33];
    out.copy_from_slice(&pk.serialize_vec(&secp, true));
    Ok(out)
}

/// `SharedSecret::new` on the point that `point` encodes. The bindings
/// assert in debug builds that the curve library took the scalar, which it
/// does for a valid key: `requires` asks for one.
#[verifier::external_body]
fn shared_secret_new(point: &[u8; 33], scalar: &[u8; 32]) -> (r: Result<
    [u8; 32],
    secp256k1zkp::Error,
>)
    requires
        valid_secret_key(scalar@),
    ensures
        match r {
            Ok(s) => ecdh_secret(point@, scalar@) == Some(s@),
            Err(_) => ecdh_secret(point@, scalar@) is None,
        },
{
    let secp = secp256k1zkp::Secp256k1::new();
    let pk = secp256k1zkp::key::PublicKey::from_slice(&secp, point)?;
    let sk = secp256k1zkp::key::SecretKey(*scalar);
    let shared = secp256k1zkp::ecdh::SharedSecret::new(&secp, &pk, &sk);
    let mut out = [0u8; 32];
    out.copy_from_slice(&shared[0..32]);
    Ok(out)
}

/// `Secp256k1::commit`.
#[verifier::external_body]
fn secp_commit(value: u64, blind: &[u8; 32]) -> (r: Result<[u8; 33], secp256k1zkp::Error>)
    ensures
        match r {
            Ok(c) => pedersen_commit(value, blind@) == Some(c@),
            Err(_) => pedersen_commit(value, blind@) is None,
        },
{
    let secp = secp256k1zkp::Secp256k1::with_caps(secp256k1zkp::ContextFlag::Commit);
    secp.commit(value, secp256k1zkp::key::SecretKey(*blind)).map(|c| c.0)
}

/// `Secp256k1::commit_blind`.
#[verifier::external_body]
fn secp_commit_blind(value: &[u8; 32], blind: &[u8; 32]) -> (r: Result<
    [u8; 33],
    secp256k1zkp::Error,
>)
    ensures
        match r {
            Ok(c) => pedersen_commit_blind(value@, blind@) == Some(c@),
            Err(_) => pedersen_commit_blind(value@, blind@) is None,
        },
{
    let secp = secp256k1zkp::Secp256k1::with_caps(secp256k1zkp::ContextFlag::Commit);
    let v = secp256k1zkp::key::SecretKey(*value);
    secp.commit_blind(v, secp256k1zkp::key::SecretKey(*blind)).map(|c| c.0)
}

/// The byte strings that a list of 33-byte arrays holds.
pub open spec fn byte_views(v: Seq<[u8; 33]>) -> Seq<Seq<u8>> {
    Seq::new(v.len(), |i: int| v[i]@)
}

/// `Secp256k1::commit_sum`.
#[verifier::external_body]
fn secp_commit_sum(positive: &Vec<[u8; 33]>, negative: &Vec<[u8; 33]>) -> (r: Result<
    [u8; 33],
    secp256k1zkp::Error,
>)
    ensures
        match r {
            Ok(c) => pedersen_sum(byte_views(positive@), byte_views(negative@)) == Some(c@),
            Err(_) => pedersen_sum(byte_views(positive@), byte_views(negative@)) is None,
        },
{
    let secp = secp256k1zkp::Secp256k1::with_caps(secp256k1zkp::ContextFlag::Commit);
    let pos = positive.iter().map(|c| secp256k1zkp::pedersen::Commitment(*c)).collect();
    let neg = negative.iter().map(|c| secp256k1zkp::pedersen::Commitment(*c)).collect();
    secp.commit_sum(pos, neg).map(|c| c.0)
}

/// `Commitment::to_pubkey`, written out in compressed form.
#[verifier::external_body]
fn commitment_to_pubkey(commit: &[u8; 33]) -> (r: Result<[u8; 33], secp256k1zkp::Error>)
    ensures
        match r {
            Ok(p) => commitment_as_public_key(commit@) == Some(p@),
            Err(_) => commitment_as_public_key(commit@) is None,
        },
{
    let secp = secp256k1zkp::Secp256k1::with_caps(secp256k1zkp::ContextFlag::Commit);
    let pk = secp256k1zkp::pedersen::Commitment(*commit).to_pubkey(&secp)?;
    let mut out = [0u8; 33];
    out.copy_from_slice(&pk.serialize_vec(&secp, true));
    Ok(out)
}

/// `Commitment::from_pubkey` on the point that `point` encodes.
#[verifier::external_body]
fn commitment_from_pubkey(point: &[u8; 33]) -> (r: Result<[u8; 33], secp256k1zkp::Error>)
    ensures
        match r {
            Ok(c) => public_key_as_commitment(point@) == Some(c@),
            Err(_) => public_key_as_commitment(point@) is None,
        },
{
    let secp = secp256k1zkp::Secp256k1::with_caps(secp256k1zkp::ContextFlag::Commit);
    let pk = secp256k1zkp::key::PublicKey::from_slice(&secp, point)?;
    secp256k1zkp::pedersen::Commitment::from_pubkey(&secp, &pk).map(|c| c.0)
}

/// `Secp256k1::verify_bullet_proof` without extra data: whether it returned
/// `Ok`. The proof is copied into the fixed buffer of the bindings' own
/// type, which holds `MAX_PROOF_SIZE` bytes: `requires` asks for no more.
#[verifier::external_body]
fn secp_verify_bullet_proof(commit: &[u8; 33], proof: &[u8]) -> (r: bool)
    requires
        proof@.len() <= MAX_PROOF_SIZE,
    ensures
        r == bullet_proof_valid(commit@, proof@),
{
    let secp = secp256k1zkp::Secp256k1::with_caps(secp256k1zkp::ContextFlag::Commit);
    let mut buf = [0u8; secp256k1zkp::constants::MAX_PROOF_SIZE];
    buf[..proof.len()].copy_from_slice(proof);
    let rp = secp256k1zkp::pedersen::RangeProof { proof: buf, plen: proof.len() };
    secp.verify_bullet_proof(secp256k1zkp::pedersen::Commitment(*commit), rp, None).is_ok()
}

/// `aggsig::sign_single` with the signer's public key in the challenge and
/// no nonce given: the bindings draw one at random, so nothing is said of
/// the signature. `requires` fixes what goes into the challenge: the public
/// key of the very key that signs.
#[verifier::external_body]
fn secp_sign_single(secret: &[u8; 32], msg: &[u8; 32], pubkey: &[u8; 33]) -> (r: Result<
    [u8; 64],
    secp256k1zkp::Error,
>)
    requires
        public_key_of(secret@) == Some(pubkey@),
{
    let secp = secp256k1zkp::Secp256k1::with_caps(secp256k1zkp::ContextFlag::Full);
    let pk = secp256k1zkp::key::PublicKey::from_slice(&secp, pubkey)?;
    let sk = secp256k1zkp::key::SecretKey(*secret);
    let m = secp256k1zkp::Message::from(*msg);
    secp256k1zkp::aggsig::sign_single(&secp, &m, &sk, None, None, None, Some(&pk), None).map(
        |s| s.to_raw_data(),
    )
}

/// The 33 bytes at the front of `data`.
fn array33(data: &[u8]) -> (r: [u8; 33])
    requires
        data@.len() == 33,
    ensures
        r@ == data@,
{
    let mut r: [u8; 33] = [0u8; 33];
    let mut i: usize = 0;
    while i < 33
        invariant
            i <= 33,
            data@.len() == 33,
            r@.take(i as int) == data@.take(i as int),
        decreases 33 - i,
    {
        r[i] = data[i];
        proof {
            assert(r@.take(i + 1) =~= data@.take(i + 1));
        }
        i += 1;
    }
    proof {
        assert(r@.take(33) =~= r@);
        assert(data@.take(33) =~= data@);
    }
    r
}

/// A scalar of the curve that the curve library takes as a secret key.
#[derive(Debug, PartialEq, Eq)]
pub struct SecretKey {
    bytes: [u8; 32],
}

impl View for SecretKey {
    type V = Seq<u8>;

    closed spec fn view(&self) -> Seq<u8> {
        self.bytes@
    }
}

impl Clone for SecretKey {
    fn clone(&self) -> (r: Self)
        ensures
            r@ == self@,
    {
        proof {
            use_type_invariant(self);
        }
        SecretKey { bytes: self.bytes }
    }
}

impl SecretKey {
    #[verifier::type_invariant]
    pub closed spec fn inv(self) -> bool {
        valid_secret_key(self.bytes@)
    }

    /// The key that `data` holds. `data` must be 32 bytes that the curve
    /// library takes as a secret key.
    pub fn from_slice(data: &[u8]) -> (r: Result<SecretKey, secp256k1zkp::Error>)
        ensures
            match r {
                Ok(k) => valid_secret_key(data@) && k@ == data@,
                Err(_) => !valid_secret_key(data@),
            },
    {
        match secret_key_from_slice(data) {
            Ok(bytes) => Ok(SecretKey { bytes }),
            Err(e) => Err(e),
        }
    }

    /// The 32 bytes of the key.
    pub fn as_bytes(&self) -> (r: &[u8; 32])
        ensures
            r@ == self@,
            self@.len() == 32,
            valid_secret_key(self@),
    {
        proof {
            use_type_invariant(self);
        }
        &self.bytes
    }

    /// The product of the two keys modulo the curve's order. `Err` where the
    /// curve library refuses the factors or the product.
    pub fn mul(&self, other: &SecretKey) -> (r: Result<SecretKey, secp256k1zkp::Error>)
        ensures
            match r {
                Ok(k) => spec_scalar_mul(self@, other@) == Some(k@),
                Err(_) => spec_scalar_mul(self@, other@) is None,
            },
    {
        match secret_key_mul(&self.bytes, &other.bytes) {
            Ok(bytes) => SecretKey::from_slice(&bytes),
            Err(e) => Err(e),
        }
    }

    /// The sum of the two keys modulo the curve's order. `Err` where the
    /// curve library refuses the terms or the sum.
    pub fn add(&self, other: &SecretKey) -> (r: Result<SecretKey, secp256k1zkp::Error>)
        ensures
            match r {
                Ok(k) => spec_scalar_add(self@, other@) == Some(k@),
                Err(_) => spec_scalar_add(self@, other@) is None,
            },
    {
        match secret_key_add(&self.bytes, &other.bytes) {
            Ok(bytes) => SecretKey::from_slice(&bytes),
            Err(e) => Err(e),
        }
    }
}

/// The product of two scalars, where it is a secret key again.
pub open spec fn spec_scalar_mul(a: Seq<u8>, b: Seq<u8>) -> Option<Seq<u8>> {
    match scalar_product(a, b) {
        Some(k) => if valid_secret_key(k) {
            Some(k)
        } else {
            None
        },
        None => None,
    }
}

/// The sum of two scalars, where it is a secret key again.
pub open spec fn spec_scalar_add(a: Seq<u8>, b: Seq<u8>) -> Option<Seq<u8>> {
    match scalar_sum(a, b) {
        Some(k) => if valid_secret_key(k) {
            Some(k)
        } else {
            None
        },
        None => None,
    }
}

/// Whether `bytes` are 33 bytes that encode a curve point.
pub open spec fn valid_public_key(bytes: Seq<u8>) -> bool {
    bytes.len() == 33 && parse_public_key(bytes) is Some
}

/// The 33 bytes that stand for the point that `bytes` encode: `bytes`
/// themselves where they are 33, else the compressed form of the point.
pub open spec fn spec_public_key_from_slice(bytes: Seq<u8>) -> Option<Seq<u8>> {
    if bytes.len() == 33 {
        if valid_public_key(bytes) {
            Some(bytes)
        } else {
            None
        }
    } else {
        match parse_public_key(bytes) {
            Some(p) => if valid_public_key(p) {
                Some(p)
            } else {
                None
            },
            None => None,
        }
    }
}

/// A point of the curve, in 33 bytes.
#[derive(Debug, PartialEq, Eq, Hash)]
pub struct PublicKey {
    bytes: [u8; 33],
}

impl View for PublicKey {
    type V = Seq<u8>;

    closed spec fn view(&self) -> Seq<u8> {
        self.bytes@
    }
}

impl Clone for PublicKey {
    fn clone(&self) -> (r: Self)
        ensures
            r@ == self@,
    {
        proof {
            use_type_invariant(self);
        }
        PublicKey { bytes: self.bytes }
    }
}

impl PublicKey {
    #[verifier::type_invariant]
    pub closed spec fn inv(self) -> bool {
        valid_public_key(self.bytes@)
    }

    /// The point that `data` encodes, compressed or not.
    pub fn from_slice(data: &[u8]) -> (r: Result<PublicKey, secp256k1zkp::Error>)
        ensures
            match r {
                Ok(p) => spec_public_key_from_slice(data@) == Some(p@),
                Err(_) => spec_public_key_from_slice(data@) is None,
            },
    {
        let parsed = match public_key_parse(data) {
            Ok(b) => b,
            Err(e) => { return Err(e); },
        };
        if data.len() == 33 {
            Ok(PublicKey { bytes: array33(data) })
        } else {
            match public_key_parse(&parsed) {
                Ok(_) => Ok(PublicKey { bytes: parsed }),
                Err(e) => Err(e),
            }
        }
    }

    /// The public key of `secret`.
    pub fn from_secret_key(secret: &SecretKey) -> (r: Result<PublicKey, secp256k1zkp::Error>)
        ensures
            match r {
                Ok(p) => spec_public_key_of(secret@) == Some(p@),
                Err(_) => spec_public_key_of(secret@) is None,
            },
    {
        match public_key_create(secret.as_bytes()) {
            Ok(bytes) => match public_key_parse(&bytes) {
                Ok(_) => Ok(PublicKey { bytes }),
                Err(e) => Err(e),
            },
            Err(e) => Err(e),
        }
    }

    /// The 33 bytes of the point.
    pub fn as_bytes(&self) -> (r: &[u8; 33])
        ensures
            r@ == self@,
            valid_public_key(self@),
    {
        proof {
            use_type_invariant(self);
        }
        &self.bytes
    }

    /// The point multiplied by `scalar`.
    pub fn mul(&self, scalar: &SecretKey) -> (r: Result<PublicKey, secp256k1zkp::Error>)
        ensures
            match r {
                Ok(p) => spec_public_key_mul(self@, scalar@) == Some(p@),
                Err(_) => spec_public_key_mul(self@, scalar@) is None,
            },
    {
        match public_key_mul(&self.bytes, scalar.as_bytes()) {
            Ok(bytes) => match public_key_parse(&bytes) {
                Ok(_) => Ok(PublicKey { bytes }),
                Err(e) => Err(e),
            },
            Err(e) => Err(e),
        }
    }
}

/// The public key of a secret key, where the curve library reads it back.
pub open spec fn spec_public_key_of(secret: Seq<u8>) -> Option<Seq<u8>> {
    match public_key_of(secret) {
        Some(p) => if valid_public_key(p) {
            Some(p)
        } else {
            None
        },
        None => None,
    }
}

/// A point times a scalar, where the curve library reads the product back.
pub open spec fn spec_public_key_mul(point: Seq<u8>, scalar: Seq<u8>) -> Option<Seq<u8>> {
    match public_key_times(point, scalar) {
        Some(p) => if valid_public_key(p) {
            Some(p)
        } else {
            None
        },
        None => None,
    }
}

/// The secret that the owner of `scalar` shares with the owner of `point`.
pub fn shared_secret(point: &PublicKey, scalar: &SecretKey) -> (r: Result<
    [u8; 32],
    secp256k1zkp::Error,
>)
    ensures
        match r {
            Ok(s) => ecdh_secret(point@, scalar@) == Some(s@),
            Err(_) => ecdh_secret(point@, scalar@) is None,
        },
{
    shared_secret_new(point.as_bytes(), scalar.as_bytes())
}

/// A Pedersen commitment `v * H + r * G`, in 33 bytes.
#[derive(Clone, Copy, Debug, PartialEq, Eq, Hash)]
pub struct Commitment(pub [u8; 33]);

impl View for Commitment {
    type V = Seq<u8>;

    open spec fn view(&self) -> Seq<u8> {
        self.0@
    }
}

/// The first 33 bytes of `v`, with zeros where `v` is shorter.
pub open spec fn spec_commitment_from_vec(v: Seq<u8>) -> Seq<u8> {
    Seq::new(
        33,
        |i: int|
            if i < v.len() {
                v[i]
            } else {
                0u8
            },
    )
}

impl Commitment {
    /// A commitment from the first 33 bytes of `v`; where `v` is shorter,
    /// zeros fill the rest.
    pub fn from_vec(v: &[u8]) -> (r: Commitment)
        ensures
            r@ == spec_commitment_from_vec(v@),
    {
        let mut bytes: [u8; 33] = [0u8; 33];
        let mut i: usize = 0;
        while i < 33 && i < v.len()
            invariant
                i <= 33,
                i <= v@.len(),
                forall|j: int| 0 <= j < i ==> bytes@[j] == v@[j],
                forall|j: int| i <= j < 33 ==> bytes@[j] == 0u8,
            decreases 33 - i,
        {
            bytes[i] = v[i];
            i += 1;
        }
        proof {
            assert(bytes@ =~= spec_commitment_from_vec(v@));
        }
        Commitment(bytes)
    }

    /// Whether the two commitments are the same bytes.
    pub fn equals(&self, other: &Commitment) -> (r: bool)
        ensures
            r == (self@ == other@),
    {
        bytes_eq(&self.0, &other.0)
    }
}

/// A bulletproof: at most `MAX_PROOF_SIZE` bytes.
#[derive(Debug, PartialEq, Eq)]
pub struct RangeProof {
    bytes: Vec<u8>,
}

impl View for RangeProof {
    type V = Seq<u8>;

    closed spec fn view(&self) -> Seq<u8> {
        self.bytes@
    }
}

impl Clone for RangeProof {
    fn clone(&self) -> (r: Self)
        ensures
            r@ == self@,
    {
        proof {
            use_type_invariant(self);
        }
        let mut bytes: Vec<u8> = Vec::new();
        put_bytes(&mut bytes, self.bytes.as_slice());
        proof {
            assert(bytes@ =~= self.bytes@);
        }
        RangeProof { bytes }
    }
}

impl RangeProof {
    #[verifier::type_invariant]
    pub closed spec fn inv(self) -> bool {
        self.bytes@.len() <= MAX_PROOF_SIZE
    }

    /// The proof that `bytes` hold, if they are not more than a proof can be.
    pub fn new(bytes: Vec<u8>) -> (r: Option<RangeProof>)
        ensures
            match r {
                Some(p) => p@ == bytes@ && bytes@.len() <= MAX_PROOF_SIZE,
                None => bytes@.len() > MAX_PROOF_SIZE,
            },
    {
        if bytes.len() <= MAX_PROOF_SIZE {
            Some(RangeProof { bytes })
        } else {
            None
        }
    }

    /// The bytes of the proof.
    pub fn bytes(&self) -> (r: &[u8])
        ensures
            r@ == self@,
            self@.len() <= MAX_PROOF_SIZE,
    {
        proof {
            use_type_invariant(self);
        }
        self.bytes.as_slice()
    }

    /// Whether the proof shows that the value committed to in `commit` lies
    /// in the 64-bit range.
    pub fn verify(&self, commit: &Commitment) -> (r: bool)
        ensures
            r == bullet_proof_valid(commit@, self@),
    {
        secp_verify_bullet_proof(&commit.0, self.bytes())
    }
}

/// The secret key of 32 zero bytes, which is no valid key but a blinding
/// factor that the commitment scheme takes.
pub open spec fn zero_key() -> Seq<u8> {
    Seq::new(32, |i: int| 0u8)
}

/// `commit + excess * G`: the sum of `commit` and a commitment to zero
/// under the blinding factor `excess`.
pub open spec fn spec_add_excess(commit: Seq<u8>, excess: Seq<u8>) -> Option<Seq<u8>> {
    match pedersen_commit(0, excess) {
        Some(e) => pedersen_sum(seq![commit, e], Seq::empty()),
        None => None,
    }
}

/// `commit - value * H`: `commit` less a commitment to `value` under the
/// zero blinding factor.
pub open spec fn spec_sub_value(commit: Seq<u8>, value: u64) -> Option<Seq<u8>> {
    match pedersen_commit(value, zero_key()) {
        Some(v) => pedersen_sum(seq![commit], seq![v]),
        None => None,
    }
}

/// A random secret key: some valid key, and that is all that is known of
/// it.
pub fn random_secret() -> (r: SecretKey)
    ensures
        valid_secret_key(r@),
        r@.len() == 32,
{
    SecretKey { bytes: secret_key_random() }
}

/// 32 bytes off the front of `s` that are a secret key, and what follows
/// them.
pub open spec fn take_secret_key(s: Seq<u8>) -> Result<(Seq<u8>, Seq<u8>), SerError> {
    match take_bytes(s, 32) {
        Ok((b, rest)) => if valid_secret_key(b) {
            Ok((b, rest))
        } else {
            Err(SerError::CorruptedData)
        },
        Err(e) => Err(e),
    }
}

/// Reads a secret key of 32 bytes. Bytes that are no valid key are
/// `CorruptedData`.
pub fn read_secret_key(reader: &mut Reader) -> (r: Result<SecretKey, SerError>)
    ensures
        match take_secret_key(old(reader).remaining()) {
            Ok((k, rest)) => r is Ok && r->Ok_0@ == k && final(reader).remaining() == rest,
            Err(e) => r == Err::<SecretKey, SerError>(e),
        },
{
    let buf = match reader.read_fixed_bytes(SECRET_KEY_SIZE) {
        Ok(b) => b,
        Err(e) => { return Err(e); },
    };
    match SecretKey::from_slice(buf.as_slice()) {
        Ok(k) => Ok(k),
        Err(_) => Err(SerError::CorruptedData),
    }
}

/// The Pedersen commitment to `value` under the blinding factor `blind`.
pub fn commit(value: u64, blind: &SecretKey) -> (r: Result<Commitment, secp256k1zkp::Error>)
    ensures
        match r {
            Ok(c) => pedersen_commit(value, blind@) == Some(c@),
            Err(_) => pedersen_commit(value, blind@) is None,
        },
{
    match secp_commit(value, blind.as_bytes()) {
        Ok(c) => Ok(Commitment(c)),
        Err(e) => Err(e),
    }
}

/// Adds the blinding factor `excess` to `commitment`; the value committed
/// to stays as it is.
pub fn add_excess(commitment: &Commitment, excess: &SecretKey) -> (r: Result<
    Commitment,
    secp256k1zkp::Error,
>)
    ensures
        match r {
            Ok(c) => spec_add_excess(commitment@, excess@) == Some(c@),
            Err(_) => spec_add_excess(commitment@, excess@) is None,
        },
{
    let excess_commit = match secp_commit(0, excess.as_bytes()) {
        Ok(c) => c,
        Err(e) => { return Err(e); },
    };
    let mut positive: Vec<[u8; 33]> = Vec::new();
    positive.push(commitment.0);
    positive.push(excess_commit);
    let negative: Vec<[u8; 33]> = Vec::new();
    proof {
        assert(byte_views(positive@) =~= seq![commitment@, excess_commit@]);
        assert(byte_views(negative@) =~= Seq::<Seq<u8>>::empty());
    }
    match secp_commit_sum(&positive, &negative) {
        Ok(c) => Ok(Commitment(c)),
        Err(e) => Err(e),
    }
}

/// Takes `value * H` off `commitment`; the blinding factor stays as it is.
pub fn sub_value(commitment: &Commitment, value: u64) -> (r: Result<
    Commitment,
    secp256k1zkp::Error,
>)
    ensures
        match r {
            Ok(c) => spec_sub_value(commitment@, value) == Some(c@),
            Err(_) => spec_sub_value(commitment@, value) is None,
        },
{
    let zero: [u8; 32] = [0u8; 32];
    proof {
        assert(zero@ =~= zero_key());
    }
    let neg_commit = match secp_commit(value, &zero) {
        Ok(c) => c,
        Err(e) => { return Err(e); },
    };
    let mut positive: Vec<[u8; 33]> = Vec::new();
    positive.push(commitment.0);
    let mut negative: Vec<[u8; 33]> = Vec::new();
    negative.push(neg_commit);
    proof {
        assert(byte_views(positive@) =~= seq![commitment@]);
        assert(byte_views(negative@) =~= seq![neg_commit@]);
    }
    match secp_commit_sum(&positive, &negative) {
        Ok(c) => Ok(Commitment(c)),
        Err(e) => Err(e),
    }
}

/// A Schnorr signature over a 32-byte message, in 64 bytes.
#[derive(Clone, Copy, Debug, PartialEq, Eq)]
pub struct Signature(pub [u8; 64]);

/// What signing comes to for what the curve library handed back: its 64
/// bytes as a signature, or its error as it came.
pub open spec fn spec_signature_from(signed: Result<[u8; 64], secp256k1zkp::Error>) -> Result<
    Signature,
    secp256k1zkp::Error,
> {
    match signed {
        Ok(bytes) => Ok(Signature(bytes)),
        Err(e) => Err(e),
    }
}

/// The signature that the curve library's answer stands for.
pub fn signature_from(signed: Result<[u8; 64], secp256k1zkp::Error>) -> (r: Result<
    Signature,
    secp256k1zkp::Error,
>)
    ensures
        r == spec_signature_from(signed),
{
    match signed {
        Ok(bytes) => Ok(Signature(bytes)),
        Err(e) => Err(e),
    }
}

/// Signs `msg` with `sk`, the signer's public key going into the challenge.
/// The nonce is drawn at random, so two signatures of one message differ;
/// all that is owed is a failure where `sk` has no public key. Where it has
/// one, the result is what `signature_from` makes of the curve library's
/// answer.
pub fn sign(sk: &SecretKey, msg: &[u8; 32]) -> (r: Result<Signature, secp256k1zkp::Error>)
    ensures
        public_key_of(sk@) is None ==> r is Err,
{
    let pubkey = match public_key_create(sk.as_bytes()) {
        Ok(p) => p,
        Err(e) => { return Err(e); },
    };
    signature_from(secp_sign_single(sk.as_bytes(), msg, &pubkey))
}

/// Why a commitment signature could not be made or was not accepted.
#[derive(Clone, Debug, PartialEq)]
pub enum ComSigError {
    /// The signature does not verify for the commitment and the message.
    InvalidSig,
    /// The curve library refused a key, a commitment or a point.
    Secp256k1zkp(secp256k1zkp::Error),
}

/// A generalized Schnorr signature whose public key is a Pedersen
/// commitment: it shows that the signer knew the value and the blinding
/// factor that open the commitment.
#[derive(Clone, Debug, PartialEq)]
pub struct ComSignature {
    pub_nonce: Commitment,
    s: SecretKey,
    t: SecretKey,
}

/// What a commitment signature holds: the nonce commitment `R` and the two
/// scalars of the response.
pub struct ComSignatureView {
    pub pub_nonce: Seq<u8>,
    pub s: Seq<u8>,
    pub t: Seq<u8>,
}

impl View for ComSignature {
    type V = ComSignatureView;

    closed spec fn view(&self) -> ComSignatureView {
        ComSignatureView { pub_nonce: self.pub_nonce@, s: self.s@, t: self.t@ }
    }
}

/// The challenge `e`: the Blake2b digest of commitment, nonce commitment
/// and message, where it is a valid scalar.
pub open spec fn spec_challenge(commit: Seq<u8>, nonce_commit: Seq<u8>, msg: Seq<u8>) -> Option<
    Seq<u8>,
> {
    let digest = blake2b_256(commit + nonce_commit + msg);
    if valid_secret_key(digest) {
        Some(digest)
    } else {
        None
    }
}

/// `k + e * x` for scalars `k`, `e` and `x`.
pub open spec fn spec_response(x: Seq<u8>, e: Seq<u8>, k: Seq<u8>) -> Option<Seq<u8>> {
    match spec_scalar_mul(x, e) {
        Some(xe) => spec_scalar_add(xe, k),
        None => None,
    }
}

/// The signature of `msg` for the commitment to `amount` under `blind`,
/// made with the nonces `k1` and `k2`; `None` where the curve library
/// refuses a step.
pub open spec fn spec_sign(amount: u64, blind: Seq<u8>, msg: Seq<u8>, k1: Seq<u8>, k2: Seq<u8>)
    -> Option<ComSignatureView> {
    let k_amt = be_digits(amount as nat, 32);
    if !valid_secret_key(k_amt) {
        None
    } else {
        match (pedersen_commit(amount, blind), pedersen_commit_blind(k1, k2)) {
            (Some(c), Some(r)) => match spec_challenge(c, r, msg) {
                Some(e) => match (spec_response(k_amt, e, k1), spec_response(blind, e, k2)) {
                    (Some(s), Some(t)) => Some(ComSignatureView { pub_nonce: r, s, t }),
                    _ => None,
                },
                None => None,
            },
            _ => None,
        }
    }
}

/// The two sides that verification compares: `s * H + t * G` and
/// `e * C + R`; `None` where the curve library refuses a step.
pub open spec fn spec_verify_sides(sig: ComSignatureView, commit: Seq<u8>, msg: Seq<u8>) -> Option<
    (Seq<u8>, Seq<u8>),
> {
    match (
        pedersen_commit_blind(sig.s, sig.t),
        commitment_as_public_key(commit),
        spec_challenge(commit, sig.pub_nonce, msg),
    ) {
        (Some(s1), Some(c), Some(e)) => match public_key_times(c, e) {
            Some(ce) => match public_key_as_commitment(ce) {
                Some(ce_commit) => match pedersen_sum(
                    seq![ce_commit, sig.pub_nonce],
                    Seq::empty(),
                ) {
                    Some(s2) => Some((s1, s2)),
                    None => None,
                },
                None => None,
            },
            None => None,
        },
        _ => None,
    }
}

/// Whether the signature is accepted for `commit` and `msg`.
pub open spec fn spec_verifies(sig: ComSignatureView, commit: Seq<u8>, msg: Seq<u8>) -> bool {
    match spec_verify_sides(sig, commit, msg) {
        Some((s1, s2)) => s1 == s2,
        None => false,
    }
}

/// The binary form of a signature: `R`, `s`, `t`.
pub open spec fn spec_comsig_bytes(sig: ComSignatureView) -> Seq<u8> {
    sig.pub_nonce + sig.s + sig.t
}

/// A signature off the front of `s`, and what follows it.
pub open spec fn take_comsig(s: Seq<u8>) -> Result<(ComSignatureView, Seq<u8>), SerError> {
    match take_bytes(s, 33) {
        Ok((pub_nonce, r1)) => match take_secret_key(r1) {
            Ok((s_key, r2)) => match take_secret_key(r2) {
                Ok((t_key, r3)) => Ok((ComSignatureView { pub_nonce, s: s_key, t: t_key }, r3)),
                Err(e) => Err(e),
            },
            Err(e) => Err(e),
        },
        Err(e) => Err(e),
    }
}

/// Whether the parts of `sig` are what a signature can hold.
pub open spec fn comsig_wf(sig: ComSignatureView) -> bool {
    &&& sig.pub_nonce.len() == 33
    &&& valid_secret_key(sig.s)
    &&& sig.s.len() == 32
    &&& valid_secret_key(sig.t)
    &&& sig.t.len() == 32
}

/// A signature that was written is read back as it was, and what followed
/// it is left.
pub proof fn lemma_comsig_round_trip(sig: ComSignatureView, rest: Seq<u8>)
    requires
        comsig_wf(sig),
    ensures
        take_comsig(spec_comsig_bytes(sig) + rest) == Ok::<
            (ComSignatureView, Seq<u8>),
            SerError,
        >((sig, rest)),
{
    let r1 = sig.s + sig.t + rest;
    let r2 = sig.t + rest;
    assert(spec_comsig_bytes(sig) + rest =~= sig.pub_nonce + r1);
    crate::bytes::lemma_take_bytes_of_concat(sig.pub_nonce, r1);
    assert(r1 =~= sig.s + r2);
    crate::bytes::lemma_take_bytes_of_concat(sig.s, r2);
    crate::bytes::lemma_take_bytes_of_concat(sig.t, rest);
}

impl ComSignature {
    /// A signature of the given parts.
    pub fn new(pub_nonce: &Commitment, s: &SecretKey, t: &SecretKey) -> (r: ComSignature)
        ensures
            r@ == (ComSignatureView { pub_nonce: pub_nonce@, s: s@, t: t@ }),
    {
        ComSignature { pub_nonce: *pub_nonce, s: s.clone(), t: t.clone() }
    }

    /// Signs `msg` for the commitment to `amount` under `blind`, with the
    /// nonces `k_1` and `k_2`.
    pub fn sign_with_nonces(
        amount: u64,
        blind: &SecretKey,
        msg: &Vec<u8>,
        k_1: &SecretKey,
        k_2: &SecretKey,
    ) -> (r: Result<ComSignature, ComSigError>)
        ensures
            match spec_sign(amount, blind@, msg@, k_1@, k_2@) {
                Some(sig) => r is Ok && r->Ok_0@ == sig,
                None => r is Err && r->Err_0 is Secp256k1zkp,
            },
    {
        let mut amt_bytes: Vec<u8> = Vec::new();
        let mut i: usize = 0;
        while i < 24
            invariant
                i <= 24,
                amt_bytes@ == Seq::new(i as nat, |j: int| 0u8),
            decreases 24 - i,
        {
            amt_bytes.push(0u8);
            proof {
                assert(amt_bytes@ =~= Seq::new((i + 1) as nat, |j: int| 0u8));
            }
            i += 1;
        }
        put_bytes(&mut amt_bytes, &u64_to_be(amount));
        proof {
            crate::bytes::lemma_pow256_values();
            lemma_be_digits_padded(amount as nat, 8, 24);
            assert(amt_bytes@ =~= be_digits(amount as nat, 32));
        }
        let k_amt = match SecretKey::from_slice(amt_bytes.as_slice()) {
            Ok(k) => k,
            Err(e) => { return Err(ComSigError::Secp256k1zkp(e)); },
        };
        let commitment = match secp_commit(amount, blind.as_bytes()) {
            Ok(c) => Commitment(c),
            Err(e) => { return Err(ComSigError::Secp256k1zkp(e)); },
        };
        let nonce_commitment = match secp_commit_blind(k_1.as_bytes(), k_2.as_bytes()) {
            Ok(c) => Commitment(c),
            Err(e) => { return Err(ComSigError::Secp256k1zkp(e)); },
        };
        let e = match ComSignature::calc_challenge(&commitment, &nonce_commitment, msg) {
            Ok(e) => e,
            Err(err) => { return Err(err); },
        };
        // s = k_1 + (e * amount)
        let s = match k_amt.mul(&e) {
            Ok(p) => match p.add(k_1) {
                Ok(s) => s,
                Err(err) => { return Err(ComSigError::Secp256k1zkp(err)); },
            },
            Err(err) => { return Err(ComSigError::Secp256k1zkp(err)); },
        };
        // t = k_2 + (e * blind)
        let t = match blind.mul(&e) {
            Ok(p) => match p.add(k_2) {
                Ok(t) => t,
                Err(err) => { return Err(ComSigError::Secp256k1zkp(err)); },
            },
            Err(err) => { return Err(ComSigError::Secp256k1zkp(err)); },
        };
        Ok(ComSignature::new(&nonce_commitment, &s, &t))
    }

    /// Signs `msg` for the commitment to `amount` under `blind`. The two
    /// nonces are drawn at random: the signature is the one that
    /// `sign_with_nonces` makes with some pair of valid keys.
    pub fn sign(amount: u64, blind: &SecretKey, msg: &Vec<u8>) -> (r: Result<
        ComSignature,
        ComSigError,
    >)
        ensures
            exists|k1: Seq<u8>, k2: Seq<u8>|
                valid_secret_key(k1) && valid_secret_key(k2) && #[trigger] sign_outcome(
                    r,
                    spec_sign(amount, blind@, msg@, k1, k2),
                ),
    {
        let k_1 = random_secret();
        let k_2 = random_secret();
        let r = ComSignature::sign_with_nonces(amount, blind, msg, &k_1, &k_2);
        proof {
            assert(sign_outcome(r, spec_sign(amount, blind@, msg@, k_1@, k_2@)));
        }
        r
    }

    /// Accepts the signature for `commit` and `msg` where
    /// `s * H + t * G == e * commit + R`.
    pub fn verify(&self, commit: &Commitment, msg: &Vec<u8>) -> (r: Result<(), ComSigError>)
        ensures
            match spec_verify_sides(self@, commit@, msg@) {
                Some((s1, s2)) => if s1 == s2 {
                    r is Ok
                } else {
                    r is Err && r->Err_0 is InvalidSig
                },
                None => r is Err && r->Err_0 is Secp256k1zkp,
            },
            r is Ok <==> spec_verifies(self@, commit@, msg@),
    {
        let s1 = match secp_commit_blind(self.s.as_bytes(), self.t.as_bytes()) {
            Ok(c) => c,
            Err(e) => { return Err(ComSigError::Secp256k1zkp(e)); },
        };
        let ce_point = match commitment_to_pubkey(&commit.0) {
            Ok(p) => p,
            Err(e) => { return Err(ComSigError::Secp256k1zkp(e)); },
        };
        let e = match ComSignature::calc_challenge(commit, &self.pub_nonce, msg) {
            Ok(e) => e,
            Err(err) => { return Err(err); },
        };
        let ce_scaled = match public_key_mul(&ce_point, e.as_bytes()) {
            Ok(p) => p,
            Err(err) => { return Err(ComSigError::Secp256k1zkp(err)); },
        };
        let ce_commit = match commitment_from_pubkey(&ce_scaled) {
            Ok(c) => c,
            Err(err) => { return Err(ComSigError::Secp256k1zkp(err)); },
        };
        let mut commits: Vec<[u8; 33]> = Vec::new();
        commits.push(ce_commit);
        commits.push(self.pub_nonce.0);
        let none: Vec<[u8; 33]> = Vec::new();
        proof {
            assert(byte_views(commits@) =~= seq![ce_commit@, self.pub_nonce@]);
            assert(byte_views(none@) =~= Seq::<Seq<u8>>::empty());
        }
        let s2 = match secp_commit_sum(&commits, &none) {
            Ok(c) => c,
            Err(err) => { return Err(ComSigError::Secp256k1zkp(err)); },
        };
        if !bytes_eq(&s1, &s2) {
            return Err(ComSigError::InvalidSig);
        }
        Ok(())
    }

    /// The challenge for a commitment, a nonce commitment and a message.
    pub fn calc_challenge(commit: &Commitment, nonce_commit: &Commitment, msg: &Vec<u8>) -> (r:
        Result<SecretKey, ComSigError>)
        ensures
            match spec_challenge(commit@, nonce_commit@, msg@) {
                Some(e) => r is Ok && r->Ok_0@ == e,
                None => r is Err && r->Err_0 is Secp256k1zkp,
            },
    {
        let mut input: Vec<u8> = Vec::new();
        put_bytes(&mut input, &commit.0);
        put_bytes(&mut input, &nonce_commit.0);
        put_bytes(&mut input, msg.as_slice());
        proof {
            assert(input@ =~= commit@ + nonce_commit@ + msg@);
        }
        let challenge = blake2b_256_digest(input.as_slice());
        match SecretKey::from_slice(&challenge) {
            Ok(e) => Ok(e),
            Err(e) => Err(ComSigError::Secp256k1zkp(e)),
        }
    }

    /// Appends the binary form: `R` in 33 bytes, `s` and `t` in 32 each.
    pub fn write(&self, out: &mut Vec<u8>)
        ensures
            final(out)@ == old(out)@ + spec_comsig_bytes(self@),
            comsig_wf(self@),
    {
        let ghost before = out@;
        put_bytes(out, &self.pub_nonce.0);
        put_bytes(out, self.s.as_bytes());
        put_bytes(out, self.t.as_bytes());
        proof {
            assert(out@ =~= before + spec_comsig_bytes(self@));
        }
    }

    /// Reads the binary form. Scalars that are no valid keys are
    /// `CorruptedData`.
    pub fn read(reader: &mut Reader) -> (r: Result<ComSignature, SerError>)
        ensures
            match take_comsig(old(reader).remaining()) {
                Ok((sig, rest)) => r is Ok && r->Ok_0@ == sig && final(reader).remaining() == rest,
                Err(e) => r == Err::<ComSignature, SerError>(e),
            },
    {
        let nonce_bytes = match reader.read_fixed_bytes(PEDERSEN_COMMITMENT_SIZE) {
            Ok(b) => b,
            Err(e) => { return Err(e); },
        };
        let pub_nonce = Commitment(array33(nonce_bytes.as_slice()));
        let s = match read_secret_key(reader) {
            Ok(k) => k,
            Err(e) => { return Err(e); },
        };
        let t = match read_secret_key(reader) {
            Ok(k) => k,
            Err(e) => { return Err(e); },
        };
        Ok(ComSignature { pub_nonce, s, t })
    }
}

/// Whether `r` is what signing gives where the signature to be made is
/// `expected`: that signature, or an error of the curve library where there
/// is none.
pub open spec fn sign_outcome(
    r: Result<ComSignature, ComSigError>,
    expected: Option<ComSignatureView>,
) -> bool {
    match expected {
        Some(sig) => r is Ok && r->Ok_0@ == sig,
        None => r is Err && r->Err_0 is Secp256k1zkp,
    }
}

/// Zero bytes in front of the digits of a number are digits of it too.
pub proof fn lemma_be_digits_padded(x: nat, n: nat, pad: nat)
    requires
        x < crate::bytes::pow256(n),
    ensures
        be_digits(x, n + pad) == Seq::new(pad, |j: int| 0u8) + be_digits(x, n),
    decreases n,
{
    if n == 0 {
        lemma_be_digits_zero(pad);
        assert(be_digits(x, 0) =~= Seq::<u8>::empty());
        assert(Seq::new(pad, |j: int| 0u8) + be_digits(x, 0) =~= Seq::new(pad, |j: int| 0u8));
    } else {
        lemma_be_digits_padded(x / 256, (n - 1) as nat, pad);
        assert(be_digits(x, n + pad) =~= be_digits(x / 256, (n + pad - 1) as nat).push(
            (x % 256) as u8,
        ));
        assert(be_digits(x, n + pad) =~= Seq::new(pad, |j: int| 0u8) + be_digits(x, n));
    }
}

/// The digits of zero are zeros.
pub proof fn lemma_be_digits_zero(n: nat)
    ensures
        be_digits(0, n) == Seq::new(n, |j: int| 0u8),
    decreases n,
{
    if n > 0 {
        lemma_be_digits_zero((n - 1) as nat);
    }
    assert(be_digits(0, n) =~= Seq::new(n, |j: int| 0u8));
}

/// The signature as a hexadecimal string of its binary form.
pub fn serialize(comsig: &ComSignature) -> (r: String)
    ensures
        r@ == hex_string(spec_comsig_bytes(comsig@)),
{
    let mut bytes: Vec<u8> = Vec::new();
    comsig.write(&mut bytes);
    proof {
        assert(bytes@ =~= spec_comsig_bytes(comsig@));
    }
    encode_hex(bytes.as_slice())
}

/// What reading `text` as a signature gives: the text must be hexadecimal
/// and its bytes must begin with the binary form of a signature.
pub open spec fn spec_deserialize_outcome(
    text: Seq<char>,
    r: Result<ComSignature, HexError>,
) -> bool {
    match spec_decode_hex(text) {
        Some(bytes) => match take_comsig(bytes) {
            Ok((sig, _)) => r is Ok && r->Ok_0@ == sig,
            Err(e) => r is Err && r->Err_0 == HexError::InvalidEncoding(e),
        },
        None => r is Err && r->Err_0 is InvalidHex,
    }
}

/// Reads a signature from the hexadecimal string of its binary form. What
/// `serialize` wrote is read back as the signature it was written from.
pub fn deserialize(text: &str) -> (r: Result<ComSignature, HexError>)
    ensures
        spec_deserialize_outcome(text@, r),
        forall|sig: ComSignatureView|
            comsig_wf(sig) && text@ == hex_string(#[trigger] spec_comsig_bytes(sig)) ==> r is Ok
                && r->Ok_0@ == sig,
{
    let bytes = match decode_hex(text) {
        Ok(b) => b,
        Err(e) => { return Err(e); },
    };
    proof {
        assert forall|sig: ComSignatureView|
            comsig_wf(sig) && text@ == hex_string(
                #[trigger] spec_comsig_bytes(sig),
            ) implies take_comsig(bytes@) == Ok::<(ComSignatureView, Seq<u8>), SerError>(
            (sig, Seq::<u8>::empty()),
        ) by {
            assert(bytes@ == spec_comsig_bytes(sig));
            lemma_comsig_round_trip(sig, Seq::<u8>::empty());
            assert(spec_comsig_bytes(sig) + Seq::<u8>::empty() =~= spec_comsig_bytes(sig));
        }
    }
    let mut reader = Reader::new(bytes.as_slice());
    match ComSignature::read(&mut reader) {
        Ok(sig) => Ok(sig),
        Err(e) => Err(HexError::InvalidEncoding(e)),
    }
}

} // verus!
