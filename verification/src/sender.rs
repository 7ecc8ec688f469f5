//! The sender's side: making an onion with a fresh session key, and telling
//! beforehand what a hop will hand on.
use crate::onion::{
    calc_blinding_factor, hop_views, spec_blinding_factor, spec_create_onion, spec_peel_layer,
    Hop, Onion, OnionError, OnionErrorKind, OnionView,
};
use crate::secp::{
    ecdh_secret, random_secret, shared_secret, spec_public_key_mul, valid_secret_key, Commitment,
    PublicKey, SecretKey,
};
use vstd::prelude::*;

verus! {

/// Whether `r` is what making an onion gives where the onion to be made is
/// `expected`.
pub open spec fn create_outcome(
    r: Result<Onion, OnionError>,
    expected: Result<OnionView, OnionErrorKind>,
) -> bool {
    match expected {
        Ok(onion) => r is Ok && r->Ok_0@ == onion,
        Err(kind) => r is Err && r->Err_0@ == kind,
    }
}

/// Creates an onion for the commitment, encrypting the payload of each hop
/// for that hop. The session key is drawn at random: the onion is the one
/// that `Onion::create_with_session` makes with some valid key.
pub fn create_onion(commitment: &Commitment, hops: &Vec<Hop>) -> (r: Result<Onion, OnionError>)
    ensures
        exists|session: Seq<u8>|
            valid_secret_key(session) && #[trigger] create_outcome(
                r,
                spec_create_onion(commitment@, hop_views(hops@), session),
            ),
{
    let session_key = random_secret();
    let r = Onion::create_with_session(commitment, hops, &session_key);
    proof {
        assert(create_outcome(r, spec_create_onion(commitment@, hop_views(hops@), session_key@)));
    }
    r
}

/// The ephemeral key that the owner of `secret` hands on after peeling:
/// the onion's ephemeral key `E` times the blinding factor of `E` and the
/// secret that `E` and `secret` share.
pub open spec fn spec_next_ephemeral_pubkey(onion: OnionView, secret: Seq<u8>) -> Result<
    Seq<u8>,
    OnionErrorKind,
> {
    match ecdh_secret(onion.ephemeral_pubkey, secret) {
        None => Err(OnionErrorKind::CalcPubKeyError),
        Some(shared) => match spec_blinding_factor(shared, onion.ephemeral_pubkey) {
            None => Err(OnionErrorKind::CalcBlindError),
            Some(blind) => match spec_public_key_mul(onion.ephemeral_pubkey, blind) {
                None => Err(OnionErrorKind::CalcPubKeyError),
                Some(next) => Ok(next),
            },
        },
    }
}

/// Calculates the expected next ephemeral public key after peeling a layer
/// off the onion.
pub fn next_ephemeral_pubkey(onion: &Onion, server_key: &SecretKey) -> (r: Result<
    PublicKey,
    OnionError,
>)
    ensures
        match spec_next_ephemeral_pubkey(onion@, server_key@) {
            Ok(next) => r is Ok && r->Ok_0@ == next,
            Err(kind) => r is Err && r->Err_0@ == kind,
        },
{
    let shared = match shared_secret(&onion.ephemeral_pubkey, server_key) {
        Ok(s) => s,
        Err(e) => { return Err(OnionError::CalcPubKeyError(e)); },
    };
    let blinding_factor = match calc_blinding_factor(&shared, &onion.ephemeral_pubkey) {
        Ok(b) => b,
        Err(e) => { return Err(e); },
    };
    match onion.ephemeral_pubkey.mul(&blinding_factor) {
        Ok(p) => Ok(p),
        Err(e) => Err(OnionError::CalcPubKeyError(e)),
    }
}

/// What is told beforehand is what the hop hands on: where peeling
/// succeeds, the ephemeral key of the peeled onion is the expected one.
pub proof fn lemma_next_ephemeral_pubkey(onion: OnionView, secret: Seq<u8>)
    requires
        spec_peel_layer(onion, secret) is Ok,
    ensures
        spec_next_ephemeral_pubkey(onion, secret) == Ok::<Seq<u8>, OnionErrorKind>(
            spec_peel_layer(onion, secret)->Ok_0.1.ephemeral_pubkey,
        ),
{
}

} // verus!
