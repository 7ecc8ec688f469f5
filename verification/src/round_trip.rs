//! What the sender wraps, the hops unwrap: peeling an onion hop by hop gives
//! each hop the payload that was meant for it and leaves the commitment that
//! the payloads add up to.
use crate::crypto::KEYSTREAM_LEN;
use crate::onion::{
    hop_payloads, lemma_apply_layer_involution, lemma_wrap_lengths, spec_apply_layer,
    spec_blinding_factor, spec_create_onion, spec_peel_layer, spec_sender_chain,
    spec_sender_step, spec_stream_key, spec_wrap, total_len, HopView, OnionErrorKind, OnionView,
};
use crate::secp::{
    ecdh_secret, public_key_times, spec_add_excess, spec_public_key_mul, spec_public_key_of,
    spec_sub_value,
};
use crate::types::{lemma_payload_from_bytes, payload_wf, PayloadView};
use vstd::prelude::*;

verus! {

/// What peeling with the secret keys `keys`, one after the other, gives: the
/// payloads in the order of the hops and the onion that is left, or the kind
/// of the first failure.
pub open spec fn spec_peel_all(onion: OnionView, keys: Seq<Seq<u8>>) -> Result<
    (Seq<PayloadView>, OnionView),
    OnionErrorKind,
>
    decreases keys.len(),
{
    if keys.len() == 0 {
        Ok((Seq::empty(), onion))
    } else {
        match spec_peel_layer(onion, keys[0]) {
            Err(e) => Err(e),
            Ok((payload, next)) => match spec_peel_all(next, keys.drop_first()) {
                Err(e) => Err(e),
                Ok((payloads, last)) => Ok((seq![payload] + payloads, last)),
            },
        }
    }
}

/// The commitment after every payload's excess was added and its fee taken
/// off, hop by hop: `commit + Σ excess * G - Σ fee * H`.
pub open spec fn spec_commit_after(commit: Seq<u8>, payloads: Seq<PayloadView>) -> Option<Seq<u8>>
    decreases payloads.len(),
{
    if payloads.len() == 0 {
        Some(commit)
    } else {
        match spec_add_excess(commit, payloads[0].excess) {
            None => None,
            Some(with_excess) => match spec_sub_value(with_excess, payloads[0].fee) {
                None => None,
                Some(next) => spec_commit_after(next, payloads.drop_first()),
            },
        }
    }
}

/// Whether the secret keys `keys` are those of the hops, seen from a sender
/// whose session key is `session` and whose ephemeral key, as the first hop
/// sees it, is `ephemeral`.
///
/// A key matches its hop where the hop, with its key and the ephemeral key,
/// arrives at the secret that the sender arrived at with the session key
/// and the hop's public key, and where the ephemeral key that the hop hands
/// on is the public key of the session key that the sender goes on with.
/// On the curve both hold whenever the hop's public key belongs to its
/// secret key.
pub open spec fn secrets_match(
    hops: Seq<HopView>,
    keys: Seq<Seq<u8>>,
    session: Seq<u8>,
    ephemeral: Seq<u8>,
) -> bool
    decreases hops.len(),
{
    if hops.len() == 0 {
        true
    } else {
        &&& keys.len() > 0
        &&& spec_public_key_of(session) == Some(ephemeral)
        &&& match spec_sender_step(hops[0], session) {
            Err(_) => false,
            Ok((shared, _, next)) => {
                &&& ecdh_secret(ephemeral, keys[0]) == Some(shared)
                &&& match spec_blinding_factor(shared, ephemeral) {
                    None => false,
                    Some(blind) => match spec_public_key_mul(ephemeral, blind) {
                        None => false,
                        Some(next_ephemeral) => secrets_match(
                            hops.drop_first(),
                            keys.drop_first(),
                            next,
                            next_ephemeral,
                        ),
                    },
                }
            },
        }
    }
}

/// Peeling from any point of the chain on gives the payloads from that
/// point on.
proof fn lemma_peel_chain(
    commit: Seq<u8>,
    hops: Seq<HopView>,
    keys: Seq<Seq<u8>>,
    session: Seq<u8>,
    ephemeral: Seq<u8>,
)
    requires
        hops.len() == keys.len(),
        forall|i: int| 0 <= i < hops.len() ==> payload_wf(#[trigger] hops[i].payload),
        spec_sender_chain(hops, session) is Ok,
        total_len(spec_sender_chain(hops, session)->Ok_0.1) < KEYSTREAM_LEN,
        secrets_match(hops, keys, session, ephemeral),
        spec_commit_after(commit, hop_payloads(hops)) is Some,
    ensures
        ({
            let chain = spec_sender_chain(hops, session)->Ok_0;
            let onion = OnionView {
                ephemeral_pubkey: ephemeral,
                commit,
                enc_payloads: spec_wrap(chain.0, chain.1),
            };
            &&& spec_peel_all(onion, keys) is Ok
            &&& spec_peel_all(onion, keys)->Ok_0.0 == hop_payloads(hops)
            &&& spec_peel_all(onion, keys)->Ok_0.1.enc_payloads.len() == 0
            &&& Some(spec_peel_all(onion, keys)->Ok_0.1.commit) == spec_commit_after(
                commit,
                hop_payloads(hops),
            )
        }),
    decreases hops.len(),
{
    let chain = spec_sender_chain(hops, session)->Ok_0;
    let secrets = chain.0;
    let plains = chain.1;
    let onion = OnionView {
        ephemeral_pubkey: ephemeral,
        commit,
        enc_payloads: spec_wrap(secrets, plains),
    };
    if hops.len() == 0 {
        assert(hop_payloads(hops) =~= Seq::<PayloadView>::empty());
        assert(spec_wrap(secrets, plains).len() == 0);
    } else {
        let hop = hops[0];
        let payload = hop.payload;
        let step = spec_sender_step(hop, session)->Ok_0;
        let shared = step.0;
        let plain = step.1;
        let next = step.2;
        let rest_hops = hops.drop_first();
        let rest_keys = keys.drop_first();
        let rest_chain = spec_sender_chain(rest_hops, next)->Ok_0;
        let key = spec_stream_key(shared);
        let inner = spec_wrap(rest_chain.0, rest_chain.1);
        let under = seq![plain] + inner;

        // The chain falls into its first step and the chain of the rest.
        assert(secrets == seq![shared] + rest_chain.0);
        assert(plains == seq![plain] + rest_chain.1);
        lemma_chain_lengths(rest_hops, next);
        assert(secrets.drop_first() =~= rest_chain.0);
        assert(plains.drop_first() =~= rest_chain.1);
        assert(secrets[0] == shared && plains[0] == plain);
        assert(onion.enc_payloads == spec_apply_layer(key, under));

        // The onion holds as many bytes as the plain payloads.
        lemma_chain_lengths(hops, session);
        lemma_wrap_lengths(secrets, plains);
        lemma_wrap_lengths(rest_chain.0, rest_chain.1);
        lemma_total_len_tail(plain, rest_chain.1);

        // Taking the hop's layer off gives the hop its payload.
        lemma_apply_layer_involution(key, under);
        let peeled = spec_apply_layer(key, onion.enc_payloads);
        assert(peeled == under);
        assert(peeled[0] == plain);
        assert(peeled.drop_first() =~= inner);
        lemma_payload_from_bytes(payload);

        // The commitment moves on by the hop's excess and fee.
        let payloads = hop_payloads(hops);
        assert(payloads[0] == payload);
        assert(payloads.drop_first() =~= hop_payloads(rest_hops));
        let with_excess = spec_add_excess(commit, payload.excess)->Some_0;
        let next_commit = spec_sub_value(with_excess, payload.fee)->Some_0;

        let blind = spec_blinding_factor(shared, ephemeral)->Some_0;
        let next_ephemeral = spec_public_key_mul(ephemeral, blind)->Some_0;
        let next_onion = OnionView {
            ephemeral_pubkey: next_ephemeral,
            commit: next_commit,
            enc_payloads: inner,
        };
        assert(spec_peel_layer(onion, keys[0]) == Ok::<(PayloadView, OnionView), OnionErrorKind>(
            (payload, next_onion),
        ));

        assert forall|i: int| 0 <= i < rest_hops.len() implies payload_wf(
            #[trigger] rest_hops[i].payload,
        ) by {
            assert(rest_hops[i] == hops[i + 1]);
        }
        lemma_peel_chain(next_commit, rest_hops, rest_keys, next, next_ephemeral);
        let rest = spec_peel_all(next_onion, rest_keys)->Ok_0;
        assert(seq![payload] + hop_payloads(rest_hops) =~= payloads);
    }
}

/// The chain gives one secret and one plain payload for each hop.
proof fn lemma_chain_lengths(hops: Seq<HopView>, session: Seq<u8>)
    requires
        spec_sender_chain(hops, session) is Ok,
    ensures
        spec_sender_chain(hops, session)->Ok_0.0.len() == hops.len(),
        spec_sender_chain(hops, session)->Ok_0.1.len() == hops.len(),
    decreases hops.len(),
{
    if hops.len() > 0 {
        let next = spec_sender_step(hops[0], session)->Ok_0.2;
        lemma_chain_lengths(hops.drop_first(), next);
    }
}

/// The payloads after the first hold no more bytes than all of them.
proof fn lemma_total_len_tail(first: Seq<u8>, rest: Seq<Seq<u8>>)
    ensures
        total_len(rest) <= total_len(seq![first] + rest),
{
    let all = seq![first] + rest;
    assert(all.skip(1) =~= rest);
    crate::onion::lemma_total_len_skip(all, 1);
}

/// Peeling an onion with the hops' secret keys, one after the other, gives the
/// `i`-th hop exactly the `i`-th payload; the onion that is left has no
/// payloads, and its commitment is the sender's commitment with every excess
/// added and every fee taken off.
///
/// This holds for any number of hops, for every onion that the sender could
/// make, for keys that match the hops (see `secrets_match`), and wherever the
/// curve library can work out the commitment at all.
pub proof fn lemma_onion_peels_to_payloads(
    commit: Seq<u8>,
    hops: Seq<HopView>,
    keys: Seq<Seq<u8>>,
    session: Seq<u8>,
)
    requires
        hops.len() >= 1,
        hops.len() == keys.len(),
        forall|i: int| 0 <= i < hops.len() ==> payload_wf(#[trigger] hops[i].payload),
        spec_create_onion(commit, hops, session) is Ok,
        secrets_match(hops, keys, session, spec_create_onion(commit, hops, session)->Ok_0.ephemeral_pubkey),
        spec_commit_after(commit, hop_payloads(hops)) is Some,
    ensures
        ({
            let onion = spec_create_onion(commit, hops, session)->Ok_0;
            &&& spec_peel_all(onion, keys) is Ok
            &&& spec_peel_all(onion, keys)->Ok_0.0 == hop_payloads(hops)
            &&& spec_peel_all(onion, keys)->Ok_0.1.enc_payloads == Seq::<Seq<u8>>::empty()
            &&& Some(spec_peel_all(onion, keys)->Ok_0.1.commit) == spec_commit_after(
                commit,
                hop_payloads(hops),
            )
        }),
{
    let onion = spec_create_onion(commit, hops, session)->Ok_0;
    lemma_peel_chain(commit, hops, keys, session, onion.ephemeral_pubkey);
    assert(spec_peel_all(onion, keys)->Ok_0.1.enc_payloads =~= Seq::<Seq<u8>>::empty());
}

/// After one peel with the secret key `secret`, the ephemeral key of the
/// onion that is handed on is the old ephemeral key `E` multiplied by the
/// SHA-256 digest of `E` followed by the secret that `E` and `secret` share.
pub proof fn lemma_blinding_chain(onion: OnionView, secret: Seq<u8>)
    requires
        spec_peel_layer(onion, secret) is Ok,
    ensures
        ({
            let e = onion.ephemeral_pubkey;
            let next = spec_peel_layer(onion, secret)->Ok_0.1;
            &&& ecdh_secret(e, secret) is Some
            &&& Some(next.ephemeral_pubkey) == public_key_times(
                e,
                crate::crypto::sha256(e + ecdh_secret(e, secret)->Some_0),
            )
        }),
{
}

} // verus!
