//! The onion: a commitment on its way to a new owner, wrapped in one layer of
//! encryption for every hop.
//!
//! Each hop shares a secret with the sender through the onion's ephemeral
//! key. The secret keys a ChaCha20 stream; the hop runs that one stream over
//! all payloads in order, which takes its own layer off each, reads its
//! instruction from the first, and hands on the rest under a re-blinded
//! ephemeral key.
use crate::bytes::{
    be_digits, lemma_take_bytes_of_concat, lemma_take_prefixed_of_concat,
    lemma_take_u64_of_concat, prefixed, put_bytes, put_prefixed, put_u64, take_bytes,
    take_prefixed, take_u64, Reader, SerError,
};
use crate::crypto::{
    hmac_sha256, hmac_sha256_tag, sha256, sha256_digest, xor_keystream, StreamCipherState,
    KEYSTREAM_LEN,
};
use crate::secp::{
    add_excess, ecdh_secret, shared_secret, spec_add_excess, spec_public_key_mul,
    spec_public_key_of, spec_scalar_mul, spec_sub_value, sub_value, valid_public_key,
    valid_secret_key, Commitment, PublicKey, SecretKey,
};
use crate::types::{
    commitment_from_bytes, payload_encodable, spec_payload_bytes, spec_payload_from_bytes,
    Payload, PayloadView,
};
use vstd::prelude::*;

verus! {

/// Why an onion could not be made or peeled.
#[derive(Clone, Debug, PartialEq)]
pub enum OnionError {
    /// The key of the message authentication code has no valid length.
    InvalidKeyLength,
    /// A payload has no binary form.
    SerializationError(SerError),
    /// The decrypted bytes are no payload.
    DeserializationError(SerError),
    /// The blinding factor between two layers is no valid scalar.
    CalcBlindError(secp256k1zkp::Error),
    /// The curve library refused the ephemeral key or a step on it.
    CalcPubKeyError(secp256k1zkp::Error),
    /// The curve library refused a step on the commitment.
    CalcCommitError(secp256k1zkp::Error),
}

/// The kinds of `OnionError`, without what the curve library reported.
pub enum OnionErrorKind {
    InvalidKeyLength,
    SerializationError(SerError),
    DeserializationError(SerError),
    CalcBlindError,
    CalcPubKeyError,
    CalcCommitError,
}

impl View for OnionError {
    type V = OnionErrorKind;

    open spec fn view(&self) -> OnionErrorKind {
        match *self {
            OnionError::InvalidKeyLength => OnionErrorKind::InvalidKeyLength,
            OnionError::SerializationError(e) => OnionErrorKind::SerializationError(e),
            OnionError::DeserializationError(e) => OnionErrorKind::DeserializationError(e),
            OnionError::CalcBlindError(_) => OnionErrorKind::CalcBlindError,
            OnionError::CalcPubKeyError(_) => OnionErrorKind::CalcPubKeyError,
            OnionError::CalcCommitError(_) => OnionErrorKind::CalcCommitError,
        }
    }
}

/// A data packet with layers of encryption.
#[derive(Debug, PartialEq, Eq, Hash)]
pub struct Onion {
    /// The sender's session key as the next hop is to see it.
    pub ephemeral_pubkey: PublicKey,
    /// The commitment before the next hop's excess is added and its fee
    /// taken off.
    pub commit: Commitment,
    /// The encrypted payloads, one for each hop that is left; the first is
    /// for the next hop.
    pub enc_payloads: Vec<Vec<u8>>,
}

/// What an onion holds.
pub struct OnionView {
    pub ephemeral_pubkey: Seq<u8>,
    pub commit: Seq<u8>,
    pub enc_payloads: Seq<Seq<u8>>,
}

/// The byte strings that a list of byte vectors holds.
pub open spec fn payload_views(v: Seq<Vec<u8>>) -> Seq<Seq<u8>> {
    Seq::new(v.len(), |i: int| v[i]@)
}

impl View for Onion {
    type V = OnionView;

    open spec fn view(&self) -> OnionView {
        OnionView {
            ephemeral_pubkey: self.ephemeral_pubkey@,
            commit: self.commit@,
            enc_payloads: payload_views(self.enc_payloads@),
        }
    }
}

impl Clone for Onion {
    fn clone(&self) -> (r: Self)
        ensures
            r@ == self@,
    {
        let mut enc_payloads: Vec<Vec<u8>> = Vec::new();
        let mut i: usize = 0;
        while i < self.enc_payloads.len()
            invariant
                i <= self.enc_payloads@.len(),
                payload_views(enc_payloads@) == payload_views(self.enc_payloads@).take(i as int),
            decreases self.enc_payloads@.len() - i,
        {
            let ghost before = payload_views(enc_payloads@);
            let piece = copy_bytes(self.enc_payloads[i].as_slice());
            enc_payloads.push(piece);
            proof {
                assert(payload_views(enc_payloads@) =~= before.push(piece@));
                assert(payload_views(self.enc_payloads@).take(i + 1) =~= payload_views(
                    self.enc_payloads@,
                ).take(i as int).push(piece@));
            }
            i += 1;
        }
        proof {
            assert(payload_views(self.enc_payloads@).take(i as int) =~= payload_views(
                self.enc_payloads@,
            ));
        }
        Onion {
            ephemeral_pubkey: self.ephemeral_pubkey.clone(),
            commit: self.commit,
            enc_payloads,
        }
    }
}

/// Whether the parts of `onion` are what an onion can hold.
pub open spec fn onion_wf(onion: OnionView) -> bool {
    &&& valid_public_key(onion.ephemeral_pubkey)
    &&& onion.commit.len() == 33
    &&& onion.enc_payloads.len() <= u64::MAX
    &&& forall|i: int|
        0 <= i < onion.enc_payloads.len() ==> (#[trigger] onion.enc_payloads[i]).len() <= u64::MAX
}

/// The payloads one after the other, each behind its 64-bit length.
pub open spec fn spec_payloads_bytes(payloads: Seq<Seq<u8>>) -> Seq<u8>
    decreases payloads.len(),
{
    if payloads.len() == 0 {
        Seq::empty()
    } else {
        prefixed(payloads[0]) + spec_payloads_bytes(payloads.drop_first())
    }
}

/// The binary form of an onion: the ephemeral key in 33 bytes, the
/// commitment in 33, the number of payloads in 8, then the payloads.
pub open spec fn spec_onion_bytes(onion: OnionView) -> Seq<u8> {
    onion.ephemeral_pubkey + onion.commit + be_digits(onion.enc_payloads.len(), 8)
        + spec_payloads_bytes(onion.enc_payloads)
}

/// `n` payloads off the front of `s`, and what follows them.
pub open spec fn take_payloads(s: Seq<u8>, n: nat) -> Result<(Seq<Seq<u8>>, Seq<u8>), SerError>
    decreases n,
{
    if n == 0 {
        Ok((Seq::empty(), s))
    } else {
        match take_prefixed(s) {
            Ok((p, r1)) => match take_payloads(r1, (n - 1) as nat) {
                Ok((ps, r2)) => Ok((seq![p] + ps, r2)),
                Err(e) => Err(e),
            },
            Err(e) => Err(e),
        }
    }
}

/// An onion off the front of `s`, and what follows it. 33 bytes that are no
/// public key are `CorruptedData`.
pub open spec fn take_onion(s: Seq<u8>) -> Result<(OnionView, Seq<u8>), SerError> {
    match take_bytes(s, 33) {
        Ok((ephemeral_pubkey, r1)) => if !valid_public_key(ephemeral_pubkey) {
            Err(SerError::CorruptedData)
        } else {
            match take_bytes(r1, 33) {
                Ok((commit, r2)) => match take_u64(r2) {
                    Ok((n, r3)) => match take_payloads(r3, n as nat) {
                        Ok((enc_payloads, r4)) => Ok(
                            (OnionView { ephemeral_pubkey, commit, enc_payloads }, r4),
                        ),
                        Err(e) => Err(e),
                    },
                    Err(e) => Err(e),
                },
                Err(e) => Err(e),
            }
        },
        Err(e) => Err(e),
    }
}

/// Writing one more payload appends it behind its length.
pub proof fn lemma_payloads_bytes_push(payloads: Seq<Seq<u8>>, p: Seq<u8>)
    ensures
        spec_payloads_bytes(payloads.push(p)) == spec_payloads_bytes(payloads) + prefixed(p),
    decreases payloads.len(),
{
    if payloads.len() == 0 {
        let q = payloads.push(p);
        assert(q.len() == 1 && q[0] == p);
        assert(q.drop_first().len() == 0);
        assert(spec_payloads_bytes(q.drop_first()) =~= Seq::<u8>::empty());
        assert(spec_payloads_bytes(q) =~= prefixed(p));
        assert(spec_payloads_bytes(payloads) + prefixed(p) =~= prefixed(p));
    } else {
        lemma_payloads_bytes_push(payloads.drop_first(), p);
        assert(payloads.push(p).drop_first() =~= payloads.drop_first().push(p));
        assert(spec_payloads_bytes(payloads.push(p)) =~= spec_payloads_bytes(payloads) + prefixed(
            p,
        ));
    }
}

/// Payloads that were written are read back as they were.
pub proof fn lemma_payloads_round_trip(payloads: Seq<Seq<u8>>, rest: Seq<u8>)
    requires
        forall|i: int| 0 <= i < payloads.len() ==> (#[trigger] payloads[i]).len() <= u64::MAX,
    ensures
        take_payloads(spec_payloads_bytes(payloads) + rest, payloads.len()) == Ok::<
            (Seq<Seq<u8>>, Seq<u8>),
            SerError,
        >((payloads, rest)),
    decreases payloads.len(),
{
    if payloads.len() == 0 {
        assert(spec_payloads_bytes(payloads) + rest =~= rest);
        assert(payloads =~= Seq::<Seq<u8>>::empty());
    } else {
        let tail = payloads.drop_first();
        let r1 = spec_payloads_bytes(tail) + rest;
        assert(spec_payloads_bytes(payloads) + rest =~= prefixed(payloads[0]) + r1);
        lemma_take_prefixed_of_concat(payloads[0], r1);
        assert forall|i: int| 0 <= i < tail.len() implies (#[trigger] tail[i]).len()
            <= u64::MAX by {
            assert(tail[i] == payloads[i + 1]);
        }
        lemma_payloads_round_trip(tail, rest);
        assert(seq![payloads[0]] + tail =~= payloads);
    }
}

/// An onion that was written is read back as it was, and what followed it
/// is left.
pub proof fn lemma_onion_round_trip(onion: OnionView, rest: Seq<u8>)
    requires
        onion_wf(onion),
    ensures
        take_onion(spec_onion_bytes(onion) + rest) == Ok::<(OnionView, Seq<u8>), SerError>(
            (onion, rest),
        ),
{
    let r3 = spec_payloads_bytes(onion.enc_payloads) + rest;
    let r2 = be_digits(onion.enc_payloads.len(), 8) + r3;
    let r1 = onion.commit + r2;
    assert(spec_onion_bytes(onion) + rest =~= onion.ephemeral_pubkey + r1);
    lemma_take_bytes_of_concat(onion.ephemeral_pubkey, r1);
    lemma_take_bytes_of_concat(onion.commit, r2);
    lemma_take_u64_of_concat(onion.enc_payloads.len() as u64, r3);
    lemma_payloads_round_trip(onion.enc_payloads, rest);
}

/// What reading `n` payloads gives where `done` were read before and the
/// rest reads as `tail`.
pub open spec fn after_payloads(
    done: Seq<Seq<u8>>,
    tail: Result<(Seq<Seq<u8>>, Seq<u8>), SerError>,
) -> Result<(Seq<Seq<u8>>, Seq<u8>), SerError> {
    match tail {
        Ok((ps, rest)) => Ok((done + ps, rest)),
        Err(e) => Err(e),
    }
}

/// A copy of `data`.
pub fn copy_bytes(data: &[u8]) -> (r: Vec<u8>)
    ensures
        r@ == data@,
{
    let mut out: Vec<u8> = Vec::new();
    put_bytes(&mut out, data);
    proof {
        assert(out@ =~= data@);
    }
    out
}

impl Onion {
    /// Appends the binary form.
    pub fn write(&self, out: &mut Vec<u8>)
        ensures
            final(out)@ == old(out)@ + spec_onion_bytes(self@),
            onion_wf(self@),
    {
        let ghost before = out@;
        let ghost views = payload_views(self.enc_payloads@);
        put_bytes(out, self.ephemeral_pubkey.as_bytes());
        put_bytes(out, &self.commit.0);
        put_u64(out, self.enc_payloads.len() as u64);
        let ghost head = out@;
        let mut i: usize = 0;
        while i < self.enc_payloads.len()
            invariant
                i <= self.enc_payloads@.len(),
                views == payload_views(self.enc_payloads@),
                out@ == head + spec_payloads_bytes(views.take(i as int)),
            decreases self.enc_payloads@.len() - i,
        {
            put_prefixed(out, self.enc_payloads[i].as_slice());
            proof {
                lemma_payloads_bytes_push(views.take(i as int), views[i as int]);
                assert(views.take(i + 1) =~= views.take(i as int).push(views[i as int]));
            }
            i += 1;
        }
        proof {
            assert(views.take(i as int) =~= views);
            assert(out@ =~= before + spec_onion_bytes(self@));
            assert forall|j: int| 0 <= j < views.len() implies (#[trigger] views[j]).len()
                <= u64::MAX by {
                assert(views[j] == self.enc_payloads@[j]@);
                assert(self.enc_payloads@[j].len() <= usize::MAX);
            }
            assert(self.commit@.len() == 33);
        }
    }

    /// The binary form.
    pub fn serialize(&self) -> (r: Result<Vec<u8>, SerError>)
        ensures
            r is Ok,
            r->Ok_0@ == spec_onion_bytes(self@),
            onion_wf(self@),
    {
        let mut out: Vec<u8> = Vec::new();
        self.write(&mut out);
        proof {
            assert(out@ =~= spec_onion_bytes(self@));
        }
        Ok(out)
    }

    /// Reads the binary form.
    #[verifier::loop_isolation(false)]
    pub fn read(reader: &mut Reader) -> (r: Result<Onion, SerError>)
        ensures
            match take_onion(old(reader).remaining()) {
                Ok((onion, rest)) => r is Ok && r->Ok_0@ == onion && final(reader).remaining()
                    == rest,
                Err(e) => r == Err::<Onion, SerError>(e),
            },
    {
        let key_bytes = match reader.read_fixed_bytes(33) {
            Ok(b) => b,
            Err(e) => { return Err(e); },
        };
        let ephemeral_pubkey = match PublicKey::from_slice(key_bytes.as_slice()) {
            Ok(p) => p,
            Err(_) => { return Err(SerError::CorruptedData); },
        };
        let commit_bytes = match reader.read_fixed_bytes(33) {
            Ok(b) => b,
            Err(e) => { return Err(e); },
        };
        let commit = commitment_from_bytes(commit_bytes.as_slice());
        let len = match reader.read_u64() {
            Ok(n) => n,
            Err(e) => { return Err(e); },
        };
        let ghost start = reader.remaining();
        let mut enc_payloads: Vec<Vec<u8>> = Vec::new();
        let mut i: u64 = 0;
        while i < len
            invariant
                i <= len,
                take_payloads(start, len as nat) == after_payloads(
                    payload_views(enc_payloads@),
                    take_payloads(reader.remaining(), (len - i) as nat),
                ),
            decreases len - i,
        {
            let ghost done = payload_views(enc_payloads@);
            let ghost before = reader.remaining();
            let bytes = match reader.read_bytes_len_prefix() {
                Ok(b) => b,
                Err(e) => { return Err(e); },
            };
            enc_payloads.push(bytes);
            proof {
                let next = take_payloads(reader.remaining(), (len - i - 1) as nat);
                assert(payload_views(enc_payloads@) =~= done.push(bytes@));
                match next {
                    Ok((ps, rest)) => {
                        assert(done + (seq![bytes@] + ps) =~= done.push(bytes@) + ps);
                    },
                    Err(_) => {},
                }
            }
            i += 1;
        }
        proof {
            assert(payload_views(enc_payloads@) + Seq::<Seq<u8>>::empty() =~= payload_views(
                enc_payloads@,
            ));
        }
        Ok(Onion { ephemeral_pubkey, commit, enc_payloads })
    }

    /// The onion whose binary form `data` begins with. What `serialize`
    /// wrote is read back as the onion it was written from.
    pub fn deserialize(data: &[u8]) -> (r: Result<Onion, SerError>)
        ensures
            match take_onion(data@) {
                Ok((onion, _)) => r is Ok && r->Ok_0@ == onion,
                Err(e) => r == Err::<Onion, SerError>(e),
            },
    {
        let mut reader = Reader::new(data);
        Onion::read(&mut reader)
    }
}

/// The ASCII bytes of `MWIXNET`, the key under which a shared secret is
/// turned into a stream key.
pub open spec fn stream_key_tag() -> Seq<u8> {
    seq![0x4du8, 0x57u8, 0x49u8, 0x58u8, 0x4eu8, 0x45u8, 0x54u8]
}

/// The ASCII bytes of `NONCE1234567`, the nonce of every stream. It never
/// changes: each stream has a key of its own, since each session has a fresh
/// ephemeral key.
pub open spec fn stream_nonce() -> Seq<u8> {
    seq![
        0x4eu8,
        0x4fu8,
        0x4eu8,
        0x43u8,
        0x45u8,
        0x31u8,
        0x32u8,
        0x33u8,
        0x34u8,
        0x35u8,
        0x36u8,
        0x37u8,
    ]
}

/// The stream key for a shared secret: its HMAC-SHA256 tag under the key
/// `MWIXNET`.
pub open spec fn spec_stream_key(shared: Seq<u8>) -> Seq<u8> {
    hmac_sha256(stream_key_tag(), shared)
}

/// The blinding factor between two layers: the SHA-256 digest of the
/// ephemeral key and the shared secret, where it is a valid scalar.
pub open spec fn spec_blinding_factor(shared: Seq<u8>, ephemeral_pubkey: Seq<u8>) -> Option<
    Seq<u8>,
> {
    let digest = sha256(ephemeral_pubkey + shared);
    if valid_secret_key(digest) {
        Some(digest)
    } else {
        None
    }
}

/// How many bytes the first `i` payloads hold together.
pub open spec fn offset_after(payloads: Seq<Seq<u8>>, i: int) -> int
    decreases i,
{
    if i <= 0 {
        0
    } else {
        offset_after(payloads, i - 1) + payloads[i - 1].len()
    }
}

/// How many bytes the payloads hold together.
pub open spec fn total_len(payloads: Seq<Seq<u8>>) -> int {
    offset_after(payloads, payloads.len() as int)
}

/// One layer put on, or taken off: the stream of `key` run over the
/// payloads in order, each payload meeting the keystream where the one
/// before it left off.
pub open spec fn spec_apply_layer(key: Seq<u8>, payloads: Seq<Seq<u8>>) -> Seq<Seq<u8>> {
    Seq::new(
        payloads.len(),
        |i: int| xor_keystream(key, stream_nonce(), offset_after(payloads, i), payloads[i]),
    )
}

/// What peeling one layer with the secret key `secret` gives: the hop's
/// payload and the onion for the next hop, or the kind of the failure.
pub open spec fn spec_peel_layer(onion: OnionView, secret: Seq<u8>) -> Result<
    (PayloadView, OnionView),
    OnionErrorKind,
> {
    if onion.enc_payloads.len() == 0 {
        Err(OnionErrorKind::DeserializationError(SerError::UnexpectedEof))
    } else if total_len(onion.enc_payloads) >= KEYSTREAM_LEN {
        Err(OnionErrorKind::DeserializationError(SerError::TooLarge))
    } else {
        match ecdh_secret(onion.ephemeral_pubkey, secret) {
            None => Err(OnionErrorKind::CalcPubKeyError),
            Some(shared) => {
                let peeled = spec_apply_layer(spec_stream_key(shared), onion.enc_payloads);
                match spec_payload_from_bytes(peeled[0]) {
                    Err(e) => Err(OnionErrorKind::DeserializationError(e)),
                    Ok(payload) => match spec_blinding_factor(
                        shared,
                        onion.ephemeral_pubkey,
                    ) {
                        None => Err(OnionErrorKind::CalcBlindError),
                        Some(blind) => match spec_public_key_mul(onion.ephemeral_pubkey, blind) {
                            None => Err(OnionErrorKind::CalcPubKeyError),
                            Some(ephemeral_pubkey) => match spec_add_excess(
                                onion.commit,
                                payload.excess,
                            ) {
                                None => Err(OnionErrorKind::CalcCommitError),
                                Some(with_excess) => match spec_sub_value(
                                    with_excess,
                                    payload.fee,
                                ) {
                                    None => Err(OnionErrorKind::CalcCommitError),
                                    Some(commit) => Ok(
                                        (
                                            payload,
                                            OnionView {
                                                ephemeral_pubkey,
                                                commit,
                                                enc_payloads: peeled.drop_first(),
                                            },
                                        ),
                                    ),
                                },
                            },
                        },
                    },
                }
            },
        }
    }
}

/// The more payloads, the more bytes.
pub proof fn lemma_offset_monotonic(payloads: Seq<Seq<u8>>, i: int, j: int)
    requires
        0 <= i <= j,
    ensures
        0 <= offset_after(payloads, i) <= offset_after(payloads, j),
    decreases j,
{
    if i < j {
        lemma_offset_monotonic(payloads, i, j - 1);
    } else if i > 0 {
        lemma_offset_monotonic(payloads, i - 1, i - 1);
    }
}

/// Offsets depend on the lengths of the payloads alone.
pub proof fn lemma_offset_same_lengths(a: Seq<Seq<u8>>, b: Seq<Seq<u8>>, i: int)
    requires
        0 <= i <= a.len(),
        a.len() == b.len(),
        forall|k: int| 0 <= k < a.len() ==> (#[trigger] a[k]).len() == (#[trigger] b[k]).len(),
    ensures
        offset_after(a, i) == offset_after(b, i),
    decreases i,
{
    if i > 0 {
        lemma_offset_same_lengths(a, b, i - 1);
        assert(a[i - 1].len() == b[i - 1].len());
    }
}

/// Putting on a layer that was taken off, or taking off one that was put
/// on, gives the payloads back.
pub proof fn lemma_apply_layer_involution(key: Seq<u8>, payloads: Seq<Seq<u8>>)
    ensures
        spec_apply_layer(key, spec_apply_layer(key, payloads)) == payloads,
{
    let once = spec_apply_layer(key, payloads);
    let twice = spec_apply_layer(key, once);
    assert forall|i: int| 0 <= i < payloads.len() implies twice[i] == payloads[i] by {
        lemma_offset_same_lengths(once, payloads, i);
        crate::crypto::lemma_xor_keystream_involution(
            key,
            stream_nonce(),
            offset_after(payloads, i),
            payloads[i],
        );
    }
    assert(twice =~= payloads);
}

/// The stream cipher for a shared secret, at the start of its keystream.
pub fn new_stream_cipher(shared_secret: &[u8; 32]) -> (r: Result<StreamCipherState, OnionError>)
    ensures
        r is Ok,
        r->Ok_0.key() == spec_stream_key(shared_secret@),
        r->Ok_0.nonce() == stream_nonce(),
        r->Ok_0.pos() == 0,
{
    let tag: [u8; 7] = [0x4d, 0x57, 0x49, 0x58, 0x4e, 0x45, 0x54];
    let nonce: [u8; 12] = [0x4e, 0x4f, 0x4e, 0x43, 0x45, 0x31, 0x32, 0x33, 0x34, 0x35, 0x36, 0x37];
    proof {
        assert(tag@ =~= stream_key_tag());
        assert(nonce@ =~= stream_nonce());
    }
    let mukey = match hmac_sha256_tag(&tag, shared_secret) {
        Ok(m) => m,
        Err(_) => { return Err(OnionError::InvalidKeyLength); },
    };
    Ok(StreamCipherState::new(mukey, nonce))
}

/// The blinding factor that takes the ephemeral key from one layer to the
/// next.
pub fn calc_blinding_factor(shared_secret: &[u8; 32], ephemeral_pubkey: &PublicKey) -> (r: Result<
    SecretKey,
    OnionError,
>)
    ensures
        match spec_blinding_factor(shared_secret@, ephemeral_pubkey@) {
            Some(b) => r is Ok && r->Ok_0@ == b,
            None => r is Err && r->Err_0@ == OnionErrorKind::CalcBlindError,
        },
{
    let mut input: Vec<u8> = Vec::new();
    put_bytes(&mut input, ephemeral_pubkey.as_bytes());
    put_bytes(&mut input, shared_secret);
    proof {
        assert(input@ =~= ephemeral_pubkey@ + shared_secret@);
    }
    let digest = sha256_digest(input.as_slice());
    match SecretKey::from_slice(&digest) {
        Ok(b) => Ok(b),
        Err(e) => Err(OnionError::CalcBlindError(e)),
    }
}

/// Whether the payloads hold fewer bytes than one keystream gives.
pub fn fits_keystream(payloads: &Vec<Vec<u8>>) -> (r: bool)
    ensures
        r == (total_len(payload_views(payloads@)) < KEYSTREAM_LEN),
{
    let ghost views = payload_views(payloads@);
    let mut total: u64 = 0;
    let mut i: usize = 0;
    while i < payloads.len()
        invariant
            i <= payloads@.len(),
            views == payload_views(payloads@),
            total == offset_after(views, i as int),
            total < KEYSTREAM_LEN,
        decreases payloads@.len() - i,
    {
        let len = payloads[i].len() as u64;
        if len >= KEYSTREAM_LEN - total {
            proof {
                lemma_offset_monotonic(views, i + 1, views.len() as int);
            }
            return false;
        }
        total = total + len;
        i += 1;
    }
    true
}

/// Runs the stream for `shared_secret` over the payloads from index `from`
/// on; those before it are copied.
pub(crate) fn apply_layer(shared_secret: &[u8; 32], payloads: &Vec<Vec<u8>>, from: usize) -> (r: Result<
    Vec<Vec<u8>>,
    OnionError,
>)
    requires
        from <= payloads@.len(),
        total_len(payload_views(payloads@).skip(from as int)) < KEYSTREAM_LEN,
    ensures
        r is Ok,
        payload_views(r->Ok_0@) == payload_views(payloads@).take(from as int) + spec_apply_layer(
            spec_stream_key(shared_secret@),
            payload_views(payloads@).skip(from as int),
        ),
{
    let ghost views = payload_views(payloads@);
    let ghost tail = views.skip(from as int);
    let ghost key = spec_stream_key(shared_secret@);
    let mut cipher = match new_stream_cipher(shared_secret) {
        Ok(c) => c,
        Err(e) => { return Err(e); },
    };
    let mut out: Vec<Vec<u8>> = Vec::new();
    let mut i: usize = 0;
    while i < from
        invariant
            i <= from <= payloads@.len(),
            views == payload_views(payloads@),
            payload_views(out@) == views.take(i as int),
        decreases from - i,
    {
        let ghost before = payload_views(out@);
        let piece = copy_bytes(payloads[i].as_slice());
        out.push(piece);
        proof {
            assert(payload_views(out@) =~= before.push(piece@));
            assert(views.take(i + 1) =~= views.take(i as int).push(views[i as int]));
        }
        i += 1;
    }
    while i < payloads.len()
        invariant
            from <= i <= payloads@.len(),
            views == payload_views(payloads@),
            tail == views.skip(from as int),
            cipher.key() == key,
            cipher.nonce() == stream_nonce(),
            cipher.pos() == offset_after(tail, i - from),
            total_len(tail) < KEYSTREAM_LEN,
            payload_views(out@) == views.take(from as int) + spec_apply_layer(key, tail).take(
                i - from,
            ),
        decreases payloads@.len() - i,
    {
        proof {
            lemma_offset_monotonic(tail, i - from + 1, tail.len() as int);
            assert(tail[i - from] == views[i as int]);
        }
        let ghost before = payload_views(out@);
        let piece = cipher.apply_keystream(payloads[i].as_slice());
        out.push(piece);
        proof {
            assert(payload_views(out@) =~= before.push(piece@));
            assert(spec_apply_layer(key, tail).take(i - from + 1) =~= spec_apply_layer(
                key,
                tail,
            ).take(i - from).push(piece@));
            assert(payload_views(out@) =~= views.take(from as int) + spec_apply_layer(
                key,
                tail,
            ).take(i - from + 1));
        }
        i += 1;
    }
    proof {
        assert(spec_apply_layer(key, tail).take(i - from) =~= spec_apply_layer(key, tail));
    }
    Ok(out)
}

impl Onion {
    /// Peels a single layer off the onion: the payload that was meant for
    /// the owner of `secret_key`, and the onion for the next hop.
    ///
    /// An onion without payloads has nothing to read and is refused as
    /// `DeserializationError(UnexpectedEof)`; payloads of more bytes than one
    /// keystream gives are refused as `DeserializationError(TooLarge)`.
    pub fn peel_layer(&self, secret_key: &SecretKey) -> (r: Result<(Payload, Onion), OnionError>)
        ensures
            match spec_peel_layer(self@, secret_key@) {
                Ok((payload, onion)) => r is Ok && r->Ok_0.0@ == payload && r->Ok_0.1@ == onion,
                Err(kind) => r is Err && r->Err_0@ == kind,
            },
    {
        if self.enc_payloads.len() == 0 {
            return Err(OnionError::DeserializationError(SerError::UnexpectedEof));
        }
        if !fits_keystream(&self.enc_payloads) {
            return Err(OnionError::DeserializationError(SerError::TooLarge));
        }
        let shared = match shared_secret(&self.ephemeral_pubkey, secret_key) {
            Ok(s) => s,
            Err(e) => { return Err(OnionError::CalcPubKeyError(e)); },
        };
        proof {
            assert(payload_views(self.enc_payloads@).skip(0) =~= payload_views(
                self.enc_payloads@,
            ));
            assert(payload_views(self.enc_payloads@).take(0) =~= Seq::<Seq<u8>>::empty());
        }
        let mut enc_payloads = match apply_layer(&shared, &self.enc_payloads, 0) {
            Ok(p) => p,
            Err(e) => { return Err(e); },
        };
        let ghost peeled = spec_apply_layer(
            spec_stream_key(shared@),
            payload_views(self.enc_payloads@),
        );
        proof {
            assert(payload_views(enc_payloads@) =~= peeled);
        }
        let decrypted_bytes = enc_payloads.remove(0);
        proof {
            assert(decrypted_bytes@ == peeled[0]);
            assert(payload_views(enc_payloads@) =~= peeled.drop_first());
        }
        let decrypted_payload = match Payload::deserialize(decrypted_bytes.as_slice()) {
            Ok(p) => p,
            Err(e) => { return Err(OnionError::DeserializationError(e)); },
        };
        let blinding_factor = match calc_blinding_factor(&shared, &self.ephemeral_pubkey) {
            Ok(b) => b,
            Err(e) => { return Err(e); },
        };
        let ephemeral_pubkey = match self.ephemeral_pubkey.mul(&blinding_factor) {
            Ok(p) => p,
            Err(e) => { return Err(OnionError::CalcPubKeyError(e)); },
        };
        let with_excess = match add_excess(&self.commit, &decrypted_payload.excess) {
            Ok(c) => c,
            Err(e) => { return Err(OnionError::CalcCommitError(e)); },
        };
        let commit = match sub_value(&with_excess, decrypted_payload.fee) {
            Ok(c) => c,
            Err(e) => { return Err(OnionError::CalcCommitError(e)); },
        };
        let peeled_onion = Onion { ephemeral_pubkey, commit, enc_payloads };
        Ok((decrypted_payload, peeled_onion))
    }
}

/// One stop on the way of an onion: the public key of the hop and what it
/// is to be told.
#[derive(Clone, Debug, PartialEq)]
pub struct Hop {
    /// The long-term public key of the hop.
    pub pubkey: PublicKey,
    /// The instruction for the hop.
    pub payload: Payload,
}

/// What a hop holds.
pub struct HopView {
    pub pubkey: Seq<u8>,
    pub payload: PayloadView,
}

impl View for Hop {
    type V = HopView;

    open spec fn view(&self) -> HopView {
        HopView { pubkey: self.pubkey@, payload: self.payload@ }
    }
}

/// What a list of hops holds.
pub open spec fn hop_views(hops: Seq<Hop>) -> Seq<HopView> {
    Seq::new(hops.len(), |i: int| hops[i]@)
}

/// The payloads of the hops, in order.
pub open spec fn hop_payloads(hops: Seq<HopView>) -> Seq<PayloadView> {
    Seq::new(hops.len(), |i: int| hops[i].payload)
}

/// The byte strings that a list of 32-byte arrays holds.
pub open spec fn secret_views(v: Seq<[u8; 32]>) -> Seq<Seq<u8>> {
    Seq::new(v.len(), |i: int| v[i]@)
}

/// What the sender works out for one hop with the session key as it stands:
/// the secret shared with the hop, the binary form of the hop's payload, and
/// the session key for the hop after it.
pub open spec fn spec_sender_step(hop: HopView, key: Seq<u8>) -> Result<
    (Seq<u8>, Seq<u8>, Seq<u8>),
    OnionErrorKind,
> {
    match ecdh_secret(hop.pubkey, key) {
        None => Err(OnionErrorKind::CalcPubKeyError),
        Some(shared) => match spec_public_key_of(key) {
            None => Err(OnionErrorKind::CalcPubKeyError),
            Some(ephemeral) => match spec_blinding_factor(shared, ephemeral) {
                None => Err(OnionErrorKind::CalcBlindError),
                Some(blind) => if !payload_encodable(hop.payload) {
                    Err(OnionErrorKind::SerializationError(SerError::FeeOutOfRange))
                } else {
                    match spec_scalar_mul(key, blind) {
                        None => Err(OnionErrorKind::CalcPubKeyError),
                        Some(next) => Ok((shared, spec_payload_bytes(hop.payload), next)),
                    }
                },
            },
        },
    }
}

/// The shared secrets and the plain payloads for all hops, starting from
/// the session key `key`.
pub open spec fn spec_sender_chain(hops: Seq<HopView>, key: Seq<u8>) -> Result<
    (Seq<Seq<u8>>, Seq<Seq<u8>>),
    OnionErrorKind,
>
    decreases hops.len(),
{
    if hops.len() == 0 {
        Ok((Seq::empty(), Seq::empty()))
    } else {
        match spec_sender_step(hops[0], key) {
            Err(e) => Err(e),
            Ok((shared, plain, next)) => match spec_sender_chain(hops.drop_first(), next) {
                Err(e) => Err(e),
                Ok((secrets, plains)) => Ok((seq![shared] + secrets, seq![plain] + plains)),
            },
        }
    }
}

/// The payloads under all their layers: the payload of each hop lies under
/// the layer of that hop and of every hop before it.
pub open spec fn spec_wrap(secrets: Seq<Seq<u8>>, plains: Seq<Seq<u8>>) -> Seq<Seq<u8>>
    decreases secrets.len(),
{
    if secrets.len() == 0 || plains.len() == 0 {
        Seq::empty()
    } else {
        spec_apply_layer(
            spec_stream_key(secrets[0]),
            seq![plains[0]] + spec_wrap(secrets.drop_first(), plains.drop_first()),
        )
    }
}

/// The onion that a sender with the session key `session` makes for the
/// commitment and the hops, or the kind of the failure.
pub open spec fn spec_create_onion(commit: Seq<u8>, hops: Seq<HopView>, session: Seq<u8>) -> Result<
    OnionView,
    OnionErrorKind,
> {
    match spec_sender_chain(hops, session) {
        Err(e) => Err(e),
        Ok((secrets, plains)) => if total_len(plains) >= KEYSTREAM_LEN {
            Err(OnionErrorKind::SerializationError(SerError::TooLarge))
        } else {
            match spec_public_key_of(session) {
                None => Err(OnionErrorKind::CalcPubKeyError),
                Some(ephemeral_pubkey) => Ok(
                    OnionView {
                        ephemeral_pubkey,
                        commit,
                        enc_payloads: spec_wrap(secrets, plains),
                    },
                ),
            }
        },
    }
}

/// What the chain gives where `secrets` and `plains` were worked out before
/// and the rest works out as `tail`.
pub open spec fn after_chain(
    secrets: Seq<Seq<u8>>,
    plains: Seq<Seq<u8>>,
    tail: Result<(Seq<Seq<u8>>, Seq<Seq<u8>>), OnionErrorKind>,
) -> Result<(Seq<Seq<u8>>, Seq<Seq<u8>>), OnionErrorKind> {
    match tail {
        Ok((s, p)) => Ok((secrets + s, plains + p)),
        Err(e) => Err(e),
    }
}

/// Offsets in what is left after the first `i` payloads are offsets in the
/// whole, less what the first `i` hold.
pub proof fn lemma_offset_skip(payloads: Seq<Seq<u8>>, i: int, j: int)
    requires
        0 <= i,
        0 <= j,
        i + j <= payloads.len(),
    ensures
        offset_after(payloads.skip(i), j) == offset_after(payloads, i + j) - offset_after(
            payloads,
            i,
        ),
    decreases j,
{
    if j > 0 {
        lemma_offset_skip(payloads, i, j - 1);
        assert(payloads.skip(i)[j - 1] == payloads[i + j - 1]);
    }
}

/// What is left after some payloads holds no more bytes than the whole.
pub proof fn lemma_total_len_skip(payloads: Seq<Seq<u8>>, i: int)
    requires
        0 <= i <= payloads.len(),
    ensures
        0 <= total_len(payloads.skip(i)) <= total_len(payloads),
{
    lemma_offset_skip(payloads, i, payloads.len() - i);
    lemma_offset_monotonic(payloads, 0, i);
    lemma_offset_monotonic(payloads, i, payloads.len() as int);
}

/// A layer changes no length.
pub proof fn lemma_apply_layer_lengths(key: Seq<u8>, payloads: Seq<Seq<u8>>)
    ensures
        spec_apply_layer(key, payloads).len() == payloads.len(),
        forall|k: int|
            0 <= k < payloads.len() ==> (#[trigger] spec_apply_layer(key, payloads)[k]).len()
                == payloads[k].len(),
        total_len(spec_apply_layer(key, payloads)) == total_len(payloads),
{
    let out = spec_apply_layer(key, payloads);
    assert forall|k: int| 0 <= k < out.len() implies (#[trigger] out[k]).len() == (
    #[trigger] payloads[k]).len() by {}
    lemma_offset_same_lengths(out, payloads, payloads.len() as int);
}

/// Wrapped payloads are as many and as long as the plain ones.
pub proof fn lemma_wrap_lengths(secrets: Seq<Seq<u8>>, plains: Seq<Seq<u8>>)
    requires
        secrets.len() == plains.len(),
    ensures
        spec_wrap(secrets, plains).len() == plains.len(),
        forall|k: int|
            0 <= k < plains.len() ==> (#[trigger] spec_wrap(secrets, plains)[k]).len()
                == plains[k].len(),
        total_len(spec_wrap(secrets, plains)) == total_len(plains),
    decreases secrets.len(),
{
    if secrets.len() > 0 {
        let inner = spec_wrap(secrets.drop_first(), plains.drop_first());
        lemma_wrap_lengths(secrets.drop_first(), plains.drop_first());
        let under = seq![plains[0]] + inner;
        lemma_apply_layer_lengths(spec_stream_key(secrets[0]), under);
        let out = spec_wrap(secrets, plains);
        assert forall|k: int| 0 <= k < plains.len() implies (#[trigger] out[k]).len() == (
        #[trigger] plains[k]).len() by {
            assert(out[k].len() == under[k].len());
            if k > 0 {
                assert(under[k] == inner[k - 1]);
                assert(plains.drop_first()[k - 1] == plains[k]);
            }
        }
        lemma_offset_same_lengths(out, plains, plains.len() as int);
    }
}

impl Onion {
    /// The onion that a sender with the session key `session_key` makes for
    /// `commitment`: the payload of each hop is encrypted for that hop and
    /// for every hop before it.
    ///
    /// Payloads of more bytes than one keystream gives are refused as
    /// `SerializationError(TooLarge)`.
    pub fn create_with_session(
        commitment: &Commitment,
        hops: &Vec<Hop>,
        session_key: &SecretKey,
    ) -> (r: Result<Onion, OnionError>)
        ensures
            match spec_create_onion(commitment@, hop_views(hops@), session_key@) {
                Ok(onion) => r is Ok && r->Ok_0@ == onion,
                Err(kind) => r is Err && r->Err_0@ == kind,
            },
    {
        let ghost all = hop_views(hops@);
        let mut ephemeral_key = session_key.clone();
        let mut shared_secrets: Vec<[u8; 32]> = Vec::new();
        let mut plain_payloads: Vec<Vec<u8>> = Vec::new();
        let mut i: usize = 0;
        proof {
            assert(all.skip(0) =~= all);
            assert(secret_views(shared_secrets@) =~= Seq::<Seq<u8>>::empty());
            assert(payload_views(plain_payloads@) =~= Seq::<Seq<u8>>::empty());
            lemma_after_chain_empty(spec_sender_chain(all, session_key@));
        }
        while i < hops.len()
            invariant
                i <= hops@.len(),
                all == hop_views(hops@),
                shared_secrets@.len() == i,
                plain_payloads@.len() == i,
                spec_sender_chain(all, session_key@) == after_chain(
                    secret_views(shared_secrets@),
                    payload_views(plain_payloads@),
                    spec_sender_chain(all.skip(i as int), ephemeral_key@),
                ),
            decreases hops@.len() - i,
        {
            let hop = &hops[i];
            proof {
                assert(all.skip(i as int)[0] == hop@);
                assert(all.skip(i as int).drop_first() =~= all.skip(i + 1));
            }
            let ghost done_secrets = secret_views(shared_secrets@);
            let ghost done_plains = payload_views(plain_payloads@);
            let shared = match shared_secret(&hop.pubkey, &ephemeral_key) {
                Ok(s) => s,
                Err(e) => { return Err(OnionError::CalcPubKeyError(e)); },
            };
            let ephemeral_pubkey = match PublicKey::from_secret_key(&ephemeral_key) {
                Ok(p) => p,
                Err(e) => { return Err(OnionError::CalcPubKeyError(e)); },
            };
            let blinding_factor = match calc_blinding_factor(&shared, &ephemeral_pubkey) {
                Ok(b) => b,
                Err(e) => { return Err(e); },
            };
            let plain = match hop.payload.serialize() {
                Ok(p) => p,
                Err(e) => { return Err(OnionError::SerializationError(e)); },
            };
            let next_key = match ephemeral_key.mul(&blinding_factor) {
                Ok(k) => k,
                Err(e) => { return Err(OnionError::CalcPubKeyError(e)); },
            };
            shared_secrets.push(shared);
            plain_payloads.push(plain);
            proof {
                let tail = spec_sender_chain(all.skip(i + 1), next_key@);
                assert(secret_views(shared_secrets@) =~= done_secrets.push(shared@));
                assert(payload_views(plain_payloads@) =~= done_plains.push(plain@));
                match tail {
                    Ok((s, p)) => {
                        assert(done_secrets + (seq![shared@] + s) =~= done_secrets.push(shared@)
                            + s);
                        assert(done_plains + (seq![plain@] + p) =~= done_plains.push(plain@) + p);
                    },
                    Err(_) => {},
                }
            }
            ephemeral_key = next_key;
            i += 1;
        }
        let ghost secrets = secret_views(shared_secrets@);
        let ghost plains = payload_views(plain_payloads@);
        proof {
            assert(all.skip(i as int) =~= Seq::<HopView>::empty());
            assert(secrets + Seq::<Seq<u8>>::empty() =~= secrets);
            assert(plains + Seq::<Seq<u8>>::empty() =~= plains);
            assert(spec_sender_chain(all, session_key@) == Ok::<
                (Seq<Seq<u8>>, Seq<Seq<u8>>),
                OnionErrorKind,
            >((secrets, plains)));
        }
        if !fits_keystream(&plain_payloads) {
            return Err(OnionError::SerializationError(SerError::TooLarge));
        }
        let n = shared_secrets.len();
        let mut enc_payloads = plain_payloads;
        let mut k: usize = n;
        proof {
            assert(plains.take(n as int) =~= plains);
            assert(secrets.skip(n as int) =~= Seq::<Seq<u8>>::empty());
            assert(spec_wrap(secrets.skip(n as int), plains.skip(n as int)) =~= Seq::<
                Seq<u8>,
            >::empty());
            assert(plains.take(n as int) + Seq::<Seq<u8>>::empty() =~= plains);
        }
        while k > 0
            invariant
                k <= n,
                n == shared_secrets@.len(),
                secrets == secret_views(shared_secrets@),
                secrets.len() == plains.len(),
                total_len(plains) < KEYSTREAM_LEN,
                payload_views(enc_payloads@) == plains.take(k as int) + spec_wrap(
                    secrets.skip(k as int),
                    plains.skip(k as int),
                ),
            decreases k,
        {
            k -= 1;
            let ghost before = payload_views(enc_payloads@);
            let ghost inner = spec_wrap(secrets.skip(k + 1), plains.skip(k + 1));
            proof {
                lemma_wrap_lengths(secrets.skip(k + 1), plains.skip(k + 1));
                assert(before.len() == plains.len());
                assert(before.skip(k as int) =~= seq![plains[k as int]] + inner);
                assert(before.take(k as int) =~= plains.take(k as int));
                assert forall|j: int| 0 <= j < plains.len() implies (#[trigger] before[j]).len()
                    == (#[trigger] plains[j]).len() by {
                    if j > k {
                        assert(before[j] == inner[j - k - 1]);
                        assert(plains.skip(k + 1)[j - k - 1] == plains[j]);
                    }
                }
                lemma_offset_same_lengths(before, plains, plains.len() as int);
                lemma_total_len_skip(before, k as int);
                assert(secrets.skip(k as int)[0] == secrets[k as int]);
                assert(plains.skip(k as int)[0] == plains[k as int]);
                assert(secrets.skip(k as int).drop_first() =~= secrets.skip(k + 1));
                assert(plains.skip(k as int).drop_first() =~= plains.skip(k + 1));
            }
            enc_payloads = match apply_layer(&shared_secrets[k], &enc_payloads, k) {
                Ok(p) => p,
                Err(e) => { return Err(e); },
            };
        }
        proof {
            assert(plains.take(0) =~= Seq::<Seq<u8>>::empty());
            assert(secrets.skip(0) =~= secrets);
            assert(plains.skip(0) =~= plains);
            assert(payload_views(enc_payloads@) =~= spec_wrap(secrets, plains));
        }
        let ephemeral_pubkey = match PublicKey::from_secret_key(session_key) {
            Ok(p) => p,
            Err(e) => { return Err(OnionError::CalcPubKeyError(e)); },
        };
        Ok(Onion { ephemeral_pubkey, commit: *commitment, enc_payloads })
    }
}

/// Nothing worked out before changes nothing.
pub proof fn lemma_after_chain_empty(tail: Result<(Seq<Seq<u8>>, Seq<Seq<u8>>), OnionErrorKind>)
    ensures
        after_chain(Seq::empty(), Seq::empty(), tail) == tail,
{
    match tail {
        Ok((s, p)) => {
            assert(Seq::<Seq<u8>>::empty() + s =~= s);
            assert(Seq::<Seq<u8>>::empty() + p =~= p);
        },
        Err(_) => {},
    }
}

} // verus!
