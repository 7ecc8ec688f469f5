//! The onion as it travels in JSON: an object of three members, `pubkey`,
//! `commit` and `data`, each in lowercase hexadecimal.
//!
//! This module turns an onion into the three texts and back. Writing the
//! texts into a JSON document and reading them out of one is the work of
//! the program around this library.
use crate::hex::{decode_hex, encode_hex, hex_string, spec_decode_hex, HexError};
use crate::onion::{onion_wf, payload_views, Onion, OnionView};
use crate::secp::{spec_commitment_from_vec, spec_public_key_from_slice, Commitment, PublicKey};
use vstd::prelude::*;

verus! {

/// The three members of the JSON object that stands for an onion.
#[derive(Debug, PartialEq, Eq)]
pub struct OnionJson {
    /// The ephemeral public key in hexadecimal.
    pub pubkey: String,
    /// The commitment in hexadecimal.
    pub commit: String,
    /// The encrypted payloads, each in hexadecimal.
    pub data: Vec<String>,
}

/// What the three members hold.
pub struct OnionJsonView {
    pub pubkey: Seq<char>,
    pub commit: Seq<char>,
    pub data: Seq<Seq<char>>,
}

/// The texts that a list of strings holds.
pub open spec fn text_views(v: Seq<String>) -> Seq<Seq<char>> {
    Seq::new(v.len(), |i: int| v[i]@)
}

impl View for OnionJson {
    type V = OnionJsonView;

    open spec fn view(&self) -> OnionJsonView {
        OnionJsonView { pubkey: self.pubkey@, commit: self.commit@, data: text_views(self.data@) }
    }
}

/// The kinds of `HexError`, without what was reported with them.
pub enum HexErrorKind {
    InvalidHex,
    InvalidPublicKey,
    InvalidEncoding,
}

impl View for HexError {
    type V = HexErrorKind;

    open spec fn view(&self) -> HexErrorKind {
        match *self {
            HexError::InvalidHex(_) => HexErrorKind::InvalidHex,
            HexError::InvalidPublicKey(_) => HexErrorKind::InvalidPublicKey,
            HexError::InvalidEncoding(_) => HexErrorKind::InvalidEncoding,
        }
    }
}

/// The hexadecimal form of each payload.
pub open spec fn spec_payloads_hex(payloads: Seq<Seq<u8>>) -> Seq<Seq<char>> {
    Seq::new(payloads.len(), |i: int| hex_string(payloads[i]))
}

/// The three members for an onion.
pub open spec fn spec_onion_json(onion: OnionView) -> OnionJsonView {
    OnionJsonView {
        pubkey: hex_string(onion.ephemeral_pubkey),
        commit: hex_string(onion.commit),
        data: spec_payloads_hex(onion.enc_payloads),
    }
}

/// The payloads that the first `n` texts stand for, or `None` where one of
/// them is no hexadecimal text.
pub open spec fn spec_payloads_from_hex(data: Seq<Seq<char>>, n: int) -> Option<Seq<Seq<u8>>>
    decreases n,
{
    if n <= 0 {
        Some(Seq::empty())
    } else {
        match spec_payloads_from_hex(data, n - 1) {
            None => None,
            Some(before) => match spec_decode_hex(data[n - 1]) {
                None => None,
                Some(bytes) => Some(before.push(bytes)),
            },
        }
    }
}

/// The onion that the three members stand for, or the kind of what is wrong
/// with the first member that is wrong. The key may be given compressed or
/// not; a commitment of fewer than 33 bytes is filled up with zeros, one of
/// more is cut off.
pub open spec fn spec_onion_from_json(json: OnionJsonView) -> Result<OnionView, HexErrorKind> {
    match spec_decode_hex(json.pubkey) {
        None => Err(HexErrorKind::InvalidHex),
        Some(key_bytes) => match spec_public_key_from_slice(key_bytes) {
            None => Err(HexErrorKind::InvalidPublicKey),
            Some(ephemeral_pubkey) => match spec_decode_hex(json.commit) {
                None => Err(HexErrorKind::InvalidHex),
                Some(commit_bytes) => match spec_payloads_from_hex(
                    json.data,
                    json.data.len() as int,
                ) {
                    None => Err(HexErrorKind::InvalidHex),
                    Some(enc_payloads) => Ok(
                        OnionView {
                            ephemeral_pubkey,
                            commit: spec_commitment_from_vec(commit_bytes),
                            enc_payloads,
                        },
                    ),
                },
            },
        },
    }
}

impl Onion {
    /// The three members of the JSON object for the onion.
    pub fn to_json(&self) -> (r: OnionJson)
        ensures
            r@ == spec_onion_json(self@),
            onion_wf(self@),
    {
        let ghost payloads = payload_views(self.enc_payloads@);
        let mut data: Vec<String> = Vec::new();
        let mut i: usize = 0;
        while i < self.enc_payloads.len()
            invariant
                i <= self.enc_payloads@.len(),
                payloads == payload_views(self.enc_payloads@),
                text_views(data@) == spec_payloads_hex(payloads).take(i as int),
            decreases self.enc_payloads@.len() - i,
        {
            let ghost before = text_views(data@);
            let text = encode_hex(self.enc_payloads[i].as_slice());
            data.push(text);
            proof {
                assert(text_views(data@) =~= before.push(text@));
                assert(spec_payloads_hex(payloads).take(i + 1) =~= spec_payloads_hex(
                    payloads,
                ).take(i as int).push(text@));
            }
            i += 1;
        }
        proof {
            assert(spec_payloads_hex(payloads).take(i as int) =~= spec_payloads_hex(payloads));
        }
        let pubkey = encode_hex(self.ephemeral_pubkey.as_bytes());
        let commit = encode_hex(&self.commit.0);
        proof {
            assert(self.commit@.len() == 33);
            assert forall|j: int| 0 <= j < payloads.len() implies (#[trigger] payloads[j]).len()
                <= u64::MAX by {
                assert(payloads[j] == self.enc_payloads@[j]@);
                assert(self.enc_payloads@[j].len() <= usize::MAX);
            }
        }
        OnionJson { pubkey, commit, data }
    }

    /// The onion that the three members stand for. What `to_json` wrote is
    /// read back as the onion it was written from.
    #[verifier::loop_isolation(false)]
    pub fn from_json(json: &OnionJson) -> (r: Result<Onion, HexError>)
        ensures
            match spec_onion_from_json(json@) {
                Ok(onion) => r is Ok && r->Ok_0@ == onion,
                Err(kind) => r is Err && r->Err_0@ == kind,
            },
            forall|onion: OnionView|
                onion_wf(onion) && json@ == #[trigger] spec_onion_json(onion) ==> r is Ok
                    && r->Ok_0@ == onion,
    {
        let key_bytes = match decode_hex(json.pubkey.as_str()) {
            Ok(b) => b,
            Err(e) => { return Err(e); },
        };
        let ephemeral_pubkey = match PublicKey::from_slice(key_bytes.as_slice()) {
            Ok(p) => p,
            Err(e) => { return Err(HexError::InvalidPublicKey(e)); },
        };
        let commit_bytes = match decode_hex(json.commit.as_str()) {
            Ok(b) => b,
            Err(e) => { return Err(e); },
        };
        let commit = Commitment::from_vec(commit_bytes.as_slice());
        let ghost texts = text_views(json.data@);
        let mut enc_payloads: Vec<Vec<u8>> = Vec::new();
        let mut i: usize = 0;
        while i < json.data.len()
            invariant
                i <= json.data@.len(),
                texts == text_views(json.data@),
                spec_payloads_from_hex(texts, i as int) == Some(payload_views(enc_payloads@)),
                forall|ps: Seq<Seq<u8>>|
                    texts == #[trigger] spec_payloads_hex(ps) ==> payload_views(enc_payloads@)
                        == ps.take(i as int),
            decreases json.data@.len() - i,
        {
            let ghost before = payload_views(enc_payloads@);
            proof {
                assert(texts[i as int] == json.data@[i as int]@);
            }
            let bytes = match decode_hex(json.data[i].as_str()) {
                Ok(b) => b,
                Err(e) => {
                    proof {
                        assert(spec_decode_hex(texts[i as int]) is None);
                        assert(spec_payloads_from_hex(texts, i + 1) is None);
                        lemma_payloads_from_hex_stops(texts, i + 1, texts.len() as int);
                    }
                    return Err(e);
                },
            };
            enc_payloads.push(bytes);
            proof {
                assert(payload_views(enc_payloads@) =~= before.push(bytes@));
                assert forall|ps: Seq<Seq<u8>>| texts == #[trigger] spec_payloads_hex(
                    ps,
                ) implies payload_views(enc_payloads@) == ps.take(i + 1) by {
                    assert(texts[i as int] == hex_string(ps[i as int]));
                    assert(ps.take(i + 1) =~= ps.take(i as int).push(ps[i as int]));
                }
            }
            i += 1;
        }
        proof {
            assert forall|onion: OnionView|
                onion_wf(onion) && json@ == #[trigger] spec_onion_json(
                    onion,
                ) implies ephemeral_pubkey@ == onion.ephemeral_pubkey && commit@ == onion.commit
                && payload_views(enc_payloads@) == onion.enc_payloads by {
                assert(spec_commitment_from_vec(onion.commit) =~= onion.commit);
                assert(texts == spec_payloads_hex(onion.enc_payloads));
                assert(onion.enc_payloads.take(i as int) =~= onion.enc_payloads);
            }
        }
        Ok(Onion { ephemeral_pubkey, commit, enc_payloads })
    }
}

/// Where one of the first texts is no hexadecimal text, the list stands for
/// no payloads.
pub proof fn lemma_payloads_from_hex_stops(data: Seq<Seq<char>>, n: int, m: int)
    requires
        0 <= n <= m,
        spec_payloads_from_hex(data, n) is None,
    ensures
        spec_payloads_from_hex(data, m) is None,
    decreases m - n,
{
    if n < m {
        lemma_payloads_from_hex_stops(data, n, m - 1);
    }
}

} // verus!
