use mwixnet::bytes::SerError;
use mwixnet::json::OnionJson;
use mwixnet::onion::{calc_blinding_factor, new_stream_cipher, Hop, Onion, OnionError};
use mwixnet::secp::{self, Commitment, PublicKey, RangeProof, SecretKey};
use mwixnet::sender::{create_onion, next_ephemeral_pubkey};
use mwixnet::types::Payload;

use chacha20::cipher::{NewCipher, StreamCipher};
use hmac::Mac;
use secp256k1zkp::{ContextFlag, Secp256k1};
use sha2::Digest;

fn bullet_proof(value: u64, blind: &SecretKey) -> RangeProof {
    let secp = Secp256k1::with_caps(ContextFlag::Commit);
    let n1 = secp256k1zkp::key::SecretKey(*secp::random_secret().as_bytes());
    let rp = secp
        .bullet_proof(
            value,
            secp256k1zkp::key::SecretKey(*blind.as_bytes()),
            n1.clone(),
            n1.clone(),
            None,
            None,
        )
        .unwrap();
    RangeProof::new(rp.bytes().to_vec()).unwrap()
}

/// Test end-to-end Onion creation and unwrapping logic.
#[test]
fn onion() {
    let total_fee: u64 = 10;
    let fee_per_hop: u64 = 2;
    let in_value: u64 = 1000;
    let out_value: u64 = in_value - total_fee;
    let blind = secp::random_secret();
    let commitment = secp::commit(in_value, &blind).unwrap();

    let mut hops: Vec<Hop> = Vec::new();
    let mut keys: Vec<SecretKey> = Vec::new();
    let mut final_commit = secp::commit(out_value, &blind).unwrap();
    let mut final_blind = blind.clone();
    for i in 0..5 {
        keys.push(secp::random_secret());

        let excess = secp::random_secret();

        final_blind = final_blind.add(&excess).unwrap();
        final_commit = secp::add_excess(&final_commit, &excess).unwrap();
        let rangeproof = if i == 4 {
            let rp = bullet_proof(out_value, &final_blind);
            assert!(rp.verify(&final_commit));
            Some(rp)
        } else {
            None
        };

        hops.push(Hop {
            pubkey: PublicKey::from_secret_key(&keys[i]).unwrap(),
            payload: Payload { excess, fee: (fee_per_hop as u32) as u64, rangeproof },
        });
    }

    let mut onion_packet = create_onion(&commitment, &hops).unwrap();

    let mut payload =
        Payload { excess: secp::random_secret(), fee: (fee_per_hop as u32) as u64, rangeproof: None };
    for i in 0..5 {
        let peeled = onion_packet.peel_layer(&keys[i]).unwrap();
        payload = peeled.0;
        onion_packet = peeled.1;
    }

    assert!(payload.rangeproof.is_some());
    assert_eq!(payload.rangeproof.unwrap(), hops[4].payload.rangeproof.clone().unwrap());
    assert_eq!(secp::commit(out_value, &final_blind).unwrap(), final_commit);
    assert_eq!(payload.fee, (fee_per_hop as u32) as u64);
}

fn three_hops() -> (Vec<Hop>, Vec<SecretKey>) {
    let mut hops: Vec<Hop> = Vec::new();
    let mut keys: Vec<SecretKey> = Vec::new();
    for i in 0..3u64 {
        let key = secp::random_secret();
        hops.push(Hop {
            pubkey: PublicKey::from_secret_key(&key).unwrap(),
            payload: Payload {
                excess: secp::random_secret(),
                fee: 100 + i,
                rangeproof: if i == 2 { RangeProof::new(vec![i as u8; 40]) } else { None },
            },
        });
        keys.push(key);
    }
    (hops, keys)
}

/// Every hop is handed exactly the payload that was made for it; the onion
/// that is left has no payloads, and its commitment is the sender's with
/// every excess added and every fee taken off.
#[test]
fn onion_round_trip_gives_each_hop_its_payload() {
    let value: u64 = 5_000;
    let blind = secp::random_secret();
    let commitment = secp::commit(value, &blind).unwrap();
    let (hops, keys) = three_hops();
    let session = secp::random_secret();
    let mut onion = Onion::create_with_session(&commitment, &hops, &session).unwrap();
    assert_eq!(PublicKey::from_secret_key(&session).unwrap(), onion.ephemeral_pubkey);
    assert_eq!(commitment, onion.commit);
    assert_eq!(3, onion.enc_payloads.len());

    let mut expected_commit = commitment;
    let mut expected_blind = blind.clone();
    let mut expected_value = value;
    for i in 0..3 {
        let expected_pubkey = next_ephemeral_pubkey(&onion, &keys[i]).unwrap();
        let (payload, next) = onion.peel_layer(&keys[i]).unwrap();
        assert_eq!(hops[i].payload, payload);
        expected_commit = secp::sub_value(
            &secp::add_excess(&expected_commit, &payload.excess).unwrap(),
            payload.fee,
        )
        .unwrap();
        expected_blind = expected_blind.add(&payload.excess).unwrap();
        expected_value -= payload.fee;
        assert_eq!(expected_commit, next.commit);
        assert_eq!(expected_pubkey, next.ephemeral_pubkey);
        assert_eq!(2 - i, next.enc_payloads.len());
        onion = next;
    }
    assert!(onion.enc_payloads.is_empty());
    assert_eq!(secp::commit(expected_value, &expected_blind).unwrap(), onion.commit);
}

/// The same session key gives the same onion; another key another onion.
#[test]
fn onion_is_made_from_the_session_key() {
    let commitment = secp::commit(77, &secp::random_secret()).unwrap();
    let (hops, _keys) = three_hops();
    let session = secp::random_secret();
    let first = Onion::create_with_session(&commitment, &hops, &session).unwrap();
    let again = Onion::create_with_session(&commitment, &hops, &session).unwrap();
    assert_eq!(first, again);
    let other = Onion::create_with_session(&commitment, &hops, &secp::random_secret()).unwrap();
    assert_ne!(first, other);
    // Each payload is as long as its plain form.
    for i in 0..3 {
        assert_eq!(hops[i].payload.serialize().unwrap().len(), first.enc_payloads[i].len());
    }
}

/// After one peel the ephemeral key is the old one times the SHA-256 digest
/// of the old key and the shared secret.
#[test]
fn peel_reblinds_the_ephemeral_key() {
    let secp = Secp256k1::new();
    let commitment = secp::commit(77, &secp::random_secret()).unwrap();
    let (hops, keys) = three_hops();
    let onion = create_onion(&commitment, &hops).unwrap();
    let (_, peeled) = onion.peel_layer(&keys[0]).unwrap();

    let e = secp256k1zkp::key::PublicKey::from_slice(&secp, onion.ephemeral_pubkey.as_bytes())
        .unwrap();
    let k = secp256k1zkp::key::SecretKey(*keys[0].as_bytes());
    let shared = secp256k1zkp::ecdh::SharedSecret::new(&secp, &e, &k);
    let mut hasher = sha2::Sha256::default();
    hasher.update(onion.ephemeral_pubkey.as_bytes());
    hasher.update(&shared[0..32]);
    let blind = secp256k1zkp::key::SecretKey::from_slice(&secp, &hasher.finalize()).unwrap();
    let mut expected = e.clone();
    expected.mul_assign(&secp, &blind).unwrap();

    assert_eq!(&expected.serialize_vec(&secp, true)[..], &peeled.ephemeral_pubkey.as_bytes()[..]);
    assert_eq!(peeled.ephemeral_pubkey, next_ephemeral_pubkey(&onion, &keys[0]).unwrap());

    let mut shared_bytes = [0u8; 32];
    shared_bytes.copy_from_slice(&shared[0..32]);
    assert_eq!(
        &blind.0[..],
        &calc_blinding_factor(&shared_bytes, &onion.ephemeral_pubkey).unwrap().as_bytes()[..]
    );
    assert_eq!(shared_bytes, secp::shared_secret(&onion.ephemeral_pubkey, &keys[0]).unwrap());
}

/// The stream of a layer is ChaCha20 under the HMAC-SHA256 tag of the shared
/// secret, with the fixed nonce, run on from payload to payload.
#[test]
fn layer_stream_is_chacha20_under_hmac_key() {
    let shared = [42u8; 32];
    let mut mac = hmac::Hmac::<sha2::Sha256>::new_from_slice(b"MWIXNET").unwrap();
    mac.update(&shared);
    let key = mac.finalize().into_bytes();
    let mut reference = chacha20::ChaCha20::new(
        chacha20::Key::from_slice(&key[0..32]),
        chacha20::Nonce::from_slice(b"NONCE1234567"),
    );
    let mut first = vec![1u8; 100];
    let mut second = vec![2u8; 70];
    reference.apply_keystream(&mut first);
    reference.apply_keystream(&mut second);

    let mut cipher = new_stream_cipher(&shared).unwrap();
    assert_eq!(first, cipher.apply_keystream(&vec![1u8; 100]));
    assert_eq!(second, cipher.apply_keystream(&vec![2u8; 70]));
    assert_ne!(vec![1u8; 100], first);
}

/// Peeling with a key that is not the hop's gives no payload.
#[test]
fn peel_with_wrong_key_fails() {
    let blind = SecretKey::from_slice(&[1u8; 32]).unwrap();
    let hop_key = SecretKey::from_slice(&[2u8; 32]).unwrap();
    let other_key = SecretKey::from_slice(&[3u8; 32]).unwrap();
    let session = SecretKey::from_slice(&[4u8; 32]).unwrap();
    let commitment = secp::commit(77, &blind).unwrap();
    let hop = Hop {
        pubkey: PublicKey::from_secret_key(&hop_key).unwrap(),
        payload: Payload {
            excess: SecretKey::from_slice(&[5u8; 32]).unwrap(),
            fee: 9,
            rangeproof: RangeProof::new(vec![1u8; 40]),
        },
    };
    let onion = Onion::create_with_session(&commitment, &vec![hop.clone()], &session).unwrap();
    assert_eq!(Ok(hop.payload), onion.peel_layer(&hop_key).map(|p| p.0));
    // With these keys the decrypted bytes begin like a payload without a
    // range proof; what lies behind it gives them away.
    let result = onion.peel_layer(&other_key);
    assert_eq!(Err(OnionError::DeserializationError(SerError::CorruptedData)), result);
}

/// An onion without payloads has nothing to peel.
#[test]
fn peel_without_payloads_fails() {
    let onion = Onion {
        ephemeral_pubkey: PublicKey::from_secret_key(&secp::random_secret()).unwrap(),
        commit: Commitment([8u8; 33]),
        enc_payloads: vec![],
    };
    assert_eq!(
        Err(OnionError::DeserializationError(SerError::UnexpectedEof)),
        onion.peel_layer(&secp::random_secret())
    );
}

/// A commitment that is no curve point cannot be moved on.
#[test]
fn peel_with_bad_commitment_fails() {
    let key = secp::random_secret();
    let hop = Hop {
        pubkey: PublicKey::from_secret_key(&key).unwrap(),
        payload: Payload { excess: secp::random_secret(), fee: 5, rangeproof: None },
    };
    let onion = create_onion(&Commitment([0xffu8; 33]), &vec![hop]).unwrap();
    assert!(matches!(onion.peel_layer(&key), Err(OnionError::CalcCommitError(_))));
}

/// A fee that does not fit 32 bits has no binary form, so no onion is made.
#[test]
fn create_with_large_fee_fails() {
    let hop = Hop {
        pubkey: PublicKey::from_secret_key(&secp::random_secret()).unwrap(),
        payload: Payload { excess: secp::random_secret(), fee: 1 << 32, rangeproof: None },
    };
    let commitment = secp::commit(77, &secp::random_secret()).unwrap();
    assert_eq!(
        Err(OnionError::SerializationError(SerError::FeeOutOfRange)),
        create_onion(&commitment, &vec![hop])
    );
}

/// The binary form of an onion, byte by byte, and back.
#[test]
fn onion_binary_form() {
    let pubkey = PublicKey::from_secret_key(&secp::random_secret()).unwrap();
    let onion = Onion {
        ephemeral_pubkey: pubkey.clone(),
        commit: Commitment([3u8; 33]),
        enc_payloads: vec![vec![0xaa, 0xbb], vec![], vec![0xcc]],
    };
    let bytes = onion.serialize().unwrap();
    let mut expected: Vec<u8> = Vec::new();
    expected.extend_from_slice(pubkey.as_bytes());
    expected.extend_from_slice(&[3u8; 33]);
    expected.extend_from_slice(&[0, 0, 0, 0, 0, 0, 0, 3]);
    expected.extend_from_slice(&[0, 0, 0, 0, 0, 0, 0, 2, 0xaa, 0xbb]);
    expected.extend_from_slice(&[0, 0, 0, 0, 0, 0, 0, 0]);
    expected.extend_from_slice(&[0, 0, 0, 0, 0, 0, 0, 1, 0xcc]);
    assert_eq!(expected, bytes);
    assert_eq!(Ok(onion.clone()), Onion::deserialize(&bytes));

    // What follows the onion is not looked at.
    let mut longer = bytes.clone();
    longer.push(0x55);
    assert_eq!(Ok(onion), Onion::deserialize(&longer));

    // Bytes that are missing, and a key that is no point, are errors.
    assert_eq!(Err(SerError::UnexpectedEof), Onion::deserialize(&bytes[..bytes.len() - 1]));
    assert_eq!(Err(SerError::UnexpectedEof), Onion::deserialize(&bytes[..20]));
    let mut bad = bytes.clone();
    bad[0] = 0x05;
    assert_eq!(Err(SerError::CorruptedData), Onion::deserialize(&bad));
}

/// The binary form of a payload, byte by byte, and back.
#[test]
fn payload_binary_form() {
    let excess = secp::random_secret();
    let payload =
        Payload { excess: excess.clone(), fee: 0x0102_0304, rangeproof: RangeProof::new(vec![7u8; 3]) };
    let bytes = payload.serialize().unwrap();
    let mut expected: Vec<u8> = Vec::new();
    expected.extend_from_slice(excess.as_bytes());
    expected.extend_from_slice(&[1, 2, 3, 4]);
    expected.extend_from_slice(&[1, 0, 0, 0, 0, 0, 0, 0, 3, 7, 7, 7]);
    assert_eq!(expected, bytes);
    assert_eq!(Ok(payload), Payload::deserialize(&bytes));

    let bare = Payload { excess: excess.clone(), fee: 0, rangeproof: None };
    let bytes = bare.serialize().unwrap();
    assert_eq!(37, bytes.len());
    assert_eq!(0, bytes[36]);
    assert_eq!(Ok(bare), Payload::deserialize(&bytes));

    // Nothing may follow a payload.
    let mut longer = bytes.clone();
    longer.push(0);
    assert_eq!(Err(SerError::CorruptedData), Payload::deserialize(&longer));

    // A fee of more than 32 bits has no binary form.
    let large = Payload { excess: excess.clone(), fee: 0x1_0000_0000, rangeproof: None };
    assert_eq!(Err(SerError::FeeOutOfRange), large.serialize());

    // An excess that is no valid scalar, and a proof that is too long.
    let mut zero_excess = vec![0u8; 32];
    zero_excess.extend_from_slice(&[0, 0, 0, 1, 0]);
    assert_eq!(Err(SerError::CorruptedData), Payload::deserialize(&zero_excess));
    let mut long_proof: Vec<u8> = excess.as_bytes().to_vec();
    long_proof.extend_from_slice(&[0, 0, 0, 1, 1, 0, 0, 0, 0, 0, 0, 2, 0xa4]);
    long_proof.extend_from_slice(&vec![0u8; 676]);
    assert_eq!(Err(SerError::CorruptedData), Payload::deserialize(&long_proof));
    assert_eq!(Err(SerError::UnexpectedEof), Payload::deserialize(&excess.as_bytes()[..]));
}

/// The three JSON members of an onion, and back.
#[test]
fn onion_json_form() {
    let pubkey = PublicKey::from_secret_key(&secp::random_secret()).unwrap();
    let onion = Onion {
        ephemeral_pubkey: pubkey.clone(),
        commit: Commitment([0xabu8; 33]),
        enc_payloads: vec![vec![0x00, 0x0f, 0xf0], vec![]],
    };
    let json = onion.to_json();
    assert_eq!(mwixnet::hex::encode_hex(pubkey.as_bytes()), json.pubkey);
    assert_eq!("ab".repeat(33), json.commit);
    assert_eq!(vec!["000ff0".to_string(), "".to_string()], json.data);
    assert_eq!(Ok(onion.clone()), Onion::from_json(&json));

    // An uncompressed key stands for the same onion.
    let secp = Secp256k1::new();
    let point = secp256k1zkp::key::PublicKey::from_slice(&secp, pubkey.as_bytes()).unwrap();
    let uncompressed = OnionJson {
        pubkey: mwixnet::hex::encode_hex(&point.serialize_vec(&secp, false)),
        commit: json.commit.clone(),
        data: json.data.clone(),
    };
    assert_eq!(Ok(onion.clone()), Onion::from_json(&uncompressed));

    // A short commitment is filled up with zeros.
    let short = OnionJson { pubkey: json.pubkey.clone(), commit: "0809".to_string(), data: vec![] };
    let mut filled = [0u8; 33];
    filled[0] = 8;
    filled[1] = 9;
    assert_eq!(Commitment(filled), Onion::from_json(&short).unwrap().commit);

    // Text that is no hexadecimal, and bytes that are no key.
    let bad_hex =
        OnionJson { pubkey: json.pubkey.clone(), commit: json.commit.clone(), data: vec!["0g".to_string()] };
    assert!(matches!(Onion::from_json(&bad_hex), Err(mwixnet::hex::HexError::InvalidHex(_))));
    let bad_key = OnionJson { pubkey: "05".repeat(33), commit: json.commit.clone(), data: vec![] };
    assert!(matches!(
        Onion::from_json(&bad_key),
        Err(mwixnet::hex::HexError::InvalidPublicKey(_))
    ));
}
