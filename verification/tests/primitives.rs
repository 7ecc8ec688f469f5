use mwixnet::bytes::{
    be_to_u64, bytes_eq, lex_less, put_bytes, put_prefixed, put_u32, put_u64, u32_to_be,
    u64_to_be, Reader, SerError,
};
use mwixnet::crypto::StreamCipherState;
use mwixnet::hex::{decode_hex, encode_hex, HexError};
use mwixnet::secp::{
    self, read_secret_key, ComSigError, ComSignature, Commitment, PublicKey, RangeProof, SecretKey,
};

use chacha20::cipher::{NewCipher, StreamCipher};
use secp256k1zkp::{ContextFlag, Secp256k1};

fn core_key(key: &SecretKey) -> secp256k1zkp::key::SecretKey {
    secp256k1zkp::key::SecretKey(*key.as_bytes())
}

/// Integers are written with the most significant byte first.
#[test]
fn big_endian_integers() {
    assert_eq!([1, 2, 3, 4, 5, 6, 7, 8], u64_to_be(0x0102_0304_0506_0708));
    assert_eq!([0, 0, 0, 0, 0, 0, 0, 0], u64_to_be(0));
    assert_eq!([0xff; 8], u64_to_be(u64::MAX));
    assert_eq!([0xde, 0xad, 0xbe, 0xef], u32_to_be(0xdead_beef));
    assert_eq!(0x0102_0304_0506_0708, be_to_u64(&[1, 2, 3, 4, 5, 6, 7, 8]));
    assert_eq!(0x0102, be_to_u64(&[1, 2]));
    assert_eq!(0, be_to_u64(&[]));
    assert_eq!(u64::MAX, be_to_u64(&[0xff; 8]));

    let mut out = vec![9u8];
    put_u64(&mut out, 258);
    put_u32(&mut out, 3);
    put_bytes(&mut out, &[7, 7]);
    put_prefixed(&mut out, &[5, 6, 7]);
    assert_eq!(
        vec![9, 0, 0, 0, 0, 0, 0, 1, 2, 0, 0, 0, 3, 7, 7, 0, 0, 0, 0, 0, 0, 0, 3, 5, 6, 7],
        out
    );
}

/// A cursor reads what was written, in order, and stops at the end.
#[test]
fn reader_reads_in_order() {
    let data = [1u8, 0, 0, 1, 0, 0, 0, 0, 0, 0, 0, 0, 5, 0, 0, 0, 0, 0, 0, 0, 2, 8, 9, 4];
    let mut reader = Reader::new(&data);
    assert_eq!(24, reader.remaining_len());
    assert_eq!(Ok(1), reader.read_u8());
    assert_eq!(Ok(0x0000_0100), reader.read_u32());
    assert_eq!(Ok(5), reader.read_u64());
    assert_eq!(Ok(vec![8, 9]), reader.read_bytes_len_prefix());
    assert_eq!(1, reader.remaining_len());
    assert_eq!(Err(SerError::UnexpectedEof), reader.read_u32());
    assert_eq!(Ok(vec![4]), reader.read_fixed_bytes(1));
    assert_eq!(Ok(vec![]), reader.read_fixed_bytes(0));
    assert_eq!(Err(SerError::UnexpectedEof), reader.read_u8());
    assert_eq!(Err(SerError::UnexpectedEof), reader.read_fixed_bytes(1));

    // A length that runs past the end is an error, however large it is.
    let huge = [0xffu8, 0xff, 0xff, 0xff, 0xff, 0xff, 0xff, 0xff, 1, 2];
    assert_eq!(Err(SerError::UnexpectedEof), Reader::new(&huge).read_bytes_len_prefix());
}

/// Byte strings are ordered like words in a dictionary.
#[test]
fn lexicographic_order() {
    assert!(lex_less(&[1, 2], &[1, 3]));
    assert!(lex_less(&[1, 2], &[1, 2, 0]));
    assert!(lex_less(&[], &[0]));
    assert!(lex_less(&[0, 0xff], &[1]));
    assert!(!lex_less(&[1, 2], &[1, 2]));
    assert!(!lex_less(&[1, 3], &[1, 2]));
    assert!(!lex_less(&[], &[]));
    assert!(!lex_less(&[2], &[1, 9]));
    assert!(bytes_eq(&[1, 2], &[1, 2]));
    assert!(!bytes_eq(&[1, 2], &[1, 2, 3]));
    assert!(!bytes_eq(&[1, 2], &[1, 3]));
    assert!(bytes_eq(&[], &[]));
}

/// Hexadecimal text is lowercase, two digits a byte; reading takes more.
#[test]
fn hexadecimal_text() {
    assert_eq!("", encode_hex(&[]));
    assert_eq!("000a0fff10", encode_hex(&[0, 10, 15, 255, 16]));
    assert_eq!(Ok(vec![0, 10, 15, 255, 16]), decode_hex("000a0fff10"));
    assert_eq!(Ok(vec![]), decode_hex(""));
    assert_eq!(Ok(vec![0, 0, 0, 255]), decode_hex("0x000000fF"));
    assert_eq!(Err(HexError::InvalidHex("abc".to_string())), decode_hex("abc"));
    assert!(matches!(decode_hex("zz"), Err(HexError::InvalidHex(_))));
    // Text outside ASCII is refused before it is cut into pairs.
    assert_eq!(Err(HexError::InvalidHex("a\u{e9}b".to_string())), decode_hex("a\u{e9}b"));
    assert_eq!(Err(HexError::InvalidHex("\u{e9}\u{e9}".to_string())), decode_hex("\u{e9}\u{e9}"));
    let all: Vec<u8> = (0..=255).collect();
    assert_eq!(Ok(all.clone()), decode_hex(&encode_hex(&all)));
}

/// The cipher is ChaCha20, and goes on where it left off.
#[test]
fn stream_cipher_is_chacha20() {
    let key = [7u8; 32];
    let nonce = *b"NONCE1234567";
    let mut reference =
        chacha20::ChaCha20::new(chacha20::Key::from_slice(&key), chacha20::Nonce::from_slice(&nonce));
    let mut expected = vec![0u8; 200];
    reference.apply_keystream(&mut expected);

    let mut cipher = StreamCipherState::new(key, nonce);
    let before = cipher.capacity();
    let mut got = cipher.apply_keystream(&vec![0u8; 63]);
    got.extend(cipher.apply_keystream(&vec![0u8; 2]));
    got.extend(cipher.apply_keystream(&vec![]));
    got.extend(cipher.apply_keystream(&vec![0u8; 135]));
    assert_eq!(expected, got);
    assert_eq!(before - 200, cipher.capacity());
    assert_ne!(vec![0u8; 200], got);

    // Running the same stretch of the stream twice gives the data back.
    let data: Vec<u8> = (0..100).collect();
    let once = StreamCipherState::new(key, nonce).apply_keystream(&data);
    assert_eq!(data, StreamCipherState::new(key, nonce).apply_keystream(&once));
}

/// Commitments are those of the curve library, and add up as they should.
#[test]
fn commitments() {
    let secp = Secp256k1::with_caps(ContextFlag::Commit);
    let blind = secp::random_secret();
    let excess = secp::random_secret();
    let commit = secp::commit(1_000, &blind).unwrap();
    assert_eq!(secp.commit(1_000, core_key(&blind)).unwrap().0, commit.0);
    assert_ne!(commit, secp::commit(1_001, &blind).unwrap());

    // commit + excess * G commits to the same value under blind + excess.
    let sum = blind.add(&excess).unwrap();
    assert_eq!(secp::commit(1_000, &sum).unwrap(), secp::add_excess(&commit, &excess).unwrap());
    // commit - value * H commits to the rest under the same blind.
    assert_eq!(secp::commit(600, &blind).unwrap(), secp::sub_value(&commit, 400).unwrap());
    assert_eq!(commit, secp::sub_value(&secp::commit(1_400, &blind).unwrap(), 400).unwrap());

    // Bytes that are no commitment are refused.
    assert!(secp::add_excess(&Commitment([0xffu8; 33]), &excess).is_err());
    assert!(secp::sub_value(&Commitment([0xffu8; 33]), 1).is_err());

    assert_eq!(Commitment([0u8; 33]), Commitment::from_vec(&[]));
    let mut short = [0u8; 33];
    short[0] = 4;
    assert_eq!(Commitment(short), Commitment::from_vec(&[4]));
    assert_eq!(Commitment([6u8; 33]), Commitment::from_vec(&[6u8; 40]));
    assert!(commit.equals(&commit));
    assert!(!commit.equals(&Commitment(short)));
}

/// Keys are those of the curve library.
#[test]
fn keys() {
    let secp = Secp256k1::new();
    let a = secp::random_secret();
    let b = secp::random_secret();
    assert_ne!(a, b);
    assert_eq!(Ok(a.clone()), SecretKey::from_slice(a.as_bytes()));
    assert!(SecretKey::from_slice(&[0u8; 32]).is_err());
    assert!(SecretKey::from_slice(&[0xffu8; 32]).is_err());
    assert!(SecretKey::from_slice(&[1u8; 31]).is_err());
    assert!(SecretKey::from_slice(&[1u8; 33]).is_err());

    let mut product = core_key(&a);
    product.mul_assign(&secp, &core_key(&b)).unwrap();
    assert_eq!(&product.0, a.mul(&b).unwrap().as_bytes());
    let mut sum = core_key(&a);
    sum.add_assign(&secp, &core_key(&b)).unwrap();
    assert_eq!(&sum.0, a.add(&b).unwrap().as_bytes());
    let one = {
        let mut bytes = [0u8; 32];
        bytes[31] = 1;
        SecretKey::from_slice(&bytes).unwrap()
    };
    assert_eq!(Ok(a.clone()), a.mul(&one));

    let point = secp256k1zkp::key::PublicKey::from_secret_key(&secp, &core_key(&a)).unwrap();
    let pubkey = PublicKey::from_secret_key(&a).unwrap();
    assert_eq!(&point.serialize_vec(&secp, true)[..], &pubkey.as_bytes()[..]);
    assert_eq!(Ok(pubkey.clone()), PublicKey::from_slice(pubkey.as_bytes()));
    assert_eq!(Ok(pubkey.clone()), PublicKey::from_slice(&point.serialize_vec(&secp, false)));
    assert!(PublicKey::from_slice(&[5u8; 33]).is_err());
    assert!(PublicKey::from_slice(&[]).is_err());

    // (a * G) * b is (a * b) * G, and both sides share one secret.
    assert_eq!(
        PublicKey::from_secret_key(&a.mul(&b).unwrap()).unwrap(),
        pubkey.mul(&b).unwrap()
    );
    let other = PublicKey::from_secret_key(&b).unwrap();
    let shared = secp::shared_secret(&pubkey, &b).unwrap();
    assert_eq!(shared, secp::shared_secret(&other, &a).unwrap());
    assert_ne!(shared, secp::shared_secret(&pubkey, &a).unwrap());

    let mut reader = Reader::new(a.as_bytes());
    assert_eq!(Ok(a.clone()), read_secret_key(&mut reader));
    assert_eq!(Err(SerError::CorruptedData), read_secret_key(&mut Reader::new(&[0u8; 32])));
    assert_eq!(Err(SerError::UnexpectedEof), read_secret_key(&mut Reader::new(&[1u8; 31])));
}

/// A range proof is checked against its commitment by the curve library.
#[test]
fn range_proofs() {
    let secp = Secp256k1::with_caps(ContextFlag::Commit);
    let blind = secp::random_secret();
    let nonce = core_key(&secp::random_secret());
    let rp = secp.bullet_proof(500, core_key(&blind), nonce.clone(), nonce, None, None).unwrap();
    let rangeproof = RangeProof::new(rp.bytes().to_vec()).unwrap();
    assert_eq!(rp.bytes(), rangeproof.bytes());
    assert!(rangeproof.verify(&secp::commit(500, &blind).unwrap()));
    assert!(!rangeproof.verify(&secp::commit(501, &blind).unwrap()));
    assert!(!RangeProof::new(vec![1u8; 675]).unwrap().verify(&secp::commit(500, &blind).unwrap()));
    assert!(!RangeProof::new(vec![]).unwrap().verify(&secp::commit(500, &blind).unwrap()));
    assert_eq!(None, RangeProof::new(vec![0u8; 676]));
    assert_eq!(rangeproof.clone(), rangeproof);
}

/// A signature by `sign` verifies under the signer's public key.
#[test]
fn schnorr_signatures() {
    let secp = Secp256k1::with_caps(ContextFlag::Full);
    let sk = secp::random_secret();
    let msg = [0x5au8; 32];
    let sig = secp::sign(&sk, &msg).unwrap();
    let pubkey = secp256k1zkp::key::PublicKey::from_secret_key(&secp, &core_key(&sk)).unwrap();
    let core_sig = secp256k1zkp::Signature::from_raw_data(&sig.0).unwrap();
    let core_msg = secp256k1zkp::Message::from(msg);
    assert!(secp256k1zkp::aggsig::verify_single(
        &secp,
        &core_sig,
        &core_msg,
        None,
        &pubkey,
        Some(&pubkey),
        None,
        false
    ));
    // The curve library's answer is handed on as it came.
    assert_eq!(Ok(secp::Signature([3u8; 64])), secp::signature_from(Ok([3u8; 64])));
    assert_eq!(
        Err(secp256k1zkp::Error::CannotCreateSignature),
        secp::signature_from(Err(secp256k1zkp::Error::CannotCreateSignature))
    );
    assert_ne!(sig, secp::sign(&sk, &msg).unwrap());

    let other_msg = secp256k1zkp::Message::from([0x5bu8; 32]);
    assert!(!secp256k1zkp::aggsig::verify_single(
        &secp,
        &core_sig,
        &other_msg,
        None,
        &pubkey,
        Some(&pubkey),
        None,
        false
    ));
}

/// The challenge of a commitment signature is the Blake2b digest of
/// commitment, nonce commitment and message.
#[test]
fn comsig_challenge_is_blake2b() {
    let commit = secp::commit(5, &secp::random_secret()).unwrap();
    let nonce = secp::commit(6, &secp::random_secret()).unwrap();
    let msg = vec![1u8, 2, 3];
    let mut hasher = blake2_rfc::blake2b::Blake2b::new(32);
    hasher.update(&commit.0);
    hasher.update(&nonce.0);
    hasher.update(&msg);
    let digest = hasher.finalize();
    let e = ComSignature::calc_challenge(&commit, &nonce, &msg).unwrap();
    assert_eq!(digest.as_bytes(), &e.as_bytes()[..]);
}

/// Signing is a function of the nonces; the binary and the hexadecimal form
/// come back as the signature.
#[test]
fn comsig_forms() {
    let blind = secp::random_secret();
    let k1 = secp::random_secret();
    let k2 = secp::random_secret();
    let msg = vec![9u8; 20];
    let sig = ComSignature::sign_with_nonces(77, &blind, &msg, &k1, &k2).unwrap();
    assert_eq!(sig, ComSignature::sign_with_nonces(77, &blind, &msg, &k1, &k2).unwrap());
    let commit = secp::commit(77, &blind).unwrap();
    assert_eq!(Ok(()), sig.verify(&commit, &msg));
    assert!(matches!(
        sig.verify(&secp::commit(78, &blind).unwrap(), &msg),
        Err(ComSigError::InvalidSig)
    ));
    assert!(matches!(sig.verify(&commit, &vec![9u8; 21]), Err(ComSigError::InvalidSig)));
    assert!(matches!(
        sig.verify(&Commitment([0xffu8; 33]), &msg),
        Err(ComSigError::Secp256k1zkp(_))
    ));
    // No signature can be made for the amount zero.
    assert!(matches!(
        ComSignature::sign(0, &blind, &msg),
        Err(ComSigError::Secp256k1zkp(_))
    ));

    let mut bytes: Vec<u8> = Vec::new();
    sig.write(&mut bytes);
    assert_eq!(97, bytes.len());
    let nonce_commit =
        Secp256k1::with_caps(ContextFlag::Commit).commit_blind(core_key(&k1), core_key(&k2)).unwrap();
    assert_eq!(&nonce_commit.0[..], &bytes[..33]);
    assert_eq!(Ok(sig.clone()), ComSignature::read(&mut Reader::new(&bytes)));
    assert_eq!(
        Err(SerError::UnexpectedEof),
        ComSignature::read(&mut Reader::new(&bytes[..96]))
    );
    let mut zero_s = bytes.clone();
    for b in zero_s[33..65].iter_mut() {
        *b = 0;
    }
    assert_eq!(Err(SerError::CorruptedData), ComSignature::read(&mut Reader::new(&zero_s)));

    let text = secp::serialize(&sig);
    assert_eq!(encode_hex(&bytes), text);
    assert_eq!(Ok(sig.clone()), secp::deserialize(&text));
    assert!(matches!(secp::deserialize("xyz"), Err(HexError::InvalidHex(_))));
    assert_eq!(
        Err(HexError::InvalidEncoding(SerError::UnexpectedEof)),
        secp::deserialize(&text[..100])
    );
    assert_eq!(
        sig,
        ComSignature::new(
            &Commitment(nonce_commit.0),
            &SecretKey::from_slice(&bytes[33..65]).unwrap(),
            &SecretKey::from_slice(&bytes[65..97]).unwrap()
        )
    );
}
