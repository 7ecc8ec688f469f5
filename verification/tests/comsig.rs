use mwixnet::secp::{self, ComSigError, ComSignature};

use rand::{Rng, RngCore};

/// Test signing and verification of ComSignatures
#[test]
fn verify_comsig() -> Result<(), ComSigError> {
    let amount = rand::thread_rng().next_u64();
    let blind = secp::random_secret();
    let msg: [u8; 16] = rand::thread_rng().gen();
    let comsig = ComSignature::sign(amount, &blind, &msg.to_vec())?;

    let commit = secp::commit(amount, &blind).map_err(ComSigError::Secp256k1zkp)?;
    assert!(comsig.verify(&commit, &msg.to_vec()).is_ok());

    let wrong_msg: [u8; 16] = rand::thread_rng().gen();
    assert!(comsig.verify(&commit, &wrong_msg.to_vec()).is_err());

    let wrong_commit =
        secp::commit(amount, &secp::random_secret()).map_err(ComSigError::Secp256k1zkp)?;
    assert!(comsig.verify(&wrong_commit, &msg.to_vec()).is_err());

    Ok(())
}
