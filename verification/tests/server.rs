use mwixnet::onion::{Hop, Onion, OnionError};
use mwixnet::secp::{self, ComSignature, Commitment, PublicKey, RangeProof, SecretKey};
use mwixnet::sender::{create_onion, next_ephemeral_pubkey};
use mwixnet::server::{ChainStatus, RoundError, RoundPlan, ServerImpl, SwapError, UtxoLookup};
use mwixnet::store::{SwapData, SwapStatus, SwapStore};
use mwixnet::types::{Input, Output, OutputFeatures, Payload};

use grin_core::global::{self, ChainTypes};
use secp256k1zkp::{ContextFlag, Secp256k1};

/// A node that knows a set of unspent outputs and keeps what is posted.
struct MockGrinNode {
    utxos: Vec<Commitment>,
    txns_posted: Vec<grin_core::core::Transaction>,
}

impl MockGrinNode {
    fn lookup(&self, commit: &Commitment) -> UtxoLookup {
        if self.utxos.contains(commit) {
            UtxoLookup::Unspent(OutputFeatures::Plain)
        } else {
            UtxoLookup::NotFound
        }
    }
}

fn core_key(key: &SecretKey) -> secp256k1zkp::key::SecretKey {
    secp256k1zkp::key::SecretKey(*key.as_bytes())
}

fn core_commit(commit: &Commitment) -> secp256k1zkp::pedersen::Commitment {
    secp256k1zkp::pedersen::Commitment(commit.0)
}

fn core_features(features: OutputFeatures) -> grin_core::core::OutputFeatures {
    match features {
        OutputFeatures::Plain => grin_core::core::OutputFeatures::Plain,
        OutputFeatures::Coinbase => grin_core::core::OutputFeatures::Coinbase,
    }
}

fn core_proof(rangeproof: &RangeProof) -> secp256k1zkp::pedersen::RangeProof {
    let mut buf = [0u8; secp256k1zkp::constants::MAX_PROOF_SIZE];
    buf[..rangeproof.bytes().len()].copy_from_slice(rangeproof.bytes());
    secp256k1zkp::pedersen::RangeProof { proof: buf, plen: rangeproof.bytes().len() }
}

fn new_server(server_key: &SecretKey, utxos: &Vec<&Commitment>) -> (ServerImpl, MockGrinNode) {
    global::set_local_chain_type(ChainTypes::AutomatedTesting);
    let node = MockGrinNode { utxos: utxos.iter().map(|c| **c).collect(), txns_posted: Vec::new() };
    let server = ServerImpl::new(server_key.clone(), SwapStore::new());
    (server, node)
}

fn swap(
    server: &mut ServerImpl,
    node: &MockGrinNode,
    onion: &Onion,
    comsig: &ComSignature,
) -> Result<(), SwapError> {
    server.swap(onion, comsig, &node.lookup(&onion.commit))
}

fn range_proof(value: u64, fee: u64, input_blind: &SecretKey, hop_excess: &SecretKey) -> RangeProof {
    let secp = Secp256k1::with_caps(ContextFlag::Commit);
    let nonce = core_key(&secp::random_secret());
    let blind = input_blind.add(hop_excess).unwrap();
    let rp = secp
        .bullet_proof(value - fee, core_key(&blind), nonce.clone(), nonce.clone(), None, None)
        .unwrap();
    RangeProof::new(rp.bytes().to_vec()).unwrap()
}

fn new_hop(
    server_key: &SecretKey,
    hop_excess: &SecretKey,
    fee: u64,
    rangeproof: Option<RangeProof>,
) -> Hop {
    Hop {
        pubkey: PublicKey::from_secret_key(server_key).unwrap(),
        payload: Payload { excess: hop_excess.clone(), fee: (fee as u32) as u64, rangeproof },
    }
}

/// What a wallet does for a round: it adds an output of its own for the
/// fees that are left over, and signs one kernel for all excesses.
fn assemble_tx(
    inputs: &Vec<Input>,
    outputs: &Vec<Output>,
    fee_base: u64,
    total_fee: u64,
    excesses: &Vec<SecretKey>,
) -> grin_core::core::Transaction {
    let secp = Secp256k1::with_caps(ContextFlag::Commit);
    let txn_inputs: Vec<grin_core::core::Input> = inputs
        .iter()
        .map(|i| grin_core::core::Input::new(core_features(i.features), core_commit(&i.commit)))
        .collect();
    let mut txn_outputs: Vec<grin_core::core::Output> = outputs
        .iter()
        .map(|o| {
            grin_core::core::Output::new(
                core_features(o.features),
                core_commit(&o.commit),
                core_proof(&o.rangeproof),
            )
        })
        .collect();
    let mut txn_excesses: Vec<secp256k1zkp::key::SecretKey> =
        excesses.iter().map(|e| core_key(e)).collect();
    let mut kernel_fee = total_fee;

    let fee_required = grin_core::core::TransactionBody::weight_by_iok(
        inputs.len() as u64,
        (outputs.len() + 1) as u64,
        1,
    ) * fee_base;
    let fee_to_spend = grin_core::core::TransactionBody::weight_by_iok(1, 0, 0) * fee_base;
    if total_fee > fee_required + fee_to_spend {
        let amount = total_fee - fee_required;
        kernel_fee -= amount;
        let blind = core_key(&secp::random_secret());
        let nonce = core_key(&secp::random_secret());
        let commit = secp.commit(amount, blind.clone()).unwrap();
        let rp = secp
            .bullet_proof(amount, blind.clone(), nonce.clone(), nonce.clone(), None, None)
            .unwrap();
        txn_outputs.push(grin_core::core::Output::new(
            grin_core::core::OutputFeatures::Plain,
            commit,
            rp,
        ));
        txn_excesses.push(blind);
    }

    let kern_excess = secp.blind_sum(txn_excesses, Vec::new()).unwrap();
    let mut kernel = grin_core::core::TxKernel::with_features(grin_core::core::KernelFeatures::Plain {
        fee: grin_core::core::FeeFields::new(0, kernel_fee).unwrap(),
    });
    let msg = kernel.msg_to_sign().unwrap();
    let mut msg_bytes = [0u8; 32];
    msg_bytes.copy_from_slice(&msg[..]);
    kernel.excess = secp.commit(0, kern_excess.clone()).unwrap();
    let signer = SecretKey::from_slice(&kern_excess.0).unwrap();
    let sig = secp::sign(&signer, &msg_bytes).unwrap();
    kernel.excess_sig = secp256k1zkp::Signature::from_raw_data(&sig.0).unwrap();
    kernel.verify().unwrap();

    grin_core::core::Transaction::new(
        grin_core::core::Inputs::from(txn_inputs.as_slice()),
        &txn_outputs,
        &[kernel],
    )
}

/// One round as the program around the library runs it: the node is asked
/// about every candidate, the wallet makes the transaction of the plan, the
/// node is given it, and the swaps are marked.
fn execute_round(server: &mut ServerImpl, node: &mut MockGrinNode) -> Option<grin_core::core::Transaction> {
    let candidates = server.round_candidates();
    let chain: Vec<ChainStatus> = candidates
        .iter()
        .map(|s| ChainStatus {
            input_spendable: node.utxos.contains(&s.input.commit),
            output_unspent: node.utxos.contains(&s.output_commit),
        })
        .collect();
    let plan: RoundPlan = match server.plan_round(&chain).unwrap() {
        Some(p) => p,
        None => return None,
    };
    let tx = assemble_tx(
        &plan.inputs(),
        &plan.outputs().unwrap(),
        plan.fee_base,
        plan.total_fee,
        &plan.excesses(),
    );
    node.txns_posted.push(tx.clone());
    let kernel_hash = grin_core::core::hash::Hashed::hash(tx.kernels().first().unwrap());
    let mut hash_bytes = [0u8; 32];
    hash_bytes.copy_from_slice(kernel_hash.as_bytes());
    server.complete_round(&plan, mwixnet::types::Hash(hash_bytes)).unwrap();
    Some(tx)
}

/// Single hop to demonstrate request validation and onion unwrapping.
#[test]
fn swap_lifecycle() {
    let value: u64 = 200_000_000;
    let fee: u64 = 50_000_000;
    let blind = secp::random_secret();
    let input_commit = secp::commit(value, &blind).unwrap();

    let server_key = secp::random_secret();
    let hop_excess = secp::random_secret();
    let rangeproof = range_proof(value, fee, &blind, &hop_excess);
    let hop = new_hop(&server_key, &hop_excess, fee, Some(rangeproof.clone()));

    let onion = create_onion(&input_commit, &vec![hop]).unwrap();
    let comsig = ComSignature::sign(value, &blind, &onion.serialize().unwrap()).unwrap();

    let (mut server, mut node) = new_server(&server_key, &vec![&input_commit]);
    swap(&mut server, &node, &onion, &comsig).unwrap();

    // Make sure entry is added to server.
    let output_commit = secp::add_excess(&input_commit, &hop_excess).unwrap();
    let output_commit = secp::sub_value(&output_commit, fee).unwrap();

    let expected = SwapData {
        excess: hop_excess.clone(),
        output_commit: output_commit.clone(),
        rangeproof: Some(rangeproof),
        input: Input::new(OutputFeatures::Plain, input_commit.clone()),
        fee,
        onion: Onion {
            ephemeral_pubkey: next_ephemeral_pubkey(&onion, &server_key).unwrap(),
            commit: output_commit.clone(),
            enc_payloads: vec![],
        },
        status: SwapStatus::Unprocessed,
    };

    {
        let store = server.store();
        assert_eq!(1, store.swaps_iter().unwrap().len());
        assert!(store.swap_exists(&input_commit).unwrap());
        assert_eq!(expected, store.get_swap(&input_commit).unwrap());
    }

    let tx = execute_round(&mut server, &mut node);
    assert!(tx.is_some());

    {
        // check that status was updated
        let store = server.store();
        assert!(match store.get_swap(&input_commit).unwrap().status {
            SwapStatus::InProcess { kernel_hash } =>
                kernel_hash.0[..]
                    == *grin_core::core::hash::Hashed::hash(tx.unwrap().kernels().first().unwrap())
                        .as_bytes(),
            _ => false,
        });
    }

    // check that the transaction was posted
    let posted_txns = node.txns_posted.clone();
    assert_eq!(posted_txns.len(), 1);
    let posted_txn: grin_core::core::Transaction = posted_txns.into_iter().next().unwrap();
    assert!(grin_core::core::Committed::inputs_committed(&posted_txn)
        .contains(&core_commit(&input_commit)));
    assert!(grin_core::core::Committed::outputs_committed(&posted_txn)
        .contains(&core_commit(&output_commit)));

    posted_txn.validate(grin_core::core::Weighting::AsTransaction).unwrap();
}

/// Returns InvalidPayloadLength when too many payloads are provided.
#[test]
fn swap_too_many_payloads() {
    let value: u64 = 200_000_000;
    let fee: u64 = 50_000_000;
    let blind = secp::random_secret();
    let input_commit = secp::commit(value, &blind).unwrap();

    let server_key = secp::random_secret();
    let hop_excess = secp::random_secret();
    let rangeproof = range_proof(value, fee, &blind, &hop_excess);
    let hop = new_hop(&server_key, &hop_excess, fee, Some(rangeproof));

    let hops: Vec<Hop> = vec![hop.clone(), hop.clone()]; // Multiple payloads
    let onion = create_onion(&input_commit, &hops).unwrap();
    let comsig = ComSignature::sign(value, &blind, &onion.serialize().unwrap()).unwrap();

    let (mut server, node) = new_server(&server_key, &vec![&input_commit]);
    let result = swap(&mut server, &node, &onion, &comsig);
    assert_eq!(Err(SwapError::InvalidPayloadLength { expected: 1, found: 2 }), result);

    // Make sure no entry is added to the store
    assert_eq!(0, server.store().swaps_iter().unwrap().len());
}

/// Returns InvalidComSignature when ComSignature fails to verify.
#[test]
fn swap_invalid_com_signature() {
    let value: u64 = 200_000_000;
    let fee: u64 = 50_000_000;
    let blind = secp::random_secret();
    let input_commit = secp::commit(value, &blind).unwrap();

    let server_key = secp::random_secret();
    let hop_excess = secp::random_secret();
    let rangeproof = range_proof(value, fee, &blind, &hop_excess);
    let hop = new_hop(&server_key, &hop_excess, fee, Some(rangeproof));

    let onion = create_onion(&input_commit, &vec![hop]).unwrap();

    let wrong_blind = secp::random_secret();
    let comsig = ComSignature::sign(value, &wrong_blind, &onion.serialize().unwrap()).unwrap();

    let (mut server, node) = new_server(&server_key, &vec![&input_commit]);
    let result = swap(&mut server, &node, &onion, &comsig);
    assert_eq!(Err(SwapError::InvalidComSignature), result);

    // Make sure no entry is added to the store
    assert_eq!(0, server.store().swaps_iter().unwrap().len());
}

/// Returns InvalidRangeProof when the rangeproof fails to verify for the commitment.
#[test]
fn swap_invalid_rangeproof() {
    let value: u64 = 200_000_000;
    let fee: u64 = 50_000_000;
    let blind = secp::random_secret();
    let input_commit = secp::commit(value, &blind).unwrap();

    let server_key = secp::random_secret();
    let hop_excess = secp::random_secret();
    let wrong_value = value + 10_000_000;
    let rangeproof = range_proof(wrong_value, fee, &blind, &hop_excess);
    let hop = new_hop(&server_key, &hop_excess, fee, Some(rangeproof));

    let onion = create_onion(&input_commit, &vec![hop]).unwrap();
    let comsig = ComSignature::sign(value, &blind, &onion.serialize().unwrap()).unwrap();

    let (mut server, node) = new_server(&server_key, &vec![&input_commit]);
    let result = swap(&mut server, &node, &onion, &comsig);
    assert_eq!(Err(SwapError::InvalidRangeproof), result);

    // Make sure no entry is added to the store
    assert_eq!(0, server.store().swaps_iter().unwrap().len());
}

/// Returns MissingRangeproof when no rangeproof is provided.
#[test]
fn swap_missing_rangeproof() {
    let value: u64 = 200_000_000;
    let fee: u64 = 50_000_000;
    let blind = secp::random_secret();
    let input_commit = secp::commit(value, &blind).unwrap();

    let server_key = secp::random_secret();
    let hop_excess = secp::random_secret();
    let hop = new_hop(&server_key, &hop_excess, fee, None);

    let onion = create_onion(&input_commit, &vec![hop]).unwrap();
    let comsig = ComSignature::sign(value, &blind, &onion.serialize().unwrap()).unwrap();

    let (mut server, node) = new_server(&server_key, &vec![&input_commit]);
    let result = swap(&mut server, &node, &onion, &comsig);
    assert_eq!(Err(SwapError::MissingRangeproof), result);

    // Make sure no entry is added to the store
    assert_eq!(0, server.store().swaps_iter().unwrap().len());
}

/// Returns CoinNotFound when there's no matching output in the UTXO set.
#[test]
fn swap_utxo_missing() {
    let value: u64 = 200_000_000;
    let fee: u64 = 50_000_000;
    let blind = secp::random_secret();
    let input_commit = secp::commit(value, &blind).unwrap();

    let server_key = secp::random_secret();
    let hop_excess = secp::random_secret();
    let rangeproof = range_proof(value, fee, &blind, &hop_excess);
    let hop = new_hop(&server_key, &hop_excess, fee, Some(rangeproof));

    let onion = create_onion(&input_commit, &vec![hop]).unwrap();
    let comsig = ComSignature::sign(value, &blind, &onion.serialize().unwrap()).unwrap();

    let (mut server, node) = new_server(&server_key, &vec![]);
    let result = swap(&mut server, &node, &onion, &comsig);
    assert_eq!(Err(SwapError::CoinNotFound { commit: input_commit.clone() }), result);

    // Make sure no entry is added to the store
    assert_eq!(0, server.store().swaps_iter().unwrap().len());
}

/// Returns AlreadySwapped when trying to swap the same commitment multiple times.
#[test]
fn swap_already_swapped() {
    let value: u64 = 200_000_000;
    let fee: u64 = 50_000_000;
    let blind = secp::random_secret();
    let input_commit = secp::commit(value, &blind).unwrap();

    let server_key = secp::random_secret();
    let hop_excess = secp::random_secret();
    let rangeproof = range_proof(value, fee, &blind, &hop_excess);
    let hop = new_hop(&server_key, &hop_excess, fee, Some(rangeproof));

    let onion = create_onion(&input_commit, &vec![hop]).unwrap();
    let comsig = ComSignature::sign(value, &blind, &onion.serialize().unwrap()).unwrap();

    let (mut server, node) = new_server(&server_key, &vec![&input_commit]);
    swap(&mut server, &node, &onion, &comsig).unwrap();

    // Call swap a second time
    let result = swap(&mut server, &node, &onion, &comsig);
    assert_eq!(Err(SwapError::AlreadySwapped { commit: input_commit.clone() }), result);
}

/// Returns PeelOnionFailure when a failure occurs trying to decrypt the onion payload.
#[test]
fn swap_peel_onion_failure() {
    let value: u64 = 200_000_000;
    let fee: u64 = 50_000_000;
    let blind = secp::random_secret();
    let input_commit = secp::commit(value, &blind).unwrap();

    let server_key = secp::random_secret();
    let hop_excess = secp::random_secret();
    let rangeproof = range_proof(value, fee, &blind, &hop_excess);

    let wrong_server_key = secp::random_secret();
    let hop = new_hop(&wrong_server_key, &hop_excess, fee, Some(rangeproof));

    let onion = create_onion(&input_commit, &vec![hop]).unwrap();
    let comsig = ComSignature::sign(value, &blind, &onion.serialize().unwrap()).unwrap();

    let (mut server, node) = new_server(&server_key, &vec![&input_commit]);
    let result = swap(&mut server, &node, &onion, &comsig);

    assert!(result.is_err());
    assert!(matches!(result.unwrap_err(), SwapError::PeelOnionFailure(_)));
}

/// Returns FeeTooLow when the minimum fee is not met.
#[test]
fn swap_fee_too_low() {
    let value: u64 = 200_000_000;
    let fee: u64 = 1_000_000;
    let blind = secp::random_secret();
    let input_commit = secp::commit(value, &blind).unwrap();

    let server_key = secp::random_secret();
    let hop_excess = secp::random_secret();
    let rangeproof = range_proof(value, fee, &blind, &hop_excess);
    let hop = new_hop(&server_key, &hop_excess, fee, Some(rangeproof));

    let onion = create_onion(&input_commit, &vec![hop]).unwrap();
    let comsig = ComSignature::sign(value, &blind, &onion.serialize().unwrap()).unwrap();

    let (mut server, node) = new_server(&server_key, &vec![&input_commit]);
    let result = swap(&mut server, &node, &onion, &comsig);
    assert_eq!(Err(SwapError::FeeTooLow { minimum_fee: 12_500_000, actual_fee: fee }), result);
}

/// What the node could not be asked comes back as an unknown error, after
/// the checks that need no word from the node.
#[test]
fn swap_node_failure() {
    let value: u64 = 200_000_000;
    let fee: u64 = 50_000_000;
    let blind = secp::random_secret();
    let input_commit = secp::commit(value, &blind).unwrap();
    let server_key = secp::random_secret();
    let hop_excess = secp::random_secret();
    let rangeproof = range_proof(value, fee, &blind, &hop_excess);
    let hop = new_hop(&server_key, &hop_excess, fee, Some(rangeproof));
    let onion = create_onion(&input_commit, &vec![hop]).unwrap();
    let comsig = ComSignature::sign(value, &blind, &onion.serialize().unwrap()).unwrap();

    let (mut server, _node) = new_server(&server_key, &vec![&input_commit]);
    let failed = UtxoLookup::Failed("connection refused".to_string());
    assert_eq!(
        Err(SwapError::UnknownError("connection refused".to_string())),
        server.swap(&onion, &comsig, &failed)
    );

    // A bad signature is reported before the node's failure.
    let wrong = ComSignature::sign(value, &secp::random_secret(), &onion.serialize().unwrap())
        .unwrap();
    assert_eq!(Err(SwapError::InvalidComSignature), server.swap(&onion, &wrong, &failed));
    assert_eq!(Err(SwapError::InvalidComSignature), server.check_request(&onion, &wrong));
    assert_eq!(Ok(()), server.check_request(&onion, &comsig));
    assert_eq!(0, server.store().swaps_iter().unwrap().len());
}

/// The least fee is the weight of one input, one output and one kernel at
/// the default fee base.
#[test]
fn minimum_swap_fee() {
    let (server, _node) = new_server(&secp::random_secret(), &vec![]);
    assert_eq!(500_000, server.get_fee_base());
    assert_eq!(12_500_000, server.get_minimum_swap_fee());
}

fn stored_swap(value: u64, fee: u64, status: SwapStatus) -> SwapData {
    let blind = secp::random_secret();
    let excess = secp::random_secret();
    let input_commit = secp::commit(value, &blind).unwrap();
    let output_commit =
        secp::sub_value(&secp::add_excess(&input_commit, &excess).unwrap(), fee).unwrap();
    SwapData {
        excess: excess.clone(),
        output_commit,
        rangeproof: Some(range_proof(value, fee, &blind, &excess)),
        input: Input::new(OutputFeatures::Plain, input_commit),
        fee,
        onion: Onion {
            ephemeral_pubkey: PublicKey::from_secret_key(&secp::random_secret()).unwrap(),
            commit: output_commit,
            enc_payloads: vec![],
        },
        status,
    }
}

/// A round takes the unprocessed swaps in the order of the store, of those
/// with one output the first, and of those only what the node lets in.
#[test]
fn round_selection() {
    let mut store = SwapStore::new();
    let a = stored_swap(1_000, 10, SwapStatus::Unprocessed);
    let b = stored_swap(2_000, 20, SwapStatus::Unprocessed);
    let c = stored_swap(
        3_000,
        30,
        SwapStatus::InProcess { kernel_hash: mwixnet::types::Hash([7u8; 32]) },
    );
    let d = stored_swap(4_000, 40, SwapStatus::Unprocessed);
    // `dup` spends another input for the output of `a`.
    let mut dup = stored_swap(5_000, 50, SwapStatus::Unprocessed);
    dup.output_commit = a.output_commit;
    for s in [&a, &b, &c, &d, &dup] {
        store.save_swap(s, false).unwrap();
    }
    let server = ServerImpl::new(secp::random_secret(), store);

    let mut sorted: Vec<&SwapData> = vec![&a, &b, &c, &d, &dup];
    sorted.sort_by_key(|s| s.input.commit.0);
    let first_of_pair =
        if a.input.commit.0 < dup.input.commit.0 { a.input.commit } else { dup.input.commit };
    let expected: Vec<Commitment> = sorted
        .iter()
        .filter(|s| s.status == SwapStatus::Unprocessed)
        .filter(|s| s.output_commit != a.output_commit || s.input.commit == first_of_pair)
        .map(|s| s.input.commit)
        .collect();

    let candidates = server.round_candidates();
    let got: Vec<Commitment> = candidates.iter().map(|s| s.input.commit).collect();
    assert_eq!(expected, got);
    assert_eq!(3, got.len());

    // The node lets only the second candidate in.
    let chain = vec![
        ChainStatus { input_spendable: false, output_unspent: false },
        ChainStatus { input_spendable: true, output_unspent: false },
        ChainStatus { input_spendable: true, output_unspent: true },
    ];
    let selected = ServerImpl::select_spendable(&candidates, &chain);
    assert_eq!(1, selected.len());
    assert_eq!(expected[1], selected[0].input.commit);

    let plan = server.plan_round(&chain).unwrap().unwrap();
    assert_eq!(1, plan.swaps.len());
    assert_eq!(selected[0].fee, plan.total_fee);
    assert_eq!(500_000, plan.fee_base);
    assert_eq!(vec![selected[0].input], plan.inputs());
    assert_eq!(vec![selected[0].excess.clone()], plan.excesses());
    assert_eq!(selected[0].output_commit, plan.outputs().unwrap()[0].commit);
    assert_eq!(OutputFeatures::Plain, plan.outputs().unwrap()[0].features);

    // Where the node says nothing of a candidate, the candidate stays out.
    assert_eq!(None, server.plan_round(&vec![]).unwrap());
}

/// Fees that add up to more than 64 bits, and a swap without a range proof,
/// make no round.
#[test]
fn round_refusals() {
    let mut store = SwapStore::new();
    let mut a = stored_swap(1_000, 10, SwapStatus::Unprocessed);
    let mut b = stored_swap(2_000, 20, SwapStatus::Unprocessed);
    a.fee = u64::MAX;
    b.fee = 1;
    store.save_swap(&a, false).unwrap();
    store.save_swap(&b, false).unwrap();
    let server = ServerImpl::new(secp::random_secret(), store);
    let all_in = vec![ChainStatus { input_spendable: true, output_unspent: false }; 2];
    assert_eq!(Err(RoundError::FeeOverflow), server.plan_round(&all_in));

    let mut store = SwapStore::new();
    let mut c = stored_swap(3_000, 30, SwapStatus::Unprocessed);
    c.rangeproof = None;
    store.save_swap(&c, false).unwrap();
    let server = ServerImpl::new(secp::random_secret(), store);
    assert_eq!(
        Err(RoundError::MissingRangeproof { commit: c.input.commit }),
        server.plan_round(&all_in)
    );
}

/// After a round its swaps are in process, and no later round takes them.
#[test]
fn round_marks_swaps() {
    let mut store = SwapStore::new();
    let a = stored_swap(1_000, 10, SwapStatus::Unprocessed);
    let b = stored_swap(2_000, 20, SwapStatus::Unprocessed);
    store.save_swap(&a, false).unwrap();
    store.save_swap(&b, false).unwrap();
    let mut server = ServerImpl::new(secp::random_secret(), store);
    let all_in = vec![ChainStatus { input_spendable: true, output_unspent: false }; 2];
    let plan = server.plan_round(&all_in).unwrap().unwrap();
    assert_eq!(30, plan.total_fee);
    let kernel_hash = mwixnet::types::Hash([9u8; 32]);
    server.complete_round(&plan, kernel_hash).unwrap();
    for s in [&a, &b] {
        let stored = server.store().get_swap(&s.input.commit).unwrap();
        assert_eq!(SwapStatus::InProcess { kernel_hash }, stored.status);
        assert_eq!(s.excess, stored.excess);
    }
    assert_eq!(2, server.store().swaps_iter().unwrap().len());
    assert!(server.round_candidates().is_empty());
    assert_eq!(None, server.plan_round(&all_in).unwrap());
}

/// A failure of the curve library inside the onion is a peel failure of
/// the matching kind.
#[test]
fn swap_empty_payload() {
    let value: u64 = 200_000_000;
    let blind = secp::random_secret();
    let input_commit = secp::commit(value, &blind).unwrap();
    let server_key = secp::random_secret();
    let onion = Onion {
        ephemeral_pubkey: PublicKey::from_secret_key(&secp::random_secret()).unwrap(),
        commit: input_commit,
        enc_payloads: vec![vec![]],
    };
    let comsig = ComSignature::sign(value, &blind, &onion.serialize().unwrap()).unwrap();
    let (mut server, node) = new_server(&server_key, &vec![&input_commit]);
    let result = swap(&mut server, &node, &onion, &comsig);
    assert_eq!(
        Err(SwapError::PeelOnionFailure(OnionError::DeserializationError(
            mwixnet::bytes::SerError::UnexpectedEof
        ))),
        result
    );
}
