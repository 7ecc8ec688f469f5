//! The swap engine: which requests are admitted, and which swaps go into a
//! round.
//!
//! The engine talks to no one. What the node says of an output, the
//! transaction that the wallet makes and the posting of it are the business
//! of the program around this library: it asks, and hands the answers in.
use crate::onion::{spec_onion_bytes, spec_peel_layer, Onion, OnionError, OnionErrorKind, OnionView};
use crate::secp::{
    bullet_proof_valid, spec_verifies, ComSignature, ComSignatureView, Commitment, SecretKey,
};
use crate::store::{
    contains_key, spec_save, swap_views, StoreError, SwapData, SwapDataView, SwapStatus,
    SwapStatusView, SwapStore,
};
use crate::types::{Input, InputView, Output, OutputFeatures, OutputView, Payload};
use vstd::prelude::*;

verus! {

/// Why a swap request was turned down.
#[derive(Clone, Debug, PartialEq)]
pub enum SwapError {
    /// The onion does not hold exactly one payload.
    InvalidPayloadLength { expected: usize, found: usize },
    /// The commitment signature does not show that the caller owns the
    /// input.
    InvalidComSignature,
    /// The range proof does not verify for the output commitment.
    InvalidRangeproof,
    /// The payload holds no range proof.
    MissingRangeproof,
    /// The input does not exist, or is spent already.
    CoinNotFound { commit: Commitment },
    /// There is a swap for the input already.
    AlreadySwapped { commit: Commitment },
    /// The onion could not be peeled.
    PeelOnionFailure(OnionError),
    /// The fee is below what a swap costs.
    FeeTooLow { minimum_fee: u64, actual_fee: u64 },
    /// The store failed.
    StoreError(StoreError),
    /// Something else went wrong; the words say what.
    UnknownError(String),
}

/// The kinds of `SwapError`, without what the curve library or the store
/// reported.
pub enum SwapErrorKind {
    InvalidPayloadLength { expected: usize, found: usize },
    InvalidComSignature,
    InvalidRangeproof,
    MissingRangeproof,
    CoinNotFound { commit: Seq<u8> },
    AlreadySwapped { commit: Seq<u8> },
    PeelOnionFailure(OnionErrorKind),
    FeeTooLow { minimum_fee: u64, actual_fee: u64 },
    StoreError,
    UnknownError(Seq<char>),
}

impl View for SwapError {
    type V = SwapErrorKind;

    open spec fn view(&self) -> SwapErrorKind {
        match *self {
            SwapError::InvalidPayloadLength { expected, found } => {
                SwapErrorKind::InvalidPayloadLength { expected, found }
            },
            SwapError::InvalidComSignature => SwapErrorKind::InvalidComSignature,
            SwapError::InvalidRangeproof => SwapErrorKind::InvalidRangeproof,
            SwapError::MissingRangeproof => SwapErrorKind::MissingRangeproof,
            SwapError::CoinNotFound { commit } => SwapErrorKind::CoinNotFound { commit: commit@ },
            SwapError::AlreadySwapped { commit } => SwapErrorKind::AlreadySwapped {
                commit: commit@,
            },
            SwapError::PeelOnionFailure(e) => SwapErrorKind::PeelOnionFailure(e@),
            SwapError::FeeTooLow { minimum_fee, actual_fee } => SwapErrorKind::FeeTooLow {
                minimum_fee,
                actual_fee,
            },
            SwapError::StoreError(_) => SwapErrorKind::StoreError,
            SwapError::UnknownError(msg) => SwapErrorKind::UnknownError(msg@),
        }
    }
}

/// What the node said when it was asked for the output that a request
/// wants to spend.
#[derive(Clone, Debug, PartialEq)]
pub enum UtxoLookup {
    /// The output is unspent, and has these features.
    Unspent(OutputFeatures),
    /// There is no such unspent output.
    NotFound,
    /// The node could not be asked; the words say why.
    Failed(String),
}

/// `a * b`, or the largest 64-bit number where the product is larger.
pub open spec fn saturating_product(a: u64, b: u64) -> u64 {
    if a * b > u64::MAX {
        u64::MAX
    } else {
        (a * b) as u64
    }
}

/// `a + b`, or the largest 64-bit number where the sum is larger.
pub open spec fn saturating_sum(a: u64, b: u64) -> u64 {
    if a + b > u64::MAX {
        u64::MAX
    } else {
        (a + b) as u64
    }
}

/// The weight of a transaction by the consensus rules: 1 for an input, 21
/// for an output, 3 for a kernel.
pub open spec fn spec_weight_by_iok(num_inputs: u64, num_outputs: u64, num_kernels: u64) -> u64 {
    saturating_sum(
        saturating_sum(saturating_product(num_inputs, 1), saturating_product(num_outputs, 21)),
        saturating_product(num_kernels, 3),
    )
}

/// The fee for one unit of weight that nodes accept by default.
pub const DEFAULT_ACCEPT_FEE_BASE: u64 = 500_000;

/// `grin_core::core::TransactionBody::weight_by_iok`: the three counts times
/// the consensus weights 1, 21 and 3, multiplied and added with saturation.
#[verifier::external_body]
fn weight_by_iok(num_inputs: u64, num_outputs: u64, num_kernels: u64) -> (r: u64)
    ensures
        r == spec_weight_by_iok(num_inputs, num_outputs, num_kernels),
{
    grin_core::core::TransactionBody::weight_by_iok(num_inputs, num_outputs, num_kernels)
}

/// `grin_core::global::DEFAULT_ACCEPT_FEE_BASE`, a constant of the chain: a
/// hundredth of a twentieth of a coin of `10^9` units.
#[verifier::external_body]
fn default_accept_fee_base() -> (r: u64)
    ensures
        r == DEFAULT_ACCEPT_FEE_BASE,
{
    grin_core::global::DEFAULT_ACCEPT_FEE_BASE
}

/// The least fee for a swap: the weight of one input, one output and one
/// kernel at the default fee base.
pub open spec fn spec_minimum_swap_fee() -> u64 {
    12_500_000
}

/// The record that a request leads to, or the kind of the refusal.
///
/// The checks come in this order: the number of payloads, the commitment
/// signature over the binary form of the onion, the node's word on the
/// input, the peeling, the fee, the range proof, and whether there is a swap
/// for the input already.
pub open spec fn spec_swap(
    server_key: Seq<u8>,
    records: Seq<SwapDataView>,
    onion: OnionView,
    comsig: ComSignatureView,
    utxo: UtxoLookup,
) -> Result<SwapDataView, SwapErrorKind> {
    if onion.enc_payloads.len() != 1 {
        Err(
            SwapErrorKind::InvalidPayloadLength {
                expected: 1,
                found: onion.enc_payloads.len() as usize,
            },
        )
    } else if !spec_verifies(comsig, onion.commit, spec_onion_bytes(onion)) {
        Err(SwapErrorKind::InvalidComSignature)
    } else {
        match utxo {
            UtxoLookup::Failed(msg) => Err(SwapErrorKind::UnknownError(msg@)),
            UtxoLookup::NotFound => Err(SwapErrorKind::CoinNotFound { commit: onion.commit }),
            UtxoLookup::Unspent(features) => match spec_peel_layer(onion, server_key) {
                Err(e) => Err(SwapErrorKind::PeelOnionFailure(e)),
                Ok((payload, peeled)) => if payload.fee < spec_minimum_swap_fee() {
                    Err(
                        SwapErrorKind::FeeTooLow {
                            minimum_fee: spec_minimum_swap_fee(),
                            actual_fee: payload.fee,
                        },
                    )
                } else {
                    match payload.rangeproof {
                        None => Err(SwapErrorKind::MissingRangeproof),
                        Some(p) => if !bullet_proof_valid(peeled.commit, p) {
                            Err(SwapErrorKind::InvalidRangeproof)
                        } else if contains_key(records, onion.commit) {
                            Err(SwapErrorKind::AlreadySwapped { commit: onion.commit })
                        } else {
                            Ok(
                                SwapDataView {
                                    excess: payload.excess,
                                    output_commit: peeled.commit,
                                    rangeproof: Some(p),
                                    input: InputView { features, commit: onion.commit },
                                    fee: payload.fee,
                                    onion: peeled,
                                    status: SwapStatusView::Unprocessed,
                                },
                            )
                        },
                    }
                },
            },
        }
    }
}

/// Whether none of the first `n` records has the output commitment of the
/// `i`-th.
pub open spec fn none_with_output(records: Seq<SwapDataView>, i: int, n: int) -> bool {
    forall|j: int| 0 <= j < n ==> (#[trigger] records[j]).output_commit != records[i].output_commit
}

/// Whether no record before the `i`-th has the output commitment of the
/// `i`-th.
pub open spec fn first_with_output(records: Seq<SwapDataView>, i: int) -> bool {
    none_with_output(records, i, i)
}

/// The records that may go into a round as far as the store can tell: in
/// the order of the store, those that are unprocessed and whose output
/// commitment no record before them has.
pub open spec fn spec_round_candidates(records: Seq<SwapDataView>) -> Seq<SwapDataView>
    decreases records.len(),
{
    if records.len() == 0 {
        Seq::empty()
    } else {
        let before = spec_round_candidates(records.drop_last());
        let last = records.len() - 1;
        if first_with_output(records, last) && records[last].status is Unprocessed {
            before.push(records[last])
        } else {
            before
        }
    }
}

/// What the node said of one candidate.
#[derive(Clone, Copy, Debug, PartialEq, Eq)]
pub struct ChainStatus {
    /// Whether the input can be spent in the next block.
    pub input_spendable: bool,
    /// Whether the output is among the unspent outputs already.
    pub output_unspent: bool,
}

/// Whether the node's word lets the `i`-th candidate into the round: its
/// input can be spent and its output does not exist yet. A candidate of
/// which the node said nothing stays out.
pub open spec fn chain_allows(chain: Seq<ChainStatus>, i: int) -> bool {
    i < chain.len() && chain[i].input_spendable && !chain[i].output_unspent
}

/// The candidates that the node's word lets into the round, in order.
pub open spec fn spec_select(candidates: Seq<SwapDataView>, chain: Seq<ChainStatus>) -> Seq<
    SwapDataView,
>
    decreases candidates.len(),
{
    if candidates.len() == 0 {
        Seq::empty()
    } else {
        let before = spec_select(candidates.drop_last(), chain);
        let last = candidates.len() - 1;
        if chain_allows(chain, last) {
            before.push(candidates[last])
        } else {
            before
        }
    }
}

/// The sum of the fees of the swaps.
pub open spec fn spec_total_fee(swaps: Seq<SwapDataView>) -> int
    decreases swaps.len(),
{
    if swaps.len() == 0 {
        0
    } else {
        spec_total_fee(swaps.drop_last()) + swaps.last().fee
    }
}

/// Why no round could be planned.
#[derive(Clone, Debug, PartialEq)]
pub enum RoundError {
    /// The fees add up to more than 64 bits hold.
    FeeOverflow,
    /// A swap that was to go into the round has no range proof for its
    /// output.
    MissingRangeproof { commit: Commitment },
}

/// What goes into one round: the swaps and the sum of their fees.
#[derive(Debug, PartialEq)]
pub struct RoundPlan {
    /// The swaps of the round, in the order of the store.
    pub swaps: Vec<SwapData>,
    /// The sum of the fees of the swaps.
    pub total_fee: u64,
    /// The fee for one unit of weight.
    pub fee_base: u64,
}

/// Whether every swap has a range proof.
pub open spec fn all_have_proofs(swaps: Seq<SwapDataView>) -> bool {
    forall|i: int| 0 <= i < swaps.len() ==> (#[trigger] swaps[i]).rangeproof is Some
}

/// The place of the first swap that has no range proof; the number of swaps
/// where each has one.
pub open spec fn first_without_proof(swaps: Seq<SwapDataView>) -> int
    decreases swaps.len(),
{
    if swaps.len() == 0 || swaps[0].rangeproof is None {
        0
    } else {
        1 + first_without_proof(swaps.drop_first())
    }
}

/// The kinds of `RoundError`.
pub enum RoundErrorKind {
    FeeOverflow,
    MissingRangeproof { commit: Seq<u8> },
}

impl View for RoundError {
    type V = RoundErrorKind;

    open spec fn view(&self) -> RoundErrorKind {
        match *self {
            RoundError::FeeOverflow => RoundErrorKind::FeeOverflow,
            RoundError::MissingRangeproof { commit } => RoundErrorKind::MissingRangeproof {
                commit: commit@,
            },
        }
    }
}

/// The sum of the fees of the swaps where they can make a round, else what
/// is wrong with the first swap that cannot go in: it has no range proof, or
/// with its fee the sum is more than 64 bits hold.
pub open spec fn spec_round_fee(swaps: Seq<SwapDataView>) -> Result<u64, RoundErrorKind>
    decreases swaps.len(),
{
    if swaps.len() == 0 {
        Ok(0)
    } else {
        match spec_round_fee(swaps.drop_last()) {
            Err(e) => Err(e),
            Ok(total) => if swaps.last().rangeproof is None {
                Err(RoundErrorKind::MissingRangeproof { commit: swaps.last().input.commit })
            } else if total + swaps.last().fee > u64::MAX {
                Err(RoundErrorKind::FeeOverflow)
            } else {
                Ok((total + swaps.last().fee) as u64)
            },
        }
    }
}

/// The outcome of planning a round: no round where no swap is left, else
/// the swaps that the node's word lets in and the sum of their fees, or the
/// reason why they make no round.
pub open spec fn spec_plan_round(records: Seq<SwapDataView>, chain: Seq<ChainStatus>) -> Result<
    Option<(Seq<SwapDataView>, u64)>,
    RoundErrorKind,
> {
    let selected = spec_select(spec_round_candidates(records), chain);
    if selected.len() == 0 {
        Ok(None)
    } else {
        match spec_round_fee(selected) {
            Ok(total) => Ok(Some((selected, total))),
            Err(e) => Err(e),
        }
    }
}

/// Where the swaps make a round, each has a range proof and the fee of the
/// round is the sum of their fees.
pub proof fn lemma_round_fee(swaps: Seq<SwapDataView>)
    requires
        spec_round_fee(swaps) is Ok,
    ensures
        all_have_proofs(swaps),
        spec_round_fee(swaps)->Ok_0 == spec_total_fee(swaps),
    decreases swaps.len(),
{
    if swaps.len() > 0 {
        lemma_round_fee(swaps.drop_last());
        assert forall|i: int| 0 <= i < swaps.len() implies (#[trigger] swaps[i]).rangeproof
            is Some by {
            if i < swaps.len() - 1 {
                assert(swaps.drop_last()[i] == swaps[i]);
            }
        }
    }
}

/// The inputs of the swaps, in order.
pub open spec fn spec_inputs(swaps: Seq<SwapDataView>) -> Seq<InputView> {
    Seq::new(swaps.len(), |i: int| swaps[i].input)
}

/// The outputs of the swaps, in order: plain outputs with the swap's output
/// commitment and range proof.
pub open spec fn spec_outputs(swaps: Seq<SwapDataView>) -> Seq<OutputView> {
    Seq::new(
        swaps.len(),
        |i: int|
            OutputView {
                features: OutputFeatures::Plain,
                commit: swaps[i].output_commit,
                rangeproof: swaps[i].rangeproof->Some_0,
            },
    )
}

/// The excesses of the swaps, in order.
pub open spec fn spec_excesses(swaps: Seq<SwapDataView>) -> Seq<Seq<u8>> {
    Seq::new(swaps.len(), |i: int| swaps[i].excess)
}

/// What a list of inputs holds.
pub open spec fn input_views(inputs: Seq<Input>) -> Seq<InputView> {
    Seq::new(inputs.len(), |i: int| inputs[i]@)
}

/// What a list of outputs holds.
pub open spec fn output_views(outputs: Seq<Output>) -> Seq<OutputView> {
    Seq::new(outputs.len(), |i: int| outputs[i]@)
}

/// What a list of secret keys holds.
pub open spec fn key_views(keys: Seq<SecretKey>) -> Seq<Seq<u8>> {
    Seq::new(keys.len(), |i: int| keys[i]@)
}

impl RoundPlan {
    /// The inputs that the transaction of the round spends.
    pub fn inputs(&self) -> (r: Vec<Input>)
        ensures
            input_views(r@) == spec_inputs(swap_views(self.swaps@)),
    {
        let mut out: Vec<Input> = Vec::new();
        let mut i: usize = 0;
        while i < self.swaps.len()
            invariant
                i <= self.swaps@.len(),
                input_views(out@) == spec_inputs(swap_views(self.swaps@)).take(i as int),
            decreases self.swaps@.len() - i,
        {
            let ghost before = input_views(out@);
            out.push(self.swaps[i].input);
            proof {
                assert(input_views(out@) =~= before.push(self.swaps@[i as int].input@));
                assert(spec_inputs(swap_views(self.swaps@)).take(i + 1) =~= spec_inputs(
                    swap_views(self.swaps@),
                ).take(i as int).push(self.swaps@[i as int].input@));
            }
            i += 1;
        }
        proof {
            assert(spec_inputs(swap_views(self.swaps@)).take(i as int) =~= spec_inputs(
                swap_views(self.swaps@),
            ));
        }
        out
    }

    /// The outputs that the transaction of the round creates for the swaps.
    /// A swap without a range proof has no output: `MissingRangeproof`.
    pub fn outputs(&self) -> (r: Result<Vec<Output>, RoundError>)
        ensures
            all_have_proofs(swap_views(self.swaps@)) ==> r is Ok && output_views(r->Ok_0@)
                == spec_outputs(swap_views(self.swaps@)),
            !all_have_proofs(swap_views(self.swaps@)) ==> r is Err && r->Err_0@ == (
            RoundErrorKind::MissingRangeproof {
                commit: swap_views(self.swaps@)[first_without_proof(
                    swap_views(self.swaps@),
                )].input.commit,
            }),
    {
        let ghost views = swap_views(self.swaps@);
        let mut out: Vec<Output> = Vec::new();
        let mut i: usize = 0;
        proof {
            assert(views.skip(0) =~= views);
        }
        while i < self.swaps.len()
            invariant
                i <= self.swaps@.len(),
                views == swap_views(self.swaps@),
                first_without_proof(views) == i + first_without_proof(views.skip(i as int)),
                forall|j: int| 0 <= j < i ==> (#[trigger] views[j]).rangeproof is Some,
                output_views(out@) == spec_outputs(views).take(i as int),
            decreases self.swaps@.len() - i,
        {
            let ghost before = output_views(out@);
            let swap = &self.swaps[i];
            proof {
                assert(views[i as int] == swap@);
                assert(views.skip(i as int)[0] == views[i as int]);
                assert(views.skip(i as int).drop_first() =~= views.skip(i + 1));
            }
            let rangeproof = match &swap.rangeproof {
                Some(p) => p.clone(),
                None => {
                    return Err(RoundError::MissingRangeproof { commit: swap.input.commit });
                },
            };
            let output = Output {
                features: OutputFeatures::Plain,
                commit: swap.output_commit,
                rangeproof,
            };
            out.push(output);
            proof {
                assert(output_views(out@) =~= before.push(spec_outputs(views)[i as int]));
                assert(spec_outputs(views).take(i + 1) =~= spec_outputs(views).take(
                    i as int,
                ).push(spec_outputs(views)[i as int]));
            }
            i += 1;
        }
        proof {
            assert(spec_outputs(views).take(i as int) =~= spec_outputs(views));
        }
        Ok(out)
    }

    /// The excesses that the kernel of the round's transaction has to
    /// account for.
    pub fn excesses(&self) -> (r: Vec<SecretKey>)
        ensures
            key_views(r@) == spec_excesses(swap_views(self.swaps@)),
    {
        let mut out: Vec<SecretKey> = Vec::new();
        let mut i: usize = 0;
        while i < self.swaps.len()
            invariant
                i <= self.swaps@.len(),
                key_views(out@) == spec_excesses(swap_views(self.swaps@)).take(i as int),
            decreases self.swaps@.len() - i,
        {
            let ghost before = key_views(out@);
            out.push(self.swaps[i].excess.clone());
            proof {
                assert(key_views(out@) =~= before.push(self.swaps@[i as int].excess@));
                assert(spec_excesses(swap_views(self.swaps@)).take(i + 1) =~= spec_excesses(
                    swap_views(self.swaps@),
                ).take(i as int).push(self.swaps@[i as int].excess@));
            }
            i += 1;
        }
        proof {
            assert(spec_excesses(swap_views(self.swaps@)).take(i as int) =~= spec_excesses(
                swap_views(self.swaps@),
            ));
        }
        out
    }
}

/// The record `swap` with the status of a swap that is in a posted
/// transaction.
pub open spec fn in_process(swap: SwapDataView, kernel_hash: Seq<u8>) -> SwapDataView {
    SwapDataView { status: SwapStatusView::InProcess { kernel_hash }, ..swap }
}

/// The records after every swap of `swaps` was saved as being in process.
pub open spec fn spec_mark_in_process(
    records: Seq<SwapDataView>,
    swaps: Seq<SwapDataView>,
    kernel_hash: Seq<u8>,
) -> Seq<SwapDataView>
    decreases swaps.len(),
{
    if swaps.len() == 0 {
        records
    } else {
        spec_save(
            spec_mark_in_process(records, swaps.drop_last(), kernel_hash),
            in_process(swaps.last(), kernel_hash),
        )
    }
}

/// The standard mix node: its key and its store.
pub struct ServerImpl {
    server_key: SecretKey,
    store: SwapStore,
}

impl ServerImpl {
    /// The secret key with which the node peels onions.
    pub closed spec fn key(&self) -> Seq<u8> {
        self.server_key@
    }

    /// The records of the store, in its order.
    pub closed spec fn records(&self) -> Seq<SwapDataView> {
        self.store@
    }

    /// A node with the secret key `server_key` over the store `store`.
    pub fn new(server_key: SecretKey, store: SwapStore) -> (r: ServerImpl)
        ensures
            r.key() == server_key@,
            r.records() == store@,
    {
        ServerImpl { server_key, store }
    }

    /// The store of the node.
    pub fn store(&self) -> (r: &SwapStore)
        ensures
            r@ == self.records(),
    {
        &self.store
    }

    /// The fee base to use: the default of the chain.
    pub fn get_fee_base(&self) -> (r: u64)
        ensures
            r == DEFAULT_ACCEPT_FEE_BASE,
    {
        default_accept_fee_base()
    }

    /// The minimum fee to perform a swap: enough for the node's kernel, one
    /// input and its output.
    pub fn get_minimum_swap_fee(&self) -> (r: u64)
        ensures
            r == spec_minimum_swap_fee(),
    {
        let weight = weight_by_iok(1, 1, 1);
        assert(weight == 25);
        weight * self.get_fee_base()
    }

    /// Whether the request has exactly one payload and a commitment
    /// signature over the binary form of the onion: the checks that need no
    /// word from the node.
    pub fn check_request(&self, onion: &Onion, comsig: &ComSignature) -> (r: Result<(), SwapError>)
        ensures
            match r {
                Ok(_) => onion@.enc_payloads.len() == 1 && spec_verifies(
                    comsig@,
                    onion@.commit,
                    spec_onion_bytes(onion@),
                ),
                Err(e) => if onion@.enc_payloads.len() != 1 {
                    e@ == (SwapErrorKind::InvalidPayloadLength {
                        expected: 1,
                        found: onion@.enc_payloads.len() as usize,
                    })
                } else {
                    e@ == SwapErrorKind::InvalidComSignature && !spec_verifies(
                        comsig@,
                        onion@.commit,
                        spec_onion_bytes(onion@),
                    )
                },
            },
    {
        if onion.enc_payloads.len() != 1 {
            return Err(
                SwapError::InvalidPayloadLength { expected: 1, found: onion.enc_payloads.len() },
            );
        }
        let mut serialized_onion: Vec<u8> = Vec::new();
        onion.write(&mut serialized_onion);
        proof {
            assert(serialized_onion@ =~= spec_onion_bytes(onion@));
        }
        match comsig.verify(&onion.commit, &serialized_onion) {
            Ok(_) => Ok(()),
            Err(_) => Err(SwapError::InvalidComSignature),
        }
    }

    /// Submits a new output to be swapped. `utxo` is what the node said
    /// when it was asked for the output with the commitment of the onion.
    ///
    /// Where the request is admitted, the store holds a new unprocessed
    /// record for it; where it is refused, the store is as it was.
    pub fn swap(&mut self, onion: &Onion, comsig: &ComSignature, utxo: &UtxoLookup) -> (r: Result<
        (),
        SwapError,
    >)
        ensures
            match spec_swap(old(self).key(), old(self).records(), onion@, comsig@, *utxo) {
                Ok(record) => r is Ok && final(self).records() == spec_save(
                    old(self).records(),
                    record,
                ),
                Err(kind) => r is Err && r->Err_0@ == kind && final(self).records() == old(
                    self,
                ).records(),
            },
            final(self).key() == old(self).key(),
    {
        match self.check_request(onion, comsig) {
            Ok(_) => {},
            Err(e) => { return Err(e); },
        }
        // Verify that the commitment is unspent.
        let features = match utxo {
            UtxoLookup::Unspent(f) => *f,
            UtxoLookup::NotFound => {
                return Err(SwapError::CoinNotFound { commit: onion.commit });
            },
            UtxoLookup::Failed(msg) => { return Err(SwapError::UnknownError(msg.clone())); },
        };
        let input = Input::new(features, onion.commit);
        let (payload, peeled_onion) = match onion.peel_layer(&self.server_key) {
            Ok(p) => p,
            Err(e) => { return Err(SwapError::PeelOnionFailure(e)); },
        };
        // Verify that the fee meets the minimum.
        let fee: u64 = payload.fee;
        let minimum_fee = self.get_minimum_swap_fee();
        if fee < minimum_fee {
            return Err(SwapError::FeeTooLow { minimum_fee, actual_fee: fee });
        }
        // Verify the bullet proof and build the final output.
        let Payload { excess, fee: _, rangeproof } = payload;
        let rangeproof = match rangeproof {
            Some(r) => r,
            None => { return Err(SwapError::MissingRangeproof); },
        };
        if !rangeproof.verify(&peeled_onion.commit) {
            return Err(SwapError::InvalidRangeproof);
        }
        let record = SwapData {
            excess,
            output_commit: peeled_onion.commit,
            rangeproof: Some(rangeproof),
            input,
            fee,
            onion: peeled_onion,
            status: SwapStatus::Unprocessed,
        };
        match self.store.save_swap(&record, false) {
            Ok(_) => Ok(()),
            Err(StoreError::AlreadyExists(_)) => Err(
                SwapError::AlreadySwapped { commit: onion.commit },
            ),
            Err(e) => Err(SwapError::StoreError(e)),
        }
    }

    /// The swaps that may go into a round as far as the store can tell: the
    /// unprocessed ones, and of those with one output commitment the first.
    /// The node is to be asked about each of them.
    pub fn round_candidates(&self) -> (r: Vec<SwapData>)
        ensures
            swap_views(r@) == spec_round_candidates(self.records()),
    {
        let all = match self.store.swaps_iter() {
            Ok(v) => v,
            Err(_) => Vec::new(),
        };
        let ghost records = swap_views(all@);
        let mut out: Vec<SwapData> = Vec::new();
        let mut i: usize = 0;
        proof {
            assert(records.take(0) =~= Seq::<SwapDataView>::empty());
            assert(swap_views(out@) =~= Seq::<SwapDataView>::empty());
        }
        while i < all.len()
            invariant
                i <= all@.len(),
                records == swap_views(all@),
                swap_views(out@) == spec_round_candidates(records.take(i as int)),
            decreases all@.len() - i,
        {
            let ghost upto = records.take(i + 1);
            proof {
                assert(upto.drop_last() =~= records.take(i as int));
                assert(upto[i as int] == all@[i as int]@);
            }
            let mut first = true;
            let mut j: usize = 0;
            while j < i && first
                invariant
                    j <= i < all@.len(),
                    records == swap_views(all@),
                    upto == records.take(i + 1),
                    first ==> none_with_output(upto, i as int, j as int),
                    !first ==> !first_with_output(upto, i as int),
                decreases i - j,
            {
                proof {
                    assert(upto[j as int] == all@[j as int]@);
                    assert(upto[i as int] == all@[i as int]@);
                }
                if all[j].output_commit.equals(&all[i].output_commit) {
                    first = false;
                    proof {
                        assert(upto[j as int].output_commit == upto[i as int].output_commit);
                    }
                }
                j += 1;
            }
            let ghost before = swap_views(out@);
            if first && all[i].status.is_unprocessed() {
                out.push(all[i].clone());
                proof {
                    assert(swap_views(out@) =~= before.push(upto[i as int]));
                }
            }
            i += 1;
        }
        proof {
            assert(records.take(i as int) =~= records);
        }
        out
    }

    /// Of the candidates, those that the node's word lets into the round:
    /// `chain` holds, for each candidate in turn, what the node said of it.
    pub fn select_spendable(candidates: &Vec<SwapData>, chain: &Vec<ChainStatus>) -> (r: Vec<
        SwapData,
    >)
        ensures
            swap_views(r@) == spec_select(swap_views(candidates@), chain@),
    {
        let ghost views = swap_views(candidates@);
        let mut out: Vec<SwapData> = Vec::new();
        let mut i: usize = 0;
        proof {
            assert(views.take(0) =~= Seq::<SwapDataView>::empty());
            assert(swap_views(out@) =~= Seq::<SwapDataView>::empty());
        }
        while i < candidates.len()
            invariant
                i <= candidates@.len(),
                views == swap_views(candidates@),
                swap_views(out@) == spec_select(views.take(i as int), chain@),
            decreases candidates@.len() - i,
        {
            let ghost before = swap_views(out@);
            proof {
                assert(views.take(i + 1).drop_last() =~= views.take(i as int));
                assert(views.take(i + 1)[i as int] == candidates@[i as int]@);
            }
            if i < chain.len() && chain[i].input_spendable && !chain[i].output_unspent {
                out.push(candidates[i].clone());
                proof {
                    assert(swap_views(out@) =~= before.push(candidates@[i as int]@));
                }
            }
            i += 1;
        }
        proof {
            assert(views.take(i as int) =~= views);
        }
        out
    }

    /// Plans a round: the swaps that go into it and the sum of their fees,
    /// or `None` where no swap is left to process. `chain` holds what the
    /// node said of each of the `round_candidates`, in their order.
    #[verifier::loop_isolation(false)]
    pub fn plan_round(&self, chain: &Vec<ChainStatus>) -> (r: Result<Option<RoundPlan>, RoundError>)
        ensures
            match spec_plan_round(self.records(), chain@) {
                Ok(None) => r is Ok && r->Ok_0 is None,
                Ok(Some((swaps, total_fee))) => {
                    &&& r is Ok
                    &&& r->Ok_0 is Some
                    &&& swap_views(r->Ok_0->Some_0.swaps@) == swaps
                    &&& r->Ok_0->Some_0.total_fee == total_fee
                    &&& r->Ok_0->Some_0.fee_base == DEFAULT_ACCEPT_FEE_BASE
                    &&& total_fee == spec_total_fee(swaps)
                    &&& all_have_proofs(swaps)
                },
                Err(kind) => r is Err && r->Err_0@ == kind,
            },
    {
        let candidates = self.round_candidates();
        let spendable = ServerImpl::select_spendable(&candidates, chain);
        if spendable.len() == 0 {
            return Ok(None);
        }
        let ghost views = swap_views(spendable@);
        let mut total_fee: u64 = 0;
        let mut i: usize = 0;
        proof {
            assert(views.take(0) =~= Seq::<SwapDataView>::empty());
        }
        while i < spendable.len()
            invariant
                i <= spendable@.len(),
                views == swap_views(spendable@),
                spec_round_fee(views.take(i as int)) == Ok::<u64, RoundErrorKind>(total_fee),
            decreases spendable@.len() - i,
        {
            proof {
                assert(views.take(i + 1).drop_last() =~= views.take(i as int));
                assert(views.take(i + 1).last() == views[i as int]);
                assert(views[i as int] == spendable@[i as int]@);
                if spec_round_fee(views.take(i + 1)) is Err {
                    lemma_round_fee_stops(views, i + 1);
                }
            }
            match &spendable[i].rangeproof {
                Some(_) => {},
                None => {
                    return Err(
                        RoundError::MissingRangeproof { commit: spendable[i].input.commit },
                    );
                },
            }
            total_fee = match total_fee.checked_add(spendable[i].fee) {
                Some(t) => t,
                None => { return Err(RoundError::FeeOverflow); },
            };
            i += 1;
        }
        proof {
            assert(views.take(i as int) =~= views);
            lemma_round_fee(views);
        }
        Ok(Some(RoundPlan { swaps: spendable, total_fee, fee_base: self.get_fee_base() }))
    }

    /// Marks the swaps of a round as being in process: the transaction with
    /// the kernel `kernel_hash` was posted. Each record is saved again, in
    /// the place of what the store held for its input.
    pub fn complete_round(&mut self, plan: &RoundPlan, kernel_hash: crate::types::Hash) -> (r:
        Result<(), StoreError>)
        ensures
            r is Ok,
            final(self).records() == spec_mark_in_process(
                old(self).records(),
                swap_views(plan.swaps@),
                kernel_hash@,
            ),
            final(self).key() == old(self).key(),
    {
        let ghost start = self.records();
        let ghost views = swap_views(plan.swaps@);
        let mut i: usize = 0;
        proof {
            assert(views.take(0) =~= Seq::<SwapDataView>::empty());
        }
        while i < plan.swaps.len()
            invariant
                i <= plan.swaps@.len(),
                views == swap_views(plan.swaps@),
                self.key() == old(self).key(),
                self.records() == spec_mark_in_process(start, views.take(i as int), kernel_hash@),
            decreases plan.swaps@.len() - i,
        {
            proof {
                assert(views.take(i + 1).drop_last() =~= views.take(i as int));
                assert(views.take(i + 1).last() == plan.swaps@[i as int]@);
            }
            let mut swap = plan.swaps[i].clone();
            swap.status = SwapStatus::InProcess { kernel_hash };
            match self.store.save_swap(&swap, true) {
                Ok(_) => {},
                Err(e) => { return Err(e); },
            }
            i += 1;
        }
        proof {
            assert(views.take(i as int) =~= views);
        }
        Ok(())
    }
}

/// A mix node, as the program around it sees it. The program asks the node
/// and the wallet; the mix node decides.
pub trait Server {
    /// Submit a new output to be swapped. `utxo` is what the node said of
    /// the output that the onion wants to spend.
    fn swap(&mut self, onion: &Onion, comsig: &ComSignature, utxo: &UtxoLookup) -> Result<
        (),
        SwapError,
    >;

    /// The swaps about which the node is to be asked before a round.
    fn round_candidates(&self) -> Vec<SwapData>;

    /// The plan of a round, given what the node said of each candidate, or
    /// `None` where no swap can go into a round.
    fn plan_round(&self, chain: &Vec<ChainStatus>) -> Result<Option<RoundPlan>, RoundError>;

    /// Marks the swaps of the plan as being in the transaction with the
    /// given kernel.
    fn complete_round(&mut self, plan: &RoundPlan, kernel_hash: crate::types::Hash) -> Result<
        (),
        StoreError,
    >;
}

impl Server for ServerImpl {
    fn swap(&mut self, onion: &Onion, comsig: &ComSignature, utxo: &UtxoLookup) -> (r: Result<
        (),
        SwapError,
    >)
        ensures
            match spec_swap(old(self).key(), old(self).records(), onion@, comsig@, *utxo) {
                Ok(record) => r is Ok && final(self).records() == spec_save(
                    old(self).records(),
                    record,
                ),
                Err(kind) => r is Err && r->Err_0@ == kind && final(self).records() == old(
                    self,
                ).records(),
            },
    {
        ServerImpl::swap(self, onion, comsig, utxo)
    }

    fn round_candidates(&self) -> (r: Vec<SwapData>)
        ensures
            swap_views(r@) == spec_round_candidates(self.records()),
    {
        ServerImpl::round_candidates(self)
    }

    fn plan_round(&self, chain: &Vec<ChainStatus>) -> (r: Result<Option<RoundPlan>, RoundError>)
        ensures
            match spec_plan_round(self.records(), chain@) {
                Ok(None) => r is Ok && r->Ok_0 is None,
                Ok(Some((swaps, total_fee))) => {
                    &&& r is Ok
                    &&& r->Ok_0 is Some
                    &&& swap_views(r->Ok_0->Some_0.swaps@) == swaps
                    &&& r->Ok_0->Some_0.total_fee == total_fee
                },
                Err(kind) => r is Err && r->Err_0@ == kind,
            },
    {
        ServerImpl::plan_round(self, chain)
    }

    fn complete_round(&mut self, plan: &RoundPlan, kernel_hash: crate::types::Hash) -> (r: Result<
        (),
        StoreError,
    >)
        ensures
            r is Ok,
            final(self).records() == spec_mark_in_process(
                old(self).records(),
                swap_views(plan.swaps@),
                kernel_hash@,
            ),
    {
        ServerImpl::complete_round(self, plan, kernel_hash)
    }
}

/// What is wrong with the first swaps is wrong with all of them.
pub proof fn lemma_round_fee_stops(swaps: Seq<SwapDataView>, n: int)
    requires
        0 <= n <= swaps.len(),
        spec_round_fee(swaps.take(n)) is Err,
    ensures
        spec_round_fee(swaps) == spec_round_fee(swaps.take(n)),
    decreases swaps.len() - n,
{
    if n == swaps.len() {
        assert(swaps.take(n) =~= swaps);
    } else {
        assert(swaps.take(n + 1).drop_last() =~= swaps.take(n));
        lemma_round_fee_stops(swaps, n + 1);
    }
}

} // verus!
