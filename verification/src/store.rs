//! The swap records and the table that holds them.
//!
//! A record is kept for every swap that was accepted, under the commitment
//! of the input that it spends: one input, one swap. The table keeps the
//! records in the order of their keys, which is the order in which a round
//! goes through them. The binary form of a record and of its key is what a
//! durable store holds; writing to disk is left to the program around this
//! library.
use crate::bytes::{
    be_digits, lemma_lex_lt_irreflexive, lemma_lex_lt_prefixed, lemma_lex_lt_total,
    lemma_lex_lt_transitive, lemma_take_bytes_of_concat, lemma_take_u64_of_concat,
    lemma_take_u8_of_concat, lex_less, lex_lt, put_bytes, put_u64, take_bytes, take_u64, take_u8,
    Reader, SerError,
};
use crate::onion::{lemma_onion_round_trip, onion_wf, spec_onion_bytes, take_onion, Onion, OnionView};
use crate::secp::{
    read_secret_key, take_secret_key, valid_secret_key, Commitment, RangeProof, SecretKey,
    MAX_PROOF_SIZE,
};
use crate::types::{
    clone_optional_proof, commitment_from_bytes, hash_from_bytes, lemma_input_round_trip,
    lemma_optional_proof_round_trip, optional_proof_view, read_optional_proof, spec_input_bytes,
    spec_optional_proof_bytes, take_input, take_optional_proof, write_optional_proof, Input,
    InputView,
};
use vstd::prelude::*;

verus! {

/// The version tag that every record begins with.
pub const CURRENT_VERSION: u8 = 0;

/// The byte that every key of a swap record begins with: the letter `S`.
pub const SWAP_PREFIX: u8 = 0x53;

/// How far a swap has come.
#[derive(Clone, Copy, Debug, PartialEq, Eq)]
pub enum SwapStatus {
    /// Accepted, and in no transaction yet.
    Unprocessed,
    /// In a transaction that was posted to the node.
    InProcess { kernel_hash: crate::types::Hash },
    /// In a transaction whose kernel was seen in a block.
    Completed { kernel_hash: crate::types::Hash, block_hash: crate::types::Hash },
}

/// What a status holds.
pub enum SwapStatusView {
    Unprocessed,
    InProcess { kernel_hash: Seq<u8> },
    Completed { kernel_hash: Seq<u8>, block_hash: Seq<u8> },
}

impl View for SwapStatus {
    type V = SwapStatusView;

    open spec fn view(&self) -> SwapStatusView {
        match *self {
            SwapStatus::Unprocessed => SwapStatusView::Unprocessed,
            SwapStatus::InProcess { kernel_hash } => SwapStatusView::InProcess {
                kernel_hash: kernel_hash@,
            },
            SwapStatus::Completed { kernel_hash, block_hash } => SwapStatusView::Completed {
                kernel_hash: kernel_hash@,
                block_hash: block_hash@,
            },
        }
    }
}

/// Whether the hashes of `status` are 32 bytes each.
pub open spec fn status_wf(status: SwapStatusView) -> bool {
    match status {
        SwapStatusView::Unprocessed => true,
        SwapStatusView::InProcess { kernel_hash } => kernel_hash.len() == 32,
        SwapStatusView::Completed { kernel_hash, block_hash } => kernel_hash.len() == 32
            && block_hash.len() == 32,
    }
}

/// The binary form of a status: the tag 0, or the tag 1 and the kernel
/// hash, or the tag 2, the kernel hash and the block hash.
pub open spec fn spec_status_bytes(status: SwapStatusView) -> Seq<u8> {
    match status {
        SwapStatusView::Unprocessed => seq![0u8],
        SwapStatusView::InProcess { kernel_hash } => seq![1u8] + kernel_hash,
        SwapStatusView::Completed { kernel_hash, block_hash } => seq![2u8] + kernel_hash
            + block_hash,
    }
}

/// A status off the front of `s`, and what follows it. A tag above 2 is
/// `CorruptedData`.
pub open spec fn take_status(s: Seq<u8>) -> Result<(SwapStatusView, Seq<u8>), SerError> {
    match take_u8(s) {
        Ok((tag, r1)) => if tag == 0 {
            Ok((SwapStatusView::Unprocessed, r1))
        } else if tag == 1 {
            match take_bytes(r1, 32) {
                Ok((kernel_hash, r2)) => Ok((SwapStatusView::InProcess { kernel_hash }, r2)),
                Err(e) => Err(e),
            }
        } else if tag == 2 {
            match take_bytes(r1, 32) {
                Ok((kernel_hash, r2)) => match take_bytes(r2, 32) {
                    Ok((block_hash, r3)) => Ok(
                        (SwapStatusView::Completed { kernel_hash, block_hash }, r3),
                    ),
                    Err(e) => Err(e),
                },
                Err(e) => Err(e),
            }
        } else {
            Err(SerError::CorruptedData)
        },
        Err(e) => Err(e),
    }
}

/// A status that was written is read back as it was.
pub proof fn lemma_status_round_trip(status: SwapStatusView, rest: Seq<u8>)
    requires
        status_wf(status),
    ensures
        take_status(spec_status_bytes(status) + rest) == Ok::<(SwapStatusView, Seq<u8>), SerError>(
            (status, rest),
        ),
{
    match status {
        SwapStatusView::Unprocessed => {
            lemma_take_u8_of_concat(0u8, rest);
        },
        SwapStatusView::InProcess { kernel_hash } => {
            let r1 = kernel_hash + rest;
            assert(spec_status_bytes(status) + rest =~= seq![1u8] + r1);
            lemma_take_u8_of_concat(1u8, r1);
            lemma_take_bytes_of_concat(kernel_hash, rest);
        },
        SwapStatusView::Completed { kernel_hash, block_hash } => {
            let r2 = block_hash + rest;
            let r1 = kernel_hash + r2;
            assert(spec_status_bytes(status) + rest =~= seq![2u8] + r1);
            lemma_take_u8_of_concat(2u8, r1);
            lemma_take_bytes_of_concat(kernel_hash, r2);
            lemma_take_bytes_of_concat(block_hash, rest);
        },
    }
}

impl SwapStatus {
    /// Appends the binary form.
    pub fn write(&self, out: &mut Vec<u8>)
        ensures
            final(out)@ == old(out)@ + spec_status_bytes(self@),
            status_wf(self@),
    {
        let ghost before = out@;
        match self {
            SwapStatus::Unprocessed => {
                out.push(0u8);
            },
            SwapStatus::InProcess { kernel_hash } => {
                out.push(1u8);
                put_bytes(out, &kernel_hash.0);
            },
            SwapStatus::Completed { kernel_hash, block_hash } => {
                out.push(2u8);
                put_bytes(out, &kernel_hash.0);
                put_bytes(out, &block_hash.0);
            },
        }
        proof {
            assert(out@ =~= before + spec_status_bytes(self@));
        }
    }

    /// Reads the binary form.
    pub fn read(reader: &mut Reader) -> (r: Result<SwapStatus, SerError>)
        ensures
            match take_status(old(reader).remaining()) {
                Ok((status, rest)) => r is Ok && r->Ok_0@ == status && final(reader).remaining()
                    == rest,
                Err(e) => r == Err::<SwapStatus, SerError>(e),
            },
    {
        let tag = match reader.read_u8() {
            Ok(t) => t,
            Err(e) => { return Err(e); },
        };
        if tag == 0 {
            Ok(SwapStatus::Unprocessed)
        } else if tag == 1 {
            let kernel = match reader.read_fixed_bytes(32) {
                Ok(b) => b,
                Err(e) => { return Err(e); },
            };
            Ok(SwapStatus::InProcess { kernel_hash: hash_from_bytes(kernel.as_slice()) })
        } else if tag == 2 {
            let kernel = match reader.read_fixed_bytes(32) {
                Ok(b) => b,
                Err(e) => { return Err(e); },
            };
            let block = match reader.read_fixed_bytes(32) {
                Ok(b) => b,
                Err(e) => { return Err(e); },
            };
            Ok(
                SwapStatus::Completed {
                    kernel_hash: hash_from_bytes(kernel.as_slice()),
                    block_hash: hash_from_bytes(block.as_slice()),
                },
            )
        } else {
            Err(SerError::CorruptedData)
        }
    }

    /// Whether the swap is in no transaction yet.
    pub fn is_unprocessed(&self) -> (r: bool)
        ensures
            r == (self@ is Unprocessed),
    {
        match self {
            SwapStatus::Unprocessed => true,
            _ => false,
        }
    }
}

/// Data needed to swap a single output.
#[derive(Debug, PartialEq)]
pub struct SwapData {
    /// The total excess for the output commitment.
    pub excess: SecretKey,
    /// The derived output commitment after applying excess and fee.
    pub output_commit: Commitment,
    /// The range proof of the output.
    pub rangeproof: Option<RangeProof>,
    /// The transaction input being spent.
    pub input: Input,
    /// The transaction fee.
    pub fee: u64,
    /// The remaining onion after peeling off this node's layer.
    pub onion: Onion,
    /// How far the swap has come.
    pub status: SwapStatus,
}

/// What a swap record holds.
pub struct SwapDataView {
    pub excess: Seq<u8>,
    pub output_commit: Seq<u8>,
    pub rangeproof: Option<Seq<u8>>,
    pub input: InputView,
    pub fee: u64,
    pub onion: OnionView,
    pub status: SwapStatusView,
}

impl View for SwapData {
    type V = SwapDataView;

    open spec fn view(&self) -> SwapDataView {
        SwapDataView {
            excess: self.excess@,
            output_commit: self.output_commit@,
            rangeproof: optional_proof_view(self.rangeproof),
            input: self.input@,
            fee: self.fee,
            onion: self.onion@,
            status: self.status@,
        }
    }
}

impl Clone for SwapData {
    fn clone(&self) -> (r: Self)
        ensures
            r@ == self@,
    {
        SwapData {
            excess: self.excess.clone(),
            output_commit: self.output_commit,
            rangeproof: clone_optional_proof(&self.rangeproof),
            input: self.input,
            fee: self.fee,
            onion: self.onion.clone(),
            status: self.status,
        }
    }
}

/// Whether the parts of `swap` are what a record can hold.
pub open spec fn swap_wf(swap: SwapDataView) -> bool {
    &&& swap.excess.len() == 32
    &&& valid_secret_key(swap.excess)
    &&& swap.output_commit.len() == 33
    &&& swap.rangeproof matches Some(p) ==> p.len() <= MAX_PROOF_SIZE
    &&& swap.input.commit.len() == 33
    &&& onion_wf(swap.onion)
    &&& status_wf(swap.status)
}

/// The binary form of a record: the version tag, the excess, the output
/// commitment, the range proof that may be absent, the input, the fee in 8
/// bytes, the onion and the status.
pub open spec fn spec_swap_bytes(swap: SwapDataView) -> Seq<u8> {
    seq![CURRENT_VERSION] + swap.excess + swap.output_commit + spec_optional_proof_bytes(
        swap.rangeproof,
    ) + spec_input_bytes(swap.input) + be_digits(swap.fee as nat, 8) + spec_onion_bytes(
        swap.onion,
    ) + spec_status_bytes(swap.status)
}

/// A record off the front of `s`, and what follows it. Any version tag but
/// the current one is `UnsupportedProtocolVersion`.
pub open spec fn take_swap(s: Seq<u8>) -> Result<(SwapDataView, Seq<u8>), SerError> {
    match take_u8(s) {
        Err(e) => Err(e),
        Ok((version, r0)) => if version != CURRENT_VERSION {
            Err(SerError::UnsupportedProtocolVersion)
        } else {
            match take_secret_key(r0) {
                Err(e) => Err(e),
                Ok((excess, r1)) => match take_bytes(r1, 33) {
                    Err(e) => Err(e),
                    Ok((output_commit, r2)) => match take_optional_proof(r2) {
                        Err(e) => Err(e),
                        Ok((rangeproof, r3)) => match take_input(r3) {
                            Err(e) => Err(e),
                            Ok((input, r4)) => match take_u64(r4) {
                                Err(e) => Err(e),
                                Ok((fee, r5)) => match take_onion(r5) {
                                    Err(e) => Err(e),
                                    Ok((onion, r6)) => match take_status(r6) {
                                        Err(e) => Err(e),
                                        Ok((status, r7)) => Ok(
                                            (
                                                SwapDataView {
                                                    excess,
                                                    output_commit,
                                                    rangeproof,
                                                    input,
                                                    fee,
                                                    onion,
                                                    status,
                                                },
                                                r7,
                                            ),
                                        ),
                                    },
                                },
                            },
                        },
                    },
                },
            }
        },
    }
}

/// A record that was written is read back as it was, and what followed it
/// is left.
pub proof fn lemma_swap_round_trip(swap: SwapDataView, rest: Seq<u8>)
    requires
        swap_wf(swap),
    ensures
        take_swap(spec_swap_bytes(swap) + rest) == Ok::<(SwapDataView, Seq<u8>), SerError>(
            (swap, rest),
        ),
{
    let r6 = spec_status_bytes(swap.status) + rest;
    let r5 = spec_onion_bytes(swap.onion) + r6;
    let r4 = be_digits(swap.fee as nat, 8) + r5;
    let r3 = spec_input_bytes(swap.input) + r4;
    let r2 = spec_optional_proof_bytes(swap.rangeproof) + r3;
    let r1 = swap.output_commit + r2;
    let r0 = swap.excess + r1;
    lemma_swap_bytes_regrouped(swap, rest);
    assert(take_u8(spec_swap_bytes(swap) + rest) == Ok::<(u8, Seq<u8>), SerError>(
        (CURRENT_VERSION, r0),
    )) by {
        lemma_take_u8_of_concat(CURRENT_VERSION, r0);
    }
    assert(take_secret_key(r0) == Ok::<(Seq<u8>, Seq<u8>), SerError>((swap.excess, r1))) by {
        lemma_take_bytes_of_concat(swap.excess, r1);
    }
    assert(take_bytes(r1, 33) == Ok::<(Seq<u8>, Seq<u8>), SerError>((swap.output_commit, r2)))
        by {
        lemma_take_bytes_of_concat(swap.output_commit, r2);
    }
    assert(take_optional_proof(r2) == Ok::<(Option<Seq<u8>>, Seq<u8>), SerError>(
        (swap.rangeproof, r3),
    )) by {
        lemma_optional_proof_round_trip(swap.rangeproof, r3);
    }
    assert(take_input(r3) == Ok::<(InputView, Seq<u8>), SerError>((swap.input, r4))) by {
        lemma_input_round_trip(swap.input, r4);
    }
    assert(take_u64(r4) == Ok::<(u64, Seq<u8>), SerError>((swap.fee, r5))) by {
        lemma_take_u64_of_concat(swap.fee, r5);
    }
    assert(take_onion(r5) == Ok::<(OnionView, Seq<u8>), SerError>((swap.onion, r6))) by {
        lemma_onion_round_trip(swap.onion, r6);
    }
    assert(take_status(r6) == Ok::<(SwapStatusView, Seq<u8>), SerError>((swap.status, rest)))
        by {
        lemma_status_round_trip(swap.status, rest);
    }
}

/// The binary form of a record with something behind it, grouped from the
/// back: each part stands in front of all that follows it.
#[verifier::rlimit(50)]
proof fn lemma_swap_bytes_regrouped(swap: SwapDataView, rest: Seq<u8>)
    ensures
        spec_swap_bytes(swap) + rest == seq![CURRENT_VERSION] + (swap.excess + (swap.output_commit
            + (spec_optional_proof_bytes(swap.rangeproof) + (spec_input_bytes(swap.input) + (
        be_digits(swap.fee as nat, 8) + (spec_onion_bytes(swap.onion) + (spec_status_bytes(
            swap.status,
        ) + rest))))))),
{
    let a = seq![CURRENT_VERSION];
    let b = swap.excess;
    let c = swap.output_commit;
    let d = spec_optional_proof_bytes(swap.rangeproof);
    let e = spec_input_bytes(swap.input);
    let f = be_digits(swap.fee as nat, 8);
    let g = spec_onion_bytes(swap.onion);
    let h = spec_status_bytes(swap.status);
    assert((g + h) + rest =~= g + (h + rest));
    assert((f + g + h) + rest =~= f + (g + (h + rest)));
    assert((e + f + g + h) + rest =~= e + (f + (g + (h + rest))));
    assert((d + e + f + g + h) + rest =~= d + (e + (f + (g + (h + rest)))));
    assert((c + d + e + f + g + h) + rest =~= c + (d + (e + (f + (g + (h + rest))))));
    assert((b + c + d + e + f + g + h) + rest =~= b + (c + (d + (e + (f + (g + (h + rest)))))));
    assert((a + b + c + d + e + f + g + h) + rest =~= a + (b + (c + (d + (e + (f + (g + (h
        + rest))))))));
}

impl SwapData {
    /// Appends the binary form.
    pub fn write(&self, out: &mut Vec<u8>)
        ensures
            final(out)@ == old(out)@ + spec_swap_bytes(self@),
            swap_wf(self@),
    {
        let ghost before = out@;
        out.push(CURRENT_VERSION);
        put_bytes(out, self.excess.as_bytes());
        put_bytes(out, &self.output_commit.0);
        write_optional_proof(&self.rangeproof, out);
        self.input.write(out);
        put_u64(out, self.fee);
        self.onion.write(out);
        self.status.write(out);
        proof {
            assert(out@ =~= before + spec_swap_bytes(self@));
        }
    }

    /// The binary form.
    pub fn serialize(&self) -> (r: Result<Vec<u8>, SerError>)
        ensures
            r is Ok,
            r->Ok_0@ == spec_swap_bytes(self@),
            swap_wf(self@),
    {
        let mut out: Vec<u8> = Vec::new();
        self.write(&mut out);
        proof {
            assert(out@ =~= spec_swap_bytes(self@));
        }
        Ok(out)
    }

    /// Reads the binary form.
    pub fn read(reader: &mut Reader) -> (r: Result<SwapData, SerError>)
        ensures
            match take_swap(old(reader).remaining()) {
                Ok((swap, rest)) => r is Ok && r->Ok_0@ == swap && final(reader).remaining()
                    == rest,
                Err(e) => r == Err::<SwapData, SerError>(e),
            },
    {
        let version = match reader.read_u8() {
            Ok(v) => v,
            Err(e) => { return Err(e); },
        };
        if version != CURRENT_VERSION {
            return Err(SerError::UnsupportedProtocolVersion);
        }
        let excess = match read_secret_key(reader) {
            Ok(k) => k,
            Err(e) => { return Err(e); },
        };
        let commit_bytes = match reader.read_fixed_bytes(33) {
            Ok(b) => b,
            Err(e) => { return Err(e); },
        };
        let output_commit = commitment_from_bytes(commit_bytes.as_slice());
        let rangeproof = match read_optional_proof(reader) {
            Ok(p) => p,
            Err(e) => { return Err(e); },
        };
        let input = match Input::read(reader) {
            Ok(i) => i,
            Err(e) => { return Err(e); },
        };
        let fee = match reader.read_u64() {
            Ok(f) => f,
            Err(e) => { return Err(e); },
        };
        let onion = match Onion::read(reader) {
            Ok(o) => o,
            Err(e) => { return Err(e); },
        };
        let status = match SwapStatus::read(reader) {
            Ok(s) => s,
            Err(e) => { return Err(e); },
        };
        Ok(SwapData { excess, output_commit, rangeproof, input, fee, onion, status })
    }

    /// The record whose binary form `data` begins with. What `serialize`
    /// wrote is read back as the record it was written from.
    pub fn deserialize(data: &[u8]) -> (r: Result<SwapData, SerError>)
        ensures
            match take_swap(data@) {
                Ok((swap, _)) => r is Ok && r->Ok_0@ == swap,
                Err(e) => r == Err::<SwapData, SerError>(e),
            },
    {
        let mut reader = Reader::new(data);
        SwapData::read(&mut reader)
    }
}

/// Why a read from the store failed.
#[derive(Clone, Debug, PartialEq)]
pub enum ReadError {
    /// There is no record under the key.
    NotFound,
    /// The database failed; its own words follow.
    Database(String),
}

/// Why the store could not do what it was asked.
#[derive(Clone, Debug, PartialEq)]
pub enum StoreError {
    /// There is a record for the input already, and it was not to be
    /// overwritten.
    AlreadyExists(Commitment),
    /// The database could not be opened; its own words follow.
    OpenError(String),
    /// A record has no binary form, or its bytes are no record.
    SerializationError(SerError),
    /// A read failed.
    ReadError(ReadError),
    /// The database could not be written; its own words follow.
    WriteError(String),
}

/// The key of a record: the commitment of the input that it spends.
pub open spec fn swap_key(swap: SwapDataView) -> Seq<u8> {
    swap.input.commit
}

/// The key under which a durable store holds the record for the input
/// `commit`: the prefix `S`, then the 33 bytes of the commitment.
pub open spec fn spec_store_key(commit: Seq<u8>) -> Seq<u8> {
    seq![SWAP_PREFIX] + commit
}

/// The key under which a durable store holds the record for the input
/// `commit`.
pub fn store_key(commit: &Commitment) -> (r: Vec<u8>)
    ensures
        r@ == spec_store_key(commit@),
{
    let mut out: Vec<u8> = Vec::new();
    out.push(SWAP_PREFIX);
    put_bytes(&mut out, &commit.0);
    proof {
        assert(out@ =~= spec_store_key(commit@));
    }
    out
}

/// The order of the keys in a durable store is the order of the
/// commitments.
pub proof fn lemma_store_key_order(a: Seq<u8>, b: Seq<u8>)
    ensures
        lex_lt(spec_store_key(a), spec_store_key(b)) == lex_lt(a, b),
{
    lemma_lex_lt_prefixed(SWAP_PREFIX, a, b);
}

/// Whether the records stand in strictly ascending order of their keys.
pub open spec fn sorted_by_key(records: Seq<SwapDataView>) -> bool {
    forall|i: int, j: int|
        0 <= i < j < records.len() ==> lex_lt(
            swap_key(#[trigger] records[i]),
            swap_key(#[trigger] records[j]),
        )
}

/// Whether there is a record under `key`.
pub open spec fn contains_key(records: Seq<SwapDataView>, key: Seq<u8>) -> bool {
    exists|i: int| 0 <= i < records.len() && swap_key(#[trigger] records[i]) == key
}

/// How many records at the front have keys before `key`.
pub open spec fn lower_bound(records: Seq<SwapDataView>, key: Seq<u8>) -> int
    decreases records.len(),
{
    if records.len() == 0 || !lex_lt(swap_key(records[0]), key) {
        0
    } else {
        1 + lower_bound(records.drop_first(), key)
    }
}

/// The record under `key`, where there is one.
pub open spec fn spec_get(records: Seq<SwapDataView>, key: Seq<u8>) -> Option<SwapDataView> {
    let p = lower_bound(records, key);
    if p < records.len() && swap_key(records[p]) == key {
        Some(records[p])
    } else {
        None
    }
}

/// The records after `swap` was saved: in the place of the record with its
/// key, where there was one, else in the place that its key gives it.
pub open spec fn spec_save(records: Seq<SwapDataView>, swap: SwapDataView) -> Seq<SwapDataView> {
    let p = lower_bound(records, swap_key(swap));
    if p < records.len() && swap_key(records[p]) == swap_key(swap) {
        records.update(p, swap)
    } else {
        records.insert(p, swap)
    }
}

/// The records before the lower bound have keys before `key`; the record at
/// the lower bound has not.
pub proof fn lemma_lower_bound(records: Seq<SwapDataView>, key: Seq<u8>)
    ensures
        0 <= lower_bound(records, key) <= records.len(),
        forall|j: int|
            0 <= j < lower_bound(records, key) ==> lex_lt(swap_key(#[trigger] records[j]), key),
        lower_bound(records, key) < records.len() ==> !lex_lt(
            swap_key(records[lower_bound(records, key)]),
            key,
        ),
    decreases records.len(),
{
    if records.len() > 0 && lex_lt(swap_key(records[0]), key) {
        let tail = records.drop_first();
        lemma_lower_bound(tail, key);
        assert forall|j: int| 0 <= j < lower_bound(records, key) implies lex_lt(
            swap_key(#[trigger] records[j]),
            key,
        ) by {
            if j > 0 {
                assert(records[j] == tail[j - 1]);
            }
        }
        if lower_bound(records, key) < records.len() {
            assert(records[lower_bound(records, key)] == tail[lower_bound(tail, key)]);
        }
    }
}

/// In sorted records a key is found at its lower bound or nowhere.
pub proof fn lemma_found_at_lower_bound(records: Seq<SwapDataView>, key: Seq<u8>, i: int)
    requires
        sorted_by_key(records),
        0 <= i < records.len(),
        swap_key(records[i]) == key,
    ensures
        lower_bound(records, key) == i,
{
    let p = lower_bound(records, key);
    lemma_lower_bound(records, key);
    lemma_lex_lt_irreflexive(key);
    if i < p {
        assert(lex_lt(swap_key(records[i]), key));
    } else if p < i {
        assert(lex_lt(swap_key(records[p]), swap_key(records[i])));
    }
}

/// In sorted records there is a record under a key exactly where `spec_get`
/// finds one.
pub proof fn lemma_contains_is_get(records: Seq<SwapDataView>, key: Seq<u8>)
    requires
        sorted_by_key(records),
    ensures
        contains_key(records, key) == spec_get(records, key).is_some(),
{
    lemma_lower_bound(records, key);
    if contains_key(records, key) {
        let i = choose|i: int| 0 <= i < records.len() && swap_key(#[trigger] records[i]) == key;
        lemma_found_at_lower_bound(records, key, i);
    }
}

/// Saving keeps the records in order.
pub proof fn lemma_save_keeps_order(records: Seq<SwapDataView>, swap: SwapDataView)
    requires
        sorted_by_key(records),
    ensures
        sorted_by_key(spec_save(records, swap)),
{
    let key = swap_key(swap);
    let p = lower_bound(records, key);
    let saved = spec_save(records, swap);
    lemma_lower_bound(records, key);
    if p < records.len() {
        lemma_lex_lt_total(swap_key(records[p]), key);
    }
    assert forall|i: int, j: int| 0 <= i < j < saved.len() implies lex_lt(
        swap_key(#[trigger] saved[i]),
        swap_key(#[trigger] saved[j]),
    ) by {
        if p < records.len() && swap_key(records[p]) == key {
            // One record was replaced by one of the same key.
            assert(swap_key(saved[i]) == swap_key(records[i]));
            assert(swap_key(saved[j]) == swap_key(records[j]));
        } else {
            // One record was put in between those before and those after.
            if j < p {
                assert(saved[i] == records[i] && saved[j] == records[j]);
            } else if j == p {
                assert(saved[i] == records[i]);
            } else if i < p {
                assert(saved[i] == records[i] && saved[j] == records[j - 1]);
            } else if i == p {
                assert(saved[j] == records[j - 1]);
                if j - 1 > p {
                    assert(lex_lt(swap_key(records[p]), swap_key(records[j - 1])));
                    lemma_lex_lt_transitive(key, swap_key(records[p]), swap_key(records[j - 1]));
                }
            } else {
                assert(saved[i] == records[i - 1] && saved[j] == records[j - 1]);
            }
        }
    }
}

/// After a record was saved, the store holds it under its key.
pub proof fn lemma_get_after_save(records: Seq<SwapDataView>, swap: SwapDataView)
    requires
        sorted_by_key(records),
    ensures
        spec_get(spec_save(records, swap), swap_key(swap)) == Some(swap),
        contains_key(spec_save(records, swap), swap_key(swap)),
{
    let key = swap_key(swap);
    let p = lower_bound(records, key);
    let saved = spec_save(records, swap);
    lemma_lower_bound(records, key);
    lemma_save_keeps_order(records, swap);
    assert(saved[p] == swap);
    lemma_found_at_lower_bound(saved, key, p);
}

/// Saving a record changes nothing under any other key.
pub proof fn lemma_get_other_after_save(
    records: Seq<SwapDataView>,
    swap: SwapDataView,
    key: Seq<u8>,
)
    requires
        sorted_by_key(records),
        key != swap_key(swap),
    ensures
        spec_get(spec_save(records, swap), key) == spec_get(records, key),
{
    let p = lower_bound(records, swap_key(swap));
    let saved = spec_save(records, swap);
    let replaced = p < records.len() && swap_key(records[p]) == swap_key(swap);
    lemma_lower_bound(records, swap_key(swap));
    lemma_save_keeps_order(records, swap);
    lemma_contains_is_get(records, key);
    lemma_contains_is_get(saved, key);
    if contains_key(records, key) {
        let i = choose|i: int| 0 <= i < records.len() && swap_key(#[trigger] records[i]) == key;
        lemma_found_at_lower_bound(records, key, i);
        let i2 = if replaced || i < p {
            i
        } else {
            i + 1
        };
        assert(saved[i2] == records[i]);
        lemma_found_at_lower_bound(saved, key, i2);
    } else if contains_key(saved, key) {
        let j = choose|j: int| 0 <= j < saved.len() && swap_key(#[trigger] saved[j]) == key;
        let j2 = if replaced || j < p {
            j
        } else {
            j - 1
        };
        assert(saved[j] == records[j2]);
        assert(swap_key(records[j2]) == key);
    }
}

/// A second save of a record for the same input, without leave to
/// overwrite, is refused; with leave to overwrite a save is never refused.
pub proof fn lemma_save_twice(records: Seq<SwapDataView>, first: SwapDataView, second: SwapDataView)
    requires
        sorted_by_key(records),
        swap_key(first) == swap_key(second),
        spec_save_outcome(records, first, false) is Ok,
    ensures
        spec_save_outcome(spec_save_outcome(records, first, false)->Ok_0, second, false) is Err,
        spec_save_outcome(spec_save_outcome(records, first, false)->Ok_0, second, true) is Ok,
{
    lemma_get_after_save(records, first);
}

/// What a save comes to: the records after it, or a refusal where there is
/// a record for the input already and it is not to be overwritten.
pub open spec fn spec_save_outcome(
    records: Seq<SwapDataView>,
    swap: SwapDataView,
    overwrite: bool,
) -> Result<Seq<SwapDataView>, ()> {
    if !overwrite && contains_key(records, swap_key(swap)) {
        Err(())
    } else {
        Ok(spec_save(records, swap))
    }
}

/// What a list of records holds.
pub open spec fn swap_views(swaps: Seq<SwapData>) -> Seq<SwapDataView> {
    Seq::new(swaps.len(), |i: int| swaps[i]@)
}

/// The table of swap records, in ascending order of the commitments of
/// their inputs, with no two records for one input.
pub struct SwapStore {
    swaps: Vec<SwapData>,
}

impl View for SwapStore {
    type V = Seq<SwapDataView>;

    closed spec fn view(&self) -> Seq<SwapDataView> {
        swap_views(self.swaps@)
    }
}

impl SwapStore {
    #[verifier::type_invariant]
    pub closed spec fn inv(self) -> bool {
        sorted_by_key(swap_views(self.swaps@))
    }

    /// An empty table.
    pub fn new() -> (r: SwapStore)
        ensures
            r@ == Seq::<SwapDataView>::empty(),
    {
        let swaps: Vec<SwapData> = Vec::new();
        proof {
            assert(swap_views(swaps@) =~= Seq::<SwapDataView>::empty());
        }
        SwapStore { swaps }
    }

    /// How many records the table holds.
    pub fn len(&self) -> (n: usize)
        ensures
            n == self@.len(),
            sorted_by_key(self@),
    {
        proof {
            use_type_invariant(self);
        }
        self.swaps.len()
    }

    /// The place of `commit` in the order of the keys.
    fn position(&self, commit: &Commitment) -> (p: usize)
        ensures
            p == lower_bound(self@, commit@),
            p <= self@.len(),
    {
        let ghost records = swap_views(self.swaps@);
        let mut i: usize = 0;
        proof {
            assert(records.skip(0) =~= records);
        }
        while i < self.swaps.len()
            invariant
                i <= self.swaps@.len(),
                records == swap_views(self.swaps@),
                lower_bound(records, commit@) == i + lower_bound(records.skip(i as int), commit@),
            decreases self.swaps@.len() - i,
        {
            proof {
                assert(records.skip(i as int)[0] == self.swaps@[i as int]@);
                assert(records.skip(i as int).drop_first() =~= records.skip(i + 1));
            }
            if !lex_less(&self.swaps[i].input.commit.0, &commit.0) {
                return i;
            }
            i += 1;
        }
        proof {
            assert(records.skip(i as int).len() == 0);
        }
        i
    }

    /// Saves a swap under the commitment of its input. Where the table
    /// holds a record for that input already, the record is replaced if
    /// `overwrite` allows it, else the save is refused with `AlreadyExists`
    /// and the table stays as it was.
    pub fn save_swap(&mut self, s: &SwapData, overwrite: bool) -> (r: Result<(), StoreError>)
        ensures
            sorted_by_key(old(self)@),
            match spec_save_outcome(old(self)@, s@, overwrite) {
                Ok(records) => r is Ok && final(self)@ == records,
                Err(_) => r == Err::<(), StoreError>(StoreError::AlreadyExists(s.input.commit))
                    && final(self)@ == old(self)@,
            },
    {
        proof {
            use_type_invariant(&*self);
            lemma_contains_is_get(self@, s@.input.commit);
            lemma_save_keeps_order(self@, s@);
        }
        let ghost records = self@;
        let p = self.position(&s.input.commit);
        let present = p < self.swaps.len() && self.swaps[p].input.commit.equals(&s.input.commit);
        if present && !overwrite {
            return Err(StoreError::AlreadyExists(s.input.commit));
        }
        // The records are taken out of the table, changed, and put back.
        let mut swaps: Vec<SwapData> = Vec::new();
        proof {
            assert(swap_views(swaps@) =~= Seq::<SwapDataView>::empty());
        }
        std::mem::swap(&mut self.swaps, &mut swaps);
        if present {
            let _ = swaps.remove(p);
            swaps.insert(p, s.clone());
            proof {
                assert(swap_views(swaps@) =~= records.update(p as int, s@));
            }
        } else {
            swaps.insert(p, s.clone());
            proof {
                assert(swap_views(swaps@) =~= records.insert(p as int, s@));
            }
        }
        std::mem::swap(&mut self.swaps, &mut swaps);
        Ok(())
    }

    /// The record for the input `commit`, or `ReadError(NotFound)`.
    pub fn get_swap(&self, commit: &Commitment) -> (r: Result<SwapData, StoreError>)
        ensures
            match spec_get(self@, commit@) {
                Some(swap) => r is Ok && r->Ok_0@ == swap,
                None => r == Err::<SwapData, StoreError>(
                    StoreError::ReadError(ReadError::NotFound),
                ),
            },
            r is Ok == contains_key(self@, commit@),
    {
        proof {
            use_type_invariant(self);
            lemma_contains_is_get(self@, commit@);
        }
        let p = self.position(commit);
        if p < self.swaps.len() && self.swaps[p].input.commit.equals(commit) {
            Ok(self.swaps[p].clone())
        } else {
            Err(StoreError::ReadError(ReadError::NotFound))
        }
    }

    /// Whether there is a record for the input `commit`.
    pub fn swap_exists(&self, commit: &Commitment) -> (r: Result<bool, StoreError>)
        ensures
            r is Ok,
            r->Ok_0 == contains_key(self@, commit@),
    {
        proof {
            use_type_invariant(self);
            lemma_contains_is_get(self@, commit@);
        }
        let p = self.position(commit);
        Ok(p < self.swaps.len() && self.swaps[p].input.commit.equals(commit))
    }

    /// All records, in ascending order of the commitments of their inputs.
    pub fn swaps_iter(&self) -> (r: Result<Vec<SwapData>, StoreError>)
        ensures
            r is Ok,
            swap_views(r->Ok_0@) == self@,
            sorted_by_key(self@),
    {
        proof {
            use_type_invariant(self);
        }
        let mut out: Vec<SwapData> = Vec::new();
        let mut i: usize = 0;
        while i < self.swaps.len()
            invariant
                i <= self.swaps@.len(),
                swap_views(out@) == swap_views(self.swaps@).take(i as int),
            decreases self.swaps@.len() - i,
        {
            let ghost before = swap_views(out@);
            let swap = self.swaps[i].clone();
            out.push(swap);
            proof {
                assert(swap_views(out@) =~= before.push(self.swaps@[i as int]@));
                assert(swap_views(self.swaps@).take(i + 1) =~= swap_views(self.swaps@).take(
                    i as int,
                ).push(self.swaps@[i as int]@));
            }
            i += 1;
        }
        proof {
            assert(swap_views(self.swaps@).take(i as int) =~= swap_views(self.swaps@));
        }
        Ok(out)
    }
}

} // verus!
