//! The values that travel inside onions and swap records: the instruction
//! for one hop, transaction inputs and outputs, and hashes.
use crate::bytes::{
    be_digits, lemma_take_bytes_of_concat, lemma_take_prefixed_of_concat,
    lemma_take_u32_of_concat, lemma_take_u8_of_concat, prefixed, put_bytes, put_prefixed, put_u32,
    take_bytes, take_prefixed, take_u32, take_u64, take_u8, Reader, SerError,
};
use crate::secp::{
    read_secret_key, take_secret_key, valid_secret_key, Commitment, RangeProof, SecretKey,
    MAX_PROOF_SIZE,
};
use vstd::prelude::*;

verus! {

/// What kind of output a coin is.
#[derive(Clone, Copy, Debug, PartialEq, Eq, Structural)]
pub enum OutputFeatures {
    /// An ordinary output.
    Plain,
    /// The reward of a block, spendable only once it has matured.
    Coinbase,
}

/// The byte that stands for `features` in binary forms.
pub open spec fn features_byte(features: OutputFeatures) -> u8 {
    match features {
        OutputFeatures::Plain => 0,
        OutputFeatures::Coinbase => 1,
    }
}

/// The features that the byte at the front of `s` stands for, and what
/// follows it.
pub open spec fn take_features(s: Seq<u8>) -> Result<(OutputFeatures, Seq<u8>), SerError> {
    match take_u8(s) {
        Ok((b, rest)) => if b == 0 {
            Ok((OutputFeatures::Plain, rest))
        } else if b == 1 {
            Ok((OutputFeatures::Coinbase, rest))
        } else {
            Err(SerError::CorruptedData)
        },
        Err(e) => Err(e),
    }
}

impl OutputFeatures {
    /// Appends the byte of the features.
    pub fn write(&self, out: &mut Vec<u8>)
        ensures
            final(out)@ == old(out)@ + seq![features_byte(*self)],
    {
        let b: u8 = match self {
            OutputFeatures::Plain => 0,
            OutputFeatures::Coinbase => 1,
        };
        let ghost before = out@;
        out.push(b);
        proof {
            assert(out@ =~= before + seq![features_byte(*self)]);
        }
    }

    /// Reads the byte of the features; any byte but 0 and 1 is
    /// `CorruptedData`.
    pub fn read(reader: &mut Reader) -> (r: Result<OutputFeatures, SerError>)
        ensures
            match take_features(old(reader).remaining()) {
                Ok((f, rest)) => r == Ok::<OutputFeatures, SerError>(f) && final(reader).remaining() == rest,
                Err(e) => r == Err::<OutputFeatures, SerError>(e),
            },
    {
        match reader.read_u8() {
            Ok(b) => if b == 0 {
                Ok(OutputFeatures::Plain)
            } else if b == 1 {
                Ok(OutputFeatures::Coinbase)
            } else {
                Err(SerError::CorruptedData)
            },
            Err(e) => Err(e),
        }
    }
}

/// An output that a transaction spends.
#[derive(Clone, Copy, Debug, PartialEq, Eq)]
pub struct Input {
    /// The features of the output being spent.
    pub features: OutputFeatures,
    /// The commitment of the output being spent.
    pub commit: Commitment,
}

/// What an input holds.
pub struct InputView {
    pub features: OutputFeatures,
    pub commit: Seq<u8>,
}

impl View for Input {
    type V = InputView;

    open spec fn view(&self) -> InputView {
        InputView { features: self.features, commit: self.commit@ }
    }
}

/// The binary form of an input: the features' byte, then the commitment.
pub open spec fn spec_input_bytes(input: InputView) -> Seq<u8> {
    seq![features_byte(input.features)] + input.commit
}

/// An input off the front of `s`, and what follows it.
pub open spec fn take_input(s: Seq<u8>) -> Result<(InputView, Seq<u8>), SerError> {
    match take_features(s) {
        Ok((features, r1)) => match take_bytes(r1, 33) {
            Ok((commit, r2)) => Ok((InputView { features, commit }, r2)),
            Err(e) => Err(e),
        },
        Err(e) => Err(e),
    }
}

/// An input that was written is read back as it was.
pub proof fn lemma_input_round_trip(input: InputView, rest: Seq<u8>)
    requires
        input.commit.len() == 33,
    ensures
        take_input(spec_input_bytes(input) + rest) == Ok::<(InputView, Seq<u8>), SerError>(
            (input, rest),
        ),
{
    let r1 = input.commit + rest;
    assert(spec_input_bytes(input) + rest =~= seq![features_byte(input.features)] + r1);
    lemma_take_u8_of_concat(features_byte(input.features), r1);
    lemma_take_bytes_of_concat(input.commit, rest);
}

/// The 33 bytes of `data` as a commitment.
pub(crate) fn commitment_from_bytes(data: &[u8]) -> (r: Commitment)
    requires
        data@.len() == 33,
    ensures
        r@ == data@,
{
    let c = Commitment::from_vec(data);
    proof {
        assert(c@ =~= data@);
    }
    c
}

impl Input {
    /// An input that spends the output with the given features and
    /// commitment.
    pub fn new(features: OutputFeatures, commit: Commitment) -> (r: Input)
        ensures
            r == (Input { features, commit }),
    {
        Input { features, commit }
    }

    /// Appends the binary form.
    pub fn write(&self, out: &mut Vec<u8>)
        ensures
            final(out)@ == old(out)@ + spec_input_bytes(self@),
    {
        let ghost before = out@;
        self.features.write(out);
        put_bytes(out, &self.commit.0);
        proof {
            assert(out@ =~= before + spec_input_bytes(self@));
        }
    }

    /// Reads the binary form.
    pub fn read(reader: &mut Reader) -> (r: Result<Input, SerError>)
        ensures
            match take_input(old(reader).remaining()) {
                Ok((input, rest)) => r is Ok && r->Ok_0@ == input && final(reader).remaining()
                    == rest,
                Err(e) => r == Err::<Input, SerError>(e),
            },
    {
        let features = match OutputFeatures::read(reader) {
            Ok(f) => f,
            Err(e) => { return Err(e); },
        };
        let bytes = match reader.read_fixed_bytes(33) {
            Ok(b) => b,
            Err(e) => { return Err(e); },
        };
        Ok(Input { features, commit: commitment_from_bytes(bytes.as_slice()) })
    }
}

/// An output that a transaction creates.
#[derive(Clone, Debug, PartialEq, Eq)]
pub struct Output {
    /// The features of the output.
    pub features: OutputFeatures,
    /// The commitment of the output.
    pub commit: Commitment,
    /// The proof that the committed value lies in range.
    pub rangeproof: RangeProof,
}

/// What an output holds.
pub struct OutputView {
    pub features: OutputFeatures,
    pub commit: Seq<u8>,
    pub rangeproof: Seq<u8>,
}

impl View for Output {
    type V = OutputView;

    open spec fn view(&self) -> OutputView {
        OutputView { features: self.features, commit: self.commit@, rangeproof: self.rangeproof@ }
    }
}

/// The 32 bytes that identify a kernel or a block.
#[derive(Clone, Copy, Debug, PartialEq, Eq, Hash)]
pub struct Hash(pub [u8; 32]);

impl View for Hash {
    type V = Seq<u8>;

    open spec fn view(&self) -> Seq<u8> {
        self.0@
    }
}

/// The 32 bytes of `data` as a hash.
pub(crate) fn hash_from_bytes(data: &[u8]) -> (r: Hash)
    requires
        data@.len() == 32,
    ensures
        r@ == data@,
{
    let mut bytes: [u8; 32] = [0u8; 32];
    let mut i: usize = 0;
    while i < 32
        invariant
            i <= 32,
            data@.len() == 32,
            forall|j: int| 0 <= j < i ==> bytes@[j] == data@[j],
        decreases 32 - i,
    {
        bytes[i] = data[i];
        i += 1;
    }
    proof {
        assert(bytes@ =~= data@);
    }
    Hash(bytes)
}

/// The binary form of a range proof that may be absent: the byte 0 for
/// none, else the byte 1 and the proof behind its length.
pub open spec fn spec_optional_proof_bytes(rangeproof: Option<Seq<u8>>) -> Seq<u8> {
    match rangeproof {
        Some(p) => seq![1u8] + prefixed(p),
        None => seq![0u8],
    }
}

/// A range proof behind its length off the front of `s`, and what follows
/// it. A length above `MAX_PROOF_SIZE` is `CorruptedData`.
pub open spec fn take_proof(s: Seq<u8>) -> Result<(Seq<u8>, Seq<u8>), SerError> {
    match take_u64(s) {
        Ok((n, rest)) => if n > MAX_PROOF_SIZE {
            Err(SerError::CorruptedData)
        } else {
            take_bytes(rest, n as nat)
        },
        Err(e) => Err(e),
    }
}

/// A range proof that may be absent off the front of `s`, and what follows
/// it. Any tag but 0 announces a proof.
pub open spec fn take_optional_proof(s: Seq<u8>) -> Result<(Option<Seq<u8>>, Seq<u8>), SerError> {
    match take_u8(s) {
        Ok((tag, r1)) => if tag == 0 {
            Ok((None, r1))
        } else {
            match take_proof(r1) {
                Ok((p, r2)) => Ok((Some(p), r2)),
                Err(e) => Err(e),
            }
        },
        Err(e) => Err(e),
    }
}

/// A range proof that was written, or its absence, is read back as it was.
pub proof fn lemma_optional_proof_round_trip(rangeproof: Option<Seq<u8>>, rest: Seq<u8>)
    requires
        rangeproof matches Some(p) ==> p.len() <= MAX_PROOF_SIZE,
    ensures
        take_optional_proof(spec_optional_proof_bytes(rangeproof) + rest) == Ok::<
            (Option<Seq<u8>>, Seq<u8>),
            SerError,
        >((rangeproof, rest)),
{
    match rangeproof {
        Some(p) => {
            let r1 = prefixed(p) + rest;
            assert(spec_optional_proof_bytes(rangeproof) + rest =~= seq![1u8] + r1);
            lemma_take_u8_of_concat(1u8, r1);
            lemma_take_prefixed_of_concat(p, rest);
            assert(take_prefixed(r1) == Ok::<(Seq<u8>, Seq<u8>), SerError>((p, rest)));
        },
        None => {
            lemma_take_u8_of_concat(0u8, rest);
        },
    }
}

/// Appends the binary form of a range proof that may be absent.
pub fn write_optional_proof(rangeproof: &Option<RangeProof>, out: &mut Vec<u8>)
    ensures
        final(out)@ == old(out)@ + spec_optional_proof_bytes(optional_proof_view(*rangeproof)),
        rangeproof matches Some(p) ==> p@.len() <= MAX_PROOF_SIZE,
{
    let ghost before = out@;
    match rangeproof {
        Some(p) => {
            out.push(1u8);
            put_prefixed(out, p.bytes());
            proof {
                assert(out@ =~= before + (seq![1u8] + prefixed(p@)));
            }
        },
        None => {
            out.push(0u8);
            proof {
                assert(out@ =~= before + seq![0u8]);
            }
        },
    }
}

/// Reads the binary form of a range proof that may be absent.
pub fn read_optional_proof(reader: &mut Reader) -> (r: Result<Option<RangeProof>, SerError>)
    ensures
        match take_optional_proof(old(reader).remaining()) {
            Ok((p, rest)) => r is Ok && optional_proof_view(r->Ok_0) == p && final(reader).remaining() == rest,
            Err(e) => r == Err::<Option<RangeProof>, SerError>(e),
        },
{
    let tag = match reader.read_u8() {
        Ok(t) => t,
        Err(e) => { return Err(e); },
    };
    if tag == 0 {
        return Ok(None);
    }
    let n = match reader.read_u64() {
        Ok(n) => n,
        Err(e) => { return Err(e); },
    };
    if n > MAX_PROOF_SIZE as u64 {
        return Err(SerError::CorruptedData);
    }
    let bytes = match reader.read_fixed_bytes(n as usize) {
        Ok(b) => b,
        Err(e) => { return Err(e); },
    };
    match RangeProof::new(bytes) {
        Some(p) => Ok(Some(p)),
        None => Err(SerError::CorruptedData),
    }
}

/// The bytes of a range proof that may be absent.
pub open spec fn optional_proof_view(rangeproof: Option<RangeProof>) -> Option<Seq<u8>> {
    match rangeproof {
        Some(p) => Some(p@),
        None => None,
    }
}

/// What one hop is told: the blinding factor to add, the fee to take, and,
/// for the last hop, the range proof of the output.
#[derive(Debug, PartialEq)]
pub struct Payload {
    /// The blinding factor that the hop adds to the commitment.
    pub excess: SecretKey,
    /// The fee that the hop takes off the committed value.
    pub fee: u64,
    /// The range proof of the output; only the last hop is given one.
    pub rangeproof: Option<RangeProof>,
}

/// What a payload holds.
pub struct PayloadView {
    pub excess: Seq<u8>,
    pub fee: u64,
    pub rangeproof: Option<Seq<u8>>,
}

impl View for Payload {
    type V = PayloadView;

    open spec fn view(&self) -> PayloadView {
        PayloadView {
            excess: self.excess@,
            fee: self.fee,
            rangeproof: optional_proof_view(self.rangeproof),
        }
    }
}

/// A copy of a range proof that may be absent.
pub fn clone_optional_proof(rangeproof: &Option<RangeProof>) -> (r: Option<RangeProof>)
    ensures
        optional_proof_view(r) == optional_proof_view(*rangeproof),
{
    match rangeproof {
        Some(p) => Some(p.clone()),
        None => None,
    }
}

impl Clone for Payload {
    fn clone(&self) -> (r: Self)
        ensures
            r@ == self@,
    {
        Payload {
            excess: self.excess.clone(),
            fee: self.fee,
            rangeproof: clone_optional_proof(&self.rangeproof),
        }
    }
}

/// Whether the parts of `payload` are what a payload can hold.
pub open spec fn payload_wf(payload: PayloadView) -> bool {
    &&& payload.excess.len() == 32
    &&& valid_secret_key(payload.excess)
    &&& payload.rangeproof matches Some(p) ==> p.len() <= MAX_PROOF_SIZE
}

/// Whether the fee fits the 32 bits that the binary form gives it.
pub open spec fn payload_encodable(payload: PayloadView) -> bool {
    payload.fee <= u32::MAX
}

/// The binary form of a payload: the excess in 32 bytes, the fee in 4, and
/// the range proof that may be absent.
pub open spec fn spec_payload_bytes(payload: PayloadView) -> Seq<u8> {
    payload.excess + be_digits(payload.fee as nat, 4) + spec_optional_proof_bytes(
        payload.rangeproof,
    )
}

/// A payload off the front of `s`, and what follows it.
pub open spec fn take_payload(s: Seq<u8>) -> Result<(PayloadView, Seq<u8>), SerError> {
    match take_secret_key(s) {
        Ok((excess, r1)) => match take_u32(r1) {
            Ok((fee, r2)) => match take_optional_proof(r2) {
                Ok((rangeproof, r3)) => Ok(
                    (PayloadView { excess, fee: fee as u64, rangeproof }, r3),
                ),
                Err(e) => Err(e),
            },
            Err(e) => Err(e),
        },
        Err(e) => Err(e),
    }
}

/// A payload that was written is read back as it was, and what followed it
/// is left.
pub proof fn lemma_payload_round_trip(payload: PayloadView, rest: Seq<u8>)
    requires
        payload_wf(payload),
        payload_encodable(payload),
    ensures
        take_payload(spec_payload_bytes(payload) + rest) == Ok::<(PayloadView, Seq<u8>), SerError>(
            (payload, rest),
        ),
{
    let r2 = spec_optional_proof_bytes(payload.rangeproof) + rest;
    let r1 = be_digits(payload.fee as nat, 4) + r2;
    assert(spec_payload_bytes(payload) + rest =~= payload.excess + r1);
    lemma_take_bytes_of_concat(payload.excess, r1);
    lemma_take_u32_of_concat(payload.fee as u32, r2);
    lemma_optional_proof_round_trip(payload.rangeproof, rest);
}

impl Payload {
    /// Appends the binary form. A fee of more than 32 bits is refused, and
    /// nothing is appended.
    pub fn write(&self, out: &mut Vec<u8>) -> (r: Result<(), SerError>)
        ensures
            payload_wf(self@),
            payload_encodable(self@) ==> r is Ok && final(out)@ == old(out)@ + spec_payload_bytes(
                self@,
            ),
            !payload_encodable(self@) ==> r == Err::<(), SerError>(SerError::FeeOutOfRange)
                && final(out)@ == old(out)@,
    {
        let ghost before = out@;
        let excess = self.excess.as_bytes();
        match &self.rangeproof {
            Some(p) => {
                let _ = p.bytes();
            },
            None => {},
        }
        if self.fee > u32::MAX as u64 {
            return Err(SerError::FeeOutOfRange);
        }
        put_bytes(out, excess);
        put_u32(out, self.fee as u32);
        write_optional_proof(&self.rangeproof, out);
        proof {
            assert(out@ =~= before + spec_payload_bytes(self@));
        }
        Ok(())
    }

    /// The binary form. A fee of more than 32 bits is refused.
    pub fn serialize(&self) -> (r: Result<Vec<u8>, SerError>)
        ensures
            payload_wf(self@),
            payload_encodable(self@) ==> r is Ok && r->Ok_0@ == spec_payload_bytes(self@),
            !payload_encodable(self@) ==> r == Err::<Vec<u8>, SerError>(SerError::FeeOutOfRange),
    {
        let mut out: Vec<u8> = Vec::new();
        match self.write(&mut out) {
            Ok(()) => {
                proof {
                    assert(out@ =~= spec_payload_bytes(self@));
                }
                Ok(out)
            },
            Err(e) => Err(e),
        }
    }

    /// Reads the binary form.
    pub fn read(reader: &mut Reader) -> (r: Result<Payload, SerError>)
        ensures
            match take_payload(old(reader).remaining()) {
                Ok((p, rest)) => r is Ok && r->Ok_0@ == p && final(reader).remaining() == rest,
                Err(e) => r == Err::<Payload, SerError>(e),
            },
    {
        let excess = match read_secret_key(reader) {
            Ok(k) => k,
            Err(e) => { return Err(e); },
        };
        let fee = match reader.read_u32() {
            Ok(f) => f,
            Err(e) => { return Err(e); },
        };
        let rangeproof = match read_optional_proof(reader) {
            Ok(p) => p,
            Err(e) => { return Err(e); },
        };
        Ok(Payload { excess, fee: fee as u64, rangeproof })
    }

    /// The payload whose binary form `data` is. Bytes behind the payload
    /// are `CorruptedData`: what a hop decrypts with a key that is not its
    /// own must not pass for a payload because its first bytes happen to
    /// read as one. What `serialize` wrote is read back as the payload it
    /// was written from.
    pub fn deserialize(data: &[u8]) -> (r: Result<Payload, SerError>)
        ensures
            match spec_payload_from_bytes(data@) {
                Ok(p) => r is Ok && r->Ok_0@ == p,
                Err(e) => r == Err::<Payload, SerError>(e),
            },
    {
        let mut reader = Reader::new(data);
        let payload = match Payload::read(&mut reader) {
            Ok(p) => p,
            Err(e) => { return Err(e); },
        };
        if reader.remaining_len() != 0 {
            return Err(SerError::CorruptedData);
        }
        Ok(payload)
    }
}

/// The payload whose binary form `data` is, with nothing behind it.
pub open spec fn spec_payload_from_bytes(data: Seq<u8>) -> Result<PayloadView, SerError> {
    match take_payload(data) {
        Ok((payload, rest)) => if rest.len() == 0 {
            Ok(payload)
        } else {
            Err(SerError::CorruptedData)
        },
        Err(e) => Err(e),
    }
}

/// The binary form of a payload is read back as the payload.
pub proof fn lemma_payload_from_bytes(payload: PayloadView)
    requires
        payload_wf(payload),
        payload_encodable(payload),
    ensures
        spec_payload_from_bytes(spec_payload_bytes(payload)) == Ok::<PayloadView, SerError>(
            payload,
        ),
{
    lemma_payload_round_trip(payload, Seq::<u8>::empty());
    assert(spec_payload_bytes(payload) + Seq::<u8>::empty() =~= spec_payload_bytes(payload));
}

} // verus!
