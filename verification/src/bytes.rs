//! Big-endian integers, byte-string comparison and a cursor over a byte slice.
//!
//! Every binary format of this crate is built from the few primitives of this
//! module: fixed-width big-endian integers, runs of raw bytes and runs of bytes
//! behind a 64-bit length.
use vstd::prelude::*;

verus! {

/// Why a binary form could not be written or read.
#[derive(Clone, Copy, Debug, PartialEq, Eq, Structural)]
pub enum SerError {
    /// The input ended before the value did.
    UnexpectedEof,
    /// The bytes are no encoding of a value of the expected type.
    CorruptedData,
    /// The record carries a version tag that this library does not read.
    UnsupportedProtocolVersion,
    /// The fee does not fit the 32 bits that the wire form gives it.
    FeeOutOfRange,
    /// There is more data than one keystream can take.
    TooLarge,
}

/// `256^n`.
pub open spec fn pow256(n: nat) -> nat
    decreases n,
{
    if n == 0 {
        1
    } else {
        256 * pow256((n - 1) as nat)
    }
}

/// The `n` low base-256 digits of `x`, most significant first.
pub open spec fn be_digits(x: nat, n: nat) -> Seq<u8>
    decreases n,
{
    if n == 0 {
        Seq::empty()
    } else {
        be_digits(x / 256, (n - 1) as nat).push((x % 256) as u8)
    }
}

/// The number whose base-256 digits, most significant first, are `s`.
pub open spec fn be_value(s: Seq<u8>) -> nat
    decreases s.len(),
{
    if s.len() == 0 {
        0
    } else {
        be_value(s.drop_last()) * 256 + s.last() as nat
    }
}

pub proof fn lemma_pow256_values()
    ensures
        pow256(0) == 1,
        pow256(1) == 0x100,
        pow256(2) == 0x1_0000,
        pow256(3) == 0x100_0000,
        pow256(4) == 0x1_0000_0000,
        pow256(5) == 0x100_0000_0000,
        pow256(6) == 0x1_0000_0000_0000,
        pow256(7) == 0x100_0000_0000_0000,
        pow256(8) == 0x1_0000_0000_0000_0000,
{
    reveal_with_fuel(pow256, 10);
}

pub proof fn lemma_be_digits_len(x: nat, n: nat)
    ensures
        be_digits(x, n).len() == n,
    decreases n,
{
    if n > 0 {
        lemma_be_digits_len(x / 256, (n - 1) as nat);
    }
}

pub proof fn lemma_be_value_bound(s: Seq<u8>)
    ensures
        be_value(s) < pow256(s.len()),
    decreases s.len(),
{
    if s.len() > 0 {
        lemma_be_value_bound(s.drop_last());
    }
}

/// Reading the digits of a number that fits gives the number back.
pub proof fn lemma_be_value_of_digits(x: nat, n: nat)
    requires
        x < pow256(n),
    ensures
        be_value(be_digits(x, n)) == x,
    decreases n,
{
    if n > 0 {
        let hi = be_digits(x / 256, (n - 1) as nat);
        lemma_be_digits_len(x / 256, (n - 1) as nat);
        lemma_be_value_of_digits(x / 256, (n - 1) as nat);
        assert(be_digits(x, n).drop_last() =~= hi);
    }
}

/// The eight bytes of `x`, most significant first.
pub fn u64_to_be(x: u64) -> (r: [u8; 8])
    ensures
        r@ == be_digits(x as nat, 8),
{
    let mut r: [u8; 8] = [0u8; 8];
    let mut rest: u64 = x;
    let mut i: usize = 8;
    while i > 0
        invariant
            i <= 8,
            be_digits(x as nat, 8) == be_digits(rest as nat, i as nat) + r@.subrange(
                i as int,
                8,
            ),
        decreases i,
    {
        i -= 1;
        r[i] = (rest % 256) as u8;
        rest = rest / 256;
    }
    r
}

/// The four bytes of `x`, most significant first.
pub fn u32_to_be(x: u32) -> (r: [u8; 4])
    ensures
        r@ == be_digits(x as nat, 4),
{
    let mut r: [u8; 4] = [0u8; 4];
    let mut rest: u32 = x;
    let mut i: usize = 4;
    while i > 0
        invariant
            i <= 4,
            be_digits(x as nat, 4) == be_digits(rest as nat, i as nat) + r@.subrange(
                i as int,
                4,
            ),
        decreases i,
    {
        i -= 1;
        r[i] = (rest % 256) as u8;
        rest = rest / 256;
    }
    r
}

/// The number that up to eight bytes denote, most significant first.
pub fn be_to_u64(s: &[u8]) -> (r: u64)
    requires
        s@.len() <= 8,
    ensures
        r == be_value(s@),
{
    let mut acc: u64 = 0;
    let mut i: usize = 0;
    while i < s.len()
        invariant
            i <= s@.len() <= 8,
            acc == be_value(s@.take(i as int)),
        decreases s@.len() - i,
    {
        proof {
            lemma_be_value_bound(s@.take(i as int));
            lemma_pow256_values();
            assert(s@.take(i + 1).drop_last() =~= s@.take(i as int));
        }
        acc = acc * 256 + s[i] as u64;
        i += 1;
    }
    proof {
        assert(s@.take(i as int) =~= s@);
    }
    acc
}

/// Whether two byte strings hold the same bytes.
pub fn bytes_eq(a: &[u8], b: &[u8]) -> (r: bool)
    ensures
        r == (a@ == b@),
{
    if a.len() != b.len() {
        return false;
    }
    let mut i: usize = 0;
    while i < a.len()
        invariant
            i <= a@.len(),
            a@.len() == b@.len(),
            a@.take(i as int) == b@.take(i as int),
        decreases a@.len() - i,
    {
        if a[i] != b[i] {
            return false;
        }
        proof {
            assert(a@.take(i + 1) =~= a@.take(i as int).push(a@[i as int]));
            assert(b@.take(i + 1) =~= b@.take(i as int).push(b@[i as int]));
        }
        i += 1;
    }
    proof {
        assert(a@.take(i as int) =~= a@);
        assert(b@.take(i as int) =~= b@);
    }
    true
}

/// Lexicographic order on byte strings: `a` comes strictly before `b`.
pub open spec fn lex_lt(a: Seq<u8>, b: Seq<u8>) -> bool
    decreases a.len(),
{
    if b.len() == 0 {
        false
    } else if a.len() == 0 {
        true
    } else if a[0] != b[0] {
        a[0] < b[0]
    } else {
        lex_lt(a.drop_first(), b.drop_first())
    }
}

pub proof fn lemma_lex_lt_irreflexive(a: Seq<u8>)
    ensures
        !lex_lt(a, a),
    decreases a.len(),
{
    if a.len() > 0 {
        lemma_lex_lt_irreflexive(a.drop_first());
    }
}

pub proof fn lemma_lex_lt_transitive(a: Seq<u8>, b: Seq<u8>, c: Seq<u8>)
    requires
        lex_lt(a, b),
        lex_lt(b, c),
    ensures
        lex_lt(a, c),
    decreases a.len(),
{
    if a.len() > 0 && a[0] == b[0] && b[0] == c[0] {
        lemma_lex_lt_transitive(a.drop_first(), b.drop_first(), c.drop_first());
    }
}

/// Of two different byte strings one comes before the other.
pub proof fn lemma_lex_lt_total(a: Seq<u8>, b: Seq<u8>)
    ensures
        lex_lt(a, b) || lex_lt(b, a) || a == b,
    decreases a.len(),
{
    if a.len() > 0 && b.len() > 0 && a[0] == b[0] {
        lemma_lex_lt_total(a.drop_first(), b.drop_first());
        if a.drop_first() == b.drop_first() {
            assert(a =~= seq![a[0]] + a.drop_first());
            assert(b =~= seq![b[0]] + b.drop_first());
        }
    } else if a.len() == 0 && b.len() == 0 {
        assert(a =~= b);
    }
}

/// A common first byte does not change the order of what follows it.
pub proof fn lemma_lex_lt_prefixed(p: u8, a: Seq<u8>, b: Seq<u8>)
    ensures
        lex_lt(seq![p] + a, seq![p] + b) == lex_lt(a, b),
{
    assert((seq![p] + a).drop_first() =~= a);
    assert((seq![p] + b).drop_first() =~= b);
}

/// Whether `a` comes strictly before `b` in lexicographic order.
pub fn lex_less(a: &[u8], b: &[u8]) -> (r: bool)
    ensures
        r == lex_lt(a@, b@),
{
    let mut i: usize = 0;
    proof {
        assert(a@.skip(0) =~= a@);
        assert(b@.skip(0) =~= b@);
    }
    while i < a.len() && i < b.len()
        invariant
            i <= a@.len(),
            i <= b@.len(),
            lex_lt(a@, b@) == lex_lt(a@.skip(i as int), b@.skip(i as int)),
        decreases a@.len() - i,
    {
        proof {
            assert(a@.skip(i as int).drop_first() =~= a@.skip(i + 1));
            assert(b@.skip(i as int).drop_first() =~= b@.skip(i + 1));
        }
        if a[i] != b[i] {
            return a[i] < b[i];
        }
        i += 1;
    }
    i < b.len()
}

/// One byte off the front of `s`, and what follows it.
pub open spec fn take_u8(s: Seq<u8>) -> Result<(u8, Seq<u8>), SerError> {
    if s.len() < 1 {
        Err(SerError::UnexpectedEof)
    } else {
        Ok((s[0], s.skip(1)))
    }
}

/// `n` bytes off the front of `s`, and what follows them.
pub open spec fn take_bytes(s: Seq<u8>, n: nat) -> Result<(Seq<u8>, Seq<u8>), SerError> {
    if s.len() < n {
        Err(SerError::UnexpectedEof)
    } else {
        Ok((s.take(n as int), s.skip(n as int)))
    }
}

/// A 32-bit big-endian integer off the front of `s`, and what follows it.
pub open spec fn take_u32(s: Seq<u8>) -> Result<(u32, Seq<u8>), SerError> {
    match take_bytes(s, 4) {
        Ok((b, rest)) => Ok((be_value(b) as u32, rest)),
        Err(e) => Err(e),
    }
}

/// A 64-bit big-endian integer off the front of `s`, and what follows it.
pub open spec fn take_u64(s: Seq<u8>) -> Result<(u64, Seq<u8>), SerError> {
    match take_bytes(s, 8) {
        Ok((b, rest)) => Ok((be_value(b) as u64, rest)),
        Err(e) => Err(e),
    }
}

/// A 64-bit length and that many bytes off the front of `s`, and what
/// follows them.
pub open spec fn take_prefixed(s: Seq<u8>) -> Result<(Seq<u8>, Seq<u8>), SerError> {
    match take_u64(s) {
        Ok((n, rest)) => take_bytes(rest, n as nat),
        Err(e) => Err(e),
    }
}

/// A byte string behind its 64-bit length.
pub open spec fn prefixed(b: Seq<u8>) -> Seq<u8> {
    be_digits(b.len(), 8) + b
}

/// What was written as raw bytes is read back, with the rest untouched.
pub proof fn lemma_take_bytes_of_concat(b: Seq<u8>, rest: Seq<u8>)
    ensures
        take_bytes(b + rest, b.len()) == Ok::<(Seq<u8>, Seq<u8>), SerError>((b, rest)),
{
    assert((b + rest).take(b.len() as int) =~= b);
    assert((b + rest).skip(b.len() as int) =~= rest);
}

pub proof fn lemma_take_u8_of_concat(x: u8, rest: Seq<u8>)
    ensures
        take_u8(seq![x] + rest) == Ok::<(u8, Seq<u8>), SerError>((x, rest)),
{
    assert((seq![x] + rest).skip(1) =~= rest);
}

pub proof fn lemma_take_u32_of_concat(x: u32, rest: Seq<u8>)
    ensures
        take_u32(be_digits(x as nat, 4) + rest) == Ok::<(u32, Seq<u8>), SerError>((x, rest)),
{
    lemma_be_digits_len(x as nat, 4);
    lemma_pow256_values();
    lemma_be_value_of_digits(x as nat, 4);
    lemma_take_bytes_of_concat(be_digits(x as nat, 4), rest);
}

pub proof fn lemma_take_u64_of_concat(x: u64, rest: Seq<u8>)
    ensures
        take_u64(be_digits(x as nat, 8) + rest) == Ok::<(u64, Seq<u8>), SerError>((x, rest)),
{
    lemma_be_digits_len(x as nat, 8);
    lemma_pow256_values();
    lemma_be_value_of_digits(x as nat, 8);
    lemma_take_bytes_of_concat(be_digits(x as nat, 8), rest);
}

pub proof fn lemma_take_prefixed_of_concat(b: Seq<u8>, rest: Seq<u8>)
    requires
        b.len() <= u64::MAX,
    ensures
        take_prefixed(prefixed(b) + rest) == Ok::<(Seq<u8>, Seq<u8>), SerError>((b, rest)),
{
    lemma_take_u64_of_concat(b.len() as u64, b + rest);
    assert(prefixed(b) + rest =~= be_digits(b.len(), 8) + (b + rest));
    lemma_take_bytes_of_concat(b, rest);
}

/// A cursor over a byte slice: what was read lies behind it, what is left
/// to read lies ahead. After a failed read the cursor's place is not
/// specified.
pub struct Reader<'a> {
    data: &'a [u8],
    pos: usize,
}

impl<'a> Reader<'a> {
    #[verifier::type_invariant]
    spec fn inv(self) -> bool {
        self.pos <= self.data@.len()
    }

    /// The bytes that are still to be read.
    pub closed spec fn remaining(self) -> Seq<u8> {
        self.data@.skip(self.pos as int)
    }

    /// A cursor at the start of `data`.
    pub fn new(data: &'a [u8]) -> (r: Self)
        ensures
            r.remaining() == data@,
    {
        Reader { data, pos: 0 }
    }

    /// How many bytes are left.
    pub fn remaining_len(&self) -> (n: usize)
        ensures
            n == self.remaining().len(),
    {
        proof {
            use_type_invariant(self);
        }
        self.data.len() - self.pos
    }

    /// Reads one byte.
    pub fn read_u8(&mut self) -> (r: Result<u8, SerError>)
        ensures
            match take_u8(old(self).remaining()) {
                Ok((v, rest)) => r == Ok::<u8, SerError>(v) && final(self).remaining() == rest,
                Err(e) => r == Err::<u8, SerError>(e),
            },
    {
        proof {
            use_type_invariant(&*self);
        }
        if self.pos >= self.data.len() {
            return Err(SerError::UnexpectedEof);
        }
        let b = self.data[self.pos];
        proof {
            assert(self.data@.skip(self.pos as int).skip(1) =~= self.data@.skip(self.pos + 1));
        }
        self.pos = self.pos + 1;
        Ok(b)
    }

    /// Reads `n` raw bytes.
    pub fn read_fixed_bytes(&mut self, n: usize) -> (r: Result<Vec<u8>, SerError>)
        ensures
            match take_bytes(old(self).remaining(), n as nat) {
                Ok((s, rest)) => r is Ok && r->Ok_0@ == s && final(self).remaining() == rest,
                Err(e) => r == Err::<Vec<u8>, SerError>(e),
            },
    {
        proof {
            use_type_invariant(&*self);
        }
        if n > self.data.len() - self.pos {
            return Err(SerError::UnexpectedEof);
        }
        let mut out: Vec<u8> = Vec::new();
        let start: usize = self.pos;
        let mut i: usize = 0;
        while i < n
            invariant
                i <= n,
                start + n <= self.data@.len() <= usize::MAX,
                out@ == self.data@.subrange(start as int, start + i),
            decreases n - i,
        {
            out.push(self.data[start + i]);
            proof {
                assert(self.data@.subrange(start as int, start + i + 1) =~= self.data@.subrange(
                    start as int,
                    start + i,
                ).push(self.data@[start + i]));
            }
            i += 1;
        }
        proof {
            assert(self.data@.skip(start as int).take(n as int) =~= self.data@.subrange(
                start as int,
                start + n,
            ));
            assert(self.data@.skip(start as int).skip(n as int) =~= self.data@.skip(start + n));
        }
        self.pos = start + n;
        Ok(out)
    }

    /// Reads a 32-bit big-endian integer.
    pub fn read_u32(&mut self) -> (r: Result<u32, SerError>)
        ensures
            match take_u32(old(self).remaining()) {
                Ok((v, rest)) => r == Ok::<u32, SerError>(v) && final(self).remaining() == rest,
                Err(e) => r == Err::<u32, SerError>(e),
            },
    {
        match self.read_fixed_bytes(4) {
            Ok(b) => {
                proof {
                    lemma_be_value_bound(b@);
                    lemma_pow256_values();
                }
                let v = be_to_u64(b.as_slice());
                Ok(v as u32)
            },
            Err(e) => Err(e),
        }
    }

    /// Reads a 64-bit big-endian integer.
    pub fn read_u64(&mut self) -> (r: Result<u64, SerError>)
        ensures
            match take_u64(old(self).remaining()) {
                Ok((v, rest)) => r == Ok::<u64, SerError>(v) && final(self).remaining() == rest,
                Err(e) => r == Err::<u64, SerError>(e),
            },
    {
        match self.read_fixed_bytes(8) {
            Ok(b) => {
                proof {
                    lemma_be_value_bound(b@);
                    lemma_pow256_values();
                }
                Ok(be_to_u64(b.as_slice()))
            },
            Err(e) => Err(e),
        }
    }

    /// Reads a 64-bit length and then that many raw bytes.
    pub fn read_bytes_len_prefix(&mut self) -> (r: Result<Vec<u8>, SerError>)
        ensures
            match take_prefixed(old(self).remaining()) {
                Ok((s, rest)) => r is Ok && r->Ok_0@ == s && final(self).remaining() == rest,
                Err(e) => r == Err::<Vec<u8>, SerError>(e),
            },
    {
        let n = match self.read_u64() {
            Ok(n) => n,
            Err(e) => { return Err(e); },
        };
        if n > self.remaining_len() as u64 {
            return Err(SerError::UnexpectedEof);
        }
        self.read_fixed_bytes(n as usize)
    }
}

/// Appends `b` to `out`.
pub fn put_bytes(out: &mut Vec<u8>, b: &[u8])
    ensures
        final(out)@ == old(out)@ + b@,
{
    let ghost before = out@;
    let mut i: usize = 0;
    while i < b.len()
        invariant
            i <= b@.len(),
            out@ == before + b@.take(i as int),
        decreases b@.len() - i,
    {
        out.push(b[i]);
        proof {
            assert(b@.take(i + 1) =~= b@.take(i as int).push(b@[i as int]));
            assert(before + b@.take(i + 1) =~= (before + b@.take(i as int)).push(b@[i as int]));
        }
        i += 1;
    }
    proof {
        assert(b@.take(i as int) =~= b@);
    }
}

/// Appends `x` as eight big-endian bytes.
pub fn put_u64(out: &mut Vec<u8>, x: u64)
    ensures
        final(out)@ == old(out)@ + be_digits(x as nat, 8),
{
    let b = u64_to_be(x);
    put_bytes(out, &b);
}

/// Appends `x` as four big-endian bytes.
pub fn put_u32(out: &mut Vec<u8>, x: u32)
    ensures
        final(out)@ == old(out)@ + be_digits(x as nat, 4),
{
    let b = u32_to_be(x);
    put_bytes(out, &b);
}

/// Appends `b` behind its 64-bit length.
pub fn put_prefixed(out: &mut Vec<u8>, b: &[u8])
    ensures
        final(out)@ == old(out)@ + prefixed(b@),
{
    let ghost before = out@;
    put_u64(out, b.len() as u64);
    put_bytes(out, b);
    proof {
        assert(out@ =~= before + prefixed(b@));
    }
}

} // verus!
