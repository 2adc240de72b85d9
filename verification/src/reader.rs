//! Reading bytes, big-endian numbers and varints from memory.
use vstd::prelude::*;
use crate::error::PoolError;

verus! {

/// Powers of 128, the weight of each byte of a varint.
pub open spec fn pow128(i: nat) -> nat
    decreases i,
{
    if i == 0 {
        1
    } else {
        128 * pow128((i - 1) as nat)
    }
}

/// The number of bytes of the varint at the start of `s`: up to and with the
/// first byte whose high bit is clear. `None` where every byte has it set.
pub open spec fn varint_len(s: Seq<u8>) -> Option<nat>
    decreases s.len(),
{
    if s.len() == 0 {
        None
    } else if s[0] < 128 {
        Some(1nat)
    } else {
        match varint_len(s.skip(1)) {
            Some(n) => Some(n + 1),
            None => None,
        }
    }
}

/// The low seven bits of the first `n` bytes, least significant group first.
pub open spec fn varint_sum(s: Seq<u8>, n: nat) -> nat
    decreases n,
{
    if n == 0 {
        0
    } else {
        varint_sum(s, (n - 1) as nat) + (s[n - 1] % 128) as nat * pow128((n - 1) as nat)
    }
}

/// Where a decoder stands: before the bytes still to read, or failed.
pub enum Cursor {
    At(Seq<u8>),
    Failed(PoolError),
}

/// The varint at the start of `s` is complete, at most ten bytes long, and
/// fits 64 bits.
pub open spec fn varint_ok(s: Seq<u8>) -> bool {
    varint_len(s) matches Some(n) && n <= 10 && varint_sum(s, n) <= u64::MAX
}

/// The number that the varint at the cursor stands for.
pub open spec fn uint_at(c: Cursor) -> nat {
    match c {
        Cursor::At(s) => if varint_ok(s) {
            varint_sum(s, varint_len(s).unwrap())
        } else {
            0
        },
        Cursor::Failed(_) => 0,
    }
}

/// The cursor after a varint that may be at most `max`. A malformed varint
/// fails with `CorruptData`, a larger number with `too_large`.
pub open spec fn after_uint(c: Cursor, max: nat, too_large: PoolError) -> Cursor {
    match c {
        Cursor::At(s) => if !varint_ok(s) {
            Cursor::Failed(PoolError::CorruptData)
        } else if uint_at(c) > max {
            Cursor::Failed(too_large)
        } else {
            Cursor::At(s.skip(varint_len(s).unwrap() as int))
        },
        Cursor::Failed(e) => Cursor::Failed(e),
    }
}

/// The next `n` bytes at the cursor.
pub open spec fn bytes_at(c: Cursor, n: nat) -> Seq<u8> {
    match c {
        Cursor::At(s) => if n <= s.len() {
            s.take(n as int)
        } else {
            Seq::<u8>::empty()
        },
        Cursor::Failed(_) => Seq::<u8>::empty(),
    }
}

/// The cursor after `n` bytes; fewer left fail with `CorruptData`.
pub open spec fn after_bytes(c: Cursor, n: nat) -> Cursor {
    match c {
        Cursor::At(s) => if n <= s.len() {
            Cursor::At(s.skip(n as int))
        } else {
            Cursor::Failed(PoolError::CorruptData)
        },
        Cursor::Failed(e) => Cursor::Failed(e),
    }
}

/// Bytes held in memory and read from front to back.
pub struct ByteReader<'a> {
    data: &'a [u8],
    pos: usize,
}

impl<'a> View for ByteReader<'a> {
    type V = Seq<u8>;

    /// The bytes not read yet.
    closed spec fn view(&self) -> Seq<u8> {
        self.data@.skip(self.pos as int)
    }
}

impl<'a> ByteReader<'a> {
    /// The position is within the bytes.
    #[verifier::type_invariant]
    spec fn inv(self) -> bool {
        self.pos <= self.data.len()
    }

    /// A reader at the start of `data`.
    pub fn new(data: &'a [u8]) -> (r: Self)
        ensures
            r@ == data@,
    {
        let r = ByteReader { data, pos: 0 };
        assert(r.data@.skip(0) == r.data@);
        r
    }

    /// A second reader at the same place of the same bytes.
    pub fn fork(&self) -> (r: Self)
        ensures
            r@ == self@,
    {
        proof {
            use_type_invariant(self);
        }
        ByteReader { data: self.data, pos: self.pos }
    }

    /// The number of bytes not read yet.
    pub fn remaining(&self) -> (n: usize)
        ensures
            n == self@.len(),
    {
        proof {
            use_type_invariant(self);
        }
        self.data.len() - self.pos
    }

    /// Whether every byte has been read.
    pub fn is_empty(&self) -> (b: bool)
        ensures
            b == (self@.len() == 0),
    {
        self.remaining() == 0
    }

    /// Reads the next `n` bytes. With fewer left it fails with `CorruptData`
    /// and reads nothing.
    pub fn read_exact(&mut self, n: usize) -> (r: Result<Vec<u8>, PoolError>)
        ensures
            match after_bytes(Cursor::At(old(self)@), n as nat) {
                Cursor::At(rest) => r matches Ok(v) && v@ == bytes_at(
                    Cursor::At(old(self)@),
                    n as nat,
                ) && final(self)@ == rest,
                Cursor::Failed(e) => r == Err::<Vec<u8>, PoolError>(e) && final(self)@ == old(self)@,
            },
    {
        proof {
            use_type_invariant(&*self);
        }
        if n > self.data.len() - self.pos {
            return Err(PoolError::CorruptData);
        }
        let mut out: Vec<u8> = Vec::new();
        let mut i: usize = 0;
        while i < n
            invariant
                i <= n,
                self.pos + n <= self.data.len(),
                out@ == self.data@.subrange(self.pos as int, self.pos + i),
            decreases n - i,
        {
            out.push(self.data[self.pos + i]);
            i += 1;
        }
        let ghost before = self@;
        assert(out@ == before.take(n as int));
        self.pos = self.pos + n;
        assert(self@ == before.skip(n as int));
        Ok(out)
    }

    /// The varint at the front and its length in bytes, without reading it.
    fn scan_varint(&self) -> (r: Result<(u64, usize), PoolError>)
        ensures
            varint_ok(self@) ==> (r matches Ok((v, n)) && v == uint_at(Cursor::At(self@)) && Some(
                n as nat,
            ) == varint_len(self@) && n <= self@.len()),
            !varint_ok(self@) ==> r == Err::<(u64, usize), PoolError>(PoolError::CorruptData),
    {
        proof {
            use_type_invariant(self);
        }
        let ghost s = self@;
        let left = self.data.len() - self.pos;
        let mut acc: u128 = 0;
        let mut weight: u128 = 1;
        let mut i: usize = 0;
        while i < 10 && i < left
            invariant
                i <= 10,
                i <= left,
                left == self.data.len() - self.pos,
                s == self.data@.skip(self.pos as int),
                weight == pow128(i as nat),
                acc == varint_sum(s, i as nat),
                acc < weight,
                forall|j: int| 0 <= j < i ==> s[j] >= 128,
            decreases 10 - i,
        {
            let byte = self.data[self.pos + i];
            proof {
                lemma_pow128_values();
                lemma_pow128_grows(i as nat, 9);
                assert(byte == s[i as int]);
                assert((byte % 128) as int * weight <= 127 * weight) by (nonlinear_arith)
                    requires
                        0 <= (byte % 128) as int <= 127,
                        weight >= 0,
                ;
            }
            acc = acc + (byte % 128) as u128 * weight;
            if byte < 128 {
                proof {
                    lemma_varint_len(s, (i + 1) as nat);
                }
                if acc > u64::MAX as u128 {
                    return Err(PoolError::CorruptData);
                }
                return Ok((acc as u64, i + 1));
            }
            weight = weight * 128;
            i += 1;
        }
        proof {
            lemma_varint_len_at_least(s, i as nat);
        }
        Err(PoolError::CorruptData)
    }

    /// Passes over the next `n` bytes.
    fn advance(&mut self, n: usize)
        requires
            n <= old(self)@.len(),
        ensures
            final(self)@ == old(self)@.skip(n as int),
    {
        proof {
            use_type_invariant(&*self);
        }
        let ghost before = self@;
        self.pos = self.pos + n;
        assert(self@ == before.skip(n as int));
    }

    /// Reads one varint. A varint that is cut short, longer than ten bytes or
    /// too large for 64 bits fails with `CorruptData`; nothing is read then.
    pub fn read_varint(&mut self) -> (r: Result<u64, PoolError>)
        ensures
            match after_uint(Cursor::At(old(self)@), u64::MAX as nat, PoolError::Overflow) {
                Cursor::At(rest) => r == Ok::<u64, PoolError>(
                    uint_at(Cursor::At(old(self)@)) as u64,
                ) && final(self)@ == rest,
                Cursor::Failed(e) => r == Err::<u64, PoolError>(e) && final(self)@ == old(self)@,
            },
    {
        match self.scan_varint() {
            Ok((v, n)) => {
                self.advance(n);
                Ok(v)
            },
            Err(e) => Err(e),
        }
    }

    /// Reads one varint that has to fit 16 bits; a larger one fails with
    /// `Overflow`.
    pub fn read_varint_u16(&mut self) -> (r: Result<u16, PoolError>)
        ensures
            match after_uint(Cursor::At(old(self)@), u16::MAX as nat, PoolError::Overflow) {
                Cursor::At(rest) => r == Ok::<u16, PoolError>(
                    uint_at(Cursor::At(old(self)@)) as u16,
                ) && final(self)@ == rest,
                Cursor::Failed(e) => r == Err::<u16, PoolError>(e) && final(self)@ == old(self)@,
            },
    {
        match self.scan_varint() {
            Ok((v, n)) => match narrow_u16(v) {
                Some(small) => {
                    self.advance(n);
                    Ok(small)
                },
                None => Err(PoolError::Overflow),
            },
            Err(e) => Err(e),
        }
    }

    /// Reads one varint that has to fit 32 bits; a larger one fails with
    /// `Overflow`.
    pub fn read_varint_u32(&mut self) -> (r: Result<u32, PoolError>)
        ensures
            match after_uint(Cursor::At(old(self)@), u32::MAX as nat, PoolError::Overflow) {
                Cursor::At(rest) => r == Ok::<u32, PoolError>(
                    uint_at(Cursor::At(old(self)@)) as u32,
                ) && final(self)@ == rest,
                Cursor::Failed(e) => r == Err::<u32, PoolError>(e) && final(self)@ == old(self)@,
            },
    {
        match self.scan_varint() {
            Ok((v, n)) => match narrow_u32(v) {
                Some(small) => {
                    self.advance(n);
                    Ok(small)
                },
                None => Err(PoolError::Overflow),
            },
            Err(e) => Err(e),
        }
    }

    /// Reads one varint that has to fit a `usize`; a larger one fails with
    /// `Overflow`.
    pub fn read_varint_usize(&mut self) -> (r: Result<usize, PoolError>)
        ensures
            match after_uint(Cursor::At(old(self)@), usize::MAX as nat, PoolError::Overflow) {
                Cursor::At(rest) => r == Ok::<usize, PoolError>(
                    uint_at(Cursor::At(old(self)@)) as usize,
                ) && final(self)@ == rest,
                Cursor::Failed(e) => r == Err::<usize, PoolError>(e) && final(self)@ == old(self)@,
            },
    {
        match self.scan_varint() {
            Ok((v, n)) => match narrow_usize(v) {
                Some(small) => {
                    self.advance(n);
                    Ok(small)
                },
                None => Err(PoolError::Overflow),
            },
            Err(e) => Err(e),
        }
    }
}

/// Powers of 128 grow with the exponent.
proof fn lemma_pow128_grows(i: nat, j: nat)
    requires
        i <= j,
    ensures
        pow128(i) <= pow128(j),
    decreases j,
{
    if i < j {
        lemma_pow128_grows(i, (j - 1) as nat);
    }
}

/// The first eleven powers of 128.
proof fn lemma_pow128_values()
    ensures
        pow128(0) == 1,
        pow128(1) == 0x80,
        pow128(2) == 0x4000,
        pow128(3) == 0x20_0000,
        pow128(4) == 0x1000_0000,
        pow128(5) == 0x8_0000_0000,
        pow128(6) == 0x400_0000_0000,
        pow128(7) == 0x2_0000_0000_0000,
        pow128(8) == 0x100_0000_0000_0000,
        pow128(9) == 0x8000_0000_0000_0000,
        pow128(10) == 0x40_0000_0000_0000_0000,
{
    reveal_with_fuel(pow128, 11);
}

/// `num_traits::FromPrimitive::from_u64` for `u16`: the number itself where
/// it fits 16 bits, nothing otherwise.
#[verifier::external_body]
fn narrow_u16(n: u64) -> (r: Option<u16>)
    ensures
        r == (if n <= u16::MAX {
            Some(n as u16)
        } else {
            None::<u16>
        }),
{
    <u16 as num_traits::FromPrimitive>::from_u64(n)
}

/// `num_traits::FromPrimitive::from_u64` for `u32`: the number itself where
/// it fits 32 bits, nothing otherwise.
#[verifier::external_body]
fn narrow_u32(n: u64) -> (r: Option<u32>)
    ensures
        r == (if n <= u32::MAX {
            Some(n as u32)
        } else {
            None::<u32>
        }),
{
    <u32 as num_traits::FromPrimitive>::from_u64(n)
}

/// `num_traits::FromPrimitive::from_u64` for `usize`: the number itself
/// where it fits the machine's word, nothing otherwise.
#[verifier::external_body]
fn narrow_usize(n: u64) -> (r: Option<usize>)
    ensures
        r == (if n <= usize::MAX {
            Some(n as usize)
        } else {
            None::<usize>
        }),
{
    <usize as num_traits::FromPrimitive>::from_u64(n)
}

/// Where the first `n - 1` bytes have the high bit set and the `n`-th has
/// not, the varint is `n` bytes long.
proof fn lemma_varint_len(s: Seq<u8>, n: nat)
    requires
        1 <= n <= s.len(),
        forall|j: int| 0 <= j < n - 1 ==> s[j] >= 128,
        s[n - 1] < 128,
    ensures
        varint_len(s) == Some(n),
    decreases n,
{
    if n > 1 {
        lemma_varint_len(s.skip(1), (n - 1) as nat);
    }
}

/// Where the first `n` bytes have the high bit set, the varint is longer
/// than `n` bytes or incomplete.
proof fn lemma_varint_len_at_least(s: Seq<u8>, n: nat)
    requires
        n <= s.len(),
        forall|j: int| 0 <= j < n ==> s[j] >= 128,
    ensures
        varint_len(s) matches Some(m) ==> m > n,
        n == s.len() ==> varint_len(s) is None,
    decreases n,
{
    if n > 0 {
        lemma_varint_len_at_least(s.skip(1), (n - 1) as nat);
    }
}

/// The number that four bytes stand for, most significant byte first.
pub open spec fn be32(b: Seq<u8>) -> int {
    b[0] * 0x100_0000 + b[1] * 0x1_0000 + b[2] * 0x100 + b[3]
}

/// `byteorder::BigEndian::read_u32` reads the first four bytes of `buf` as a
/// number, most significant byte first; it needs four bytes.
#[verifier::external_body]
fn be_u32(buf: &[u8]) -> (r: u32)
    requires
        buf@.len() >= 4,
    ensures
        r == be32(buf@),
{
    <byteorder::BigEndian as byteorder::ByteOrder>::read_u32(buf)
}

impl<'a> ByteReader<'a> {
    /// Reads four bytes as a number, most significant byte first. With fewer
    /// left it fails with `CorruptData` and reads nothing.
    pub fn read_u32_be(&mut self) -> (r: Result<u32, PoolError>)
        ensures
            match after_bytes(Cursor::At(old(self)@), 4) {
                Cursor::At(rest) => r == Ok::<u32, PoolError>(
                    be32(bytes_at(Cursor::At(old(self)@), 4)) as u32,
                ) && final(self)@ == rest,
                Cursor::Failed(e) => r == Err::<u32, PoolError>(e) && final(self)@ == old(self)@,
            },
    {
        let bytes = self.read_exact(4)?;
        Ok(be_u32(bytes.as_slice()))
    }
}

/// A cursor that has not failed stands at a suffix no longer than `len`.
pub open spec fn within(c: Cursor, len: nat) -> bool {
    c matches Cursor::At(s) ==> s.len() <= len
}

/// A varint has at least one byte and no more than there are.
pub proof fn lemma_varint_len_bounds(s: Seq<u8>)
    ensures
        varint_len(s) matches Some(n) ==> 1 <= n <= s.len(),
    decreases s.len(),
{
    if s.len() > 0 && s[0] >= 128 {
        lemma_varint_len_bounds(s.skip(1));
    }
}

/// Reading a varint leaves fewer bytes than there were.
pub proof fn lemma_after_uint_within(c: Cursor, max: nat, e: PoolError, len: nat)
    requires
        within(c, len),
    ensures
        within(after_uint(c, max, e), len),
        len > 0 ==> within(after_uint(c, max, e), (len - 1) as nat),
{
    if let Cursor::At(s) = c {
        lemma_varint_len_bounds(s);
    }
}

} // verus!
