//! Reading primitive wire values from a byte cursor: single bytes, fixed-width
//! little-endian integers and variable-length integers, each against a
//! mathematical statement of the value on the wire.

use vstd::prelude::*;

verus! {

/// Why a schema type or a wire value could not be turned into a decoded value.
#[derive(Clone, Copy, Debug, PartialEq, Eq, Structural)]
pub enum DecodeError {
    /// A type expression names no primitive, alias or container, or is malformed.
    UnknownType,
    /// Resolving an alias leads back to an alias already being resolved.
    CyclicAlias,
    /// Fewer bytes are left than a fixed-width value needs.
    TruncatedRead,
    /// A variable-length integer still continues on its last permitted byte.
    VarintOverflow,
    /// A length prefix asks for more bytes than are left.
    LengthExceeds,
    /// Containers are nested deeper than the decoder follows.
    NestingLimit,
}

impl DecodeError {
    /// The text that names this error inside a decode marker.
    pub open spec fn message_text(self) -> Seq<char> {
        match self {
            DecodeError::UnknownType => "unknown type"@,
            DecodeError::CyclicAlias => "cyclic alias"@,
            DecodeError::TruncatedRead => "truncated read"@,
            DecodeError::VarintOverflow => "varint overflow"@,
            DecodeError::LengthExceeds => "length exceeds remaining bytes"@,
            DecodeError::NestingLimit => "nesting limit"@,
        }
    }

    /// The text that names this error inside a decode marker.
    pub fn message(&self) -> (s: String)
        ensures
            s@ == self.message_text(),
    {
        match self {
            DecodeError::UnknownType => String::from_str("unknown type"),
            DecodeError::CyclicAlias => String::from_str("cyclic alias"),
            DecodeError::TruncatedRead => String::from_str("truncated read"),
            DecodeError::VarintOverflow => String::from_str("varint overflow"),
            DecodeError::LengthExceeds => String::from_str("length exceeds remaining bytes"),
            DecodeError::NestingLimit => String::from_str("nesting limit"),
        }
    }
}

/// The number that a little-endian byte string stands for.
pub open spec fn le_value(bytes: Seq<u8>) -> nat
    decreases bytes.len(),
{
    if bytes.len() == 0 {
        0
    } else {
        bytes[0] as nat + 256 * le_value(bytes.drop_first())
    }
}

/// The two's-complement reading of an unsigned value of `width` bytes
/// (`width` is 1, 2, 4 or 8).
pub open spec fn as_signed(v: nat, width: nat) -> int {
    if width == 1 {
        if v >= 0x80 { v - 0x100 } else { v as int }
    } else if width == 2 {
        if v >= 0x8000 { v - 0x1_0000 } else { v as int }
    } else if width == 4 {
        if v >= 0x8000_0000 { v - 0x1_0000_0000 } else { v as int }
    } else {
        if v >= 0x8000_0000_0000_0000 { v - 0x1_0000_0000_0000_0000 } else { v as int }
    }
}

/// Whether `v` can be written in `width` bytes (`width` is 1, 2, 4 or 8).
pub open spec fn fits_width(v: nat, width: nat) -> bool {
    if width == 1 {
        v < 0x100
    } else if width == 2 {
        v < 0x1_0000
    } else if width == 4 {
        v < 0x1_0000_0000
    } else {
        v < 0x1_0000_0000_0000_0000
    }
}

/// 128 to the power `n`.
pub open spec fn pow128(n: nat) -> nat
    decreases n,
{
    if n == 0 {
        1
    } else {
        128 * pow128((n - 1) as nat)
    }
}

/// How many bytes the variable-length integer at the start of `bytes` takes,
/// when at most `max` bytes are permitted: the index of the first byte below
/// 128, plus one. Running out of bytes first is a truncated read; `max` bytes
/// that all continue are an overflow.
pub open spec fn varint_len(bytes: Seq<u8>, max: nat) -> Result<nat, DecodeError>
    decreases max,
{
    if max == 0 {
        Err(DecodeError::VarintOverflow)
    } else if bytes.len() == 0 {
        Err(DecodeError::TruncatedRead)
    } else if bytes[0] < 128 {
        Ok(1)
    } else {
        match varint_len(bytes.drop_first(), (max - 1) as nat) {
            Ok(n) => Ok(n + 1),
            Err(e) => Err(e),
        }
    }
}

/// The value of the first `len` bytes read as seven-bit groups, least
/// significant group first.
pub open spec fn varint_value(bytes: Seq<u8>, len: nat) -> nat
    decreases len,
{
    if len == 0 || bytes.len() == 0 {
        0
    } else {
        (bytes[0] % 128) as nat + 128 * varint_value(bytes.drop_first(), (len - 1) as nat)
    }
}

/// A 32-bit variable-length integer: up to five bytes, the value cut to 32 bits.
pub open spec fn varint32(bytes: Seq<u8>) -> Result<(u32, nat), DecodeError> {
    match varint_len(bytes, 5) {
        Ok(n) => Ok(((varint_value(bytes, n) % 0x1_0000_0000) as u32, n)),
        Err(e) => Err(e),
    }
}

/// A 64-bit variable-length integer: up to ten bytes, the value cut to 64 bits.
pub open spec fn varint64(bytes: Seq<u8>) -> Result<(u64, nat), DecodeError> {
    match varint_len(bytes, 10) {
        Ok(n) => Ok(((varint_value(bytes, n) % 0x1_0000_0000_0000_0000) as u64, n)),
        Err(e) => Err(e),
    }
}

/// The signed number that a zigzag-coded natural number stands for: even
/// numbers are the non-negative ones, odd numbers the negative ones.
pub open spec fn zigzag(n: nat) -> int {
    if n % 2 == 0 {
        (n / 2) as int
    } else {
        -((n / 2) as int) - 1
    }
}

/// The natural number that zigzag coding writes for a signed number.
pub open spec fn zigzag_code(v: int) -> nat {
    if v >= 0 {
        (2 * v) as nat
    } else {
        (-2 * v - 1) as nat
    }
}

/// Zigzag decoding undoes zigzag coding, and coding undoes decoding.
pub proof fn lemma_zigzag_round_trip(v: int, n: nat)
    ensures
        zigzag(zigzag_code(v)) == v,
        zigzag_code(zigzag(n)) == n,
{
}

/// The zigzag decoding of a 32-bit value.
pub fn zigzag32(n: u32) -> (r: i32)
    ensures
        r == zigzag(n as nat),
{
    if n % 2 == 0 {
        (n / 2) as i32
    } else {
        -((n / 2) as i32) - 1
    }
}

/// The zigzag decoding of a 64-bit value.
pub fn zigzag64(n: u64) -> (r: i64)
    ensures
        r == zigzag(n as nat),
{
    if n % 2 == 0 {
        (n / 2) as i64
    } else {
        -((n / 2) as i64) - 1
    }
}

/// The arithmetic statement of zigzag decoding agrees with its usual bit
/// formula, `(n >> 1) XOR -(n AND 1)`, at 32 bits.
pub proof fn lemma_zigzag32_bits(n: u32)
    ensures
        zigzag(n as nat) == (((n >> 1) as i32) ^ ((-((n & 1) as i32)) as i32)) as int,
{
    assert(n % 2 == 0 ==> (((n >> 1) as i32) ^ ((-((n & 1) as i32)) as i32)) == (n / 2) as i32)
        by (bit_vector);
    assert(n % 2 == 1 ==> (((n >> 1) as i32) ^ ((-((n & 1) as i32)) as i32)) == -((n / 2) as i32) - 1)
        by (bit_vector);
}

/// A position-tracked view of a byte slice. Reads consume bytes from the
/// front of the unread window; a bounded sub-cursor sees only a prefix of it.
#[derive(Clone, Copy)]
pub struct Cursor<'a> {
    data: &'a [u8],
    pos: usize,
    end: usize,
}

impl<'a> Cursor<'a> {
    #[verifier::type_invariant]
    spec fn inv(self) -> bool {
        self.pos <= self.end <= self.data@.len()
    }

    /// The bytes that are still to be read in the current scope.
    pub closed spec fn unread(&self) -> Seq<u8> {
        self.data@.subrange(self.pos as int, self.end as int)
    }

    /// How many bytes of the underlying slice lie before the next read.
    pub closed spec fn offset(&self) -> nat {
        self.pos as nat
    }

    /// A cursor at the start of `data`, with all of it in scope.
    pub fn new(data: &'a [u8]) -> (c: Self)
        ensures
            c.unread() == data@,
            c.offset() == 0,
    {
        Cursor { data, pos: 0, end: data.len() }
    }

    /// The offset of the next read from the start of the underlying slice.
    pub fn position(&self) -> (p: usize)
        ensures
            p == self.offset(),
    {
        self.pos
    }

    /// How many bytes are left in the current scope.
    pub fn remaining(&self) -> (n: usize)
        ensures
            n == self.unread().len(),
    {
        proof {
            use_type_invariant(self);
        }
        self.end - self.pos
    }

    /// Takes the next `n` bytes, or nothing when fewer are left.
    pub fn take(&mut self, n: usize) -> (r: Option<&'a [u8]>)
        ensures
            match r {
                Some(bytes) => n <= old(self).unread().len()
                    && bytes@ == old(self).unread().take(n as int)
                    && final(self).unread() == old(self).unread().skip(n as int)
                    && final(self).offset() == old(self).offset() + n,
                None => n > old(self).unread().len() && *final(self) == *old(self),
            },
    {
        proof {
            use_type_invariant(&*self);
        }
        if n <= self.end - self.pos {
            let bytes = vstd::slice::slice_subrange(self.data, self.pos, self.pos + n);
            self.pos = self.pos + n;
            Some(bytes)
        } else {
            None
        }
    }

    /// A cursor over the next `n` bytes only, leaving this one where it is.
    pub fn bounded(&self, n: usize) -> (r: Option<Cursor<'a>>)
        ensures
            match r {
                Some(sub) => n <= self.unread().len() && sub.unread() == self.unread().take(
                    n as int,
                ) && sub.offset() == self.offset(),
                None => n > self.unread().len(),
            },
    {
        proof {
            use_type_invariant(self);
        }
        if n <= self.end - self.pos {
            Some(Cursor { data: self.data, pos: self.pos, end: self.pos + n })
        } else {
            None
        }
    }

    /// Reads one byte.
    pub fn read_u8(&mut self) -> (r: Result<u8, DecodeError>)
        ensures
            match r {
                Ok(b) => old(self).unread().len() >= 1 && b == old(self).unread()[0]
                    && final(self).unread() == old(self).unread().skip(1)
                    && final(self).offset() == old(self).offset() + 1,
                Err(e) => e == DecodeError::TruncatedRead && old(self).unread().len() < 1
                    && *final(self) == *old(self),
            },
    {
        match self.take(1) {
            Some(bytes) => Ok(bytes[0]),
            None => Err(DecodeError::TruncatedRead),
        }
    }

    /// Reads a little-endian integer of `width` bytes.
    pub fn read_le(&mut self, width: usize) -> (r: Result<u64, DecodeError>)
        requires
            width == 1 || width == 2 || width == 4 || width == 8,
        ensures
            match r {
                Ok(v) => old(self).unread().len() >= width && v == le_value(
                    old(self).unread().take(width as int),
                ) && fits_width(v as nat, width as nat) && final(self).unread() == old(
                    self,
                ).unread().skip(width as int) && final(self).offset() == old(self).offset()
                    + width,
                Err(e) => e == DecodeError::TruncatedRead && old(self).unread().len() < width
                    && *final(self) == *old(self),
            },
    {
        match self.take(width) {
            Some(bytes) => {
                let v = le_number(bytes);
                Ok(v)
            },
            None => Err(DecodeError::TruncatedRead),
        }
    }

    /// Reads a variable-length integer of at most `max` bytes, uncut.
    fn read_groups(&mut self, max: usize) -> (r: Result<(u128, usize), DecodeError>)
        requires
            max <= 10,
        ensures
            match r {
                Ok((v, n)) => varint_len(old(self).unread(), max as nat) == Ok::<
                    nat,
                    DecodeError,
                >(n as nat) && v == varint_value(old(self).unread(), n as nat) && v < pow128(
                    max as nat,
                ) && 1 <= n <= max && n <= old(self).unread().len() && final(self).unread() == old(
                    self,
                ).unread().skip(n as int) && final(self).offset() == old(self).offset() + n,
                Err(e) => varint_len(old(self).unread(), max as nat) == Err::<nat, DecodeError>(e),
            },
        decreases max,
    {
        if max == 0 {
            return Err(DecodeError::VarintOverflow);
        }
        let ghost before = self.unread();
        let b = match self.read_u8() {
            Ok(b) => b,
            Err(e) => {
                return Err(e);
            },
        };
        proof {
            lemma_pow128_positive((max - 1) as nat);
            assert(before.skip(1) == before.drop_first());
            assert(varint_value(before.drop_first(), 0) == 0);
        }
        if b < 128 {
            Ok((b as u128, 1))
        } else {
            match self.read_groups(max - 1) {
                Ok((rest, n)) => {
                    proof {
                        lemma_pow128_small((max - 1) as nat);
                        assert(before.skip(1).skip(n as int) == before.skip(n + 1));
                    }
                    Ok(((b % 128) as u128 + 128 * rest, n + 1))
                },
                Err(e) => Err(e),
            }
        }
    }

    /// Reads a 32-bit variable-length integer. A failed read consumes nothing.
    pub fn read_varint32(&mut self) -> (r: Result<u32, DecodeError>)
        ensures
            match r {
                Ok(v) => varint32(old(self).unread()) matches Ok((value, n)) && v == value && n
                    <= old(self).unread().len() && final(self).unread() == old(
                    self,
                ).unread().skip(n as int) && final(self).offset() == old(self).offset() + n,
                Err(e) => varint32(old(self).unread()) == Err::<(u32, nat), DecodeError>(e)
                    && *final(self) == *old(self),
            },
    {
        let saved = *self;
        match self.read_groups(5) {
            Ok((v, _n)) => Ok((v % 0x1_0000_0000) as u32),
            Err(e) => {
                *self = saved;
                Err(e)
            },
        }
    }

    /// Reads a 64-bit variable-length integer. A failed read consumes nothing.
    pub fn read_varint64(&mut self) -> (r: Result<u64, DecodeError>)
        ensures
            match r {
                Ok(v) => varint64(old(self).unread()) matches Ok((value, n)) && v == value && n
                    <= old(self).unread().len() && final(self).unread() == old(
                    self,
                ).unread().skip(n as int) && final(self).offset() == old(self).offset() + n,
                Err(e) => varint64(old(self).unread()) == Err::<(u64, nat), DecodeError>(e)
                    && *final(self) == *old(self),
            },
    {
        let saved = *self;
        match self.read_groups(10) {
            Ok((v, _n)) => Ok((v % 0x1_0000_0000_0000_0000) as u64),
            Err(e) => {
                *self = saved;
                Err(e)
            },
        }
    }
}

/// A variable-length integer takes at least one byte and no more than are
/// permitted or present.
pub proof fn lemma_varint_len_positive(bytes: Seq<u8>, max: nat)
    ensures
        varint_len(bytes, max) matches Ok(n) ==> 1 <= n <= max && n <= bytes.len(),
    decreases max,
{
    if max > 0 && bytes.len() > 0 && bytes[0] >= 128 {
        lemma_varint_len_positive(bytes.drop_first(), (max - 1) as nat);
    }
}

proof fn lemma_pow128_positive(n: nat)
    ensures
        pow128(n) >= 1,
    decreases n,
{
    if n > 0 {
        lemma_pow128_positive((n - 1) as nat);
    }
}

proof fn lemma_pow128_small(n: nat)
    requires
        n <= 9,
    ensures
        pow128(n) <= 0x8000_0000_0000_0000,
{
    reveal_with_fuel(pow128, 11);
}

/// The number that 1, 2, 4 or 8 little-endian bytes stand for.
fn le_number(bytes: &[u8]) -> (v: u64)
    requires
        bytes@.len() == 1 || bytes@.len() == 2 || bytes@.len() == 4 || bytes@.len() == 8,
    ensures
        v == le_value(bytes@),
        fits_width(v as nat, bytes@.len()),
{
    let n = bytes.len();
    let mut v: u64 = 0;
    let mut i: usize = n;
    while i > 0
        invariant
            i <= n,
            n == bytes@.len(),
            n <= 8,
            v == le_value(bytes@.skip(i as int)),
            v < pow256((n - i) as nat),
        decreases i,
    {
        i -= 1;
        proof {
            lemma_pow256_small((n - i - 1) as nat);
            assert(bytes@.skip(i as int).drop_first() == bytes@.skip(i + 1));
        }
        v = bytes[i] as u64 + 256 * v;
    }
    proof {
        assert(bytes@.skip(0) == bytes@);
        reveal_with_fuel(pow256, 9);
    }
    v
}

spec fn pow256(n: nat) -> nat
    decreases n,
{
    if n == 0 {
        1
    } else {
        256 * pow256((n - 1) as nat)
    }
}

proof fn lemma_pow256_small(n: nat)
    requires
        n <= 7,
    ensures
        pow256(n) <= 0x100_0000_0000_0000,
{
    reveal_with_fuel(pow256, 9);
}

} // verus!
