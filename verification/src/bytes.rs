//! Fixed-width integers at an offset of a byte buffer, in either byte order.
//!
//! The contracts speak of base-256 digits: a 32-bit word is
//! `b0 + 256·b1 + 256²·b2 + 256³·b3`, and the two byte orders differ only in
//! which end of the buffer holds `b0`. Signed values are the two's complement
//! reading of the same word.

use vstd::prelude::*;

verus! {

/// The value of two base-256 digits, least significant first.
pub open spec fn word16(b0: u8, b1: u8) -> int {
    b0 as int + 0x100 * (b1 as int)
}

/// The value of four base-256 digits, least significant first.
pub open spec fn word32(b0: u8, b1: u8, b2: u8, b3: u8) -> int {
    b0 as int + 0x100 * (b1 as int) + 0x1_0000 * (b2 as int) + 0x100_0000 * (b3 as int)
}

/// The two's complement reading of a 16-bit word.
pub open spec fn signed16(w: int) -> int {
    if w < 0x8000 {
        w
    } else {
        w - 0x1_0000
    }
}

/// The two's complement reading of a 32-bit word.
pub open spec fn signed32(w: int) -> int {
    if w < 0x8000_0000 {
        w
    } else {
        w - 0x1_0000_0000
    }
}

/// The 16-bit word that stands for `n` in two's complement.
pub open spec fn unsigned16(n: int) -> int {
    if n < 0 {
        n + 0x1_0000
    } else {
        n
    }
}

/// The 32-bit word that stands for `n` in two's complement.
pub open spec fn unsigned32(n: int) -> int {
    if n < 0 {
        n + 0x1_0000_0000
    } else {
        n
    }
}

/// Base-256 digit `k` of `w`, for `k` from 0 (least significant) to 3.
pub open spec fn digit(w: int, k: int) -> u8 {
    let weight: int = if k == 0 {
        1
    } else if k == 1 {
        0x100
    } else if k == 2 {
        0x1_0000
    } else {
        0x100_0000
    };
    ((w / weight) % 0x100) as u8
}

/// Least significant byte first.
pub struct LittleEndian;

/// Most significant byte first.
pub struct BigEndian;

impl LittleEndian {
    /// The 16-bit word stored at `offset`.
    pub open spec fn word16_at(buf: Seq<u8>, offset: int) -> int {
        word16(buf[offset], buf[offset + 1])
    }

    /// The 32-bit word stored at `offset`.
    pub open spec fn word32_at(buf: Seq<u8>, offset: int) -> int {
        word32(buf[offset], buf[offset + 1], buf[offset + 2], buf[offset + 3])
    }

    /// `buf` with the low 16 bits of `w` stored at `offset`.
    pub open spec fn put16(buf: Seq<u8>, offset: int, w: int) -> Seq<u8> {
        buf.update(offset, digit(w, 0)).update(offset + 1, digit(w, 1))
    }

    /// `buf` with the 32-bit word `w` stored at `offset`.
    pub open spec fn put32(buf: Seq<u8>, offset: int, w: int) -> Seq<u8> {
        buf.update(offset, digit(w, 0)).update(offset + 1, digit(w, 1)).update(offset + 2, digit(w, 2)).update(offset + 3, digit(w, 3))
    }

    pub fn read_i16(buf: &[u8], offset: usize) -> (r: i16)
        requires
            offset + 2 <= buf@.len(),
        ensures
            r == signed16(Self::word16_at(buf@, offset as int)),
    {
        let b0: u8 = buf[offset];
        let b1: u8 = buf[offset + 1];
        proof {
            lemma_compose16(b0, b1);
        }
        (b1 as i16) << 8 | (b0 as i16)
    }

    pub fn read_u16(buf: &[u8], offset: usize) -> (r: u16)
        requires
            offset + 2 <= buf@.len(),
        ensures
            r == Self::word16_at(buf@, offset as int),
    {
        let b0: u8 = buf[offset];
        let b1: u8 = buf[offset + 1];
        proof {
            lemma_compose16(b0, b1);
        }
        (b1 as u16) << 8 | (b0 as u16)
    }

    pub fn read_u32(buf: &[u8], offset: usize) -> (r: u32)
        requires
            offset + 4 <= buf@.len(),
        ensures
            r == Self::word32_at(buf@, offset as int),
    {
        let b0: u8 = buf[offset];
        let b1: u8 = buf[offset + 1];
        let b2: u8 = buf[offset + 2];
        let b3: u8 = buf[offset + 3];
        proof {
            lemma_compose32(b0, b1, b2, b3);
        }
        (b3 as u32) << 24 | (b2 as u32) << 16 | (b1 as u32) << 8 | (b0 as u32)
    }

    pub fn read_i32(buf: &[u8], offset: usize) -> (r: i32)
        requires
            offset + 4 <= buf@.len(),
        ensures
            r == signed32(Self::word32_at(buf@, offset as int)),
    {
        let b0: u8 = buf[offset];
        let b1: u8 = buf[offset + 1];
        let b2: u8 = buf[offset + 2];
        let b3: u8 = buf[offset + 3];
        proof {
            lemma_compose32(b0, b1, b2, b3);
        }
        (b3 as i32) << 24 | (b2 as i32) << 16 | (b1 as i32) << 8 | (b0 as i32)
    }

    /// Stores the low 16 bits of `n`.
    pub fn write_u16(n: u32, buf: &mut [u8], offset: usize)
        requires
            offset + 2 <= old(buf)@.len(),
        ensures
            final(buf)@ == Self::put16(old(buf)@, offset as int, n as int),
    {
        proof {
            lemma_digits_u32(n);
        }
        buf[offset + 1] = #[verifier::truncate] ((n >> 8) as u8);
        buf[offset] = #[verifier::truncate] (n as u8);
        assert(buf@ =~= Self::put16(old(buf)@, offset as int, n as int));
    }

    pub fn write_u32(n: u32, buf: &mut [u8], offset: usize)
        requires
            offset + 4 <= old(buf)@.len(),
        ensures
            final(buf)@ == Self::put32(old(buf)@, offset as int, n as int),
    {
        proof {
            lemma_digits_u32(n);
        }
        buf[offset + 3] = #[verifier::truncate] ((n >> 24) as u8);
        buf[offset + 2] = #[verifier::truncate] ((n >> 16) as u8);
        buf[offset + 1] = #[verifier::truncate] ((n >> 8) as u8);
        buf[offset] = #[verifier::truncate] (n as u8);
        assert(buf@ =~= Self::put32(old(buf)@, offset as int, n as int));
    }

    /// Stores the two's complement word of `n`.
    pub fn write_i32(n: i32, buf: &mut [u8], offset: usize)
        requires
            offset + 4 <= old(buf)@.len(),
        ensures
            final(buf)@ == Self::put32(old(buf)@, offset as int, unsigned32(n as int)),
    {
        proof {
            lemma_digits_i32(n);
        }
        buf[offset + 3] = #[verifier::truncate] ((n >> 24) as u8);
        buf[offset + 2] = #[verifier::truncate] ((n >> 16) as u8);
        buf[offset + 1] = #[verifier::truncate] ((n >> 8) as u8);
        buf[offset] = #[verifier::truncate] (n as u8);
        assert(buf@ =~= Self::put32(old(buf)@, offset as int, unsigned32(n as int)));
    }
}

impl BigEndian {
    /// The 16-bit word stored at `offset`.
    pub open spec fn word16_at(buf: Seq<u8>, offset: int) -> int {
        word16(buf[offset + 1], buf[offset])
    }

    /// The 32-bit word stored at `offset`.
    pub open spec fn word32_at(buf: Seq<u8>, offset: int) -> int {
        word32(buf[offset + 3], buf[offset + 2], buf[offset + 1], buf[offset])
    }

    /// `buf` with the low 16 bits of `w` stored at `offset`.
    pub open spec fn put16(buf: Seq<u8>, offset: int, w: int) -> Seq<u8> {
        buf.update(offset + 1, digit(w, 0)).update(offset, digit(w, 1))
    }

    /// `buf` with the 32-bit word `w` stored at `offset`.
    pub open spec fn put32(buf: Seq<u8>, offset: int, w: int) -> Seq<u8> {
        buf.update(offset + 3, digit(w, 0)).update(offset + 2, digit(w, 1)).update(offset + 1, digit(w, 2)).update(offset, digit(w, 3))
    }

    pub fn read_i16(buf: &[u8], offset: usize) -> (r: i16)
        requires
            offset + 2 <= buf@.len(),
        ensures
            r == signed16(Self::word16_at(buf@, offset as int)),
    {
        let b1: u8 = buf[offset];
        let b0: u8 = buf[offset + 1];
        proof {
            lemma_compose16(b0, b1);
        }
        (b1 as i16) << 8 | (b0 as i16)
    }

    pub fn read_u16(buf: &[u8], offset: usize) -> (r: u16)
        requires
            offset + 2 <= buf@.len(),
        ensures
            r == Self::word16_at(buf@, offset as int),
    {
        let b1: u8 = buf[offset];
        let b0: u8 = buf[offset + 1];
        proof {
            lemma_compose16(b0, b1);
        }
        (b1 as u16) << 8 | (b0 as u16)
    }

    pub fn read_u32(buf: &[u8], offset: usize) -> (r: u32)
        requires
            offset + 4 <= buf@.len(),
        ensures
            r == Self::word32_at(buf@, offset as int),
    {
        let b3: u8 = buf[offset];
        let b2: u8 = buf[offset + 1];
        let b1: u8 = buf[offset + 2];
        let b0: u8 = buf[offset + 3];
        proof {
            lemma_compose32(b0, b1, b2, b3);
        }
        (b3 as u32) << 24 | (b2 as u32) << 16 | (b1 as u32) << 8 | (b0 as u32)
    }

    pub fn read_i32(buf: &[u8], offset: usize) -> (r: i32)
        requires
            offset + 4 <= buf@.len(),
        ensures
            r == signed32(Self::word32_at(buf@, offset as int)),
    {
        let b3: u8 = buf[offset];
        let b2: u8 = buf[offset + 1];
        let b1: u8 = buf[offset + 2];
        let b0: u8 = buf[offset + 3];
        proof {
            lemma_compose32(b0, b1, b2, b3);
        }
        (b3 as i32) << 24 | (b2 as i32) << 16 | (b1 as i32) << 8 | (b0 as i32)
    }

    /// Stores `n`.
    pub fn write_u16(n: u16, buf: &mut [u8], offset: usize)
        requires
            offset + 2 <= old(buf)@.len(),
        ensures
            final(buf)@ == Self::put16(old(buf)@, offset as int, n as int),
    {
        proof {
            lemma_digits_u16(n);
        }
        buf[offset] = #[verifier::truncate] ((n >> 8) as u8);
        buf[offset + 1] = #[verifier::truncate] (n as u8);
        assert(buf@ =~= Self::put16(old(buf)@, offset as int, n as int));
    }

    pub fn write_u32(n: u32, buf: &mut [u8], offset: usize)
        requires
            offset + 4 <= old(buf)@.len(),
        ensures
            final(buf)@ == Self::put32(old(buf)@, offset as int, n as int),
    {
        proof {
            lemma_digits_u32(n);
        }
        buf[offset] = #[verifier::truncate] ((n >> 24) as u8);
        buf[offset + 1] = #[verifier::truncate] ((n >> 16) as u8);
        buf[offset + 2] = #[verifier::truncate] ((n >> 8) as u8);
        buf[offset + 3] = #[verifier::truncate] (n as u8);
        assert(buf@ =~= Self::put32(old(buf)@, offset as int, n as int));
    }

    /// Stores the two's complement word of `n`.
    pub fn write_i32(n: i32, buf: &mut [u8], offset: usize)
        requires
            offset + 4 <= old(buf)@.len(),
        ensures
            final(buf)@ == Self::put32(old(buf)@, offset as int, unsigned32(n as int)),
    {
        proof {
            lemma_digits_i32(n);
        }
        buf[offset] = #[verifier::truncate] ((n >> 24) as u8);
        buf[offset + 1] = #[verifier::truncate] ((n >> 16) as u8);
        buf[offset + 2] = #[verifier::truncate] ((n >> 8) as u8);
        buf[offset + 3] = #[verifier::truncate] (n as u8);
        assert(buf@ =~= Self::put32(old(buf)@, offset as int, unsigned32(n as int)));
    }
}

/// Shifts and ors put two bytes together as `word16` says.
proof fn lemma_compose16(b0: u8, b1: u8)
    ensures
        ((b1 as u16) << 8 | (b0 as u16)) == word16(b0, b1),
        ((b1 as i16) << 8 | (b0 as i16)) == signed16(word16(b0, b1)),
{
    assert(((b1 as u16) << 8 | (b0 as u16)) as int == b0 as int + 0x100 * (b1 as int))
        by (bit_vector);
    assert(((b1 as i16) << 8 | (b0 as i16)) as int == if b1 < 0x80 {
        b0 as int + 0x100 * (b1 as int)
    } else {
        b0 as int + 0x100 * (b1 as int) - 0x1_0000
    }) by (bit_vector);
}

/// Shifts and ors put four bytes together as `word32` says.
proof fn lemma_compose32(b0: u8, b1: u8, b2: u8, b3: u8)
    ensures
        ((b3 as u32) << 24 | (b2 as u32) << 16 | (b1 as u32) << 8 | (b0 as u32)) == word32(
            b0,
            b1,
            b2,
            b3,
        ),
        ((b3 as i32) << 24 | (b2 as i32) << 16 | (b1 as i32) << 8 | (b0 as i32)) == signed32(
            word32(b0, b1, b2, b3),
        ),
{
    assert(((b3 as u32) << 24 | (b2 as u32) << 16 | (b1 as u32) << 8 | (b0 as u32)) as int
        == b0 as int + 0x100 * (b1 as int) + 0x1_0000 * (b2 as int) + 0x100_0000 * (b3 as int))
        by (bit_vector);
    assert(((b3 as i32) << 24 | (b2 as i32) << 16 | (b1 as i32) << 8 | (b0 as i32)) as int
        == if b3 < 0x80 {
        b0 as int + 0x100 * (b1 as int) + 0x1_0000 * (b2 as int) + 0x100_0000 * (b3 as int)
    } else {
        b0 as int + 0x100 * (b1 as int) + 0x1_0000 * (b2 as int) + 0x100_0000 * (b3 as int)
            - 0x1_0000_0000
    }) by (bit_vector);
}

/// Shifting and truncating picks out the two digits of a 16-bit word.
proof fn lemma_digits_u16(n: u16)
    ensures
        (n as u8) == digit(n as int, 0),
        ((n >> 8) as u8) == digit(n as int, 1),
{
    assert((n as u8) as int == (n as int) % 0x100) by (bit_vector);
    assert(((n >> 8) as u8) as int == (n as int / 0x100) % 0x100) by (bit_vector);
}

/// Shifting and truncating picks out the base-256 digits of an unsigned word.
proof fn lemma_digits_u32(n: u32)
    ensures
        (n as u8) == digit(n as int, 0),
        ((n >> 8) as u8) == digit(n as int, 1),
        ((n >> 16) as u8) == digit(n as int, 2),
        ((n >> 24) as u8) == digit(n as int, 3),
{
    assert((n as u8) as int == (n as int) % 0x100) by (bit_vector);
    assert(((n >> 8) as u8) as int == (n as int / 0x100) % 0x100) by (bit_vector);
    assert(((n >> 16) as u8) as int == (n as int / 0x1_0000) % 0x100) by (bit_vector);
    assert(((n >> 24) as u8) as int == (n as int / 0x100_0000) % 0x100) by (bit_vector);
}

/// Shifting and truncating picks out the base-256 digits of the two's
/// complement word of a signed value.
proof fn lemma_digits_i32(n: i32)
    ensures
        (n as u8) == digit(unsigned32(n as int), 0),
        ((n >> 8) as u8) == digit(unsigned32(n as int), 1),
        ((n >> 16) as u8) == digit(unsigned32(n as int), 2),
        ((n >> 24) as u8) == digit(unsigned32(n as int), 3),
{
    let w: u32 = n as u32;
    assert(w as int == if n < 0 {
        n as int + 0x1_0000_0000
    } else {
        n as int
    }) by (bit_vector)
        requires
            w == n as u32,
    ;
    assert((n as u8) == (w as u8) && ((n >> 8) as u8) == ((w >> 8) as u8) && ((n >> 16) as u8) == (
    (w >> 16) as u8) && ((n >> 24) as u8) == ((w >> 24) as u8)) by (bit_vector)
        requires
            w == n as u32,
    ;
    lemma_digits_u32(w);
}

/// A 32-bit word is the sum of its four digits, each at its weight.
pub proof fn lemma_digits_make_word32(w: int)
    requires
        0 <= w < 0x1_0000_0000,
    ensures
        word32(digit(w, 0), digit(w, 1), digit(w, 2), digit(w, 3)) == w,
{
}

/// The low 16 bits of a word are the sum of its two low digits.
pub proof fn lemma_digits_make_word16(w: int)
    requires
        0 <= w,
    ensures
        word16(digit(w, 0), digit(w, 1)) == w % 0x1_0000,
{
}

/// An unsigned 32-bit value written at an offset is read back from it, in
/// either byte order.
pub proof fn lemma_u32_round_trip(buf: Seq<u8>, offset: int, n: u32)
    requires
        0 <= offset,
        offset + 4 <= buf.len(),
    ensures
        LittleEndian::word32_at(LittleEndian::put32(buf, offset, n as int), offset) == n,
        BigEndian::word32_at(BigEndian::put32(buf, offset, n as int), offset) == n,
{
    lemma_digits_make_word32(n as int);
}

/// A signed 32-bit value written at an offset is read back from it, in either
/// byte order.
pub proof fn lemma_i32_round_trip(buf: Seq<u8>, offset: int, n: i32)
    requires
        0 <= offset,
        offset + 4 <= buf.len(),
    ensures
        signed32(
            LittleEndian::word32_at(LittleEndian::put32(buf, offset, unsigned32(n as int)), offset),
        ) == n,
        signed32(BigEndian::word32_at(BigEndian::put32(buf, offset, unsigned32(n as int)), offset))
            == n,
{
    lemma_digits_make_word32(unsigned32(n as int));
}

/// An unsigned 16-bit value written at an offset is read back from it, in
/// either byte order.
pub proof fn lemma_u16_round_trip(buf: Seq<u8>, offset: int, n: u16)
    requires
        0 <= offset,
        offset + 2 <= buf.len(),
    ensures
        LittleEndian::word16_at(LittleEndian::put16(buf, offset, n as int), offset) == n,
        BigEndian::word16_at(BigEndian::put16(buf, offset, n as int), offset) == n,
{
    lemma_digits_make_word16(n as int);
}

/// A signed 16-bit value, written as its two's complement word, is read back
/// by the signed reading, in either byte order.
pub proof fn lemma_i16_round_trip(buf: Seq<u8>, offset: int, n: i16)
    requires
        0 <= offset,
        offset + 2 <= buf.len(),
    ensures
        signed16(
            LittleEndian::word16_at(LittleEndian::put16(buf, offset, unsigned16(n as int)), offset),
        ) == n,
        signed16(BigEndian::word16_at(BigEndian::put16(buf, offset, unsigned16(n as int)), offset))
            == n,
{
    lemma_digits_make_word16(unsigned16(n as int));
}

/// The digits of the word made of four bytes are those bytes.
pub proof fn lemma_word32_digits(b0: u8, b1: u8, b2: u8, b3: u8)
    ensures
        0 <= word32(b0, b1, b2, b3) < 0x1_0000_0000,
        digit(word32(b0, b1, b2, b3), 0) == b0,
        digit(word32(b0, b1, b2, b3), 1) == b1,
        digit(word32(b0, b1, b2, b3), 2) == b2,
        digit(word32(b0, b1, b2, b3), 3) == b3,
{
    let w: u32 = ((b3 as u32) << 24 | (b2 as u32) << 16 | (b1 as u32) << 8 | (b0 as u32));
    lemma_compose32(b0, b1, b2, b3);
    assert((w as int) % 0x100 == b0 && (w as int / 0x100) % 0x100 == b1 && (w as int / 0x1_0000)
        % 0x100 == b2 && (w as int / 0x100_0000) % 0x100 == b3) by (bit_vector)
        requires
            w == ((b3 as u32) << 24 | (b2 as u32) << 16 | (b1 as u32) << 8 | (b0 as u32)),
    ;
}

/// Writing back the word that was read leaves the buffer as it was.
pub proof fn lemma_u32_write_back(buf: Seq<u8>, offset: int)
    requires
        0 <= offset,
        offset + 4 <= buf.len(),
    ensures
        LittleEndian::put32(buf, offset, LittleEndian::word32_at(buf, offset)) == buf,
        BigEndian::put32(buf, offset, BigEndian::word32_at(buf, offset)) == buf,
{
    lemma_word32_digits(buf[offset], buf[offset + 1], buf[offset + 2], buf[offset + 3]);
    lemma_word32_digits(buf[offset + 3], buf[offset + 2], buf[offset + 1], buf[offset]);
    let w = LittleEndian::word32_at(buf, offset);
    assert(LittleEndian::put32(buf, offset, w) =~= buf);
    let v = BigEndian::word32_at(buf, offset);
    assert(BigEndian::put32(buf, offset, v) =~= buf);
}

/// The bytes that one order writes are those of the other order, reversed.
pub proof fn lemma_orders_are_reversed(buf: Seq<u8>, offset: int, w: int)
    requires
        0 <= offset,
        offset + 4 <= buf.len(),
    ensures
        BigEndian::put32(buf, offset, w).subrange(offset, offset + 4) == LittleEndian::put32(
            buf,
            offset,
            w,
        ).subrange(offset, offset + 4).reverse(),
        BigEndian::put16(buf, offset, w).subrange(offset, offset + 2) == LittleEndian::put16(
            buf,
            offset,
            w,
        ).subrange(offset, offset + 2).reverse(),
{
    assert(BigEndian::put32(buf, offset, w).subrange(offset, offset + 4) =~= LittleEndian::put32(
        buf,
        offset,
        w,
    ).subrange(offset, offset + 4).reverse());
    assert(BigEndian::put16(buf, offset, w).subrange(offset, offset + 2) =~= LittleEndian::put16(
        buf,
        offset,
        w,
    ).subrange(offset, offset + 2).reverse());
}

} // verus!
