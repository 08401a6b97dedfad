//! Four-character codes: the tags that name RIFF chunks and lists.

use crate::bytes::{digit, lemma_digits_make_word32, lemma_word32_digits, BigEndian};
use vstd::prelude::*;

verus! {

/// `String::push` appends the character to the end of the string.
pub assume_specification[ String::push ](s: &mut String, ch: char)
    ensures
        final(s)@ == old(s)@.push(ch),
;

/// A 32-bit tag whose bytes, in file order, are four characters. The first
/// character in the file is the most significant byte of the number.
#[derive(Clone, Copy, Debug, PartialEq, Eq, Structural)]
pub struct FourCC(pub u32);

impl FourCC {
    /// The four bytes of the tag, in file order.
    pub open spec fn bytes(self) -> Seq<u8> {
        seq![
            digit(self.0 as int, 3),
            digit(self.0 as int, 2),
            digit(self.0 as int, 1),
            digit(self.0 as int, 0),
        ]
    }

    /// The tag whose number is `value`.
    pub fn from(value: u32) -> (r: FourCC)
        ensures
            r == FourCC(value),
    {
        FourCC(value)
    }

    /// The tag spelled by four bytes in file order.
    pub fn from_bytes(bytes: &[u8; 4]) -> (r: FourCC)
        ensures
            r.0 == BigEndian::word32_at(bytes@, 0),
            r.bytes() == bytes@,
    {
        let value = BigEndian::read_u32(bytes, 0);
        proof {
            lemma_word32_digits(bytes@[3], bytes@[2], bytes@[1], bytes@[0]);
            assert(FourCC(value).bytes() =~= bytes@);
        }
        FourCC(value)
    }

    /// The four characters of the tag, each byte taken as the character
    /// with that code.
    pub open spec fn chars(self) -> Seq<char> {
        seq![
            self.bytes()[0] as char,
            self.bytes()[1] as char,
            self.bytes()[2] as char,
            self.bytes()[3] as char,
        ]
    }

    /// The tag as text: its four bytes as characters, whatever they are.
    pub fn name(&self) -> (r: String)
        ensures
            r@ == self.chars(),
    {
        let b = self.as_bytes();
        let mut s = String::new();
        s.push(b[0] as char);
        s.push(b[1] as char);
        s.push(b[2] as char);
        s.push(b[3] as char);
        assert(s@ =~= self.chars());
        s
    }

    /// The four bytes of the tag, in file order.
    pub fn as_bytes(&self) -> (r: [u8; 4])
        ensures
            r@ == self.bytes(),
    {
        let mut buf = [0u8;4];
        BigEndian::write_u32(self.0, &mut buf, 0);
        assert(buf@ =~= self.bytes());
        buf
    }
}

/// A tag made from four bytes spells those bytes again.
pub proof fn lemma_bytes_round_trip(b: Seq<u8>)
    requires
        b.len() == 4,
    ensures
        FourCC(BigEndian::word32_at(b, 0) as u32).bytes() == b,
{
    lemma_word32_digits(b[3], b[2], b[1], b[0]);
    assert(FourCC(BigEndian::word32_at(b, 0) as u32).bytes() =~= b);
}

/// Two tags that spell the same bytes are the same tag.
pub proof fn lemma_bytes_determine_tag(a: FourCC, b: FourCC)
    requires
        a.bytes() == b.bytes(),
    ensures
        a == b,
{
    lemma_digits_make_word32(a.0 as int);
    lemma_digits_make_word32(b.0 as int);
    assert(a.bytes()[0] == b.bytes()[0]);
    assert(a.bytes()[1] == b.bytes()[1]);
    assert(a.bytes()[2] == b.bytes()[2]);
    assert(a.bytes()[3] == b.bytes()[3]);
}

} // verus!
