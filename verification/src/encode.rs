//! The encoders: a byte becomes the table word at its value. The paired
//! scheme alternates between two word families with the position parity.

use vstd::prelude::*;

use crate::words::eff_words;
use crate::words::pgp_three_syllable_words;
use crate::words::pgp_two_syllable_words;
use crate::words::wl_eff_encode;
use crate::words::wl_pgp_encode_three_syllable;
use crate::words::wl_pgp_encode_two_syllable;

verus! {

/// A base 256 encoder: turns a byte stream into a word stream, for the
/// scheme's bundled word lists.
pub trait Encode: Sized {
    /// The encoder's invariant.
    spec fn wf(self) -> bool;

    /// The encoder carries exactly the scheme's bundled word lists, ready
    /// at the first stream position.
    spec fn bundled(self) -> bool;

    /// Creates the encoder of this scheme over its bundled word lists.
    fn encode() -> (r: Self)
        ensures
            r.wf(),
            r.bundled(),
    ;
}

/// Base 256 encoder using the EFF-style short word list.
pub struct EffEncode {
    pub table: Vec<&'static str>,
}

impl EffEncode {
    /// Creates an encoder over any 256-word table.
    pub fn from_words(words: Vec<&'static str>) -> (r: EffEncode)
        requires
            words@.len() == 256,
        ensures
            r.wf(),
            r.table@ == words@,
    {
        EffEncode { table: words }
    }

    /// Encodes one byte: the table word at its value. Total over the byte
    /// domain; no error condition.
    pub fn advance(&self, byte: u8) -> (w: &'static str)
        requires
            self.wf(),
        ensures
            w == self.table@[byte as int],
    {
        self.table[byte as usize]
    }

    /// Encodes a whole byte sequence, in order.
    pub fn encode_all(&self, bytes: &Vec<u8>) -> (r: Vec<&'static str>)
        requires
            self.wf(),
        ensures
            r@.len() == bytes@.len(),
            forall|j: int| 0 <= j < bytes@.len() ==> r@[j] == self.table@[bytes@[j] as int],
    {
        let mut r: Vec<&'static str> = Vec::new();
        let mut i: usize = 0;
        while i < bytes.len()
            invariant
                self.wf(),
                i <= bytes@.len(),
                r@.len() == i,
                forall|j: int| 0 <= j < i ==> r@[j] == self.table@[bytes@[j] as int],
            decreases bytes@.len() - i,
        {
            let w = self.advance(bytes[i]);
            r.push(w);
            i = i + 1;
        }
        r
    }
}

impl Encode for EffEncode {
    /// Encoder invariant: a total, 256-entry table.
    open spec fn wf(self) -> bool {
        self.table@.len() == 256
    }

    open spec fn bundled(self) -> bool {
        self.table@ == eff_words()
    }

    fn encode() -> (r: Self) {
        EffEncode::from_words(wl_eff_encode())
    }
}

/// Base 256 encoder using the paired two- and three-syllable word lists:
/// even positions draw from the two-syllable family, odd positions from
/// the three-syllable family.
pub struct PgpEncode {
    pub two_syllable: Vec<&'static str>,
    pub three_syllable: Vec<&'static str>,
    pub odd_even: u8,
}

impl PgpEncode {
    /// Creates an encoder over any pair of 256-word tables.
    pub fn from_words(two: Vec<&'static str>, three: Vec<&'static str>) -> (r: PgpEncode)
        requires
            two@.len() == 256,
            three@.len() == 256,
        ensures
            r.wf(),
            r.two_syllable@ == two@,
            r.three_syllable@ == three@,
            r.odd_even == 0,
    {
        PgpEncode { two_syllable: two, three_syllable: three, odd_even: 0 }
    }

    /// Encodes one byte with the family that the position parity selects,
    /// and advances the parity. Total over the byte domain.
    pub fn advance(&mut self, byte: u8) -> (w: &'static str)
        requires
            old(self).wf(),
        ensures
            final(self).wf(),
            final(self).two_syllable == old(self).two_syllable,
            final(self).three_syllable == old(self).three_syllable,
            w == (if old(self).odd_even == 0 {
                old(self).two_syllable@[byte as int]
            } else {
                old(self).three_syllable@[byte as int]
            }),
            final(self).odd_even == (if old(self).odd_even == 0 {
                1u8
            } else {
                0u8
            }),
    {
        let w = if self.odd_even == 0 {
            self.two_syllable[byte as usize]
        } else {
            self.three_syllable[byte as usize]
        };
        self.odd_even = if self.odd_even == 0 {
            1
        } else {
            0
        };
        w
    }

    /// Encodes a whole byte sequence, families alternating from the
    /// current parity on.
    pub fn encode_all(&mut self, bytes: &Vec<u8>) -> (r: Vec<&'static str>)
        requires
            old(self).wf(),
        ensures
            final(self).wf(),
            final(self).two_syllable == old(self).two_syllable,
            final(self).three_syllable == old(self).three_syllable,
            r@.len() == bytes@.len(),
            forall|j: int|
                0 <= j < bytes@.len() ==> r@[j] == (if (old(self).odd_even + j) % 2 == 0 {
                    old(self).two_syllable@[bytes@[j] as int]
                } else {
                    old(self).three_syllable@[bytes@[j] as int]
                }),
            final(self).odd_even as int == (old(self).odd_even + bytes@.len()) % 2,
    {
        let mut r: Vec<&'static str> = Vec::new();
        let mut i: usize = 0;
        while i < bytes.len()
            invariant
                self.wf(),
                self.two_syllable == old(self).two_syllable,
                self.three_syllable == old(self).three_syllable,
                i <= bytes@.len(),
                r@.len() == i,
                self.odd_even as int == (old(self).odd_even + i) % 2,
                forall|j: int|
                    0 <= j < i ==> r@[j] == (if (old(self).odd_even + j) % 2 == 0 {
                        old(self).two_syllable@[bytes@[j] as int]
                    } else {
                        old(self).three_syllable@[bytes@[j] as int]
                    }),
            decreases bytes@.len() - i,
        {
            let w = self.advance(bytes[i]);
            r.push(w);
            i = i + 1;
        }
        r
    }
}

impl Encode for PgpEncode {
    /// Encoder invariant: two total, 256-entry tables and a binary parity.
    open spec fn wf(self) -> bool {
        &&& self.two_syllable@.len() == 256
        &&& self.three_syllable@.len() == 256
        &&& (self.odd_even == 0 || self.odd_even == 1)
    }

    open spec fn bundled(self) -> bool {
        &&& self.two_syllable@ == pgp_two_syllable_words()
        &&& self.three_syllable@ == pgp_three_syllable_words()
        &&& self.odd_even == 0
    }

    fn encode() -> (r: Self) {
        PgpEncode::from_words(wl_pgp_encode_two_syllable(), wl_pgp_encode_three_syllable())
    }
}

} // verus!
