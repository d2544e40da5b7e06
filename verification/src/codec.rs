//! A newer shape of the encoder interface, kept alongside the original
//! one: a single encoder type over the autocomplete-friendly word list.

use vstd::prelude::*;

use crate::words::wl_eff_encode;

verus! {

/// A base 256 encoder over one autocomplete-friendly word list.
pub trait Encode: Sized {
    /// The encoder's invariant.
    spec fn wf(self) -> bool;

    /// The encoder carries exactly its bundled word list.
    spec fn bundled(self) -> bool;

    /// Creates the encoder over its bundled word list.
    fn encode() -> (r: Self)
        ensures
            r.wf(),
            r.bundled(),
    ;
}

/// Base 256 encoder using the autocomplete-friendly EFF-style word list.
pub struct EffCodecEncode {
    pub table: Vec<&'static str>,
}

impl EffCodecEncode {
    /// Creates an encoder over any 256-word table.
    pub fn from_words(words: Vec<&'static str>) -> (r: EffCodecEncode)
        requires
            words@.len() == 256,
        ensures
            r.wf(),
            r.table@ == words@,
    {
        EffCodecEncode { table: words }
    }

    /// Encodes one byte: the table word at its value. Total over the byte
    /// domain; no error condition.
    pub fn advance(&self, byte: u8) -> (w: &'static str)
        requires
            self.wf(),
        ensures
            w == self.table@[byte as int],
    {
        self.table[byte as usize]
    }
}

impl Encode for EffCodecEncode {
    /// Encoder invariant: a total, 256-entry table.
    open spec fn wf(self) -> bool {
        self.table@.len() == 256
    }

    open spec fn bundled(self) -> bool {
        self.table@ == crate::words::eff_words()
    }

    fn encode() -> (r: Self) {
        EffCodecEncode::from_words(wl_eff_encode())
    }
}

} // verus!
