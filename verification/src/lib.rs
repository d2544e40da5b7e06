//! Base 256: encode arbitrary bytes as sequences of natural-language words,
//! and decode a noisy textual rendering of such words back to bytes.
//!
//! The encode direction is a table lookup over a fixed 256-entry word list.
//! The decode direction is an incremental matcher: it consumes one character
//! at a time, tolerates arbitrary whitespace and letter case, and emits a
//! byte exactly when the accumulated characters match a unique, complete
//! table word.

pub mod codec;
pub mod decode;
pub mod encode;
pub mod fold;
pub mod index;
pub mod roundtrip;
pub mod wordlist;
pub mod words;

pub use decode::Decode;
pub use decode::DecodeError;
pub use decode::EffDecode;
pub use decode::PgpDecode;
pub use encode::EffEncode;
pub use encode::Encode;
pub use encode::PgpEncode;
pub use index::BuildError;
pub use words::wl_eff_encode;
pub use words::wl_pgp_encode_three_syllable;
pub use words::wl_pgp_encode_two_syllable;
