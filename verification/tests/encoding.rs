//! The encoder scenarios: table lookup and family alternation.

use base256::EffEncode;
use base256::Encode;
use base256::PgpEncode;
use base256::codec;
use base256::codec::Encode as CodecEncode;

#[test]
fn test_positive_eff_encoder() {
    let enc = EffEncode::encode();
    let bytes = vec![0x05u8; 3];
    let words = enc.encode_all(&bytes);
    assert_eq!(words, vec!["acuteness"; 3]);
}

#[test]
fn test_pgp_encoder() {
    let mut enc = PgpEncode::encode();
    let bytes = vec![0x05u8; 3];
    let words = enc.encode_all(&bytes);
    assert_eq!(words, vec!["adult", "amulet", "adult"]);
}

#[test]
fn test_eff_encoder_first_and_last_byte() {
    let enc = EffEncode::encode();
    assert_eq!(enc.advance(0x00), "aardvark");
    assert_eq!(enc.advance(0x05), "acuteness");
}

#[test]
fn test_pgp_encoder_parity_is_per_stream() {
    let mut enc = PgpEncode::encode();
    assert_eq!(enc.advance(0x05), "adult");
    assert_eq!(enc.advance(0x05), "amulet");
    assert_eq!(enc.advance(0x05), "adult");
    // A fresh stream starts from the two-syllable family again.
    let mut enc2 = PgpEncode::encode();
    assert_eq!(enc2.advance(0x05), "adult");
}

#[test]
fn test_codec_eff_encoder() {
    let enc = codec::EffCodecEncode::encode();
    assert_eq!(enc.advance(0x05), "acuteness");
    assert_eq!(enc.advance(0x00), "aardvark");
}
