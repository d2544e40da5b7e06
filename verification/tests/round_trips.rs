//! Round trips: decode recovers exactly what encode produced, for both
//! schemes, over single bytes, full byte ranges, and noisy renderings.

use base256::Decode;
use base256::EffDecode;
use base256::EffEncode;
use base256::Encode;
use base256::PgpDecode;
use base256::PgpEncode;
use base256::roundtrip::eff_round_trip;
use base256::roundtrip::pgp_round_trip;

fn join_words(words: &[&str]) -> Vec<char> {
    let mut s = String::new();
    for w in words {
        s.push_str(w);
        s.push(' ');
    }
    s.chars().collect()
}

#[test]
fn test_positive_roundtrip_eff_codec() {
    for bytes in [vec![0x00u8; 3], (0x00u8..=0xFF).collect(), (0x01u8..=0xFF).collect()] {
        let enc = EffEncode::encode();
        let words = enc.encode_all(&bytes);
        let mut dec = EffDecode::decode().unwrap();
        let decoded = dec.decode_all(&join_words(&words)).unwrap();
        assert_eq!(decoded, bytes);
    }
}

#[test]
fn test_positive_roundtrip_pgp_codec() {
    for bytes in [vec![0x00u8; 3], (0x00u8..=0xFF).collect(), (0x01u8..=0xFF).collect()] {
        let mut enc = PgpEncode::encode();
        let words = enc.encode_all(&bytes);
        let mut dec = PgpDecode::decode().unwrap();
        let decoded = dec.decode_all(&join_words(&words)).unwrap();
        assert_eq!(decoded, bytes);
    }
}

#[test]
fn test_verified_round_trip_functions() {
    let bytes: Vec<u8> = (0x00u8..=0xFF).collect();
    assert_eq!(eff_round_trip(&bytes).unwrap(), bytes);
    assert_eq!(pgp_round_trip(&bytes).unwrap(), bytes);
    assert_eq!(eff_round_trip(&Vec::new()).unwrap(), Vec::<u8>::new());
    assert_eq!(pgp_round_trip(&Vec::new()).unwrap(), Vec::<u8>::new());
}

#[test]
fn test_roundtrip_survives_noise() {
    // Separators removed, whitespace scattered, case mixed: the decoded
    // bytes do not change.
    let bytes: Vec<u8> = vec![0x00, 0x05, 0xFF, 0x80, 0x05];
    let enc = EffEncode::encode();
    let words = enc.encode_all(&bytes);
    let mut noisy = String::new();
    for (i, w) in words.iter().enumerate() {
        for (k, c) in w.chars().enumerate() {
            if (i + k) % 3 == 0 {
                noisy.extend(c.to_uppercase());
            } else {
                noisy.push(c);
            }
            if (i + k) % 4 == 1 {
                noisy.push_str("  \n");
            }
        }
    }
    let mut dec = EffDecode::decode().unwrap();
    let decoded = dec.decode_all(&noisy.chars().collect()).unwrap();
    assert_eq!(decoded, bytes);
}
