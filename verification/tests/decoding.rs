//! The decoder scenarios: whitespace in any position, any letter case,
//! missing separators, rejection, and truncated input.

use base256::Decode;
use base256::DecodeError;
use base256::EffDecode;
use base256::PgpDecode;

fn chars_of(s: &str) -> Vec<char> {
    s.chars().collect()
}

fn eff_decode(s: &str) -> Result<Vec<u8>, DecodeError> {
    let mut dec = EffDecode::decode().unwrap();
    dec.decode_all(&chars_of(s))
}

fn pgp_decode(s: &str) -> Result<Vec<u8>, DecodeError> {
    let mut dec = PgpDecode::decode().unwrap();
    dec.decode_all(&chars_of(s))
}

#[test]
fn test_eff_decoder_positive_words_spaced() {
    assert_eq!(eff_decode("acuteness acuteness acuteness ").unwrap(), vec![0x05u8; 3]);
}

#[test]
fn test_eff_decoder_positive_words_extra_space() {
    assert_eq!(eff_decode("acute  ness a cute ness acuten   ess ").unwrap(), vec![0x05u8; 3]);
}

#[test]
fn test_eff_decoder_positive_words_mushed() {
    assert_eq!(eff_decode("acutenessacutenessacuteness").unwrap(), vec![0x05u8; 3]);
}

#[test]
fn test_eff_decoder_positive_words_spaced_wrapped() {
    assert_eq!(eff_decode("acuteness acuteness \nacuteness ").unwrap(), vec![0x05u8; 3]);
}

#[test]
fn test_eff_decoder_positive_words_mushed_wrapped() {
    assert_eq!(eff_decode("acutenessacut\nenessacuteness").unwrap(), vec![0x05u8; 3]);
}

#[test]
fn test_eff_decoder_positive_words_spaced_uppercase() {
    assert_eq!(eff_decode("ACUTENESS ACUTENESS ACUTENESS ").unwrap(), vec![0x05u8; 3]);
}

#[test]
fn test_eff_decoder_positive_words_spaced_mixed_case() {
    assert_eq!(eff_decode("Acuteness ACUTEness acuteNESS ").unwrap(), vec![0x05u8; 3]);
}

#[test]
fn test_pgp_decoder_positive_words_spaced() {
    assert_eq!(pgp_decode("adult amulet adult ").unwrap(), vec![0x05u8; 3]);
}

#[test]
fn test_pgp_decoder_positive_words_extra_space() {
    assert_eq!(pgp_decode("a  dult amu let adu   lt ").unwrap(), vec![0x05u8; 3]);
}

#[test]
fn test_pgp_decoder_positive_words_mushed() {
    assert_eq!(pgp_decode("adultamuletadult").unwrap(), vec![0x05u8; 3]);
}

#[test]
fn test_pgp_decoder_positive_words_spaced_wrapped() {
    assert_eq!(pgp_decode("adult amulet \nadult ").unwrap(), vec![0x05u8; 3]);
}

#[test]
fn test_pgp_decoder_positive_words_mushed_wrapped() {
    assert_eq!(pgp_decode("adultamuletad\nult").unwrap(), vec![0x05u8; 3]);
}

#[test]
fn test_pgp_decoder_positive_words_spaced_uppercase() {
    assert_eq!(pgp_decode("ADULT AMULET ADULT ").unwrap(), vec![0x05u8; 3]);
}

#[test]
fn test_pgp_decoder_positive_words_spaced_mixed_case() {
    assert_eq!(pgp_decode("Adult AMUlet aDULT ").unwrap(), vec![0x05u8; 3]);
}

#[test]
fn test_eff_decoder_rejects_unknown_characters() {
    assert_eq!(eff_decode("7").err().unwrap(), DecodeError::InvalidData);
    assert_eq!(eff_decode("acuteness 7").err().unwrap(), DecodeError::InvalidData);
}

#[test]
fn test_eff_decoder_rejects_impossible_prefix() {
    // "acutenest" departs from every table word at its last character.
    assert_eq!(eff_decode("acutenest").err().unwrap(), DecodeError::InvalidData);
}

#[test]
fn test_pgp_decoder_rejects_wrong_family_order() {
    // "applicant" belongs to the three-syllable family only; the
    // two-syllable family is the active one for the first byte.
    assert!(pgp_decode("applicant ").is_err());
}

#[test]
fn test_eff_decoder_empty_input_yields_no_bytes() {
    assert_eq!(eff_decode("").unwrap(), Vec::<u8>::new());
    assert_eq!(eff_decode("  \r\n ").unwrap(), Vec::<u8>::new());
}

#[test]
fn test_eff_decoder_truncated_input_yields_partial_output() {
    // A trailing incomplete word produces no byte and no error.
    assert_eq!(eff_decode("acutenes").unwrap(), Vec::<u8>::new());
    assert_eq!(eff_decode("acuteness acutenes").unwrap(), vec![0x05u8]);
}

#[test]
fn test_eff_decoder_advance_emits_at_word_end() {
    let mut dec = EffDecode::decode().unwrap();
    let word: Vec<char> = "acuteness".chars().collect();
    for (i, c) in word.iter().enumerate() {
        let step = dec.advance(*c).unwrap();
        if i + 1 < word.len() {
            assert_eq!(step, None);
        } else {
            assert_eq!(step, Some(0x05));
        }
    }
}

#[test]
fn test_pgp_decoder_alternates_families_per_byte() {
    let mut dec = PgpDecode::decode().unwrap();
    let input: Vec<char> = "adultamulet".chars().collect();
    let mut out = Vec::new();
    for c in input {
        if let Some(byte) = dec.advance(c).unwrap() {
            out.push(byte);
        }
    }
    assert_eq!(out, vec![0x05u8, 0x05u8]);
}

#[test]
fn test_eff_from_words_rejects_wrong_count() {
    let words: Vec<&str> = vec!["alpha", "bravo"];
    assert_eq!(EffDecode::from_words(&words).err().unwrap(), base256::BuildError::WordCount);
}

#[test]
fn test_eff_from_words_rejects_duplicates() {
    // 256 words, but two of them coincide after case-folding.
    let mut words: Vec<String> = (0..255).map(|i| format!("w{:03}", i)).collect();
    words.push("W000".to_string());
    let refs: Vec<&str> = words.iter().map(|w| w.as_str()).collect();
    assert_eq!(EffDecode::from_words(&refs).err().unwrap(), base256::BuildError::DuplicateWord);
}

#[test]
fn test_eff_from_words_rejects_whitespace_words() {
    let mut words: Vec<String> = (0..255).map(|i| format!("w{:03}", i)).collect();
    words.push("bad word".to_string());
    let refs: Vec<&str> = words.iter().map(|w| w.as_str()).collect();
    assert_eq!(EffDecode::from_words(&refs).err().unwrap(), base256::BuildError::UnusableWord);
}

#[test]
fn test_case_folding_identifies_letter_cases() {
    // Would fail if case folding handed characters back unchanged.
    assert!(base256::fold::folds_alike('A', 'a'));
    assert!(base256::fold::folds_alike('Z', 'z'));
    assert!(!base256::fold::folds_alike('a', 'b'));
    assert!(base256::fold::folds_alike(' ', ' '));
}

#[test]
fn test_pgp_from_words_reports_first_invalid_list() {
    let good = base256::wl_pgp_encode_two_syllable();
    let bad: Vec<&str> = vec!["alpha"];
    assert_eq!(
        PgpDecode::from_words(&bad, &good).err().unwrap(),
        base256::BuildError::WordCount
    );
    assert_eq!(
        PgpDecode::from_words(&good, &bad).err().unwrap(),
        base256::BuildError::WordCount
    );
}
