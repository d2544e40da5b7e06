//! The bundled word lists hold 256 words each, in sorted order.

use base256::wl_eff_encode;
use base256::wl_pgp_encode_three_syllable;
use base256::wl_pgp_encode_two_syllable;

/// EFF-style word list (encode) is sorted.
#[test]
fn test_wl_eff_encode_is_sorted() {
    assert!(wl_eff_encode().windows(2).all(|w| w[0] <= w[1]));
}

/// The three-syllable word list is mostly sorted, except for the fact
/// that the word "applicant" comes before the word "Apollo".
#[test]
fn test_wl_pgp_encode_three_syllable_lowercase_is_mostly_sorted() {
    assert!(wl_pgp_encode_three_syllable().windows(2).all(|w| {
        if w[0] == "applicant" && w[1] == "Apollo" {
            true
        } else {
            w[0].to_lowercase() <= w[1].to_lowercase()
        }
    }));
}

/// The two-syllable word list is sorted.
#[test]
fn test_wl_pgp_encode_two_syllable_is_sorted() {
    assert!(wl_pgp_encode_two_syllable()
        .windows(2)
        .all(|w| w[0].to_lowercase() <= w[1].to_lowercase()));
}

#[test]
fn test_wl_eff_encode_contains_256_words() {
    assert_eq!(wl_eff_encode().len(), 256);
}

#[test]
fn test_wl_pgp_encode_lists_contain_256_words() {
    assert_eq!(wl_pgp_encode_two_syllable().len(), 256);
    assert_eq!(wl_pgp_encode_three_syllable().len(), 256);
}

#[test]
fn test_wordlists_anchor_words() {
    assert_eq!(wl_eff_encode()[0x05], "acuteness");
    assert_eq!(wl_pgp_encode_two_syllable()[0x05], "adult");
    assert_eq!(wl_pgp_encode_three_syllable()[0x05], "amulet");
}
