use onnx_adapter::fingerprint::{fnv1a, fold, HASH_SEED};
use onnx_adapter::known::catalog;
use onnx_adapter::policy::{describe, fingerprint_of, has_drifted, POLICY_FINGERPRINT};

#[test]
fn the_fingerprint_is_set_and_stable_within_a_build() {
    assert_ne!(POLICY_FINGERPRINT, 0);
    assert_eq!(POLICY_FINGERPRINT, POLICY_FINGERPRINT);
}

#[test]
fn a_description_carries_a_readable_fingerprint() {
    let described = describe();
    assert_eq!(fingerprint_of(&described), Some(POLICY_FINGERPRINT));
    assert!(!has_drifted(&described));
}

#[test]
fn a_description_from_another_policy_is_detected() {
    assert!(has_drifted("comparison=bit-exact fingerprint=deadbeef"));
    assert!(
        has_drifted("comparison=bit-exact"),
        "a description with no fingerprint at all cannot be verified, so it must count as \
         drifted rather than as matching"
    );
}

#[test]
fn the_description_names_the_rules_in_force() {
    let described = describe();
    for expected in [
        "comparison=bit-exact",
        "tolerance=none",
        "nan-vs-nan=agree",
        "signed-zero=disagree",
        "nan-payload",
        "cast-out-of-range",
    ] {
        assert!(
            described.contains(expected),
            "{expected} missing from the policy description: {described}"
        );
    }
}

#[test]
fn every_catalog_entry_is_named() {
    let described = describe();
    for entry in catalog() {
        assert!(
            described.contains(entry.id),
            "catalog entry {:?} is missing from the policy description",
            entry.id
        );
    }
}

#[test]
fn only_the_first_marked_word_counts() {
    assert_eq!(fingerprint_of("a fingerprint=0000000A b"), Some(10));
    assert_eq!(fingerprint_of("fingerprint=+1f"), Some(0x1f));
    assert_eq!(fingerprint_of("fingerprint=xyz fingerprint=1"), None);
    assert_eq!(fingerprint_of("xfingerprint=1"), None);
    assert_eq!(fingerprint_of("fingerprint="), None);
    assert_eq!(fingerprint_of("fingerprint=+"), None);
    assert_eq!(fingerprint_of("fingerprint=100000000"), None);
    assert_eq!(fingerprint_of("fingerprint=0ffffffff\n"), Some(u32::MAX));
}

#[test]
fn hashes_are_the_published_ones() {
    assert_eq!(fnv1a(b"", HASH_SEED), 0xcbf2_9ce4_8422_2325);
    assert_eq!(fnv1a(b"a", HASH_SEED), 0xaf63_dc4c_8601_ec8c);
    assert_eq!(fnv1a(b"foobar", HASH_SEED), 0x8594_4171_f739_67e8);
    assert_eq!(fnv1a(b"bar", fnv1a(b"foo", HASH_SEED)), fnv1a(b"foobar", HASH_SEED));
    assert_eq!(fold(0x8594_4171_f739_67e8), 0x72ad_2699);
}
