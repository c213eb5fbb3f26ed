use onnx_adapter::fingerprint::{fingerprint_in, fnv1a, fold, GENERATOR_FINGERPRINT, HASH_SEED};
use onnx_adapter::fingerprint::POLICY_FINGERPRINT;

#[test]
fn the_hash_is_the_published_one() {
    assert_eq!(fnv1a(b"", HASH_SEED), 0xcbf2_9ce4_8422_2325);
    assert_eq!(fnv1a(b"a", HASH_SEED), 0xaf63_dc4c_8601_ec8c);
    assert_eq!(fnv1a(b"foobar", HASH_SEED), 0x8594_4171_f739_67e8);
}

#[test]
fn hashing_goes_on_where_it_stopped() {
    let at_once = fnv1a(b"foobar", HASH_SEED);
    assert_eq!(fnv1a(b"bar", fnv1a(b"foo", HASH_SEED)), at_once);
}

#[test]
fn a_hash_is_folded_to_half_its_width() {
    assert_eq!(fold(0x0000_0001_0000_0002), 3);
    assert_eq!(fold(0xffff_ffff_0000_0000), 0xffff_ffff);
    assert_eq!(fold(0), 0);
}

#[test]
fn a_fingerprint_is_read_out_of_a_text() {
    assert_eq!(fingerprint_in("x fingerprint=deadbeef y"), Some(0xdead_beef));
    assert_eq!(fingerprint_in("fingerprint=00000001"), Some(1));
    assert_eq!(fingerprint_in("fingerprint="), None);
    assert_eq!(fingerprint_in("no mark"), None);
    assert_ne!(GENERATOR_FINGERPRINT, 0);
    assert_ne!(POLICY_FINGERPRINT, 0);
    assert_ne!(GENERATOR_FINGERPRINT, POLICY_FINGERPRINT);
}
