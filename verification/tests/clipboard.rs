use xinlan_clip::clipboard::{digest_hex, digest_prefix_u64, hash_text, hash_u64, is_self_written};

#[test]
fn hash_is_stable_and_distinct() {
    assert_eq!(hash_text("hello"), hash_text("hello"));
    assert_ne!(hash_text("hello"), hash_text("world"));
    assert_eq!(hash_text("").len(), 64);
}

#[test]
fn self_written_guard_matches_only_last_write() {
    let first = hash_u64("first");
    let second = hash_u64("second");
    let last_written = first;
    assert!(is_self_written(first, last_written));
    assert!(!is_self_written(second, last_written));
    assert!(!is_self_written(0, last_written));
}

#[test]
fn hash_text_is_lower_hex_sha256() {
    assert_eq!(
        hash_text(""),
        "e3b0c44298fc1c149afbf4c8996fb92427ae41e4649b934ca495991b7852b855"
    );
    assert_eq!(
        hash_text("hello"),
        "2cf24dba5fb0a30e26e83b2ac5b9e29e1b161e5c1fa7425e73043362938b9824"
    );
}

#[test]
fn hash_u64_is_big_endian_prefix_of_digest() {
    assert_eq!(hash_u64(""), 0xe3b0c44298fc1c14);
    assert_eq!(hash_u64("hello"), 0x2cf24dba5fb0a30e);
}

#[test]
fn nothing_written_yet_matches_nothing() {
    assert!(!is_self_written(hash_u64("x"), 0));
    assert!(!is_self_written(0, 0));
}

#[test]
fn digest_helpers_on_given_bytes() {
    assert_eq!(digest_hex(&[0x0a, 0x14, 0x1e]), "0a141e");
    assert_eq!(digest_hex(&[]), "");
    assert_eq!(digest_hex(&[0xff, 0x00]), "ff00");
    assert_eq!(
        digest_prefix_u64(&[1, 2, 3, 4, 5, 6, 7, 8, 9, 10]),
        0x0102030405060708
    );
    assert_eq!(digest_prefix_u64(&[0xff; 8]), u64::MAX);
}

#[test]
fn fingerprint_is_the_start_of_the_hash() {
    for text in ["", "hello", "剪贴板", "a much longer line of clipboard text"] {
        let prefix = &hash_text(text)[..16];
        assert_eq!(hash_u64(text), u64::from_str_radix(prefix, 16).unwrap());
    }
}
