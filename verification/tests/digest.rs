use email_dehash::digest::digest_hex;

#[test]
fn digest_of_known_address() {
    assert_eq!(
        digest_hex("a@b.com"),
        "fb98d44ad7501a959f3f4f4a3f004fe2d9e581ea6207e218c4b02c08a4d75adf"
    );
}

#[test]
fn digest_of_empty_text() {
    assert_eq!(
        digest_hex(""),
        "e3b0c44298fc1c149afbf4c8996fb92427ae41e4649b934ca495991b7852b855"
    );
}

#[test]
fn digest_covers_the_utf8_bytes() {
    assert_eq!(
        digest_hex("é@x.com"),
        "deb36b52c43067961e86da2098978848f4ea2b81b1f0120907c08d26b0621251"
    );
}

#[test]
fn digest_is_deterministic() {
    assert_eq!(digest_hex("alice@example.com"), digest_hex("alice@example.com"));
    assert_eq!(
        digest_hex("alice@example.com"),
        "ff8d9819fc0e12bf0d24892e45987e249a28dce836a85cad60e28eaaa8c6d976"
    );
}

#[test]
fn different_addresses_have_different_digests() {
    assert_ne!(digest_hex("a@b.com"), digest_hex("b@b.com"));
    assert_ne!(digest_hex("a@b.com"), digest_hex("a@b.con"));
}

#[test]
fn digest_is_sixty_four_lower_case_digits() {
    let hex = digest_hex("ab@x.com");
    assert_eq!(hex.len(), 64);
    assert!(hex.chars().all(|c| "0123456789abcdef".contains(c)));
}
