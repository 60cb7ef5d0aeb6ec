use merkletree::hash::hash;

fn hex(bytes: &[u8]) -> String {
    let mut text = String::new();
    for byte in bytes {
        text.push_str(&format!("{:02x}", byte));
    }
    text
}

#[test]
fn hash_of_nothing_is_the_digest_of_the_empty_string() {
    assert_eq!(
        hex(&hash(&[], &[])),
        "e3b0c44298fc1c149afbf4c8996fb92427ae41e4649b934ca495991b7852b855"
    );
}

#[test]
fn hash_is_the_digest_of_the_concatenation() {
    let expected = "b94d27b9934d3e08a52e52d7da7dabfac484efe37a5380ee9088f7ace2efcde9";
    assert_eq!(hex(&hash(b"hello ", b"world")), expected);
    assert_eq!(hex(&hash(b"hello world", b"")), expected);
    assert_eq!(hex(&hash(b"", b"hello world")), expected);
}

#[test]
fn hash_has_thirty_two_bytes() {
    assert_eq!(hash(&[], &[]).len(), 32);
    assert_eq!(hash(&[7u8; 1000], &[9u8; 3]).len(), 32);
}

#[test]
fn hash_depends_on_the_order_of_its_arguments() {
    assert_ne!(hash(b"left", b"right"), hash(b"right", b"left"));
}

#[test]
fn hash_is_not_one_of_its_arguments() {
    let left = [1u8; 32];
    let right = [2u8; 32];
    let digest = hash(&left, &right);
    assert_ne!(&digest[..], &left[..]);
    assert_ne!(&digest[..], &right[..]);
}
