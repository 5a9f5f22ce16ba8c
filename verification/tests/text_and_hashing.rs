use manga_bay::calculate_sha256;
use manga_bay::hashing::is_content_address;
use manga_bay::text::{to_decimal, to_lower_hex};

#[test]
fn lower_hex_renders_like_format() {
    assert_eq!(to_lower_hex(0), "0");
    assert_eq!(to_lower_hex(255), "ff");
    assert_eq!(to_lower_hex(0x1a2b3c), "1a2b3c");
    assert_eq!(to_lower_hex(u64::MAX), format!("{:x}", u64::MAX));
    for n in [1u64, 15, 16, 4096, 123456789, 0xdeadbeef] {
        assert_eq!(to_lower_hex(n), format!("{:x}", n));
    }
}

#[test]
fn decimal_renders_like_format() {
    assert_eq!(to_decimal(0), "0");
    assert_eq!(to_decimal(7), "7");
    assert_eq!(to_decimal(1234), "1234");
    assert_eq!(to_decimal(usize::MAX), usize::MAX.to_string());
}

#[test]
fn sha256_of_empty_input() {
    assert_eq!(
        calculate_sha256(b""),
        "e3b0c44298fc1c149afbf4c8996fb92427ae41e4649b934ca495991b7852b855"
    );
}

#[test]
fn sha256_of_abc() {
    let h = calculate_sha256(b"abc");
    assert_eq!(h, "ba7816bf8f01cfea414140de5dae2223b00361a396177a9cb410ff61f20015ad");
    assert_eq!(h.len(), 64);
}

#[test]
fn sha256_differs_for_different_pages() {
    let a = calculate_sha256(&[1, 2, 3]);
    let b = calculate_sha256(&[1, 2, 4]);
    assert_ne!(a, b);
    assert!(a.chars().all(|c| c.is_ascii_hexdigit() && !c.is_ascii_uppercase()));
}

#[test]
fn content_address_matches_only_its_bytes() {
    let address = calculate_sha256(b"page bytes");
    assert!(is_content_address(&address, b"page bytes"));
    assert!(!is_content_address(&address, b"other bytes"));
    assert!(!is_content_address(&address.to_uppercase(), b"page bytes"));
    assert!(!is_content_address("", b""));
}
