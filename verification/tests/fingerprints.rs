use file_copy_checker::fingerprint::{hash_file, to_hex};
use file_copy_checker::text::{same_text, to_decimal};

#[test]
fn hex_of_bytes() {
    assert_eq!(to_hex(&[]), "");
    assert_eq!(to_hex(&[0x00]), "00");
    assert_eq!(to_hex(&[0x0f, 0xf0, 0xab]), "0ff0ab");
    assert_eq!(to_hex(&[0xff, 0x10, 0x09, 0x9a]), "ff10099a");
}

#[test]
fn hex_has_two_characters_per_byte() {
    let bytes: Vec<u8> = (0..=255).collect();
    let text = to_hex(&bytes);
    assert_eq!(text.len(), 512);
    assert!(text.starts_with("000102"));
    assert!(text.ends_with("fdfeff"));
}

#[test]
fn fingerprint_of_known_contents() {
    assert_eq!(hash_file(b""), "d41d8cd98f00b204e9800998ecf8427e");
    assert_eq!(hash_file(b"a"), "0cc175b9c0f1b6a831c399e269772661");
    assert_eq!(hash_file(b"abc"), "900150983cd24fb0d6963f7d28e17f72");
    assert_eq!(hash_file(b"message digest"), "f96b697d7cb7938d525a2f31aaf161d0");
    assert_eq!(hash_file(b"hello"), "5d41402abc4b2a76b9719d911017c592");
    assert_eq!(hash_file(b"world"), "7d793037a0760186574b0282f2f435e7");
}

#[test]
fn fingerprint_is_not_the_content() {
    assert_ne!(hash_file(b"hello").as_bytes(), b"hello");
    assert_eq!(hash_file(b"hello").len(), 32);
}

#[test]
fn identical_content_has_identical_fingerprints() {
    let long: Vec<u8> = (0..10_000u32).map(|i| (i % 251) as u8).collect();
    assert_eq!(hash_file(&long), hash_file(&long.clone()));
    assert_eq!(hash_file(b"hello"), hash_file(b"hello"));
}

#[test]
fn different_content_has_different_fingerprints() {
    assert_ne!(hash_file(b"hello"), hash_file(b"hello "));
    assert_ne!(hash_file(b"hello"), hash_file(b"world"));
}

#[test]
fn fingerprint_of_content_across_block_boundaries() {
    let text = b"12345678901234567890123456789012345678901234567890123456789012345678901234567890";
    assert_eq!(hash_file(text), "57edf4a22be3c955ac49da2e2107b67a");
}

#[test]
fn decimal_numerals() {
    assert_eq!(to_decimal(0), "0");
    assert_eq!(to_decimal(7), "7");
    assert_eq!(to_decimal(10), "10");
    assert_eq!(to_decimal(109), "109");
    assert_eq!(to_decimal(1234567890), "1234567890");
    assert_eq!(to_decimal(usize::MAX), usize::MAX.to_string());
}

#[test]
fn same_text_compares_characters() {
    assert!(same_text("abc", "abc"));
    assert!(same_text("", ""));
    assert!(!same_text("abc", "abd"));
    assert!(!same_text("abc", "ab"));
}
