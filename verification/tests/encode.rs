use storagekv::encode::crc32;

#[test]
fn crc32_known_answer() {
    assert_eq!(crc32(b"123456789"), 0xCBF4_3926);
}

#[test]
fn crc32_empty() {
    assert_eq!(crc32(b""), 0);
}

#[test]
fn crc32_detect_single_bit_flip() {
    let a = crc32(b"hello world");
    let b = crc32(b"hallo world");
    assert_ne!(a, b);
}

#[test]
fn crc32_single_byte() {
    assert_eq!(crc32(&[0]), 0xD202_EF8D);
    assert_eq!(crc32(b"a"), 0xE8B7_BE43);
}

#[test]
fn crc32_detects_every_changed_byte() {
    let text = b"the quick brown fox".to_vec();
    let crc = crc32(&text);
    for i in 0..text.len() {
        let mut other = text.clone();
        other[i] ^= 0x10;
        assert_ne!(crc32(&other), crc);
    }
}
