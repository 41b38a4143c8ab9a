use storagekv::bytes::{key_order, KeyOrder};
use storagekv::text::{chars_of, parse_number, push_decimal, push_hex8, push_padded, split_words, trim};

#[test]
fn numbers_written_and_read() {
    for n in [0u64, 9, 10, 4096, u64::MAX] {
        let mut s = String::new();
        push_decimal(&mut s, n);
        assert_eq!(s, format!("{}", n));
        let mut p = String::new();
        push_padded(&mut p, n, 6);
        assert_eq!(p, format!("{:06}", n));
        assert_eq!(parse_number(&chars_of(&p)), Some(n));
    }
    let mut h = String::new();
    push_hex8(&mut h, 0xCBF4_3926);
    assert_eq!(h, "0xcbf43926");
}

#[test]
fn numbers_agree_with_the_standard_parser() {
    for s in ["", "+", "+7", "-7", "007", "1 ", "1_0", "18446744073709551615", "18446744073709551616", "99999999999999999999999"] {
        assert_eq!(parse_number(&chars_of(s)), s.parse::<u64>().ok());
    }
}

#[test]
fn words_agree_with_the_standard_splitter() {
    for s in ["", " ", "a", " a  b ", "\u{3000}x\u{2003}y\u{85}z\t", "a\u{200b}b \u{1680}\u{202f}c"] {
        let chars = chars_of(s);
        let mine: Vec<String> =
            split_words(&chars).iter().map(|&(a, b)| chars[a..b].iter().collect()).collect();
        let std: Vec<String> = s.split_whitespace().map(|w| w.to_string()).collect();
        assert_eq!(mine, std);
        let (a, b) = trim(&chars);
        let trimmed: String = chars[a..b].iter().collect();
        assert_eq!(trimmed, s.trim());
    }
}

#[test]
fn white_space_agrees_with_the_standard_table() {
    for code in 0..0x11_0000u32 {
        if let Some(c) = char::from_u32(code) {
            assert_eq!(split_words(&[c]).is_empty(), c.is_whitespace());
        }
    }
}

#[test]
fn keys_order_as_byte_strings() {
    let keys: Vec<&[u8]> = vec![b"", b"\0", b"a", b"a\0", b"aa", b"b", b"\xff"];
    for a in &keys {
        for b in &keys {
            let o = key_order(a, b);
            assert_eq!(o == KeyOrder::Before, a < b);
            assert_eq!(o == KeyOrder::Same, a == b);
            assert_eq!(o == KeyOrder::After, a > b);
        }
    }
}
