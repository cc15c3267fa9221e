use babel_crypt::hex::{bytes32_to_hex, cuts_pairs, hex_decode, hex_encode, hex_to_bytes32};

#[test]
fn bytes_in_hexadecimal() {
    assert_eq!(hex_encode(&[]), "");
    assert_eq!(hex_encode(&[0x00, 0x0f, 0xa9, 0xff]), "000fa9ff");
    let mut all = String::new();
    let bytes: Vec<u8> = (0..=255u8).collect();
    for b in &bytes {
        all.push_str(&format!("{:02x}", b));
    }
    assert_eq!(hex_encode(&bytes), all);
}

#[test]
fn hexadecimal_comes_back() {
    let bytes: Vec<u8> = (0..=255u8).collect();
    assert_eq!(hex_decode(&hex_encode(&bytes)).unwrap(), bytes);
    assert_eq!(hex_decode("A9fF").unwrap(), vec![0xa9, 0xff]);
}

#[test]
fn a_sign_counts_as_it_does_for_numbers() {
    for text in ["+f", "-f", "++", "f+", " f", "0x", "g0", "0g"] {
        let expected = u8::from_str_radix(text, 16).map_err(|e| format!("Invalid hex at 0: {}", e));
        match (hex_decode(text), expected) {
            (Ok(bytes), Ok(b)) => assert_eq!(bytes, vec![b]),
            (Err(a), Err(b)) => assert_eq!(a, b),
            (a, b) => panic!("{}: {:?}, {:?}", text, a, b),
        }
    }
}

#[test]
fn bad_hexadecimal() {
    assert_eq!(hex_decode("abc").unwrap_err(), "Hex string has odd length");
    assert_eq!(hex_decode("00zz").unwrap_err(), "Invalid hex at 2: invalid digit found in string");
}

#[test]
fn characters_that_pairs_would_split() {
    assert!(cuts_pairs("00ff"));
    assert!(cuts_pairs("00f"));
    assert!(cuts_pairs("\u{e9}\u{e9}"));
    assert!(!cuts_pairs("a\u{e9}b"));
    assert!(!cuts_pairs("00\u{20ac}1"));
    assert!(cuts_pairs("zza\u{e9}b"));
}

#[test]
fn checksums_come_back() {
    let text = "0123456789abcdef".repeat(4);
    assert_eq!(bytes32_to_hex(&hex_to_bytes32(&text)), text);
}

#[test]
fn short_and_long_checksums() {
    let mut out = [0u8; 32];
    out[0] = 0x12;
    assert_eq!(hex_to_bytes32("12zz"), out);
    assert_eq!(hex_to_bytes32(""), [0u8; 32]);
    assert_eq!(hex_to_bytes32(&"ff".repeat(40)), [0xff; 32]);
}
