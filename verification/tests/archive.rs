use babel_crypt::archive::{
    Archive, OutputFormat, checksum_hex, checksum_ok, chunk_size_fits, open_binary, open_text, salt_cuts,
    write_archive,
};
use babel_crypt::archive_text::{format_coords, format_output, parse_archive, parse_coords};
use babel_crypt::crypto::CoordEntry;
use babel_crypt::hex::hex_encode;
use babel_crypt::rice::MatchCoord;
use babel_crypt::scanner::{encrypt_data, restore_data};

const TEXT: &str = "[Header]\nVersion: ABGRUND INDEX 0.1\nHash: BLAKE3-256\nSalt: 00ff\nChunkSize: 2\n\n[Body]\n14, x8_0.0, 7\n\n[Footer]\nChecksum: abcd\n";

#[test]
fn coordinates_in_words() {
    let coords = [CoordEntry::Index(14), CoordEntry::ZeroRun(8), CoordEntry::Index(7), CoordEntry::Index(22)];
    assert_eq!(format_coords(&coords), "14, x8_0.0, 7, 22");
    assert_eq!(format_coords(&[]), "");
}

#[test]
fn text_of_an_archive() {
    let coords = [CoordEntry::Index(14), CoordEntry::ZeroRun(8), CoordEntry::Index(7)];
    assert_eq!(format_output("00ff", &coords, "abcd", 2), TEXT);
}

#[test]
fn text_is_parsed_back() {
    let (salt, coords, checksum, size) = parse_archive(TEXT).unwrap();
    assert_eq!((salt.as_str(), checksum.as_str(), size), ("00ff", "abcd", 2));
    assert_eq!(format_coords(&coords), "14, x8_0.0, 7");
    let empty = format_output("00", &[], "", 1);
    let (salt, coords, checksum, size) = parse_archive(&empty).unwrap();
    assert_eq!((salt.as_str(), coords.len(), checksum.as_str(), size), ("00", 0, "", 1));
}

#[test]
fn loose_text_is_parsed() {
    let text = "junk\r\n  [Header] \r\nSalt: aa  \r\nSalt: bb\n[Body]\n1,2,\n\n x3_0.0 \n[Footer]\nChecksum: c d\nSalt: zz\n[Body]\n+4";
    let (salt, coords, checksum, size) = parse_archive(text).unwrap();
    assert_eq!((salt.as_str(), checksum.as_str(), size), ("bb", "c d", 1));
    assert_eq!(format_coords(&coords), "1, 2, x3_0.0, 4");
}

#[test]
fn text_that_cannot_be_parsed() {
    let body = |b: &str| format!("[Header]\nSalt: 00\n[Body]\n{}\n", b);
    let message = |t: &str| parse_archive(t).unwrap_err();
    assert_eq!(message(""), "Missing Salt in archive header");
    assert_eq!(message("[Header]\nSalt:\n"), "Missing Salt in archive header");
    assert_eq!(
        message("[Header]\nChunkSize: two\nSalt: 00\n"),
        "Invalid ChunkSize: invalid digit found in string"
    );
    assert_eq!(message(&body("x5")), "Invalid zero-run: 'x5'");
    assert_eq!(
        message(&body("x_0.0")),
        "Invalid zero-run count 'x_0.0': cannot parse integer from empty string"
    );
    assert_eq!(
        message(&body("x18446744073709551616_0.0")),
        "Invalid zero-run count 'x18446744073709551616_0.0': number too large to fit in target type"
    );
    assert_eq!(message(&body("3, y")), "Invalid index 'y': invalid digit found in string");
    // The body is read before the salt is missed.
    assert_eq!(message("[Body]\ny\n"), "Invalid index 'y': invalid digit found in string");
}

#[test]
fn names_of_formats() {
    assert_eq!(OutputFormat::Text.label(), "text");
    assert_eq!(OutputFormat::Binary.label(), "binary");
}

#[test]
fn checksums() {
    let sum = checksum_hex(b"data");
    assert_eq!(sum, blake3::hash(b"data").to_hex().to_string());
    assert!(checksum_ok(b"data", &sum));
    assert!(checksum_ok(b"data", ""));
    assert!(!checksum_ok(b"date", &sum));
    assert!(!checksum_ok(b"data", &sum.to_uppercase()));
}

#[test]
fn encrypted_data_comes_back_from_either_format() {
    let data = b"abcdefgh".to_vec();
    let salt = [9u8; 16];
    let checksum = checksum_hex(&data);
    for size in [1usize, 2] {
        let coords = encrypt_data(b"pw", &salt, &data, size, 10_000_000).unwrap();
        for format in [OutputFormat::Text, OutputFormat::Binary] {
            let opened = match write_archive(format, &salt, &checksum, &coords, size) {
                Archive::Text(text) => {
                    assert_eq!(format, OutputFormat::Text);
                    assert!(salt_cuts(&text));
                    open_text(&text).unwrap()
                }
                Archive::Binary(bytes) => {
                    assert_eq!(format, OutputFormat::Binary);
                    assert!(chunk_size_fits(&bytes));
                    open_binary(&bytes).unwrap()
                }
            };
            assert_eq!(opened.salt, salt.to_vec());
            assert_eq!(opened.coords, coords);
            assert_eq!(opened.checksum, checksum);
            assert_eq!(opened.chunk_size, size);
            let out = restore_data(b"pw", &opened.salt, &opened.coords, opened.chunk_size);
            assert_eq!(out, data);
            assert!(checksum_ok(&out, &opened.checksum));
        }
    }
}

#[test]
fn one_byte_for_the_chunk_size() {
    let sum = checksum_hex(b"");
    match write_archive(OutputFormat::Binary, &[0; 16], &sum, &[], 258) {
        Archive::Binary(bytes) => assert_eq!(bytes[4], 2),
        Archive::Text(_) => panic!("text"),
    }
}

#[test]
fn archives_that_cannot_be_opened() {
    assert_eq!(open_text("").unwrap_err(), "Parse error: Missing Salt in archive header");
    assert_eq!(
        open_text("[Header]\nSalt: abc\n").unwrap_err(),
        "Salt decode error: Hex string has odd length"
    );
    assert_eq!(
        open_text("[Header]\nSalt: ab\n[Body]\nx18446744073709551615_0.0, x1_0.0, 3\n").unwrap_err(),
        "Parse error: Zero runs too long"
    );
    assert_eq!(open_binary(b"BAB").unwrap_err(), "Decode error: Archive too short");
    assert!(salt_cuts(""));
    assert!(!salt_cuts("[Header]\nSalt: a\u{e9}b\n"));
}

#[test]
fn chunk_sizes_that_cannot_be_decoded() {
    let mut bytes: Vec<u8> = b"BAB\x01\x08".to_vec();
    bytes.extend_from_slice(&[0; 48]);
    assert!(chunk_size_fits(&bytes));
    bytes.extend_from_slice(&[1, 0, 0, 0]);
    assert!(chunk_size_fits(&bytes));
    bytes.push(0);
    assert!(!chunk_size_fits(&bytes));
    bytes[4] = 7;
    assert!(chunk_size_fits(&bytes));
    bytes[4] = 8;
    bytes[0] = 0;
    assert!(chunk_size_fits(&bytes));
}

#[test]
fn coordinates_of_a_text_archive() {
    let opened = open_text(TEXT).unwrap();
    assert_eq!(hex_encode(&opened.salt), "00ff");
    assert_eq!(
        opened.coords,
        vec![MatchCoord { misses: 0, index: 14 }, MatchCoord { misses: 8, index: 7 }]
    );
}

#[test]
fn coordinate_lists() {
    let read = |text: &str| parse_coords(text).map(|coords| format_coords(&coords));
    assert_eq!(read("14, x8_0.0, 7").unwrap(), "14, x8_0.0, 7");
    assert_eq!(read("").unwrap(), "");
    assert_eq!(read(" , 3 ,,").unwrap(), "3");
    let (a, b) = ("1, x2_0.0", " 3,4");
    assert_eq!(read(&format!("{},{}", a, b)).unwrap(), "1, x2_0.0, 3, 4");
    assert_eq!(read("1,y,z").unwrap_err(), read("y").unwrap_err());
    assert_eq!(read("1,z").unwrap_err(), read("z").unwrap_err());
}
