use babel_crypt::codec::{decode, encode, estimate_size};
use babel_crypt::rice::{MatchCoord, bytes_to_coords, coords_to_bytes};

#[test]
fn round_trip_coords() {
    let coords = vec![
        MatchCoord { misses: 0, index: 3 },
        MatchCoord { misses: 127, index: 15 },
        MatchCoord { misses: 16383, index: 0 },
    ];
    let raw = coords_to_bytes(&coords, 2);
    let decoded = bytes_to_coords(&raw, 2).unwrap();
    assert_eq!(coords.len(), decoded.len());
    for (a, b) in coords.iter().zip(decoded.iter()) {
        assert_eq!(a.misses, b.misses);
        assert_eq!(a.index, b.index);
    }
}

#[test]
fn full_archive_round_trip() {
    let salt = [0xABu8; 16];
    let checksum = "a".repeat(64);
    let coords = vec![
        MatchCoord { misses: 500, index: 7 },
        MatchCoord { misses: 1, index: 15 },
    ];
    let archive = encode(&salt, &checksum, &coords, 1);
    let (s2, cs2, c2, sz2) = decode(&archive).unwrap();
    assert_eq!(salt, s2);
    assert_eq!(checksum, cs2);
    assert_eq!(sz2, 1);
    assert_eq!(coords.len(), c2.len());
}

#[test]
fn layout_of_an_archive() {
    let coords = [MatchCoord { misses: 500, index: 7 }, MatchCoord { misses: 1, index: 15 }];
    let archive = encode(&[0xAB; 16], &"c1".repeat(32), &coords, 1);
    let payload = [
        0u8, 1, 254, 1, 255, 240, 81, 209, 23, 22, 207, 190, 113, 228, 173, 117, 187, 204, 119, 67, 72, 0, 0,
    ];
    let mut expected: Vec<u8> = b"BAB\x01\x01".to_vec();
    expected.extend_from_slice(&[0xAB; 16]);
    expected.extend_from_slice(&[0xC1; 32]);
    expected.extend_from_slice(&[23, 0, 0, 0]);
    expected.extend_from_slice(&payload);
    assert_eq!(archive, expected);
    assert_eq!(estimate_size(&coords, 1), (22, 57 + 23));
    assert_eq!(estimate_size(&coords, 1).1, archive.len());
}

#[test]
fn archives_that_cannot_be_decoded() {
    let good = encode(&[1; 16], &"00".repeat(32), &[MatchCoord { misses: 4, index: 2 }], 1);
    assert_eq!(decode(&good[..56]).unwrap_err(), "Archive too short");
    assert_eq!(decode(&good[..good.len() - 1]).unwrap_err(), "Archive truncated");
    let mut bad = good.clone();
    bad[3] = 2;
    assert_eq!(
        decode(&bad).unwrap_err(),
        format!("Bad magic: {:?} (expected {:?})", [66u8, 65, 66, 2], b"BAB\x01")
    );
    // A payload that is a well-formed stream of too few bytes.
    let mut short = good[..53].to_vec();
    short.extend_from_slice(&[7, 0, 0, 0, 0, 0, 254, 3, 247, 241, 0]);
    assert_eq!(decode(&short).unwrap_err(), "EOF");
    // A payload of length zero.
    let mut empty = good[..53].to_vec();
    empty.extend_from_slice(&[0, 0, 0, 0]);
    assert_eq!(decode(&empty).unwrap_err(), "EOF");
}

#[test]
fn bytes_behind_an_archive_do_not_matter() {
    let coords = vec![MatchCoord { misses: 9, index: 31 }];
    let mut archive = encode(&[1; 16], &"5a".repeat(32), &coords, 2);
    archive.push(99);
    let (_, checksum, decoded, size) = decode(&archive).unwrap();
    assert_eq!((checksum, decoded, size), ("5a".repeat(32), coords, 2));
}

#[test]
fn salt_and_checksum_stay_in_their_places() {
    let coords = [MatchCoord { misses: 40, index: 1 }, MatchCoord { misses: 0, index: 30 }];
    let a = encode(&[1; 16], &"0a".repeat(32), &coords, 1);
    let b = encode(&[2; 16], &"f5".repeat(32), &coords, 1);
    assert_eq!(a.len(), b.len());
    assert_eq!(a[..5], b[..5]);
    assert_ne!(a[5..53], b[5..53]);
    assert_eq!(a[53..], b[53..]);
}
