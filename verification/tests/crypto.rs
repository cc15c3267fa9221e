use babel_crypt::crypto::{
    CoordEntry, advance_hash, advance_many, compute_seed, compute_seed_for_chunk, decrypt, find_chunk_in_hash,
    generate_salt, vectorize_hash,
};
use babel_crypt::entries::{coords_to_entries, count_indices, entries_to_coords};
use babel_crypt::hex::hex_encode;
use babel_crypt::rice::MatchCoord;

#[test]
fn digest_of_nothing() {
    assert_eq!(
        hex_encode(&compute_seed(b"", b"")),
        "af1349b9f5f9a1a6a0404dea36dcc9499bcb25c9adc112b7cc9a93cae41f3262"
    );
}

#[test]
fn seeds_and_steps() {
    let seed = compute_seed(b"pass", b"salt");
    assert_eq!(seed, *blake3::hash(b"passsalt").as_bytes());
    assert_eq!(advance_hash(&seed), *blake3::hash(&seed).as_bytes());
    assert_eq!(advance_many(&seed, 0), seed);
    assert_eq!(advance_many(&seed, 3), advance_hash(&advance_hash(&advance_hash(&seed))));
    let mut input = seed.to_vec();
    input.extend_from_slice(&[0x0e, 0, 0, 0]);
    assert_eq!(vectorize_hash(&seed, 14), *blake3::hash(&input).as_bytes());
    let mut input = b"passsalt".to_vec();
    input.extend_from_slice(&300u64.to_le_bytes());
    assert_eq!(compute_seed_for_chunk(b"pass", b"salt", 300), *blake3::hash(&input).as_bytes());
}

#[test]
fn salts_vary() {
    let first = generate_salt();
    assert!((0..10).any(|_| generate_salt() != first));
    assert!((0..10).any(|_| generate_salt() != [0u8; 16]));
}

#[test]
fn chunks_in_hashes() {
    let mut hash = [0u8; 32];
    hash[5] = 1;
    hash[6] = 2;
    hash[30] = 1;
    hash[31] = 2;
    assert_eq!(find_chunk_in_hash(&hash, &[1, 2]), Some(5));
    assert_eq!(find_chunk_in_hash(&hash, &[2, 0]), Some(6));
    assert_eq!(find_chunk_in_hash(&hash, &[0]), Some(0));
    assert_eq!(find_chunk_in_hash(&hash, &[3]), None);
    assert_eq!(find_chunk_in_hash(&hash, &hash), Some(0));
    assert_eq!(find_chunk_in_hash(&hash, &[]), None);
    assert_eq!(find_chunk_in_hash(&hash, &[0; 33]), None);
}

#[test]
fn data_in_one_chain() {
    let salt = [7u8; 16];
    let data = b"One chain, many chunks.";
    let mut hash = compute_seed(b"pw", &salt);
    let mut coords: Vec<MatchCoord> = Vec::new();
    for b in data.iter() {
        let mut misses = 0u64;
        loop {
            if let Some(index) = find_chunk_in_hash(&hash, &[*b]) {
                coords.push(MatchCoord { misses, index });
                hash = vectorize_hash(&hash, index);
                break;
            }
            misses += 1;
            hash = advance_hash(&hash);
        }
    }
    let entries = coords_to_entries(&coords);
    assert_eq!(count_indices(&entries), data.len());
    assert_eq!(entries_to_coords(&entries).unwrap(), coords);
    assert_eq!(decrypt(&hex_encode(&salt), "pw", &entries, 1).unwrap(), data.to_vec());
}

#[test]
fn windows_end_with_the_hash() {
    let hash = compute_seed(b"pw", &[0xab]);
    let out = decrypt("ab", "pw", &[CoordEntry::Index(30)], 4).unwrap();
    assert_eq!(out, hash[30..].to_vec());
}

#[test]
fn entries_that_cannot_be_decrypted() {
    assert_eq!(
        decrypt("ab", "pw", &[CoordEntry::Index(32)], 1).unwrap_err(),
        "Index 32 out of range (hash is 32 bytes)"
    );
    assert_eq!(decrypt("a", "pw", &[], 1).unwrap_err(), "Hex string has odd length");
}

#[test]
fn entries_as_coordinates() {
    let runs = [CoordEntry::ZeroRun(2), CoordEntry::ZeroRun(3), CoordEntry::Index(9), CoordEntry::ZeroRun(1)];
    assert_eq!(entries_to_coords(&runs).unwrap(), vec![MatchCoord { misses: 5, index: 9 }]);
    let long = [CoordEntry::ZeroRun(u64::MAX), CoordEntry::ZeroRun(1), CoordEntry::Index(9)];
    assert!(entries_to_coords(&long).is_none());
}

#[test]
fn lengths_of_decrypted_data() {
    let entries = [CoordEntry::Index(3), CoordEntry::ZeroRun(2), CoordEntry::Index(29), CoordEntry::Index(0)];
    assert_eq!(decrypt("ab", "pw", &entries[..1], 4).unwrap().len(), 4);
    assert_eq!(decrypt("ab", "pw", &entries, 4).unwrap().len(), 4 + 3 + 4);
    assert_eq!(decrypt("ab", "pw", &entries, 100).unwrap().len(), 29 + 3 + 32);
}

#[test]
fn zero_runs_add_up() {
    let run = |n: u64| CoordEntry::ZeroRun(n);
    let at = |p: usize| CoordEntry::Index(p);
    let two = decrypt("ab", "pw", &[at(1), run(2), run(3), at(4)], 2).unwrap();
    let one = decrypt("ab", "pw", &[at(1), run(5), at(4)], 2).unwrap();
    assert_eq!(two, one);
    let with = decrypt("ab", "pw", &[at(1), run(0), at(4)], 2).unwrap();
    let without = decrypt("ab", "pw", &[at(1), at(4)], 2).unwrap();
    assert_eq!(with, without);
    assert_ne!(one, without);
}
