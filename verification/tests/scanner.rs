use babel_crypt::crypto::compute_seed_for_chunk;
use babel_crypt::rice::MatchCoord;
use babel_crypt::scanner::{
    ROUND, Scan, Walk, WalkStep, chunk_count, encrypt_data, get_chunk, join_chunks, restore_chunk, restore_data,
    scan_hashes, start_scan, take_walk,
};

#[test]
fn counting_chunks() {
    assert_eq!(chunk_count(0, 3), 0);
    assert_eq!(chunk_count(6, 3), 2);
    assert_eq!(chunk_count(7, 3), 3);
    assert_eq!(chunk_count(usize::MAX, 1), usize::MAX);
    assert_eq!(chunk_count(usize::MAX, 2), usize::MAX / 2 + 1);
}

#[test]
fn cutting_chunks() {
    let data = [1u8, 2, 3, 4, 5];
    assert_eq!(get_chunk(&data, 2, 0), &[1, 2]);
    assert_eq!(get_chunk(&data, 2, 2), &[5]);
}

#[test]
fn rounds_go_on_where_the_last_one_ended() {
    let seed = compute_seed_for_chunk(b"pw", b"salt", 0);
    let whole = match scan_hashes(&start_scan(&seed), b"q", 1000) {
        Scan::Found(c) => c,
        Scan::Pending(_) => panic!("not found"),
    };
    let mut state = start_scan(&seed);
    loop {
        match scan_hashes(&state, b"q", 1) {
            Scan::Found(c) => {
                assert_eq!(c, whole);
                break;
            }
            Scan::Pending(next) => {
                assert_eq!(next.misses, state.misses + 1);
                state = next;
            }
        }
    }
    assert_eq!(restore_chunk(&seed, &whole, 1), b"q".to_vec());
}

#[test]
fn a_search_may_find_nothing() {
    let seed = [0u8; 32];
    match scan_hashes(&start_scan(&seed), &[0; 33], 5) {
        Scan::Pending(next) => assert_eq!(next.misses, 5),
        Scan::Found(_) => panic!("found"),
    }
    assert!(encrypt_data(b"pw", b"salt", &[1, 2, 3], 3, 1).is_none());
}

#[test]
fn data_comes_back() {
    let data = b"Every byte lies somewhere in the library.".to_vec();
    let coords = encrypt_data(b"pw", b"0123456789abcdef", &data, 1, 100_000).unwrap();
    assert_eq!(coords.len(), data.len());
    assert_eq!(restore_data(b"pw", b"0123456789abcdef", &coords, 1), data);
    assert_ne!(restore_data(b"other", b"0123456789abcdef", &coords, 1), data);
}

#[test]
fn a_short_last_chunk_comes_back_longer() {
    let data = b"seven b".to_vec();
    let coords = encrypt_data(b"pw", b"salt", &data, 2, 1_000_000).unwrap();
    let out = restore_data(b"pw", b"salt", &coords, 2);
    assert_eq!(out[..data.len()], data[..]);
    let last = coords[coords.len() - 1];
    assert_eq!(out.len(), if last.index == 31 { 7 } else { 8 });
}

#[test]
fn chunks_put_together() {
    assert_eq!(join_chunks(&vec![vec![1, 2], vec![], vec![3]]), vec![1, 2, 3]);
    assert_eq!(restore_data(b"pw", b"salt", &Vec::<MatchCoord>::new(), 4), Vec::<u8>::new());
}

#[test]
fn encryption_is_determined_by_its_inputs() {
    let first = encrypt_data(b"pw", b"salt", b"same", 1, 10_000).unwrap();
    let second = encrypt_data(b"pw", b"salt", b"same", 1, 20_000).unwrap();
    assert_eq!(first, second);
    let other = encrypt_data(b"pw", b"tlas", b"same", 1, 10_000).unwrap();
    assert_ne!(first, other);
}

#[test]
fn walks_round_by_round() {
    let seed = [3u8; 32];
    for misses in [0, 1, ROUND - 1, ROUND, 2 * ROUND + 17] {
        let coord = MatchCoord { misses, index: 29 };
        let mut walk = Walk { hash: seed, left: misses };
        let mut rounds: u64 = 0;
        let chunk = loop {
            match take_walk(&walk, 29, 2) {
                WalkStep::GoOn(next) => {
                    assert_eq!(next.left, walk.left - ROUND);
                    walk = next;
                    rounds += 1;
                }
                WalkStep::Done(chunk) => break chunk,
            }
        };
        assert_eq!(rounds, misses / ROUND);
        assert_eq!(walk.left, misses % ROUND);
        assert_eq!(chunk, restore_chunk(&seed, &coord, 2));
        assert_eq!(chunk.len(), 2);
    }
}

#[test]
fn lengths_of_restored_data() {
    let at = |index: usize| MatchCoord { misses: 1, index };
    assert_eq!(restore_data(b"pw", b"salt", &[at(0), at(30), at(32)], 4).len(), 4 + 2 + 0);
}
