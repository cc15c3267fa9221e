use babel_crypt::rice::{MAX_CHUNK_SIZE, MatchCoord, bytes_to_coords, coords_to_bytes, get_rice_k};

#[test]
fn rice_parameters() {
    for n in 1..=MAX_CHUNK_SIZE {
        let avg = 256f64.powi(n as i32) / (33.0 - n as f64);
        let k = (avg * std::f64::consts::LN_2).log2().max(0.0).round() as u8;
        assert_eq!(get_rice_k(n), k);
    }
    assert_eq!(get_rice_k(0), 0);
    assert_eq!(get_rice_k(1), 2);
    assert_eq!(get_rice_k(2), 11);
}

#[test]
fn packed_coordinates() {
    assert_eq!(coords_to_bytes(&[], 1), vec![0, 0, 0, 0]);
    assert_eq!(
        coords_to_bytes(&[MatchCoord { misses: 5, index: 7 }], 1),
        vec![1, 0, 0, 0, 117, 0]
    );
    assert_eq!(
        coords_to_bytes(&[MatchCoord { misses: 3, index: 31 }], 0),
        vec![1, 0, 0, 0, 247, 1]
    );
    let coords = [
        MatchCoord { misses: 0, index: 3 },
        MatchCoord { misses: 127, index: 15 },
        MatchCoord { misses: 16383, index: 0 },
    ];
    assert_eq!(
        coords_to_bytes(&coords, 2),
        vec![3, 0, 0, 0, 0, 48, 252, 225, 253, 253, 31, 0]
    );
}

#[test]
fn packed_coordinates_come_back() {
    for size in 0..=MAX_CHUNK_SIZE {
        let mut coords: Vec<MatchCoord> = Vec::new();
        for i in 0..40u64 {
            coords.push(MatchCoord { misses: i * i * 7, index: (i % 32) as usize });
        }
        if size >= 6 {
            coords.push(MatchCoord { misses: 1u64 << 52, index: 31 });
        }
        assert_eq!(bytes_to_coords(&coords_to_bytes(&coords, size), size).unwrap(), coords);
    }
}

#[test]
fn bytes_that_end_early_are_an_error() {
    assert_eq!(bytes_to_coords(&[], 1).unwrap_err(), "EOF");
    assert_eq!(bytes_to_coords(&[1, 0, 0, 0], 1).unwrap_err(), "EOF");
    assert_eq!(bytes_to_coords(&[1, 0, 0, 0, 255], 1).unwrap_err(), "EOF");
    assert_eq!(bytes_to_coords(&[2, 0, 0, 0, 117, 0], 1).unwrap_err(), "EOF");
}
