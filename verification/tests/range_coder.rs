use babel_crypt::range_coder::{range_decode, range_encode};

#[test]
fn round_trip_range_coder() {
    let data: Vec<u8> = (0..=255u8).cycle().take(1024).collect();
    let coded = range_encode(&data);
    let decoded = range_decode(&coded).unwrap();
    if data != decoded {
        for i in 0..data.len().max(decoded.len()) {
            let d = data.get(i).map(|&x| x as i32).unwrap_or(-1);
            let c = decoded.get(i).map(|&x| x as i32).unwrap_or(-1);
            if d != c {
                panic!("Mismatch at index {}: expected {}, got {}", i, d, c);
            }
        }
    }
}

#[test]
fn coded_streams() {
    assert_eq!(range_encode(&[]), vec![0, 255, 0, 255, 0, 0]);
    assert_eq!(range_encode(&[0]), vec![0, 0, 254, 3, 247, 241, 0]);
    assert_eq!(
        range_encode(b"abracadabra"),
        vec![0, 97, 1, 14, 208, 1, 93, 177, 82, 38, 238, 10, 168, 188, 164, 0]
    );
    assert_eq!(
        range_encode(&[255; 8]),
        vec![0, 254, 255, 255, 254, 252, 193, 58, 252, 139, 37, 0]
    );
}

#[test]
fn streams_come_back() {
    let mut samples: Vec<Vec<u8>> = vec![vec![], vec![0], vec![255; 3000], b"the quick brown fox".to_vec()];
    let mut x: u32 = 1;
    let mut noise: Vec<u8> = Vec::new();
    for _ in 0..5000 {
        x = x.wrapping_mul(1664525).wrapping_add(1013904223);
        noise.push((x >> 24) as u8);
    }
    samples.push(noise);
    // One context long enough for its frequencies to be halved.
    samples.push(vec![7; 40000]);
    for data in samples {
        assert_eq!(range_decode(&range_encode(&data)).unwrap(), data);
    }
}

#[test]
fn no_bytes_decode_to_none() {
    assert_eq!(range_decode(&[]).unwrap(), Vec::<u8>::new());
}

#[test]
fn bytes_behind_a_stream_do_not_matter() {
    for data in [b"".to_vec(), b"abc".to_vec(), vec![200; 700]] {
        for extra in [vec![0u8], vec![255; 9]] {
            let mut coded = range_encode(&data);
            coded.extend_from_slice(&extra);
            assert_eq!(range_decode(&coded).unwrap(), data);
        }
    }
}
