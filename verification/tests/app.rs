use babel_crypt::app::{AppState, LINE_COUNT, LOG_LEN, Mode, Step, archive_format};
use babel_crypt::archive::{OutputFormat, checksum_hex};
use babel_crypt::codec::encode;
use babel_crypt::command::{Command, parse_command};
use babel_crypt::rice::MatchCoord;
use babel_crypt::scanner::{ROUND, Scan, ScanState, scan_hashes};
use babel_crypt::sizes::{SizeEstimate, estimate};

fn args(list: &[&str]) -> Vec<String> {
    list.iter().map(|a| a.to_string()).collect()
}

fn encrypting() -> AppState {
    AppState::new_encrypt("in.txt", b"hello world".to_vec(), "pw", 2, OutputFormat::Text)
}

#[test]
fn state_for_encrypting() {
    let s = encrypting();
    assert_eq!((s.completed_chunks, s.current_chunk, s.total_chunks, s.chunk_size), (0, 0, 6, 2));
    assert_eq!((s.pointer_pos, s.pointer_line_idx, s.match_flash, s.scan_count), (20, 3, 0, 0));
    assert!(s.running && !s.finished && s.status_message.is_empty() && s.coordinates.is_empty());
    assert_eq!(s.output_path, "in.txt.babel.txt");
    match &s.mode {
        Mode::Encrypt { input_path, password, chunk_size } => {
            assert_eq!((input_path.as_str(), password.as_str(), *chunk_size), ("in.txt", "pw", 2));
        }
        Mode::Decrypt { .. } => panic!("decrypting"),
    }
    let b = AppState::new_encrypt("in.txt", Vec::new(), "pw", 1, OutputFormat::Binary);
    assert_eq!((b.output_path.as_str(), b.total_chunks), ("in.txt.babel.bin", 0));
}

#[test]
fn display_lines() {
    let s = encrypting();
    assert_eq!(s.hash_lines.len(), LINE_COUNT);
    let mut h = blake3::hash(b"init_display_seed_babel");
    for line in &s.hash_lines {
        let mut expected = String::new();
        for _ in 0..8 {
            h = blake3::hash(h.as_bytes());
            expected.push_str(&h.to_hex().as_str()[..32]);
        }
        assert_eq!(line, &expected);
    }
}

#[test]
fn state_for_decrypting() {
    let text = "[Header]\nSalt: 00\nChunkSize: 3\n[Body]\n1, x2_0.0, 5\n";
    let s = AppState::new_decrypt("dir.babel.txt/a.babel.txt", text, "pw").unwrap();
    assert_eq!((s.total_chunks, s.chunk_size, s.source_data.len()), (2, 3, 0));
    assert_eq!(s.output_path, "dir.dec/a.dec");
    assert_eq!(s.format, OutputFormat::Text);
    match &s.mode {
        Mode::Decrypt { archive_path, password } => {
            assert_eq!((archive_path.as_str(), password.as_str()), ("dir.babel.txt/a.babel.txt", "pw"));
        }
        Mode::Encrypt { .. } => panic!("encrypting"),
    }
    let other = AppState::new_decrypt("archive", text, "pw").unwrap();
    assert_eq!(other.output_path, "archive.dec");
    let named = AppState::new_decrypt("a.babel.bin", text, "pw").unwrap();
    assert_eq!(named.output_path, "a.babel.bin.dec");
    assert_eq!(
        AppState::new_decrypt("a", "", "pw").unwrap_err(),
        "Missing Salt in archive header"
    );
}

#[test]
fn state_for_decrypting_a_binary_archive() {
    let coords = [MatchCoord { misses: 1, index: 2 }, MatchCoord { misses: 3, index: 4 }];
    let data = encode(&[0; 16], &checksum_hex(b""), &coords, 3);
    let s = AppState::new_decrypt_binary("a.babel.bin", &data, "pw").unwrap();
    assert_eq!((s.total_chunks, s.chunk_size, s.format), (2, 3, OutputFormat::Binary));
    assert_eq!(s.output_path, "a.babel.bin.dec");
    assert_eq!(
        AppState::new_decrypt_binary("a", &data[..9], "pw").unwrap_err(),
        "Archive too short"
    );
}

#[test]
fn formats_by_name() {
    assert_eq!(archive_format("a.babel.bin"), OutputFormat::Binary);
    assert_eq!(archive_format("a.babel.txt"), OutputFormat::Text);
    assert_eq!(archive_format("a.babel.bin.old"), OutputFormat::Text);
}

#[test]
fn matches_are_recorded() {
    let mut s = encrypting();
    s.record_match(0, 6, &MatchCoord { misses: 7, index: 30 }, 8);
    assert_eq!((s.scan_count, s.completed_chunks, s.current_chunk), (8, 1, 1));
    assert_eq!((s.match_flash, s.pointer_pos, s.estimated_bin_bytes), (12, 54, 59));
    assert_eq!(s.coordinates, vec!["x7_0.0, I=30"]);
    s.record_match(3, 6, &MatchCoord { misses: 0, index: 4 }, 1);
    assert_eq!((s.scan_count, s.completed_chunks, s.coordinates.len()), (9, 1, 1));
    s.record_match(5, 6, &MatchCoord { misses: 0, index: 4 }, 1);
    assert_eq!((s.scan_count, s.completed_chunks, s.current_chunk, s.pointer_pos), (10, 6, 6, 8));
    assert_eq!(s.coordinates, vec!["x7_0.0, I=30", "I=4"]);
    s.record_match(0, 6, &MatchCoord { misses: 0, index: 1 }, 1);
    assert_eq!((s.completed_chunks, s.current_chunk), (6, 1));
}

#[test]
fn the_log_is_bounded() {
    let mut s = encrypting();
    for i in 0..LOG_LEN + 5 {
        s.record_match(i * 10, 10_000, &MatchCoord { misses: i as u64 + 1, index: 0 }, 1);
    }
    assert_eq!(s.coordinates.len(), LOG_LEN);
    assert_eq!(s.coordinates[0], "x6_0.0, I=0");
    assert_eq!(s.coordinates[LOG_LEN - 1], "x105_0.0, I=0");
}

#[test]
fn misses_and_restored_chunks_are_recorded() {
    let mut s = encrypting();
    s.match_flash = 1;
    s.record_misses(10_049, 10_000);
    assert_eq!((s.scan_count, s.pointer_pos, s.match_flash), (10_000, 49, 0));
    s.record_misses(20_000, 1);
    assert_eq!((s.scan_count, s.pointer_pos, s.match_flash), (10_001, 0, 0));
    s.record_steps(9);
    assert_eq!(s.scan_count, 10_010);
    s.record_restored(20, 30, &MatchCoord { misses: 0, index: 3 }, 5);
    assert_eq!((s.scan_count, s.completed_chunks, s.current_chunk, s.match_flash, s.pointer_pos), (10_015, 21, 21, 12, 6));
    s.record_restored(22, 30, &MatchCoord { misses: 0, index: 9 }, 1);
    assert_eq!((s.scan_count, s.completed_chunks, s.pointer_pos), (10_016, 21, 6));
    assert!(s.coordinates.is_empty() && s.estimated_bin_bytes == 0);
}

#[test]
fn ends_of_runs() {
    let mut s = encrypting();
    s.finish_encrypt("done".to_string());
    assert_eq!((s.completed_chunks, s.status_message.as_str(), s.finished), (6, "done", true));

    let mut s = encrypting();
    s.fail("Parse error: x".to_string());
    assert_eq!((s.completed_chunks, s.status_message.as_str(), s.finished), (0, "Parse error: x", true));

    let text = "[Header]\nSalt: 00\n[Body]\n1, 2\n";
    let data = b"ab".to_vec();
    let sum = checksum_hex(&data);
    let start = || {
        let mut s = AppState::new_decrypt("a.babel.txt", text, "pw").unwrap();
        s.begin_decrypt(1, 2);
        s
    };
    let mut s = start();
    s.finish_decrypt(data.clone(), &sum, Ok(()));
    assert_eq!(s.status_message, "Decrypted -> a.dec (2 bytes, checksum OK) [text]");
    assert_eq!((s.completed_chunks, s.source_data.clone(), s.finished), (2, data.clone(), true));
    let mut s = start();
    s.finish_decrypt(data.clone(), "00", Ok(()));
    assert_eq!(s.status_message, "Decrypted -> a.dec (CHECKSUM MISMATCH!) [text]");
    let mut s = start();
    s.finish_decrypt(data, &sum, Err("disk full".to_string()));
    assert_eq!(s.status_message, "Error writing output: disk full");
}

#[test]
fn commands() {
    assert!(matches!(parse_command(&args(&[])), Command::Usage));
    assert!(matches!(parse_command(&args(&["babel", "analyze"])), Command::Usage));
    assert!(matches!(parse_command(&args(&["babel", "encrypt", "f"])), Command::Usage));
    assert!(matches!(parse_command(&args(&["babel", "restore", "f", "p"])), Command::Usage));
    match parse_command(&args(&["babel", "analyze", "f"])) {
        Command::Analyze { path } => assert_eq!(path, "f"),
        other => panic!("{:?}", other),
    }
    match parse_command(&args(&["babel", "decrypt", "f", "p", "9"])) {
        Command::Decrypt { path, password } => assert_eq!((path.as_str(), password.as_str()), ("f", "p")),
        other => panic!("{:?}", other),
    }
}

#[test]
fn options() {
    let parse = |rest: &[&str]| {
        let mut all = vec!["babel", "encrypt", "f", "p"];
        all.extend_from_slice(rest);
        match parse_command(&args(&all)) {
            Command::Encrypt { chunk_size, format, .. } => (chunk_size, format),
            other => panic!("{:?}", other),
        }
    };
    assert_eq!(parse(&[]), (1, OutputFormat::Text));
    assert_eq!(parse(&["--binary"]), (1, OutputFormat::Binary));
    assert_eq!(parse(&["2", "-b"]), (2, OutputFormat::Binary));
    assert_eq!(parse(&["-b", "3", "4"]), (3, OutputFormat::Binary));
    assert_eq!(parse(&["-b", "-t"]), (1, OutputFormat::Text));
    assert_eq!(parse(&["--text", "--binary", "x", "5"]), (1, OutputFormat::Text));
    assert_eq!(parse(&["", "5"]), (1, OutputFormat::Text));
    assert_eq!(parse(&["0"]), (0, OutputFormat::Text));
}

#[test]
fn size_estimates() {
    let digits: Vec<usize> = (1..=4).map(|n| estimate(1000, n).run_digits).collect();
    let bytes: Vec<usize> = (1..=4).map(|n| estimate(1000, n).run_bytes).collect();
    let mut float_digits: Vec<usize> = Vec::new();
    for n in 1..=4i32 {
        let run = 256f64.powi(n) / (33.0 - n as f64) - 1.0;
        float_digits.push(if run > 1.0 { run.log10().ceil() as usize } else { 1 });
    }
    assert_eq!(digits, float_digits);
    assert_eq!(digits, vec![1, 4, 6, 9]);
    assert_eq!(bytes, vec![1, 2, 3, 3]);
    assert_eq!(
        estimate(1001, 2),
        SizeEstimate {
            chunks: 501,
            run_digits: 4,
            run_bytes: 2,
            text_size: 120 + 501 * 16,
            raw_coords: 501 * 4,
            raw_size: 57 + 501 * 4,
        }
    );
}

#[test]
fn searches_round_by_round() {
    let mut s = encrypting();
    let seed = [5u8; 32];
    let mut step = s.begin_search(&seed);
    let coord = loop {
        match step {
            Step::Done(coord) => break coord,
            Step::GoOn(search) => {
                let scan = scan_hashes(&search, b"he", ROUND);
                step = s.take_round(0, 6, &search, &scan);
            }
        }
    };
    assert_eq!(s.scan_count, coord.misses + 1);
    assert_eq!(s.completed_chunks, 1);
    let whole = match scan_hashes(&ScanState { hash: seed, misses: 0 }, b"he", 10_000_000) {
        Scan::Found(c) => c,
        Scan::Pending(_) => panic!("not found"),
    };
    assert_eq!(coord, whole);
}

#[test]
fn a_run_that_is_called_off() {
    let none = MatchCoord { misses: 0, index: 0 };
    let mut s = encrypting();
    let search = match s.begin_search(&[5u8; 32]) {
        Step::GoOn(search) => search,
        Step::Done(_) => panic!("done"),
    };
    let scan = scan_hashes(&search, &[0; 40], 3);
    match s.take_round(0, 6, &search, &scan) {
        Step::GoOn(next) => assert_eq!(next.misses, 3),
        Step::Done(_) => panic!("done"),
    }
    assert_eq!((s.scan_count, s.pointer_pos), (3, 3));
    s.running = false;
    match s.take_round(0, 6, &search, &scan) {
        Step::Done(c) => assert_eq!(c, none),
        Step::GoOn(_) => panic!("not done"),
    }
    assert_eq!(s.scan_count, 3);
    match s.begin_search(&[5u8; 32]) {
        Step::Done(c) => assert_eq!(c, none),
        Step::GoOn(_) => panic!("not done"),
    }
}
