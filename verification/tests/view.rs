use babel_crypt::app::AppState;
use babel_crypt::archive::OutputFormat;
use babel_crypt::view::{
    CellStyle, EntryStyle, PointerCell, Tint, border_lit, chunks_line, closing_line, info_line, listed_entries,
    mode_label, pointer_line, scanner_rows, source_cells,
};

fn state() -> AppState {
    AppState::new_encrypt("in.txt", b"\x01\x02\x03\x04\xff".to_vec(), "pw", 2, OutputFormat::Text)
}

#[test]
fn source_panel() {
    let mut s = state();
    s.completed_chunks = 1;
    s.current_chunk = 1;
    let texts = |s: &AppState| source_cells(s).iter().map(|c| c.text.clone()).collect::<Vec<String>>();
    let styles = |s: &AppState| source_cells(s).iter().map(|c| c.style).collect::<Vec<CellStyle>>();
    assert_eq!(texts(&s), vec!["0102", "0304", "ff"]);
    assert_eq!(styles(&s), vec![CellStyle::Completed, CellStyle::PulseOn, CellStyle::Waiting]);
    s.tick = 6;
    assert_eq!(styles(&s)[1], CellStyle::PulseOff);
    s.tick = 12;
    assert_eq!(styles(&s)[1], CellStyle::PulseOn);
    s.source_data.clear();
    assert_eq!(texts(&s), vec!["", "", ""]);
    s.chunk_size = usize::MAX;
    assert_eq!(texts(&s), vec!["", "", ""]);
    assert_eq!(mode_label(&s), "Encrypt");
    let d = AppState::new_decrypt("a", "[Header]\nSalt: 00\n", "pw").unwrap();
    assert_eq!(mode_label(&d), "Decrypt");
}

#[test]
fn list_panel() {
    let mut s = state();
    for text in ["I=1", "x5_0.0, I=2", "x9_0.0, I=3"] {
        s.coordinates.push(text.to_string());
    }
    let all = listed_entries(&s, 10);
    assert_eq!(all.len(), 3);
    assert_eq!((all[0].text.as_str(), all[0].style), ("  I=1", EntryStyle::Coord));
    assert_eq!((all[1].text.as_str(), all[1].style), ("  x5_0.0, I=2", EntryStyle::ZeroRun));
    assert_eq!((all[2].text.as_str(), all[2].style), ("\u{25B6} x9_0.0, I=3", EntryStyle::ZeroRun));
    s.match_flash = 1;
    let some = listed_entries(&s, 2);
    assert_eq!(some.len(), 2);
    assert_eq!((some[0].text.as_str(), some[0].style), ("  x5_0.0, I=2", EntryStyle::ZeroRun));
    assert_eq!(some[1].style, EntryStyle::Flash);
    assert!(listed_entries(&s, 0).is_empty());
}

#[test]
fn scanner_panel() {
    let mut s = state();
    s.hash_lines = vec!["abcde".to_string(), "".to_string(), "\u{e9}x".to_string()];
    s.tick = 2;
    let rows = scanner_rows(&s, 7, 6);
    assert_eq!(rows.len(), 4);
    let text = |row: usize| rows[row].as_ref().unwrap().iter().map(|g| g.ch).collect::<String>();
    let cycled = |line: &str, offset: usize| line.chars().cycle().skip(offset).take(7).collect::<String>();
    assert_eq!(text(0), cycled("abcde", 4));
    assert!(rows[1].is_none());
    assert_eq!(text(2), cycled("\u{e9}x", 12 % 3));
    assert_eq!(text(3), cycled("abcde", 16 % 5));
    assert_eq!(rows[2].as_ref().unwrap()[3].tint, Tint::Shade(40 + 31, 150 + 59, 130 + 41));
    assert_eq!(scanner_rows(&s, 7, 0).len(), 1);
    assert_eq!(scanner_rows(&s, 7, 3).len(), 1);
}

#[test]
fn match_zone() {
    let mut s = state();
    s.match_flash = 7;
    s.pointer_pos = 10;
    s.pointer_line_idx = 3;
    let rows = scanner_rows(&s, 40, 4);
    assert_eq!(rows.len(), 2);
    for (r, row) in rows.iter().enumerate() {
        for (c, glyph) in row.as_ref().unwrap().iter().enumerate() {
            assert_eq!(glyph.tint == Tint::Match, r == 1 && (4..=16).contains(&c));
        }
    }
    assert!(border_lit(&s));
    s.match_flash = 6;
    assert!(!border_lit(&s));
    s.match_flash = 0;
    assert!(scanner_rows(&s, 40, 4).iter().flatten().flatten().all(|g| g.tint != Tint::Match));
    s.match_flash = 1;
    s.pointer_pos = usize::MAX;
    assert!(scanner_rows(&s, 40, 4).iter().flatten().flatten().all(|g| g.tint != Tint::Match));
    s.pointer_pos = 0;
    let rows = scanner_rows(&s, 40, 4);
    assert_eq!(rows[1].as_ref().unwrap().iter().filter(|g| g.tint == Tint::Match).count(), 7);
}

#[test]
fn pointer() {
    assert_drawn(&pointer_line(2, 5), " -^- ");
    assert_drawn(&pointer_line(0, 3), "^- ");
    assert_drawn(&pointer_line(99, 4), "  -^");
    assert_drawn(&pointer_line(1, 0), "");
}

fn assert_drawn(cells: &[PointerCell], drawn: &str) {
    let text: String = cells
        .iter()
        .map(|c| match c {
            PointerCell::Tip => '^',
            PointerCell::Wing => '-',
            PointerCell::Gap => ' ',
        })
        .collect();
    assert_eq!(text, drawn);
}

#[test]
fn info() {
    assert_eq!(info_line(5), " Scan #5 | Hash: BLAKE3-256 | Dict offset: 160 ");
    let n = u64::MAX - 3;
    assert_eq!(
        info_line(n),
        format!(" Scan #{} | Hash: BLAKE3-256 | Dict offset: {} ", n, n.wrapping_mul(32))
    );
}

#[test]
fn status_panel() {
    let mut s = state();
    s.completed_chunks = 2;
    assert_eq!(chunks_line(&s), "2/3");
    assert!(closing_line(&s).is_none());
    s.finished = true;
    assert!(closing_line(&s).is_none());
    s.status_message = "Done".to_string();
    assert_eq!(closing_line(&s).unwrap(), " Done \u{2014} Press any key to exit");
    s.finished = false;
    assert!(closing_line(&s).is_none());
}
