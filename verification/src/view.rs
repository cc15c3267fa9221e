//! What the panels of the display show, in plain values.

use vstd::prelude::*;
use vstd::utf8::encode_utf8;
use crate::app::{AppState, Mode};
use crate::hex::{hex_encode, hex_text};
use crate::text::{chars_of, contains, decimal, holds, push_decimal, push_text, stands_at};

verus! {

/// How a chunk of the source is drawn.
#[derive(Debug, Clone, Copy, PartialEq, Eq)]
pub enum CellStyle {
    Completed,
    /// The current chunk, in the bright half of its pulse.
    PulseOn,
    /// The current chunk, in the dark half of its pulse.
    PulseOff,
    Waiting,
}

/// A chunk of the source, in hexadecimal.
#[derive(Debug)]
pub struct Cell {
    pub text: String,
    pub style: CellStyle,
}

/// Where chunk `i` starts, or the end of data that has no such chunk.
pub open spec fn cell_start(len: int, chunk_size: int, i: int) -> int {
    if i * chunk_size < len {
        i * chunk_size
    } else {
        len
    }
}

/// The bytes of chunk `i`, as far as they are there.
pub open spec fn cell_bytes(data: Seq<u8>, chunk_size: int, i: int) -> Seq<u8> {
    data.subrange(
        cell_start(data.len() as int, chunk_size, i),
        cell_start(data.len() as int, chunk_size, i + 1),
    )
}

pub open spec fn cell_style(s: AppState, i: int) -> CellStyle {
    if i < s.completed_chunks {
        CellStyle::Completed
    } else if i == s.current_chunk {
        if s.tick % 12 < 6 {
            CellStyle::PulseOn
        } else {
            CellStyle::PulseOff
        }
    } else {
        CellStyle::Waiting
    }
}

fn start_of(len: usize, chunk_size: usize, i: usize) -> (at: usize)
    ensures
        at == cell_start(len as int, chunk_size as int, i as int),
{
    match i.checked_mul(chunk_size) {
        Some(at) => if at < len {
            at
        } else {
            len
        },
        None => len,
    }
}

/// The chunks of the source, one cell each.
pub fn source_cells(s: &AppState) -> (cells: Vec<Cell>)
    ensures
        cells@.len() == s.total_chunks,
        forall|i: int|
            0 <= i < s.total_chunks ==> (#[trigger] cells@[i]).text@ == hex_text(
                cell_bytes(s.source_data@, s.chunk_size as int, i),
            ) && cells@[i].style == cell_style(*s, i),
{
    let mut cells: Vec<Cell> = Vec::new();
    let len: usize = s.source_data.len();
    for i in 0..s.total_chunks
        invariant
            len == s.source_data@.len(),
            cells@.len() == i,
            forall|k: int|
                0 <= k < i ==> (#[trigger] cells@[k]).text@ == hex_text(
                    cell_bytes(s.source_data@, s.chunk_size as int, k),
                ) && cells@[k].style == cell_style(*s, k),
    {
        let start: usize = start_of(len, s.chunk_size, i);
        let end: usize = start_of(len, s.chunk_size, i + 1);
        proof {
            assert(i * s.chunk_size <= (i + 1) * s.chunk_size) by (nonlinear_arith)
                requires
                    i >= 0,
                    s.chunk_size >= 0,
            ;
            assert(i * s.chunk_size >= 0) by (nonlinear_arith)
                requires
                    i >= 0,
                    s.chunk_size >= 0,
            ;
        }
        let bytes = &s.source_data.as_slice()[start..end];
        let style = if i < s.completed_chunks {
            CellStyle::Completed
        } else if i == s.current_chunk {
            if s.tick % 12 < 6 {
                CellStyle::PulseOn
            } else {
                CellStyle::PulseOff
            }
        } else {
            CellStyle::Waiting
        };
        cells.push(Cell { text: hex_encode(bytes), style });
    }
    cells
}

/// The name of the mode.
pub fn mode_label(s: &AppState) -> (label: &'static str)
    ensures
        label@ == match s.mode {
            Mode::Encrypt { .. } => "Encrypt"@,
            Mode::Decrypt { .. } => "Decrypt"@,
        },
{
    match &s.mode {
        Mode::Encrypt { .. } => "Encrypt",
        Mode::Decrypt { .. } => "Decrypt",
    }
}

/// How a coordinate is drawn.
#[derive(Debug, Clone, Copy, PartialEq, Eq)]
pub enum EntryStyle {
    Flash,
    ZeroRun,
    Coord,
}

/// A coordinate in the list.
#[derive(Debug)]
pub struct Entry {
    pub text: String,
    pub style: EntryStyle,
}

/// Coordinate `i` as it is listed; the latest is marked.
pub open spec fn entry_text(s: AppState, i: int) -> Seq<char> {
    if i + 1 == s.coordinates@.len() {
        "\u{25B6} "@ + s.coordinates@[i]@
    } else {
        "  "@ + s.coordinates@[i]@
    }
}

pub open spec fn entry_style(s: AppState, i: int) -> EntryStyle {
    if i + 1 == s.coordinates@.len() && s.match_flash > 0 {
        EntryStyle::Flash
    } else if holds(s.coordinates@[i]@, "0.0"@) {
        EntryStyle::ZeroRun
    } else {
        EntryStyle::Coord
    }
}

/// Index of the first coordinate that is listed.
pub open spec fn first_listed(len: int, height: u16) -> int {
    if len > height {
        len - height
    } else {
        0
    }
}

/// The latest coordinates, as many as the panel is high.
pub fn listed_entries(s: &AppState, height: u16) -> (entries: Vec<Entry>)
    ensures
        entries@.len() == s.coordinates@.len() - first_listed(s.coordinates@.len() as int, height),
        forall|i: int|
            0 <= i < entries@.len() ==> (#[trigger] entries@[i]).text@ == entry_text(
                *s,
                first_listed(s.coordinates@.len() as int, height) + i,
            ) && entries@[i].style == entry_style(
                *s,
                first_listed(s.coordinates@.len() as int, height) + i,
            ),
{
    let mut entries: Vec<Entry> = Vec::new();
    let len: usize = s.coordinates.len();
    let start: usize = if len > height as usize { len - height as usize } else { 0 };
    for i in start..len
        invariant
            len == s.coordinates@.len(),
            start == first_listed(len as int, height),
            entries@.len() == i - start,
            forall|k: int|
                0 <= k < entries@.len() ==> (#[trigger] entries@[k]).text@ == entry_text(*s, start + k)
                    && entries@[k].style == entry_style(*s, start + k),
    {
        let coord = s.coordinates[i].as_str();
        let latest = i == len - 1;
        let mut text = String::new();
        if latest {
            push_text(&mut text, "\u{25B6} ");
        } else {
            push_text(&mut text, "  ");
        }
        push_text(&mut text, coord);
        let style = if latest && s.match_flash > 0 {
            EntryStyle::Flash
        } else if contains(&chars_of(coord), "0.0") {
            EntryStyle::ZeroRun
        } else {
            EntryStyle::Coord
        };
        proof {
            assert(text@ =~= entry_text(*s, i as int));
        }
        entries.push(Entry { text, style });
    }
    entries
}

/// Color of a character.
#[derive(Debug, Clone, Copy, PartialEq, Eq)]
pub enum Tint {
    /// Near the pointer, while a match flashes.
    Match,
    /// Red, green and blue.
    Shade(u8, u8, u8),
}

/// A character of the scanner.
#[derive(Debug, Clone, Copy, PartialEq, Eq)]
pub struct Glyph {
    pub ch: char,
    pub tint: Tint,
}

/// Number of rows with hashes in a panel: all but two, and one at least.
pub open spec fn hash_rows(height: u16) -> int {
    if height > 3 {
        height - 2
    } else {
        1
    }
}

/// How far a row has scrolled; lower rows are faster.
pub open spec fn scrolled(s: AppState, row: int, line: Seq<char>) -> int {
    (s.tick * ((row + 1) * 2)) % (encode_utf8(line).len() as int)
}

/// The character at a column.
pub open spec fn glyph_char(s: AppState, row: int, col: int, line: Seq<char>) -> char {
    line[(scrolled(s, row, line) + col) % (line.len() as int)]
}

/// The place is near the pointer, and a match flashes.
pub open spec fn in_match_zone(s: AppState, rows: int, row: int, col: int) -> bool {
    &&& s.match_flash > 0
    &&& row == s.pointer_line_idx as int % rows
    &&& s.pointer_pos - 6 <= col
    &&& s.pointer_pos + 6 <= usize::MAX && col <= s.pointer_pos + 6
}

/// The color at a column.
pub open spec fn glyph_tint(s: AppState, rows: int, row: int, col: int) -> Tint {
    if in_match_zone(s, rows, row, col) {
        Tint::Match
    } else {
        Tint::Shade(
            (40 + (col * 3 + row * 11) % 50) as u8,
            (150 + (col * 7 + row * 19) % 80) as u8,
            (130 + (col * 5 + row * 13) % 70) as u8,
        )
    }
}

/// A row of hashes is drawn as it should be: blank if it has no text.
pub open spec fn row_drawn(s: AppState, width: u16, rows: int, row: int, glyphs: Option<Seq<Glyph>>) -> bool {
    let line = s.hash_lines@[row % (s.hash_lines@.len() as int)]@;
    if line.len() == 0 {
        glyphs is None
    } else {
        &&& glyphs is Some
        &&& glyphs->0 == Seq::new(
            width as nat,
            |col: int|
                Glyph {
                    ch: glyph_char(s, row, col, line),
                    tint: glyph_tint(s, rows, row, col),
                },
        )
    }
}

/// Glyphs of a row, by view.
pub open spec fn row_view(row: Option<Vec<Glyph>>) -> Option<Seq<Glyph>> {
    match row {
        Some(glyphs) => Some(glyphs@),
        None => None,
    }
}

fn tint_at(s: &AppState, rows: u16, row: u16, col: u16) -> (tint: Tint)
    requires
        rows > 0,
    ensures
        tint == glyph_tint(*s, rows as int, row as int, col as int),
{
    let c: usize = col as usize;
    let r: usize = row as usize;
    let near = c + 6 >= s.pointer_pos && s.pointer_pos <= usize::MAX - 6 && c <= s.pointer_pos + 6;
    if s.match_flash > 0 && r == s.pointer_line_idx % (rows as usize) && near {
        Tint::Match
    } else {
        Tint::Shade(
            (40 + (c * 3 + r * 11) % 50) as u8,
            (150 + (c * 7 + r * 19) % 80) as u8,
            (130 + (c * 5 + r * 13) % 70) as u8,
        )
    }
}

/// A row of hashes, or none where the row has no text.
fn hash_row(s: &AppState, width: u16, rows: u16, row: u16) -> (glyphs: Option<Vec<Glyph>>)
    requires
        s.hash_lines@.len() > 0,
        rows > 0,
    ensures
        row_drawn(*s, width, rows as int, row as int, row_view(glyphs)),
{
    let lines: usize = s.hash_lines.len();
    let line = &s.hash_lines[row as usize % lines];
    let chars = chars_of(line.as_str());
    let n: usize = chars.len();
    if n == 0 {
        return None;
    }
    let bytes: usize = line.as_str().as_bytes().len();
    proof {
        vstd::utf8::encode_utf8_decode_utf8(chars@);
        assert(s.tick * ((row + 1) * 2) <= u64::MAX * 131_072) by (nonlinear_arith)
            requires
                s.tick <= u64::MAX,
                row <= u16::MAX,
        ;
    }
    let offset: usize = (s.tick as u128 * ((row as u128 + 1) * 2) % bytes as u128) as usize;
    let mut glyphs: Vec<Glyph> = Vec::new();
    for col in 0..width
        invariant
            n == chars@.len(),
            n > 0,
            rows > 0,
            offset == scrolled(*s, row as int, chars@),
            glyphs@ == Seq::new(
                col as nat,
                |c: int|
                    Glyph {
                        ch: glyph_char(*s, row as int, c, chars@),
                        tint: glyph_tint(*s, rows as int, row as int, c),
                    },
            ),
    {
        let at: usize = ((offset as u128 + col as u128) % n as u128) as usize;
        glyphs.push(Glyph { ch: chars[at], tint: tint_at(s, rows, row, col) });
        proof {
            assert(at == (offset + col) % n as int);
            assert(glyphs@.last().ch == glyph_char(*s, row as int, col as int, chars@));
            assert(glyphs@ =~= Seq::new(
                (col + 1) as nat,
                |c: int|
                    Glyph {
                        ch: glyph_char(*s, row as int, c, chars@),
                        tint: glyph_tint(*s, rows as int, row as int, c),
                    },
            ));
        }
    }
    Some(glyphs)
}

/// The rows of hashes.
pub fn scanner_rows(s: &AppState, width: u16, height: u16) -> (rows: Vec<Option<Vec<Glyph>>>)
    requires
        s.hash_lines@.len() > 0,
    ensures
        rows@.len() == hash_rows(height),
        forall|row: int|
            0 <= row < rows@.len() ==> row_drawn(
                *s,
                width,
                hash_rows(height),
                row,
                row_view(#[trigger] rows@[row]),
            ),
{
    let count: u16 = if height > 3 { height - 2 } else { 1 };
    let mut rows: Vec<Option<Vec<Glyph>>> = Vec::new();
    for row in 0..count
        invariant
            s.hash_lines@.len() > 0,
            count == hash_rows(height),
            rows@.len() == row,
            forall|k: int|
                0 <= k < row ==> row_drawn(*s, width, count as int, k, row_view(#[trigger] rows@[k])),
    {
        rows.push(hash_row(s, width, count, row));
    }
    rows
}

/// A place in the pointer line.
#[derive(Debug, Clone, Copy, PartialEq, Eq)]
pub enum PointerCell {
    Tip,
    Wing,
    Gap,
}

/// The column of the pointer.
pub open spec fn pointer_col(pointer_pos: usize, width: u16) -> int {
    if pointer_pos < width {
        pointer_pos as int
    } else if width > 0 {
        width - 1
    } else {
        0
    }
}

pub open spec fn pointer_cell(tip: int, col: int) -> PointerCell {
    if col == tip {
        PointerCell::Tip
    } else if col == tip - 1 || col == tip + 1 {
        PointerCell::Wing
    } else {
        PointerCell::Gap
    }
}

/// The pointer line.
pub fn pointer_line(pointer_pos: usize, width: u16) -> (cells: Vec<PointerCell>)
    ensures
        cells@ == Seq::new(
            width as nat,
            |col: int| pointer_cell(pointer_col(pointer_pos, width), col),
        ),
        forall|col: int|
            0 <= col < width ==> {
                let tip = if pointer_pos < width {
                    pointer_pos as int
                } else {
                    width - 1
                };
                &&& #[trigger] cells@[col] == PointerCell::Tip <==> col == tip
                &&& cells@[col] == PointerCell::Wing <==> col == tip - 1 || col == tip + 1
            },
{
    let w: usize = width as usize;
    let last: usize = if w > 0 { w - 1 } else { 0 };
    let tip: usize = if pointer_pos < last { pointer_pos } else { last };
    let mut cells: Vec<PointerCell> = Vec::new();
    for col in 0..w
        invariant
            w == width,
            tip == pointer_col(pointer_pos, width),
            cells@ == Seq::new(col as nat, |c: int| pointer_cell(tip as int, c)),
    {
        let cell = if col == tip {
            PointerCell::Tip
        } else if col + 1 == tip || col == tip + 1 {
            PointerCell::Wing
        } else {
            PointerCell::Gap
        };
        cells.push(cell);
        proof {
            assert(cells@ =~= Seq::new((col + 1) as nat, |c: int| pointer_cell(tip as int, c)));
        }
    }
    cells
}

/// The info line of the scanner.
pub fn info_line(scan_count: u64) -> (text: String)
    ensures
        text@ == " Scan #"@ + decimal(scan_count as nat) + " | Hash: BLAKE3-256 | Dict offset: "@
            + decimal((scan_count * 32) as nat % 0x1_0000_0000_0000_0000) + " "@,
{
    let mut text = String::new();
    push_text(&mut text, " Scan #");
    push_decimal(&mut text, scan_count);
    push_text(&mut text, " | Hash: BLAKE3-256 | Dict offset: ");
    push_decimal(&mut text, scan_count.wrapping_mul(32));
    push_text(&mut text, " ");
    proof {
        assert(text@ =~= " Scan #"@ + decimal(scan_count as nat)
            + " | Hash: BLAKE3-256 | Dict offset: "@ + decimal(
            (scan_count * 32) as nat % 0x1_0000_0000_0000_0000,
        ) + " "@);
    }
    text
}

/// The border of the scanner is lit by a match.
pub fn border_lit(s: &AppState) -> (b: bool)
    ensures
        b == (s.match_flash > 6),
{
    s.match_flash > 6
}

/// The last words of a run that has ended with a message.
pub open spec fn closing_text(s: AppState) -> Option<Seq<char>> {
    if s.finished && s.status_message@.len() > 0 {
        Some(" "@ + s.status_message@ + " \u{2014} Press any key to exit"@)
    } else {
        None
    }
}

/// The status line of a run that has ended with a message.
pub fn closing_line(s: &AppState) -> (line: Option<String>)
    ensures
        match closing_text(*s) {
            Some(text) => line is Some && line->0@ == text,
            None => line is None,
        },
        line is Some <==> s.finished && s.status_message@.len() > 0,
        line is Some ==> line->0@ == " "@ + s.status_message@ + " \u{2014} Press any key to exit"@,
{
    if !s.finished || chars_of(s.status_message.as_str()).len() == 0 {
        return None;
    }
    let mut text = String::new();
    push_text(&mut text, " ");
    push_text(&mut text, s.status_message.as_str());
    push_text(&mut text, " \u{2014} Press any key to exit");
    proof {
        assert(text@ =~= closing_text(*s)->0);
    }
    Some(text)
}

/// How many chunks are done, of how many.
pub fn chunks_line(s: &AppState) -> (text: String)
    ensures
        text@ == decimal(s.completed_chunks as nat) + "/"@ + decimal(s.total_chunks as nat),
{
    let mut text = String::new();
    push_decimal(&mut text, s.completed_chunks as u64);
    push_text(&mut text, "/");
    push_decimal(&mut text, s.total_chunks as u64);
    proof {
        assert(text@ =~= decimal(s.completed_chunks as nat) + "/"@ + decimal(s.total_chunks as nat));
    }
    text
}

/// The cells of the source hold its bytes: cell `i` those from `i` times the chunk size on, as
/// many as a chunk has or as there are.
pub proof fn law_cells_hold_source(data: Seq<u8>, chunk_size: int, i: int, j: int)
    requires
        chunk_size > 0,
        0 <= i,
        0 <= j < chunk_size,
    ensures
        i * chunk_size + j < data.len() ==> j < cell_bytes(data, chunk_size, i).len() && cell_bytes(
            data,
            chunk_size,
            i,
        )[j] == data[i * chunk_size + j],
        i * chunk_size + j >= data.len() ==> j >= cell_bytes(data, chunk_size, i).len(),
        cell_bytes(data, chunk_size, i).len() <= chunk_size,
{
    assert(i * chunk_size >= 0) by (nonlinear_arith)
        requires
            i >= 0,
            chunk_size > 0,
    ;
    assert((i + 1) * chunk_size == i * chunk_size + chunk_size) by (nonlinear_arith);
}

/// How a chunk of the source is drawn: done up to the number of completed chunks; the current
/// one, if not yet done, changes every six ticks; the others wait.
pub proof fn law_cell_styles(s: AppState, i: int)
    requires
        0 <= i,
    ensures
        cell_style(s, i) == CellStyle::Completed <==> i < s.completed_chunks,
        i >= s.completed_chunks && i == s.current_chunk ==> (cell_style(s, i) == CellStyle::PulseOn <==> (
        s.tick / 6) % 2 == 0),
        i >= s.completed_chunks && i == s.current_chunk ==> (cell_style(s, i) == CellStyle::PulseOff <==> (
        s.tick / 6) % 2 == 1),
        i >= s.completed_chunks && i != s.current_chunk ==> cell_style(s, i) == CellStyle::Waiting,
{
}

/// How a coordinate is listed: behind a mark if it is the latest, else behind two blanks; in
/// the color of a flash if it is the latest and one lasts, else by whether `0.0` stands in it.
pub proof fn law_listed_entry(s: AppState, height: u16, i: int)
    requires
        0 <= i < s.coordinates@.len(),
    ensures
        first_listed(s.coordinates@.len() as int, height) == if s.coordinates@.len() <= height {
            0
        } else {
            s.coordinates@.len() - height
        },
        i == s.coordinates@.len() - 1 ==> entry_text(s, i) == "\u{25B6} "@ + s.coordinates@[i]@,
        i < s.coordinates@.len() - 1 ==> entry_text(s, i) == "  "@ + s.coordinates@[i]@,
        i == s.coordinates@.len() - 1 && s.match_flash > 0 ==> entry_style(s, i) == EntryStyle::Flash,
        !(i == s.coordinates@.len() - 1 && s.match_flash > 0) ==> {
            &&& (exists|p: int|
                0 <= p <= s.coordinates@[i]@.len() - 3 && #[trigger] s.coordinates@[i]@.subrange(p, p + 3)
                    == "0.0"@) ==> entry_style(s, i) == EntryStyle::ZeroRun
            &&& (forall|p: int|
                0 <= p <= s.coordinates@[i]@.len() - 3 ==> #[trigger] s.coordinates@[i]@.subrange(p, p + 3)
                    != "0.0"@) ==> entry_style(s, i) == EntryStyle::Coord
        },
{
    reveal_strlit("0.0");
    let t = s.coordinates@[i]@;
    if exists|p: int| 0 <= p <= t.len() - 3 && #[trigger] t.subrange(p, p + 3) == "0.0"@ {
        let p = choose|p: int| 0 <= p <= t.len() - 3 && #[trigger] t.subrange(p, p + 3) == "0.0"@;
        assert(stands_at(t, "0.0"@, p));
    }
    if holds(t, "0.0"@) {
        let p = choose|p: int| #[trigger] stands_at(t, "0.0"@, p);
        assert(t.subrange(p, p + 3) == "0.0"@);
    }
}

/// What a row of the scanner shows: the text of its line, over and over, moved on by twice its
/// number with every tick, the first row counting as one; lit near the pointer of the pointer's
/// row while a match flashes, else in a color that goes by place.
pub proof fn law_scanner_row(s: AppState, width: u16, height: u16, row: int, glyphs: Option<Seq<Glyph>>, col: int)
    requires
        s.hash_lines@.len() > 0,
        0 <= row < hash_rows(height),
        row_drawn(s, width, hash_rows(height), row, glyphs),
        0 <= col < width,
    ensures
        hash_rows(height) == if height <= 3 {
            1
        } else {
            height - 2
        },
        s.hash_lines@[row % (s.hash_lines@.len() as int)]@.len() == 0 <==> glyphs is None,
        glyphs matches Some(g) ==> {
            let line = s.hash_lines@[row % (s.hash_lines@.len() as int)]@;
            let moved = (2 * (row + 1) * s.tick) % (encode_utf8(line).len() as int);
            let lit = s.match_flash > 0 && row == s.pointer_line_idx as int % hash_rows(height) && col
                >= s.pointer_pos - 6 && col <= s.pointer_pos + 6;
            &&& g.len() == width
            &&& g[col].ch == line[(moved + col) % (line.len() as int)]
            &&& s.pointer_pos + 6 <= usize::MAX ==> (g[col].tint == Tint::Match <==> lit)
            &&& !lit ==> g[col].tint == Tint::Shade(
                (40 + (3 * col + 11 * row) % 50) as u8,
                (150 + (7 * col + 19 * row) % 80) as u8,
                (130 + (5 * col + 13 * row) % 70) as u8,
            )
        },
{
    let t = s.tick as int;
    assert(t * ((row + 1) * 2) == 2 * (row + 1) * t) by (nonlinear_arith);
}

} // verus!
