//! State that the scanner fills and the display reads.

use vstd::prelude::*;
use vstd::utf8::encode_utf8;
use crate::archive::{OutputFormat, checksum_ok, passes, size_fits};
use crate::archive_text::{archive_read, parse_archive};
use crate::codec::{HEADER_LEN, decode, decoded};
use crate::crypto::{advance_hash, blake3_digest, blake3_hash, chain};
use crate::entries::{count_indices, index_count};
use crate::hex::{hex_encode, hex_text};
use crate::rice::MatchCoord;
use crate::scanner::{Scan, ScanState, chunk_count, chunks_of, start_scan};
use crate::text::{
    chars_of, decimal, has_suffix, law_replaced_at_first_place, push_chars, push_decimal, push_text, replace,
    replaced, slice_chars, stands_at, strip_suffix,
};

verus! {

/// Operating mode of the application.
#[derive(Debug)]
pub enum Mode {
    Encrypt { input_path: String, password: String, chunk_size: usize },
    Decrypt { archive_path: String, password: String },
}

/// State of a run.
#[derive(Debug)]
pub struct AppState {
    pub source_data: Vec<u8>,
    pub completed_chunks: usize,
    pub current_chunk: usize,
    pub total_chunks: usize,
    pub chunk_size: usize,
    /// The latest coordinates, in words.
    pub coordinates: Vec<String>,
    /// Hexadecimal text that scrolls by.
    pub hash_lines: Vec<String>,
    pub pointer_pos: usize,
    pub pointer_line_idx: usize,
    pub scan_count: u64,
    pub match_flash: u8,
    pub estimated_bin_bytes: usize,
    pub running: bool,
    pub tick: u64,
    pub mode: Mode,
    pub format: OutputFormat,
    pub output_path: String,
    pub finished: bool,
    pub status_message: String,
}

/// How many coordinates are kept for the display.
pub const LOG_LEN: usize = 100;

/// Number of display lines.
pub const LINE_COUNT: usize = 12;

/// The texts of strings.
pub open spec fn texts(strings: Seq<String>) -> Seq<Seq<char>> {
    Seq::new(strings.len(), |i: int| strings[i]@)
}

/// The hash that the display lines start from.
pub open spec fn display_seed() -> Seq<u8> {
    blake3_digest(encode_utf8("init_display_seed_babel"@))
}

/// The front halves of `n` hashes, the first of them `from + 1` steps behind the seed.
pub open spec fn display_text(from: nat, n: nat) -> Seq<char>
    decreases n,
{
    if n == 0 {
        Seq::empty()
    } else {
        display_text(from, (n - 1) as nat) + hex_text(chain(display_seed(), from + n)).take(32)
    }
}

/// All display lines: eight hashes each.
pub open spec fn display_lines() -> Seq<Seq<char>> {
    Seq::new(LINE_COUNT as nat, |i: int| display_text((8 * i) as nat, 8))
}

/// Where the archive of a file goes.
pub open spec fn archive_path(input_path: Seq<char>, format: OutputFormat) -> Seq<char> {
    match format {
        OutputFormat::Text => input_path + ".babel.txt"@,
        OutputFormat::Binary => input_path + ".babel.bin"@,
    }
}

/// Where the data of an archive goes.
pub open spec fn restored_path(archive_path: Seq<char>) -> Seq<char> {
    if has_suffix(archive_path, ".babel.txt"@) {
        replaced(archive_path, ".babel.txt"@, ".dec"@)
    } else {
        archive_path + ".dec"@
    }
}

/// The format that the name of an archive tells of.
pub open spec fn format_of(archive_path: Seq<char>) -> OutputFormat {
    if has_suffix(archive_path, ".babel.bin"@) {
        OutputFormat::Binary
    } else {
        OutputFormat::Text
    }
}

/// Tells the format of an archive by its name.
pub fn archive_format(archive_path: &str) -> (format: OutputFormat)
    ensures
        format == format_of(archive_path@),
{
    let chars = chars_of(archive_path);
    if strip_suffix(&chars, ".babel.bin").is_some() {
        OutputFormat::Binary
    } else {
        OutputFormat::Text
    }
}

/// Nothing has been scanned.
pub open spec fn fresh(s: AppState) -> bool {
    &&& s.completed_chunks == 0
    &&& s.current_chunk == 0
    &&& s.coordinates@.len() == 0
    &&& texts(s.hash_lines@) == display_lines()
    &&& s.pointer_pos == 20
    &&& s.pointer_line_idx == 3
    &&& s.scan_count == 0
    &&& s.match_flash == 0
    &&& s.estimated_bin_bytes == 0
    &&& s.running
    &&& s.tick == 0
    &&& !s.finished
    &&& s.status_message@.len() == 0
}

/// The run is in the mode that decrypts an archive.
pub open spec fn decrypts(s: AppState, archive_path: Seq<char>, password: Seq<char>) -> bool {
    s.mode matches Mode::Decrypt { archive_path: a, password: p } && a@ == archive_path && p@ == password
}

/// The chunk is one whose result is shown: every tenth, and the last.
pub open spec fn is_shown(chunk_idx: usize, total: usize) -> bool {
    chunk_idx % 10 == 0 || chunk_idx + 1 == total
}

/// A coordinate in words.
pub open spec fn coord_words(coord: MatchCoord) -> Seq<char> {
    if coord.misses > 0 {
        "x"@ + decimal(coord.misses as nat) + "_0.0, I="@ + decimal(coord.index as nat)
    } else {
        "I="@ + decimal(coord.index as nat)
    }
}

/// The log with one more entry, without its first if there are then too many.
pub open spec fn logged(log: Seq<Seq<char>>, entry: Seq<char>) -> Seq<Seq<char>> {
    if log.len() >= LOG_LEN {
        log.push(entry).drop_first()
    } else {
        log.push(entry)
    }
}

/// The state after a match was recorded: the count of hashes grows; a chunk that is shown
/// also moves the display on.
pub open spec fn match_recorded(
    before: AppState,
    after: AppState,
    chunk_idx: usize,
    total: usize,
    coord: MatchCoord,
    scanned: nat,
) -> bool {
    if is_shown(chunk_idx, total) {
        &&& after == (AppState {
            scan_count: (before.scan_count + scanned) as u64,
            completed_chunks: greater(before.completed_chunks as int, chunk_idx + 1) as usize,
            current_chunk: (chunk_idx + 1) as usize,
            match_flash: 12,
            pointer_pos: pointer_at(coord.index) as usize,
            estimated_bin_bytes: (HEADER_LEN + (chunk_idx + 1) * 2) as usize,
            coordinates: after.coordinates,
            ..before
        })
        &&& texts(after.coordinates@) == logged(texts(before.coordinates@), coord_words(coord))
    } else {
        after == (AppState { scan_count: (before.scan_count + scanned) as u64, ..before })
    }
}

/// The state after misses were recorded.
pub open spec fn misses_recorded(before: AppState, misses: u64, scanned: nat) -> AppState {
    AppState {
        scan_count: (before.scan_count + scanned) as u64,
        pointer_pos: (misses % 50) as usize,
        match_flash: if before.match_flash > 0 {
            (before.match_flash - 1) as u8
        } else {
            0
        },
        ..before
    }
}

/// How the search for a chunk goes on.
#[derive(Debug, Clone, Copy)]
pub enum Step {
    /// It has ended with this coordinate.
    Done(MatchCoord),
    /// The next round goes on from here.
    GoOn(ScanState),
}

/// The coordinate of a search that was called off.
pub open spec fn no_match() -> MatchCoord {
    MatchCoord { misses: 0, index: 0 }
}

/// How many hashes of the chain have been looked into after a round.
pub open spec fn scan_end(scan: Scan) -> int {
    match scan {
        Scan::Found(c) => c.misses + 1,
        Scan::Pending(next) => next.misses as int,
    }
}

/// What every recorded match keeps: no more chunks are complete than there are, and no fewer
/// than before; the log stays within its length.
pub proof fn law_match_keeps_bounds(
    before: AppState,
    after: AppState,
    chunk_idx: usize,
    total: usize,
    coord: MatchCoord,
    scanned: nat,
)
    requires
        match_recorded(before, after, chunk_idx, total, coord, scanned),
        chunk_idx < total,
        before.completed_chunks <= total,
        before.coordinates@.len() <= LOG_LEN,
    ensures
        before.completed_chunks <= after.completed_chunks <= total,
        after.coordinates@.len() <= LOG_LEN,
{
    assert(texts(after.coordinates@).len() == after.coordinates@.len());
    assert(texts(before.coordinates@).len() == before.coordinates@.len());
}

fn coord_string(coord: &MatchCoord) -> (text: String)
    ensures
        text@ == coord_words(*coord),
{
    let mut text = String::new();
    if coord.misses > 0 {
        push_text(&mut text, "x");
        push_decimal(&mut text, coord.misses);
        push_text(&mut text, "_0.0, I=");
    } else {
        push_text(&mut text, "I=");
    }
    push_decimal(&mut text, coord.index as u64);
    proof {
        assert(text@ =~= coord_words(*coord));
    }
    text
}

/// The pointer position for a place in a hash: two characters per byte, within bounds.
pub open spec fn pointer_at(index: usize) -> int {
    if index * 2 < 54 {
        index * 2
    } else {
        54
    }
}

/// The greater one.
pub open spec fn greater(a: int, b: int) -> int {
    if a < b {
        b
    } else {
        a
    }
}

/// Message for data that was restored and stored.
pub open spec fn decrypted_message(path: Seq<char>, len: nat, ok: bool, format: OutputFormat) -> Seq<char> {
    if ok {
        "Decrypted -> "@ + path + " ("@ + decimal(len) + " bytes, checksum OK) ["@ + format.name() + "]"@
    } else {
        "Decrypted -> "@ + path + " (CHECKSUM MISMATCH!) ["@ + format.name() + "]"@
    }
}

fn decrypted_text(path: &String, len: usize, ok: bool, format: OutputFormat) -> (text: String)
    ensures
        text@ == decrypted_message(path@, len as nat, ok, format),
{
    let mut text = String::new();
    push_text(&mut text, "Decrypted -> ");
    push_text(&mut text, path.as_str());
    if ok {
        push_text(&mut text, " (");
        push_decimal(&mut text, len as u64);
        push_text(&mut text, " bytes, checksum OK) [");
    } else {
        push_text(&mut text, " (CHECKSUM MISMATCH!) [");
    }
    push_text(&mut text, format.label());
    push_text(&mut text, "]");
    proof {
        assert(text@ =~= decrypted_message(path@, len as nat, ok, format));
    }
    text
}

fn joined_text(a: &str, b: &str) -> (text: String)
    ensures
        text@ == a@ + b@,
{
    let mut text = String::new();
    push_text(&mut text, a);
    push_text(&mut text, b);
    proof {
        assert(text@ =~= a@ + b@);
    }
    text
}

fn restored_name(archive_path: &str) -> (text: String)
    ensures
        text@ == restored_path(archive_path@),
{
    let chars = chars_of(archive_path);
    proof {
        reveal_strlit(".babel.txt");
    }
    if strip_suffix(&chars, ".babel.txt").is_some() {
        replace(&chars, ".babel.txt", ".dec")
    } else {
        joined_text(archive_path, ".dec")
    }
}

impl AppState {
    /// The display lines, there before anything has been scanned.
    fn init_hash_lines() -> (lines: Vec<String>)
        ensures
            texts(lines@) == display_lines(),
    {
        let mut lines: Vec<String> = Vec::new();
        let mut h = blake3_hash("init_display_seed_babel".as_bytes());
        for i in 0..LINE_COUNT
            invariant
                h@ == chain(display_seed(), (8 * i) as nat),
                lines@.len() == i,
                forall|k: int| 0 <= k < i ==> (#[trigger] lines@[k])@ == display_lines()[k],
        {
            let mut line = String::new();
            for j in 0..8usize
                invariant
                    i < LINE_COUNT,
                    h@ == chain(display_seed(), (8 * i + j) as nat),
                    line@ == display_text((8 * i) as nat, j as nat),
            {
                h = advance_hash(&h);
                let hex = hex_encode(h.as_slice());
                let half = slice_chars(&chars_of(hex.as_str()), 0, 32);
                push_chars(&mut line, &half);
                proof {
                    assert(half@ =~= hex_text(h@).take(32));
                    assert(h@ == chain(display_seed(), (8 * i + j + 1) as nat));
                }
            }
            lines.push(line);
        }
        proof {
            assert(texts(lines@) =~= display_lines());
        }
        lines
    }

    fn start(
        source_data: Vec<u8>,
        total_chunks: usize,
        chunk_size: usize,
        mode: Mode,
        format: OutputFormat,
        output_path: String,
    ) -> (s: Self)
        ensures
            fresh(s),
            s.source_data == source_data,
            s.total_chunks == total_chunks,
            s.chunk_size == chunk_size,
            s.mode == mode,
            s.format == format,
            s.output_path == output_path,
    {
        proof {
            reveal_strlit("");
        }
        AppState {
            source_data,
            completed_chunks: 0,
            current_chunk: 0,
            total_chunks,
            chunk_size,
            coordinates: Vec::new(),
            hash_lines: Self::init_hash_lines(),
            pointer_pos: 20,
            pointer_line_idx: 3,
            scan_count: 0,
            match_flash: 0,
            estimated_bin_bytes: 0,
            running: true,
            tick: 0,
            mode,
            format,
            output_path,
            finished: false,
            status_message: String::new(),
        }
    }

    /// State for encrypting the contents of a file.
    pub fn new_encrypt(
        input_path: &str,
        source: Vec<u8>,
        password: &str,
        chunk_size: usize,
        format: OutputFormat,
    ) -> (s: Self)
        requires
            chunk_size > 0,
        ensures
            fresh(s),
            s.source_data == source,
            s.total_chunks == chunks_of(source@.len(), chunk_size as nat),
            s.chunk_size == chunk_size,
            s.mode matches Mode::Encrypt { input_path: i, password: p, chunk_size: n } && i@
                == input_path@ && p@ == password@ && n == chunk_size,
            s.format == format,
            s.output_path@ == archive_path(input_path@, format),
            format == OutputFormat::Text ==> s.output_path@ == input_path@ + ".babel.txt"@,
            format == OutputFormat::Binary ==> s.output_path@ == input_path@ + ".babel.bin"@,
    {
        let total: usize = chunk_count(source.len(), chunk_size);
        let output_path = match format {
            OutputFormat::Text => joined_text(input_path, ".babel.txt"),
            OutputFormat::Binary => joined_text(input_path, ".babel.bin"),
        };
        let mode = Mode::Encrypt {
            input_path: input_path.to_string(),
            password: password.to_string(),
            chunk_size,
        };
        Self::start(source, total, chunk_size, mode, format, output_path)
    }

    /// State for decrypting a text archive. Every index is a chunk to reconstruct.
    pub fn new_decrypt(archive_path: &str, content: &str, password: &str) -> (result: Result<Self, String>)
        ensures
            match archive_read(content@) {
                Ok((_, entries, _, chunk_size)) => {
                    &&& result is Ok
                    &&& fresh(result->Ok_0)
                    &&& result->Ok_0.source_data@.len() == 0
                    &&& result->Ok_0.total_chunks == index_count(entries)
                    &&& result->Ok_0.chunk_size == chunk_size
                    &&& decrypts(result->Ok_0, archive_path@, password@)
                    &&& result->Ok_0.format == OutputFormat::Text
                    &&& result->Ok_0.output_path@ == restored_path(archive_path@)
                },
                Err(message) => result is Err && result->Err_0@ == message,
            },
    {
        let (_, entries, _, chunk_size) = match parse_archive(content) {
            Ok(parts) => parts,
            Err(e) => return Err(e),
        };
        let total: usize = count_indices(entries.as_slice());
        let mode = Mode::Decrypt {
            archive_path: archive_path.to_string(),
            password: password.to_string(),
        };
        Ok(
            Self::start(
                Vec::new(),
                total,
                chunk_size,
                mode,
                OutputFormat::Text,
                restored_name(archive_path),
            ),
        )
    }

    /// State for decrypting a binary archive.
    pub fn new_decrypt_binary(archive_path: &str, data: &[u8], password: &str) -> (result: Result<
        Self,
        String,
    >)
        requires
            size_fits(data@),
        ensures
            exists|inner: Result<([u8; 16], String, Vec<MatchCoord>, u8), String>| #[trigger]
                decoded(data@, inner) && match inner {
                    Ok((_, _, coords, chunk_size)) => {
                        &&& result is Ok
                        &&& fresh(result->Ok_0)
                        &&& result->Ok_0.source_data@.len() == 0
                        &&& result->Ok_0.total_chunks == coords@.len()
                        &&& result->Ok_0.chunk_size == chunk_size
                        &&& decrypts(result->Ok_0, archive_path@, password@)
                        &&& result->Ok_0.format == OutputFormat::Binary
                        &&& result->Ok_0.output_path@ == restored_path(archive_path@)
                    },
                    Err(e) => result is Err && result->Err_0@ == e@,
                },
    {
        let inner = decode(data);
        let ghost inner_copy = inner;
        proof {
            assert(decoded(data@, inner_copy));
        }
        match inner {
            Ok((_, _, coords, chunk_size)) => {
                let mode = Mode::Decrypt {
                    archive_path: archive_path.to_string(),
                    password: password.to_string(),
                };
                Ok(
                    Self::start(
                        Vec::new(),
                        coords.len(),
                        chunk_size as usize,
                        mode,
                        OutputFormat::Binary,
                        restored_name(archive_path),
                    ),
                )
            },
            Err(e) => Err(e),
        }
    }

    /// Takes in that chunk `chunk_idx` of `total` was located, after `scanned` more hashes.
    pub fn record_match(&mut self, chunk_idx: usize, total: usize, coord: &MatchCoord, scanned: u64)
        requires
            old(self).scan_count + scanned <= u64::MAX,
            HEADER_LEN + (chunk_idx + 1) * 2 <= usize::MAX,
            coord.index <= 32,
        ensures
            match_recorded(*old(self), *final(self), chunk_idx, total, *coord, scanned as nat),
    {
        self.scan_count = self.scan_count + scanned;
        if chunk_idx % 10 == 0 || chunk_idx + 1 == total {
            if self.completed_chunks < chunk_idx + 1 {
                self.completed_chunks = chunk_idx + 1;
            }
            self.current_chunk = chunk_idx + 1;
            self.match_flash = 12;
            self.pointer_pos = if coord.index * 2 < 54 { coord.index * 2 } else { 54 };
            self.estimated_bin_bytes = HEADER_LEN + (chunk_idx + 1) * 2;
            self.coordinates.push(coord_string(coord));
            proof {
                assert(texts(self.coordinates@) =~= texts(old(self).coordinates@).push(
                    coord_words(*coord),
                ));
            }
            if self.coordinates.len() > LOG_LEN {
                let ghost longer = self.coordinates@;
                self.coordinates.remove(0);
                proof {
                    assert(texts(self.coordinates@) =~= texts(longer).drop_first());
                }
            }
        }
    }

    /// Takes in that a search goes on, `misses` hashes from its start, after `scanned` more.
    pub fn record_misses(&mut self, misses: u64, scanned: u64)
        requires
            old(self).scan_count + scanned <= u64::MAX,
        ensures
            *final(self) == misses_recorded(*old(self), misses, scanned as nat),
    {
        self.scan_count = self.scan_count + scanned;
        self.pointer_pos = (misses % 50) as usize;
        if self.match_flash > 0 {
            self.match_flash = self.match_flash - 1;
        }
    }

    /// Says how the search for a chunk begins: with the first hash, unless the run was called
    /// off.
    pub fn begin_search(&self, seed: &[u8; 32]) -> (step: Step)
        ensures
            step == if self.running {
                Step::GoOn(ScanState { hash: *seed, misses: 0 })
            } else {
                Step::Done(no_match())
            },
    {
        if self.running {
            Step::GoOn(start_scan(seed))
        } else {
            Step::Done(MatchCoord { misses: 0, index: 0 })
        }
    }

    /// Takes in what a round of the search for a chunk, from `search` on, came to, and says how
    /// the search goes on. A run that was called off ends it without a match.
    pub fn take_round(&mut self, chunk_idx: usize, total: usize, search: &ScanState, scan: &Scan) -> (step:
        Step)
        requires
            search.misses <= scan_end(*scan),
            old(self).scan_count + scan_end(*scan) - search.misses <= u64::MAX,
            *scan matches Scan::Found(c) ==> HEADER_LEN + (chunk_idx + 1) * 2 <= usize::MAX && c.index
                <= 32,
        ensures
            match *scan {
                Scan::Found(c) => {
                    &&& step == Step::Done(c)
                    &&& match_recorded(
                        *old(self),
                        *final(self),
                        chunk_idx,
                        total,
                        c,
                        (scan_end(*scan) - search.misses) as nat,
                    )
                },
                Scan::Pending(next) => if old(self).running {
                    &&& step == Step::GoOn(next)
                    &&& *final(self) == misses_recorded(
                        *old(self),
                        next.misses,
                        (scan_end(*scan) - search.misses) as nat,
                    )
                } else {
                    &&& step == Step::Done(no_match())
                    &&& *final(self) == *old(self)
                },
            },
    {
        match *scan {
            Scan::Found(c) => {
                let scanned: u64 = (c.misses as u128 + 1 - search.misses as u128) as u64;
                self.record_match(chunk_idx, total, &c, scanned);
                Step::Done(c)
            },
            Scan::Pending(next) => {
                if !self.running {
                    return Step::Done(MatchCoord { misses: 0, index: 0 });
                }
                self.record_misses(next.misses, next.misses - search.misses);
                Step::GoOn(next)
            },
        }
    }

    /// Takes in that `scanned` more hashes were passed on the way to a coordinate.
    pub fn record_steps(&mut self, scanned: u64)
        requires
            old(self).scan_count + scanned <= u64::MAX,
        ensures
            *final(self) == (AppState {
                scan_count: (old(self).scan_count + scanned) as u64,
                ..*old(self)
            }),
    {
        self.scan_count = self.scan_count + scanned;
    }

    /// Takes in that chunk `chunk_idx` of `total` was restored, after `scanned` more hashes.
    pub fn record_restored(&mut self, chunk_idx: usize, total: usize, coord: &MatchCoord, scanned: u64)
        requires
            old(self).scan_count + scanned <= u64::MAX,
            chunk_idx < usize::MAX,
            coord.index <= 32,
        ensures
            final(self).scan_count == old(self).scan_count + scanned,
            chunk_idx % 10 == 0 || chunk_idx + 1 == total ==> {
                &&& final(self).current_chunk == chunk_idx + 1
                &&& final(self).completed_chunks >= chunk_idx + 1
                &&& final(self).completed_chunks >= old(self).completed_chunks
                &&& final(self).pointer_pos == if coord.index <= 27 { 2 * coord.index } else { 54 }
                &&& final(self).match_flash == 12
            },
            is_shown(chunk_idx, total) ==> *final(self) == (AppState {
                scan_count: (old(self).scan_count + scanned) as u64,
                completed_chunks: greater(old(self).completed_chunks as int, chunk_idx + 1) as usize,
                current_chunk: (chunk_idx + 1) as usize,
                match_flash: 12,
                pointer_pos: pointer_at(coord.index) as usize,
                ..*old(self)
            }),
            !is_shown(chunk_idx, total) ==> *final(self) == (AppState {
                scan_count: (old(self).scan_count + scanned) as u64,
                ..*old(self)
            }),
    {
        self.scan_count = self.scan_count + scanned;
        if chunk_idx % 10 == 0 || chunk_idx + 1 == total {
            if self.completed_chunks < chunk_idx + 1 {
                self.completed_chunks = chunk_idx + 1;
            }
            self.current_chunk = chunk_idx + 1;
            self.match_flash = 12;
            self.pointer_pos = if coord.index * 2 < 54 { coord.index * 2 } else { 54 };
        }
    }

    /// Takes in what an opened archive holds: so many chunks of such a size.
    pub fn begin_decrypt(&mut self, chunk_size: usize, total_chunks: usize)
        ensures
            *final(self) == (AppState { chunk_size, total_chunks, ..*old(self) }),
    {
        self.chunk_size = chunk_size;
        self.total_chunks = total_chunks;
    }

    /// Ends a run that could not begin, with a message.
    pub fn fail(&mut self, message: String)
        ensures
            *final(self) == (AppState { status_message: message, finished: true, ..*old(self) }),
    {
        self.status_message = message;
        self.finished = true;
    }

    /// Ends an encryption, with a message.
    pub fn finish_encrypt(&mut self, message: String)
        ensures
            *final(self) == (AppState {
                completed_chunks: old(self).total_chunks,
                status_message: message,
                finished: true,
                ..*old(self)
            }),
    {
        self.completed_chunks = self.total_chunks;
        self.status_message = message;
        self.finished = true;
    }

    /// Ends a decryption: checks the data that was restored, and says what came of it and of
    /// storing it.
    pub fn finish_decrypt(&mut self, data: Vec<u8>, expected_checksum: &str, stored: Result<(), String>)
        ensures
            *final(self) == (AppState {
                completed_chunks: old(self).total_chunks,
                source_data: data,
                status_message: final(self).status_message,
                finished: true,
                ..*old(self)
            }),
            final(self).status_message@ == match stored {
                Ok(()) => decrypted_message(
                    old(self).output_path@,
                    data@.len(),
                    passes(data@, expected_checksum@),
                    old(self).format,
                ),
                Err(e) => "Error writing output: "@ + e@,
            },
            stored is Ok && (expected_checksum@.len() == 0 || expected_checksum@ == hex_text(
                blake3_digest(data@),
            )) ==> final(self).status_message@ == "Decrypted -> "@ + old(self).output_path@ + " ("@
                + decimal(data@.len()) + " bytes, checksum OK) ["@ + old(self).format.name() + "]"@,
            stored is Ok && expected_checksum@.len() > 0 && expected_checksum@ != hex_text(
                blake3_digest(data@),
            ) ==> final(self).status_message@ == "Decrypted -> "@ + old(self).output_path@
                + " (CHECKSUM MISMATCH!) ["@ + old(self).format.name() + "]"@,
    {
        let message = match stored {
            Ok(()) => {
                let ok = checksum_ok(data.as_slice(), expected_checksum);
                decrypted_text(&self.output_path, data.len(), ok, self.format)
            },
            Err(e) => joined_text("Error writing output: ", e.as_str()),
        };
        self.completed_chunks = self.total_chunks;
        self.source_data = data;
        self.status_message = message;
        self.finished = true;
    }
}

/// What a recorded match does to the state, field by field.
pub proof fn law_match_effects(
    before: AppState,
    after: AppState,
    chunk_idx: usize,
    total: usize,
    coord: MatchCoord,
    scanned: nat,
)
    requires
        match_recorded(before, after, chunk_idx, total, coord, scanned),
        before.scan_count + scanned <= u64::MAX,
        57 + (chunk_idx + 1) * 2 <= usize::MAX,
        coord.index <= 32,
        before.coordinates@.len() <= 100,
    ensures
        after.scan_count == before.scan_count + scanned,
        after.total_chunks == before.total_chunks,
        after.source_data == before.source_data,
        after.running == before.running,
        after.finished == before.finished,
        chunk_idx % 10 == 0 || chunk_idx + 1 == total ==> {
            &&& after.current_chunk == chunk_idx + 1
            &&& after.completed_chunks >= before.completed_chunks
            &&& after.completed_chunks >= chunk_idx + 1
            &&& after.completed_chunks == before.completed_chunks || after.completed_chunks == chunk_idx
                + 1
            &&& after.match_flash == 12
            &&& after.pointer_pos == if coord.index <= 27 { 2 * coord.index } else { 54 }
            &&& after.estimated_bin_bytes == 57 + 2 * (chunk_idx + 1)
            &&& after.coordinates@.len() == if before.coordinates@.len() < 100 {
                before.coordinates@.len() + 1
            } else {
                100
            }
            &&& after.coordinates@.last()@ == if coord.misses == 0 {
                "I="@ + decimal(coord.index as nat)
            } else {
                "x"@ + decimal(coord.misses as nat) + "_0.0, I="@ + decimal(coord.index as nat)
            }
            &&& forall|k: int|
                1 <= k < after.coordinates@.len() ==> (#[trigger] after.coordinates@[after.coordinates@.len()
                    - 1 - k])@ == before.coordinates@[before.coordinates@.len() - k]@
        },
        chunk_idx % 10 != 0 && chunk_idx + 1 != total ==> {
            &&& after.current_chunk == before.current_chunk
            &&& after.completed_chunks == before.completed_chunks
            &&& after.match_flash == before.match_flash
            &&& after.pointer_pos == before.pointer_pos
            &&& after.coordinates == before.coordinates
        },
{
    if chunk_idx % 10 == 0 || chunk_idx + 1 == total {
        let old_log = texts(before.coordinates@);
        let log = texts(after.coordinates@);
        let n = log.len() as int;
        assert(log == logged(old_log, coord_words(coord)));
        assert(n == after.coordinates@.len());
        assert(log[n - 1] == after.coordinates@.last()@);
        assert forall|k: int| 1 <= k < n implies (#[trigger] after.coordinates@[n - 1 - k])@
            == before.coordinates@[before.coordinates@.len() - k]@ by {
            assert(log[n - 1 - k] == after.coordinates@[n - 1 - k]@);
            assert(old_log[old_log.len() - k] == before.coordinates@[before.coordinates@.len() - k]@);
        }
    }
}

/// What recorded misses do to the state.
pub proof fn law_misses_effects(before: AppState, misses: u64, scanned: nat)
    requires
        before.scan_count + scanned <= u64::MAX,
    ensures
        ({
            let after = misses_recorded(before, misses, scanned);
            &&& after.scan_count == before.scan_count + scanned
            &&& after.pointer_pos == misses % 50
            &&& before.match_flash > 0 ==> after.match_flash == before.match_flash - 1
            &&& before.match_flash == 0 ==> after.match_flash == 0
            &&& after == (AppState {
                scan_count: after.scan_count,
                pointer_pos: after.pointer_pos,
                match_flash: after.match_flash,
                ..before
            })
        }),
{
}

/// The name of an archive is that of its file and an ending that tells the format; the name of
/// the restored file has another ending in place of `.babel.txt`, where that stands at the end
/// alone, and behind any other name.
pub proof fn law_names(path: Seq<char>, format: OutputFormat)
    requires
        forall|p: int|
            0 <= p < path.len() ==> !#[trigger] stands_at(path + ".babel.txt"@, ".babel.txt"@, p),
    ensures
        archive_path(path, OutputFormat::Text) == path + ".babel.txt"@,
        archive_path(path, OutputFormat::Binary) == path + ".babel.bin"@,
        format_of(archive_path(path, format)) == format,
        restored_path(path + ".babel.txt"@) == path + ".dec"@,
        restored_path(path + ".babel.bin"@) == path + ".babel.bin"@ + ".dec"@,
{
    reveal_strlit(".babel.txt");
    reveal_strlit(".babel.bin");
    reveal_strlit(".dec");
    let text = path + ".babel.txt"@;
    let binary = path + ".babel.bin"@;
    let n = path.len() as int;
    assert(text.skip(n) =~= ".babel.txt"@);
    assert(binary.skip(n) =~= ".babel.bin"@);
    assert(text.skip(n)[7] != binary.skip(n)[7]);
    assert(text.subrange(n, n + 10) =~= ".babel.txt"@);
    assert(stands_at(text, ".babel.txt"@, n));
    law_replaced_at_first_place(text, ".babel.txt"@, ".dec"@, n);
    assert(text.skip(n + 10) =~= Seq::empty());
    assert(text.take(n) =~= path);
    assert(replaced(Seq::<char>::empty(), ".babel.txt"@, ".dec"@) =~= Seq::empty());
    assert(path + ".dec"@ + Seq::<char>::empty() =~= path + ".dec"@);
}

/// A name that does not end in `.babel.txt` stays as it is, with an ending put behind it.
pub proof fn law_other_names(path: Seq<char>)
    requires
        path.len() < 10 || path.skip(path.len() - 10) != ".babel.txt"@,
    ensures
        restored_path(path) == path + ".dec"@,
{
    reveal_strlit(".babel.txt");
}

/// The display lines: line `i` holds, one behind the other, the first sixteen bytes in
/// hexadecimal of eight hashes of the chain, those from the hash behind `8 * i` steps on.
pub proof fn law_display_lines(i: int, j: int)
    requires
        0 <= i < 12,
        0 <= j < 8,
        forall|n: nat| (#[trigger] chain(display_seed(), n)).len() == 32,
    ensures
        display_lines().len() == 12,
        display_lines()[i].len() == 256,
        display_lines()[i].subrange(32 * j, 32 * j + 32) == hex_text(
            chain(blake3_digest(encode_utf8("init_display_seed_babel"@)), (8 * i + j + 1) as nat),
        ).take(32),
{
    lemma_display_text((8 * i) as nat, 8, j);
}

proof fn lemma_display_text(from: nat, n: nat, j: int)
    requires
        forall|n: nat| (#[trigger] chain(display_seed(), n)).len() == 32,
    ensures
        display_text(from, n).len() == 32 * n,
        0 <= j < n ==> display_text(from, n).subrange(32 * j, 32 * j + 32) == hex_text(
            chain(display_seed(), (from + j + 1) as nat),
        ).take(32),
    decreases n,
{
    if n > 0 {
        let m = (n - 1) as nat;
        lemma_display_text(from, m, j);
        let part = hex_text(chain(display_seed(), from + n)).take(32);
        assert(chain(display_seed(), from + n).len() == 32);
        let all = display_text(from, n);
        if j == m {
            assert(all.subrange(32 * j, 32 * j + 32) =~= part);
        } else if 0 <= j < m {
            assert(all.subrange(32 * j, 32 * j + 32) =~= display_text(from, m).subrange(
                32 * j,
                32 * j + 32,
            ));
        }
    }
}

} // verus!
