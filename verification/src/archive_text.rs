//! The text archive.

use vstd::prelude::*;
use crate::crypto::CoordEntry;
use crate::number::{NumberError, number, parse_number};
use crate::text::{
    chars_of, contents, decimal, has_prefix, has_suffix, joined, pieces, push_chars, push_decimal,
    push_text, same_text, split, string_of, strip_prefix, strip_suffix, trim, trimmed,
};

verus! {

/// The text of one entry: an index as it is, a zero run as in `x8_0.0`.
pub open spec fn entry_text(entry: CoordEntry) -> Seq<char> {
    match entry {
        CoordEntry::Index(at) => decimal(at as nat),
        CoordEntry::ZeroRun(n) => "x"@ + decimal(n as nat) + "_0.0"@,
    }
}

pub open spec fn entry_texts(coords: Seq<CoordEntry>) -> Seq<Seq<char>> {
    Seq::new(coords.len(), |i: int| entry_text(coords[i]))
}

/// The text of a coordinate list, as in `14, x8_0.0, 7`.
pub open spec fn coords_text(coords: Seq<CoordEntry>) -> Seq<char> {
    joined(entry_texts(coords), ", "@)
}

/// Writes a coordinate list.
pub fn format_coords(coords: &[CoordEntry]) -> (text: String)
    ensures
        text@ == coords_text(coords@),
{
    let mut text = String::new();
    for i in 0..coords.len()
        invariant
            text@ == joined(entry_texts(coords@).take(i as int), ", "@),
    {
        let ghost all = entry_texts(coords@);
        let ghost before = text@;
        if i > 0 {
            push_text(&mut text, ", ");
        }
        match coords[i] {
            CoordEntry::Index(at) => {
                push_decimal(&mut text, at as u64);
            },
            CoordEntry::ZeroRun(n) => {
                push_text(&mut text, "x");
                push_decimal(&mut text, n);
                push_text(&mut text, "_0.0");
            },
        }
        proof {
            assert(all.take(i + 1).drop_last() =~= all.take(i as int));
            assert(all.take(i + 1).last() == entry_text(coords@[i as int]));
            assert(text@ =~= joined(all.take(i + 1), ", "@));
        }
    }
    proof {
        assert(entry_texts(coords@).take(coords@.len() as int) =~= entry_texts(coords@));
    }
    text
}

/// Lines, each with a line feed behind it.
pub open spec fn lines_text(lines: Seq<Seq<char>>) -> Seq<char>
    decreases lines.len(),
{
    if lines.len() == 0 {
        Seq::empty()
    } else {
        lines_text(lines.drop_last()) + lines.last().push('\n')
    }
}

/// The lines of a text archive.
pub open spec fn archive_lines(
    salt_hex: Seq<char>,
    coords: Seq<CoordEntry>,
    checksum: Seq<char>,
    chunk_size: nat,
) -> Seq<Seq<char>> {
    seq![
        "[Header]"@,
        "Version: ABGRUND INDEX 0.1"@,
        "Hash: BLAKE3-256"@,
        "Salt: "@ + salt_hex,
        "ChunkSize: "@ + decimal(chunk_size),
        ""@,
        "[Body]"@,
        coords_text(coords),
        ""@,
        "[Footer]"@,
        "Checksum: "@ + checksum,
    ]
}

/// The text archive.
pub open spec fn archive_text(
    salt_hex: Seq<char>,
    coords: Seq<CoordEntry>,
    checksum: Seq<char>,
    chunk_size: nat,
) -> Seq<char> {
    lines_text(archive_lines(salt_hex, coords, checksum, chunk_size))
}

fn push_line(out: &mut String, label: &str, value: &str)
    ensures
        final(out)@ == old(out)@ + (label@ + value@).push('\n'),
{
    push_text(out, label);
    push_text(out, value);
    out.push('\n');
    proof {
        assert(out@ =~= old(out)@ + (label@ + value@).push('\n'));
    }
}

proof fn lemma_lines_push(lines: Seq<Seq<char>>, line: Seq<char>)
    ensures
        lines_text(lines.push(line)) == lines_text(lines) + line.push('\n'),
{
    assert(lines.push(line).drop_last() =~= lines);
}

/// Builds the complete text archive.
pub fn format_output(salt_hex: &str, coords: &[CoordEntry], checksum: &str, chunk_size: usize) -> (text:
    String)
    ensures
        text@ == archive_text(salt_hex@, coords@, checksum@, chunk_size as nat),
{
    let mut size = String::new();
    push_decimal(&mut size, chunk_size as u64);
    let body = format_coords(coords);
    let mut text = String::new();
    push_line(&mut text, "[Header]", "");
    push_line(&mut text, "Version: ABGRUND INDEX 0.1", "");
    push_line(&mut text, "Hash: BLAKE3-256", "");
    push_line(&mut text, "Salt: ", salt_hex);
    push_line(&mut text, "ChunkSize: ", size.as_str());
    push_line(&mut text, "", "");
    push_line(&mut text, "[Body]", "");
    push_line(&mut text, "", body.as_str());
    push_line(&mut text, "", "");
    push_line(&mut text, "[Footer]", "");
    push_line(&mut text, "Checksum: ", checksum);
    proof {
        reveal_strlit("");
        assert forall|s: Seq<char>| #[trigger] (s + ""@) == s by {
            assert(s + ""@ =~= s);
        }
        assert forall|s: Seq<char>| #[trigger] (""@ + s) == s by {
            assert(""@ + s =~= s);
        }
        assert(size@ =~= decimal(chunk_size as nat));
        let e = Seq::<Seq<char>>::empty();
        let l1 = e.push("[Header]"@);
        let l2 = l1.push("Version: ABGRUND INDEX 0.1"@);
        let l3 = l2.push("Hash: BLAKE3-256"@);
        let l4 = l3.push("Salt: "@ + salt_hex@);
        let l5 = l4.push("ChunkSize: "@ + size@);
        let l6 = l5.push(""@);
        let l7 = l6.push("[Body]"@);
        let l8 = l7.push(body@);
        let l9 = l8.push(""@);
        let l10 = l9.push("[Footer]"@);
        let l11 = l10.push("Checksum: "@ + checksum@);
        lemma_lines_push(e, "[Header]"@);
        lemma_lines_push(l1, "Version: ABGRUND INDEX 0.1"@);
        lemma_lines_push(l2, "Hash: BLAKE3-256"@);
        lemma_lines_push(l3, "Salt: "@ + salt_hex@);
        lemma_lines_push(l4, "ChunkSize: "@ + size@);
        lemma_lines_push(l5, ""@);
        lemma_lines_push(l6, "[Body]"@);
        lemma_lines_push(l7, body@);
        lemma_lines_push(l8, ""@);
        lemma_lines_push(l9, "[Footer]"@);
        lemma_lines_push(l10, "Checksum: "@ + checksum@);
        assert(l11 =~= archive_lines(salt_hex@, coords@, checksum@, chunk_size as nat));
    }
    text
}

/// The part of an archive that a line belongs to.
#[derive(Debug, Clone, Copy, PartialEq, Eq)]
pub enum Section {
    Outside,
    Header,
    Body,
    Footer,
}

/// What has been read of an archive: the section, and what the lines held.
pub struct Reading {
    pub section: Section,
    pub salt: Seq<char>,
    pub chunk_size: nat,
    pub checksum: Seq<char>,
    pub body: Seq<char>,
}

pub open spec fn initial_reading() -> Reading {
    Reading {
        section: Section::Outside,
        salt: Seq::empty(),
        chunk_size: 1,
        checksum: Seq::empty(),
        body: Seq::empty(),
    }
}

/// The reading after one more line. A chunk size that is no number is the error.
pub open spec fn line_read(r: Reading, line: Seq<char>) -> Result<Reading, NumberError> {
    let t = trimmed(line);
    if t == "[Header]"@ {
        Ok(Reading { section: Section::Header, ..r })
    } else if t == "[Body]"@ {
        Ok(Reading { section: Section::Body, ..r })
    } else if t == "[Footer]"@ {
        Ok(Reading { section: Section::Footer, ..r })
    } else {
        match r.section {
            Section::Outside => Ok(r),
            Section::Header => if has_prefix(t, "Salt: "@) {
                Ok(Reading { salt: t.skip("Salt: "@.len() as int), ..r })
            } else if has_prefix(t, "ChunkSize: "@) {
                match number(t.skip("ChunkSize: "@.len() as int), usize::MAX as nat) {
                    Ok(n) => Ok(Reading { chunk_size: n, ..r }),
                    Err(e) => Err(e),
                }
            } else {
                Ok(r)
            },
            Section::Body => if t.len() == 0 {
                Ok(r)
            } else if r.body.len() == 0 {
                Ok(Reading { body: t, ..r })
            } else {
                Ok(Reading { body: r.body + ", "@ + t, ..r })
            },
            Section::Footer => if has_prefix(t, "Checksum: "@) {
                Ok(Reading { checksum: t.skip("Checksum: "@.len() as int), ..r })
            } else {
                Ok(r)
            },
        }
    }
}

/// The reading after all lines, or the first error.
pub open spec fn lines_read(lines: Seq<Seq<char>>) -> Result<Reading, NumberError>
    decreases lines.len(),
{
    if lines.len() == 0 {
        Ok(initial_reading())
    } else {
        match lines_read(lines.drop_last()) {
            Ok(r) => line_read(r, lines.last()),
            Err(e) => Err(e),
        }
    }
}

/// The entry that a trimmed text stands for, or the message for a text that is none.
pub open spec fn entry_read(p: Seq<char>) -> Result<CoordEntry, Seq<char>> {
    if has_prefix(p, "x"@) {
        let rest = p.skip(1);
        if !has_suffix(rest, "_0.0"@) {
            Err("Invalid zero-run: '"@ + p + "'"@)
        } else {
            match number(rest.take(rest.len() - "_0.0"@.len()), u64::MAX as nat) {
                Ok(n) => Ok(CoordEntry::ZeroRun(n as u64)),
                Err(e) => Err("Invalid zero-run count '"@ + p + "': "@ + e.words()),
            }
        }
    } else {
        match number(p, usize::MAX as nat) {
            Ok(n) => Ok(CoordEntry::Index(n as usize)),
            Err(e) => Err("Invalid index '"@ + p + "': "@ + e.words()),
        }
    }
}

/// The entries of all parts, without the blank ones, or the first error.
pub open spec fn entries_read(parts: Seq<Seq<char>>) -> Result<Seq<CoordEntry>, Seq<char>>
    decreases parts.len(),
{
    if parts.len() == 0 {
        Ok(Seq::empty())
    } else {
        match entries_read(parts.drop_last()) {
            Err(e) => Err(e),
            Ok(entries) => {
                let p = trimmed(parts.last());
                if p.len() == 0 {
                    Ok(entries)
                } else {
                    match entry_read(p) {
                        Ok(entry) => Ok(entries.push(entry)),
                        Err(e) => Err(e),
                    }
                }
            },
        }
    }
}

/// The coordinate list that a text stands for.
pub open spec fn coords_read(body: Seq<char>) -> Result<Seq<CoordEntry>, Seq<char>> {
    entries_read(pieces(body, ','))
}

/// Salt, coordinates, checksum and chunk size of a text archive, or the message.
pub open spec fn archive_read(content: Seq<char>) -> Result<
    (Seq<char>, Seq<CoordEntry>, Seq<char>, nat),
    Seq<char>,
> {
    match lines_read(pieces(content, '\n')) {
        Err(e) => Err("Invalid ChunkSize: "@ + e.words()),
        Ok(r) => match coords_read(r.body) {
            Err(e) => Err(e),
            Ok(coords) => if r.salt.len() == 0 {
                Err("Missing Salt in archive header"@)
            } else {
                Ok((r.salt, coords, r.checksum, r.chunk_size))
            },
        },
    }
}

fn quoted(before: &str, text: &Vec<char>, after: &str) -> (message: String)
    ensures
        message@ == before@ + text@ + after@,
{
    let mut message = String::new();
    push_text(&mut message, before);
    push_chars(&mut message, text);
    push_text(&mut message, after);
    proof {
        assert(message@ =~= before@ + text@ + after@);
    }
    message
}

fn parse_entry(p: &Vec<char>) -> (result: Result<CoordEntry, String>)
    ensures
        match entry_read(p@) {
            Ok(entry) => result == Ok::<CoordEntry, String>(entry),
            Err(message) => result is Err && result->Err_0@ == message,
        },
{
    proof {
        reveal_strlit("x");
    }
    match strip_prefix(p, "x") {
        Some(rest) => match strip_suffix(&rest, "_0.0") {
            None => Err(quoted("Invalid zero-run: '", p, "'")),
            Some(digits) => match parse_number(&digits, u64::MAX) {
                Ok(n) => Ok(CoordEntry::ZeroRun(n)),
                Err(e) => {
                    let mut message = quoted("Invalid zero-run count '", p, "': ");
                    e.push_words(&mut message);
                    Err(message)
                },
            },
        },
        None => match parse_number(p, usize::MAX as u64) {
            Ok(n) => Ok(CoordEntry::Index(n as usize)),
            Err(e) => {
                let mut message = quoted("Invalid index '", p, "': ");
                e.push_words(&mut message);
                Err(message)
            },
        },
    }
}

/// Reads a coordinate list.
pub fn parse_coords(body: &str) -> (result: Result<Vec<CoordEntry>, String>)
    ensures
        match coords_read(body@) {
            Ok(coords) => result is Ok && result->Ok_0@ == coords,
            Err(message) => result is Err && result->Err_0@ == message,
        },
{
    let parts = split(&chars_of(body), ',');
    let ghost all = contents(parts@);
    let mut entries: Vec<CoordEntry> = Vec::new();
    for i in 0..parts.len()
        invariant
            all == contents(parts@),
            all == pieces(body@, ','),
            entries_read(all.take(i as int)) == Ok::<Seq<CoordEntry>, Seq<char>>(entries@),
    {
        proof {
            assert(all.take(i + 1).drop_last() =~= all.take(i as int));
            assert(all.take(i + 1).last() == parts@[i as int]@);
        }
        let p = trim(&parts[i]);
        if p.len() > 0 {
            match parse_entry(&p) {
                Ok(entry) => {
                    entries.push(entry);
                },
                Err(e) => {
                    proof {
                        lemma_entries_error(all, i + 1);
                    }
                    return Err(e);
                },
            }
        }
    }
    proof {
        assert(all.take(all.len() as int) =~= all);
    }
    Ok(entries)
}

/// An error stays the error.
proof fn lemma_entries_error(parts: Seq<Seq<char>>, n: int)
    requires
        0 <= n <= parts.len(),
        entries_read(parts.take(n)) is Err,
    ensures
        entries_read(parts) == entries_read(parts.take(n)),
    decreases parts.len() - n,
{
    if n == parts.len() {
        assert(parts.take(n) =~= parts);
    } else {
        assert(parts.take(n + 1).drop_last() =~= parts.take(n));
        lemma_entries_error(parts, n + 1);
    }
}

proof fn lemma_lines_error(lines: Seq<Seq<char>>, n: int)
    requires
        0 <= n <= lines.len(),
        lines_read(lines.take(n)) is Err,
    ensures
        lines_read(lines) == lines_read(lines.take(n)),
    decreases lines.len() - n,
{
    if n == lines.len() {
        assert(lines.take(n) =~= lines);
    } else {
        assert(lines.take(n + 1).drop_last() =~= lines.take(n));
        lemma_lines_error(lines, n + 1);
    }
}

struct ReadState {
    section: Section,
    salt: Vec<char>,
    chunk_size: usize,
    checksum: Vec<char>,
    body: Vec<char>,
}

impl View for ReadState {
    type V = Reading;

    closed spec fn view(&self) -> Reading {
        Reading {
            section: self.section,
            salt: self.salt@,
            chunk_size: self.chunk_size as nat,
            checksum: self.checksum@,
            body: self.body@,
        }
    }
}

impl ReadState {
    fn read_line(&mut self, line: &Vec<char>) -> (result: Result<(), NumberError>)
        ensures
            match line_read(old(self)@, line@) {
                Ok(r) => result is Ok && final(self)@ == r,
                Err(e) => result == Err::<(), NumberError>(e),
            },
    {
        let t = trim(line);
        if same_text(&t, "[Header]") {
            self.section = Section::Header;
        } else if same_text(&t, "[Body]") {
            self.section = Section::Body;
        } else if same_text(&t, "[Footer]") {
            self.section = Section::Footer;
        } else {
            match self.section {
                Section::Outside => {},
                Section::Header => {
                    match strip_prefix(&t, "Salt: ") {
                        Some(v) => {
                            self.salt = v;
                        },
                        None => match strip_prefix(&t, "ChunkSize: ") {
                            Some(v) => match parse_number(&v, usize::MAX as u64) {
                                Ok(n) => {
                                    self.chunk_size = n as usize;
                                },
                                Err(e) => return Err(e),
                            },
                            None => {},
                        },
                    }
                },
                Section::Body => {
                    if t.len() > 0 {
                        if self.body.len() > 0 {
                            let ghost before = self.body@;
                            self.body.push(',');
                            self.body.push(' ');
                            append_chars(&mut self.body, &t);
                            proof {
                                reveal_strlit(", ");
                                assert(self.body@ =~= before + ", "@ + t@);
                            }
                        } else {
                            self.body = t;
                        }
                    }
                },
                Section::Footer => {
                    match strip_prefix(&t, "Checksum: ") {
                        Some(v) => {
                            self.checksum = v;
                        },
                        None => {},
                    }
                },
            }
        }
        Ok(())
    }
}

fn append_chars(out: &mut Vec<char>, chars: &Vec<char>)
    ensures
        final(out)@ == old(out)@ + chars@,
{
    let ghost before = out@;
    for i in 0..chars.len()
        invariant
            out@ == before + chars@.take(i as int),
    {
        out.push(chars[i]);
        proof {
            assert(out@ =~= before + chars@.take(i + 1));
        }
    }
    proof {
        assert(chars@.take(chars@.len() as int) =~= chars@);
    }
}

/// Parses a text archive: salt, coordinates, checksum, chunk size.
pub fn parse_archive(content: &str) -> (result: Result<
    (String, Vec<CoordEntry>, String, usize),
    String,
>)
    ensures
        match archive_read(content@) {
            Ok((salt, coords, checksum, chunk_size)) => {
                &&& result is Ok
                &&& result->Ok_0.0@ == salt
                &&& result->Ok_0.1@ == coords
                &&& result->Ok_0.2@ == checksum
                &&& result->Ok_0.3 == chunk_size
            },
            Err(message) => result is Err && result->Err_0@ == message,
        },
{
    let chars = chars_of(content);
    let lines = split(&chars, '\n');
    let ghost all = contents(lines@);
    let mut state = ReadState {
        section: Section::Outside,
        salt: Vec::new(),
        chunk_size: 1,
        checksum: Vec::new(),
        body: Vec::new(),
    };
    for i in 0..lines.len()
        invariant
            all == contents(lines@),
            all == pieces(content@, '\n'),
            lines_read(all.take(i as int)) == Ok::<Reading, NumberError>(state@),
    {
        proof {
            assert(all.take(i + 1).drop_last() =~= all.take(i as int));
            assert(all.take(i + 1).last() == lines@[i as int]@);
        }
        match state.read_line(&lines[i]) {
            Ok(()) => {},
            Err(e) => {
                proof {
                    lemma_lines_error(all, i + 1);
                }
                let mut message = String::new();
                push_text(&mut message, "Invalid ChunkSize: ");
                e.push_words(&mut message);
                proof {
                    assert(message@ =~= "Invalid ChunkSize: "@ + e.words());
                }
                return Err(message);
            },
        }
    }
    proof {
        assert(all.take(all.len() as int) =~= all);
    }
    let coords = match parse_coords(string_of(&state.body).as_str()) {
        Ok(coords) => coords,
        Err(e) => return Err(e),
    };
    if state.salt.len() == 0 {
        return Err("Missing Salt in archive header".to_string());
    }
    Ok((string_of(&state.salt), coords, string_of(&state.checksum), state.chunk_size))
}

} // verus!
