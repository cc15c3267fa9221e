//! Archives of either format: what a coordinate list is written to, and what is read back.

use vstd::prelude::*;
use crate::archive_laws::{fits_line, law_text_archive_round_trip};
use crate::archive_text::{archive_read, archive_text, format_output, parse_archive};
use crate::bytes::push_bytes;
use crate::codec::{
    HEADER_LEN, MAGIC, checksum_bytes, complete, decode, decoded, encode, framed, law_archive_round_trip,
    payload,
};
use crate::crypto::{blake3_digest, blake3_hash};
use crate::entries::{
    coords_to_entries, entries_of, entries_to_coords, grouped, law_entries_round_trip,
};
use crate::hex::{
    all_pairs_cut, cuts_pairs, hex_decode, hex_decoded, hex_encode, hex_text, is_checksum,
    law_checksum_round_trip, law_hex_digits, law_hex_round_trip, law_hex_text_is_checksum, pairs_cut,
};
use crate::rice::{MAX_CHUNK_SIZE, MatchCoord};
use crate::rice_laws::packable;
use crate::scanner::{encrypts, flattened, law_data_restored, restored_chunks};
use crate::text::{chars_of, push_text, same_text};

verus! {

/// Format of an archive.
#[derive(Debug, Clone, Copy, PartialEq, Eq, Structural)]
pub enum OutputFormat {
    /// Readable text, one coordinate list.
    Text,
    /// Packed and range coded.
    Binary,
}

impl OutputFormat {
    pub open spec fn name(self) -> Seq<char> {
        match self {
            OutputFormat::Text => "text"@,
            OutputFormat::Binary => "binary"@,
        }
    }

    /// The format's name in messages.
    pub fn label(self) -> (label: &'static str)
        ensures
            label@ == self.name(),
    {
        match self {
            OutputFormat::Text => "text",
            OutputFormat::Binary => "binary",
        }
    }
}

/// The checksum of data: the digest in hexadecimal.
pub open spec fn checksum_of(data: Seq<u8>) -> Seq<char> {
    hex_text(blake3_digest(data))
}

/// Computes the checksum of data.
pub fn checksum_hex(data: &[u8]) -> (text: String)
    ensures
        text@ == checksum_of(data@),
        is_checksum(text@),
        all_pairs_cut(text@),
        blake3_digest(data@).len() == 32,
        text@.len() == 64,
        forall|i: int|
            0 <= i < 32 ==> text@[2 * i] == "0123456789abcdef"@[#[trigger] blake3_digest(data@)[i] as int
                / 16] && text@[2 * i + 1] == "0123456789abcdef"@[blake3_digest(data@)[i] as int % 16],
{
    let digest = blake3_hash(data);
    proof {
        law_hex_text_is_checksum(digest@);
        law_checksum_round_trip(hex_text(digest@));
    }
    hex_encode(digest.as_slice())
}

/// The data passes a check against a checksum; an archive without one passes any data.
pub open spec fn passes(data: Seq<u8>, expected: Seq<char>) -> bool {
    expected.len() == 0 || checksum_of(data) == expected
}

/// The checksum is the digest of all of the data, two digits for each byte of it.
pub proof fn law_checksum_is_digest(data: Seq<u8>)
    ensures
        checksum_of(data).len() == 2 * blake3_digest(data).len(),
        forall|i: int|
            0 <= i < blake3_digest(data).len() ==> checksum_of(data)[2 * i]
                == "0123456789abcdef"@[#[trigger] blake3_digest(data)[i] as int / 16] && checksum_of(
                data,
            )[2 * i + 1] == "0123456789abcdef"@[blake3_digest(data)[i] as int % 16],
{
    law_hex_digits(blake3_digest(data));
}

/// The check tells data apart whose digests differ: with the checksum of one it passes the
/// other only if the digests are the same.
pub proof fn law_check_tells_digests(data: Seq<u8>, other: Seq<u8>)
    requires
        blake3_digest(data).len() == 32,
    ensures
        passes(data, checksum_of(data)),
        passes(other, checksum_of(data)) <==> blake3_digest(other) == blake3_digest(data),
{
    law_hex_digits(blake3_digest(data));
    if checksum_of(other) == checksum_of(data) {
        law_hex_round_trip(blake3_digest(data));
        law_hex_round_trip(blake3_digest(other));
    }
}

/// Checks restored data against the checksum of the archive.
pub fn checksum_ok(data: &[u8], expected: &str) -> (ok: bool)
    ensures
        ok == passes(data@, expected@),
        expected@.len() == 0 ==> ok,
        expected@.len() > 0 ==> (ok <==> expected@.len() == 64 && forall|i: int|
            0 <= i < 32 ==> expected@[2 * i] == "0123456789abcdef"@[#[trigger] blake3_digest(data@)[i] as int
                / 16] && expected@[2 * i + 1] == "0123456789abcdef"@[blake3_digest(data@)[i] as int % 16]),
{
    let actual = checksum_hex(data);
    let chars = chars_of(expected);
    proof {
        if expected@.len() == 64 && forall|i: int|
            0 <= i < 32 ==> expected@[2 * i] == "0123456789abcdef"@[#[trigger] blake3_digest(data@)[i] as int
                / 16] && expected@[2 * i + 1] == "0123456789abcdef"@[blake3_digest(data@)[i] as int % 16] {
            assert forall|j: int| 0 <= j < 64 implies expected@[j] == actual@[j] by {
                let b = blake3_digest(data@)[j / 2];
                assert(j == 2 * (j / 2) || j == 2 * (j / 2) + 1);
            }
            assert(expected@ =~= actual@);
        }
    }
    chars.len() == 0 || same_text(&chars, actual.as_str())
}

/// An archive, ready to be stored.
#[derive(Debug)]
pub enum Archive {
    Text(String),
    Binary(Vec<u8>),
}

/// The text archive for coordinates.
pub open spec fn written_text(
    salt: Seq<u8>,
    checksum: Seq<char>,
    coords: Seq<MatchCoord>,
    chunk_size: nat,
) -> Seq<char> {
    archive_text(hex_text(salt), entries_of(coords), checksum, chunk_size)
}

/// The binary archive for coordinates.
pub open spec fn written_binary(
    salt: Seq<u8>,
    checksum: Seq<char>,
    coords: Seq<MatchCoord>,
    chunk_size: u8,
) -> Seq<u8> {
    framed(chunk_size, salt, checksum_bytes(checksum), payload(coords, chunk_size))
}

/// Writes coordinates in a format. The header of a binary archive has one byte for the
/// chunk size.
pub fn write_archive(
    format: OutputFormat,
    salt: &[u8; 16],
    checksum: &str,
    coords: &[MatchCoord],
    chunk_size: usize,
) -> (archive: Archive)
    requires
        format is Binary ==> all_pairs_cut(checksum@) && chunk_size % 256 <= MAX_CHUNK_SIZE,
    ensures
        match format {
            OutputFormat::Text => archive matches Archive::Text(text) && text@ == written_text(
                salt@,
                checksum@,
                coords@,
                chunk_size as nat,
            ),
            OutputFormat::Binary => archive matches Archive::Binary(bytes) && bytes@
                == written_binary(salt@, checksum@, coords@, (chunk_size % 256) as u8),
        },
        format is Text ==> archive is Text && archive->Text_0@ == archive_text(
            hex_text(salt@),
            entries_of(coords@),
            checksum@,
            chunk_size as nat,
        ),
        format is Binary ==> archive is Binary && archive->Binary_0@ == framed(
            (chunk_size % 256) as u8,
            salt@,
            checksum_bytes(checksum@),
            payload(coords@, (chunk_size % 256) as u8),
        ),
{
    match format {
        OutputFormat::Text => {
            let salt_hex = hex_encode(salt.as_slice());
            let entries = coords_to_entries(coords);
            Archive::Text(format_output(salt_hex.as_str(), entries.as_slice(), checksum, chunk_size))
        },
        OutputFormat::Binary => {
            let size: u8 = (chunk_size % 256) as u8;
            Archive::Binary(encode(salt, checksum, coords, size))
        },
    }
}

/// What an archive holds.
#[derive(Debug)]
pub struct Opened {
    pub salt: Vec<u8>,
    pub coords: Vec<MatchCoord>,
    pub checksum: String,
    pub chunk_size: usize,
}

/// The message for an error, behind what went wrong.
fn message_of(what: &str, error: &str) -> (message: String)
    ensures
        message@ == what@ + error@,
{
    let mut message = String::new();
    push_text(&mut message, what);
    push_text(&mut message, error);
    proof {
        assert(message@ =~= what@ + error@);
    }
    message
}

/// What a text archive holds, or the message that says why it cannot be opened.
pub open spec fn opened_text(content: Seq<char>) -> Result<
    (Seq<u8>, Seq<MatchCoord>, Seq<char>, nat),
    Seq<char>,
> {
    match archive_read(content) {
        Err(e) => Err("Parse error: "@ + e),
        Ok((salt_hex, entries, checksum, chunk_size)) => match hex_decoded(salt_hex) {
            Err(e) => Err("Salt decode error: "@ + e),
            Ok(salt) => match grouped(entries, 0) {
                None => Err("Parse error: Zero runs too long"@),
                Some(coords) => Ok((salt, coords, checksum, chunk_size)),
            },
        },
    }
}

/// The salt of the text archive, if it has one, can be cut into pairs of characters.
pub open spec fn salt_cut(content: Seq<char>) -> bool {
    archive_read(content) matches Ok((salt_hex, _, _, _)) ==> pairs_cut(salt_hex)
}

/// Tells whether the salt of a text archive can be cut into pairs of characters.
pub fn salt_cuts(content: &str) -> (b: bool)
    ensures
        b == salt_cut(content@),
{
    match parse_archive(content) {
        Ok((salt_hex, _, _, _)) => cuts_pairs(salt_hex.as_str()),
        Err(_) => true,
    }
}

/// Opens a text archive.
pub fn open_text(content: &str) -> (result: Result<Opened, String>)
    requires
        salt_cut(content@),
    ensures
        match opened_text(content@) {
            Ok((salt, coords, checksum, chunk_size)) => {
                &&& result is Ok
                &&& result->Ok_0.salt@ == salt
                &&& result->Ok_0.coords@ == coords
                &&& result->Ok_0.checksum@ == checksum
                &&& result->Ok_0.chunk_size == chunk_size
            },
            Err(message) => result is Err && result->Err_0@ == message,
        },
{
    match parse_archive(content) {
        Err(e) => Err(message_of("Parse error: ", e.as_str())),
        Ok((salt_hex, entries, checksum, chunk_size)) => match hex_decode(salt_hex.as_str()) {
            Err(e) => Err(message_of("Salt decode error: ", e.as_str())),
            Ok(salt) => match entries_to_coords(entries.as_slice()) {
                None => Err("Parse error: Zero runs too long".to_string()),
                Some(coords) => Ok(Opened { salt, coords, checksum, chunk_size }),
            },
        },
    }
}

/// What opening bytes as a binary archive gives.
pub open spec fn opened_binary(data: Seq<u8>, result: Result<Opened, String>) -> bool {
    exists|inner: Result<([u8; 16], String, Vec<MatchCoord>, u8), String>| #[trigger]
        decoded(data, inner) && match inner {
            Ok((salt, checksum, coords, chunk_size)) => {
                &&& result is Ok
                &&& result->Ok_0.salt@ == salt@
                &&& result->Ok_0.coords@ == coords@
                &&& result->Ok_0.checksum@ == checksum@
                &&& result->Ok_0.chunk_size == chunk_size
            },
            Err(e) => result is Err && result->Err_0@ == "Decode error: "@ + e@,
        }
}

/// The chunk size of the binary archive, if the archive is complete, is one that can be
/// decoded.
pub open spec fn size_fits(data: Seq<u8>) -> bool {
    complete(data) ==> data[4] <= MAX_CHUNK_SIZE
}

/// Tells whether the chunk size of a binary archive is one that can be decoded.
pub fn chunk_size_fits(data: &[u8]) -> (b: bool)
    ensures
        b == size_fits(data@),
{
    if data.len() < HEADER_LEN {
        return true;
    }
    proof {
        assert(data@.take(4) == MAGIC@ <==> data@[0] == MAGIC@[0] && data@[1] == MAGIC@[1]
            && data@[2] == MAGIC@[2] && data@[3] == MAGIC@[3]) by {
            if data@[0] == MAGIC@[0] && data@[1] == MAGIC@[1] && data@[2] == MAGIC@[2] && data@[3]
                == MAGIC@[3] {
                assert(data@.take(4) =~= MAGIC@);
            } else {
                assert(data@.take(4)[0] == data@[0] && data@.take(4)[1] == data@[1] && data@.take(
                    4,
                )[2] == data@[2] && data@.take(4)[3] == data@[3]);
            }
        }
    }
    if data[0] != MAGIC[0] || data[1] != MAGIC[1] || data[2] != MAGIC[2] || data[3] != MAGIC[3] {
        return true;
    }
    let coded_len: usize = data[53] as usize + 0x100 * data[54] as usize + 0x1_0000 * data[55] as usize
        + 0x100_0000 * data[56] as usize;
    data.len() - HEADER_LEN < coded_len || data[4] <= MAX_CHUNK_SIZE
}

/// Opens a binary archive.
pub fn open_binary(data: &[u8]) -> (result: Result<Opened, String>)
    requires
        size_fits(data@),
    ensures
        opened_binary(data@, result),
{
    let inner = decode(data);
    let ghost inner_copy = inner;
    proof {
        assert(decoded(data@, inner_copy));
    }
    match inner {
        Ok((salt, checksum, coords, chunk_size)) => {
            let mut salt_bytes: Vec<u8> = Vec::new();
            push_bytes(&mut salt_bytes, salt.as_slice());
            proof {
                assert(salt_bytes@ =~= salt@);
            }
            Ok(Opened { salt: salt_bytes, coords, checksum, chunk_size: chunk_size as usize })
        },
        Err(e) => Err(message_of("Decode error: ", e.as_str())),
    }
}

/// A text archive opens to what it was written from.
pub proof fn law_text_opened(
    salt: Seq<u8>,
    checksum: Seq<char>,
    coords: Seq<MatchCoord>,
    chunk_size: usize,
)
    requires
        salt.len() > 0,
        fits_line(checksum),
    ensures
        salt_cut(written_text(salt, checksum, coords, chunk_size as nat)),
        opened_text(written_text(salt, checksum, coords, chunk_size as nat)) == Ok::<
            (Seq<u8>, Seq<MatchCoord>, Seq<char>, nat),
            Seq<char>,
        >((salt, coords, checksum, chunk_size as nat)),
{
    let salt_hex = hex_text(salt);
    law_hex_round_trip(salt);
    law_entries_round_trip(coords);
    law_text_archive_round_trip(salt_hex, entries_of(coords), checksum, chunk_size);
}

/// A binary archive opens to what it was written from.
pub proof fn law_binary_opened(
    salt: [u8; 16],
    checksum: Seq<char>,
    coords: Seq<MatchCoord>,
    chunk_size: u8,
    result: Result<Opened, String>,
)
    requires
        is_checksum(checksum),
        packable(coords),
        chunk_size <= MAX_CHUNK_SIZE,
        payload(coords, chunk_size).len() < 0x1_0000_0000,
        opened_binary(written_binary(salt@, checksum, coords, chunk_size), result),
    ensures
        result is Ok,
        result->Ok_0.salt@ == salt@,
        result->Ok_0.coords@ == coords,
        result->Ok_0.checksum@ == checksum,
        result->Ok_0.chunk_size == chunk_size,
{
    let data = written_binary(salt@, checksum, coords, chunk_size);
    let inner = choose|inner: Result<([u8; 16], String, Vec<MatchCoord>, u8), String>| #[trigger]
        decoded(data, inner) && match inner {
            Ok((s, c, l, n)) => {
                &&& result is Ok
                &&& result->Ok_0.salt@ == s@
                &&& result->Ok_0.coords@ == l@
                &&& result->Ok_0.checksum@ == c@
                &&& result->Ok_0.chunk_size == n
            },
            Err(e) => result is Err && result->Err_0@ == "Decode error: "@ + e@,
        };
    law_archive_round_trip(salt, checksum, coords, chunk_size, inner);
}

/// Whoever opens a text archive of encrypted data and restores its coordinates under the
/// same password gets the data back, if it fills its last chunk; the check passes.
pub proof fn law_text_restores(
    password: Seq<u8>,
    salt: Seq<u8>,
    data: Seq<u8>,
    checksum: Seq<char>,
    coords: Seq<MatchCoord>,
    chunk_size: usize,
)
    requires
        salt.len() > 0,
        chunk_size > 0,
        data.len() % chunk_size as nat == 0,
        is_checksum(checksum),
        checksum == checksum_of(data),
        encrypts(password, salt, data, coords, chunk_size as int),
    ensures
        match opened_text(written_text(salt, checksum, coords, chunk_size as nat)) {
            Ok((s, c, sum, n)) => {
                let out = flattened(restored_chunks(password, s, c, n as int));
                out == data && passes(out, sum)
            },
            Err(_) => false,
        },
{
    law_text_opened(salt, checksum, coords, chunk_size);
    law_data_restored(password, salt, data, coords, chunk_size as int);
}

/// Whoever opens a binary archive of encrypted data and restores its coordinates under the
/// same password gets the data back, if it fills its last chunk; the check passes.
pub proof fn law_binary_restores(
    password: Seq<u8>,
    salt: [u8; 16],
    data: Seq<u8>,
    checksum: Seq<char>,
    coords: Seq<MatchCoord>,
    chunk_size: u8,
    result: Result<Opened, String>,
)
    requires
        0 < chunk_size <= MAX_CHUNK_SIZE,
        data.len() % chunk_size as nat == 0,
        is_checksum(checksum),
        checksum == checksum_of(data),
        encrypts(password, salt@, data, coords, chunk_size as int),
        packable(coords),
        payload(coords, chunk_size).len() < 0x1_0000_0000,
        opened_binary(written_binary(salt@, checksum, coords, chunk_size), result),
    ensures
        result is Ok,
        ({
            let o = result->Ok_0;
            let out = flattened(
                restored_chunks(password, o.salt@, o.coords@, o.chunk_size as int),
            );
            out == data && passes(out, o.checksum@)
        }),
{
    law_binary_opened(salt, checksum, coords, chunk_size, result);
    law_data_restored(password, salt@, data, coords, chunk_size as int);
}

} // verus!
