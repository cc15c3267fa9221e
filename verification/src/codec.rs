//! The binary archive.
//!
//! ```text
//! [4 bytes]  magic "BAB\x01"
//! [1 byte]   chunk size
//! [16 bytes] salt
//! [32 bytes] BLAKE3 checksum of the original data
//! [4 bytes]  length of the payload, little endian
//! [N bytes]  payload: the packed coordinates, range coded
//! ```

use vstd::prelude::*;
use vstd::utf8::encode_utf8;
use crate::bytes::{le32, le32_value, lemma_le32, push_bytes, push_le32};
use crate::hex::{
    all_pairs_cut, bytes32_to_hex, hex_text, hex_to_bytes32, is_checksum, law_checksum_bytes,
    law_checksum_round_trip, padded32, pair_bytes,
};
use crate::range_coder::{range_coded, range_decode, range_decoded, range_encode};
use crate::range_laws::{law_range_decoded_unique, law_range_round_trip};
use crate::rice::{
    MAX_CHUNK_SIZE, MatchCoord, bytes_to_coords, coords_to_bytes, packed_coords, unpacked_coords,
};
use crate::rice_laws::{law_coords_round_trip, packable};
use crate::text::{byte_list, decimal, decimals, joined, push_byte_list, push_text};

verus! {

/// What every archive begins with.
pub const MAGIC: [u8; 4] = [0x42, 0x41, 0x42, 0x01];

/// Length of everything before the payload.
pub const HEADER_LEN: usize = 57;

/// The archive around a payload.
pub open spec fn framed(chunk_size: u8, salt: Seq<u8>, checksum: Seq<u8>, coded: Seq<u8>) -> Seq<u8> {
    MAGIC@ + seq![chunk_size] + salt + checksum + le32(coded.len()) + coded
}

/// The payload for coordinates.
pub open spec fn payload(coords: Seq<MatchCoord>, chunk_size: u8) -> Seq<u8> {
    range_coded(packed_coords(coords, chunk_size))
}

/// The checksum bytes that a hexadecimal text stands for in an archive.
pub open spec fn checksum_bytes(checksum_hex: Seq<char>) -> Seq<u8> {
    padded32(pair_bytes(encode_utf8(checksum_hex)))
}

fn frame(chunk_size: u8, salt: &[u8; 16], checksum: &[u8; 32], coded: &Vec<u8>) -> (out: Vec<u8>)
    ensures
        out@ == framed(chunk_size, salt@, checksum@, coded@),
{
    let mut out: Vec<u8> = Vec::new();
    push_bytes(&mut out, MAGIC.as_slice());
    out.push(chunk_size);
    push_bytes(&mut out, salt.as_slice());
    push_bytes(&mut out, checksum.as_slice());
    push_le32(&mut out, coded.len() as u64);
    push_bytes(&mut out, coded.as_slice());
    proof {
        assert(out@ =~= framed(chunk_size, salt@, checksum@, coded@));
    }
    out
}

/// Encodes coordinates to a binary archive.
pub fn encode(salt: &[u8; 16], checksum_hex: &str, coords: &[MatchCoord], chunk_size: u8) -> (out: Vec<
    u8,
>)
    requires
        all_pairs_cut(checksum_hex@),
        chunk_size <= MAX_CHUNK_SIZE,
    ensures
        out@ == framed(
            chunk_size,
            salt@,
            checksum_bytes(checksum_hex@),
            payload(coords@, chunk_size),
        ),
{
    let raw = coords_to_bytes(coords, chunk_size);
    let coded = range_encode(raw.as_slice());
    let cs_bytes = hex_to_bytes32(checksum_hex);
    frame(chunk_size, salt, &cs_bytes, &coded)
}

/// Message for an archive that begins with other bytes than the magic.
pub open spec fn bad_magic_message(found: Seq<u8>) -> Seq<char> {
    "Bad magic: "@ + byte_list(found) + " (expected "@ + byte_list(MAGIC@) + ")"@
}

/// The payload length that the header of an archive states.
pub open spec fn stated_len(data: Seq<u8>) -> nat {
    le32_value(data.subrange(53, 57))
}

/// The archive is complete: magic, header, and as many payload bytes as the header states.
pub open spec fn complete(data: Seq<u8>) -> bool {
    &&& data.len() >= HEADER_LEN
    &&& data.take(4) == MAGIC@
    &&& data.len() >= HEADER_LEN + stated_len(data)
}

/// The payload of a complete archive.
pub open spec fn stated_payload(data: Seq<u8>) -> Seq<u8> {
    data.subrange(57, 57 + stated_len(data) as int)
}

/// What decoding a complete archive gives, if its payload decodes to `raw`.
pub open spec fn decoded_parts(
    data: Seq<u8>,
    raw: Seq<u8>,
    result: Result<([u8; 16], String, Vec<MatchCoord>, u8), String>,
) -> bool {
    match unpacked_coords(raw, data[4]) {
        Some(coords) => {
            &&& result is Ok
            &&& result->Ok_0.0@ == data.subrange(5, 21)
            &&& result->Ok_0.1@ == hex_text(data.subrange(21, 53))
            &&& result->Ok_0.2@ == coords
            &&& result->Ok_0.3 == data[4]
        },
        None => result is Err && result->Err_0@ == "EOF"@,
    }
}

/// What decoding gives for any bytes.
pub open spec fn decoded(
    data: Seq<u8>,
    result: Result<([u8; 16], String, Vec<MatchCoord>, u8), String>,
) -> bool {
    if data.len() < HEADER_LEN {
        result is Err && result->Err_0@ == "Archive too short"@
    } else if data.take(4) != MAGIC@ {
        result is Err && result->Err_0@ == bad_magic_message(data.take(4))
    } else if data.len() < HEADER_LEN + stated_len(data) {
        result is Err && result->Err_0@ == "Archive truncated"@
    } else {
        exists|raw: Seq<u8>| #[trigger]
            range_decoded(stated_payload(data), raw) && decoded_parts(data, raw, result)
    }
}

/// Decodes a binary archive: salt, checksum text, coordinates, chunk size.
pub fn decode(data: &[u8]) -> (result: Result<([u8; 16], String, Vec<MatchCoord>, u8), String>)
    requires
        complete(data@) ==> data@[4] <= MAX_CHUNK_SIZE,
    ensures
        decoded(data@, result),
{
    if data.len() < HEADER_LEN {
        return Err("Archive too short".to_string());
    }
    let head = &data[0..4];
    proof {
        assert(head@ =~= data@.take(4));
    }
    if head[0] != MAGIC[0] || head[1] != MAGIC[1] || head[2] != MAGIC[2] || head[3] != MAGIC[3] {
        let mut message = String::new();
        push_text(&mut message, "Bad magic: ");
        push_byte_list(&mut message, head);
        push_text(&mut message, " (expected ");
        push_byte_list(&mut message, MAGIC.as_slice());
        push_text(&mut message, ")");
        proof {
            assert(message@ =~= bad_magic_message(data@.take(4)));
        }
        return Err(message);
    }
    proof {
        assert(head@ =~= MAGIC@);
    }
    let chunk_size: u8 = data[4];
    let mut salt: [u8; 16] = [0u8; 16];
    for i in 0..16usize
        invariant
            data@.len() >= HEADER_LEN,
            forall|j: int| 0 <= j < i ==> salt@[j] == data@[5 + j],
    {
        salt[i] = data[5 + i];
    }
    let mut cs_bytes: [u8; 32] = [0u8; 32];
    for i in 0..32usize
        invariant
            data@.len() >= HEADER_LEN,
            forall|j: int| 0 <= j < i ==> cs_bytes@[j] == data@[21 + j],
    {
        cs_bytes[i] = data[21 + i];
    }
    proof {
        assert(salt@ =~= data@.subrange(5, 21));
        assert(cs_bytes@ =~= data@.subrange(21, 53));
    }
    let checksum_hex = bytes32_to_hex(&cs_bytes);
    let coded_len: usize = data[53] as usize + 0x100 * data[54] as usize + 0x1_0000 * data[55] as usize
        + 0x100_0000 * data[56] as usize;
    if data.len() - HEADER_LEN < coded_len {
        return Err("Archive truncated".to_string());
    }
    let coded = &data[57..57 + coded_len];
    let raw = match range_decode(coded) {
        Ok(raw) => raw,
        Err(e) => return Err(e),
    };
    proof {
        assert(coded@ == stated_payload(data@));
        assert(range_decoded(stated_payload(data@), raw@));
    }
    let coords = match bytes_to_coords(raw.as_slice(), chunk_size) {
        Ok(coords) => coords,
        Err(e) => return Err(e),
    };
    Ok((salt, checksum_hex, coords, chunk_size))
}

/// Length of the packed coordinates, and of the archive that they make.
pub fn estimate_size(coords: &[MatchCoord], chunk_size: u8) -> (sizes: (usize, usize))
    requires
        chunk_size <= MAX_CHUNK_SIZE,
    ensures
        sizes.0 == packed_coords(coords@, chunk_size).len(),
        sizes.1 == HEADER_LEN + payload(coords@, chunk_size).len(),
{
    let raw = coords_to_bytes(coords, chunk_size);
    let raw_len: usize = raw.len();
    let coded = range_encode(raw.as_slice());
    let archive = frame(chunk_size, &[0u8; 16], &[0u8; 32], &coded);
    (raw_len, archive.len())
}

/// The estimate is exact: an archive is as long as it says.
pub proof fn law_estimate_exact(
    salt: [u8; 16],
    checksum_hex: Seq<char>,
    coords: Seq<MatchCoord>,
    chunk_size: u8,
)
    ensures
        framed(chunk_size, salt@, checksum_bytes(checksum_hex), payload(coords, chunk_size)).len()
            == HEADER_LEN + payload(coords, chunk_size).len(),
{
}

/// Salt and checksum reach nothing in an archive but their own bytes: archives of the same
/// coordinates agree in length, before the salt and behind the checksum.
pub proof fn law_salt_and_checksum_apart(
    salt_a: [u8; 16],
    salt_b: [u8; 16],
    checksum_a: Seq<char>,
    checksum_b: Seq<char>,
    coords: Seq<MatchCoord>,
    chunk_size: u8,
)
    ensures
        ({
            let coded = payload(coords, chunk_size);
            let a = framed(chunk_size, salt_a@, checksum_bytes(checksum_a), coded);
            let b = framed(chunk_size, salt_b@, checksum_bytes(checksum_b), coded);
            &&& a.len() == b.len()
            &&& a.take(5) == b.take(5)
            &&& a.skip(53) == b.skip(53)
        }),
{
    let coded = payload(coords, chunk_size);
    let a = framed(chunk_size, salt_a@, checksum_bytes(checksum_a), coded);
    let b = framed(chunk_size, salt_b@, checksum_bytes(checksum_b), coded);
    assert(a.take(5) =~= b.take(5));
    assert(a.skip(53) =~= b.skip(53));
}

/// Two results of decoding hold the same: the same parts, or the same message.
pub open spec fn same_decoded(
    a: Result<([u8; 16], String, Vec<MatchCoord>, u8), String>,
    b: Result<([u8; 16], String, Vec<MatchCoord>, u8), String>,
) -> bool {
    match (a, b) {
        (Ok((salt_a, checksum_a, coords_a, size_a)), Ok((salt_b, checksum_b, coords_b, size_b))) => {
            &&& salt_a@ == salt_b@
            &&& checksum_a@ == checksum_b@
            &&& coords_a@ == coords_b@
            &&& size_a == size_b
        },
        (Err(message_a), Err(message_b)) => message_a@ == message_b@,
        _ => false,
    }
}

/// Bytes behind an archive do not matter: whatever follows one that decodes, or that is
/// complete, decoding gives the same.
pub proof fn law_bytes_behind_archive(
    data: Seq<u8>,
    extra: Seq<u8>,
    a: Result<([u8; 16], String, Vec<MatchCoord>, u8), String>,
    b: Result<([u8; 16], String, Vec<MatchCoord>, u8), String>,
)
    requires
        decoded(data, a),
        decoded(data + extra, b),
        a is Ok || complete(data),
    ensures
        complete(data + extra),
        (data + extra)[4] == data[4],
        same_decoded(a, b),
{
    let longer = data + extra;
    assert(complete(data));
    assert(longer.take(4) =~= data.take(4));
    assert(longer.subrange(5, 21) =~= data.subrange(5, 21));
    assert(longer.subrange(21, 53) =~= data.subrange(21, 53));
    assert(longer.subrange(53, 57) =~= data.subrange(53, 57));
    assert(stated_payload(longer) =~= stated_payload(data));
    let raw_a = choose|raw: Seq<u8>| #[trigger]
        range_decoded(stated_payload(data), raw) && decoded_parts(data, raw, a);
    let raw_b = choose|raw: Seq<u8>| #[trigger]
        range_decoded(stated_payload(longer), raw) && decoded_parts(longer, raw, b);
    law_range_decoded_unique(stated_payload(data), raw_a, raw_b);
}

/// An archive decodes to what it was encoded from: the salt, the checksum text, the
/// coordinates and the chunk size. The checksum is 64 lower-case digits, the coordinates can
/// be packed, and the length of the payload fits its field.
pub proof fn law_archive_round_trip(
    salt: [u8; 16],
    checksum_hex: Seq<char>,
    coords: Seq<MatchCoord>,
    chunk_size: u8,
    result: Result<([u8; 16], String, Vec<MatchCoord>, u8), String>,
)
    requires
        is_checksum(checksum_hex),
        packable(coords),
        chunk_size <= MAX_CHUNK_SIZE,
        payload(coords, chunk_size).len() < 0x1_0000_0000,
        decoded(
            framed(chunk_size, salt@, checksum_bytes(checksum_hex), payload(coords, chunk_size)),
            result,
        ),
    ensures
        result is Ok,
        result->Ok_0.0@ == salt@,
        result->Ok_0.1@ == checksum_hex,
        result->Ok_0.2@ == coords,
        result->Ok_0.3 == chunk_size,
{
    let checksum = checksum_bytes(checksum_hex);
    let coded = payload(coords, chunk_size);
    let data = framed(chunk_size, salt@, checksum, coded);
    lemma_le32(coded.len());
    assert(data.take(4) =~= MAGIC@);
    assert(data.subrange(5, 21) =~= salt@);
    assert(data.subrange(21, 53) =~= checksum);
    assert(data.subrange(53, 57) =~= le32(coded.len()));
    assert(stated_payload(data) =~= coded);
    assert(data[4] == chunk_size);
    law_checksum_round_trip(checksum_hex);
    let packed = packed_coords(coords, chunk_size);
    law_range_round_trip(packed);
    law_coords_round_trip(coords, chunk_size);
    let raw = choose|raw: Seq<u8>| #[trigger]
        range_decoded(stated_payload(data), raw) && decoded_parts(data, raw, result);
    law_range_decoded_unique(coded, raw, packed);
}

/// The layout of an archive, byte by byte: the four bytes of the magic, the chunk size, the
/// salt, the digest that the checksum writes, the length of the payload with the least
/// significant byte first, and the payload: the range-coded form of the packed coordinates.
pub proof fn law_archive_layout(
    salt: [u8; 16],
    digest: Seq<u8>,
    coords: Seq<MatchCoord>,
    chunk_size: u8,
)
    requires
        digest.len() == 32,
        range_coded(packed_coords(coords, chunk_size)).len() < 0x1_0000_0000,
    ensures
        ({
            let coded = range_coded(packed_coords(coords, chunk_size));
            let x = framed(
                chunk_size,
                salt@,
                checksum_bytes(hex_text(digest)),
                payload(coords, chunk_size),
            );
            &&& x.len() == 57 + coded.len()
            &&& x[0] == 0x42 && x[1] == 0x41 && x[2] == 0x42 && x[3] == 0x01
            &&& x[4] == chunk_size
            &&& x.subrange(5, 21) == salt@
            &&& x.subrange(21, 53) == digest
            &&& x[53] + 256 * x[54] + 65_536 * x[55] + 16_777_216 * x[56] == coded.len()
            &&& x.skip(57) == coded
        }),
{
    let coded = payload(coords, chunk_size);
    let checksum = checksum_bytes(hex_text(digest));
    law_checksum_bytes(digest);
    let x = framed(chunk_size, salt@, checksum, coded);
    lemma_le32(coded.len());
    assert(x.subrange(5, 21) =~= salt@);
    assert(x.subrange(21, 53) =~= digest);
    assert(x.subrange(53, 57) =~= le32(coded.len()));
    assert(x.subrange(53, 57)[0] == x[53] && x.subrange(53, 57)[1] == x[54] && x.subrange(53, 57)[2]
        == x[55] && x.subrange(53, 57)[3] == x[56]);
    assert(x.skip(57) =~= coded);
}

/// What is refused, and with which words: bytes too few for a header, another beginning than
/// the magic, fewer bytes behind the header than it states.
pub proof fn law_decoding_refuses(
    data: Seq<u8>,
    result: Result<([u8; 16], String, Vec<MatchCoord>, u8), String>,
)
    requires
        decoded(data, result),
    ensures
        data.len() < 57 ==> result is Err && result->Err_0@ == "Archive too short"@,
        data.len() >= 57 && !(data[0] == 0x42 && data[1] == 0x41 && data[2] == 0x42 && data[3] == 0x01)
            ==> result is Err && result->Err_0@ == "Bad magic: "@ + ("["@ + (decimal(data[0] as nat) + ", "@
            + decimal(data[1] as nat) + ", "@ + decimal(data[2] as nat) + ", "@ + decimal(
            data[3] as nat,
        )) + "]"@) + " (expected "@ + byte_list(seq![0x42u8, 0x41u8, 0x42u8, 0x01u8]) + ")"@,
        data.len() >= 57 && data[0] == 0x42 && data[1] == 0x41 && data[2] == 0x42 && data[3] == 0x01
            && data.len() < 57 + data[53] + 256 * data[54] + 65_536 * data[55] + 16_777_216 * data[56]
            ==> result is Err && result->Err_0@ == "Archive truncated"@,
{
    if data.len() >= 57 {
        let head = data.take(4);
        assert(MAGIC@ =~= seq![0x42u8, 0x41u8, 0x42u8, 0x01u8]);
        assert(head[0] == data[0] && head[1] == data[1] && head[2] == data[2] && head[3] == data[3]);
        if data[0] == 0x42 && data[1] == 0x41 && data[2] == 0x42 && data[3] == 0x01 {
            assert(head =~= MAGIC@);
        } else {
            assert(head != MAGIC@);
            lemma_four_joined(head);
        }
        let field = data.subrange(53, 57);
        assert(field[0] == data[53] && field[1] == data[54] && field[2] == data[55] && field[3]
            == data[56]);
    }
}

proof fn lemma_four_joined(b: Seq<u8>)
    requires
        b.len() == 4,
    ensures
        joined(decimals(b), ", "@) == decimal(b[0] as nat) + ", "@ + decimal(b[1] as nat) + ", "@ + decimal(
            b[2] as nat,
        ) + ", "@ + decimal(b[3] as nat),
{
    let d = decimals(b);
    let d3 = d.drop_last();
    let d2 = d3.drop_last();
    let d1 = d2.drop_last();
    assert(joined(d1, ", "@) == d[0]);
    assert(joined(d2, ", "@) == joined(d1, ", "@) + ", "@ + d[1]);
    assert(joined(d3, ", "@) == joined(d2, ", "@) + ", "@ + d[2]);
    assert(joined(d, ", "@) == joined(d3, ", "@) + ", "@ + d[3]);
}

} // verus!
