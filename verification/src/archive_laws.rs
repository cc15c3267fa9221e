//! Laws of the text archive.

use vstd::prelude::*;
use crate::archive_text::{
    Reading, Section, archive_lines, archive_read, archive_text, coords_read, coords_text, entries_read,
    entry_read, entry_text, entry_texts, initial_reading, line_read, lines_read, lines_text,
};
use crate::crypto::CoordEntry;
use crate::number::{
    NumberError, digits_value, is_digit, law_decimal_round_trip, law_number_reads_digits, lemma_decimal_digits,
    number,
};
use crate::text::{
    decimal, has_prefix, is_space, joined, law_joined_adds, lemma_pieces_len, pieces, trimmed, trimmed_end,
    trimmed_start,
};

verus! {

/// The text is free of a character.
pub open spec fn lacks(s: Seq<char>, c: char) -> bool {
    forall|i: int| 0 <= i < s.len() ==> s[i] != c
}

/// The text neither begins nor ends with white space.
pub open spec fn tight(s: Seq<char>) -> bool {
    s.len() > 0 ==> !is_space(s[0]) && !is_space(s.last())
}

proof fn lemma_tight_trimmed(s: Seq<char>)
    requires
        tight(s),
    ensures
        trimmed(s) == s,
{
}

/// Splitting goes on behind a separator as if it began there.
proof fn lemma_pieces_at(a: Seq<char>, b: Seq<char>, sep: char)
    ensures
        pieces(a.push(sep) + b, sep) == pieces(a, sep) + pieces(b, sep),
    decreases b.len(),
{
    let s = a.push(sep) + b;
    lemma_pieces_len(a, sep);
    lemma_pieces_len(b, sep);
    if b.len() == 0 {
        assert(s =~= a.push(sep));
        assert(a.push(sep).drop_last() =~= a);
        assert(pieces(a, sep).push(Seq::empty()) =~= pieces(a, sep) + pieces(b, sep));
    } else {
        let p = b.drop_last();
        lemma_pieces_at(a, p, sep);
        lemma_pieces_len(p, sep);
        assert(s.drop_last() =~= a.push(sep) + p);
        assert(s.last() == b.last());
        let pa = pieces(a, sep);
        let pp = pieces(p, sep);
        if b.last() == sep {
            assert((pa + pp).push(Seq::empty()) =~= pa + pp.push(Seq::empty()));
        } else {
            assert((pa + pp).drop_last() =~= pa + pp.drop_last());
            assert((pa + pp).last() == pp.last());
            assert((pa + pp.drop_last()).push(pp.last().push(b.last())) =~= pa + pp.drop_last().push(
                pp.last().push(b.last()),
            ));
        }
    }
}

/// Text without a separator is one piece.
proof fn lemma_pieces_whole(s: Seq<char>, sep: char)
    requires
        lacks(s, sep),
    ensures
        pieces(s, sep) == seq![s],
    decreases s.len(),
{
    if s.len() == 0 {
        assert(s =~= Seq::empty());
    } else {
        lemma_pieces_whole(s.drop_last(), sep);
        assert(s.drop_last().push(s.last()) =~= s);
        assert(pieces(s, sep) =~= seq![s]);
    }
}

proof fn lemma_pieces_lines(lines: Seq<Seq<char>>)
    requires
        forall|i: int| 0 <= i < lines.len() ==> lacks(#[trigger] lines[i], '\n'),
    ensures
        pieces(lines_text(lines), '\n') == lines.push(Seq::empty()),
    decreases lines.len(),
{
    if lines.len() == 0 {
        assert(pieces(lines_text(lines), '\n') =~= lines.push(Seq::empty()));
    } else {
        let p = lines.drop_last();
        let l = lines.last();
        let head = lines_text(p);
        lemma_pieces_lines(p);
        lemma_pieces_whole(l, '\n');
        lemma_pieces_len(head, '\n');
        // The line itself, behind what ends in an empty piece.
        lemma_pieces_append(head, l, '\n');
        let s = head + l;
        assert(pieces(s, '\n') =~= p.push(l));
        assert(head + l.push('\n') =~= s.push('\n') + Seq::<char>::empty());
        lemma_pieces_at(s, Seq::empty(), '\n');
        assert(pieces(lines_text(lines), '\n') =~= lines.push(Seq::empty()));
    }
}

/// Text without a separator lengthens the last piece.
proof fn lemma_pieces_append(a: Seq<char>, b: Seq<char>, sep: char)
    requires
        lacks(b, sep),
    ensures
        pieces(a + b, sep) == pieces(a, sep).drop_last().push(pieces(a, sep).last() + b),
    decreases b.len(),
{
    lemma_pieces_len(a, sep);
    if b.len() == 0 {
        assert(a + b =~= a);
        assert(pieces(a, sep).last() + b =~= pieces(a, sep).last());
        assert(pieces(a, sep) =~= pieces(a, sep).drop_last().push(pieces(a, sep).last()));
    } else {
        let p = b.drop_last();
        lemma_pieces_append(a, p, sep);
        assert((a + b).drop_last() =~= a + p);
        assert((a + b).last() == b.last());
        let before = pieces(a, sep).drop_last();
        let last = pieces(a, sep).last();
        assert(before.push(last + p).drop_last() =~= before);
        assert((last + p).push(b.last()) =~= last + b);
    }
}

/// The text of an entry is tight, holds no comma or line feed, and reads back as the entry.
proof fn lemma_entry(entry: CoordEntry)
    ensures
        entry_text(entry).len() > 0,
        tight(entry_text(entry)),
        lacks(entry_text(entry), ','),
        lacks(entry_text(entry), '\n'),
        entry_text(entry)[0] != '[',
        entry_read(entry_text(entry)) == Ok::<CoordEntry, Seq<char>>(entry),
{
    reveal_strlit("x");
    reveal_strlit("_0.0");
    let t = entry_text(entry);
    match entry {
        CoordEntry::Index(at) => {
            lemma_decimal_digits(at as nat);
            law_decimal_round_trip(at as nat, usize::MAX as nat);
            assert(is_digit(t[0]) && is_digit(t.last()));
            assert(t.take(1)[0] != "x"@[0]);
        },
        CoordEntry::ZeroRun(n) => {
            let d = decimal(n as nat);
            lemma_decimal_digits(n as nat);
            law_decimal_round_trip(n as nat, u64::MAX as nat);
            assert(t.take(1) =~= "x"@);
            let rest = t.skip(1);
            assert(rest =~= d + "_0.0"@);
            assert(rest.skip(rest.len() - 4) =~= "_0.0"@);
            assert(rest.take(rest.len() - 4) =~= d);
            assert forall|i: int| 0 <= i < t.len() implies t[i] != ',' && t[i] != '\n' by {
                if 1 <= i < 1 + d.len() {
                    assert(is_digit(d[i - 1]));
                }
            }
        },
    }
}

/// Splitting joined texts at the commas gives the texts back, all but the first with a
/// blank in front.
proof fn lemma_joined_pieces(parts: Seq<Seq<char>>)
    requires
        parts.len() > 0,
        forall|i: int| 0 <= i < parts.len() ==> lacks(#[trigger] parts[i], ','),
    ensures
        pieces(joined(parts, ", "@), ',') == Seq::new(
            parts.len(),
            |i: int| if i == 0 { parts[0] } else { seq![' '] + parts[i] },
        ),
    decreases parts.len(),
{
    let goal = Seq::new(
        parts.len(),
        |i: int| if i == 0 { parts[0] } else { seq![' '] + parts[i] },
    );
    if parts.len() == 1 {
        lemma_pieces_whole(parts[0], ',');
        assert(pieces(joined(parts, ", "@), ',') =~= goal);
    } else {
        reveal_strlit(", ");
        let p = parts.drop_last();
        let l = parts.last();
        lemma_joined_pieces(p);
        let head = joined(p, ", "@);
        let b = seq![' '] + l;
        assert(head + ", "@ + l =~= head.push(',') + b);
        lemma_pieces_at(head, b, ',');
        assert(lacks(b, ','));
        lemma_pieces_whole(b, ',');
        assert(pieces(joined(parts, ", "@), ',') =~= goal);
    }
}

proof fn lemma_entries_read(coords: Seq<CoordEntry>, parts: Seq<Seq<char>>)
    requires
        parts.len() == coords.len(),
        forall|i: int|
            0 <= i < parts.len() ==> trimmed(#[trigger] parts[i]) == entry_text(coords[i]),
    ensures
        entries_read(parts) == Ok::<Seq<CoordEntry>, Seq<char>>(coords),
    decreases parts.len(),
{
    if parts.len() == 0 {
        assert(coords =~= Seq::empty());
    } else {
        lemma_entries_read(coords.drop_last(), parts.drop_last());
        lemma_entry(coords.last());
        assert(trimmed(parts[parts.len() - 1]) == entry_text(coords.last()));
        assert(coords.drop_last().push(coords.last()) =~= coords);
    }
}

/// A coordinate list that was written is read back.
pub proof fn law_coords_text_round_trip(coords: Seq<CoordEntry>)
    ensures
        coords_read(coords_text(coords)) == Ok::<Seq<CoordEntry>, Seq<char>>(coords),
{
    let texts = entry_texts(coords);
    let body = coords_text(coords);
    if coords.len() == 0 {
        lemma_pieces_whole(body, ',');
        let parts = pieces(body, ',');
        assert(parts.drop_last() =~= Seq::empty());
        assert(entries_read(parts.drop_last()) == Ok::<Seq<CoordEntry>, Seq<char>>(Seq::empty()));
        lemma_tight_trimmed(parts.last());
        assert(coords =~= Seq::empty());
    } else {
        assert forall|i: int| 0 <= i < texts.len() implies lacks(#[trigger] texts[i], ',') by {
            lemma_entry(coords[i]);
        }
        lemma_joined_pieces(texts);
        let parts = pieces(body, ',');
        assert forall|i: int| 0 <= i < parts.len() implies trimmed(#[trigger] parts[i])
            == entry_text(coords[i]) by {
            lemma_entry(coords[i]);
            lemma_tight_trimmed(texts[i]);
            if i > 0 {
                assert(is_space(' '));
                assert(parts[i].drop_first() =~= texts[i]);
                assert(trimmed_start(parts[i]) == trimmed_start(texts[i]));
            }
        }
        lemma_entries_read(coords, parts);
    }
}

proof fn lemma_entries_read_adds(a: Seq<Seq<char>>, b: Seq<Seq<char>>)
    ensures
        entries_read(a + b) == (match entries_read(a) {
            Err(e) => Err(e),
            Ok(x) => match entries_read(b) {
                Err(e) => Err(e),
                Ok(y) => Ok(x + y),
            },
        }),
    decreases b.len(),
{
    if b.len() == 0 {
        assert(a + b =~= a);
        if entries_read(a) is Ok {
            let x = entries_read(a)->Ok_0;
            assert(x + Seq::<CoordEntry>::empty() =~= x);
        }
    } else {
        let p = b.drop_last();
        lemma_entries_read_adds(a, p);
        assert((a + b).drop_last() =~= a + p);
        assert((a + b).last() == b.last());
        if entries_read(a) is Ok && entries_read(p) is Ok && entries_read(b) is Ok {
            let x = entries_read(a)->Ok_0;
            let y = entries_read(p)->Ok_0;
            let t = trimmed(b.last());
            if t.len() > 0 {
                let entry = entry_read(t)->Ok_0;
                assert((x + y).push(entry) =~= x + y.push(entry));
            }
        }
    }
}

/// Two coordinate lists with a comma between them read as one after the other; the first
/// error counts.
pub proof fn law_comma_joins_readings(a: Seq<char>, b: Seq<char>)
    ensures
        coords_read(a.push(',') + b) == (match coords_read(a) {
            Err(e) => Err(e),
            Ok(x) => match coords_read(b) {
                Err(e) => Err(e),
                Ok(y) => Ok(x + y),
            },
        }),
{
    lemma_pieces_at(a, b, ',');
    lemma_entries_read_adds(pieces(a, ','), pieces(b, ','));
}

proof fn lemma_body(coords: Seq<CoordEntry>)
    ensures
        tight(coords_text(coords)),
        lacks(coords_text(coords), '\n'),
        coords.len() > 0 ==> coords_text(coords).len() > 0 && coords_text(coords)[0] != '[',
        coords.len() == 0 ==> coords_text(coords).len() == 0,
    decreases coords.len(),
{
    let texts = entry_texts(coords);
    if coords.len() == 1 {
        lemma_entry(coords[0]);
    } else if coords.len() > 1 {
        reveal_strlit(", ");
        lemma_body(coords.drop_last());
        lemma_entry(coords.last());
        assert(texts.drop_last() =~= entry_texts(coords.drop_last()));
        assert(texts.last() == entry_text(coords.last()));
    }
}

/// A text that the lines of an archive can carry: on one line, and without white space at
/// its end.
pub open spec fn fits_line(s: Seq<char>) -> bool {
    &&& lacks(s, '\n')
    &&& s.len() > 0 ==> !is_space(s.last())
}

proof fn lemma_lines_read_push(lines: Seq<Seq<char>>, line: Seq<char>)
    ensures
        lines_read(lines.push(line)) == (match lines_read(lines) {
            Ok(r) => line_read(r, line),
            Err(e) => Err(e),
        }),
{
    assert(lines.push(line).drop_last() =~= lines);
}

/// A text archive is parsed into what it was written from, if the salt is there and salt
/// and checksum fit their lines.
pub proof fn law_text_archive_round_trip(
    salt_hex: Seq<char>,
    coords: Seq<CoordEntry>,
    checksum: Seq<char>,
    chunk_size: usize,
)
    requires
        salt_hex.len() > 0,
        fits_line(salt_hex),
        fits_line(checksum),
    ensures
        archive_read(archive_text(salt_hex, coords, checksum, chunk_size as nat)) == Ok::<
            (Seq<char>, Seq<CoordEntry>, Seq<char>, nat),
            Seq<char>,
        >((salt_hex, coords, checksum, chunk_size as nat)),
{
    reveal_strlit("[Header]");
    reveal_strlit("[Body]");
    reveal_strlit("[Footer]");
    reveal_strlit("Version: ABGRUND INDEX 0.1");
    reveal_strlit("Hash: BLAKE3-256");
    reveal_strlit("Salt: ");
    reveal_strlit("ChunkSize: ");
    reveal_strlit("Checksum: ");
    reveal_strlit("");
    let size = decimal(chunk_size as nat);
    lemma_decimal_digits(chunk_size as nat);
    law_decimal_round_trip(chunk_size as nat, usize::MAX as nat);
    lemma_body(coords);
    law_coords_text_round_trip(coords);
    let body = coords_text(coords);
    let lines = archive_lines(salt_hex, coords, checksum, chunk_size as nat);
    let salt_line = "Salt: "@ + salt_hex;
    let size_line = "ChunkSize: "@ + size;
    let sum_line = "Checksum: "@ + checksum;
    assert(is_digit(size.last()));
    assert forall|i: int| 0 <= i < lines.len() implies lacks(#[trigger] lines[i], '\n') by {
        if i == 4 {
            assert forall|j: int| 0 <= j < size_line.len() implies size_line[j] != '\n' by {
                if j >= 11 {
                    assert(is_digit(size[j - 11]));
                }
            }
        }
    }
    lemma_pieces_lines(lines);

    let e = Seq::<Seq<char>>::empty();
    let l1 = e.push("[Header]"@);
    let l2 = l1.push("Version: ABGRUND INDEX 0.1"@);
    let l3 = l2.push("Hash: BLAKE3-256"@);
    let l4 = l3.push(salt_line);
    let l5 = l4.push(size_line);
    let l6 = l5.push(""@);
    let l7 = l6.push("[Body]"@);
    let l8 = l7.push(body);
    let l9 = l8.push(""@);
    let l10 = l9.push("[Footer]"@);
    let l11 = l10.push(sum_line);
    let l12 = l11.push(Seq::empty());
    assert(l11 =~= lines);

    let r0 = initial_reading();
    let r1 = Reading { section: Section::Header, ..r0 };
    lemma_lines_read_push(e, "[Header]"@);
    lemma_tight_trimmed("[Header]"@);
    assert(lines_read(l1) == Ok::<Reading, NumberError>(r1));

    lemma_lines_read_push(l1, "Version: ABGRUND INDEX 0.1"@);
    lemma_tight_trimmed("Version: ABGRUND INDEX 0.1"@);
    lemma_other_start("Version: ABGRUND INDEX 0.1"@, "[Header]"@);
    lemma_other_start("Version: ABGRUND INDEX 0.1"@, "[Body]"@);
    lemma_other_start("Version: ABGRUND INDEX 0.1"@, "[Footer]"@);
    lemma_other_start("Version: ABGRUND INDEX 0.1"@, "Salt: "@);
    lemma_other_start("Version: ABGRUND INDEX 0.1"@, "ChunkSize: "@);
    assert(lines_read(l2) == Ok::<Reading, NumberError>(r1));

    lemma_lines_read_push(l2, "Hash: BLAKE3-256"@);
    lemma_tight_trimmed("Hash: BLAKE3-256"@);
    lemma_other_start("Hash: BLAKE3-256"@, "[Header]"@);
    lemma_other_start("Hash: BLAKE3-256"@, "[Body]"@);
    lemma_other_start("Hash: BLAKE3-256"@, "[Footer]"@);
    lemma_other_start("Hash: BLAKE3-256"@, "Salt: "@);
    lemma_other_start("Hash: BLAKE3-256"@, "ChunkSize: "@);
    assert(lines_read(l3) == Ok::<Reading, NumberError>(r1));

    let r4 = Reading { salt: salt_hex, ..r1 };
    lemma_lines_read_push(l3, salt_line);
    lemma_tight_trimmed(salt_line);
    lemma_other_start(salt_line, "[Header]"@);
    lemma_other_start(salt_line, "[Body]"@);
    lemma_other_start(salt_line, "[Footer]"@);
    lemma_label("Salt: "@, salt_hex);
    assert(lines_read(l4) == Ok::<Reading, NumberError>(r4));

    let r5 = Reading { chunk_size: chunk_size as nat, ..r4 };
    lemma_lines_read_push(l4, size_line);
    lemma_tight_trimmed(size_line);
    lemma_other_start(size_line, "[Header]"@);
    lemma_other_start(size_line, "[Body]"@);
    lemma_other_start(size_line, "[Footer]"@);
    lemma_other_start(size_line, "Salt: "@);
    lemma_label("ChunkSize: "@, size);
    assert(lines_read(l5) == Ok::<Reading, NumberError>(r5));

    lemma_lines_read_push(l5, ""@);
    lemma_tight_trimmed(""@);
    assert(lines_read(l6) == Ok::<Reading, NumberError>(r5));

    let r7 = Reading { section: Section::Body, ..r5 };
    lemma_lines_read_push(l6, "[Body]"@);
    lemma_tight_trimmed("[Body]"@);
    assert("[Body]"@ != "[Header]"@) by {
        assert("[Body]"@.len() != "[Header]"@.len());
    }
    assert(lines_read(l7) == Ok::<Reading, NumberError>(r7));

    let r8 = Reading { body, ..r7 };
    lemma_lines_read_push(l7, body);
    lemma_tight_trimmed(body);
    if body.len() > 0 {
        lemma_other_start(body, "[Header]"@);
        lemma_other_start(body, "[Body]"@);
        lemma_other_start(body, "[Footer]"@);
    } else {
        assert(body =~= r7.body);
    }
    assert(lines_read(l8) == Ok::<Reading, NumberError>(r8));

    lemma_lines_read_push(l8, ""@);
    assert(lines_read(l9) == Ok::<Reading, NumberError>(r8));

    let r10 = Reading { section: Section::Footer, ..r8 };
    lemma_lines_read_push(l9, "[Footer]"@);
    lemma_tight_trimmed("[Footer]"@);
    assert("[Footer]"@ != "[Header]"@) by {
        assert("[Footer]"@[1] != "[Header]"@[1]);
    }
    assert("[Footer]"@ != "[Body]"@) by {
        assert("[Footer]"@[1] != "[Body]"@[1]);
    }
    assert(lines_read(l10) == Ok::<Reading, NumberError>(r10));

    let r11 = Reading { checksum, ..r10 };
    lemma_lines_read_push(l10, sum_line);
    let t = trimmed(sum_line);
    if checksum.len() > 0 {
        lemma_tight_trimmed(sum_line);
        lemma_label("Checksum: "@, checksum);
    } else {
        assert(checksum =~= Seq::empty());
        assert(sum_line =~= "Checksum: "@);
        assert(trimmed_start(sum_line) == sum_line);
        assert(is_space(sum_line.last()));
        assert(!is_space(sum_line.drop_last().last()));
        assert(trimmed_end(sum_line.drop_last()) == sum_line.drop_last());
        assert(t == sum_line.drop_last());
        assert(t.len() < "Checksum: "@.len());
    }
    lemma_other_start(t, "[Header]"@);
    lemma_other_start(t, "[Body]"@);
    lemma_other_start(t, "[Footer]"@);
    assert(lines_read(l11) == Ok::<Reading, NumberError>(r11));

    lemma_lines_read_push(l11, Seq::empty());
    lemma_tight_trimmed(Seq::empty());
    assert(lines_read(l12) == Ok::<Reading, NumberError>(r11));
}

/// Texts that begin differently are different, and neither begins with the other.
proof fn lemma_other_start(s: Seq<char>, other: Seq<char>)
    requires
        s.len() > 0,
        other.len() > 0,
        s[0] != other[0],
    ensures
        s != other,
        !has_prefix(s, other),
{
    if has_prefix(s, other) {
        assert(s.take(other.len() as int)[0] == s[0]);
    }
}

/// What stands behind a label.
proof fn lemma_label(label: Seq<char>, value: Seq<char>)
    ensures
        has_prefix(label + value, label),
        (label + value).skip(label.len() as int) == value,
{
    assert((label + value).take(label.len() as int) =~= label);
    assert((label + value).skip(label.len() as int) =~= value);
}

/// The text of a coordinate list is the texts of its parts with a comma and a blank between; of
/// one index it is the index in decimal, of one zero run the run's length between `x` and
/// `_0.0`.
pub proof fn law_coords_text_adds(a: Seq<CoordEntry>, b: Seq<CoordEntry>, index: usize, run: u64)
    ensures
        a.len() > 0 && b.len() > 0 ==> coords_text(a + b) == coords_text(a) + ", "@ + coords_text(b),
        coords_text(Seq::empty()) == Seq::<char>::empty(),
        coords_text(seq![CoordEntry::Index(index)]) == decimal(index as nat),
        coords_text(seq![CoordEntry::ZeroRun(run)]) == "x"@ + decimal(run as nat) + "_0.0"@,
{
    if a.len() > 0 && b.len() > 0 {
        law_joined_adds(entry_texts(a), entry_texts(b), ", "@);
        assert(entry_texts(a + b) =~= entry_texts(a) + entry_texts(b));
    }
}

/// The text archive, in one piece.
pub proof fn law_text_archive_in_one(
    salt_hex: Seq<char>,
    coords: Seq<CoordEntry>,
    checksum: Seq<char>,
    chunk_size: nat,
)
    ensures
        archive_text(salt_hex, coords, checksum, chunk_size)
            == "[Header]\nVersion: ABGRUND INDEX 0.1\nHash: BLAKE3-256\nSalt: "@ + salt_hex
            + "\nChunkSize: "@ + decimal(chunk_size) + "\n\n[Body]\n"@ + coords_text(coords)
            + "\n\n[Footer]\nChecksum: "@ + checksum + "\n"@,
{
    reveal_strlit("[Header]\nVersion: ABGRUND INDEX 0.1\nHash: BLAKE3-256\nSalt: ");
    reveal_strlit("\nChunkSize: ");
    reveal_strlit("\n\n[Body]\n");
    reveal_strlit("\n\n[Footer]\nChecksum: ");
    reveal_strlit("\n");
    reveal_strlit("[Header]");
    reveal_strlit("[Body]");
    reveal_strlit("[Footer]");
    reveal_strlit("Version: ABGRUND INDEX 0.1");
    reveal_strlit("Hash: BLAKE3-256");
    reveal_strlit("Salt: ");
    reveal_strlit("ChunkSize: ");
    reveal_strlit("Checksum: ");
    reveal_strlit("");
    let body = coords_text(coords);
    let size = decimal(chunk_size);
    let lines = archive_lines(salt_hex, coords, checksum, chunk_size);
    let t3 = "[Header]"@.push('\n') + "Version: ABGRUND INDEX 0.1"@.push('\n') + "Hash: BLAKE3-256"@.push(
        '\n',
    );
    let t5 = t3 + ("Salt: "@ + salt_hex).push('\n') + ("ChunkSize: "@ + size).push('\n');
    let t8 = t5 + ""@.push('\n') + "[Body]"@.push('\n') + body.push('\n');
    let t11 = t8 + ""@.push('\n') + "[Footer]"@.push('\n') + ("Checksum: "@ + checksum).push('\n');
    assert(lines_text(lines.take(0)) =~= Seq::empty());
    lemma_lines_text_step(lines, 0);
    lemma_lines_text_step(lines, 1);
    lemma_lines_text_step(lines, 2);
    lemma_lines_text_step(lines, 3);
    lemma_lines_text_step(lines, 4);
    lemma_lines_text_step(lines, 5);
    lemma_lines_text_step(lines, 6);
    lemma_lines_text_step(lines, 7);
    lemma_lines_text_step(lines, 8);
    lemma_lines_text_step(lines, 9);
    lemma_lines_text_step(lines, 10);
    assert(lines_text(lines.take(3)) =~= t3);
    assert(lines_text(lines.take(5)) =~= t5);
    assert(lines_text(lines.take(8)) =~= t8);
    assert(lines_text(lines.take(11)) =~= t11);
    assert(lines.take(11) =~= lines);
    let head = "[Header]\nVersion: ABGRUND INDEX 0.1\nHash: BLAKE3-256\nSalt: "@ + salt_hex;
    assert(t3 + "Salt: "@ + salt_hex =~= head);
    let mid = head + "\nChunkSize: "@ + size;
    assert(t5 =~= mid.push('\n'));
    let low = mid + "\n\n[Body]\n"@ + body;
    assert(t8 =~= low.push('\n'));
    assert(t11 =~= low + "\n\n[Footer]\nChecksum: "@ + checksum + "\n"@);
}

proof fn lemma_lines_text_step(lines: Seq<Seq<char>>, i: int)
    requires
        0 <= i < lines.len(),
    ensures
        lines_text(lines.take(i + 1)) == lines_text(lines.take(i)) + lines[i].push('\n'),
{
    assert(lines.take(i + 1).drop_last() =~= lines.take(i));
}

/// White space around its lines does not matter to a text archive: texts of as many lines that
/// are the same once trimmed are read alike.
pub proof fn law_lines_are_trimmed(a: Seq<char>, b: Seq<char>)
    requires
        pieces(a, '\n').len() == pieces(b, '\n').len(),
        forall|i: int|
            0 <= i < pieces(a, '\n').len() ==> trimmed(#[trigger] pieces(a, '\n')[i]) == trimmed(
                pieces(b, '\n')[i],
            ),
    ensures
        archive_read(a) == archive_read(b),
{
    lemma_lines_alike(pieces(a, '\n'), pieces(b, '\n'));
}

proof fn lemma_lines_alike(a: Seq<Seq<char>>, b: Seq<Seq<char>>)
    requires
        a.len() == b.len(),
        forall|i: int| 0 <= i < a.len() ==> trimmed(#[trigger] a[i]) == trimmed(b[i]),
    ensures
        lines_read(a) == lines_read(b),
    decreases a.len(),
{
    if a.len() > 0 {
        assert forall|i: int| 0 <= i < a.drop_last().len() implies trimmed(#[trigger] a.drop_last()[i])
            == trimmed(b.drop_last()[i]) by {
            assert(a[i] == a.drop_last()[i]);
        }
        lemma_lines_alike(a.drop_last(), b.drop_last());
        assert(trimmed(a[a.len() - 1]) == trimmed(b[b.len() - 1]));
    }
}

/// What a line does, wherever it stands: a section's name changes the section and nothing else;
/// in its section a label with a value behind it sets the value; a line of the body is put
/// behind the body, with a comma and a blank; any other line does nothing.
pub proof fn law_line_effects(r: Reading, line: Seq<char>, value: Seq<char>)
    ensures
        trimmed(line) == "[Header]"@ ==> line_read(r, line) == Ok::<Reading, NumberError>(
            Reading { section: Section::Header, ..r },
        ),
        trimmed(line) == "[Body]"@ ==> line_read(r, line) == Ok::<Reading, NumberError>(
            Reading { section: Section::Body, ..r },
        ),
        trimmed(line) == "[Footer]"@ ==> line_read(r, line) == Ok::<Reading, NumberError>(
            Reading { section: Section::Footer, ..r },
        ),
        r.section is Header && trimmed(line) == "Salt: "@ + value ==> line_read(r, line) == Ok::<
            Reading,
            NumberError,
        >(Reading { salt: value, ..r }),
        r.section is Header && trimmed(line) == "ChunkSize: "@ + value ==> line_read(r, line) == (
        match number(value, usize::MAX as nat) {
            Ok(n) => Ok(Reading { chunk_size: n, ..r }),
            Err(e) => Err(e),
        }),
        r.section is Footer && trimmed(line) == "Checksum: "@ + value ==> line_read(r, line) == Ok::<
            Reading,
            NumberError,
        >(Reading { checksum: value, ..r }),
        r.section is Body && trimmed(line) == value && value.len() > 0 && value[0] != '[' ==> line_read(
            r,
            line,
        ) == Ok::<Reading, NumberError>(
            Reading {
                body: if r.body.len() == 0 {
                    value
                } else {
                    r.body + ", "@ + value
                },
                ..r
            },
        ),
        r.section is Outside && (trimmed(line).len() == 0 || trimmed(line)[0] != '[') ==> line_read(r, line)
            == Ok::<Reading, NumberError>(r),
        r.section is Header && (trimmed(line).len() == 0 || trimmed(line)[0] != '[' && trimmed(line)[0]
            != 'S' && trimmed(line)[0] != 'C') ==> line_read(r, line) == Ok::<Reading, NumberError>(r),
        r.section is Footer && (trimmed(line).len() == 0 || trimmed(line)[0] != '[' && trimmed(line)[0]
            != 'C') ==> line_read(r, line) == Ok::<Reading, NumberError>(r),
        trimmed(line).len() == 0 ==> line_read(r, line) == Ok::<Reading, NumberError>(r),
{
    reveal_strlit("[Header]");
    reveal_strlit("[Body]");
    reveal_strlit("[Footer]");
    reveal_strlit("Salt: ");
    reveal_strlit("ChunkSize: ");
    reveal_strlit("Checksum: ");
    let t = trimmed(line);
    assert("[Header]"@[1] != "[Body]"@[1] && "[Header]"@[1] != "[Footer]"@[1] && "[Body]"@[1]
        != "[Footer]"@[1]);
    lemma_label("Salt: "@, value);
    lemma_label("ChunkSize: "@, value);
    lemma_label("Checksum: "@, value);
    if t.len() > 0 {
        if t[0] != '[' {
            lemma_other_start(t, "[Header]"@);
            lemma_other_start(t, "[Body]"@);
            lemma_other_start(t, "[Footer]"@);
        }
        if t[0] != 'S' {
            lemma_other_start(t, "Salt: "@);
        }
        if t[0] != 'C' {
            lemma_other_start(t, "ChunkSize: "@);
            lemma_other_start(t, "Checksum: "@);
        }
    }
}

/// What a part of a coordinate list is read as: digits as an index, digits between `x` and
/// `_0.0` as a zero run, each with white space around; white space alone as nothing.
pub proof fn law_part_read(part: Seq<char>, digits: Seq<char>)
    requires
        lacks(part, ','),
        forall|i: int| 0 <= i < digits.len() ==> '0' <= #[trigger] digits[i] <= '9',
        digits.len() > 0,
    ensures
        trimmed(part).len() == 0 ==> coords_read(part) == Ok::<Seq<CoordEntry>, Seq<char>>(Seq::empty()),
        trimmed(part) == digits && digits_value(digits) <= usize::MAX ==> coords_read(part) == Ok::<
            Seq<CoordEntry>,
            Seq<char>,
        >(seq![CoordEntry::Index(digits_value(digits) as usize)]),
        trimmed(part) == "x"@ + digits + "_0.0"@ && digits_value(digits) <= u64::MAX ==> coords_read(part)
            == Ok::<Seq<CoordEntry>, Seq<char>>(
            seq![CoordEntry::ZeroRun(digits_value(digits) as u64)],
        ),
        trimmed(part) == digits && digits_value(digits) > usize::MAX ==> coords_read(part) == Err::<
            Seq<CoordEntry>,
            Seq<char>,
        >("Invalid index '"@ + digits + "': "@ + "number too large to fit in target type"@),
{
    reveal_strlit("x");
    reveal_strlit("_0.0");
    lemma_pieces_whole(part, ',');
    let parts = seq![part];
    assert(parts.drop_last() =~= Seq::empty());
    assert(entries_read(parts.drop_last()) == Ok::<Seq<CoordEntry>, Seq<char>>(Seq::empty()));
    assert(parts.last() == part);
    law_number_reads_digits(digits, usize::MAX as nat);
    law_number_reads_digits(digits, u64::MAX as nat);
    let t = trimmed(part);
    assert('0' <= digits[0] <= '9');
    if t == digits {
        lemma_other_start(t, "x"@);
        if digits_value(digits) <= usize::MAX {
            assert(Seq::<CoordEntry>::empty().push(
                CoordEntry::Index(digits_value(digits) as usize),
            ) =~= seq![CoordEntry::Index(digits_value(digits) as usize)]);
        }
    } else if t == "x"@ + digits + "_0.0"@ {
        assert(t.take(1) =~= "x"@);
        let rest = t.skip(1);
        assert(rest =~= digits + "_0.0"@);
        assert(rest.skip(rest.len() - 4) =~= "_0.0"@);
        assert(rest.take(rest.len() - 4) =~= digits);
        if digits_value(digits) <= u64::MAX {
            assert(Seq::<CoordEntry>::empty().push(
                CoordEntry::ZeroRun(digits_value(digits) as u64),
            ) =~= seq![CoordEntry::ZeroRun(digits_value(digits) as u64)]);
        }
    }
}

/// How a text archive is read: its lines, which are what stands between line feeds, are read one
/// after the other, from no salt, no checksum, an empty body and a chunk size of 1, outside of
/// all sections; the first chunk size that is no number ends it. The body is then read as a
/// coordinate list, and last it is seen to that there was a salt.
pub proof fn law_archive_read_in_order(content: Seq<char>, lines: Seq<Seq<char>>, line: Seq<char>)
    ensures
        lines_read(Seq::empty()) == Ok::<Reading, NumberError>(
            Reading {
                section: Section::Outside,
                salt: Seq::empty(),
                chunk_size: 1,
                checksum: Seq::empty(),
                body: Seq::empty(),
            },
        ),
        lines_read(lines) matches Ok(r) ==> lines_read(lines.push(line)) == line_read(r, line),
        lines_read(lines) matches Err(e) ==> lines_read(lines.push(line)) == Err::<Reading, NumberError>(e),
        lines_read(pieces(content, '\n')) matches Err(e) ==> archive_read(content) == Err::<
            (Seq<char>, Seq<CoordEntry>, Seq<char>, nat),
            Seq<char>,
        >("Invalid ChunkSize: "@ + e.words()),
        lines_read(pieces(content, '\n')) matches Ok(r) ==> {
            &&& coords_read(r.body) matches Err(e) ==> archive_read(content) == Err::<
                (Seq<char>, Seq<CoordEntry>, Seq<char>, nat),
                Seq<char>,
            >(e)
            &&& coords_read(r.body) is Ok && r.salt.len() == 0 ==> archive_read(content) == Err::<
                (Seq<char>, Seq<CoordEntry>, Seq<char>, nat),
                Seq<char>,
            >("Missing Salt in archive header"@)
            &&& coords_read(r.body) is Ok && r.salt.len() > 0 ==> archive_read(content) == Ok::<
                (Seq<char>, Seq<CoordEntry>, Seq<char>, nat),
                Seq<char>,
            >((r.salt, coords_read(r.body)->Ok_0, r.checksum, r.chunk_size))
        },
{
    lemma_lines_read_push(lines, line);
}

} // verus!
