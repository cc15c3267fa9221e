//! Coordinate lists as entries: zero runs and indices.

use vstd::prelude::*;
use crate::bytes::le32;
use crate::crypto::{CoordEntry, blake3_digest, chain, ends_fit, restored, window};
use crate::rice::MatchCoord;
use crate::scanner::{flattened, law_chain_adds, law_chunk_restored, located};

verus! {

/// The entries of one coordinate: a zero run, unless there were no misses, and the index.
pub open spec fn coord_entries(c: MatchCoord) -> Seq<CoordEntry> {
    if c.misses == 0 {
        seq![CoordEntry::Index(c.index)]
    } else {
        seq![CoordEntry::ZeroRun(c.misses), CoordEntry::Index(c.index)]
    }
}

/// The entries of all coordinates.
pub open spec fn entries_of(coords: Seq<MatchCoord>) -> Seq<CoordEntry>
    decreases coords.len(),
{
    if coords.len() == 0 {
        Seq::empty()
    } else {
        coord_entries(coords[0]) + entries_of(coords.drop_first())
    }
}

/// Writes coordinates as entries.
pub fn coords_to_entries(coords: &[MatchCoord]) -> (entries: Vec<CoordEntry>)
    ensures
        entries@ == entries_of(coords@),
{
    let mut entries: Vec<CoordEntry> = Vec::new();
    proof {
        assert(coords@.skip(0) =~= coords@);
        assert(entries@ + entries_of(coords@) =~= entries_of(coords@));
    }
    for i in 0..coords.len()
        invariant
            entries@ + entries_of(coords@.skip(i as int)) == entries_of(coords@),
    {
        let c = coords[i];
        let ghost before = entries@;
        if c.misses > 0 {
            entries.push(CoordEntry::ZeroRun(c.misses));
        }
        entries.push(CoordEntry::Index(c.index));
        proof {
            assert(coords@.skip(i as int).drop_first() =~= coords@.skip(i + 1));
            assert(entries@ =~= before + coord_entries(c));
            assert(entries@ + entries_of(coords@.skip(i + 1)) =~= before + entries_of(
                coords@.skip(i as int),
            ));
        }
    }
    proof {
        assert(entries@ + Seq::<CoordEntry>::empty() =~= entries@);
    }
    entries
}

/// The coordinates that entries stand for, after `misses` misses: every index ends a
/// coordinate, zero runs add up, and a run behind the last index counts for nothing. More
/// misses than fit are none.
pub open spec fn grouped(entries: Seq<CoordEntry>, misses: nat) -> Option<Seq<MatchCoord>>
    decreases entries.len(),
{
    if entries.len() == 0 {
        Some(Seq::empty())
    } else {
        match entries[0] {
            CoordEntry::ZeroRun(n) => if misses + n > u64::MAX {
                None
            } else {
                grouped(entries.drop_first(), misses + n as nat)
            },
            CoordEntry::Index(index) => match grouped(entries.drop_first(), 0) {
                Some(more) => Some(seq![MatchCoord { misses: misses as u64, index }] + more),
                None => None,
            },
        }
    }
}

/// Reads entries as coordinates.
pub fn entries_to_coords(entries: &[CoordEntry]) -> (coords: Option<Vec<MatchCoord>>)
    ensures
        match grouped(entries@, 0) {
            Some(list) => coords is Some && coords->0@ == list,
            None => coords is None,
        },
{
    let mut coords: Vec<MatchCoord> = Vec::new();
    let mut misses: u64 = 0;
    let ghost goal = grouped(entries@, 0);
    proof {
        assert(entries@.skip(0) =~= entries@);
        if goal is Some {
            assert(coords@ + goal->0 =~= goal->0);
        }
    }
    for i in 0..entries.len()
        invariant
            goal == grouped(entries@, 0),
            goal == (match grouped(entries@.skip(i as int), misses as nat) {
                Some(more) => Some(coords@ + more),
                None => None,
            }),
    {
        let ghost before = coords@;
        proof {
            assert(entries@.skip(i as int).drop_first() =~= entries@.skip(i + 1));
        }
        match entries[i] {
            CoordEntry::ZeroRun(n) => {
                if n > u64::MAX - misses {
                    return None;
                }
                misses += n;
            },
            CoordEntry::Index(index) => {
                let c = MatchCoord { misses, index };
                coords.push(c);
                misses = 0;
                proof {
                    match grouped(entries@.skip(i + 1), 0) {
                        Some(more) => {
                            assert(before + (seq![c] + more) =~= coords@ + more);
                        },
                        None => {},
                    }
                }
            },
        }
    }
    proof {
        assert(coords@ + Seq::<MatchCoord>::empty() =~= coords@);
    }
    Some(coords)
}

/// Number of indices among the entries.
pub open spec fn index_count(entries: Seq<CoordEntry>) -> nat
    decreases entries.len(),
{
    if entries.len() == 0 {
        0
    } else {
        index_count(entries.drop_last()) + if entries.last() is Index {
            1nat
        } else {
            0nat
        }
    }
}

/// Counts the indices: the chunks that the entries reconstruct.
pub fn count_indices(entries: &[CoordEntry]) -> (n: usize)
    ensures
        n == index_count(entries@),
{
    let mut n: usize = 0;
    for i in 0..entries.len()
        invariant
            n <= i,
            n == index_count(entries@.take(i as int)),
    {
        proof {
            assert(entries@.take(i + 1).drop_last() =~= entries@.take(i as int));
        }
        match entries[i] {
            CoordEntry::Index(_) => {
                n += 1;
            },
            CoordEntry::ZeroRun(_) => {},
        }
    }
    proof {
        assert(entries@.take(entries@.len() as int) =~= entries@);
    }
    n
}

/// Coordinates written as entries are read back.
pub proof fn law_entries_round_trip(coords: Seq<MatchCoord>)
    ensures
        grouped(entries_of(coords), 0) == Some(coords),
    decreases coords.len(),
{
    if coords.len() == 0 {
        assert(coords =~= Seq::empty());
    } else {
        let c = coords[0];
        let more = coords.drop_first();
        let rest = entries_of(more);
        let all = entries_of(coords);
        law_entries_round_trip(more);
        assert(seq![c] + more =~= coords);
        if c.misses == 0 {
            assert(all.drop_first() =~= rest);
        } else {
            let tail = all.drop_first();
            assert(tail =~= seq![CoordEntry::Index(c.index)] + rest);
            assert(tail.drop_first() =~= rest);
            assert(tail[0] == CoordEntry::Index(c.index));
            assert(grouped(all, 0) == grouped(tail, c.misses as nat));
        }
    }
}

/// The entries of a coordinate list are the entries of its parts, one after the other: a zero
/// run as long as the misses, if there are any, and the index.
pub proof fn law_entries_add(a: Seq<MatchCoord>, b: Seq<MatchCoord>, c: MatchCoord)
    ensures
        entries_of(Seq::empty()) == Seq::<CoordEntry>::empty(),
        c.misses == 0 ==> entries_of(seq![c]) == seq![CoordEntry::Index(c.index)],
        c.misses > 0 ==> entries_of(seq![c]) == seq![
            CoordEntry::ZeroRun(c.misses),
            CoordEntry::Index(c.index),
        ],
        entries_of(a + b) == entries_of(a) + entries_of(b),
    decreases a.len(),
{
    let one = seq![c];
    assert(one.drop_first() =~= Seq::empty());
    assert(entries_of(one.drop_first()) =~= Seq::empty());
    assert(entries_of(one) =~= coord_entries(c));
    if a.len() == 0 {
        assert(a + b =~= b);
        assert(Seq::<CoordEntry>::empty() + entries_of(b) =~= entries_of(b));
    } else {
        law_entries_add(a.drop_first(), b, c);
        assert((a + b).drop_first() =~= a.drop_first() + b);
        assert(coord_entries(a[0]) + (entries_of(a.drop_first()) + entries_of(b)) =~= coord_entries(a[0])
            + entries_of(a.drop_first()) + entries_of(b));
    }
}

/// There are as many indices among the entries as there are coordinates.
pub proof fn law_entries_count(coords: Seq<MatchCoord>)
    ensures
        index_count(entries_of(coords)) == coords.len(),
    decreases coords.len(),
{
    if coords.len() > 0 {
        law_entries_count(coords.drop_first());
        lemma_index_count_adds(coord_entries(coords[0]), entries_of(coords.drop_first()));
        reveal_with_fuel(index_count, 3);
    }
}

proof fn lemma_index_count_adds(a: Seq<CoordEntry>, b: Seq<CoordEntry>)
    ensures
        index_count(a + b) == index_count(a) + index_count(b),
    decreases b.len(),
{
    if b.len() == 0 {
        assert(a + b =~= a);
    } else {
        lemma_index_count_adds(a, b.drop_last());
        assert((a + b).drop_last() =~= a + b.drop_last());
    }
}

/// Whether the ends fit is settled from the front.
proof fn lemma_ends_fit_front(s: Seq<CoordEntry>, chunk_size: usize)
    requires
        s.len() > 0,
    ensures
        ends_fit(s, chunk_size) == (match s[0] {
            CoordEntry::ZeroRun(_) => ends_fit(s.drop_first(), chunk_size),
            CoordEntry::Index(at) => at + chunk_size <= usize::MAX && (at < 32 ==> ends_fit(
                s.drop_first(),
                chunk_size,
            )),
        }),
{
    let rest = s.drop_first();
    if ends_fit(s, chunk_size) {
        assert(s[0] is Index ==> s[0]->Index_0 + chunk_size <= usize::MAX);
        if s[0] is ZeroRun || s[0]->Index_0 < 32 {
            assert forall|i: int|
                0 <= i < rest.len() && #[trigger] rest[i] is Index && (forall|j: int|
                    0 <= j < i && #[trigger] rest[j] is Index ==> rest[j]->Index_0 < 32) implies rest[i]->Index_0
                + chunk_size <= usize::MAX by {
                assert(s[i + 1] == rest[i]);
                assert forall|j: int| 0 <= j < i + 1 && #[trigger] s[j] is Index implies s[j]->Index_0
                    < 32 by {
                    if j > 0 {
                        assert(rest[j - 1] == s[j]);
                    }
                }
            }
        }
    } else {
        let bad = choose|i: int|
            0 <= i < s.len() && #[trigger] s[i] is Index && (forall|j: int|
                0 <= j < i && #[trigger] s[j] is Index ==> s[j]->Index_0 < 32) && !(s[i]->Index_0
                + chunk_size <= usize::MAX);
        if bad > 0 {
            assert(rest[bad - 1] == s[bad]);
            assert forall|j: int| 0 <= j < bad - 1 && #[trigger] rest[j] is Index implies rest[j]->Index_0
                < 32 by {
                assert(s[j + 1] == rest[j]);
            }
        }
    }
}

/// Lists that restore alike from every hash do so behind any list.
proof fn lemma_alike_behind(
    hash: Seq<u8>,
    a: Seq<CoordEntry>,
    x: Seq<CoordEntry>,
    y: Seq<CoordEntry>,
    chunk_size: usize,
)
    requires
        forall|h: Seq<u8>| #[trigger]
            restored(h, x, chunk_size as int) == restored(h, y, chunk_size as int),
        ends_fit(x, chunk_size) == ends_fit(y, chunk_size),
    ensures
        restored(hash, a + x, chunk_size as int) == restored(hash, a + y, chunk_size as int),
        ends_fit(a + x, chunk_size) == ends_fit(a + y, chunk_size),
    decreases a.len(),
{
    if a.len() == 0 {
        assert(a + x =~= x);
        assert(a + y =~= y);
    } else {
        let rest = a.drop_first();
        let next = match a[0] {
            CoordEntry::ZeroRun(n) => chain(hash, n as nat),
            CoordEntry::Index(at) => blake3_digest(hash + le32(at as nat)),
        };
        lemma_alike_behind(next, rest, x, y, chunk_size);
        assert((a + x).drop_first() =~= rest + x);
        assert((a + y).drop_first() =~= rest + y);
        lemma_ends_fit_front(a + x, chunk_size);
        lemma_ends_fit_front(a + y, chunk_size);
    }
}

/// Two zero runs, one after the other, are one of their sum: within any list, from any hash.
pub proof fn law_zero_runs_add(
    hash: Seq<u8>,
    a: Seq<CoordEntry>,
    m: u64,
    n: u64,
    b: Seq<CoordEntry>,
    chunk_size: usize,
)
    requires
        m + n <= u64::MAX,
    ensures
        ({
            let two = a + seq![CoordEntry::ZeroRun(m), CoordEntry::ZeroRun(n)] + b;
            let one = a + seq![CoordEntry::ZeroRun((m + n) as u64)] + b;
            &&& restored(hash, two, chunk_size as int) == restored(hash, one, chunk_size as int)
            &&& ends_fit(two, chunk_size) == ends_fit(one, chunk_size)
        }),
{
    let x = seq![CoordEntry::ZeroRun(m), CoordEntry::ZeroRun(n)] + b;
    let x1 = seq![CoordEntry::ZeroRun(n)] + b;
    let y = seq![CoordEntry::ZeroRun((m + n) as u64)] + b;
    assert(x.drop_first() =~= x1);
    assert(x1.drop_first() =~= b);
    assert(y.drop_first() =~= b);
    assert forall|h: Seq<u8>| #[trigger]
        restored(h, x, chunk_size as int) == restored(h, y, chunk_size as int) by {
        law_chain_adds(h, m as nat, n as nat);
        assert(restored(h, x, chunk_size as int) == restored(
            chain(h, m as nat),
            x1,
            chunk_size as int,
        ));
    }
    lemma_ends_fit_front(x, chunk_size);
    lemma_ends_fit_front(x1, chunk_size);
    lemma_ends_fit_front(y, chunk_size);
    lemma_alike_behind(hash, a, x, y, chunk_size);
    assert(a + seq![CoordEntry::ZeroRun(m), CoordEntry::ZeroRun(n)] + b =~= a + x);
    assert(a + seq![CoordEntry::ZeroRun((m + n) as u64)] + b =~= a + y);
}

/// A zero run of no misses counts for nothing: within any list, from any hash.
pub proof fn law_empty_run_counts_for_nothing(
    hash: Seq<u8>,
    a: Seq<CoordEntry>,
    b: Seq<CoordEntry>,
    chunk_size: usize,
)
    ensures
        ({
            let with = a + seq![CoordEntry::ZeroRun(0)] + b;
            &&& restored(hash, with, chunk_size as int) == restored(hash, a + b, chunk_size as int)
            &&& ends_fit(with, chunk_size) == ends_fit(a + b, chunk_size)
        }),
{
    let x = seq![CoordEntry::ZeroRun(0)] + b;
    assert(x.drop_first() =~= b);
    assert forall|h: Seq<u8>| #[trigger]
        restored(h, x, chunk_size as int) == restored(h, b, chunk_size as int) by {
        assert(chain(h, 0) == h);
    }
    lemma_ends_fit_front(x, chunk_size);
    lemma_alike_behind(hash, a, x, b, chunk_size);
    assert(a + seq![CoordEntry::ZeroRun(0)] + b =~= a + x);
}

/// The coordinates locate the chunks in one chain that goes on, after every match, from the
/// digest of hash and index.
pub open spec fn chained(hash: Seq<u8>, chunks: Seq<Seq<u8>>, coords: Seq<MatchCoord>) -> bool
    decreases coords.len(),
{
    if coords.len() == 0 || chunks.len() == 0 {
        coords.len() == 0 && chunks.len() == 0
    } else {
        let c = coords[0];
        &&& located(hash, chunks[0], c)
        &&& c.index < 32
        &&& chained(
            blake3_digest(chain(hash, c.misses as nat) + le32(c.index as nat)),
            chunks.drop_first(),
            coords.drop_first(),
        )
    }
}

proof fn lemma_flattened_front(parts: Seq<Seq<u8>>)
    requires
        parts.len() > 0,
    ensures
        flattened(parts) == parts[0] + flattened(parts.drop_first()),
    decreases parts.len(),
{
    if parts.len() == 1 {
        assert(flattened(parts.drop_last()) == Seq::<u8>::empty());
        assert(flattened(parts.drop_first()) == Seq::<u8>::empty());
        assert(flattened(parts) =~= parts[0] + flattened(parts.drop_first()));
    } else {
        lemma_flattened_front(parts.drop_last());
        assert(parts.drop_last().drop_first() =~= parts.drop_first().drop_last());
        assert(flattened(parts) =~= parts[0] + flattened(parts.drop_first()));
    }
}

/// Entries that locate chunks of full length in one chain restore to these chunks.
pub proof fn law_chain_restored(
    hash: Seq<u8>,
    chunks: Seq<Seq<u8>>,
    coords: Seq<MatchCoord>,
    chunk_size: int,
)
    requires
        chained(hash, chunks, coords),
        forall|i: int| 0 <= i < chunks.len() ==> (#[trigger] chunks[i]).len() == chunk_size,
    ensures
        restored(hash, entries_of(coords), chunk_size) == Ok::<Seq<u8>, usize>(flattened(chunks)),
    decreases coords.len(),
{
    if coords.len() > 0 {
        let c = coords[0];
        let found = chain(hash, c.misses as nat);
        let next = blake3_digest(found + le32(c.index as nat));
        let rest = entries_of(coords.drop_first());
        let all = entries_of(coords);
        assert forall|i: int| 0 <= i < chunks.drop_first().len() implies (
        #[trigger] chunks.drop_first()[i]).len() == chunk_size by {
            assert(chunks.drop_first()[i] == chunks[i + 1]);
        }
        law_chain_restored(next, chunks.drop_first(), coords.drop_first(), chunk_size);
        law_chunk_restored(hash, chunks[0], c, chunk_size);
        lemma_flattened_front(chunks);
        assert(window(found, c.index as int, chunk_size) == chunks[0]);
        if c.misses == 0 {
            assert(all.drop_first() =~= rest);
        } else {
            let tail = all.drop_first();
            assert(tail =~= seq![CoordEntry::Index(c.index)] + rest);
            assert(tail.drop_first() =~= rest);
            assert(tail[0] == CoordEntry::Index(c.index));
            assert(restored(hash, all, chunk_size) == restored(found, tail, chunk_size));
        }
    }
}

/// What a list stands for begins with what its first entry stands for: an index gives the bytes
/// of the hash from it on, as many as the chunk size or as are left, and goes on from the digest
/// of the hash and the index; a run goes on so many digests further. An index outside of the
/// hash is the error.
pub proof fn law_first_entry(hash: Seq<u8>, at: usize, run: u64, rest: Seq<CoordEntry>, chunk_size: nat)
    requires
        hash.len() == 32,
    ensures
        restored(hash, Seq::empty(), chunk_size as int) == Ok::<Seq<u8>, usize>(Seq::empty()),
        restored(hash, seq![CoordEntry::ZeroRun(run)] + rest, chunk_size as int) == restored(
            chain(hash, run as nat),
            rest,
            chunk_size as int,
        ),
        at >= 32 ==> restored(hash, seq![CoordEntry::Index(at)] + rest, chunk_size as int) == Err::<
            Seq<u8>,
            usize,
        >(at),
        at < 32 ==> restored(hash, seq![CoordEntry::Index(at)] + rest, chunk_size as int) == (match restored(
            blake3_digest(hash + seq![at as u8, 0u8, 0u8, 0u8]),
            rest,
            chunk_size as int,
        ) {
            Ok(more) => Ok(
                hash.subrange(
                    at as int,
                    if at + chunk_size <= 32 {
                        at + chunk_size
                    } else {
                        32
                    },
                ) + more,
            ),
            Err(e) => Err(e),
        }),
{
    let run_list = seq![CoordEntry::ZeroRun(run)] + rest;
    let index_list = seq![CoordEntry::Index(at)] + rest;
    assert(run_list.drop_first() =~= rest);
    assert(index_list.drop_first() =~= rest);
    if at < 32 {
        assert(le32(at as nat) =~= seq![at as u8, 0u8, 0u8, 0u8]);
    }
}

/// Reading entries as coordinates: an index ends a coordinate with the misses before it; a run
/// counts to the misses before the next index; a run behind the last index counts for nothing;
/// more misses than fit are refused.
pub proof fn law_entries_grouped(rest: Seq<CoordEntry>, misses: nat, run: u64, index: usize)
    requires
        misses <= u64::MAX,
    ensures
        grouped(Seq::empty(), misses) == Some(Seq::<MatchCoord>::empty()),
        misses + run <= u64::MAX ==> grouped(seq![CoordEntry::ZeroRun(run)] + rest, misses) == grouped(
            rest,
            misses + run as nat,
        ),
        misses + run > u64::MAX ==> grouped(seq![CoordEntry::ZeroRun(run)] + rest, misses) is None,
        grouped(rest, 0) is None ==> grouped(seq![CoordEntry::Index(index)] + rest, misses) is None,
        grouped(rest, 0) matches Some(more) ==> grouped(seq![CoordEntry::Index(index)] + rest, misses) == Some(
            seq![MatchCoord { misses: misses as u64, index }] + more,
        ),
{
    let a = seq![CoordEntry::ZeroRun(run)] + rest;
    let b = seq![CoordEntry::Index(index)] + rest;
    assert(a.drop_first() =~= rest);
    assert(b.drop_first() =~= rest);
}

/// The number of indices in a list is that in its parts together; a single index counts, a
/// single run does not.
pub proof fn law_index_count_adds(a: Seq<CoordEntry>, b: Seq<CoordEntry>, run: u64, index: usize)
    ensures
        index_count(a + b) == index_count(a) + index_count(b),
        index_count(seq![CoordEntry::Index(index)]) == 1,
        index_count(seq![CoordEntry::ZeroRun(run)]) == 0,
        index_count(Seq::empty()) == 0,
{
    lemma_index_count_adds(a, b);
    reveal_with_fuel(index_count, 2);
}

} // verus!
