//! Encrypting and restoring data chunk by chunk: every chunk has a hash chain of its own.

use vstd::prelude::*;
use crate::bytes::{le64, push_bytes};
use crate::crypto::{
    absent, advance_hash, advance_many, blake3_digest, chain, chunk_seed, compute_seed_for_chunk, find_chunk_in_hash, first_at,
    law_absent_is_nowhere, law_first_at_is_first, occurs_at, read_window, window, window_len,
};
use crate::rice::MatchCoord;

verus! {

/// Number of hashes that a search looks into between two looks at the state of the run.
pub const ROUND: u64 = 10_000;

/// Number of chunks that data of length `len` makes.
pub open spec fn chunks_of(len: nat, chunk_size: nat) -> nat {
    if len % chunk_size == 0 {
        len / chunk_size
    } else {
        len / chunk_size + 1
    }
}

/// There are just enough chunks: together they reach to the end of the data, without the last
/// one they do not.
pub proof fn law_chunks_cover(len: nat, chunk_size: nat)
    requires
        chunk_size > 0,
    ensures
        chunks_of(len, chunk_size) * chunk_size >= len,
        chunks_of(len, chunk_size) > 0 ==> (chunks_of(len, chunk_size) - 1) * chunk_size < len,
{
    let q = len / chunk_size;
    let r = len % chunk_size;
    vstd::arithmetic::div_mod::lemma_fundamental_div_mod(len as int, chunk_size as int);
    vstd::arithmetic::div_mod::lemma_mod_bound(len as int, chunk_size as int);
    assert(q * chunk_size == chunk_size * q) by (nonlinear_arith);
    assert((q - 1) * chunk_size == q * chunk_size - chunk_size) by (nonlinear_arith);
    assert((q + 1) * chunk_size == q * chunk_size + chunk_size) by (nonlinear_arith);
}

/// Number of chunks that data of length `len` makes.
pub fn chunk_count(len: usize, chunk_size: usize) -> (n: usize)
    requires
        chunk_size > 0,
    ensures
        n == chunks_of(len as nat, chunk_size as nat),
        n * chunk_size >= len,
        n > 0 ==> (n - 1) * chunk_size < len,
{
    proof {
        law_chunks_cover(len as nat, chunk_size as nat);
    }
    let n: usize = len / chunk_size;
    if len % chunk_size == 0 {
        n
    } else {
        proof {
            assert(n < usize::MAX) by (nonlinear_arith)
                requires
                    n == len / chunk_size,
                    len % chunk_size != 0,
                    chunk_size > 0,
                    len <= usize::MAX,
            ;
        }
        n + 1
    }
}

/// The coordinate is that of the first hash in the chain that holds the chunk, and of the
/// first place in that hash.
pub open spec fn located(seed: Seq<u8>, chunk: Seq<u8>, c: MatchCoord) -> bool {
    &&& first_at(chain(seed, c.misses as nat), chunk, c.index as int)
    &&& forall|m: nat| m < c.misses ==> absent(#[trigger] chain(seed, m), chunk)
}

/// A search under way: the next hash to look into, and how many were looked into in vain.
#[derive(Debug, Clone, Copy)]
pub struct ScanState {
    pub hash: [u8; 32],
    pub misses: u64,
}

/// What a round of searching came to.
#[derive(Debug, Clone, Copy)]
pub enum Scan {
    Found(MatchCoord),
    Pending(ScanState),
}

/// The state is that of a search for `chunk` in the chain of `seed`.
pub open spec fn searching(seed: Seq<u8>, chunk: Seq<u8>, state: ScanState) -> bool {
    &&& state.hash@ == chain(seed, state.misses as nat)
    &&& forall|m: nat| m < state.misses ==> absent(#[trigger] chain(seed, m), chunk)
}

/// The state of a search before the first hash.
pub fn start_scan(seed: &[u8; 32]) -> (state: ScanState)
    ensures
        state.hash == *seed,
        state.misses == 0,
        forall|chunk: Seq<u8>| #[trigger] searching(seed@, chunk, state),
{
    ScanState { hash: *seed, misses: 0 }
}

/// Advancing a hash in two goes is advancing it in one.
pub proof fn law_chain_adds(hash: Seq<u8>, a: nat, b: nat)
    ensures
        chain(chain(hash, a), b) == chain(hash, a + b),
    decreases b,
{
    if b > 0 {
        law_chain_adds(hash, a, (b - 1) as nat);
    }
}

/// The coordinate of a chunk points at its bytes: the hash so many digests behind the seed as
/// the coordinate has misses holds the chunk at the coordinate's index, byte by byte. No place
/// of a hash before it does, and no earlier place of that hash.
pub proof fn law_located_points_at_chunk(seed: Seq<u8>, chunk: Seq<u8>, c: MatchCoord, m: nat, p: int)
    requires
        located(seed, chunk, c),
    ensures
        chunk.len() >= 1,
        c.index + chunk.len() <= chain(seed, c.misses as nat).len(),
        forall|j: int|
            0 <= j < chunk.len() ==> chain(seed, c.misses as nat)[c.index + j] == #[trigger] chunk[j],
        (m < c.misses || m == c.misses && p < c.index) && 0 <= p <= chain(seed, m).len() - chunk.len()
            ==> exists|j: int| 0 <= j < chunk.len() && chain(seed, m)[p + j] != #[trigger] chunk[j],
{
    let hash = chain(seed, c.misses as nat);
    assert(occurs_at(hash, chunk, c.index as int));
    lemma_occurrence_bytes(hash, chunk, c.index as int);
    if 0 <= p <= chain(seed, m).len() - chunk.len() {
        if m < c.misses {
            assert(absent(chain(seed, m), chunk));
            law_absent_is_nowhere(chain(seed, m), chunk, p);
        } else if m == c.misses && p < c.index {
            if forall|j: int| 0 <= j < chunk.len() ==> hash[p + j] == #[trigger] chunk[j] {
                law_first_at_is_first(hash, chunk, c.index as int, p);
            }
        }
    }
}

proof fn lemma_occurrence_bytes(hash: Seq<u8>, chunk: Seq<u8>, at: int)
    requires
        occurs_at(hash, chunk, at),
    ensures
        forall|j: int| 0 <= j < chunk.len() ==> hash[at + j] == #[trigger] chunk[j],
{
    assert forall|j: int| 0 <= j < chunk.len() implies hash[at + j] == #[trigger] chunk[j] by {
        assert(hash.subrange(at, at + chunk.len())[j] == hash[at + j]);
    }
}

/// Searches for a chunk in up to `limit` further hashes.
pub fn scan_hashes(state: &ScanState, chunk: &[u8], limit: u64) -> (scan: Scan)
    requires
        state.misses + limit <= u64::MAX,
    ensures
        match scan {
            Scan::Found(c) => {
                &&& state.misses <= c.misses < state.misses + limit
                &&& 1 <= chunk@.len() <= 32 - c.index
                &&& first_at(
                    chain(state.hash@, (c.misses - state.misses) as nat),
                    chunk@,
                    c.index as int,
                )
                &&& forall|m: nat|
                    m < c.misses - state.misses ==> absent(#[trigger] chain(state.hash@, m), chunk@)
            },
            Scan::Pending(next) => {
                &&& next.misses == state.misses + limit
                &&& next.hash@ == chain(state.hash@, limit as nat)
                &&& forall|m: nat| m < limit ==> absent(#[trigger] chain(state.hash@, m), chunk@)
            },
        },
        forall|seed: Seq<u8>| #[trigger]
            searching(seed, chunk@, *state) ==> match scan {
                Scan::Found(c) => located(seed, chunk@, c),
                Scan::Pending(next) => searching(seed, chunk@, next),
            },
{
    let mut hash: [u8; 32] = state.hash;
    for i in 0..limit
        invariant
            state.misses + limit <= u64::MAX,
            hash@ == chain(state.hash@, i as nat),
            forall|m: nat| m < i ==> absent(#[trigger] chain(state.hash@, m), chunk@),
    {
        match find_chunk_in_hash(&hash, chunk) {
            Some(pos) => {
                let c = MatchCoord { misses: state.misses + i, index: pos };
                proof {
                    assert forall|seed: Seq<u8>| #[trigger]
                        searching(seed, chunk@, *state) implies located(seed, chunk@, c) by {
                        lemma_found(seed, chunk@, *state, i as nat);
                    }
                }
                return Scan::Found(c);
            },
            None => {},
        }
        hash = advance_hash(&hash);
    }
    let next = ScanState { hash, misses: state.misses + limit };
    proof {
        assert forall|seed: Seq<u8>| #[trigger] searching(seed, chunk@, *state) implies searching(
            seed,
            chunk@,
            next,
        ) by {
            lemma_found(seed, chunk@, *state, limit as nat);
        }
    }
    Scan::Pending(next)
}

/// Misses from a state of a search on are misses of the search.
proof fn lemma_found(seed: Seq<u8>, chunk: Seq<u8>, state: ScanState, n: nat)
    requires
        searching(seed, chunk, state),
        forall|m: nat| m < n ==> absent(#[trigger] chain(state.hash@, m), chunk),
    ensures
        chain(state.hash@, n) == chain(seed, state.misses as nat + n),
        forall|m: nat| m < state.misses + n ==> absent(#[trigger] chain(seed, m), chunk),
{
    law_chain_adds(seed, state.misses as nat, n);
    assert forall|m: nat| m < state.misses + n implies absent(#[trigger] chain(seed, m), chunk) by {
        if m >= state.misses {
            let k = (m - state.misses) as nat;
            law_chain_adds(seed, state.misses as nat, k);
            assert(absent(chain(state.hash@, k), chunk));
        }
    }
}

/// What a coordinate stands for in the chain of `seed`.
pub open spec fn chunk_at(seed: Seq<u8>, c: MatchCoord, chunk_size: int) -> Seq<u8> {
    window(chain(seed, c.misses as nat), c.index as int, chunk_size)
}

/// Restores the chunk that a coordinate stands for.
pub fn restore_chunk(seed: &[u8; 32], coord: &MatchCoord, chunk_size: usize) -> (chunk: Vec<u8>)
    requires
        coord.index <= 32,
        coord.index + chunk_size <= usize::MAX,
    ensures
        chunk@ == chunk_at(seed@, *coord, chunk_size as int),
        chunk@.len() == window_len(coord.index as int, chunk_size as int),
{
    let hash = advance_many(seed, coord.misses);
    read_window(&hash, coord.index, chunk_size)
}

/// A walk along a chain: the hash that it has come to, and how many steps are left.
#[derive(Debug, Clone, Copy)]
pub struct Walk {
    pub hash: [u8; 32],
    pub left: u64,
}

/// How a walk goes on.
#[derive(Debug)]
pub enum WalkStep {
    /// The next round goes on from here.
    GoOn(Walk),
    /// It has ended with this chunk.
    Done(Vec<u8>),
}

/// The chunk that a walk leads to.
pub open spec fn walk_end(walk: Walk, index: int, chunk_size: int) -> Seq<u8> {
    window(chain(walk.hash@, walk.left as nat), index, chunk_size)
}

/// Goes one round of a walk: `ROUND` steps while so many are left, else what is left and the
/// chunk at the end.
pub fn take_walk(walk: &Walk, index: usize, chunk_size: usize) -> (step: WalkStep)
    requires
        index <= 32,
        index + chunk_size <= usize::MAX,
    ensures
        match step {
            WalkStep::GoOn(next) => {
                &&& walk.left >= ROUND
                &&& next.hash@ == chain(walk.hash@, ROUND as nat)
                &&& next.left == walk.left - ROUND
                &&& walk_end(next, index as int, chunk_size as int) == walk_end(
                    *walk,
                    index as int,
                    chunk_size as int,
                )
            },
            WalkStep::Done(chunk) => {
                &&& walk.left < ROUND
                &&& chunk@ == walk_end(*walk, index as int, chunk_size as int)
                &&& chunk@.len() == window_len(index as int, chunk_size as int)
            },
        },
{
    if walk.left >= ROUND {
        proof {
            law_chain_adds(walk.hash@, ROUND as nat, (walk.left - ROUND) as nat);
        }
        WalkStep::GoOn(Walk { hash: advance_many(&walk.hash, ROUND), left: walk.left - ROUND })
    } else {
        let hash = advance_many(&walk.hash, walk.left);
        WalkStep::Done(read_window(&hash, index, chunk_size))
    }
}

/// All parts, one after the other.
pub open spec fn flattened(parts: Seq<Seq<u8>>) -> Seq<u8>
    decreases parts.len(),
{
    if parts.len() == 0 {
        Seq::empty()
    } else {
        flattened(parts.drop_last()) + parts.last()
    }
}

pub open spec fn part_contents(parts: Seq<Vec<u8>>) -> Seq<Seq<u8>> {
    Seq::new(parts.len(), |i: int| parts[i]@)
}

/// Puts restored chunks together.
pub fn join_chunks(parts: &Vec<Vec<u8>>) -> (data: Vec<u8>)
    ensures
        data@ == flattened(part_contents(parts@)),
{
    let mut data: Vec<u8> = Vec::new();
    for i in 0..parts.len()
        invariant
            data@ == flattened(part_contents(parts@).take(i as int)),
    {
        push_bytes(&mut data, parts[i].as_slice());
        proof {
            let all = part_contents(parts@);
            assert(all.take(i + 1).drop_last() =~= all.take(i as int));
        }
    }
    proof {
        assert(part_contents(parts@).take(parts@.len() as int) =~= part_contents(parts@));
    }
    data
}

/// Chunk `i` of the data; the last one may be short.
pub open spec fn chunk_of(data: Seq<u8>, chunk_size: int, i: int) -> Seq<u8> {
    data.subrange(
        i * chunk_size,
        if (i + 1) * chunk_size < data.len() { (i + 1) * chunk_size } else { data.len() as int },
    )
}

/// What a chunk was located at begins with the chunk, and is the chunk if that has full
/// length.
pub proof fn law_chunk_restored(seed: Seq<u8>, chunk: Seq<u8>, c: MatchCoord, chunk_size: int)
    requires
        located(seed, chunk, c),
        chunk.len() <= chunk_size,
    ensures
        chunk_at(seed, c, chunk_size).len() >= chunk.len(),
        chunk_at(seed, c, chunk_size).take(chunk.len() as int) == chunk,
        chunk.len() == chunk_size ==> chunk_at(seed, c, chunk_size) == chunk,
{
    let hash = chain(seed, c.misses as nat);
    assert(hash.subrange(c.index as int, c.index + chunk.len()) == chunk);
    assert(chunk_at(seed, c, chunk_size).take(chunk.len() as int) =~= chunk);
    if chunk.len() == chunk_size {
        assert(chunk_at(seed, c, chunk_size) =~= chunk);
    }
}

/// The chunks that a coordinate list stands for.
pub open spec fn restored_chunks(
    password: Seq<u8>,
    salt: Seq<u8>,
    coords: Seq<MatchCoord>,
    chunk_size: int,
) -> Seq<Seq<u8>> {
    Seq::new(
        coords.len(),
        |i: int| chunk_at(chunk_seed(password, salt, i as nat), coords[i], chunk_size),
    )
}

/// What a coordinate list stands for, byte by byte: chunk `i` is read from the chain whose first
/// hash is the digest of the whole password, the whole salt and the chunk's number, so many
/// digests on as the coordinate has misses, from its index on.
pub proof fn law_restored_bytes(
    password: Seq<u8>,
    salt: Seq<u8>,
    coords: Seq<MatchCoord>,
    chunk_size: int,
    i: int,
)
    requires
        0 <= i < coords.len(),
        0 <= chunk_size,
    ensures
        restored_chunks(password, salt, coords, chunk_size).len() == coords.len(),
        ({
            let hash = chain(
                blake3_digest(password + salt + le64(i as u64)),
                coords[i].misses as nat,
            );
            let part = restored_chunks(password, salt, coords, chunk_size)[i];
            coords[i].index <= hash.len() ==> {
                &&& part.len() == if coords[i].index + chunk_size <= hash.len() {
                    chunk_size
                } else {
                    hash.len() - coords[i].index
                }
                &&& forall|j: int| 0 <= j < part.len() ==> #[trigger] part[j] == hash[coords[i].index + j]
            }
        }),
{
}

/// What coordinates stand for is the chunks, one after the other: of a longer list it is what
/// its halves stand for, put together.
pub proof fn law_flattened_adds(a: Seq<Seq<u8>>, b: Seq<Seq<u8>>)
    ensures
        flattened(Seq::<Seq<u8>>::empty()) == Seq::<u8>::empty(),
        b.len() == 1 ==> flattened(b) == b[0],
        flattened(a + b) == flattened(a) + flattened(b),
    decreases b.len(),
{
    if b.len() == 0 {
        assert(a + b =~= a);
        assert(flattened(a) + Seq::<u8>::empty() =~= flattened(a));
    } else {
        let p = b.drop_last();
        law_flattened_adds(a, p);
        assert((a + b).drop_last() =~= a + p);
        assert((a + b).last() == b.last());
        assert(flattened(a) + flattened(p) + b.last() =~= flattened(a) + (flattened(p) + b.last()));
        if b.len() == 1 {
            assert(flattened(p) =~= Seq::empty());
            assert(Seq::<u8>::empty() + b.last() =~= b[0]);
        }
    }
}

/// The coordinate list locates every chunk of the data.
pub open spec fn encrypts(
    password: Seq<u8>,
    salt: Seq<u8>,
    data: Seq<u8>,
    coords: Seq<MatchCoord>,
    chunk_size: int,
) -> bool {
    &&& coords.len() == chunks_of(data.len(), chunk_size as nat)
    &&& forall|i: int|
        0 <= i < coords.len() ==> located(
            chunk_seed(password, salt, i as nat),
            chunk_of(data, chunk_size, i),
            #[trigger] coords[i],
        )
}

/// A chunk has one coordinate only in the chain of a seed.
pub proof fn law_located_unique(seed: Seq<u8>, chunk: Seq<u8>, a: MatchCoord, b: MatchCoord)
    requires
        located(seed, chunk, a),
        located(seed, chunk, b),
    ensures
        a == b,
{
    let x = chain(seed, a.misses as nat);
    let y = chain(seed, b.misses as nat);
    assert(occurs_at(x, chunk, a.index as int));
    assert(occurs_at(y, chunk, b.index as int));
    if a.misses < b.misses {
        assert(absent(x, chunk));
    } else if b.misses < a.misses {
        assert(absent(y, chunk));
    }
}

/// A coordinate list that encrypts data points at its bytes: coordinate `i` stands for byte
/// `i * chunk_size + j` of the data at place `j` behind its index.
pub proof fn law_encryption_points_at_data(
    password: Seq<u8>,
    salt: Seq<u8>,
    data: Seq<u8>,
    coords: Seq<MatchCoord>,
    chunk_size: int,
    i: int,
    j: int,
)
    requires
        chunk_size > 0,
        encrypts(password, salt, data, coords, chunk_size),
        0 <= i,
        0 <= j < chunk_size,
        i * chunk_size + j < data.len(),
    ensures
        i < coords.len(),
        chain(blake3_digest(password + salt + le64(i as u64)), coords[i].misses as nat)[coords[i].index + j]
            == data[i * chunk_size + j],
{
    law_chunks_cover(data.len(), chunk_size as nat);
    let n = coords.len() as int;
    assert(i < n) by (nonlinear_arith)
        requires
            n * chunk_size >= data.len(),
            i * chunk_size + j < data.len(),
            0 <= j,
            chunk_size > 0,
    ;
    lemma_chunk_bounds(data.len() as int, chunk_size, i);
    let chunk = chunk_of(data, chunk_size, i);
    assert(located(chunk_seed(password, salt, i as nat), chunk, coords[i]));
    law_located_points_at_chunk(chunk_seed(password, salt, i as nat), chunk, coords[i], 0, 0);
    assert(chunk[j] == data[i * chunk_size + j]);
}

/// Data has one coordinate list only under a password, a salt and a chunk size.
pub proof fn law_encryption_unique(
    password: Seq<u8>,
    salt: Seq<u8>,
    data: Seq<u8>,
    chunk_size: int,
    a: Seq<MatchCoord>,
    b: Seq<MatchCoord>,
)
    requires
        encrypts(password, salt, data, a, chunk_size),
        encrypts(password, salt, data, b, chunk_size),
    ensures
        a == b,
{
    assert forall|i: int| 0 <= i < a.len() implies a[i] == b[i] by {
        law_located_unique(
            chunk_seed(password, salt, i as nat),
            chunk_of(data, chunk_size, i),
            a[i],
            b[i],
        );
    }
    assert(a =~= b);
}

/// Bounds of chunk `i` within data that has it.
proof fn lemma_chunk_bounds(len: int, chunk_size: int, i: int)
    requires
        len >= 0,
        chunk_size > 0,
        0 <= i < chunks_of(len as nat, chunk_size as nat),
    ensures
        0 <= i * chunk_size < len,
        (i + 1) * chunk_size == i * chunk_size + chunk_size,
{
    let q = len / chunk_size;
    vstd::arithmetic::div_mod::lemma_fundamental_div_mod(len, chunk_size);
    vstd::arithmetic::div_mod::lemma_mod_bound(len, chunk_size);
    assert((i + 1) * chunk_size == i * chunk_size + chunk_size) by (nonlinear_arith);
    assert(0 <= i * chunk_size) by (nonlinear_arith)
        requires
            0 <= i,
            chunk_size > 0,
    ;
    assert(q * chunk_size == chunk_size * q) by (nonlinear_arith);
    if len % chunk_size == 0 {
        assert((i + 1) * chunk_size <= q * chunk_size) by (nonlinear_arith)
            requires
                i + 1 <= q,
                chunk_size > 0,
        ;
    } else {
        assert(i * chunk_size <= q * chunk_size) by (nonlinear_arith)
            requires
                i <= q,
                chunk_size > 0,
        ;
    }
}

/// Chunk `i` of the data.
pub fn get_chunk<'a>(data: &'a [u8], chunk_size: usize, i: usize) -> (chunk: &'a [u8])
    requires
        chunk_size > 0,
        i < chunks_of(data@.len(), chunk_size as nat),
    ensures
        chunk@ == chunk_of(data@, chunk_size as int, i as int),
        chunk@.len() >= 1,
        chunk@.len() <= chunk_size,
        chunk@.len() < chunk_size ==> i * chunk_size + chunk@.len() == data@.len(),
        forall|j: int| 0 <= j < chunk@.len() ==> chunk@[j] == #[trigger] data@[i * chunk_size + j],
{
    let len: usize = data.len();
    proof {
        lemma_chunk_bounds(len as int, chunk_size as int, i as int);
    }
    let start: usize = i * chunk_size;
    let end: usize = if chunk_size < len - start { start + chunk_size } else { len };
    let chunk = &data[start..end];
    proof {
        assert(chunk@ =~= chunk_of(data@, chunk_size as int, i as int));
    }
    chunk
}

/// Locates every chunk of the data, each in up to `limit` hashes of its own chain.
pub fn encrypt_data(
    password: &[u8],
    salt: &[u8],
    data: &[u8],
    chunk_size: usize,
    limit: u64,
) -> (coords: Option<Vec<MatchCoord>>)
    requires
        chunk_size > 0,
    ensures
        match coords {
            Some(list) => {
                &&& encrypts(password@, salt@, data@, list@, chunk_size as int)
                &&& forall|i: int|
                    0 <= i < list@.len() ==> (#[trigger] list@[i]).misses < limit && list@[i].index
                        < 32
            },
            None => exists|i: nat|
                i < chunks_of(data@.len(), chunk_size as nat) && #[trigger] beyond(
                    chunk_seed(password@, salt@, i),
                    chunk_of(data@, chunk_size as int, i as int),
                    limit as nat,
                ),
        },
{
    let n: usize = chunk_count(data.len(), chunk_size);
    let mut coords: Vec<MatchCoord> = Vec::new();
    for i in 0..n
        invariant
            chunk_size > 0,
            n == chunks_of(data@.len(), chunk_size as nat),
            coords@.len() == i,
            forall|j: int|
                0 <= j < i ==> located(
                    chunk_seed(password@, salt@, j as nat),
                    chunk_of(data@, chunk_size as int, j),
                    #[trigger] coords@[j],
                ),
            forall|j: int|
                0 <= j < i ==> (#[trigger] coords@[j]).misses < limit && coords@[j].index < 32,
    {
        let chunk = get_chunk(data, chunk_size, i);
        let seed = compute_seed_for_chunk(password, salt, i);
        let state = start_scan(&seed);
        proof {
            assert(searching(seed@, chunk@, state));
        }
        match scan_hashes(&state, chunk, limit) {
            Scan::Found(c) => coords.push(c),
            Scan::Pending(_) => {
                proof {
                    assert(beyond(
                        chunk_seed(password@, salt@, i as nat),
                        chunk_of(data@, chunk_size as int, i as int),
                        limit as nat,
                    ));
                }
                return None;
            },
        }
    }
    Some(coords)
}

/// The first `limit` hashes of the chain do not hold the chunk.
pub open spec fn beyond(seed: Seq<u8>, chunk: Seq<u8>, limit: nat) -> bool {
    forall|m: nat| m < limit ==> absent(#[trigger] chain(seed, m), chunk)
}

/// Length of what a coordinate list stands for: the parts of all coordinates together.
pub open spec fn restored_size(coords: Seq<MatchCoord>, chunk_size: int) -> int
    decreases coords.len(),
{
    if coords.len() == 0 {
        0
    } else {
        restored_size(coords.drop_last(), chunk_size) + window_len(
            coords.last().index as int,
            chunk_size,
        )
    }
}

proof fn lemma_flattened_len(parts: Seq<Seq<u8>>, coords: Seq<MatchCoord>, chunk_size: int)
    requires
        parts.len() == coords.len(),
        forall|i: int|
            0 <= i < parts.len() ==> (#[trigger] parts[i]).len() == window_len(
                coords[i].index as int,
                chunk_size,
            ),
    ensures
        flattened(parts).len() == restored_size(coords, chunk_size),
    decreases parts.len(),
{
    if parts.len() > 0 {
        lemma_flattened_len(parts.drop_last(), coords.drop_last(), chunk_size);
        assert(parts.last() == parts[parts.len() - 1]);
    }
}

/// Restores what a coordinate list stands for.
pub fn restore_data(password: &[u8], salt: &[u8], coords: &[MatchCoord], chunk_size: usize) -> (data:
    Vec<u8>)
    requires
        forall|i: int|
            0 <= i < coords@.len() ==> (#[trigger] coords@[i]).index <= 32 && coords@[i].index
                + chunk_size <= usize::MAX,
    ensures
        data@ == flattened(restored_chunks(password@, salt@, coords@, chunk_size as int)),
        data@.len() == restored_size(coords@, chunk_size as int),
{
    let mut parts: Vec<Vec<u8>> = Vec::new();
    for i in 0..coords.len()
        invariant
            forall|j: int|
                0 <= j < coords@.len() ==> (#[trigger] coords@[j]).index <= 32 && coords@[j].index
                    + chunk_size <= usize::MAX,
            parts@.len() == i,
            forall|j: int|
                0 <= j < i ==> (#[trigger] parts@[j])@ == restored_chunks(
                    password@,
                    salt@,
                    coords@,
                    chunk_size as int,
                )[j],
            forall|j: int|
                0 <= j < i ==> (#[trigger] parts@[j])@.len() == window_len(
                    coords@[j].index as int,
                    chunk_size as int,
                ),
    {
        let seed = compute_seed_for_chunk(password, salt, i);
        parts.push(restore_chunk(&seed, &coords[i], chunk_size));
    }
    proof {
        assert(part_contents(parts@) =~= restored_chunks(
            password@,
            salt@,
            coords@,
            chunk_size as int,
        ));
        lemma_flattened_len(part_contents(parts@), coords@, chunk_size as int);
    }
    join_chunks(&parts)
}

proof fn lemma_flattened_chunks(parts: Seq<Seq<u8>>, data: Seq<u8>, chunk_size: int, n: int)
    requires
        chunk_size > 0,
        0 <= n <= parts.len(),
        n * chunk_size <= data.len(),
        forall|i: int| 0 <= i < n ==> #[trigger] parts[i] == chunk_of(data, chunk_size, i),
    ensures
        flattened(parts.take(n)) == data.take(n * chunk_size),
    decreases n,
{
    if n == 0 {
        assert(data.take(0 * chunk_size) =~= Seq::empty());
    } else {
        assert((n - 1) * chunk_size + chunk_size == n * chunk_size) by (nonlinear_arith);
        assert((n - 1) * chunk_size >= 0) by (nonlinear_arith)
            requires
                n >= 1,
                chunk_size > 0,
        ;
        lemma_flattened_chunks(parts, data, chunk_size, n - 1);
        assert(parts.take(n).drop_last() =~= parts.take(n - 1));
        assert(parts[n - 1] == chunk_of(data, chunk_size, n - 1));
        assert(data.take(n * chunk_size) =~= data.take((n - 1) * chunk_size) + chunk_of(
            data,
            chunk_size,
            n - 1,
        ));
    }
}

/// Restoring coordinates that locate every chunk gives the data back, followed by nothing
/// if the data fills its last chunk, and otherwise by what the last hash holds behind it.
pub proof fn law_data_restored(
    password: Seq<u8>,
    salt: Seq<u8>,
    data: Seq<u8>,
    coords: Seq<MatchCoord>,
    chunk_size: int,
)
    requires
        chunk_size > 0,
        encrypts(password, salt, data, coords, chunk_size),
    ensures
        ({
            let out = flattened(restored_chunks(password, salt, coords, chunk_size));
            &&& out.len() >= data.len()
            &&& out.take(data.len() as int) == data
            &&& data.len() % chunk_size as nat == 0 ==> out == data
        }),
{
    let parts = restored_chunks(password, salt, coords, chunk_size);
    let len = data.len() as int;
    let full = len / chunk_size;
    vstd::arithmetic::div_mod::lemma_fundamental_div_mod(len, chunk_size);
    vstd::arithmetic::div_mod::lemma_mod_bound(len, chunk_size);
    assert(full * chunk_size == chunk_size * full) by (nonlinear_arith);
    assert(full >= 0) by (nonlinear_arith)
        requires
            full == len / chunk_size,
            len >= 0,
            chunk_size > 0,
    ;
    assert forall|i: int| 0 <= i < full implies #[trigger] parts[i] == chunk_of(data, chunk_size, i) by {
        assert((i + 1) * chunk_size <= full * chunk_size) by (nonlinear_arith)
            requires
                i + 1 <= full,
                chunk_size > 0,
        ;
        assert((i + 1) * chunk_size == i * chunk_size + chunk_size) by (nonlinear_arith);
        assert(i * chunk_size >= 0) by (nonlinear_arith)
            requires
                i >= 0,
                chunk_size > 0,
        ;
        assert(located(
            chunk_seed(password, salt, i as nat),
            chunk_of(data, chunk_size, i),
            coords[i],
        ));
        law_chunk_restored(
            chunk_seed(password, salt, i as nat),
            chunk_of(data, chunk_size, i),
            coords[i],
            chunk_size,
        );
    }
    lemma_flattened_chunks(parts, data, chunk_size, full);
    if len % chunk_size == 0 {
        assert(parts.take(full) =~= parts);
        assert(data.take(len) =~= data);
    } else {
        let last = chunk_of(data, chunk_size, full);
        assert((full + 1) * chunk_size == full * chunk_size + chunk_size) by (nonlinear_arith);
        assert(located(chunk_seed(password, salt, full as nat), last, coords[full]));
        law_chunk_restored(
            chunk_seed(password, salt, full as nat),
            last,
            coords[full],
            chunk_size,
        );
        assert(parts.drop_last() =~= parts.take(full));
        assert(flattened(parts).take(len) =~= data.take(full * chunk_size) + last);
        assert(data =~= data.take(full * chunk_size) + last);
    }
}

} // verus!
