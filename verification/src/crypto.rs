//! The hash dictionary: chains of BLAKE3 digests, and the search for chunks in them.

use vstd::prelude::*;
use rand::Rng;
use vstd::utf8::encode_utf8;
use crate::bytes::{le32, le64, lemma_le64, lemma_le64_apart, push_bytes, push_le32};
use crate::hex::{hex_decode, hex_decoded, pairs_cut};
use crate::text::{decimal, push_decimal, push_text};

verus! {

/// A single entry in the coordinate list.
#[derive(Debug, Clone, Copy)]
pub enum CoordEntry {
    /// Match found at this byte position within the 32-byte hash.
    Index(usize),
    /// This many consecutive misses (the hash advances without a match).
    ZeroRun(u64),
}

/// The BLAKE3 digest of some bytes.
pub uninterp spec fn blake3_digest(input: Seq<u8>) -> Seq<u8>;

/// `blake3::hash`, with the bytes of its result. Claimed is only that they are a function of
/// the input.
#[verifier::external_body]
pub(crate) fn blake3_hash(input: &[u8]) -> (digest: [u8; 32])
    ensures
        digest@ == blake3_digest(input@),
{
    *blake3::hash(input).as_bytes()
}

/// `Rng::random` for a byte, from the generator that `rand::rng` gives. Nothing is claimed of
/// the byte.
#[verifier::external_body]
fn random_byte() -> (b: u8)
{
    rand::rng().random()
}

/// A random salt: every byte of it comes from a draw. Nothing is known of their values.
pub fn generate_salt() -> (salt: [u8; 16])
    ensures
        forall|i: int| 0 <= i < 16 ==> drawn(#[trigger] salt@[i]),
{
    let mut salt: [u8; 16] = [0u8; 16];
    for i in 0..16usize
        invariant
            forall|j: int| 0 <= j < i ==> drawn(#[trigger] salt@[j]),
    {
        salt[i] = random_byte();
    }
    salt
}

/// The byte is one that a draw from the random generator can give.
pub closed spec fn drawn(b: u8) -> bool {
    call_ensures(random_byte, (), b)
}

/// The first hash of a chain: the digest of password and salt.
pub fn compute_seed(password: &[u8], salt: &[u8]) -> (hash: [u8; 32])
    ensures
        hash@ == blake3_digest(password@ + salt@),
{
    let mut input: Vec<u8> = Vec::new();
    push_bytes(&mut input, password);
    push_bytes(&mut input, salt);
    proof {
        assert(input@ =~= password@ + salt@);
    }
    blake3_hash(input.as_slice())
}

/// The first hash of the chain for one chunk: the digest of password, salt and the number of
/// the chunk in eight bytes.
pub open spec fn chunk_seed(password: Seq<u8>, salt: Seq<u8>, chunk_idx: nat) -> Seq<u8> {
    blake3_digest(password + salt + le64(chunk_idx as u64))
}

/// The first hash of a chunk's chain is the digest of all bytes of the password, all bytes of
/// the salt and the eight bytes of the chunk's number, least significant first.
pub proof fn law_seed_takes_all(password: Seq<u8>, salt: Seq<u8>, chunk_idx: usize)
    ensures
        chunk_seed(password, salt, chunk_idx as nat) == blake3_digest(
            password + salt + seq![
                (chunk_idx as nat % 256) as u8,
                (chunk_idx as nat / 0x100 % 256) as u8,
                (chunk_idx as nat / 0x1_0000 % 256) as u8,
                (chunk_idx as nat / 0x100_0000 % 256) as u8,
                (chunk_idx as nat / 0x1_0000_0000 % 256) as u8,
                (chunk_idx as nat / 0x100_0000_0000 % 256) as u8,
                (chunk_idx as nat / 0x1_0000_0000_0000 % 256) as u8,
                (chunk_idx as nat / 0x100_0000_0000_0000 % 256) as u8,
            ],
        ),
{
    lemma_le64(chunk_idx as u64);
}

/// What goes into the first hash of a chunk's chain tells passwords, salts and chunks apart:
/// with lengths alike it is the same only for the same password, salt and number. It is as
/// long as all of them together.
pub proof fn law_seed_input_tells_apart(
    password_a: Seq<u8>,
    password_b: Seq<u8>,
    salt_a: Seq<u8>,
    salt_b: Seq<u8>,
    idx_a: usize,
    idx_b: usize,
)
    requires
        password_a.len() == password_b.len(),
        salt_a.len() == salt_b.len(),
    ensures
        ({
            let a = password_a + salt_a + le64(idx_a as u64);
            let b = password_b + salt_b + le64(idx_b as u64);
            &&& chunk_seed(password_a, salt_a, idx_a as nat) == blake3_digest(a)
            &&& chunk_seed(password_b, salt_b, idx_b as nat) == blake3_digest(b)
            &&& a.len() == password_a.len() + salt_a.len() + 8
            &&& a == b ==> password_a == password_b && salt_a == salt_b && idx_a == idx_b
        }),
{
    let a = password_a + salt_a + le64(idx_a as u64);
    let b = password_b + salt_b + le64(idx_b as u64);
    let p = password_a.len() as int;
    let s = salt_a.len() as int;
    assert(le64(idx_a as u64).len() == 8);
    assert(le64(idx_b as u64).len() == 8);
    if a == b {
        assert(password_a =~= a.take(p));
        assert(password_b =~= b.take(p));
        assert(salt_a =~= a.subrange(p, p + s));
        assert(salt_b =~= b.subrange(p, p + s));
        assert(le64(idx_a as u64) =~= a.skip(p + s));
        assert(le64(idx_b as u64) =~= b.skip(p + s));
        lemma_le64_apart(idx_a as u64, idx_b as u64);
    }
}

/// The first hash of the chain for one chunk.
pub fn compute_seed_for_chunk(password: &[u8], salt: &[u8], chunk_idx: usize) -> (hash: [u8; 32])
    ensures
        hash@ == chunk_seed(password@, salt@, chunk_idx as nat),
        hash@ == blake3_digest(
            password@ + salt@ + seq![
                (chunk_idx as nat % 256) as u8,
                (chunk_idx as nat / 0x100 % 256) as u8,
                (chunk_idx as nat / 0x1_0000 % 256) as u8,
                (chunk_idx as nat / 0x100_0000 % 256) as u8,
                (chunk_idx as nat / 0x1_0000_0000 % 256) as u8,
                (chunk_idx as nat / 0x100_0000_0000 % 256) as u8,
                (chunk_idx as nat / 0x1_0000_0000_0000 % 256) as u8,
                (chunk_idx as nat / 0x100_0000_0000_0000 % 256) as u8,
            ],
        ),
{
    proof {
        law_seed_takes_all(password@, salt@, chunk_idx);
    }
    let n: u64 = chunk_idx as u64;
    let mut input: Vec<u8> = Vec::new();
    push_bytes(&mut input, password);
    push_bytes(&mut input, salt);
    push_le32(&mut input, n % 0x1_0000_0000);
    push_le32(&mut input, n / 0x1_0000_0000);
    proof {
        assert(input@ =~= password@ + salt@ + le64(n));
    }
    blake3_hash(input.as_slice())
}

/// The hash after `hash` in its chain: its digest.
pub fn advance_hash(hash: &[u8; 32]) -> (next: [u8; 32])
    ensures
        next@ == blake3_digest(hash@),
{
    blake3_hash(hash.as_slice())
}

/// The hash that follows a match at `index`: the digest of the hash and the index in four
/// bytes.
pub fn vectorize_hash(hash: &[u8; 32], index: usize) -> (next: [u8; 32])
    ensures
        next@ == blake3_digest(hash@ + le32(index as nat)),
        next@ == blake3_digest(
            hash@ + seq![
                (index as nat % 256) as u8,
                (index as nat / 0x100 % 256) as u8,
                (index as nat / 0x1_0000 % 256) as u8,
                (index as nat / 0x100_0000 % 256) as u8,
            ],
        ),
{
    let mut input: Vec<u8> = Vec::new();
    push_bytes(&mut input, hash.as_slice());
    push_le32(&mut input, index as u64);
    proof {
        assert(input@ =~= hash@ + le32(index as nat));
    }
    blake3_hash(input.as_slice())
}

/// `chunk` stands at position `at` of `hash`. An empty chunk stands nowhere.
pub open spec fn occurs_at(hash: Seq<u8>, chunk: Seq<u8>, at: int) -> bool {
    &&& chunk.len() > 0
    &&& 0 <= at
    &&& at + chunk.len() <= hash.len()
    &&& hash.subrange(at, at + chunk.len()) == chunk
}

/// `at` is the first position of `chunk` in `hash`.
pub open spec fn first_at(hash: Seq<u8>, chunk: Seq<u8>, at: int) -> bool {
    &&& occurs_at(hash, chunk, at)
    &&& forall|p: int| 0 <= p < at ==> !occurs_at(hash, chunk, p)
}

/// `chunk` stands nowhere in `hash`.
pub open spec fn absent(hash: Seq<u8>, chunk: Seq<u8>) -> bool {
    forall|p: int| !occurs_at(hash, chunk, p)
}

/// The first position of a chunk holds its bytes, one by one, and no earlier place of the hash
/// does.
pub proof fn law_first_at_is_first(hash: Seq<u8>, chunk: Seq<u8>, at: int, p: int)
    requires
        first_at(hash, chunk, at),
        0 <= p <= hash.len() - chunk.len(),
        forall|j: int| 0 <= j < chunk.len() ==> hash[p + j] == #[trigger] chunk[j],
    ensures
        chunk.len() >= 1,
        0 <= at <= p,
        forall|j: int| 0 <= j < chunk.len() ==> hash[at + j] == #[trigger] chunk[j],
{
    assert(hash.subrange(p, p + chunk.len()) =~= chunk);
    assert(occurs_at(hash, chunk, p));
    assert forall|j: int| 0 <= j < chunk.len() implies hash[at + j] == #[trigger] chunk[j] by {
        assert(hash.subrange(at, at + chunk.len())[j] == hash[at + j]);
    }
}

/// A place whose bytes are the chunk's and before which there is no such place is the first
/// position of the chunk.
pub proof fn law_first_place_is_first_at(hash: Seq<u8>, chunk: Seq<u8>, at: int)
    requires
        chunk.len() >= 1,
        0 <= at <= hash.len() - chunk.len(),
        forall|j: int| 0 <= j < chunk.len() ==> hash[at + j] == #[trigger] chunk[j],
        forall|p: int|
            #![trigger hash[p]]
            0 <= p < at ==> exists|j: int| 0 <= j < chunk.len() && hash[p + j] != #[trigger] chunk[j],
    ensures
        first_at(hash, chunk, at),
        !absent(hash, chunk),
{
    assert(hash.subrange(at, at + chunk.len()) =~= chunk);
    assert(occurs_at(hash, chunk, at));
    assert forall|p: int| 0 <= p < at implies !occurs_at(hash, chunk, p) by {
        let here = hash[p];
        let j = choose|j: int| 0 <= j < chunk.len() && hash[p + j] != #[trigger] chunk[j];
        assert(hash.subrange(p, p + chunk.len())[j] == hash[p + j]);
    }
}

/// A chunk that is absent differs in some byte from every place of the hash that is long
/// enough.
pub proof fn law_absent_is_nowhere(hash: Seq<u8>, chunk: Seq<u8>, p: int)
    requires
        absent(hash, chunk),
        chunk.len() >= 1,
        0 <= p <= hash.len() - chunk.len(),
    ensures
        exists|j: int| 0 <= j < chunk.len() && hash[p + j] != #[trigger] chunk[j],
{
    if forall|j: int| 0 <= j < chunk.len() ==> hash[p + j] == #[trigger] chunk[j] {
        assert(hash.subrange(p, p + chunk.len()) =~= chunk);
        assert(occurs_at(hash, chunk, p));
    }
}

fn stands_at(hash_bytes: &[u8; 32], chunk: &[u8], at: usize) -> (b: bool)
    requires
        1 <= chunk@.len(),
        at + chunk@.len() <= 32,
    ensures
        b == occurs_at(hash_bytes@, chunk@, at as int),
{
    let ghost here = hash_bytes@.subrange(at as int, at + chunk@.len());
    for i in 0..chunk.len()
        invariant
            at + chunk@.len() <= 32,
            here == hash_bytes@.subrange(at as int, at + chunk@.len()),
            forall|j: int| 0 <= j < i ==> here[j] == chunk@[j],
    {
        if hash_bytes[at + i] != chunk[i] {
            proof {
                assert(here[i as int] != chunk@[i as int]);
            }
            return false;
        }
    }
    proof {
        assert(here =~= chunk@);
    }
    true
}

/// Searches for `chunk` as a contiguous part of the hash, from the front.
pub fn find_chunk_in_hash(hash_bytes: &[u8; 32], chunk: &[u8]) -> (found: Option<usize>)
    ensures
        match found {
            Some(at) => first_at(hash_bytes@, chunk@, at as int),
            None => absent(hash_bytes@, chunk@),
        },
        found matches Some(at) ==> {
            &&& 1 <= chunk@.len() <= 32 - at
            &&& forall|j: int| 0 <= j < chunk@.len() ==> #[trigger] hash_bytes@[at + j] == chunk@[j]
        },
        forall|p: int|
            0 <= p <= 32 - chunk@.len() && chunk@.len() >= 1 && #[trigger] hash_bytes@.subrange(
                p,
                p + chunk@.len(),
            ) == chunk@ ==> found is Some && found->0 <= p,
{
    if chunk.len() == 0 || chunk.len() > 32 {
        return None;
    }
    let last: usize = 32 - chunk.len();
    for at in 0..last + 1
        invariant
            1 <= chunk@.len() <= 32,
            last == 32 - chunk@.len(),
            forall|p: int| 0 <= p < at ==> !occurs_at(hash_bytes@, chunk@, p),
    {
        if stands_at(hash_bytes, chunk, at) {
            proof {
                assert forall|j: int| 0 <= j < chunk@.len() implies #[trigger] hash_bytes@[at + j]
                    == chunk@[j] by {
                    assert(hash_bytes@.subrange(at as int, at + chunk@.len())[j] == hash_bytes@[at + j]);
                }
                assert forall|p: int|
                    0 <= p <= 32 - chunk@.len() && #[trigger] hash_bytes@.subrange(p, p + chunk@.len())
                        == chunk@ implies at <= p by {
                    assert(occurs_at(hash_bytes@, chunk@, p));
                }
            }
            return Some(at);
        }
    }
    proof {
        assert forall|p: int| 0 <= p <= 32 - chunk@.len() implies #[trigger] hash_bytes@.subrange(
            p,
            p + chunk@.len(),
        ) != chunk@ by {
            assert(!occurs_at(hash_bytes@, chunk@, p));
        }
    }
    None
}

/// The hash `n` steps after `hash` in its chain.
pub open spec fn chain(hash: Seq<u8>, n: nat) -> Seq<u8>
    decreases n,
{
    if n == 0 {
        hash
    } else {
        blake3_digest(chain(hash, (n - 1) as nat))
    }
}

/// A chain begins with its hash, and every hash is followed by its digest.
pub proof fn law_chain_steps(hash: Seq<u8>, n: nat)
    ensures
        chain(hash, 0) == hash,
        chain(hash, n + 1) == blake3_digest(chain(hash, n)),
        chain(hash, n + 1) == chain(blake3_digest(hash), n),
    decreases n,
{
    if n > 0 {
        law_chain_steps(hash, (n - 1) as nat);
    } else {
        assert(chain(hash, 1) == blake3_digest(chain(hash, 0)));
    }
}

/// Advances a hash `n` steps.
pub fn advance_many(hash: &[u8; 32], n: u64) -> (result: [u8; 32])
    ensures
        result@ == chain(hash@, n as nat),
{
    let mut current: [u8; 32] = *hash;
    for i in 0..n
        invariant
            current@ == chain(hash@, i as nat),
    {
        current = advance_hash(&current);
    }
    current
}

/// The part of a hash that an index stands for: `chunk_size` bytes, or what the hash has left.
pub open spec fn window(hash: Seq<u8>, index: int, chunk_size: int) -> Seq<u8> {
    hash.subrange(
        index,
        if index + chunk_size < hash.len() {
            index + chunk_size
        } else {
            hash.len() as int
        },
    )
}

/// Cuts the part of a hash that an index stands for.
pub fn read_window(hash_bytes: &[u8; 32], index: usize, chunk_size: usize) -> (part: Vec<u8>)
    requires
        index <= 32,
        index + chunk_size <= usize::MAX,
    ensures
        part@ == window(hash_bytes@, index as int, chunk_size as int),
        part@.len() == window_len(index as int, chunk_size as int),
        part@.len() == if index + chunk_size <= 32 { chunk_size as int } else { 32 - index },
        forall|j: int| 0 <= j < part@.len() ==> part@[j] == #[trigger] hash_bytes@[index + j],
{
    let end: usize = if index + chunk_size < 32 { index + chunk_size } else { 32 };
    let mut part: Vec<u8> = Vec::new();
    for i in index..end
        invariant
            index <= end <= 32,
            part@ == hash_bytes@.subrange(index as int, i as int),
    {
        part.push(hash_bytes[i]);
        proof {
            assert(part@ =~= hash_bytes@.subrange(index as int, i + 1));
        }
    }
    part
}

/// What a coordinate list stands for from a hash on: every index gives its part of the hash
/// and moves on to the digest of hash and index; every zero run advances the hash. The first
/// index outside of the hash is the error.
pub open spec fn restored(hash: Seq<u8>, coords: Seq<CoordEntry>, chunk_size: int) -> Result<
    Seq<u8>,
    usize,
>
    decreases coords.len(),
{
    if coords.len() == 0 {
        Ok(Seq::empty())
    } else {
        match coords[0] {
            CoordEntry::ZeroRun(n) => restored(chain(hash, n as nat), coords.drop_first(), chunk_size),
            CoordEntry::Index(at) => if at >= 32 {
                Err(at)
            } else {
                match restored(
                    blake3_digest(hash + le32(at as nat)),
                    coords.drop_first(),
                    chunk_size,
                ) {
                    Ok(more) => Ok(window(hash, at as int, chunk_size) + more),
                    Err(e) => Err(e),
                }
            },
        }
    }
}

/// Length of the part of a hash that an index stands for.
pub open spec fn window_len(index: int, chunk_size: int) -> int {
    if chunk_size < 32 - index {
        chunk_size
    } else {
        32 - index
    }
}

/// Length of what a coordinate list stands for: the parts of all its indices together.
pub open spec fn restored_len(coords: Seq<CoordEntry>, chunk_size: int) -> int
    decreases coords.len(),
{
    if coords.len() == 0 {
        0
    } else {
        let rest = restored_len(coords.drop_first(), chunk_size);
        match coords[0] {
            CoordEntry::ZeroRun(_) => rest,
            CoordEntry::Index(at) => window_len(at as int, chunk_size) + rest,
        }
    }
}

/// Message for an index outside of the hash.
pub open spec fn bad_index_message(at: usize) -> Seq<char> {
    "Index "@ + decimal(at as nat) + " out of range (hash is 32 bytes)"@
}

/// No index up to the first one outside of the hash overflows when the chunk size is added.
pub open spec fn ends_fit(coords: Seq<CoordEntry>, chunk_size: usize) -> bool {
    forall|i: int|
        0 <= i < coords.len() && #[trigger] coords[i] is Index && (forall|j: int|
            0 <= j < i && #[trigger] coords[j] is Index ==> coords[j]->Index_0 < 32)
            ==> coords[i]->Index_0 + chunk_size <= usize::MAX
}

/// Reconstructs data from a coordinate list.
pub fn decrypt(salt_hex: &str, password: &str, coords: &[CoordEntry], chunk_size: usize) -> (result: Result<
    Vec<u8>,
    String,
>)
    requires
        pairs_cut(salt_hex@),
        hex_decoded(salt_hex@) is Ok ==> ends_fit(coords@, chunk_size),
    ensures
        match hex_decoded(salt_hex@) {
            Err(message) => result is Err && result->Err_0@ == message,
            Ok(salt) => match restored(
                blake3_digest(encode_utf8(password@) + salt),
                coords@,
                chunk_size as int,
            ) {
                Ok(data) => result is Ok && result->Ok_0@ == data,
                Err(at) => result is Err && result->Err_0@ == bad_index_message(at),
            },
        },
        result is Ok ==> result->Ok_0@.len() == restored_len(coords@, chunk_size as int),
{
    let salt = match hex_decode(salt_hex) {
        Ok(salt) => salt,
        Err(e) => return Err(e),
    };
    let mut current_hash = compute_seed(password.as_bytes(), salt.as_slice());
    let mut output: Vec<u8> = Vec::new();
    let ghost goal = restored(current_hash@, coords@, chunk_size as int);
    proof {
        assert(coords@.skip(0) =~= coords@);
        assert(match goal {
            Ok(more) => goal == Ok::<Seq<u8>, usize>(output@ + more),
            Err(at) => true,
        }) by {
            if goal is Ok {
                assert(output@ + goal->Ok_0 =~= goal->Ok_0);
            }
        }
    }
    for i in 0..coords.len()
        invariant
            ends_fit(coords@, chunk_size),
            hex_decoded(salt_hex@) == Ok::<Seq<u8>, Seq<char>>(salt@),
            goal == restored(blake3_digest(encode_utf8(password@) + salt@), coords@, chunk_size as int),
            goal == (match restored(current_hash@, coords@.skip(i as int), chunk_size as int) {
                Ok(more) => Ok(output@ + more),
                Err(at) => Err(at),
            }),
            forall|j: int| 0 <= j < i && #[trigger] coords@[j] is Index ==> coords@[j]->Index_0 < 32,
            output@.len() + restored_len(coords@.skip(i as int), chunk_size as int) == restored_len(
                coords@,
                chunk_size as int,
            ),
    {
        proof {
            assert(coords@.skip(i as int).drop_first() =~= coords@.skip(i + 1));
            assert(coords@.skip(i as int)[0] == coords@[i as int]);
        }
        match coords[i] {
            CoordEntry::ZeroRun(count) => {
                current_hash = advance_many(&current_hash, count);
            },
            CoordEntry::Index(pos) => {
                if pos >= 32 {
                    let mut message = String::new();
                    push_text(&mut message, "Index ");
                    push_decimal(&mut message, pos as u64);
                    push_text(&mut message, " out of range (hash is 32 bytes)");
                    proof {
                        assert(message@ =~= bad_index_message(pos));
                    }
                    return Err(message);
                }
                let part = read_window(&current_hash, pos, chunk_size);
                let ghost before = output@;
                push_bytes(&mut output, part.as_slice());
                let next = vectorize_hash(&current_hash, pos);
                proof {
                    match restored(next@, coords@.skip(i + 1), chunk_size as int) {
                        Ok(more) => {
                            assert(before + (part@ + more) =~= output@ + more);
                        },
                        Err(at) => {},
                    }
                }
                current_hash = next;
            },
        }
    }
    proof {
        assert(output@ + Seq::<u8>::empty() =~= output@);
    }
    Ok(output)
}

} // verus!
