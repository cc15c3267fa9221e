//! Coordinates as Golomb-Rice coded bit fields.

use vstd::prelude::*;
use vstd::arithmetic::power2::{lemma2_to64, lemma2_to64_rest, lemma_pow2_pos, pow2};
use crate::bits::{
    BitReader, BitStream, BitWriter, bits_value, bytes_bits, empty_stream, lemma_bits_value_bound, packed,
    written,
};

verus! {

/// Where a chunk was found: the number of hashes that did not hold it, and its byte position
/// in the one that did.
#[derive(Debug, Clone, Copy, PartialEq, Eq)]
pub struct MatchCoord {
    pub misses: u64,
    pub index: usize,
}

/// The largest chunk size whose Rice remainders fit the bit buffer.
pub const MAX_CHUNK_SIZE: u8 = 7;

/// The Rice parameter for a chunk size: the binary logarithm of `ln 2` times the average
/// number of hashes per chunk, `256^chunk_size / (33 - chunk_size)`, rounded.
pub open spec fn rice_k(chunk_size: u8) -> nat {
    if chunk_size == 0 {
        0
    } else if chunk_size == 1 {
        2
    } else {
        (8 * chunk_size - 5) as nat
    }
}

/// The Rice parameter for a chunk size.
pub fn get_rice_k(chunk_size: u8) -> (k: u8)
    requires
        chunk_size <= MAX_CHUNK_SIZE,
    ensures
        k == rice_k(chunk_size),
        k <= 51,
{
    if chunk_size == 0 {
        0
    } else if chunk_size == 1 {
        2
    } else {
        8 * chunk_size - 5
    }
}

/// `10^18 ln 2`, rounded down.
pub open spec fn ln2_scaled() -> int {
    693147180559945309
}

/// The Rice parameter `k` is the logarithm rounded: with `x = ln 2 * 256^n / (33 - n)`,
/// `2^(k - 1/2) <= x < 2^(k + 1/2)`, here squared and without fractions. The bounds hold
/// for `ln 2` rounded down and for `ln 2` rounded up.
pub proof fn law_rice_k_is_rounded_logarithm(n: u8)
    requires
        1 <= n <= MAX_CHUNK_SIZE,
    ensures
        ({
            let scale = (33 - n) * 1_000_000_000_000_000_000;
            let lo = ln2_scaled() * pow2((8 * n) as nat);
            let hi = (ln2_scaled() + 1) * pow2((8 * n) as nat);
            let step = pow2((2 * rice_k(n)) as nat);
            &&& step * (scale * scale) <= 2 * (lo * lo)
            &&& hi * hi < 2 * (step * (scale * scale))
        }),
{
    lemma2_to64();
    lemma2_to64_rest();
    let k = rice_k(n);
    vstd::arithmetic::power2::lemma_pow2_adds(k, k);
    let q = pow2(k);
    let p = pow2((8 * n) as nat);
    let scale = (33 - n) * 1_000_000_000_000_000_000;
    let lo = ln2_scaled() * p;
    let hi = (ln2_scaled() + 1) * p;
    let step = pow2((2 * k) as nat);
    assert(step == q * q);
    if n == 1 {
        assert(step * (scale * scale) <= 2 * (lo * lo) && hi * hi < 2 * (step * (scale * scale)))
            by (nonlinear_arith)
            requires
                step == q * q,
                q == 0x4,
                scale == 32000000000000000000,
                lo == 693147180559945309 * p,
                hi == 693147180559945310 * p,
                p == 0x100,
        ;
    } else if n == 2 {
        assert(step * (scale * scale) <= 2 * (lo * lo) && hi * hi < 2 * (step * (scale * scale)))
            by (nonlinear_arith)
            requires
                step == q * q,
                q == 0x800,
                scale == 31000000000000000000,
                lo == 693147180559945309 * p,
                hi == 693147180559945310 * p,
                p == 0x10000,
        ;
    } else if n == 3 {
        assert(step * (scale * scale) <= 2 * (lo * lo) && hi * hi < 2 * (step * (scale * scale)))
            by (nonlinear_arith)
            requires
                step == q * q,
                q == 0x80000,
                scale == 30000000000000000000,
                lo == 693147180559945309 * p,
                hi == 693147180559945310 * p,
                p == 0x1000000,
        ;
    } else if n == 4 {
        assert(step * (scale * scale) <= 2 * (lo * lo) && hi * hi < 2 * (step * (scale * scale)))
            by (nonlinear_arith)
            requires
                step == q * q,
                q == 0x8000000,
                scale == 29000000000000000000,
                lo == 693147180559945309 * p,
                hi == 693147180559945310 * p,
                p == 0x100000000,
        ;
    } else if n == 5 {
        assert(step * (scale * scale) <= 2 * (lo * lo) && hi * hi < 2 * (step * (scale * scale)))
            by (nonlinear_arith)
            requires
                step == q * q,
                q == 0x800000000,
                scale == 28000000000000000000,
                lo == 693147180559945309 * p,
                hi == 693147180559945310 * p,
                p == 0x10000000000,
        ;
    } else if n == 6 {
        assert(step * (scale * scale) <= 2 * (lo * lo) && hi * hi < 2 * (step * (scale * scale)))
            by (nonlinear_arith)
            requires
                step == q * q,
                q == 0x80000000000,
                scale == 27000000000000000000,
                lo == 693147180559945309 * p,
                hi == 693147180559945310 * p,
                p == 0x1000000000000,
        ;
    } else if n == 7 {
        assert(step * (scale * scale) <= 2 * (lo * lo) && hi * hi < 2 * (step * (scale * scale)))
            by (nonlinear_arith)
            requires
                step == q * q,
                q == 0x8000000000000,
                scale == 26000000000000000000,
                lo == 693147180559945309 * p,
                hi == 693147180559945310 * p,
                p == 0x100000000000000,
        ;
    }
}

/// The stream after `q` one bits.
pub open spec fn with_ones(s: BitStream, q: nat) -> BitStream
    decreases q,
{
    if q == 0 {
        s
    } else {
        written(with_ones(s, (q - 1) as nat), 1, 1)
    }
}

/// The stream after one coordinate: the quotient of the misses in unary, closed by a zero
/// bit, their remainder in `k` bits, and the index in five bits.
pub open spec fn with_coord(s: BitStream, c: MatchCoord, k: nat) -> BitStream {
    let q = c.misses as nat / pow2(k);
    let r = (c.misses as nat % pow2(k)) as u64;
    let unary = written(with_ones(s, q), 0, 1);
    let binary = if k > 0 {
        written(unary, r, k)
    } else {
        unary
    };
    written(binary, c.index as u64, 5)
}

pub open spec fn with_coords(s: BitStream, coords: Seq<MatchCoord>, k: nat) -> BitStream
    decreases coords.len(),
{
    if coords.len() == 0 {
        s
    } else {
        with_coord(with_coords(s, coords.drop_last(), k), coords.last(), k)
    }
}

/// The packed form of a coordinate list: their number in 32 bits, then each coordinate.
pub open spec fn packed_coords(coords: Seq<MatchCoord>, chunk_size: u8) -> Seq<u8> {
    packed(
        with_coords(written(empty_stream(), coords.len() as u64, 32), coords, rice_k(chunk_size)),
    )
}

/// Packs coordinates into bytes.
pub fn coords_to_bytes(coords: &[MatchCoord], chunk_size: u8) -> (bytes: Vec<u8>)
    requires
        chunk_size <= MAX_CHUNK_SIZE,
    ensures
        bytes@ == packed_coords(coords@, chunk_size),
{
    let k: u8 = get_rice_k(chunk_size);
    let mut writer = BitWriter::new();

    // The number of coordinates tells the reader when to stop.
    writer.write(coords.len() as u64, 32);
    let ghost start = writer@;

    for i in 0..coords.len()
        invariant
            k == rice_k(chunk_size),
            k <= 51,
            writer.wf(),
            writer@ == with_coords(start, coords@.take(i as int), k as nat),
    {
        let coord = coords[i];
        let width: u64 = k as u64;
        proof {
            vstd::bits::lemma_u64_shr_is_div(coord.misses, width);
            vstd::bits::lemma_u64_low_bits_mask_is_mod(coord.misses, width as nat);
            vstd::bits::lemma_u64_pow2_no_overflow(width as nat);
            vstd::bits::lemma_u64_shl_is_mul(1, width);
            lemma_pow2_pos(width as nat);
        }
        let q: u64 = coord.misses >> width;
        let r: u64 = coord.misses & ((1u64 << width) - 1);
        let ghost here = writer@;
        for j in 0..q
            invariant
                writer.wf(),
                writer@ == with_ones(here, j as nat),
        {
            writer.write(1, 1);
        }
        writer.write(0, 1);
        if k > 0 {
            writer.write(r, k);
        }
        writer.write(coord.index as u64, 5);
        proof {
            assert(coords@.take(i + 1).drop_last() =~= coords@.take(i as int));
        }
    }
    proof {
        assert(coords@.take(coords@.len() as int) =~= coords@);
    }
    writer.finish()
}

/// Number of one bits in front.
pub open spec fn leading_ones(s: Seq<bool>) -> nat
    decreases s.len(),
{
    if s.len() > 0 && s[0] {
        1 + leading_ones(s.drop_first())
    } else {
        0
    }
}

/// A field of `n` bits in front, and what follows it.
pub open spec fn field(s: Seq<bool>, n: nat) -> Option<(nat, Seq<bool>)> {
    if s.len() < n {
        None
    } else {
        Some((bits_value(s.take(n as int)), s.skip(n as int)))
    }
}

/// A coordinate in front, and what follows it. A quotient too large for 64 bits wraps.
pub open spec fn read_coord(s: Seq<bool>, k: nat) -> Option<(MatchCoord, Seq<bool>)> {
    let q = leading_ones(s);
    if q >= s.len() {
        None
    } else {
        match field(s.skip(q as int + 1), k) {
            None => None,
            Some((r, after_r)) => match field(after_r, 5) {
                None => None,
                Some((index, rest)) => Some(
                    (
                        MatchCoord {
                            misses: ((q * pow2(k)) % 0x1_0000_0000_0000_0000 + r) as u64,
                            index: index as usize,
                        },
                        rest,
                    ),
                ),
            },
        }
    }
}

/// `n` coordinates in front.
pub open spec fn read_coords(s: Seq<bool>, n: nat, k: nat) -> Option<Seq<MatchCoord>>
    decreases n,
{
    if n == 0 {
        Some(Seq::empty())
    } else {
        match read_coord(s, k) {
            None => None,
            Some((c, rest)) => match read_coords(rest, (n - 1) as nat, k) {
                None => None,
                Some(more) => Some(seq![c] + more),
            },
        }
    }
}

/// The coordinates that packed bytes hold; nothing if the bytes end too soon.
pub open spec fn unpacked_coords(data: Seq<u8>, chunk_size: u8) -> Option<Seq<MatchCoord>> {
    match field(bytes_bits(data), 32) {
        None => None,
        Some((n, rest)) => read_coords(rest, n, rice_k(chunk_size)),
    }
}

/// The quotient shifted up and the remainder under it.
proof fn lemma_join(q: u64, r: u64, k: u64)
    requires
        k <= 51,
        r < pow2(k as nat),
    ensures
        (q << k) | r == (q * pow2(k as nat)) % 0x1_0000_0000_0000_0000 + r,
{
    vstd::bits::lemma_u64_pow2_no_overflow(k as nat);
    lemma_pow2_pos(k as nat);
    vstd::bits::lemma_u64_shl_is_mul(1, k);
    lemma2_to64();
    lemma2_to64_rest();
    let p: u64 = 1u64 << k;
    assert((q << k) | r == (q << k) + r) by (bit_vector)
        requires
            k <= 51,
            r < (1u64 << k),
    ;
    // The upper k bits of q are lost: what is left is q modulo 2^(64 - k), shifted.
    let kept: u64 = q & ((1u64 << ((64 - k) as u64)) - 1) as u64;
    if k == 0 {
        assert(q << 0u64 == q) by (bit_vector);
    } else {
        let m = (64 - k) as nat;
        vstd::bits::lemma_u64_pow2_no_overflow(m);
        vstd::bits::lemma_u64_shl_is_mul(1, m as u64);
        vstd::bits::lemma_u64_low_bits_mask_is_mod(q, m);
        lemma_pow2_pos(m);
        assert(q << k == kept << k) by (bit_vector)
            requires
                1 <= k <= 51,
                kept == q & ((1u64 << ((64 - k) as u64)) - 1) as u64,
        ;
        vstd::arithmetic::power2::lemma_pow2_adds(m, k as nat);
        assert(kept == q % pow2(m) as u64);
        let pk = pow2(k as nat) as int;
        let pm = pow2(m) as int;
        assert(pm * pk == 0x1_0000_0000_0000_0000);
        assert(kept * pk < pm * pk) by (nonlinear_arith)
            requires
                kept < pm,
                pk > 0,
        ;
        vstd::bits::lemma_u64_shl_is_mul(kept, k);
        vstd::arithmetic::div_mod::lemma_fundamental_div_mod(q as int, pm);
        let d = q as int / pm;
        assert(q * pk == (pm * pk) * d + kept * pk) by (nonlinear_arith)
            requires
                q == pm * d + kept,
        ;
        vstd::arithmetic::div_mod::lemma_fundamental_div_mod_converse(
            q * pk,
            0x1_0000_0000_0000_0000,
            d,
            kept * pk,
        );
    }
}

/// Reads packed coordinates back.
pub fn bytes_to_coords(data: &[u8], chunk_size: u8) -> (result: Result<Vec<MatchCoord>, String>)
    requires
        chunk_size <= MAX_CHUNK_SIZE,
    ensures
        match unpacked_coords(data@, chunk_size) {
            Some(coords) => result is Ok && result->Ok_0@ == coords,
            None => result is Err && result->Err_0@ == "EOF"@,
        },
{
    let k: u8 = get_rice_k(chunk_size);
    let mut reader = BitReader::new(data);
    proof {
        lemma2_to64();
        lemma2_to64_rest();
        if reader@.len() >= 32 {
            lemma_bits_value_bound(reader@.take(32));
        }
    }
    let len: usize = match reader.read(32) {
        Ok(v) => v as usize,
        Err(e) => return Err(e),
    };
    let mut coords: Vec<MatchCoord> = Vec::new();
    let ghost goal = unpacked_coords(data@, chunk_size);
    for i in 0..len
        invariant
            k == rice_k(chunk_size),
            k <= 51,
            reader.wf(),
            goal == unpacked_coords(data@, chunk_size),
            goal == (match read_coords(reader@, (len - i) as nat, k as nat) {
                Some(more) => Some(coords@ + more),
                None => None,
            }),
    {
        let ghost all = reader@;
        let mut q: u64 = 0;
        let ghost mut n: nat = 0;
        loop
            invariant_except_break
                reader.wf(),
                goal == unpacked_coords(data@, chunk_size),
                goal == (match read_coords(all, (len - i) as nat, k as nat) {
                    Some(more) => Some(coords@ + more),
                    None => None,
                }),
                i < len,
                n <= all.len(),
                reader@ == all.skip(n as int),
                leading_ones(all) == n + leading_ones(reader@),
                q == n % 0x1_0000_0000_0000_0000,
            ensures
                reader.wf(),
                n < all.len(),
                reader@ == all.skip(n as int + 1),
                leading_ones(all) == n,
                q == n % 0x1_0000_0000_0000_0000,
            decreases all.len() - n,
        {
            let ghost here = reader@;
            let bit: u64 = match reader.read_bit() {
                Ok(v) => v,
                Err(e) => return Err(e),
            };
            proof {
                assert(here.drop_first() =~= here.skip(1));
                assert(reader@ =~= all.skip(n as int + 1));
            }
            if bit == 0 {
                break;
            }
            proof {
                n = n + 1;
            }
            q = q.wrapping_add(1);
        }
        let ghost after_q = reader@;
        let r: u64 = if k > 0 {
            match reader.read(k) {
                Ok(v) => v,
                Err(e) => return Err(e),
            }
        } else {
            0
        };
        proof {
            assert(after_q.take(k as int).len() == k);
            lemma_bits_value_bound(after_q.take(k as int));
            if k == 0 {
                lemma2_to64();
                assert(after_q.skip(0) =~= after_q);
                assert(bits_value(after_q.take(0)) == 0);
            }
            lemma_join(q, r, k as u64);
            lemma_pow2_pos(k as nat);
            vstd::arithmetic::div_mod::lemma_mul_mod_noop_left(
                n as int,
                pow2(k as nat) as int,
                0x1_0000_0000_0000_0000,
            );
        }
        let misses: u64 = (q << (k as u64)) | r;
        let ghost after_r = reader@;
        proof {
            if after_r.len() >= 5 {
                lemma2_to64();
                lemma_bits_value_bound(after_r.take(5));
            }
        }
        let index: usize = match reader.read(5) {
            Ok(v) => v as usize,
            Err(e) => return Err(e),
        };
        let ghost before = coords@;
        let coord = MatchCoord { misses, index };
        coords.push(coord);
        proof {
            assert(read_coord(all, k as nat) == Some((coord, reader@)));
            match read_coords(reader@, (len - i - 1) as nat, k as nat) {
                Some(more) => {
                    assert(before + (seq![coord] + more) =~= coords@ + more);
                },
                None => {},
            }
        }
    }
    proof {
        assert(coords@ + Seq::empty() =~= coords@);
    }
    Ok(coords)
}

} // verus!
