//! Estimates of archive sizes.
//!
//! A hash has `33 - n` places for a chunk of `n` bytes, so a chunk takes `256^n / (33 - n)`
//! hashes on average. The estimates go by that average.

use vstd::arithmetic::power::{lemma_pow_increases, pow};
use vstd::prelude::*;
use crate::codec::HEADER_LEN;
use crate::scanner::{chunk_count, chunks_of};

verus! {

/// The largest chunk size that is estimated.
pub const MAX_ESTIMATED: usize = 4;

/// Length of what a text archive holds besides its coordinates, about.
pub const TEXT_HEADER_LEN: usize = 120;

/// Number of places for a chunk in a hash.
pub open spec fn places(chunk_size: int) -> int {
    33 - chunk_size
}

/// The average number of misses for a chunk, times the number of places.
pub open spec fn scaled_misses(chunk_size: int) -> int {
    pow(256, chunk_size as nat) - places(chunk_size)
}

/// `digits` is the logarithm to base ten of the average number of misses, rounded up; it is 1
/// where that number is not above 1.
pub open spec fn miss_digits(chunk_size: int, digits: int) -> bool {
    let w = places(chunk_size);
    let m = scaled_misses(chunk_size);
    if m > w {
        digits >= 1 && pow(10, (digits - 1) as nat) * w < m <= pow(10, digits as nat) * w
    } else {
        digits == 1
    }
}

/// Bytes that the average number of misses takes at seven bits each, three at most.
pub open spec fn miss_bytes(chunk_size: int) -> int {
    let w = places(chunk_size);
    let m = scaled_misses(chunk_size);
    if m < 128 * w {
        1
    } else if m < 16384 * w {
        2
    } else {
        3
    }
}

/// Estimates for one chunk size.
#[derive(Debug, Clone, Copy, PartialEq, Eq)]
pub struct SizeEstimate {
    pub chunks: usize,
    /// Digits of a zero run in text.
    pub run_digits: usize,
    /// Bytes of a zero run, packed by the byte.
    pub run_bytes: usize,
    /// Size of a text archive.
    pub text_size: u128,
    /// Size of the coordinates, packed by the byte.
    pub raw_coords: u128,
    /// Size of a binary archive that holds them as they are.
    pub raw_size: u128,
}

/// A zero run has 1, 4, 6 and 9 digits on average for chunks of one to four bytes, and takes 1,
/// 2, 3 and 3 bytes.
pub proof fn law_estimated_runs(chunk_size: int, digits: int)
    requires
        1 <= chunk_size <= 4,
        miss_digits(chunk_size, digits),
    ensures
        digits == if chunk_size == 1 {
            1int
        } else if chunk_size == 2 {
            4
        } else if chunk_size == 3 {
            6
        } else {
            9
        },
        miss_bytes(chunk_size) == if chunk_size == 1 {
            1int
        } else if chunk_size == 2 {
            2
        } else {
            3
        },
{
    reveal_with_fuel(pow, 11);
    let w = places(chunk_size);
    let m = scaled_misses(chunk_size);
    let d: int = if chunk_size == 1 {
        1
    } else if chunk_size == 2 {
        4
    } else if chunk_size == 3 {
        6
    } else {
        9
    };
    assert(pow(256, 1) == 256 && pow(256, 2) == 65_536 && pow(256, 3) == 16_777_216 && pow(256, 4)
        == 4_294_967_296);
    assert(pow(10, 0) == 1 && pow(10, 1) == 10 && pow(10, 3) == 1000 && pow(10, 4) == 10_000 && pow(10, 5)
        == 100_000 && pow(10, 6) == 1_000_000 && pow(10, 8) == 100_000_000 && pow(10, 9)
        == 1_000_000_000);
    assert(pow(10, (d - 1) as nat) * w < m <= pow(10, d as nat) * w);
    if digits < d {
        lemma_pow_increases(10, digits as nat, (d - 1) as nat);
        let a = pow(10, digits as nat);
        let b = pow(10, (d - 1) as nat);
        assert(a * w <= b * w) by (nonlinear_arith)
            requires
                a <= b,
                w > 0,
        ;
    } else if digits > d {
        lemma_pow_increases(10, d as nat, (digits - 1) as nat);
        let a = pow(10, d as nat);
        let b = pow(10, (digits - 1) as nat);
        assert(a * w <= b * w) by (nonlinear_arith)
            requires
                a <= b,
                w > 0,
        ;
    }
}

/// Estimates the archives of `len` bytes of data.
pub fn estimate(len: usize, chunk_size: usize) -> (e: SizeEstimate)
    requires
        1 <= chunk_size <= MAX_ESTIMATED,
    ensures
        e.chunks == chunks_of(len as nat, chunk_size as nat),
        miss_digits(chunk_size as int, e.run_digits as int),
        e.run_bytes == miss_bytes(chunk_size as int),
        e.text_size == TEXT_HEADER_LEN + e.chunks * (e.run_digits + 12),
        e.raw_coords == e.chunks * (e.run_bytes + 2),
        e.raw_size == HEADER_LEN + e.raw_coords,
        e.chunks * chunk_size >= len,
        e.chunks > 0 ==> (e.chunks - 1) * chunk_size < len,
        chunk_size == 1 ==> e.text_size == 120 + 13 * e.chunks && e.raw_size == 57 + 3 * e.chunks,
        chunk_size == 2 ==> e.text_size == 120 + 16 * e.chunks && e.raw_size == 57 + 4 * e.chunks,
        chunk_size == 3 ==> e.text_size == 120 + 18 * e.chunks && e.raw_size == 57 + 5 * e.chunks,
        chunk_size == 4 ==> e.text_size == 120 + 21 * e.chunks && e.raw_size == 57 + 5 * e.chunks,
{
    let chunks: usize = chunk_count(len, chunk_size);
    let w: u64 = 33 - chunk_size as u64;
    let total: u64 = if chunk_size == 1 {
        256
    } else if chunk_size == 2 {
        65_536
    } else if chunk_size == 3 {
        16_777_216
    } else {
        4_294_967_296
    };
    proof {
        reveal_with_fuel(pow, 5);
    }
    let misses: u64 = total - w;
    assert(misses == scaled_misses(chunk_size as int));
    let mut run_digits: usize = 1;
    let mut power: u64 = 10;
    assert(pow(10, 0) == 1 && pow(10, 1) == 10);
    while power * w < misses
        invariant
            29 <= w <= 32,
            w < misses <= 4_294_967_296,
            1 <= run_digits <= power,
            10 <= power < 10 * misses,
            power == pow(10, run_digits as nat),
            pow(10, (run_digits - 1) as nat) * w < misses,
            power * w <= u64::MAX,
        decreases 10 * misses - power,
    {
        assert(power < misses) by (nonlinear_arith)
            requires
                power * w < misses,
                w >= 29,
        ;
        proof {
            reveal_with_fuel(pow, 2);
        }
        power = power * 10;
        run_digits = run_digits + 1;
        assert(power * w <= 42_949_672_960 * 32) by (nonlinear_arith)
            requires
                power <= 42_949_672_960,
                w <= 32,
        ;
    }
    let run_bytes: usize = if misses < 128 * w {
        1
    } else if misses < 16384 * w {
        2
    } else {
        3
    };
    proof {
        law_estimated_runs(chunk_size as int, run_digits as int);
    }
    let n: u128 = chunks as u128;
    let per_text: u128 = run_digits as u128 + 12;
    let per_raw: u128 = run_bytes as u128 + 2;
    assert(n * per_text <= 0xffff_ffff_ffff_ffff * 42_949_672_972 && n * per_raw <= 0xffff_ffff_ffff_ffff
        * 5) by (nonlinear_arith)
        requires
            n <= 0xffff_ffff_ffff_ffff,
            per_text <= 42_949_672_972,
            per_raw <= 5,
    ;
    let text_size: u128 = TEXT_HEADER_LEN as u128 + n * per_text;
    let raw_coords: u128 = n * per_raw;
    proof {
        let a = per_text as int;
        let b = per_raw as int;
        assert(n * a == a * n && n * b == b * n) by (nonlinear_arith);
        if chunk_size == 1 {
            assert(a == 13 && b == 3);
        } else if chunk_size == 2 {
            assert(a == 16 && b == 4);
        } else if chunk_size == 3 {
            assert(a == 18 && b == 5);
        } else {
            assert(a == 21 && b == 5);
        }
    }
    SizeEstimate {
        chunks,
        run_digits,
        run_bytes,
        text_size,
        raw_coords,
        raw_size: HEADER_LEN as u128 + raw_coords,
    }
}

} // verus!
