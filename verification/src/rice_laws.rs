//! Laws of coordinate packing.

use vstd::prelude::*;
use vstd::arithmetic::power2::{lemma2_to64, lemma2_to64_rest, lemma_pow2_pos, pow2};
use crate::bits::{
    BitStream, bits_of, bytes_bits, empty_stream, lemma_bit_of_value, lemma_bits_value,
    lemma_bits_value_bound, lemma_no_upper_bits, packed, written,
};
use crate::rice::{
    MAX_CHUNK_SIZE, MatchCoord, field, leading_ones, packed_coords, read_coord, read_coords, rice_k,
    unpacked_coords, with_coord, with_coords, with_ones,
};

verus! {

/// The bits of one coordinate.
pub open spec fn coord_bits(c: MatchCoord, k: nat) -> Seq<bool> {
    Seq::new(c.misses as nat / pow2(k), |i: int| true) + seq![false] + bits_of(
        (c.misses as nat % pow2(k)) as u64,
        k,
    ) + bits_of(c.index as u64, 5)
}

/// The bits of all coordinates, one after the other.
pub open spec fn coords_bits(coords: Seq<MatchCoord>, k: nat) -> Seq<bool>
    decreases coords.len(),
{
    if coords.len() == 0 {
        Seq::empty()
    } else {
        coords_bits(coords.drop_last(), k) + coord_bits(coords.last(), k)
    }
}

/// A coordinate list that the packed form can hold: indices of five bits, and a length of 32.
pub open spec fn packable(coords: Seq<MatchCoord>) -> bool {
    &&& coords.len() < 0x1_0000_0000
    &&& forall|i: int| 0 <= i < coords.len() ==> (#[trigger] coords[i]).index < 32
}

/// Nothing is set behind the end of the stream.
spec fn clean(s: BitStream) -> bool {
    &&& s.bits.len() == 8 * (s.len / 8) + 64
    &&& forall|j: int| s.len <= j < s.bits.len() ==> !s.bits[j]
}

spec fn plain(s: BitStream) -> Seq<bool> {
    s.bits.take(s.len as int)
}

proof fn lemma_written_plain(s: BitStream, val: u64, width: nat)
    requires
        clean(s),
        width <= 57,
        val < pow2(width),
    ensures
        clean(written(s, val, width)),
        plain(written(s, val, width)) == plain(s) + bits_of(val, width),
{
    let t = written(s, val, width);
    assert forall|j: int| 0 <= j < t.bits.len() implies t.bits[j] == if j < s.len {
        s.bits[j]
    } else if j < s.len + width {
        bit_at(val, j - s.len)
    } else {
        false
    } by {
        if s.len + width <= j < 8 * (s.len / 8) + 64 {
            lemma_no_upper_bits(val, width, j - s.len);
        }
    }
    assert(plain(t) =~= plain(s) + bits_of(val, width));
}

spec fn bit_at(v: u64, i: int) -> bool {
    crate::bits::bit(v, i)
}

proof fn lemma_with_ones_plain(s: BitStream, q: nat)
    requires
        clean(s),
    ensures
        clean(with_ones(s, q)),
        plain(with_ones(s, q)) == plain(s) + Seq::new(q, |i: int| true),
    decreases q,
{
    if q == 0 {
        assert(plain(s) =~= plain(s) + Seq::new(q, |i: int| true));
    } else {
        lemma_with_ones_plain(s, (q - 1) as nat);
        lemma2_to64();
        lemma_written_plain(with_ones(s, (q - 1) as nat), 1, 1);
        assert((1u64 >> 0u64) & 1 == 1) by (bit_vector);
        assert(bits_of(1, 1) =~= seq![true]);
        assert(Seq::new(q, |i: int| true) =~= Seq::new((q - 1) as nat, |i: int| true) + seq![true]);
        assert(plain(with_ones(s, q)) =~= plain(s) + Seq::new(q, |i: int| true));
    }
}

proof fn lemma_with_coord_plain(s: BitStream, c: MatchCoord, k: nat)
    requires
        clean(s),
        k <= 57,
        c.index < 32,
    ensures
        clean(with_coord(s, c, k)),
        plain(with_coord(s, c, k)) == plain(s) + coord_bits(c, k),
{
    lemma2_to64();
    lemma_pow2_pos(k);
    let q = c.misses as nat / pow2(k);
    let r = (c.misses as nat % pow2(k)) as u64;
    vstd::arithmetic::div_mod::lemma_mod_bound(c.misses as int, pow2(k) as int);
    assert(r < pow2(k)) by {
        vstd::bits::lemma_u64_pow2_no_overflow(k);
    }
    lemma_with_ones_plain(s, q);
    let unary = written(with_ones(s, q), 0, 1);
    lemma_written_plain(with_ones(s, q), 0, 1);
    assert((0u64 >> 0u64) & 1 == 0) by (bit_vector);
    assert(bits_of(0, 1) =~= seq![false]);
    if k > 0 {
        lemma_written_plain(unary, r, k);
        lemma_written_plain(written(unary, r, k), c.index as u64, 5);
    } else {
        assert(bits_of(r, 0) =~= Seq::empty());
        lemma_written_plain(unary, c.index as u64, 5);
    }
    assert(plain(with_coord(s, c, k)) =~= plain(s) + coord_bits(c, k));
}

proof fn lemma_with_coords_plain(s: BitStream, coords: Seq<MatchCoord>, k: nat)
    requires
        clean(s),
        k <= 57,
        forall|i: int| 0 <= i < coords.len() ==> (#[trigger] coords[i]).index < 32,
    ensures
        clean(with_coords(s, coords, k)),
        plain(with_coords(s, coords, k)) == plain(s) + coords_bits(coords, k),
    decreases coords.len(),
{
    if coords.len() == 0 {
        assert(plain(s) =~= plain(s) + coords_bits(coords, k));
    } else {
        let p = coords.drop_last();
        lemma_with_coords_plain(s, p, k);
        lemma_with_coord_plain(with_coords(s, p, k), coords.last(), k);
        assert(plain(with_coords(s, coords, k)) =~= plain(s) + coords_bits(coords, k));
    }
}

proof fn lemma_coords_bits_front(coords: Seq<MatchCoord>, k: nat)
    requires
        coords.len() > 0,
    ensures
        coords_bits(coords, k) == coord_bits(coords[0], k) + coords_bits(coords.drop_first(), k),
    decreases coords.len(),
{
    if coords.len() == 1 {
        assert(coords_bits(coords.drop_last(), k) == Seq::<bool>::empty());
        assert(coords_bits(coords.drop_first(), k) == Seq::<bool>::empty());
        assert(coords_bits(coords, k) =~= coord_bits(coords[0], k) + coords_bits(
            coords.drop_first(),
            k,
        ));
    } else {
        lemma_coords_bits_front(coords.drop_last(), k);
        let more = coords.drop_first();
        assert(coords.drop_last().drop_first() =~= more.drop_last());
        assert(coords_bits(more, k) == coords_bits(more.drop_last(), k) + coord_bits(coords.last(), k));
        assert(coords_bits(coords, k) =~= coord_bits(coords[0], k) + coords_bits(
            coords.drop_first(),
            k,
        ));
    }
}

proof fn lemma_leading_ones(q: nat, rest: Seq<bool>)
    ensures
        leading_ones(Seq::new(q, |i: int| true) + (seq![false] + rest)) == q,
    decreases q,
{
    let s = Seq::new(q, |i: int| true) + (seq![false] + rest);
    if q > 0 {
        lemma_leading_ones((q - 1) as nat, rest);
        assert(s.drop_first() =~= Seq::new((q - 1) as nat, |i: int| true) + (seq![false] + rest));
    }
}

proof fn lemma_field(v: u64, n: nat, rest: Seq<bool>)
    requires
        n <= 57,
        v < pow2(n),
    ensures
        field(bits_of(v, n) + rest, n) == Some((v as nat, rest)),
{
    let s = bits_of(v, n) + rest;
    assert(s.take(n as int) =~= bits_of(v, n));
    assert(s.skip(n as int) =~= rest);
    assert forall|i: int| n <= i < 64 implies !crate::bits::bit(v, i) by {
        lemma_no_upper_bits(v, n, i);
    }
    lemma_bits_value(v, bits_of(v, n));
}

proof fn lemma_read_coord(c: MatchCoord, k: nat, rest: Seq<bool>)
    requires
        k <= 57,
        c.index < 32,
    ensures
        read_coord(coord_bits(c, k) + rest, k) == Some((c, rest)),
{
    lemma2_to64();
    lemma2_to64_rest();
    lemma_pow2_pos(k);
    vstd::bits::lemma_u64_pow2_no_overflow(k);
    let m = c.misses as nat;
    let q = m / pow2(k);
    let r = (m % pow2(k)) as u64;
    vstd::arithmetic::div_mod::lemma_mod_bound(m as int, pow2(k) as int);
    vstd::arithmetic::div_mod::lemma_fundamental_div_mod(m as int, pow2(k) as int);
    assert(q * pow2(k) == pow2(k) * q) by (nonlinear_arith);
    let ones = Seq::new(q, |i: int| true);
    let tail = bits_of(r, k) + (bits_of(c.index as u64, 5) + rest);
    let s = coord_bits(c, k) + rest;
    assert(s =~= ones + (seq![false] + tail));
    lemma_leading_ones(q, tail);
    assert(s.skip(q as int + 1) =~= tail);
    lemma_field(r, k, bits_of(c.index as u64, 5) + rest);
    lemma_field(c.index as u64, 5, rest);
    vstd::arithmetic::div_mod::lemma_small_mod((q * pow2(k)) as nat, 0x1_0000_0000_0000_0000);
}

proof fn lemma_read_coords(coords: Seq<MatchCoord>, k: nat, rest: Seq<bool>)
    requires
        k <= 57,
        forall|i: int| 0 <= i < coords.len() ==> (#[trigger] coords[i]).index < 32,
    ensures
        read_coords(coords_bits(coords, k) + rest, coords.len(), k) == Some(coords),
    decreases coords.len(),
{
    if coords.len() == 0 {
        assert(coords =~= Seq::empty());
    } else {
        let more = coords.drop_first();
        lemma_coords_bits_front(coords, k);
        assert(coords_bits(coords, k) + rest =~= coord_bits(coords[0], k) + (coords_bits(more, k) + rest));
        lemma_read_coord(coords[0], k, coords_bits(more, k) + rest);
        assert forall|i: int| 0 <= i < more.len() implies (#[trigger] more[i]).index < 32 by {
            assert(more[i] == coords[i + 1]);
        }
        lemma_read_coords(more, k, rest);
        assert(seq![coords[0]] + more =~= coords);
    }
}

proof fn lemma_packed_bits(s: BitStream)
    requires
        clean(s),
    ensures
        bytes_bits(packed(s)) == s.bits.take(8 * ((s.len + 7) / 8) as int),
{
    let n = (s.len + 7) / 8;
    assert(8 * n <= 8 * (s.len / 8) + 8);
    assert forall|j: int| 0 <= j < 8 * n implies #[trigger] bytes_bits(packed(s))[j] == s.bits[j] by {
        let b = j / 8;
        let part = s.bits.subrange(8 * b, 8 * b + 8);
        lemma_bit_of_value(part, j % 8);
        lemma_bits_value_bound(part);
        lemma2_to64();
    }
    assert(bytes_bits(packed(s)) =~= s.bits.take(8 * n as int));
}

/// The packed form of coordinates in range is the plain sequence of their bits behind their
/// number, filled up with zero bits.
pub proof fn law_packed_bits(coords: Seq<MatchCoord>, chunk_size: u8)
    requires
        packable(coords),
        chunk_size <= MAX_CHUNK_SIZE,
    ensures
        ({
            let bits = bits_of(coords.len() as u64, 32) + coords_bits(coords, rice_k(chunk_size));
            let all = bytes_bits(packed_coords(coords, chunk_size));
            &&& bits.len() <= all.len() < bits.len() + 8
            &&& all.take(bits.len() as int) == bits
            &&& forall|j: int| bits.len() <= j < all.len() ==> !all[j]
        }),
{
    let k = rice_k(chunk_size);
    lemma2_to64();
    let start = written(empty_stream(), coords.len() as u64, 32);
    assert(clean(empty_stream()));
    assert(plain(empty_stream()) =~= Seq::empty());
    lemma_written_plain(empty_stream(), coords.len() as u64, 32);
    let s = with_coords(start, coords, k);
    lemma_with_coords_plain(start, coords, k);
    lemma_packed_bits(s);
    let bits = bits_of(coords.len() as u64, 32) + coords_bits(coords, k);
    assert(plain(s) =~= bits);
    assert(s.len == bits.len());
    let all = bytes_bits(packed_coords(coords, chunk_size));
    assert(all.take(bits.len() as int) =~= bits);
}

/// Bits that begin with a number and as many coordinates as it says are read as these
/// coordinates, whatever bits follow.
pub proof fn law_unpacked_reads_bits(data: Seq<u8>, coords: Seq<MatchCoord>, rest: Seq<bool>, chunk_size: u8)
    requires
        packable(coords),
        chunk_size <= MAX_CHUNK_SIZE,
        bytes_bits(data) == bits_of(coords.len() as u64, 32) + coords_bits(coords, rice_k(chunk_size))
            + rest,
    ensures
        unpacked_coords(data, chunk_size) == Some(coords),
{
    let k = rice_k(chunk_size);
    let all = bytes_bits(data);
    assert(all =~= bits_of(coords.len() as u64, 32) + (coords_bits(coords, k) + rest));
    lemma2_to64();
    lemma_field(coords.len() as u64, 32, coords_bits(coords, k) + rest);
    lemma_read_coords(coords, k, rest);
}

/// Packed coordinates are read back as they were, if their indices are in range and their
/// number is.
pub proof fn law_coords_round_trip(coords: Seq<MatchCoord>, chunk_size: u8)
    requires
        packable(coords),
        chunk_size <= MAX_CHUNK_SIZE,
    ensures
        unpacked_coords(packed_coords(coords, chunk_size), chunk_size) == Some(coords),
{
    let k = rice_k(chunk_size);
    law_packed_bits(coords, chunk_size);
    let all = bytes_bits(packed_coords(coords, chunk_size));
    let bits = bits_of(coords.len() as u64, 32) + coords_bits(coords, k);
    let pad = all.skip(bits.len() as int);
    assert(all =~= all.take(bits.len() as int) + pad);
    assert(bits + pad =~= bits_of(coords.len() as u64, 32) + (coords_bits(coords, k) + pad));
    lemma2_to64();
    lemma_field(coords.len() as u64, 32, coords_bits(coords, k) + pad);
    lemma_read_coords(coords, k, pad);
}

proof fn lemma_all_ones(s: Seq<bool>)
    requires
        forall|i: int| 0 <= i < s.len() ==> #[trigger] s[i],
    ensures
        leading_ones(s) == s.len(),
    decreases s.len(),
{
    if s.len() > 0 {
        lemma_all_ones(s.drop_first());
    }
}

proof fn lemma_read_coord_short(c: MatchCoord, k: nat, m: int)
    requires
        0 <= m < coord_bits(c, k).len(),
    ensures
        read_coord(coord_bits(c, k).take(m), k) is None,
{
    lemma_pow2_pos(k);
    let q = c.misses as nat / pow2(k);
    assert(q >= 0) by (nonlinear_arith)
        requires
            q == c.misses as nat / pow2(k),
            pow2(k) > 0,
    ;
    let ones = Seq::new(q, |i: int| true);
    let fields = bits_of((c.misses as nat % pow2(k)) as u64, k) + bits_of(c.index as u64, 5);
    let all = coord_bits(c, k);
    assert(all =~= ones + (seq![false] + fields));
    let s = all.take(m);
    if m <= q {
        assert(s =~= ones.take(m));
        lemma_all_ones(s);
    } else {
        let tail = s.skip(q as int + 1);
        assert(tail =~= fields.take(m - q - 1));
        assert(s =~= ones + (seq![false] + tail));
        lemma_leading_ones(q, tail);
    }
}

proof fn lemma_read_coords_short(coords: Seq<MatchCoord>, k: nat, m: int)
    requires
        k <= 57,
        forall|i: int| 0 <= i < coords.len() ==> (#[trigger] coords[i]).index < 32,
        0 <= m < coords_bits(coords, k).len(),
    ensures
        read_coords(coords_bits(coords, k).take(m), coords.len(), k) is None,
    decreases coords.len(),
{
    if coords.len() > 0 {
        let more = coords.drop_first();
        let first = coord_bits(coords[0], k);
        let all = coords_bits(coords, k);
        lemma_coords_bits_front(coords, k);
        assert(all =~= first + coords_bits(more, k));
        if m < first.len() {
            assert(all.take(m) =~= first.take(m));
            lemma_read_coord_short(coords[0], k, m);
        } else {
            let rest = coords_bits(more, k).take(m - first.len());
            assert(all.take(m) =~= first + rest);
            lemma_read_coord(coords[0], k, rest);
            assert forall|i: int| 0 <= i < more.len() implies (#[trigger] more[i]).index < 32 by {
                assert(more[i] == coords[i + 1]);
            }
            lemma_read_coords_short(more, k, m - first.len());
        }
    }
}

/// Bits that end before the last of so many coordinates as they state does are refused.
pub proof fn law_unpacked_needs_all_bits(data: Seq<u8>, coords: Seq<MatchCoord>, chunk_size: u8)
    requires
        packable(coords),
        chunk_size <= MAX_CHUNK_SIZE,
        bytes_bits(data).len() < 32 + coords_bits(coords, rice_k(chunk_size)).len(),
        bytes_bits(data) == (bits_of(coords.len() as u64, 32) + coords_bits(
            coords,
            rice_k(chunk_size),
        )).take(bytes_bits(data).len() as int),
    ensures
        unpacked_coords(data, chunk_size) is None,
{
    let k = rice_k(chunk_size);
    let all = bytes_bits(data);
    lemma2_to64();
    if all.len() >= 32 {
        let rest = coords_bits(coords, k).take(all.len() - 32);
        assert(all =~= bits_of(coords.len() as u64, 32) + rest);
        lemma_field(coords.len() as u64, 32, rest);
        lemma_read_coords_short(coords, k, all.len() - 32);
    }
}

} // verus!
