//! Bit packing, least significant bit first.

use vstd::prelude::*;
use vstd::arithmetic::power2::{lemma_pow2_adds, lemma_pow2_pos, pow2};

verus! {

/// Bit `i` of `v`.
pub open spec fn bit(v: u64, i: int) -> bool {
    (v >> (i as u64)) & 1 == 1
}

/// The lowest `n` bits of `v`.
pub open spec fn bits_of(v: u64, n: nat) -> Seq<bool> {
    Seq::new(n, |i: int| bit(v, i))
}

/// The bits of `data`, byte after byte.
pub open spec fn bytes_bits(data: Seq<u8>) -> Seq<bool> {
    Seq::new(8 * data.len(), |j: int| bit(data[j / 8] as u64, j % 8))
}

/// The number that the bits write, least significant first.
pub open spec fn bits_value(s: Seq<bool>) -> nat
    decreases s.len(),
{
    if s.len() == 0 {
        0
    } else {
        (if s[0] { 1nat } else { 0nat }) + 2 * bits_value(s.drop_first())
    }
}

/// A bit stream under construction: `len` bits count as written. `bits` reaches to the end
/// of the 64-bit buffer behind the last whole byte, because a value wider than its field
/// leaves its upper bits there.
pub struct BitStream {
    pub len: nat,
    pub bits: Seq<bool>,
}

pub open spec fn empty_stream() -> BitStream {
    BitStream { len: 0, bits: Seq::new(64, |j: int| false) }
}

/// The stream after a field of `width` bits: `val` is or-ed in at the end of the stream, as
/// far as the buffer reaches.
pub open spec fn written(s: BitStream, val: u64, width: nat) -> BitStream {
    let len = s.len + width;
    BitStream {
        len,
        bits: Seq::new(
            (8 * (len / 8) + 64) as nat,
            |j: int|
                (j < s.bits.len() && s.bits[j]) || (s.len <= j < 8 * (s.len / 8) + 64 && bit(
                    val,
                    j - s.len,
                )),
        ),
    }
}

/// The bytes of a finished stream; the last one is filled up.
pub open spec fn packed(s: BitStream) -> Seq<u8> {
    Seq::new(
        ((s.len + 7) / 8) as nat,
        |b: int| bits_value(s.bits.subrange(8 * b, 8 * b + 8)) as u8,
    )
}

pub proof fn lemma_bits_value(v: u64, s: Seq<bool>)
    requires
        s.len() <= 64,
        forall|i: int| 0 <= i < s.len() ==> bit(v, i) == s[i],
        forall|i: int| s.len() <= i < 64 ==> !bit(v, i),
    ensures
        bits_value(s) == v,
    decreases s.len(),
{
    if s.len() == 0 {
        assert forall|i: u64| 0 <= i < 64 implies (v >> i) & 1 == 0 by {
            assert(!bit(v, i as int));
            let x = v >> i;
            assert(x & 1 == 0 || x & 1 == 1) by (bit_vector);
        }
        lemma_zero(v);
    } else {
        let t = s.drop_first();
        let h = v >> 1;
        assert forall|i: int| 0 <= i < 64 implies bit(h, i) == (i < 63 && bit(v, i + 1)) by {
            let k = i as u64;
            assert(k < 63 ==> ((v >> 1u64) >> k) == v >> ((k + 1) as u64)) by (bit_vector);
            assert(k == 63 ==> ((v >> 1u64) >> k) & 1 == 0) by (bit_vector);
        }
        assert forall|i: int| 0 <= i < t.len() implies bit(h, i) == t[i] by {
            assert(t[i] == s[i + 1]);
        }
        lemma_bits_value(h, t);
        assert(v == 2 * (v >> 1u64) + (v & 1)) by (bit_vector);
        assert(bit(v, 0) == s[0]);
        assert((v >> 0u64) == v) by (bit_vector);
        assert(v & 1 == 0 || v & 1 == 1) by (bit_vector);
    }
}

proof fn lemma_zero(v: u64)
    requires
        forall|i: u64| 0 <= i < 64 ==> #[trigger] (v >> i) & 1 == 0,
    ensures
        v == 0,
{
    if v != 0 {
        assert(v >> 0u64 == v) by (bit_vector);
        lemma_some_bit(v, 0);
    }
}

/// A number that is not zero above bit `from` has a bit there.
proof fn lemma_some_bit(v: u64, from: u64)
    requires
        from < 64,
        v >> from != 0,
    ensures
        exists|i: u64| 0 <= i < 64 && #[trigger] (v >> i) & 1 != 0,
    decreases 64 - from,
{
    if (v >> from) & 1 == 0 {
        assert(from == 63 && (v >> from) & 1 == 0 ==> v >> from == 0) by (bit_vector);
        assert(from < 63 && (v >> from) & 1 == 0 && v >> from != 0 ==> v >> ((from + 1) as u64) != 0) by (bit_vector);
        lemma_some_bit(v, (from + 1) as u64);
    }
}

pub proof fn lemma_bits_value_bound(s: Seq<bool>)
    ensures
        bits_value(s) < pow2(s.len()),
    decreases s.len(),
{
    if s.len() == 0 {
        vstd::arithmetic::power2::lemma2_to64();
    } else {
        lemma_bits_value_bound(s.drop_first());
        vstd::arithmetic::power2::lemma_pow2_unfold(s.len());
    }
}

/// The bits of the number that bits write are those bits.
pub proof fn lemma_bit_of_value(s: Seq<bool>, i: int)
    requires
        s.len() <= 64,
        0 <= i < s.len(),
    ensures
        bits_value(s) < 0x1_0000_0000_0000_0000,
        bit(bits_value(s) as u64, i) == s[i],
    decreases s.len(),
{
    lemma_bits_value_bound(s);
    vstd::arithmetic::power2::lemma2_to64();
    vstd::arithmetic::power2::lemma2_to64_rest();
    if s.len() < 64 {
        vstd::arithmetic::power2::lemma_pow2_strictly_increases(s.len(), 64);
    }
    let v = bits_value(s) as u64;
    let h = bits_value(s.drop_first()) as u64;
    let b: u64 = if s[0] { 1 } else { 0 };
    assert(v == 2 * h + b);
    if i == 0 {
        assert((v >> 0u64) & 1 == b) by (bit_vector)
            requires
                v == 2 * h + b,
                b <= 1,
        ;
    } else {
        lemma_bit_of_value(s.drop_first(), i - 1);
        let k = (i - 1) as u64;
        assert(v >> ((k + 1) as u64) == h >> k) by (bit_vector)
            requires
                v == 2 * h + b,
                b <= 1,
                k < 63,
        ;
    }
}

/// A number below `2^n` has no bit from `n` on.
pub proof fn lemma_no_upper_bits(v: u64, n: nat, i: int)
    requires
        v < pow2(n),
        n <= i < 64,
    ensures
        !bit(v, i),
{
    let k = i as u64;
    vstd::bits::lemma_u64_shr_is_div(v, k);
    if n < i {
        vstd::arithmetic::power2::lemma_pow2_strictly_increases(n, i as nat);
    }
    vstd::arithmetic::div_mod::lemma_basic_div(v as int, pow2(i as nat) as int);
    assert(0u64 & 1 == 0) by (bit_vector);
}

proof fn lemma_low_byte(v: u64, byte: u8, i: int)
    requires
        byte == v & 0xFF,
        0 <= i < 64,
    ensures
        bit(byte as u64, i) == (i < 8 && bit(v, i)),
{
    let k = i as u64;
    assert(k < 8 ==> ((v & 0xFF) >> k) & 1 == (v >> k) & 1) by (bit_vector);
    assert(8 <= k < 64 ==> ((v & 0xFF) >> k) & 1 == 0) by (bit_vector);
}

proof fn lemma_next_byte(v: u64, i: int)
    requires
        0 <= i < 64,
    ensures
        bit(v >> 8, i) == (i < 56 && bit(v, i + 8)),
{
    let k = i as u64;
    assert(k < 56 ==> ((v >> 8u64) >> k) == v >> ((k + 8) as u64)) by (bit_vector);
    assert(56 <= k < 64 ==> ((v >> 8u64) >> k) & 1 == 0) by (bit_vector);
}

proof fn lemma_or_shifted(v: u64, val: u64, shift: u64, i: int)
    requires
        0 <= i < 64,
        shift < 64,
    ensures
        bit(v | (val << shift), i) == (bit(v, i) || (i >= shift && bit(val, i - shift))),
{
    let k = i as u64;
    assert(((v | (val << shift)) >> k) & 1 == (((v >> k) & 1) | (((val << shift) >> k) & 1))) by (bit_vector);
    assert(shift < 64 && k < 64 && k >= shift ==> ((val << shift) >> k) & 1 == (val >> ((k - shift) as u64)) & 1) by (bit_vector);
    assert(shift < 64 && k < shift ==> ((val << shift) >> k) & 1 == 0) by (bit_vector);
    let a = v >> k;
    let b = (val << shift) >> k;
    assert((a & 1) | (b & 1) == 1 <==> (a & 1 == 1 || b & 1 == 1)) by (bit_vector);
}

/// Writes fields of bits.
pub struct BitWriter {
    bytes: Vec<u8>,
    buffer: u64,
    bits: u8,
}

impl BitWriter {
    /// Bits of the whole bytes, then those of the buffer.
    spec fn raw(&self) -> Seq<bool> {
        Seq::new(
            8 * self.bytes@.len() + 64,
            |j: int|
                if j < 8 * self.bytes@.len() {
                    bit(self.bytes@[j / 8] as u64, j % 8)
                } else {
                    bit(self.buffer, j - 8 * self.bytes@.len())
                },
        )
    }
}

impl View for BitWriter {
    type V = BitStream;

    closed spec fn view(&self) -> BitStream {
        BitStream { len: (8 * self.bytes@.len() + self.bits) as nat, bits: self.raw() }
    }
}

impl BitWriter {
    pub closed spec fn wf(&self) -> bool {
        self.bits < 8
    }

    pub fn new() -> (w: Self)
        ensures
            w.wf(),
            w@ == empty_stream(),
    {
        let w = BitWriter { bytes: Vec::new(), buffer: 0, bits: 0 };
        proof {
            assert forall|j: int| 0 <= j < 64 implies !w@.bits[j] by {
                let k = j as u64;
                assert((0u64 >> k) & 1 == 0) by (bit_vector);
            }
            assert(w@.bits =~= empty_stream().bits);
        }
        w
    }

    /// Appends a field of `bits` bits that holds `val`.
    pub fn write(&mut self, val: u64, bits: u8)
        requires
            old(self).wf(),
            bits <= 64,
        ensures
            final(self).wf(),
            final(self)@ == written(old(self)@, val, bits as nat),
    {
        let ghost before = *self;
        let ghost base = 8 * before.bytes@.len();
        let shift: u64 = self.bits as u64;
        let buffer: u64 = self.buffer;
        self.buffer = buffer | (val << shift);
        self.bits += bits;
        let ghost filled = self.raw();
        while self.bits >= 8
            invariant
                8 * self.bytes@.len() + self.bits == base + before.bits + bits,
                before.bits < 8,
                bits <= 64,
                base == 8 * before.bytes@.len(),
                self.bytes@.len() >= before.bytes@.len(),
                filled.len() == base + 64,
                forall|j: int|
                    0 <= j < 8 * self.bytes@.len() + 64 ==> #[trigger] self.raw()[j] == (j < base + 64
                        && filled[j]),
            decreases self.bits,
        {
            let ghost here = *self;
            let v: u64 = self.buffer;
            let byte: u8 = (v & 0xFF) as u8;
            proof {
                assert(v & 0xFF < 256) by (bit_vector);
            }
            self.bytes.push(byte);
            self.buffer = v >> 8;
            self.bits -= 8;
            proof {
                let n = here.bytes@.len();
                assert forall|j: int| 0 <= j < 8 * self.bytes@.len() + 64 implies #[trigger] self.raw()[j] == (j
                    < base + 64 && filled[j]) by {
                    if j < 8 * n {
                        assert(self.raw()[j] == here.raw()[j]);
                    } else if j < 8 * n + 8 {
                        lemma_low_byte(v, byte, j - 8 * n);
                        assert(here.raw()[j] == bit(v, j - 8 * n));
                        assert(self.raw()[j] == bit(byte as u64, j % 8));
                    } else {
                        lemma_next_byte(v, j - 8 * n - 8);
                        if j < 8 * n + 64 {
                            assert(here.raw()[j] == bit(v, j - 8 * n));
                        }
                    }
                }
            }
        }
        proof {
            let goal = written(before@, val, bits as nat);
            assert forall|j: int| 0 <= j < goal.bits.len() implies self@.bits[j] == goal.bits[j] by {
                assert(self.raw()[j] == (j < base + 64 && filled[j]));
                if j < base + 64 {
                    if j < base {
                        assert(filled[j] == before.raw()[j]);
                    } else {
                        lemma_or_shifted(buffer, val, shift, j - base);
                        assert(filled[j] == bit(buffer | (val << shift), j - base));
                        assert(before.raw()[j] == bit(before.buffer, j - base));
                    }
                }
            }
            assert(self@.bits =~= goal.bits);
        }
    }

    /// The bytes written; a last partial byte is filled up.
    pub fn finish(self) -> (out: Vec<u8>)
        requires
            self.wf(),
        ensures
            out@ == packed(self@),
    {
        let mut bytes = self.bytes;
        let buffer: u64 = self.buffer;
        if self.bits > 0 {
            let byte: u8 = (buffer & 0xFF) as u8;
            proof {
                assert(buffer & 0xFF < 256) by (bit_vector);
            }
            bytes.push(byte);
        }
        proof {
            let goal = packed(self@);
            let n = self.bytes@.len() as int;
            assert forall|b: int| 0 <= b < goal.len() implies bytes@[b] == goal[b] by {
                let part = self@.bits.subrange(8 * b, 8 * b + 8);
                let byte = bytes@[b];
                assert forall|i: int| 0 <= i < 64 implies #[trigger] bit(byte as u64, i) == (i < 8
                    && part[i]) by {
                    assert((byte as u64) & 0xFF == byte as u64) by (bit_vector);
                    lemma_low_byte(byte as u64, byte, i);
                    if b == n {
                        lemma_low_byte(buffer, byte, i);
                    }
                }
                lemma_bits_value(byte as u64, part);
            }
            assert(bytes@ =~= goal);
        }
        bytes
    }
}

/// Reads fields of bits.
pub struct BitReader<'a> {
    data: &'a [u8],
    pos: usize,
    buffer: u64,
    bits: u8,
}

impl<'a> View for BitReader<'a> {
    type V = Seq<bool>;

    /// The bits that are left to read.
    closed spec fn view(&self) -> Seq<bool> {
        bits_of(self.buffer, self.bits as nat) + bytes_bits(self.data@.skip(self.pos as int))
    }
}

impl<'a> BitReader<'a> {
    pub closed spec fn wf(&self) -> bool {
        &&& self.bits <= 64
        &&& self.pos <= self.data@.len()
        &&& forall|i: int| self.bits <= i < 64 ==> !bit(self.buffer, i)
    }

    pub fn new(data: &'a [u8]) -> (r: Self)
        ensures
            r.wf(),
            r@ == bytes_bits(data@),
    {
        let r = BitReader { data, pos: 0, buffer: 0, bits: 0 };
        proof {
            assert forall|i: int| 0 <= i < 64 implies !bit(r.buffer, i) by {
                let k = i as u64;
                assert((0u64 >> k) & 1 == 0) by (bit_vector);
            }
            assert(data@.skip(0) =~= data@);
            assert(r@ =~= bytes_bits(data@));
        }
        r
    }

    /// Reads a field of `bits` bits. With too few bits left nothing is read.
    pub fn read(&mut self, bits: u8) -> (result: Result<u64, String>)
        requires
            old(self).wf(),
            bits <= 57,
        ensures
            final(self).wf(),
            match result {
                Ok(v) => {
                    &&& old(self)@.len() >= bits
                    &&& v == bits_value(old(self)@.take(bits as int))
                    &&& final(self)@ == old(self)@.skip(bits as int)
                },
                Err(e) => {
                    &&& old(self)@.len() < bits
                    &&& e@ == "EOF"@
                    &&& final(self)@ == old(self)@
                },
            },
    {
        let ghost all = self@;
        while self.bits < bits
            invariant
                self.wf(),
                bits <= 57,
                self@ == all,
                all == old(self)@,
            decreases 64 - self.bits,
        {
            if self.pos >= self.data.len() {
                proof {
                    assert(self.data@.skip(self.pos as int).len() == 0);
                }
                return Err("EOF".to_string());
            }
            let ghost here = *self;
            let buffer: u64 = self.buffer;
            let byte: u64 = self.data[self.pos] as u64;
            let shift: u64 = self.bits as u64;
            self.buffer = buffer | (byte << shift);
            self.bits += 8;
            self.pos += 1;
            proof {
                let rest = here.data@.skip(here.pos as int);
                assert(rest[0] == byte);
                assert forall|i: int| 0 <= i < 64 implies #[trigger] bit(self.buffer, i) == (bit(buffer, i) || (
                shift <= i < shift + 8 && bit(byte, i - shift))) by {
                    lemma_or_shifted(buffer, byte, shift, i);
                    if i >= shift {
                        assert(byte & 0xFF == byte) by (bit_vector)
                            requires
                                byte < 256,
                        ;
                        lemma_low_byte(byte, byte as u8, i - shift);
                    }
                }
                assert(self@.len() == all.len());
                assert forall|j: int| 0 <= j < all.len() implies self@[j] == all[j] by {
                    if j < shift + 8 {
                        if j >= shift {
                            assert(all[j] == bytes_bits(rest)[j - shift]);
                        }
                    } else {
                        let k = j - shift;
                        assert(all[j] == bytes_bits(rest)[k]);
                        assert(self@[j] == bytes_bits(self.data@.skip(self.pos as int))[k - 8]);
                        assert(rest[k / 8] == self.data@.skip(self.pos as int)[(k - 8) / 8]);
                        assert(k % 8 == (k - 8) % 8);
                    }
                }
                assert(self@ =~= all);
            }
        }
        let buffer: u64 = self.buffer;
        let width: u64 = bits as u64;
        proof {
            assert(width <= 57 ==> (1u64 << width) >= 1) by (bit_vector);
        }
        let mask: u64 = (1u64 << width) - 1;
        let val: u64 = buffer & mask;
        let ghost here = *self;
        self.buffer = buffer >> width;
        self.bits -= bits;
        proof {
            let head = all.take(bits as int);
            assert forall|i: int| 0 <= i < 64 implies #[trigger] bit(val, i) == (i < bits && bit(buffer, i)) by {
                let k = i as u64;
                lemma_mask_bit(buffer, width, k);
            }
            lemma_bits_value(val, head);
            assert forall|i: int| 0 <= i < 64 implies #[trigger] bit(self.buffer, i) == (i + bits < 64 && bit(
                buffer,
                i + bits,
            )) by {
                let k = i as u64;
                lemma_shifted_bit(buffer, width, k);
            }
            assert(self@ =~= all.skip(bits as int));
        }
        Ok(val)
    }

    /// Reads one bit.
    pub fn read_bit(&mut self) -> (result: Result<u64, String>)
        requires
            old(self).wf(),
        ensures
            final(self).wf(),
            match result {
                Ok(v) => {
                    &&& old(self)@.len() >= 1
                    &&& v == if old(self)@[0] { 1u64 } else { 0u64 }
                    &&& final(self)@ == old(self)@.skip(1)
                },
                Err(e) => {
                    &&& old(self)@.len() == 0
                    &&& e@ == "EOF"@
                    &&& final(self)@ == old(self)@
                },
            },
    {
        let ghost all = self@;
        proof {
            if all.len() >= 1 {
                assert(all.take(1)[0] == all[0]);
                assert(all.take(1).drop_first().len() == 0);
                assert(bits_value(all.take(1).drop_first()) == 0);
            }
        }
        self.read(1)
    }
}

proof fn lemma_shifted_bit(v: u64, width: u64, k: u64)
    requires
        width <= 57,
        k < 64,
    ensures
        bit(v >> width, k as int) == (k + width < 64 && bit(v, k + width)),
{
    let sum: u64 = (k + width) as u64;
    if sum < 64 {
        vstd::bits::lemma_u64_shr_is_div(v, width);
        vstd::bits::lemma_u64_shr_is_div(v >> width, k);
        vstd::bits::lemma_u64_shr_is_div(v, sum);
        lemma_pow2_adds(width as nat, k as nat);
        lemma_pow2_pos(width as nat);
        lemma_pow2_pos(k as nat);
        vstd::arithmetic::div_mod::lemma_div_denominator(
            v as int,
            pow2(width as nat) as int,
            pow2(k as nat) as int,
        );
    } else {
        assert(((v >> width) >> k) & 1 == 0) by (bit_vector)
            requires
                width <= 57,
                k < 64,
                sum >= 64,
                width == sum - k,
                sum < 128,
        ;
    }
}

proof fn lemma_mask_bit(v: u64, width: u64, k: u64)
    requires
        width <= 57,
        k < 64,
    ensures
        ((v & (((1u64 << width) - 1) as u64)) >> k) & 1 == 1 <==> k < width && (v >> k) & 1 == 1,
{
    assert(width <= 57 && k < width ==> ((v & (((1u64 << width) - 1) as u64)) >> k) & 1 == (v >> k) & 1) by (bit_vector);
    assert(width <= 57 && k >= width && k < 64 ==> ((v & (((1u64 << width) - 1) as u64)) >> k) & 1 == 0) by (bit_vector);
}

} // verus!
