//! Adaptive range coder over an order-1 context model.
//!
//! Coding narrows an interval once per symbol; the coded bytes are the big-endian digits
//! of the low end of the final interval.

use vstd::prelude::*;
use crate::digits::{be_bytes, be_value};
use crate::model::{
    Order1Model, EOF_SYM, bumped, freq_total, initial_models, lemma_slot_start_monotone, slot_start,
    symbol_at,
};
use crate::range_tables::{is_coded_form, is_read_form, law_coded_form, law_read_form};

verus! {

/// Width of the interval before the first symbol.
pub const FULL_RANGE: u32 = 0xFFFF_FFFF;

/// Width below which the interval is scaled up by one byte.
pub const MIN_RANGE: u32 = 0x0100_0000;

/// The interval `low .. low + range`, scaled up by `256^shifts` since the start.
pub struct Interval {
    pub low: nat,
    pub range: nat,
    pub shifts: nat,
}

/// The interval scaled up by whole bytes until it is at least `MIN_RANGE` wide.
pub open spec fn renormalized(iv: Interval) -> Interval
    decreases if iv.range >= MIN_RANGE { 0 } else { MIN_RANGE - iv.range },
{
    if iv.range == 0 || iv.range >= MIN_RANGE {
        iv
    } else {
        renormalized(Interval { low: iv.low * 256, range: iv.range * 256, shifts: iv.shifts + 1 })
    }
}

/// The part of the interval that belongs to the slot `start .. start + freq` out of `total`.
pub open spec fn slot_of(iv: Interval, start: nat, freq: nat, total: nat) -> Interval {
    let r = iv.range / total;
    Interval { low: iv.low + start * r, range: freq * r, shifts: iv.shifts }
}

/// The interval after one symbol.
pub open spec fn narrowed(iv: Interval, start: nat, freq: nat, total: nat) -> Interval {
    renormalized(slot_of(iv, start, freq, total))
}

/// What the encoder has yet to settle: `cache` may still take a carry, and so may the
/// `cache_size - 1` bytes 255 behind it.
pub struct RangeEncoder {
    low: u64,
    range: u32,
    cache: u8,
    cache_size: u128,
    out: Vec<u8>,
}

impl RangeEncoder {
    /// All digits shifted out so far, settled or not.
    pub closed spec fn digits(&self) -> Seq<u8> {
        self.out@.push(self.cache) + Seq::new((self.cache_size - 1) as nat, |i: int| 255u8)
    }

    /// The interval that the encoder stands for.
    pub closed spec fn interval(&self) -> Interval {
        Interval {
            low: be_value(self.digits()) * 0x1_0000_0000 + self.low as nat,
            range: self.range as nat,
            shifts: (self.digits().len() - 1) as nat,
        }
    }

    /// Number of digits that are not settled.
    pub closed spec fn pending(&self) -> nat {
        self.cache_size as nat
    }

    /// No value in `low .. low + width` can carry further than the unsettled digits reach.
    spec fn carry_fits(&self, width: int) -> bool {
        &&& self.cache_size >= 1
        &&& self.low + width <= 0x2_0000_0000
        &&& self.cache == 0xFF ==> self.low + width <= 0x1_0000_0000
    }

    pub closed spec fn wf(&self) -> bool {
        &&& self.range >= MIN_RANGE
        &&& self.carry_fits(self.range as int)
    }

    pub fn new() -> (enc: Self)
        ensures
            enc.wf(),
            enc.interval() == (Interval { low: 0, range: FULL_RANGE as nat, shifts: 0 }),
            enc.pending() == 1,
    {
        let enc = RangeEncoder { low: 0, range: 0xFFFF_FFFF, cache: 0, cache_size: 1, out: Vec::new() };
        proof {
            assert(enc.digits() =~= seq![0u8]);
            assert(seq![0u8].drop_last() =~= Seq::empty());
            assert(be_value(Seq::empty()) == 0);
            assert(be_value(seq![0u8]) == 0);
        }
        enc
    }

    /// Moves the top byte of `low` to the digits.
    fn shift_low(&mut self)
        requires
            old(self).carry_fits(1),
            old(self).cache_size < u128::MAX,
        ensures
            final(self).low == (old(self).low % 0x100_0000) * 256,
            final(self).range == old(self).range,
            final(self).cache_size <= old(self).cache_size + 1,
            final(self).digits().len() == old(self).digits().len() + 1,
            be_value(final(self).digits()) * 0x1_0000_0000 + final(self).low == 256 * (be_value(
                old(self).digits(),
            ) * 0x1_0000_0000 + old(self).low),
            forall|width: int|
                1 <= width <= MIN_RANGE && #[trigger] old(self).carry_fits(width)
                    ==> final(self).carry_fits(256 * width),
            old(self).low < 0xFF00_0000 ==> final(self).cache_size == 1 && final(self).cache
                == old(self).low / 0x100_0000,
    {
        let ghost before = *self;
        let low = self.low;
        let low_u32: u32 = (low & 0xFFFF_FFFF) as u32;
        let top: u8 = (low >> 32) as u8;
        proof {
            assert(low < 0x2_0000_0000u64 ==> (low >> 32) == low / 0x1_0000_0000) by (bit_vector);
            assert((low & 0xFFFF_FFFF) == low % 0x1_0000_0000) by (bit_vector);
            assert(low_u32 >> 24 == low_u32 / 0x100_0000) by (bit_vector);
            assert((low_u32 << 8) as u64 == (low_u32 % 0x100_0000) as u64 * 256) by (bit_vector);
        }
        if low_u32 < 0xFF00_0000 || top != 0 {
            let mut temp: u8 = self.cache;
            let ghost n = (self.cache_size - 1) as nat;
            loop
                invariant_except_break
                    self.low == before.low,
                    self.range == before.range,
                    self.cache == before.cache,
                    1 <= self.cache_size <= before.cache_size,
                    n == before.cache_size - 1,
                    top <= 1,
                    top == 1 ==> before.cache < 255,
                    self.cache_size == before.cache_size ==> temp == before.cache && self.out@ == before.out@,
                    self.cache_size < before.cache_size ==> temp == 0xFF && self.out@ == before.out@.push(
                        (before.cache + top) as u8,
                    ) + Seq::new(
                        (n - self.cache_size) as nat,
                        |i: int| if top == 1 { 0u8 } else { 255u8 },
                    ),
                ensures
                    self.low == before.low,
                    self.range == before.range,
                    self.cache == before.cache,
                    self.cache_size == 0,
                    self.out@ == before.out@.push((before.cache + top) as u8) + Seq::new(
                        n,
                        |i: int| if top == 1 { 0u8 } else { 255u8 },
                    ),
                decreases self.cache_size,
            {
                let ghost out0 = self.out@;
                let byte: u8 = temp.wrapping_add(top);
                self.out.push(byte);
                temp = 0xFF;
                self.cache_size -= 1;
                proof {
                    assert(self.out@ =~= before.out@.push((before.cache + top) as u8) + Seq::new(
                        (n - self.cache_size) as nat,
                        |i: int| if top == 1 { 0u8 } else { 255u8 },
                    ));
                }
                if self.cache_size == 0 {
                    break;
                }
            }
            self.cache = (low_u32 >> 24) as u8;
        }
        self.cache_size += 1;
        self.low = (low_u32 << 8) as u64;
        proof {
            let full = Seq::new((before.cache_size - 1) as nat, |i: int| 255u8);
            if low_u32 < 0xFF00_0000 || top != 0 {
                crate::digits::lemma_be_value_push(self.out@, self.cache);
                assert(self.digits() =~= self.out@.push(self.cache));
                if top == 1 {
                    crate::digits::lemma_carry(before.out@, before.cache, (before.cache_size - 1) as nat);
                    assert(self.out@ =~= before.out@.push((before.cache + 1) as u8) + Seq::new(
                        (before.cache_size - 1) as nat,
                        |i: int| 0u8,
                    ));
                } else {
                    assert(self.out@ =~= before.digits());
                }
            } else {
                assert(self.digits() =~= before.digits().push(255u8));
                crate::digits::lemma_be_value_push(before.digits(), 255u8);
            }
        }
    }

    /// Narrows the interval to the slot `cum_low .. cum_low + freq` out of `total`.
    pub fn encode(&mut self, cum_low: u32, freq: u32, total: u32)
        requires
            old(self).wf(),
            old(self).pending() + 3 <= u128::MAX,
            1 <= freq,
            cum_low + freq <= total,
            total <= MIN_RANGE,
        ensures
            final(self).wf(),
            final(self).pending() <= old(self).pending() + 3,
            final(self).interval() == narrowed(
                old(self).interval(),
                cum_low as nat,
                freq as nat,
                total as nat,
            ),
    {
        let ghost before = *self;
        let r: u32 = self.range / total;
        proof {
            lemma_slot_fits(before.range as nat, cum_low as nat, freq as nat, total as nat);
        }
        self.range = r;
        self.low += (cum_low * self.range) as u64;
        self.range *= freq;
        let ghost slot = slot_of(before.interval(), cum_low as nat, freq as nat, total as nat);
        let ghost mut steps: nat = 0;
        proof {
            assert(self.digits() =~= before.digits());
            assert(freq * r == r * freq) by (nonlinear_arith);
            assert(self.interval() == slot);
        }
        while self.range < 0x0100_0000
            invariant
                self.range >= 1,
                self.carry_fits(self.range as int),
                steps <= 3,
                steps == 1 ==> self.range >= 0x100,
                steps == 2 ==> self.range >= 0x1_0000,
                steps == 3 ==> self.range >= 0x100_0000,
                before.pending() + 3 <= u128::MAX,
                self.pending() <= before.pending() + steps,
                renormalized(self.interval()) == renormalized(slot),
            decreases 0x1_0000_0000 - self.range,
        {
            let ghost here = *self;
            let range = self.range;
            proof {
                assert(here.carry_fits(1));
                assert(range < 0x100_0000u32 ==> (range << 8u32) == range * 256) by (bit_vector);
            }
            self.shift_low();
            self.range <<= 8;
            proof {
                steps = steps + 1;
                let mid = Interval {
                    low: here.interval().low * 256,
                    range: here.interval().range * 256,
                    shifts: here.interval().shifts + 1,
                };
                assert(self.interval() == mid);
            }
        }
    }

    /// Shifts out every digit of `low`.
    fn flush(&mut self)
        requires
            old(self).wf(),
            old(self).pending() + 5 <= u128::MAX,
        ensures
            final(self).out@ == be_bytes(old(self).interval().low, old(self).interval().shifts + 5),
    {
        let ghost before = *self;
        let ghost value = before.interval().low;
        let ghost mut scaled: nat = value;
        for i in 0..5usize
            invariant
                self.carry_fits(1),
                self.pending() <= before.pending() + i,
                before.pending() + 5 <= u128::MAX,
                self.digits().len() == before.digits().len() + i,
                be_value(self.digits()) * 0x1_0000_0000 + self.low == scaled,
                i == 0 ==> scaled == value,
                i == 1 ==> scaled == 0x100 * value && self.low % 0x100 == 0,
                i == 2 ==> scaled == 0x1_0000 * value && self.low % 0x1_0000 == 0,
                i == 3 ==> scaled == 0x100_0000 * value && self.low % 0x100_0000 == 0,
                i == 4 ==> scaled == 0x1_0000_0000 * value && self.low == 0,
                i == 5 ==> scaled == 0x100_0000_0000 * value && self.low == 0 && self.cache_size == 1 && self.cache == 0,
        {
            let ghost here = *self;
            self.shift_low();
            proof {
                scaled = scaled * 256;
                assert(here.carry_fits(1));
                assert(self.carry_fits(256));
            }
        }
        proof {
            assert(self.digits() =~= self.out@.push(0u8));
            crate::digits::lemma_be_value_push(self.out@, 0u8);
            crate::digits::lemma_be_value_bytes(self.out@);
        }
    }
}

/// The slots of one interval do not reach past its end.
pub proof fn lemma_slot_fits(range: nat, start: nat, freq: nat, total: nat)
    requires
        total >= 1,
        start + freq <= total,
        range >= total,
        freq >= 1,
    ensures
        range / total >= 1,
        start * (range / total) + freq * (range / total) <= range,
        freq * (range / total) >= 1,
        start * (range / total) >= 0,
        start * (range / total) + freq * (range / total) == (start + freq) * (range / total),
{
    let r = range / total;
    vstd::arithmetic::div_mod::lemma_fundamental_div_mod(range as int, total as int);
    assert(r >= 1) by {
        vstd::arithmetic::div_mod::lemma_div_is_ordered(total as int, range as int, total as int);
        vstd::arithmetic::div_mod::lemma_div_by_self(total as int);
    }
    assert(start * r + freq * r == (start + freq) * r) by (nonlinear_arith);
    assert((start + freq) * r <= total * r) by (nonlinear_arith)
        requires
            start + freq <= total,
    ;
    assert(freq * r >= 1) by (nonlinear_arith)
        requires
            freq >= 1,
            r >= 1,
    ;
}

/// The byte at `pos`, and 0 past the end.
pub open spec fn byte_at(data: Seq<u8>, pos: nat) -> nat {
    if pos < data.len() {
        data[pos as int] as nat
    } else {
        0
    }
}

/// The position after reading at `pos`; reading past the end stays where it is.
pub open spec fn pos_after(data: Seq<u8>, pos: nat) -> nat {
    if pos < data.len() {
        pos + 1
    } else {
        pos
    }
}

/// What the decoder holds: `code` is the offset of the coded number in the current
/// interval of width `range`, as far as the bytes before `pos` tell.
pub struct Window {
    pub code: nat,
    pub range: nat,
    pub pos: nat,
}

/// One more byte read into the window.
pub open spec fn fed(data: Seq<u8>, w: Window) -> Window {
    Window {
        code: (w.code * 256) % 0x1_0000_0000 + byte_at(data, w.pos),
        range: w.range * 256,
        pos: pos_after(data, w.pos),
    }
}

/// The window with bytes read in until it is at least `MIN_RANGE` wide.
pub open spec fn refilled(data: Seq<u8>, w: Window) -> Window
    decreases if w.range >= MIN_RANGE { 0 } else { MIN_RANGE - w.range },
{
    if w.range == 0 || w.range >= MIN_RANGE {
        w
    } else {
        refilled(data, fed(data, w))
    }
}

/// The window at the start of a stream: the first byte is skipped, four are read.
pub open spec fn opened(data: Seq<u8>) -> Window {
    let empty = Window { code: 0, range: 0, pos: 1 };
    let full = fed(data, fed(data, fed(data, fed(data, empty))));
    Window { code: full.code, range: FULL_RANGE as nat, pos: full.pos }
}

/// The place of the window's code among `total` slots.
pub open spec fn place(w: Window, total: nat) -> nat {
    w.code / (w.range / total)
}

/// The window after the slot `start .. start + freq` out of `total` was recognised.
pub open spec fn advanced(data: Seq<u8>, w: Window, start: nat, freq: nat, total: nat) -> Window {
    let r = w.range / total;
    refilled(
        data,
        Window {
            code: ((w.code - start * r) % 0x1_0000_0000) as nat,
            range: freq * r,
            pos: w.pos,
        },
    )
}

pub struct RangeDecoder<'a> {
    code: u32,
    range: u32,
    data: &'a [u8],
    pos: usize,
}

impl<'a> RangeDecoder<'a> {
    pub closed spec fn input(&self) -> Seq<u8> {
        self.data@
    }

    pub closed spec fn window(&self) -> Window {
        Window { code: self.code as nat, range: self.range as nat, pos: self.pos as nat }
    }

    pub fn new(data: &'a [u8]) -> (dec: Self)
        ensures
            dec.input() == data@,
            dec.window() == opened(data@),
    {
        let mut code: u32 = 0;
        let mut pos: usize = 1;  // skip the leading zero byte
        let ghost mut w = Window { code: 0, range: 0, pos: 1 };
        let ghost w0 = w;
        for i in 0..4usize
            invariant
                w0 == (Window { code: 0, range: 0, pos: 1 }),
                w == (Window { code: code as nat, range: 0, pos: pos as nat }),
                i == 0 ==> w == w0,
                i == 1 ==> w == fed(data@, w0),
                i == 2 ==> w == fed(data@, fed(data@, w0)),
                i == 3 ==> w == fed(data@, fed(data@, fed(data@, w0))),
                i == 4 ==> w == fed(data@, fed(data@, fed(data@, fed(data@, w0)))),
        {
            let byte: u32 = Self::read_byte(data, &mut pos);
            proof {
                lemma_feed_bits(code, byte);
                w = fed(data@, w);
            }
            code = (code << 8) | byte;
        }
        RangeDecoder { code, range: 0xFFFF_FFFF, data, pos }
    }

    fn read_byte(data: &[u8], pos: &mut usize) -> (byte: u32)
        ensures
            byte == byte_at(data@, *old(pos) as nat),
            byte < 256,
            *final(pos) == pos_after(data@, *old(pos) as nat),
    {
        if *pos < data.len() {
            let b: u32 = data[*pos] as u32;
            *pos += 1;
            b
        } else {
            0
        }
    }

    /// The place of the code among `total` slots.
    pub fn get_freq(&self, total: u32) -> (at: u32)
        requires
            1 <= total <= self.window().range,
        ensures
            at == place(self.window(), total as nat),
    {
        proof {
            lemma_slot_fits(self.range as nat, 0, 1, total as nat);
        }
        self.code / (self.range / total)
    }

    /// Removes the slot `cum_low .. cum_low + freq` out of `total`.
    pub fn decode(&mut self, cum_low: u32, freq: u32, total: u32)
        requires
            1 <= freq,
            cum_low + freq <= total,
            total <= old(self).window().range,
        ensures
            final(self).input() == old(self).input(),
            final(self).window() == advanced(
                old(self).input(),
                old(self).window(),
                cum_low as nat,
                freq as nat,
                total as nat,
            ),
            final(self).window().range >= MIN_RANGE,
    {
        let ghost before = *self;
        proof {
            lemma_slot_fits(self.range as nat, cum_low as nat, freq as nat, total as nat);
        }
        let r: u32 = self.range / total;
        self.code = self.code.wrapping_sub(cum_low * r);
        self.range = freq * r;
        let ghost start = self.window();
        while self.range < 0x0100_0000
            invariant
                self.range >= 1,
                self.data == before.data,
                refilled(self.data@, self.window()) == refilled(self.data@, start),
            decreases 0x1_0000_0000 - self.range,
        {
            let range = self.range;
            let code = self.code;
            let byte: u32 = Self::read_byte(self.data, &mut self.pos);
            proof {
                lemma_feed_bits(code, byte);
                assert(range < 0x100_0000u32 ==> (range << 8u32) == range * 256) by (bit_vector);
            }
            self.code = (code << 8) | byte;
            self.range <<= 8;
        }
    }
}

proof fn lemma_feed_bits(code: u32, byte: u32)
    requires
        byte < 256,
    ensures
        (code << 8) | byte == (code * 256) % 0x1_0000_0000 + byte,
{
    assert(byte < 256 ==> (code << 8u32) | byte == (code << 8u32) + byte) by (bit_vector);
    assert((code << 8u32) == (code % 0x100_0000) * 256) by (bit_vector);
}

/// The order-1 model as coding proceeds: a table per preceding symbol, and that symbol.
pub struct Context {
    pub models: Seq<Seq<nat>>,
    pub last: int,
}

pub open spec fn initial_context() -> Context {
    Context { models: initial_models(), last: 0 }
}

/// The frequencies that the next symbol is coded with.
pub open spec fn current(ctx: Context) -> Seq<nat> {
    ctx.models[ctx.last]
}

/// The context after `sym`.
pub open spec fn followed(ctx: Context, sym: int) -> Context {
    Context { models: ctx.models.update(ctx.last, bumped(current(ctx), sym)), last: sym }
}

/// Interval and context between two symbols.
pub struct Coding {
    pub iv: Interval,
    pub ctx: Context,
}

pub open spec fn initial_coding() -> Coding {
    Coding {
        iv: Interval { low: 0, range: FULL_RANGE as nat, shifts: 0 },
        ctx: initial_context(),
    }
}

/// The interval of `sym` under the frequencies `freq`.
pub open spec fn symbol_interval(iv: Interval, freq: Seq<nat>, sym: int) -> Interval {
    narrowed(iv, slot_start(freq, sym), freq[sym], freq_total(freq))
}

pub open spec fn after_symbol(c: Coding, sym: int) -> Coding {
    Coding { iv: symbol_interval(c.iv, current(c.ctx), sym), ctx: followed(c.ctx, sym) }
}

/// Interval and context after all of `data`.
pub open spec fn coding_of(data: Seq<u8>) -> Coding
    decreases data.len(),
{
    if data.len() == 0 {
        initial_coding()
    } else {
        after_symbol(coding_of(data.drop_last()), data.last() as int)
    }
}

/// The interval after all of `data` and the end-of-stream symbol.
pub open spec fn final_interval(data: Seq<u8>) -> Interval {
    after_symbol(coding_of(data), EOF_SYM as int).iv
}

/// The coded form of `data`.
pub open spec fn range_coded(data: Seq<u8>) -> Seq<u8> {
    be_bytes(final_interval(data).low, final_interval(data).shifts + 5)
}

/// Window and context between two decoded symbols.
pub struct Decoding {
    pub w: Window,
    pub ctx: Context,
}

pub open spec fn initial_decoding(coded: Seq<u8>) -> Decoding {
    Decoding { w: opened(coded), ctx: initial_context() }
}

/// The symbol that the decoder reads next.
pub open spec fn next_symbol(d: Decoding) -> int {
    let freq = current(d.ctx);
    let total = freq_total(freq);
    let at = place(d.w, total);
    symbol_at(freq, if at < total { at as int } else { total - 1 })
}

pub open spec fn without_symbol(coded: Seq<u8>, d: Decoding, sym: int) -> Decoding {
    let freq = current(d.ctx);
    Decoding {
        w: advanced(coded, d.w, slot_start(freq, sym), freq[sym], freq_total(freq)),
        ctx: followed(d.ctx, sym),
    }
}

/// Window and context after the symbols `out` were read from `coded`.
pub open spec fn decoding_of(coded: Seq<u8>, out: Seq<u8>) -> Decoding
    decreases out.len(),
{
    if out.len() == 0 {
        initial_decoding(coded)
    } else {
        without_symbol(coded, decoding_of(coded, out.drop_last()), out.last() as int)
    }
}

/// Reading symbols from `coded` gives the bytes `out` and then the end of the stream.
pub open spec fn decodes_to(coded: Seq<u8>, out: Seq<u8>) -> bool {
    &&& forall|i: int|
        0 <= i < out.len() ==> next_symbol(#[trigger] decoding_of(coded, out.take(i))) == out[i]
    &&& next_symbol(decoding_of(coded, out)) == EOF_SYM
}

/// What decoding gives back: an empty stream holds nothing, any other what its symbols say.
pub open spec fn range_decoded(coded: Seq<u8>, out: Seq<u8>) -> bool {
    if coded.len() == 0 {
        out.len() == 0
    } else {
        decodes_to(coded, out)
    }
}

/// Codes `data` with the adaptive order-1 model.
pub fn range_encode(data: &[u8]) -> (coded: Vec<u8>)
    ensures
        coded@ == range_coded(data@),
        is_coded_form(data@, coded@),
{
    proof {
        law_coded_form(data@);
    }
    let mut o1model = Order1Model::new();
    let mut enc = RangeEncoder::new();
    let mut last_byte: usize = 0;
    let ghost mut c = initial_coding();
    for i in 0..data.len()
        invariant
            enc.wf(),
            enc.pending() <= 1 + 3 * i,
            o1model.wf(),
            last_byte < 256,
            c == coding_of(data@.take(i as int)),
            enc.interval() == c.iv,
            o1model@ == c.ctx.models,
            last_byte == c.ctx.last,
    {
        let sym: usize = data[i] as usize;
        let (cl, ch, total) = o1model.context(last_byte).sym_range(sym);
        proof {
            o1model.lemma_wf_valid();
            lemma_slot_start_monotone(current(c.ctx), sym as int + 1, 257);
            assert(current(c.ctx)[sym as int] >= 1);
        }
        enc.encode(cl, ch - cl, total);
        o1model.update(last_byte, sym);
        last_byte = sym;
        proof {
            assert(data@.take(i + 1).drop_last() =~= data@.take(i as int));
            c = after_symbol(c, sym as int);
        }
    }
    proof {
        assert(data@.take(data@.len() as int) =~= data@);
        o1model.lemma_wf_valid();
        assert(current(c.ctx)[256] >= 1);
    }
    let (cl, ch, total) = o1model.context(last_byte).sym_range(EOF_SYM);
    enc.encode(cl, ch - cl, total);
    enc.flush();
    enc.out
}

/// Decodes a stream up to its end-of-stream symbol. Past the end of `data` the decoder
/// reads zeros, so a stream that never reaches that symbol is read until memory runs out.
pub fn range_decode(data: &[u8]) -> (result: Result<Vec<u8>, String>)
    ensures
        result is Ok,
        range_decoded(data@, result->Ok_0@),
        data@.len() == 0 ==> result->Ok_0@.len() == 0,
        data@.len() > 0 ==> is_read_form(data@, result->Ok_0@),
{
    if data.len() == 0 {
        return Ok(Vec::new());
    }
    let mut o1model = Order1Model::new();
    let mut dec = RangeDecoder::new(data);
    let mut out: Vec<u8> = Vec::new();
    let mut last_byte: usize = 0;
    let ghost mut d = initial_decoding(data@);
    loop
        invariant
            data@.len() > 0,
            o1model.wf(),
            last_byte < 256,
            dec.input() == data@,
            dec.window().range >= MIN_RANGE,
            d == decoding_of(data@, out@),
            dec.window() == d.w,
            o1model@ == d.ctx.models,
            last_byte == d.ctx.last,
            forall|i: int|
                0 <= i < out@.len() ==> next_symbol(#[trigger] decoding_of(data@, out@.take(i)))
                    == out@[i],
        decreases usize::MAX - out.len(),
    {
        proof {
            o1model.lemma_wf_valid();
            assert(current(d.ctx)[0] >= 1);
            lemma_slot_start_monotone(current(d.ctx), 1, 257);
        }
        let total: u32 = o1model.context(last_byte).total();
        let target: u32 = dec.get_freq(total);
        let capped: u32 = if target < total { target } else { total - 1 };
        let sym: usize = o1model.context(last_byte).find_sym(capped);
        let (cl, ch, _total) = o1model.context(last_byte).sym_range(sym);
        proof {
            lemma_slot_start_monotone(current(d.ctx), sym as int + 1, 257);
            assert(current(d.ctx)[sym as int] >= 1);
        }
        dec.decode(cl, ch - cl, total);
        o1model.update(last_byte, sym);
        if sym == EOF_SYM {
            proof {
                law_read_form(data@, out@);
            }
            return Ok(out);
        }
        let ghost before = out@;
        out.push(sym as u8);
        last_byte = sym;
        proof {
            d = without_symbol(data@, d, sym as int);
            assert(out@.drop_last() =~= before);
            assert forall|i: int| 0 <= i < out@.len() implies next_symbol(
                #[trigger] decoding_of(data@, out@.take(i)),
            ) == out@[i] by {
                assert(out@.take(i) =~= before.take(i));
                assert(before.take(before.len() as int) =~= before);
            }
        }
    }
}

} // verus!
