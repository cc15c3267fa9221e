//! Laws of the range coder.

use vstd::prelude::*;
use crate::digits::{be_bytes, drop_digits, lemma_be_bytes_index, lemma_be_bytes_len};
use crate::model::{
    EOF_SYM, MODEL_ALPHA, freq_total, lemma_bumped_valid, lemma_initial_valid, lemma_slot_start_monotone,
    lemma_symbol_from, slot_start, valid_freqs,
};
use crate::range_coder::{
    Context, Interval, MIN_RANGE, Window, after_symbol, byte_at, coding_of, current, decodes_to, decoding_of, fed,
    final_interval, followed, lemma_slot_fits, narrowed, next_symbol, opened, range_coded, range_decoded, refilled,
    renormalized, slot_of,
};

verus! {

/// The number `value`, written with `shifts` digits behind the first four, lies in the
/// interval as far as the interval has been scaled up.
spec fn holds(iv: Interval, value: nat, shifts: nat) -> bool {
    &&& iv.shifts <= shifts
    &&& iv.low <= drop_digits(value, (shifts - iv.shifts) as nat) < iv.low + iv.range
}

/// The window of a decoder that reads `value` stands where the interval does.
spec fn tracks(w: Window, iv: Interval, value: nat, shifts: nat) -> bool {
    &&& w.range == iv.range
    &&& w.code == drop_digits(value, (shifts - iv.shifts) as nat) - iv.low
    &&& w.pos == iv.shifts + 5
}

/// The digits of `value`, `shifts` of them behind the first five, and other bytes behind.
spec fn stream(value: nat, shifts: nat, extra: Seq<u8>) -> Seq<u8> {
    be_bytes(value, shifts + 5) + extra
}

pub open spec fn valid_context(ctx: Context) -> bool {
    &&& ctx.models.len() == MODEL_ALPHA
    &&& 0 <= ctx.last < MODEL_ALPHA
    &&& forall|i: int| 0 <= i < MODEL_ALPHA ==> valid_freqs(#[trigger] ctx.models[i])
}

proof fn lemma_renormalized_range(iv: Interval)
    requires
        iv.range >= 1,
    ensures
        renormalized(iv).range >= MIN_RANGE,
    decreases if iv.range >= MIN_RANGE { 0 } else { MIN_RANGE - iv.range },
{
    if iv.range < MIN_RANGE {
        lemma_renormalized_range(
            Interval { low: iv.low * 256, range: iv.range * 256, shifts: iv.shifts + 1 },
        );
    }
}

proof fn lemma_renormalized_holds(iv: Interval, value: nat, shifts: nat)
    requires
        iv.range >= 1,
        holds(renormalized(iv), value, shifts),
    ensures
        holds(iv, value, shifts),
    decreases if iv.range >= MIN_RANGE { 0 } else { MIN_RANGE - iv.range },
{
    if iv.range < MIN_RANGE {
        let wide = Interval { low: iv.low * 256, range: iv.range * 256, shifts: iv.shifts + 1 };
        lemma_renormalized_holds(wide, value, shifts);
        assert(drop_digits(value, (shifts - iv.shifts) as nat) == drop_digits(
            value,
            (shifts - wide.shifts) as nat,
        ) / 256);
    }
}

/// Slots of a valid table.
proof fn lemma_table_slot(freq: Seq<nat>, sym: int)
    requires
        valid_freqs(freq),
        0 <= sym < MODEL_ALPHA,
    ensures
        freq[sym] >= 1,
        slot_start(freq, sym + 1) == slot_start(freq, sym) + freq[sym],
        slot_start(freq, sym + 1) <= freq_total(freq) < MIN_RANGE,
        freq_total(freq) >= 1,
{
    lemma_slot_start_monotone(freq, sym + 1, 257);
}

proof fn lemma_narrowed_holds(iv: Interval, freq: Seq<nat>, sym: int, value: nat, shifts: nat)
    requires
        valid_freqs(freq),
        0 <= sym < MODEL_ALPHA,
        iv.range >= MIN_RANGE,
        holds(narrowed(iv, slot_start(freq, sym), freq[sym], freq_total(freq)), value, shifts),
    ensures
        holds(slot_of(iv, slot_start(freq, sym), freq[sym], freq_total(freq)), value, shifts),
        holds(iv, value, shifts),
{
    lemma_table_slot(freq, sym);
    lemma_slot_fits(iv.range, slot_start(freq, sym), freq[sym], freq_total(freq));
    lemma_renormalized_holds(
        slot_of(iv, slot_start(freq, sym), freq[sym], freq_total(freq)),
        value,
        shifts,
    );
}

proof fn lemma_refilled_tracks(iv: Interval, w: Window, value: nat, shifts: nat, extra: Seq<u8>)
    requires
        iv.range >= 1,
        holds(renormalized(iv), value, shifts),
        tracks(w, iv, value, shifts),
    ensures
        tracks(refilled(stream(value, shifts, extra), w), renormalized(iv), value, shifts),
    decreases if iv.range >= MIN_RANGE { 0 } else { MIN_RANGE - iv.range },
{
    let data = stream(value, shifts, extra);
    if iv.range < MIN_RANGE {
        let wide = Interval { low: iv.low * 256, range: iv.range * 256, shifts: iv.shifts + 1 };
        lemma_renormalized_holds(wide, value, shifts);
        lemma_renormalized_holds(iv, value, shifts);
        let before = drop_digits(value, (shifts - iv.shifts) as nat);
        let after = drop_digits(value, (shifts - wide.shifts) as nat);
        assert(before == after / 256);
        lemma_be_bytes_index(value, shifts + 5, w.pos as int);
        assert(byte_at(data, w.pos) == after % 256);
        assert((w.code * 256) % 0x1_0000_0000 == w.code * 256);
        assert(tracks(fed(data, w), wide, value, shifts));
        lemma_refilled_tracks(wide, fed(data, w), value, shifts, extra);
    }
}

pub proof fn lemma_coding_valid(data: Seq<u8>)
    ensures
        coding_of(data).iv.range >= MIN_RANGE,
        valid_context(coding_of(data).ctx),
    decreases data.len(),
{
    if data.len() == 0 {
        lemma_initial_valid();
    } else {
        let c = coding_of(data.drop_last());
        let sym = data.last() as int;
        lemma_coding_valid(data.drop_last());
        lemma_table_slot(current(c.ctx), sym);
        lemma_slot_fits(
            c.iv.range,
            slot_start(current(c.ctx), sym),
            current(c.ctx)[sym],
            freq_total(current(c.ctx)),
        );
        lemma_renormalized_range(
            slot_of(
                c.iv,
                slot_start(current(c.ctx), sym),
                current(c.ctx)[sym],
                freq_total(current(c.ctx)),
            ),
        );
        lemma_bumped_valid(current(c.ctx), sym);
    }
}

/// The interval of a prefix holds what the interval of the whole holds.
proof fn lemma_prefix_holds(data: Seq<u8>, i: int, value: nat, shifts: nat)
    requires
        holds(coding_of(data).iv, value, shifts),
        0 <= i <= data.len(),
    ensures
        holds(coding_of(data.take(i)).iv, value, shifts),
    decreases data.len(),
{
    if i == data.len() {
        assert(data.take(i) =~= data);
    } else {
        let c = coding_of(data.drop_last());
        lemma_coding_valid(data.drop_last());
        lemma_narrowed_holds(c.iv, current(c.ctx), data.last() as int, value, shifts);
        lemma_prefix_holds(data.drop_last(), i, value, shifts);
        assert(data.drop_last().take(i) =~= data.take(i));
    }
}

/// The first window reads the first four digits.
proof fn lemma_opened(value: nat, shifts: nat, extra: Seq<u8>)
    requires
        drop_digits(value, shifts) < 0x1_0000_0000,
    ensures
        opened(stream(value, shifts, extra)).code == drop_digits(value, shifts),
        opened(stream(value, shifts, extra)).pos == 5,
{
    let data = stream(value, shifts, extra);
    let v = drop_digits(value, shifts);
    reveal_with_fuel(drop_digits, 4);
    lemma_be_bytes_index(value, shifts + 5, 1);
    lemma_be_bytes_index(value, shifts + 5, 2);
    lemma_be_bytes_index(value, shifts + 5, 3);
    lemma_be_bytes_index(value, shifts + 5, 4);
    assert(drop_digits(value, shifts + 1) == v / 256);
    assert(drop_digits(value, shifts + 2) == v / 256 / 256);
    assert(drop_digits(value, shifts + 3) == v / 256 / 256 / 256);
    assert(v / 256 / 256 / 256 < 256);
    let w0 = Window { code: 0, range: 0, pos: 1 };
    let w1 = fed(data, w0);
    assert(w1.code == v / 256 / 256 / 256 && w1.pos == 2);
    let w2 = fed(data, w1);
    assert(w2.code == v / 256 / 256 && w2.pos == 3);
    let w3 = fed(data, w2);
    assert(w3.code == v / 256 && w3.pos == 4);
    let w4 = fed(data, w3);
    assert(w4.code == v && w4.pos == 5);
}

/// A decoder that has read the symbols `data` from `value` stands where the encoder stood.
proof fn lemma_decoding_tracks(data: Seq<u8>, value: nat, shifts: nat, extra: Seq<u8>)
    requires
        holds(coding_of(data).iv, value, shifts),
    ensures
        tracks(decoding_of(stream(value, shifts, extra), data).w, coding_of(data).iv, value, shifts),
        decoding_of(stream(value, shifts, extra), data).ctx == coding_of(data).ctx,
    decreases data.len(),
{
    let coded = stream(value, shifts, extra);
    if data.len() == 0 {
        lemma_opened(value, shifts, extra);
    } else {
        let p = data.drop_last();
        let sym = data.last() as int;
        let c = coding_of(p);
        let freq = current(c.ctx);
        lemma_coding_valid(p);
        lemma_narrowed_holds(c.iv, freq, sym, value, shifts);
        lemma_decoding_tracks(p, value, shifts, extra);
        lemma_table_slot(freq, sym);
        lemma_slot_fits(c.iv.range, slot_start(freq, sym), freq[sym], freq_total(freq));
        let slot = slot_of(c.iv, slot_start(freq, sym), freq[sym], freq_total(freq));
        let d = decoding_of(coded, p);
        let r = c.iv.range / freq_total(freq);
        let code = d.w.code - slot_start(freq, sym) * r;
        assert(c.iv.range <= 0xFFFF_FFFF) by {
            lemma_coding_range(p);
        }
        assert(0 <= code < 0x1_0000_0000);
        assert(code % 0x1_0000_0000 == code);
        let w = Window { code: code as nat, range: freq[sym] * r, pos: d.w.pos };
        assert(tracks(w, slot, value, shifts));
        lemma_refilled_tracks(slot, w, value, shifts, extra);
    }
}

proof fn lemma_renormalized_upper(iv: Interval)
    requires
        iv.range <= 0xFFFF_FFFF,
    ensures
        renormalized(iv).range <= 0xFFFF_FFFF,
    decreases if iv.range >= MIN_RANGE { 0 } else { MIN_RANGE - iv.range },
{
    if 0 < iv.range < MIN_RANGE {
        lemma_renormalized_upper(
            Interval { low: iv.low * 256, range: iv.range * 256, shifts: iv.shifts + 1 },
        );
    }
}

proof fn lemma_coding_range(data: Seq<u8>)
    ensures
        coding_of(data).iv.range <= 0xFFFF_FFFF,
    decreases data.len(),
{
    if data.len() > 0 {
        let p = data.drop_last();
        let sym = data.last() as int;
        let c = coding_of(p);
        lemma_coding_range(p);
        lemma_coding_valid(p);
        let freq = current(c.ctx);
        lemma_table_slot(freq, sym);
        lemma_slot_fits(c.iv.range, slot_start(freq, sym), freq[sym], freq_total(freq));
        lemma_renormalized_upper(slot_of(c.iv, slot_start(freq, sym), freq[sym], freq_total(freq)));
    }
}

/// A number in the interval of `data` followed by `sym` is read as `sym` after `data`.
proof fn lemma_next_symbol(data: Seq<u8>, sym: int, value: nat, shifts: nat, extra: Seq<u8>)
    requires
        0 <= sym < MODEL_ALPHA,
        holds(after_symbol(coding_of(data), sym).iv, value, shifts),
    ensures
        next_symbol(decoding_of(stream(value, shifts, extra), data)) == sym,
{
    let c = coding_of(data);
    let freq = current(c.ctx);
    let total = freq_total(freq);
    let start = slot_start(freq, sym);
    lemma_coding_valid(data);
    lemma_narrowed_holds(c.iv, freq, sym, value, shifts);
    lemma_decoding_tracks(data, value, shifts, extra);
    lemma_table_slot(freq, sym);
    lemma_slot_fits(c.iv.range, start, freq[sym], total);
    let d = decoding_of(stream(value, shifts, extra), data);
    let r = c.iv.range / total;
    let code = d.w.code;
    assert(start * r <= code < (start + freq[sym]) * r);
    assert(start <= code / r < start + freq[sym]) by {
        vstd::arithmetic::div_mod::lemma_fundamental_div_mod(code as int, r as int);
        let q = code / r;
        assert(r * q <= code < r * q + r);
        assert(q >= start) by (nonlinear_arith)
            requires
                start * r < r * q + r,
                r >= 1,
        ;
        assert(q < start + freq[sym]) by (nonlinear_arith)
            requires
                r * q < (start + freq[sym]) * r,
                r >= 1,
        ;
    }
    lemma_symbol_from(freq, (code / r) as int, 0, sym);
}

/// What was coded is read back: the coded form of any byte string decodes to that string.
pub proof fn law_range_round_trip(data: Seq<u8>)
    ensures
        range_decoded(range_coded(data), data),
{
    law_range_ends_itself(data, Seq::empty());
    assert(range_coded(data) + Seq::<u8>::empty() =~= range_coded(data));
}

/// A coded stream ends itself: whatever bytes follow the coded form of a byte string, it
/// decodes to that string.
pub proof fn law_range_ends_itself(data: Seq<u8>, extra: Seq<u8>)
    ensures
        range_decoded(range_coded(data) + extra, data),
{
    let value = final_interval(data).low;
    let shifts = final_interval(data).shifts;
    let coded = range_coded(data) + extra;
    lemma_be_bytes_len(value, shifts + 5);
    let c = coding_of(data);
    lemma_coding_valid(data);
    lemma_table_slot(current(c.ctx), EOF_SYM as int);
    lemma_slot_fits(
        c.iv.range,
        slot_start(current(c.ctx), 256),
        current(c.ctx)[256],
        freq_total(current(c.ctx)),
    );
    lemma_renormalized_range(
        slot_of(
            c.iv,
            slot_start(current(c.ctx), 256),
            current(c.ctx)[256],
            freq_total(current(c.ctx)),
        ),
    );
    assert(holds(final_interval(data), value, shifts));
    lemma_next_symbol(data, EOF_SYM as int, value, shifts, extra);
    lemma_narrowed_holds(c.iv, current(c.ctx), EOF_SYM as int, value, shifts);
    assert forall|i: int| 0 <= i < data.len() implies next_symbol(
        #[trigger] decoding_of(coded, data.take(i)),
    ) == data[i] by {
        lemma_prefix_holds(data, i + 1, value, shifts);
        assert(data.take(i + 1).drop_last() =~= data.take(i));
        lemma_next_symbol(data.take(i), data[i] as int, value, shifts, extra);
    }
}

/// A stream decodes to at most one byte string.
pub proof fn law_range_decoded_unique(coded: Seq<u8>, a: Seq<u8>, b: Seq<u8>)
    requires
        range_decoded(coded, a),
        range_decoded(coded, b),
    ensures
        a == b,
{
    if coded.len() == 0 {
        assert(a =~= b);
    } else if a.len() <= b.len() {
        lemma_decodes_unique(coded, a, b);
    } else {
        lemma_decodes_unique(coded, b, a);
    }
}

proof fn lemma_common_prefix(coded: Seq<u8>, a: Seq<u8>, b: Seq<u8>, n: int)
    requires
        decodes_to(coded, a),
        decodes_to(coded, b),
        0 <= n <= a.len() <= b.len(),
    ensures
        a.take(n) == b.take(n),
    decreases n,
{
    if n > 0 {
        lemma_common_prefix(coded, a, b, n - 1);
        assert(next_symbol(decoding_of(coded, a.take(n - 1))) == a[n - 1]);
        assert(next_symbol(decoding_of(coded, b.take(n - 1))) == b[n - 1]);
        assert(a.take(n) =~= a.take(n - 1).push(a[n - 1]));
        assert(b.take(n) =~= b.take(n - 1).push(b[n - 1]));
    } else {
        assert(a.take(0) =~= b.take(0));
    }
}

proof fn lemma_decodes_unique(coded: Seq<u8>, a: Seq<u8>, b: Seq<u8>)
    requires
        decodes_to(coded, a),
        decodes_to(coded, b),
        a.len() <= b.len(),
    ensures
        a == b,
{
    let n = a.len() as int;
    lemma_common_prefix(coded, a, b, n);
    assert(a.take(n) =~= a);
    if a.len() < b.len() {
        assert(next_symbol(decoding_of(coded, b.take(n))) == b[n]);
    } else {
        assert(b.take(n) =~= b);
    }
}

} // verus!
