//! Laws of the range coder in terms of the data: how often each byte has followed which.

use vstd::prelude::*;
use crate::digits::{be_value, lemma_be_bytes_len, lemma_be_value_of_bytes, lemma_be_value_push, power256};
use crate::model::{
    freq_total, initial_freqs, law_found_symbol_holds_target, lemma_slot_start_monotone, lemma_slot_start_update, slot_start,
};
use crate::range_coder::{
    Interval, Window, after_symbol, byte_at, coding_of, current, decoding_of, fed, final_interval, followed,
    lemma_slot_fits, next_symbol, opened, place, range_coded, range_decoded, refilled, renormalized, slot_of,
    without_symbol,
};
use crate::range_laws::lemma_coding_valid;

verus! {

/// The byte before place `i`; a 0 stands before the first.
pub open spec fn before(data: Seq<u8>, i: int) -> u8 {
    if i <= 0 {
        0
    } else {
        data[i - 1]
    }
}

/// The number of places at which a byte from `from` up to, not including, `to` stands behind a
/// byte `c`.
pub open spec fn followers(data: Seq<u8>, c: u8, from: int, to: int) -> nat
    decreases data.len(),
{
    if data.len() == 0 {
        0
    } else {
        followers(data.drop_last(), c, from, to) + if before(data, data.len() - 1) == c && from
            <= data.last() < to {
            1nat
        } else {
            0nat
        }
    }
}

/// So few bytes stand behind the byte `c` that no count of them has been halved.
pub open spec fn few_followers(data: Seq<u8>, c: u8) -> bool {
    followers(data, c, 0, 256) < 16384 - 257
}

proof fn lemma_followers_split(data: Seq<u8>, c: u8, from: int, mid: int, to: int)
    requires
        from <= mid <= to,
    ensures
        followers(data, c, from, to) == followers(data, c, from, mid) + followers(data, c, mid, to),
    decreases data.len(),
{
    if data.len() > 0 {
        lemma_followers_split(data.drop_last(), c, from, mid, to);
    }
}

proof fn lemma_followers_none(data: Seq<u8>, c: u8, from: int, to: int)
    requires
        from >= to || from >= 256,
    ensures
        followers(data, c, from, to) == 0,
    decreases data.len(),
{
    if data.len() > 0 {
        lemma_followers_none(data.drop_last(), c, from, to);
    }
}

/// In coding any bytes, the table behind the byte `c` holds for every symbol 1 plus the number
/// of places at which it stands behind `c`; the end of the stream has 1. The table for the
/// next symbol is the one behind the last byte.
pub proof fn law_tables_count(data: Seq<u8>, c: u8, sym: int)
    requires
        few_followers(data, c),
        0 <= sym < 257,
    ensures
        coding_of(data).ctx.models.len() == 257,
        coding_of(data).ctx.models[c as int].len() == 257,
        coding_of(data).ctx.models[c as int][sym] == 1 + followers(data, c, sym, sym + 1),
        coding_of(data).ctx.last == before(data, data.len() as int),
        current(coding_of(data).ctx) == coding_of(data).ctx.models[before(
            data,
            data.len() as int,
        ) as int],
{
    lemma_counted(data, c);
    lemma_last(data);
    assert(coding_of(data).ctx.models[c as int][sym] == counted(data, c)[sym]);
}

/// The table of counts.
spec fn counted(data: Seq<u8>, c: u8) -> Seq<nat> {
    Seq::new(257, |s: int| 1 + followers(data, c, s, s + 1))
}

proof fn lemma_last(data: Seq<u8>)
    ensures
        coding_of(data).ctx.last == before(data, data.len() as int),
{
}

proof fn lemma_counted_slots(data: Seq<u8>, c: u8, n: int)
    requires
        0 <= n <= 257,
    ensures
        slot_start(counted(data, c), n) == n + followers(data, c, 0, n),
    decreases n,
{
    if n == 0 {
        lemma_followers_none(data, c, 0, 0);
    } else {
        lemma_counted_slots(data, c, n - 1);
        lemma_followers_split(data, c, 0, n - 1, n);
    }
}

proof fn lemma_counted_total(data: Seq<u8>, c: u8)
    ensures
        freq_total(counted(data, c)) == 257 + followers(data, c, 0, 256),
{
    lemma_counted_slots(data, c, 257);
    lemma_followers_split(data, c, 0, 256, 257);
    lemma_followers_none(data, c, 256, 257);
}

proof fn lemma_counted(data: Seq<u8>, c: u8)
    requires
        few_followers(data, c),
    ensures
        coding_of(data).ctx.models.len() == 257,
        coding_of(data).ctx.models[c as int] == counted(data, c),
    decreases data.len(),
{
    if data.len() == 0 {
        assert(counted(data, c) =~= initial_freqs());
    } else {
        let p = data.drop_last();
        let sym = data.last() as int;
        let ctx = coding_of(p).ctx;
        assert(coding_of(data).ctx == followed(ctx, sym));
        lemma_counted(p, c);
        lemma_last(p);
        assert(before(data, data.len() - 1) == before(p, p.len() as int));
        if ctx.last == c {
            let old_table = counted(p, c);
            let next = old_table.update(sym, old_table[sym] + 1);
            lemma_slot_start_update(old_table, sym, old_table[sym] + 1, 257);
            lemma_counted_total(p, c);
            assert(followers(data, c, 0, 256) == followers(p, c, 0, 256) + 1);
            assert(freq_total(next) < 16384);
            assert(next =~= counted(data, c));
        } else {
            assert(counted(data, c) =~= counted(p, c));
        }
    }
}

/// The bytes that stand behind the byte `c`, in their order.
pub open spec fn behind(data: Seq<u8>, c: u8) -> Seq<u8>
    decreases data.len(),
{
    if data.len() == 0 {
        Seq::empty()
    } else if before(data, data.len() - 1) == c {
        behind(data.drop_last(), c).push(data.last())
    } else {
        behind(data.drop_last(), c)
    }
}

/// The table that bytes leave behind, one after the other: all symbols start with 1; each byte
/// adds 1 to its own count; where the counts then come to 16384, every count is halved,
/// rounded up.
pub open spec fn learned(bytes: Seq<u8>) -> Seq<nat>
    decreases bytes.len(),
{
    if bytes.len() == 0 {
        Seq::new(257, |s: int| 1nat)
    } else {
        let t = learned(bytes.drop_last());
        let sym = bytes.last() as int;
        let next = t.update(sym, (t[sym] + 1) as nat);
        if sum_below(next, 257) >= 16384 {
            Seq::new(257, |s: int| ((next[s] + 1) / 2) as nat)
        } else {
            next
        }
    }
}

/// In coding any bytes, however many, the table behind the byte `c` is what the bytes behind
/// `c`, and no others, leave behind.
pub proof fn law_tables_learn(data: Seq<u8>, c: u8)
    ensures
        coding_of(data).ctx.models.len() == 257,
        coding_of(data).ctx.models[c as int] == learned(behind(data, c)),
    decreases data.len(),
{
    lemma_learned_len(behind(data, c));
    if data.len() == 0 {
        assert(learned(behind(data, c)) =~= initial_freqs());
    } else {
        let p = data.drop_last();
        let sym = data.last() as int;
        let ctx = coding_of(p).ctx;
        assert(coding_of(data).ctx == followed(ctx, sym));
        law_tables_learn(p, c);
        lemma_last(p);
        lemma_learned_len(behind(p, c));
        assert(before(data, data.len() - 1) == before(p, p.len() as int));
        if ctx.last == c {
            assert(behind(data, c).drop_last() =~= behind(p, c));
            let t = learned(behind(p, c));
            let next = t.update(sym, t[sym] + 1);
            lemma_sum_below(next, 257);
            assert(coding_of(data).ctx.models[c as int] =~= learned(behind(data, c)));
        }
    }
}

proof fn lemma_learned_len(bytes: Seq<u8>)
    ensures
        learned(bytes).len() == 257,
    decreases bytes.len(),
{
    if bytes.len() > 0 {
        lemma_learned_len(bytes.drop_last());
    }
}

/// A decoder that has read some bytes has the tables that an encoder of these bytes has.
pub proof fn law_decoder_tables(coded: Seq<u8>, out: Seq<u8>)
    ensures
        decoding_of(coded, out).ctx == coding_of(out).ctx,
    decreases out.len(),
{
    if out.len() > 0 {
        law_decoder_tables(coded, out.drop_last());
    }
}

/// One interval follows another in coding a symbol whose slot is `start .. start + freq` out of
/// `total`: the range is cut into `total` equal parts, the slot's parts are taken, and as long
/// as they are narrower than `2^24` they are scaled up by 256.
pub open spec fn coded_step(a: Interval, b: Interval, start: nat, freq: nat, total: nat) -> bool {
    let part = a.range / total;
    exists|k: nat|
        {
            &&& b.shifts == a.shifts + k
            &&& b.low == (a.low + start * part) * #[trigger] power256(k)
            &&& b.range == (freq * part) * power256(k)
            &&& b.range >= 0x100_0000
            &&& k > 0 ==> b.range < 0x1_0000_0000
        }
}

proof fn lemma_renormalized_step(iv: Interval)
    requires
        iv.range >= 1,
    ensures
        renormalized(iv).shifts >= iv.shifts,
        renormalized(iv).low == iv.low * power256((renormalized(iv).shifts - iv.shifts) as nat),
        renormalized(iv).range == iv.range * power256((renormalized(iv).shifts - iv.shifts) as nat),
        renormalized(iv).range >= 0x100_0000,
        renormalized(iv).shifts > iv.shifts ==> renormalized(iv).range < 0x1_0000_0000,
    decreases if iv.range >= 0x100_0000 { 0 } else { 0x100_0000 - iv.range },
{
    if iv.range < 0x100_0000 {
        let wide = Interval { low: iv.low * 256, range: iv.range * 256, shifts: iv.shifts + 1 };
        lemma_renormalized_step(wide);
        let k = (renormalized(wide).shifts - wide.shifts) as nat;
        let p = power256(k);
        let q = power256(k + 1);
        assert(q == 256 * p);
        assert(renormalized(iv) == renormalized(wide));
        assert((renormalized(iv).shifts - iv.shifts) as nat == k + 1);
        let low = iv.low;
        let range = iv.range;
        assert((low * 256) * p == low * q) by (nonlinear_arith)
            requires
                q == 256 * p,
        ;
        assert((range * 256) * p == range * q) by (nonlinear_arith)
            requires
                q == 256 * p,
        ;
        if k == 0 {
            assert(power256(0) == 1);
        }
    } else {
        let p = power256(0);
        let low = iv.low;
        let range = iv.range;
        assert(renormalized(iv) == iv);
        assert(low * p == low && range * p == range) by (nonlinear_arith)
            requires
                p == 1,
        ;
    }
}

/// In coding any bytes, the slot of the next byte `b` starts at `b` plus the number of smaller
/// bytes that have followed the last byte, is 1 plus the number of bytes `b` that have, and
/// lies in a total of 257 plus the number of all that have.
pub proof fn law_slot_by_counts(data: Seq<u8>, b: u8)
    requires
        few_followers(data, before(data, data.len() as int)),
    ensures
        ({
            let c = before(data, data.len() as int);
            coded_step(
                coding_of(data).iv,
                coding_of(data.push(b)).iv,
                b as nat + followers(data, c, 0, b as int),
                1 + followers(data, c, b as int, b + 1),
                257 + followers(data, c, 0, 256),
            )
        }),
{
    assert(data.push(b).drop_last() =~= data);
    lemma_symbol_step(data, b as int);
}

/// In coding any bytes, the end of the stream has the last slot, of width 1.
pub proof fn law_end_slot_by_counts(data: Seq<u8>)
    requires
        few_followers(data, before(data, data.len() as int)),
    ensures
        ({
            let n = followers(data, before(data, data.len() as int), 0, 256);
            coded_step(coding_of(data).iv, final_interval(data), 256 + n, 1, 257 + n)
        }),
{
    let c = before(data, data.len() as int);
    lemma_symbol_step(data, 256);
    lemma_followers_none(data, c, 256, 257);
}

proof fn lemma_symbol_step(data: Seq<u8>, sym: int)
    requires
        few_followers(data, before(data, data.len() as int)),
        0 <= sym < 257,
    ensures
        ({
            let c = before(data, data.len() as int);
            coded_step(
                coding_of(data).iv,
                after_symbol(coding_of(data), sym).iv,
                sym as nat + followers(data, c, 0, sym),
                1 + followers(data, c, sym, sym + 1),
                257 + followers(data, c, 0, 256),
            )
        }),
{
    let c = before(data, data.len() as int);
    lemma_counted(data, c);
    lemma_last(data);
    lemma_counted_slots(data, c, sym);
    lemma_counted_total(data, c);
    lemma_table_step(data, sym);
}

/// The step that the current table gives.
proof fn lemma_table_step(data: Seq<u8>, sym: int)
    requires
        0 <= sym < 257,
    ensures
        ({
            let freq = current(coding_of(data).ctx);
            coded_step(
                coding_of(data).iv,
                after_symbol(coding_of(data), sym).iv,
                slot_start(freq, sym),
                freq[sym],
                freq_total(freq),
            )
        }),
{
    let a = coding_of(data).iv;
    let freq = current(coding_of(data).ctx);
    lemma_coding_valid(data);
    let total = freq_total(freq);
    lemma_slot_start_monotone(freq, sym + 1, 257);
    lemma_slot_fits(a.range, slot_start(freq, sym), freq[sym], total);
    let slot = slot_of(a, slot_start(freq, sym), freq[sym], total);
    let part = a.range / total;
    lemma_renormalized_step(slot);
    let b = after_symbol(coding_of(data), sym).iv;
    assert(b == renormalized(slot));
    let k = (b.shifts - a.shifts) as nat;
    assert(b.low == (a.low + slot_start(freq, sym) * part) * power256(k));
}

/// The sum of the first `n` counts.
pub open spec fn sum_below(table: Seq<nat>, n: int) -> nat
    decreases n,
{
    if n <= 0 {
        0
    } else {
        sum_below(table, n - 1) + table[n - 1]
    }
}

proof fn lemma_sum_below(table: Seq<nat>, n: int)
    ensures
        sum_below(table, n) == slot_start(table, n),
    decreases n,
{
    if n > 0 {
        lemma_sum_below(table, n - 1);
    }
}

/// In coding any bytes, however many, the slot of the next byte `b` is what the bytes that have
/// followed the last byte leave behind: it starts behind the counts of the smaller ones, is as
/// wide as the count of `b`, and lies in a total of all counts.
pub proof fn law_slot_by_learning(data: Seq<u8>, b: u8)
    ensures
        ({
            let t = learned(behind(data, before(data, data.len() as int)));
            coded_step(
                coding_of(data).iv,
                coding_of(data.push(b)).iv,
                sum_below(t, b as int),
                t[b as int],
                sum_below(t, 257),
            )
        }),
{
    let c = before(data, data.len() as int);
    let t = learned(behind(data, c));
    assert(data.push(b).drop_last() =~= data);
    law_tables_learn(data, c);
    lemma_last(data);
    lemma_sum_below(t, b as int);
    lemma_sum_below(t, 257);
    lemma_table_step(data, b as int);
}

/// In coding any bytes, however many, the end of the stream has the slot behind all bytes.
pub proof fn law_end_slot_by_learning(data: Seq<u8>)
    ensures
        ({
            let t = learned(behind(data, before(data, data.len() as int)));
            coded_step(
                coding_of(data).iv,
                final_interval(data),
                sum_below(t, 256),
                t[256],
                sum_below(t, 257),
            )
        }),
{
    let c = before(data, data.len() as int);
    let t = learned(behind(data, c));
    law_tables_learn(data, c);
    lemma_last(data);
    lemma_sum_below(t, 256);
    lemma_sum_below(t, 257);
    lemma_table_step(data, 256);
}

/// The coded form of bytes, in terms of the bytes alone: intervals, the first of them all
/// numbers below `2^32 - 1`, follow one another by slots, one for every byte and one for the
/// end, and the coded form writes the low end of the last one. A slot is what the bytes that
/// have followed the same byte before leave behind.
pub open spec fn is_coded_form(data: Seq<u8>, coded: Seq<u8>) -> bool {
    exists|trace: Seq<Interval>| #[trigger] is_trace(data, trace) && coded.len()
        == trace.last().shifts + 5 && be_value(coded) == trace.last().low
}

/// The intervals of coding some bytes.
pub open spec fn is_trace(data: Seq<u8>, trace: Seq<Interval>) -> bool {
    &&& trace.len() == data.len() + 2
    &&& trace[0] == (Interval { low: 0, range: 0xFFFF_FFFF, shifts: 0 })
    &&& forall|i: int|
        #![trigger trace[i]]
        0 <= i < data.len() ==> {
            let t = learned(behind(data.take(i), before(data, i)));
            coded_step(
                trace[i],
                trace[i + 1],
                sum_below(t, data[i] as int),
                t[data[i] as int],
                sum_below(t, 257),
            )
        }
    &&& ({
        let t = learned(behind(data, before(data, data.len() as int)));
        coded_step(
            trace[data.len() as int],
            trace.last(),
            sum_below(t, 256),
            t[256],
            sum_below(t, 257),
        )
    })
}

/// As long as fewer than 16384 less the 257 counts of 1 have followed it, what bytes leave
/// behind are their numbers: 1 plus the number of places at which a symbol stands among them.
pub proof fn law_learned_counts(data: Seq<u8>, c: u8, sym: int)
    requires
        few_followers(data, c),
        0 <= sym < 257,
    ensures
        learned(behind(data, c))[sym] == 1 + followers(data, c, sym, sym + 1),
        sum_below(learned(behind(data, c)), sym) == sym + followers(data, c, 0, sym),
        sum_below(learned(behind(data, c)), 257) == 257 + followers(data, c, 0, 256),
{
    law_tables_learn(data, c);
    lemma_counted(data, c);
    lemma_counted_slots(data, c, sym);
    lemma_counted_total(data, c);
    lemma_sum_below(counted(data, c), sym);
    lemma_sum_below(counted(data, c), 257);
    assert(counted(data, c)[sym] == 1 + followers(data, c, sym, sym + 1));
}

proof fn lemma_below(data: Seq<u8>)
    ensures
        coding_of(data).iv.low + coding_of(data).iv.range <= power256(coding_of(data).iv.shifts + 4),
    decreases data.len(),
{
    if data.len() == 0 {
        reveal_with_fuel(power256, 5);
    } else {
        lemma_below(data.drop_last());
        lemma_below_step(data.drop_last(), data.last() as int);
    }
}

proof fn lemma_below_step(data: Seq<u8>, sym: int)
    requires
        coding_of(data).iv.low + coding_of(data).iv.range <= power256(coding_of(data).iv.shifts + 4),
        0 <= sym < 257,
    ensures
        ({
            let iv = after_symbol(coding_of(data), sym).iv;
            iv.low + iv.range <= power256(iv.shifts + 4)
        }),
{
    let c = coding_of(data);
    let freq = current(c.ctx);
    lemma_coding_valid(data);
    lemma_slot_start_monotone(freq, sym + 1, 257);
    lemma_slot_fits(c.iv.range, slot_start(freq, sym), freq[sym], freq_total(freq));
    let slot = slot_of(c.iv, slot_start(freq, sym), freq[sym], freq_total(freq));
    lemma_renormalized_step(slot);
    let b = renormalized(slot);
    let k = (b.shifts - slot.shifts) as nat;
    let p = power256(k);
    let q = power256(c.iv.shifts + 4);
    lemma_power_adds(c.iv.shifts + 4, k);
    let low = slot.low;
    let range = slot.range;
    assert(low * p + range * p <= q * p) by (nonlinear_arith)
        requires
            low + range <= q,
    ;
}

proof fn lemma_power_adds(a: nat, b: nat)
    ensures
        power256(a + b) == power256(a) * power256(b),
    decreases b,
{
    if b > 0 {
        lemma_power_adds(a, (b - 1) as nat);
        let x = power256(a);
        let y = power256((b - 1) as nat);
        assert(256 * (x * y) == x * (256 * y)) by (nonlinear_arith);
    } else {
        assert(power256(a) * 1 == power256(a));
    }
}

/// What coding gives for any bytes, said by what stands behind what in them.
pub proof fn law_coded_form(data: Seq<u8>)
    ensures
        is_coded_form(data, range_coded(data)),
{
    let trace = Seq::new(
        (data.len() + 2) as nat,
        |i: int|
            if i <= data.len() {
                coding_of(data.take(i)).iv
            } else {
                final_interval(data)
            },
    );
    assert(data.take(0) =~= Seq::empty());
    assert(data.take(data.len() as int) =~= data);
    assert forall|i: int| #![trigger trace[i]] 0 <= i < data.len() implies {
        let t = learned(behind(data.take(i), before(data, i)));
        coded_step(
            trace[i],
            trace[i + 1],
            sum_below(t, data[i] as int),
            t[data[i] as int],
            sum_below(t, 257),
        )
    } by {
        let seen = data.take(i);
        assert(before(seen, seen.len() as int) == before(data, i));
        law_slot_by_learning(seen, data[i]);
        assert(seen.push(data[i]) =~= data.take(i + 1));
    }
    law_end_slot_by_learning(data);
    assert(is_trace(data, trace));
    let last = final_interval(data);
    lemma_below(data);
    lemma_below_step(data, 256);
    lemma_table_step(data, 256);
    assert(last.range >= 0x100_0000);
    assert(last.low < power256(last.shifts + 4));
    assert(power256(last.shifts + 5) == 256 * power256(last.shifts + 4));
    lemma_be_value_of_bytes(last.low, last.shifts + 5);
    lemma_be_bytes_len(last.low, last.shifts + 5);
    assert(trace.last() == last);
}

/// The `n` bytes of a stream from a place on; behind its end stand zeros.
pub open spec fn bytes_from(coded: Seq<u8>, pos: nat, n: nat) -> Seq<u8> {
    Seq::new(
        n,
        |i: int|
            if pos + i < coded.len() {
                coded[pos + i]
            } else {
                0u8
            },
    )
}

/// One window follows another in reading a symbol whose slot is `start .. start + freq` out of
/// `total`: the slot's start is taken off, and as long as the slot is narrower than `2^24` it is
/// scaled up by 256 and a byte is read.
pub open spec fn read_step(coded: Seq<u8>, a: Window, b: Window, start: nat, freq: nat, total: nat) -> bool {
    let part = a.range / total;
    exists|k: nat|
        {
            &&& b.range == (freq * part) * #[trigger] power256(k)
            &&& b.range >= 0x100_0000
            &&& k > 0 ==> b.range < 0x1_0000_0000
            &&& b.pos == if a.pos + k <= coded.len() {
                a.pos + k
            } else {
                coded.len()
            }
            &&& b.code == ((a.code - start * part) * power256(k) + be_value(bytes_from(coded, a.pos, k)))
                % 0x1_0000_0000
        }
}

/// The symbol is the one in whose slot the window's code lies; a code behind all slots counts
/// as in the last place.
pub open spec fn reads_symbol(w: Window, t: Seq<nat>, sym: int) -> bool {
    let total = sum_below(t, 257);
    let at = w.code / (w.range / total);
    let q: int = if at < total {
        at as int
    } else {
        total - 1
    };
    0 <= sym < 257 && sum_below(t, sym) <= q < sum_below(t, sym + 1)
}

/// The windows of reading some bytes from a stream.
pub open spec fn is_reading(coded: Seq<u8>, out: Seq<u8>, trace: Seq<Window>) -> bool {
    &&& trace.len() == out.len() + 1
    &&& trace[0] == (Window {
        code: be_value(bytes_from(coded, 1, 4)),
        range: 0xFFFF_FFFF,
        pos: if coded.len() < 5 {
            coded.len()
        } else {
            5
        },
    })
    &&& forall|i: int|
        #![trigger trace[i]]
        0 <= i < out.len() ==> {
            let t = learned(behind(out.take(i), before(out, i)));
            let sym = out[i] as int;
            &&& reads_symbol(trace[i], t, sym)
            &&& read_step(
                coded,
                trace[i],
                trace[i + 1],
                sum_below(t, sym),
                t[sym],
                sum_below(t, 257),
            )
        }
    &&& reads_symbol(
        trace.last(),
        learned(behind(out, before(out, out.len() as int))),
        256,
    )
}

/// What a stream is read as, in terms of the stream and the bytes alone.
pub open spec fn is_read_form(coded: Seq<u8>, out: Seq<u8>) -> bool {
    exists|trace: Seq<Window>| #[trigger] is_reading(coded, out, trace)
}

proof fn lemma_be_value_front(b: u8, rest: Seq<u8>)
    ensures
        be_value(seq![b] + rest) == b * power256(rest.len()) + be_value(rest),
    decreases rest.len(),
{
    let all = seq![b] + rest;
    if rest.len() == 0 {
        assert(all =~= Seq::<u8>::empty().push(b));
        lemma_be_value_push(Seq::empty(), b);
        assert(power256(0) == 1);
    } else {
        let p = rest.drop_last();
        lemma_be_value_front(b, p);
        assert(all.drop_last() =~= seq![b] + p);
        assert(all.last() == rest.last());
        let x = power256(p.len());
        assert(power256(rest.len()) == 256 * x);
        assert((b as nat * x) * 256 == b as nat * (256 * x)) by (nonlinear_arith);
    }
}

proof fn lemma_refilled_step(coded: Seq<u8>, w: Window) -> (k: nat)
    requires
        w.range >= 1,
        w.code < 0x1_0000_0000,
        w.pos <= coded.len(),
    ensures
        refilled(coded, w).range == w.range * power256(k),
        refilled(coded, w).range >= 0x100_0000,
        k > 0 ==> refilled(coded, w).range < 0x1_0000_0000,
        refilled(coded, w).pos == if w.pos + k <= coded.len() {
            w.pos + k
        } else {
            coded.len()
        },
        refilled(coded, w).code == (w.code * power256(k) + be_value(bytes_from(coded, w.pos, k)))
            % 0x1_0000_0000,
        refilled(coded, w).code < 0x1_0000_0000,
    decreases if w.range >= 0x100_0000 { 0 } else { 0x100_0000 - w.range },
{
    if w.range >= 0x100_0000 {
        let p = power256(0);
        let range = w.range;
        let code = w.code;
        assert(range * p == range && code * p == code) by (nonlinear_arith)
            requires
                p == 1,
        ;
        assert(bytes_from(coded, w.pos, 0) =~= Seq::empty());
        0
    } else {
        let next = fed(coded, w);
        let byte = byte_at(coded, w.pos);
        assert((w.code * 256) % 0x1_0000_0000 <= 0x1_0000_0000 - 256) by {
            assert((w.code * 256) % 0x1_0000_0000 == (w.code % 0x100_0000) * 256);
        }
        let k = lemma_refilled_step(coded, next);
        let p = power256(k);
        let q = power256(k + 1);
        let range = w.range;
        let m: int = 0x1_0000_0000;
        assert(q == 256 * p);
        assert((range * 256) * p == range * q) by (nonlinear_arith)
            requires
                q == 256 * p,
        ;
        if k == 0 {
            assert(range * q == range * 256) by (nonlinear_arith)
                requires
                    q == 256,
            ;
        }
        let front = bytes_from(coded, w.pos, k + 1);
        let rest = bytes_from(coded, next.pos, k);
        assert(front =~= seq![byte as u8] + rest);
        lemma_be_value_front(byte as u8, rest);
        let v = be_value(rest) as int;
        let c = w.code as int;
        let wide = c * 256;
        let lost = wide / m;
        let code = next.code as int;
        vstd::arithmetic::div_mod::lemma_fundamental_div_mod(wide, m);
        assert(code == wide - m * lost + byte);
        let pi = p as int;
        let target = c * q + (byte * pi + v);
        assert(code * pi + v == m * (-(lost * pi)) + target) by (nonlinear_arith)
            requires
                code == wide - m * lost + byte,
                wide == c * 256,
                q == 256 * p,
                pi == p,
                target == c * q + (byte * pi + v),
        ;
        vstd::arithmetic::div_mod::lemma_mod_multiples_vanish(-(lost * pi), target, m);
        k + 1
    }
}

proof fn lemma_first_window(coded: Seq<u8>)
    requires
        coded.len() > 0,
    ensures
        opened(coded).code == be_value(bytes_from(coded, 1, 4)),
        opened(coded).code < 0x1_0000_0000,
        opened(coded).pos == if coded.len() < 5 {
            coded.len()
        } else {
            5
        },
{
    let b = bytes_from(coded, 1, 4);
    assert(b =~= Seq::<u8>::empty().push(b[0]).push(b[1]).push(b[2]).push(b[3]));
    lemma_be_value_push(Seq::empty(), b[0]);
    lemma_be_value_push(Seq::<u8>::empty().push(b[0]), b[1]);
    lemma_be_value_push(Seq::<u8>::empty().push(b[0]).push(b[1]), b[2]);
    lemma_be_value_push(Seq::<u8>::empty().push(b[0]).push(b[1]).push(b[2]), b[3]);
}

/// The windows that a decoder has gone through.
proof fn lemma_decoding_bounds(coded: Seq<u8>, out: Seq<u8>)
    requires
        coded.len() > 0,
    ensures
        decoding_of(coded, out).w.code < 0x1_0000_0000,
        decoding_of(coded, out).w.range >= 0x100_0000,
        decoding_of(coded, out).w.pos <= coded.len(),
    decreases out.len(),
{
    if out.len() == 0 {
        lemma_first_window(coded);
    } else {
        lemma_decoding_bounds(coded, out.drop_last());
        lemma_read_table_step(coded, out.drop_last(), out.last() as int);
    }
}

proof fn lemma_read_table_step(coded: Seq<u8>, out: Seq<u8>, sym: int)
    requires
        coded.len() > 0,
        0 <= sym < 257,
        decoding_of(coded, out).w.code < 0x1_0000_0000,
        decoding_of(coded, out).w.range >= 0x100_0000,
        decoding_of(coded, out).w.pos <= coded.len(),
    ensures
        ({
            let freq = current(coding_of(out).ctx);
            let a = decoding_of(coded, out).w;
            let b = without_symbol(coded, decoding_of(coded, out), sym).w;
            let part = a.range / freq_total(freq);
            &&& b.code < 0x1_0000_0000
            &&& b.range >= 0x100_0000
            &&& b.pos <= coded.len()
            &&& a.code >= slot_start(freq, sym) * part ==> read_step(
                coded,
                a,
                b,
                slot_start(freq, sym),
                freq[sym],
                freq_total(freq),
            )
        }),
{
    law_decoder_tables(coded, out);
    let freq = current(coding_of(out).ctx);
    lemma_coding_valid(out);
    let a = decoding_of(coded, out).w;
    let total = freq_total(freq);
    let start = slot_start(freq, sym);
    lemma_slot_start_monotone(freq, sym + 1, 257);
    lemma_slot_fits(a.range, start, freq[sym], total);
    let part = a.range / total;
    let w = Window {
        code: ((a.code - start * part) % 0x1_0000_0000) as nat,
        range: freq[sym] * part,
        pos: a.pos,
    };
    let k = lemma_refilled_step(coded, w);
    let b = refilled(coded, w);
    assert(b == without_symbol(coded, decoding_of(coded, out), sym).w);
    if a.code >= start * part {
        assert(w.code == a.code - start * part);
        assert(b.range == (freq[sym] * part) * power256(k));
    }
}

/// The symbol that is read lies where the code does.
proof fn lemma_reads_symbol(coded: Seq<u8>, out: Seq<u8>)
    requires
        coded.len() > 0,
    ensures
        ({
            let t = learned(behind(out, before(out, out.len() as int)));
            let d = decoding_of(coded, out);
            let sym = next_symbol(d);
            &&& reads_symbol(d.w, t, sym)
            &&& t == current(coding_of(out).ctx)
            &&& slot_start(t, sym) == sum_below(t, sym)
            &&& freq_total(t) == sum_below(t, 257)
            &&& d.w.code >= sum_below(t, sym) * (d.w.range / sum_below(t, 257))
        }),
{
    let c = before(out, out.len() as int);
    let t = learned(behind(out, c));
    law_tables_learn(out, c);
    lemma_last(out);
    law_decoder_tables(coded, out);
    lemma_coding_valid(out);
    lemma_decoding_bounds(coded, out);
    let d = decoding_of(coded, out);
    let total = freq_total(t);
    let part = d.w.range / total;
    lemma_slot_start_monotone(t, 1, 257);
    assert(t[0] >= 1);
    let at = place(d.w, total);
    let q: int = if at < total {
        at as int
    } else {
        total - 1
    };
    law_found_symbol_holds_target(t, q);
    let sym = next_symbol(d);
    lemma_sum_below(t, sym);
    lemma_sum_below(t, sym + 1);
    lemma_sum_below(t, 257);
    lemma_slot_fits(d.w.range, 0, 1, total);
    let code = d.w.code as int;
    vstd::arithmetic::div_mod::lemma_fundamental_div_mod(code, part as int);
    vstd::arithmetic::div_mod::lemma_mod_bound(code, part as int);
    let s = sum_below(t, sym) as int;
    let a = at as int;
    let pi = part as int;
    assert(s * pi <= code) by (nonlinear_arith)
        requires
            s <= a,
            code == pi * a + code % pi,
            code % pi >= 0,
            pi >= 1,
    ;
}

/// What decoding gives for any stream, said by the stream's bytes and by what stands behind what
/// in the bytes that it is read as.
pub proof fn law_read_form(coded: Seq<u8>, out: Seq<u8>)
    requires
        range_decoded(coded, out),
    ensures
        coded.len() == 0 ==> out.len() == 0,
        coded.len() > 0 ==> is_read_form(coded, out),
{
    if coded.len() > 0 {
        let trace = Seq::new(
            (out.len() + 1) as nat,
            |i: int| decoding_of(coded, out.take(i)).w,
        );
        assert(out.take(0) =~= Seq::empty());
        assert(out.take(out.len() as int) =~= out);
        lemma_first_window(coded);
        assert forall|i: int| #![trigger trace[i]] 0 <= i < out.len() implies {
            let t = learned(behind(out.take(i), before(out, i)));
            let sym = out[i] as int;
            &&& reads_symbol(trace[i], t, sym)
            &&& read_step(
                coded,
                trace[i],
                trace[i + 1],
                sum_below(t, sym),
                t[sym],
                sum_below(t, 257),
            )
        } by {
            let seen = out.take(i);
            assert(before(seen, seen.len() as int) == before(out, i));
            assert(next_symbol(decoding_of(coded, seen)) == out[i]);
            lemma_reads_symbol(coded, seen);
            lemma_decoding_bounds(coded, seen);
            lemma_read_table_step(coded, seen, out[i] as int);
            assert(out.take(i + 1).drop_last() =~= seen);
        }
        lemma_reads_symbol(coded, out);
        assert(trace.last() == decoding_of(coded, out).w);
        assert(is_reading(coded, out, trace));
    }
}

} // verus!
