//! Adaptive symbol frequencies for the range coder.

use vstd::prelude::*;

verus! {

/// Total at which every frequency of a context is halved.
pub const MODEL_TOTAL: u32 = 16384;

/// Number of symbols: the 256 bytes and the end-of-stream symbol.
pub const MODEL_ALPHA: u32 = 257;

/// The end-of-stream symbol.
pub const EOF_SYM: usize = 256;

/// Sum of the first `n` frequencies: the start of the slot of symbol `n`.
pub open spec fn slot_start(freq: Seq<nat>, n: int) -> nat
    decreases n,
{
    if n <= 0 {
        0
    } else {
        slot_start(freq, n - 1) + freq[n - 1]
    }
}

/// Sum of all frequencies.
pub open spec fn freq_total(freq: Seq<nat>) -> nat {
    slot_start(freq, MODEL_ALPHA as int)
}

/// What every frequency table keeps: no symbol has frequency zero and the total stays
/// below the halving limit.
pub open spec fn valid_freqs(freq: Seq<nat>) -> bool {
    &&& freq.len() == MODEL_ALPHA
    &&& forall|i: int| 0 <= i < MODEL_ALPHA ==> freq[i] >= 1
    &&& freq_total(freq) < MODEL_TOTAL
}

/// The table before any symbol was seen: every symbol once.
pub open spec fn initial_freqs() -> Seq<nat> {
    Seq::new(MODEL_ALPHA as nat, |i: int| 1nat)
}

/// Every frequency halved, rounding up.
pub open spec fn halved(freq: Seq<nat>) -> Seq<nat> {
    Seq::new(freq.len(), |i: int| (freq[i] + 1) / 2)
}

/// The table after symbol `sym` was seen once more.
pub open spec fn bumped(freq: Seq<nat>, sym: int) -> Seq<nat> {
    let next = freq.update(sym, freq[sym] + 1);
    if freq_total(next) >= MODEL_TOTAL {
        halved(next)
    } else {
        next
    }
}

/// The first symbol from `from` on whose slot ends after `target`; the end-of-stream
/// symbol if there is none.
pub open spec fn symbol_from(freq: Seq<nat>, target: int, from: int) -> int
    decreases MODEL_ALPHA - from,
{
    if from >= EOF_SYM {
        EOF_SYM as int
    } else if slot_start(freq, from + 1) > target {
        from
    } else {
        symbol_from(freq, target, from + 1)
    }
}

/// The symbol whose slot holds `target`.
pub open spec fn symbol_at(freq: Seq<nat>, target: int) -> int {
    symbol_from(freq, target, 0)
}

pub proof fn lemma_slot_start_initial(n: int)
    requires
        0 <= n <= MODEL_ALPHA,
    ensures
        slot_start(initial_freqs(), n) == n,
    decreases n,
{
    if n > 0 {
        lemma_slot_start_initial(n - 1);
    }
}

pub proof fn lemma_slot_start_monotone(freq: Seq<nat>, i: int, j: int)
    requires
        0 <= i <= j,
    ensures
        slot_start(freq, i) <= slot_start(freq, j),
    decreases j - i,
{
    if i < j {
        lemma_slot_start_monotone(freq, i, j - 1);
    }
}

pub proof fn lemma_slot_start_update(freq: Seq<nat>, sym: int, value: nat, n: int)
    requires
        0 <= sym < freq.len(),
        0 <= n <= freq.len(),
    ensures
        slot_start(freq.update(sym, value), n) == if n <= sym {
            slot_start(freq, n) as int
        } else {
            slot_start(freq, n) + value - freq[sym]
        },
    decreases n,
{
    if n > 0 {
        lemma_slot_start_update(freq, sym, value, n - 1);
    }
}

pub proof fn lemma_slot_start_halved(freq: Seq<nat>, n: int)
    requires
        0 <= n <= freq.len(),
    ensures
        2 * slot_start(halved(freq), n) <= slot_start(freq, n) + n,
    decreases n,
{
    if n > 0 {
        lemma_slot_start_halved(freq, n - 1);
    }
}

pub proof fn lemma_initial_valid()
    ensures
        valid_freqs(initial_freqs()),
{
    lemma_slot_start_initial(MODEL_ALPHA as int);
}

/// Seeing a symbol keeps a table valid.
pub proof fn lemma_bumped_valid(freq: Seq<nat>, sym: int)
    requires
        valid_freqs(freq),
        0 <= sym < MODEL_ALPHA,
    ensures
        valid_freqs(bumped(freq, sym)),
{
    let next = freq.update(sym, freq[sym] + 1);
    lemma_slot_start_update(freq, sym, freq[sym] + 1, MODEL_ALPHA as int);
    lemma_slot_start_halved(next, MODEL_ALPHA as int);
}

/// A target inside a symbol's slot finds that symbol.
pub proof fn lemma_symbol_from(freq: Seq<nat>, target: int, from: int, sym: int)
    requires
        0 <= from <= sym < MODEL_ALPHA,
        slot_start(freq, sym) <= target < slot_start(freq, sym + 1),
    ensures
        symbol_from(freq, target, from) == sym,
    decreases sym - from,
{
    if from < sym {
        lemma_slot_start_monotone(freq, from + 1, sym);
        lemma_symbol_from(freq, target, from + 1, sym);
    }
}

/// Adaptive frequency model for a single context.
pub struct Model {
    freq: [u32; 258],
    cum: [u32; 258],
    total: u32,
}

impl View for Model {
    type V = Seq<nat>;

    /// The frequency of each symbol.
    closed spec fn view(&self) -> Seq<nat> {
        Seq::new(MODEL_ALPHA as nat, |i: int| self.freq@[i] as nat)
    }
}

impl Model {
    /// The cumulative table and the total agree with the frequencies.
    pub closed spec fn wf(&self) -> bool {
        &&& valid_freqs(self@)
        &&& self.total == freq_total(self@)
        &&& forall|i: int| 0 <= i <= MODEL_ALPHA ==> self.cum@[i] == slot_start(self@, i)
    }

    /// A well-formed model has a valid table.
    pub proof fn lemma_wf_valid(&self)
        requires
            self.wf(),
        ensures
            valid_freqs(self@),
    {
    }

    pub fn new() -> (model: Self)
        ensures
            model.wf(),
            model@ == initial_freqs(),
    {
        let mut freq: [u32; 258] = [1u32; 258];
        freq[257] = 0;
        let mut cum: [u32; 258] = [0u32; 258];
        let mut t: u32 = 0;
        for i in 0..257usize
            invariant
                t == i,
                freq@.len() == 258,
                cum@.len() == 258,
                forall|j: int| 0 <= j < 257 ==> freq@[j] == 1,
                forall|j: int| 0 <= j < i ==> cum@[j] == j,
        {
            cum[i] = t;
            t += freq[i];
        }
        cum[257] = t;
        let model = Model { freq, cum, total: t };
        proof {
            assert(model@ =~= initial_freqs());
            lemma_initial_valid();
            assert forall|i: int| 0 <= i <= MODEL_ALPHA implies model.cum@[i] == slot_start(model@, i) by {
                lemma_slot_start_initial(i);
            }
            lemma_slot_start_initial(257);
        }
        model
    }

    /// Counts one more occurrence of `sym`, halving all counts when the total reaches
    /// the limit.
    pub fn update(&mut self, sym: usize)
        requires
            old(self).wf(),
            sym < MODEL_ALPHA,
        ensures
            final(self).wf(),
            final(self)@ == bumped(old(self)@, sym as int),
    {
        let ghost before = self@;
        let ghost next = before.update(sym as int, before[sym as int] + 1);
        proof {
            lemma_slot_start_monotone(before, sym as int + 1, 257);
            lemma_slot_start_update(before, sym as int, before[sym as int] + 1, 257);
            lemma_bumped_valid(before, sym as int);
        }
        self.freq[sym] += 1;
        assert(self@ =~= next);

        let mut acc: u32 = 0;
        for i in 0..257usize
            invariant
                self@ == next,
                freq_total(next) <= MODEL_TOTAL,
                acc == slot_start(next, i as int),
                forall|j: int| 0 <= j < i ==> self.cum@[j] == slot_start(next, j),
        {
            proof {
                lemma_slot_start_monotone(next, i + 1, 257);
                assert(next[i as int] == self.freq@[i as int]);
            }
            self.cum[i] = acc;
            acc += self.freq[i];
            assert(self@ =~= next);
        }
        self.cum[257] = acc;
        self.total = acc;
        assert(self@ =~= next);

        if self.total >= MODEL_TOTAL {
            let ghost after = halved(next);
            let mut total: u32 = 0;
            for i in 0..257usize
                invariant
                    next.len() == 257,
                    after == halved(next),
                    freq_total(next) <= MODEL_TOTAL,
                    freq_total(after) < MODEL_TOTAL,
                    total == slot_start(after, i as int),
                    forall|j: int| 0 <= j < i ==> self.freq@[j] == after[j],
                    forall|j: int| i <= j < 257 ==> self.freq@[j] == next[j],
                    forall|j: int| 0 <= j < i ==> self.cum@[j] == slot_start(after, j),
            {
                proof {
                    lemma_slot_start_monotone(next, i + 1, 257);
                    lemma_slot_start_monotone(after, i + 1, 257);
                }
                let half: u32 = (self.freq[i] + 1) >> 1;
                let ghost f: u32 = self.freq@[i as int];
                assert(f < 0x1000_0000u32 ==> ((f + 1) as u32) >> 1u32 == (f + 1) / 2) by (bit_vector);
                self.freq[i] = half;
                self.cum[i] = total;
                total += half;
            }
            self.cum[257] = total;
            self.total = total;
            assert(self@ =~= after);
        }
    }

    /// Start of the symbol's slot, end of the slot, and the total.
    pub fn sym_range(&self, sym: usize) -> (r: (u32, u32, u32))
        requires
            self.wf(),
            sym < MODEL_ALPHA,
        ensures
            r.0 == slot_start(self@, sym as int),
            r.1 == slot_start(self@, sym as int + 1),
            r.2 == freq_total(self@),
    {
        proof {
            lemma_slot_start_monotone(self@, sym as int + 1, 257);
            assert(self@[sym as int] == self.freq@[sym as int]);
            assert(self.cum@[sym as int] == slot_start(self@, sym as int));
            assert(slot_start(self@, sym as int + 1) == slot_start(self@, sym as int) + self@[sym as int]);
        }
        (self.cum[sym], self.cum[sym] + self.freq[sym], self.total)
    }

    /// Sum of all counts.
    pub fn total(&self) -> (total: u32)
        requires
            self.wf(),
        ensures
            total == freq_total(self@),
    {
        self.total
    }

    /// The symbol whose slot holds `target`.
    pub fn find_sym(&self, target: u32) -> (sym: usize)
        requires
            self.wf(),
        ensures
            sym == symbol_at(self@, target as int),
            sym < MODEL_ALPHA,
    {
        for i in 0..256usize
            invariant
                self.wf(),
                symbol_at(self@, target as int) == symbol_from(self@, target as int, i as int),
        {
            if self.cum[i + 1] > target {
                return i;
            }
        }
        256
    }
}

/// The tables of every context before any symbol was seen.
pub open spec fn initial_models() -> Seq<Seq<nat>> {
    Seq::new(MODEL_ALPHA as nat, |i: int| initial_freqs())
}

/// Order-1 context model: one frequency model per preceding symbol.
pub struct Order1Model {
    models: Vec<Model>,
}

impl View for Order1Model {
    type V = Seq<Seq<nat>>;

    closed spec fn view(&self) -> Seq<Seq<nat>> {
        Seq::new(self.models@.len(), |i: int| self.models@[i]@)
    }
}

impl Order1Model {
    pub closed spec fn wf(&self) -> bool {
        &&& self.models@.len() == MODEL_ALPHA
        &&& forall|i: int| 0 <= i < MODEL_ALPHA ==> (#[trigger] self.models@[i]).wf()
    }

    pub fn new() -> (model: Self)
        ensures
            model.wf(),
            model@ == initial_models(),
    {
        let mut models: Vec<Model> = Vec::with_capacity(257);
        for i in 0..257usize
            invariant
                models@.len() == i,
                forall|j: int| 0 <= j < i ==> (#[trigger] models@[j]).wf() && models@[j]@ == initial_freqs(),
        {
            models.push(Model::new());
        }
        let model = Order1Model { models };
        assert(model@ =~= initial_models());
        model
    }

    /// The model of the context that follows symbol `last`.
    pub fn context(&self, last: usize) -> (model: &Model)
        requires
            self.wf(),
            last < MODEL_ALPHA,
        ensures
            model.wf(),
            model@ == self@[last as int],
    {
        &self.models[last]
    }

    /// Counts one more occurrence of `sym` after `last`.
    pub fn update(&mut self, last: usize, sym: usize)
        requires
            old(self).wf(),
            last < MODEL_ALPHA,
            sym < MODEL_ALPHA,
        ensures
            final(self).wf(),
            final(self)@ == old(self)@.update(last as int, bumped(old(self)@[last as int], sym as int)),
    {
        let ghost before = self@;
        let ghost models = self.models@;
        self.models[last].update(sym);
        proof {
            assert(models.len() == self.models@.len());
            assert(self@ =~= before.update(last as int, bumped(before[last as int], sym as int)));
        }
    }

    /// Every context of a well-formed model has a valid table.
    pub proof fn lemma_wf_valid(&self)
        requires
            self.wf(),
        ensures
            self@.len() == MODEL_ALPHA,
            forall|i: int| 0 <= i < MODEL_ALPHA ==> valid_freqs(#[trigger] self@[i]),
    {
    }
}

/// What seeing a symbol does to a table: its own count grows by one and no other changes, unless
/// the counts then come to 16384; then every count is halved, rounded up.
pub proof fn law_seen_symbol_counts(freq: Seq<nat>, sym: int, s: int)
    requires
        valid_freqs(freq),
        0 <= sym < 257,
        0 <= s < 257,
    ensures
        freq_total(freq) + 1 < 16384 ==> bumped(freq, sym)[s] == if s == sym {
            freq[s] + 1
        } else {
            freq[s]
        },
        freq_total(freq) + 1 >= 16384 ==> bumped(freq, sym)[s] == if s == sym {
            (freq[s] + 2) / 2
        } else {
            (freq[s] + 1) / 2
        },
        bumped(freq, sym).len() == 257,
{
    lemma_slot_start_update(freq, sym, freq[sym] + 1, 257);
}

/// The symbol that is found is the one whose slot holds the target: its slot starts at or below
/// the target, and the next one starts above it.
pub proof fn law_found_symbol_holds_target(freq: Seq<nat>, target: int)
    requires
        valid_freqs(freq),
        0 <= target < freq_total(freq),
    ensures
        0 <= symbol_at(freq, target) < 257,
        slot_start(freq, symbol_at(freq, target)) <= target < slot_start(
            freq,
            symbol_at(freq, target) + 1,
        ),
{
    lemma_found_from(freq, target, 0);
}

proof fn lemma_found_from(freq: Seq<nat>, target: int, from: int)
    requires
        0 <= from <= 256,
        slot_start(freq, from) <= target < slot_start(freq, 257),
    ensures
        from <= symbol_from(freq, target, from) < 257,
        slot_start(freq, symbol_from(freq, target, from)) <= target < slot_start(
            freq,
            symbol_from(freq, target, from) + 1,
        ),
    decreases 256 - from,
{
    if from < 256 && slot_start(freq, from + 1) <= target {
        lemma_found_from(freq, target, from + 1);
    }
}

} // verus!
