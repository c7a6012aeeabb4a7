//! Normalized frequency models: each symbol owns a contiguous interval of the
//! 65536 code words, as wide as its frequency.
use vstd::prelude::*;

use crate::error::Error;

verus! {

/// The number of code words, which is also the sum of a model's frequencies.
pub const SCALE: u32 = 65536;

/// 2^64, the scale of the fixed-point reciprocals.
pub open spec fn two_pow_64() -> int {
    0x1_0000_0000_0000_0000
}

/// A symbol's slot: the code words `start .. start + frequency`, and the
/// reciprocal `ceil(2^64 / frequency)` used to divide by the frequency.
#[derive(Clone, Copy, Debug)]
pub struct Symbol {
    pub frequency: u32,
    pub start: u32,
    pub reciprocal: u64,
}

/// A frequency in `1 ..= 65536` whose reciprocal is `ceil(2^64 / frequency)`
/// (frequency 1 needs no reciprocal).
pub open spec fn reciprocal_ok(s: Symbol) -> bool {
    &&& 1 <= s.frequency <= SCALE
    &&& s.frequency >= 2 ==> two_pow_64() <= s.reciprocal * s.frequency < two_pow_64()
        + s.frequency
}

/// What every symbol of a model satisfies.
pub open spec fn symbol_wf(s: Symbol) -> bool {
    &&& s.start + s.frequency <= SCALE
    &&& s.frequency >= 2 ==> two_pow_64() <= s.reciprocal * s.frequency < two_pow_64()
        + s.frequency
}

/// A table of symbols that tiles the code words `0 .. 65536` in order.
pub open spec fn table_wf(t: Seq<Symbol>) -> bool {
    &&& 1 <= t.len() <= u32::MAX
    &&& t[0].start == 0
    &&& t.last().start + t.last().frequency == SCALE
    &&& forall|i: int, j: int|
        #![trigger t[i], t[j]]
        0 <= i && j == i + 1 && j < t.len() ==> t[j].start == t[i].start + t[i].frequency
    &&& forall|i: int, j: int|
        #![trigger t[i], t[j]]
        0 <= i < j < t.len() ==> t[i].start + t[i].frequency <= t[j].start
    &&& forall|i: int| 0 <= i < t.len() ==> symbol_wf(#[trigger] t[i])
}

/// The symbol whose interval holds the code word `w`.
pub open spec fn lookup_index(t: Seq<Symbol>, w: int) -> int {
    choose|s: int| 0 <= s < t.len() && (#[trigger] t[s]).start <= w < t[s].start + t[s].frequency
}

/// The sum of a sequence of frequencies.
pub open spec fn freq_sum(fs: Seq<u32>) -> nat
    decreases fs.len(),
{
    if fs.len() == 0 {
        0
    } else {
        freq_sum(fs.drop_last()) + fs.last() as nat
    }
}

/// The frequencies of a table, in symbol order.
pub open spec fn table_freqs(t: Seq<Symbol>) -> Seq<u32> {
    t.map_values(|s: Symbol| s.frequency)
}

/// A code word interval holds exactly one symbol: the one `lookup_index` names.
pub proof fn lemma_lookup_unique(t: Seq<Symbol>, s: int, w: int)
    requires
        table_wf(t),
        0 <= s < t.len(),
        t[s].start <= w < t[s].start + t[s].frequency,
    ensures
        lookup_index(t, w) == s,
{
    let k = lookup_index(t, w);
    assert(0 <= k < t.len() && t[k].start <= w < t[k].start + t[k].frequency);
    if k < s {
        assert(t[k].start + t[k].frequency <= t[s].start);
    } else if s < k {
        assert(t[s].start + t[s].frequency <= t[k].start);
    }
}

proof fn lemma_freq_sum_prefix(fs: Seq<u32>, i: int)
    requires
        0 <= i <= fs.len(),
    ensures
        freq_sum(fs.subrange(0, i)) <= freq_sum(fs),
    decreases fs.len() - i,
{
    if i < fs.len() {
        lemma_freq_sum_prefix(fs, i + 1);
        assert(fs.subrange(0, i + 1).drop_last() =~= fs.subrange(0, i));
    } else {
        assert(fs.subrange(0, i) =~= fs);
    }
}

proof fn lemma_reciprocal(f: u64, q: u64)
    requires
        2 <= f,
        q == 0xffff_ffff_ffff_ffffu64 / f,
    ensures
        two_pow_64() <= (q + 1) * f < two_pow_64() + f,
        q < 0xffff_ffff_ffff_ffffu64,
{
    let m: int = 0xffff_ffff_ffff_ffff;
    vstd::arithmetic::div_mod::lemma_fundamental_div_mod(m, f as int);
    vstd::arithmetic::div_mod::lemma_mod_bound(m, f as int);
    assert((q + 1) * f == q * f + f) by (nonlinear_arith);
    assert(f * q == q * f) by (nonlinear_arith);
    assert(q * 2 <= q * f) by (nonlinear_arith)
        requires
            f >= 2,
    ;
}

/// A decoded code word: the symbol, its frequency, and the word's offset in the
/// symbol's interval.
#[derive(Clone, Copy, Debug)]
pub struct Decoded {
    pub symbol: u32,
    pub frequency: u32,
    pub remainder: u32,
}

/// A normalized model: symbol `i` has frequency `frequencies[i]`, and the
/// frequencies sum to 65536.
pub struct Model {
    symbols: Vec<Symbol>,
}

impl View for Model {
    type V = Seq<Symbol>;

    closed spec fn view(&self) -> Seq<Symbol> {
        self.symbols@
    }
}

impl Model {
    #[verifier::type_invariant]
    spec fn inv(self) -> bool {
        table_wf(self.symbols@)
    }

    /// Builds the model whose symbol `i` has frequency `frequencies[i]`.
    /// Zero frequencies are allowed; such symbols cannot be encoded.
    pub fn new(frequencies: &[u32]) -> (r: Result<Model, Error>)
        ensures
            r is Ok <==> 1 <= frequencies@.len() <= u32::MAX && freq_sum(frequencies@) == SCALE,
            r is Err ==> r == Err::<Model, Error>(Error::InvalidModel),
            r matches Ok(m) ==> table_freqs(m@) == frequencies@ && table_wf(m@),
    {
        let n = frequencies.len();
        if n == 0 || n > u32::MAX as usize {
            return Err(Error::InvalidModel);
        }
        let mut symbols: Vec<Symbol> = Vec::with_capacity(n);
        let mut start: u32 = 0;
        let mut i: usize = 0;
        while i < n
            invariant
                n == frequencies@.len(),
                1 <= n <= u32::MAX,
                0 <= i <= n,
                symbols@.len() == i,
                start <= SCALE,
                start == freq_sum(frequencies@.subrange(0, i as int)),
                i > 0 ==> symbols@[0].start == 0,
                i == 0 ==> start == 0,
                i > 0 ==> symbols@.last().start + symbols@.last().frequency == start,
                forall|k: int| 0 <= k < i ==> (#[trigger] symbols@[k]).frequency == frequencies@[k],
                forall|a: int, b: int|
                    #![trigger symbols@[a], symbols@[b]]
                    0 <= a && b == a + 1 && b < i ==> symbols@[b].start == symbols@[a].start
                        + symbols@[a].frequency,
                forall|a: int, b: int|
                    #![trigger symbols@[a], symbols@[b]]
                    0 <= a < b < i ==> symbols@[a].start + symbols@[a].frequency <= symbols@[b].start,
                forall|a: int| 0 <= a < i ==> symbols@[a].start + symbols@[a].frequency <= start,
                forall|a: int| 0 <= a < i ==> symbol_wf(#[trigger] symbols@[a]),
            decreases n - i,
        {
            let f = frequencies[i];
            proof {
                assert(frequencies@.subrange(0, i + 1).drop_last() =~= frequencies@.subrange(
                    0,
                    i as int,
                ));
            }
            if f > SCALE - start {
                proof {
                    lemma_freq_sum_prefix(frequencies@, i + 1);
                }
                return Err(Error::InvalidModel);
            }
            let reciprocal: u64 = if f >= 2 {
                let q = u64::MAX / (f as u64);
                proof {
                    lemma_reciprocal(f as u64, q);
                }
                q + 1
            } else {
                0
            };
            let sym = Symbol { frequency: f, start, reciprocal };
            let ghost old_symbols = symbols@;
            symbols.push(sym);
            proof {
                assert(symbols@[i as int] == sym);
                assert forall|a: int, b: int|
                    #![trigger symbols@[a], symbols@[b]]
                    0 <= a && b == a + 1 && b < i + 1 implies symbols@[b].start
                        == symbols@[a].start + symbols@[a].frequency by {
                    if b < i {
                        assert(symbols@[a] == old_symbols[a]);
                        assert(symbols@[b] == old_symbols[b]);
                    } else {
                        assert(symbols@[a] == old_symbols.last());
                    }
                }
                assert forall|a: int, b: int|
                    #![trigger symbols@[a], symbols@[b]]
                    0 <= a < b < i + 1 implies symbols@[a].start + symbols@[a].frequency
                        <= symbols@[b].start by {
                    assert(symbols@[a] == old_symbols[a]);
                    if b < i {
                        assert(symbols@[b] == old_symbols[b]);
                    }
                }
                assert forall|a: int| 0 <= a < i + 1 implies symbols@[a].start
                    + symbols@[a].frequency <= start + f by {
                    if a < i {
                        assert(symbols@[a] == old_symbols[a]);
                    }
                }
            }
            start = start + f;
            i = i + 1;
        }
        proof {
            assert(frequencies@.subrange(0, n as int) =~= frequencies@);
        }
        if start != SCALE {
            return Err(Error::InvalidModel);
        }
        let model = Model { symbols };
        proof {
            assert(table_freqs(model@) =~= frequencies@);
        }
        Ok(model)
    }

    /// The symbols, in order; index `i` is symbol `i`.
    pub fn symbols(&self) -> (r: &[Symbol])
        ensures
            r@ == self@,
            table_wf(self@),
    {
        proof {
            use_type_invariant(self);
        }
        self.symbols.as_slice()
    }

    /// The code word at offset `remainder` in `symbol`'s interval.
    pub fn embed_validated(&self, symbol: &Symbol, remainder: u32) -> (w: u16)
        requires
            symbol_wf(*symbol),
            remainder < symbol.frequency,
        ensures
            w == symbol.start + remainder,
    {
        (symbol.start + remainder) as u16
    }

    /// The symbol whose interval holds `word`, with its frequency and the
    /// word's offset in the interval.
    pub fn lookup(&self, word: u16) -> (d: Decoded)
        ensures
            table_wf(self@),
            d.symbol == lookup_index(self@, word as int),
            d.symbol < self@.len(),
            d.frequency == self@[d.symbol as int].frequency,
            d.remainder == word - self@[d.symbol as int].start,
            self@[d.symbol as int].start <= word < self@[d.symbol as int].start
                + self@[d.symbol as int].frequency,
    {
        proof {
            use_type_invariant(self);
        }
        let t = &self.symbols;
        let w = word as u32;
        let mut lo: usize = 0;
        let mut hi: usize = t.len();
        while hi - lo > 1
            invariant
                table_wf(t@),
                t@ == self@,
                0 <= lo < hi <= t@.len(),
                t@[lo as int].start <= w,
                hi < t@.len() ==> t@[hi as int].start > w,
            decreases hi - lo,
        {
            let mid = lo + (hi - lo) / 2;
            if t[mid].start <= w {
                lo = mid;
            } else {
                hi = mid;
            }
        }
        let s = &t[lo];
        proof {
            if hi < t@.len() {
                assert(t@[hi as int].start == t@[lo as int].start + t@[lo as int].frequency);
            }
            lemma_lookup_unique(t@, lo as int, w as int);
        }
        Decoded { symbol: lo as u32, frequency: s.frequency, remainder: w - s.start }
    }
}

} // verus!
