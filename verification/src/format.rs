//! The payload format and the decoder's state machine, as mathematics.
//!
//! Symbol `i` of a stream belongs to lane `i % lanes`. Within a lane the coder
//! keeps a mixed-radix numerator over a denominator, the product of the
//! frequencies coded so far. Once a denominator reaches `2^delay`, the lane's
//! next code word is not written to the payload ("virtual"): it is carried in the
//! low 16 bits of the numerator, and the denominator drops 16 bits.
use vstd::prelude::*;
use vstd::arithmetic::power2::pow2;

use crate::arith::two_pow_48;
use crate::error::Error;
use crate::model::{lookup_index, symbol_wf, two_pow_64, Symbol};

verus! {

/// The delay thresholds that the coder accepts, in bits.
pub open spec fn delay_ok(delay: int) -> bool {
    16 <= delay <= 32
}

/// The lane counts that the coder accepts.
pub open spec fn lanes_ok(lanes: int) -> bool {
    lanes == 1 || lanes == 2 || lanes == 4 || lanes == 8
}

/// A lane's denominator after a symbol of this denominator is coded.
pub open spec fn renormalized(den: nat, delay: nat) -> nat {
    if den >= pow2(delay) {
        den / 65536
    } else {
        den
    }
}

/// The denominator of index `j`'s lane once symbol `j` is coded, before any
/// renormalization.
pub open spec fn den_pre(syms: Seq<Symbol>, delay: nat, lanes: nat, j: int) -> nat
    decreases j,
{
    let before = if lanes > 0 && j >= lanes {
        renormalized(den_pre(syms, delay, lanes, j - lanes), delay)
    } else {
        1
    };
    before * (syms[j].frequency as nat)
}

/// The denominator of index `j`'s lane after symbol `j` (1 for `j < 0`).
pub open spec fn den_state(syms: Seq<Symbol>, delay: nat, lanes: nat, j: int) -> nat {
    if j < 0 {
        1
    } else {
        renormalized(den_pre(syms, delay, lanes, j), delay)
    }
}

/// Whether coding symbol `j` reached the threshold, so that the next symbol of
/// its lane (index `j + lanes`) has a virtual code word.
pub open spec fn carries(syms: Seq<Symbol>, delay: nat, lanes: nat, j: int) -> bool {
    j >= 0 && den_pre(syms, delay, lanes, j) >= pow2(delay)
}

/// Whether symbol `i`'s code word is virtual rather than written.
pub open spec fn is_virtual(syms: Seq<Symbol>, delay: nat, lanes: nat, i: int) -> bool {
    carries(syms, delay, lanes, i - lanes)
}

/// The numerator of index `j`'s lane after symbol `j` is decoded, and before
/// any renormalization; equally, what the encoder's backward pass holds for
/// that lane just before it codes index `j + lanes`.
pub open spec fn num_in(syms: Seq<Symbol>, delay: nat, lanes: nat, j: int) -> nat
    decreases syms.len() - j,
{
    if lanes == 0 || j + lanes >= syms.len() {
        0
    } else {
        let i = j + lanes;
        let a = num_in(syms, delay, lanes, i);
        let f = syms[i].frequency as nat;
        if carries(syms, delay, lanes, j) {
            (a / f) * 65536 + (syms[i].start as nat) + a % f
        } else {
            a / f
        }
    }
}

/// The code word of symbol `i`.
pub open spec fn word(syms: Seq<Symbol>, delay: nat, lanes: nat, i: int) -> nat {
    (syms[i].start as nat) + num_in(syms, delay, lanes, i) % (syms[i].frequency as nat)
}

/// A code word as two big-endian bytes.
pub open spec fn be_bytes(w: nat) -> Seq<u8> {
    seq![(w / 256) as u8, (w % 256) as u8]
}

/// The payload bytes of the first `k` symbols: the written code words in index
/// order.
pub open spec fn payload(syms: Seq<Symbol>, delay: nat, lanes: nat, k: int) -> Seq<u8>
    decreases k,
{
    if k <= 0 {
        Seq::empty()
    } else if is_virtual(syms, delay, lanes, k - 1) {
        payload(syms, delay, lanes, k - 1)
    } else {
        payload(syms, delay, lanes, k - 1) + be_bytes(word(syms, delay, lanes, k - 1))
    }
}

/// An event is codable: the symbol is in its model with nonzero frequency.
pub open spec fn event_ok(table: Seq<Symbol>, id: u32) -> bool {
    id < table.len() && table[id as int].frequency > 0
}

/// The symbols that a stream of events selects.
pub open spec fn resolve(tables: Seq<Seq<Symbol>>, ids: Seq<u32>) -> Seq<Symbol> {
    Seq::new(ids.len(), |i: int| tables[i][ids[i] as int])
}

/// The same model for every one of `n` symbols.
pub open spec fn same_table(t: Seq<Symbol>, n: nat) -> Seq<Seq<Symbol>> {
    Seq::new(n, |i: int| t)
}

/// What encoding a stream gives, into a buffer of `capacity` bytes: the payload,
/// or the first check that fails.
pub open spec fn encode_result(
    delay: int,
    lanes: int,
    tables: Seq<Seq<Symbol>>,
    ids: Seq<u32>,
    capacity: nat,
) -> Result<Seq<u8>, Error> {
    let p = payload(resolve(tables, ids), delay as nat, lanes as nat, ids.len() as int);
    if !delay_ok(delay) {
        Err(Error::InvalidDelay)
    } else if !lanes_ok(lanes) {
        Err(Error::InvalidLanes)
    } else if 2 * ids.len() > usize::MAX {
        Err(Error::InputTooLarge)
    } else if exists|i: int| 0 <= i < ids.len() && !event_ok(#[trigger] tables[i], ids[i]) {
        Err(Error::InvalidSymbol)
    } else if p.len() > capacity {
        Err(Error::OutputTooSmall)
    } else {
        Ok(p)
    }
}

/// One lane of the decoder.
#[derive(Clone, Copy)]
pub struct CodingState {
    pub numerator: u64,
    pub denominator: u64,
    pub virtual_word: Option<u16>,
}

/// The state of a fresh lane.
pub open spec fn fresh_lane() -> CodingState {
    CodingState { numerator: 0, denominator: 1, virtual_word: None }
}

/// Everything a decoder holds besides its input.
pub struct DecodeState {
    pub position: nat,
    pub states: Seq<CodingState>,
    pub lane: nat,
    pub error: Option<Error>,
}

/// A decoder that has read nothing.
pub open spec fn fresh_decoder(lanes: nat) -> DecodeState {
    DecodeState {
        position: 0,
        states: Seq::new(lanes, |i: int| fresh_lane()),
        lane: 0,
        error: None,
    }
}

/// The big-endian word at `pos`.
pub open spec fn word_at(input: Seq<u8>, pos: int) -> nat {
    input[pos] as nat * 256 + input[pos + 1] as nat
}

/// One read: the next state and what the read returns.
pub open spec fn read_step(
    s: DecodeState,
    input: Seq<u8>,
    delay: nat,
    lanes: nat,
    table: Seq<Symbol>,
) -> (DecodeState, Result<u32, Error>) {
    if s.error is Some {
        (s, Err(s.error->0))
    } else {
        let st = s.states[s.lane as int];
        if st.virtual_word is None && s.position + 2 > input.len() {
            (DecodeState { error: Some(Error::TruncatedInput), ..s }, Err(Error::TruncatedInput))
        } else {
            let w: nat = match st.virtual_word {
                Some(v) => v as nat,
                None => word_at(input, s.position as int),
            };
            let position = if st.virtual_word is Some {
                s.position
            } else {
                s.position + 2
            };
            let k = lookup_index(table, w as int);
            let f = table[k].frequency as nat;
            let r = (w - table[k].start) as nat;
            let num = (st.numerator as nat * f + r) % (two_pow_64() as nat);
            let den = st.denominator as nat * f;
            let next = if den >= pow2(delay) {
                CodingState {
                    numerator: (num / 65536) as u64,
                    denominator: (den / 65536) as u64,
                    virtual_word: Some((num % 65536) as u16),
                }
            } else {
                CodingState { numerator: num as u64, denominator: den as u64, virtual_word: None }
            };
            (
                DecodeState {
                    position,
                    states: s.states.update(s.lane as int, next),
                    lane: (s.lane + 1) % lanes,
                    error: None,
                },
                Ok(k as u32),
            )
        }
    }
}

/// `k` reads with the models `tables[0..k]`, stopping at the first error: the
/// state, the symbols read, and the error if one came.
pub open spec fn read_many(
    s: DecodeState,
    input: Seq<u8>,
    delay: nat,
    lanes: nat,
    tables: Seq<Seq<Symbol>>,
    k: int,
) -> (DecodeState, Seq<u32>, Result<(), Error>)
    decreases k,
{
    if k <= 0 {
        (s, Seq::empty(), Ok(()))
    } else {
        let (s1, out, r) = read_many(s, input, delay, lanes, tables, k - 1);
        if r is Err {
            (s1, out, r)
        } else {
            let (s2, x) = read_step(s1, input, delay, lanes, tables[k - 1]);
            match x {
                Ok(sym) => (s2, out.push(sym), Ok(())),
                Err(e) => (s2, out, Err(e)),
            }
        }
    }
}

/// The final check: no error, the whole input read, and every lane back at a
/// zero numerator with no pending word other than zero.
pub open spec fn finish_result(s: DecodeState, input: Seq<u8>) -> Result<(), Error> {
    if s.error is Some {
        Err(s.error->0)
    } else if s.position != input.len() {
        Err(Error::TrailingInput)
    } else if exists|i: int|
        0 <= i < s.states.len() && ((#[trigger] s.states[i]).numerator != 0 || (
        s.states[i].virtual_word matches Some(w) && w != 0)) {
        Err(Error::InvalidState)
    } else {
        Ok(())
    }
}

/// Decoding `tables.len()` symbols from `input`: the symbols read (a prefix on
/// error) and the outcome.
pub open spec fn decode_result(
    delay: int,
    lanes: int,
    input: Seq<u8>,
    tables: Seq<Seq<Symbol>>,
) -> (Seq<u32>, Result<(), Error>) {
    if !delay_ok(delay) {
        (Seq::empty(), Err(Error::InvalidDelay))
    } else if !lanes_ok(lanes) {
        (Seq::empty(), Err(Error::InvalidLanes))
    } else {
        let (s, out, r) = read_many(
            fresh_decoder(lanes as nat),
            input,
            delay as nat,
            lanes as nat,
            tables,
            tables.len() as int,
        );
        if r is Err {
            (out, r)
        } else {
            (out, finish_result(s, input))
        }
    }
}

/// Every symbol of the stream can be coded: nonzero frequency, and an interval
/// inside the code space.
pub open spec fn codable(syms: Seq<Symbol>) -> bool {
    codable_upto(syms, syms.len() as int)
}

/// The symbols before index `m` can be coded.
pub open spec fn codable_upto(syms: Seq<Symbol>, m: int) -> bool {
    forall|i: int|
        0 <= i < m && i < syms.len() ==> (#[trigger] syms[i]).frequency >= 1 && symbol_wf(syms[i])
}

/// The lane state after symbol `j` is decoded (a fresh lane for `j < 0`).
pub open spec fn lane_after(syms: Seq<Symbol>, delay: nat, lanes: nat, j: int) -> CodingState {
    let a = num_in(syms, delay, lanes, j);
    if carries(syms, delay, lanes, j) {
        CodingState {
            numerator: (a / 65536) as u64,
            denominator: den_state(syms, delay, lanes, j) as u64,
            virtual_word: Some((a % 65536) as u16),
        }
    } else {
        CodingState {
            numerator: a as u64,
            denominator: den_state(syms, delay, lanes, j) as u64,
            virtual_word: None,
        }
    }
}

pub proof fn lemma_threshold(delay: nat)
    requires
        delay_ok(delay as int),
    ensures
        65536 <= pow2(delay) <= 0x1_0000_0000,
{
    vstd::arithmetic::power2::lemma2_to64();
    if delay > 16 {
        vstd::arithmetic::power2::lemma_pow2_strictly_increases(16, delay);
    }
    if delay < 32 {
        vstd::arithmetic::power2::lemma_pow2_strictly_increases(delay, 32);
    }
}

/// Denominators stay positive, below `2^delay` between symbols and below
/// `2^(delay + 16)` in between.
pub proof fn lemma_den_bounds(syms: Seq<Symbol>, delay: nat, lanes: nat, j: int)
    requires
        delay_ok(delay as int),
        lanes > 0,
        codable_upto(syms, j + 1),
        j < syms.len(),
    ensures
        1 <= den_state(syms, delay, lanes, j) < pow2(delay),
        j >= 0 ==> 1 <= den_pre(syms, delay, lanes, j) < pow2(delay) * 65536,
    decreases j,
{
    lemma_threshold(delay);
    if j >= 0 {
        if j >= lanes {
            lemma_den_bounds(syms, delay, lanes, j - lanes);
        }
        let before = den_state(syms, delay, lanes, j - lanes);
        let f = syms[j].frequency as nat;
        assert(syms[j].frequency >= 1 && symbol_wf(syms[j]));
        assert(den_pre(syms, delay, lanes, j) == before * f);
        let t = pow2(delay);
        assert(1 <= before * f < t * 65536) by (nonlinear_arith)
            requires
                1 <= before < t,
                1 <= f <= 65536,
        ;
        let p = before * f;
        if p >= t {
            assert(1 <= p / 65536 < t) by (nonlinear_arith)
                requires
                    65536 <= t <= p < t * 65536,
            ;
        }
    }
}

/// Each lane's numerator stays below its denominator.
pub proof fn lemma_num_bound(syms: Seq<Symbol>, delay: nat, lanes: nat, j: int)
    requires
        delay_ok(delay as int),
        lanes > 0,
        codable(syms),
        -(lanes as int) <= j,
        j < syms.len() || j < 0,
    ensures
        num_in(syms, delay, lanes, j) < (if j < 0 {
            1
        } else {
            den_pre(syms, delay, lanes, j)
        }),
        num_in(syms, delay, lanes, j) < two_pow_48(),
        j < 0 ==> num_in(syms, delay, lanes, j) == 0,
    decreases syms.len() - j,
{
    lemma_threshold(delay);
    if j < syms.len() {
        lemma_den_bounds(syms, delay, lanes, j);
    }
    if j + lanes < syms.len() {
        let i = j + lanes;
        lemma_num_bound(syms, delay, lanes, i);
        lemma_den_bounds(syms, delay, lanes, i);
        let a = num_in(syms, delay, lanes, i);
        let f = syms[i].frequency as nat;
        assert(syms[i].frequency >= 1 && symbol_wf(syms[i]));
        let ds = den_state(syms, delay, lanes, j);
        assert(den_pre(syms, delay, lanes, i) == ds * f);
        let q = a / f;
        vstd::arithmetic::div_mod::lemma_fundamental_div_mod(a as int, f as int);
        vstd::arithmetic::div_mod::lemma_mod_bound(a as int, f as int);
        assert(q < ds) by (nonlinear_arith)
            requires
                a == f * q + a % f,
                0 <= a % f,
                a < ds * f,
                f > 0,
        ;
        if carries(syms, delay, lanes, j) {
            let p = den_pre(syms, delay, lanes, j);
            assert(ds == p / 65536);
            vstd::arithmetic::div_mod::lemma_fundamental_div_mod(p as int, 65536);
            assert(num_in(syms, delay, lanes, j) == q * 65536 + syms[i].start + a % f);
            assert(q * 65536 + 65536 <= ds * 65536) by (nonlinear_arith)
                requires
                    q < ds,
            ;
        }
        assert(pow2(delay) * 65536 <= two_pow_48()) by (nonlinear_arith)
            requires
                pow2(delay) <= 0x1_0000_0000,
        ;
    }
}

/// The payload of a prefix of the stream is a prefix of the payload.
pub proof fn lemma_payload_prefix(syms: Seq<Symbol>, delay: nat, lanes: nat, k: int, m: int)
    requires
        0 <= k <= m,
    ensures
        payload(syms, delay, lanes, k).len() <= payload(syms, delay, lanes, m).len(),
        payload(syms, delay, lanes, m).subrange(0, payload(syms, delay, lanes, k).len() as int)
            == payload(syms, delay, lanes, k),
    decreases m - k,
{
    if k < m {
        lemma_payload_prefix(syms, delay, lanes, k, m - 1);
        let pk = payload(syms, delay, lanes, k);
        let pm1 = payload(syms, delay, lanes, m - 1);
        let pm = payload(syms, delay, lanes, m);
        assert(pm.subrange(0, pm1.len() as int) =~= pm1);
        assert(pm.subrange(0, pk.len() as int) =~= pm1.subrange(0, pk.len() as int));
    } else {
        let pk = payload(syms, delay, lanes, k);
        assert(pk.subrange(0, pk.len() as int) =~= pk);
    }
}

/// The payload holds two bytes per written code word.
pub proof fn lemma_payload_len(syms: Seq<Symbol>, delay: nat, lanes: nat, k: int)
    requires
        0 <= k,
    ensures
        payload(syms, delay, lanes, k).len() <= 2 * k,
        payload(syms, delay, lanes, k).len() % 2 == 0,
    decreases k,
{
    if k > 0 {
        lemma_payload_len(syms, delay, lanes, k - 1);
    }
}

/// Once a read fails, later reads change nothing: the decoder reports the
/// same error with the same symbols.
pub proof fn lemma_read_many_stops(
    s: DecodeState,
    input: Seq<u8>,
    delay: nat,
    lanes: nat,
    tables: Seq<Seq<Symbol>>,
    k: int,
    m: int,
)
    requires
        0 <= k <= m,
        read_many(s, input, delay, lanes, tables, k).2 is Err,
    ensures
        read_many(s, input, delay, lanes, tables, m) == read_many(s, input, delay, lanes, tables, k),
    decreases m - k,
{
    if k < m {
        lemma_read_many_stops(s, input, delay, lanes, tables, k, m - 1);
    }
}

} // verus!
