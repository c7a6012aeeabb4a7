//! The encoder and the decoder.
use std::ops::Range;
use vstd::prelude::*;
use vstd::arithmetic::power2::pow2;

use crate::arith::{
    lemma_lane_mask, lemma_mod_back, lemma_mod_distinct, lemma_reciprocal_quotient,
    lemma_shift_or, lemma_wrapping_mul_add, two_pow_48,
};
use crate::error::Error;
use crate::format::{
    be_bytes, carries, codable, codable_upto, decode_result, delay_ok, den_pre, den_state,
    encode_result, event_ok, finish_result, fresh_decoder, is_virtual, lanes_ok,
    lemma_den_bounds, lemma_num_bound, lemma_payload_prefix, lemma_read_many_stops,
    lemma_threshold, num_in, payload, read_many, read_step, resolve, same_table, word,
    CodingState, DecodeState,
};
use crate::model::{reciprocal_ok, symbol_wf, table_wf, two_pow_64, Model, Symbol};

verus! {

/// One symbol to encode, with the model it is drawn from.
/// Models are borrowed for the duration of encoding; lifetimes prevent stale references.
#[derive(Clone, Copy)]
pub struct Event<'a> {
    pub model: &'a Model,
    pub symbol: u32,
}

/// The models of a stream of events.
pub open spec fn event_tables<'a>(events: Seq<Event<'a>>) -> Seq<Seq<Symbol>> {
    Seq::new(events.len(), |i: int| events[i].model@)
}

/// The symbols of a stream of events.
pub open spec fn event_ids<'a>(events: Seq<Event<'a>>) -> Seq<u32> {
    Seq::new(events.len(), |i: int| events[i].symbol)
}

/// Reuse between calls to avoid reallocating the per-symbol virtual schedule.
pub struct Workspace {
    virtual_symbols: Vec<u8>,
}

impl View for Workspace {
    type V = Seq<u8>;

    /// The virtual-word schedule of the last encoding: 1 where a symbol's code
    /// word was carried in its lane's numerator, 0 where it was written.
    closed spec fn view(&self) -> Seq<u8> {
        self.virtual_symbols@
    }
}

impl Workspace {
    /// An empty workspace with room reserved for `symbols` symbols.
    pub fn with_capacity(symbols: usize) -> (w: Self)
        ensures
            w@ == Seq::<u8>::empty(),
    {
        Self { virtual_symbols: Vec::with_capacity(symbols) }
    }

    /// How many symbols the workspace holds without reallocating.
    pub fn capacity(&self) -> (c: usize)
        ensures
            self@.len() <= c <= isize::MAX,
    {
        vec_capacity(&self.virtual_symbols)
    }
}

impl Default for Workspace {
    fn default() -> (w: Self)
        ensures
            w@ == Seq::<u8>::empty(),
    {
        Self { virtual_symbols: Vec::new() }
    }
}

/// `Vec::capacity` from std: the number of elements the vector can hold
/// without reallocating. The contract claims that this is at least the
/// vector's length, since its buffer holds its elements, and at most
/// `isize::MAX`, since std refuses any allocation of more than `isize::MAX`
/// bytes and an element here is one byte. The amount reserved beyond the
/// length is up to the allocator and is not stated.
#[verifier::external_body]
fn vec_capacity(v: &Vec<u8>) -> (c: usize)
    ensures
        v@.len() <= c <= isize::MAX,
{
    v.capacity()
}

/// The largest payload, in bytes, that `symbols` symbols can need.
pub fn max_encoded_size(symbols: usize) -> (r: Result<usize, Error>)
    ensures
        2 * symbols <= usize::MAX ==> r == Ok::<usize, Error>((2 * symbols) as usize),
        2 * symbols > usize::MAX ==> r == Err::<usize, Error>(Error::InputTooLarge),
{
    match symbols.checked_mul(2) {
        Some(size) => Ok(size),
        None => Err(Error::InputTooLarge),
    }
}

fn validate_delay<const DELAY: u32>() -> (r: Result<(), Error>)
    ensures
        delay_ok(DELAY as int) ==> r is Ok,
        !delay_ok(DELAY as int) ==> r == Err::<(), Error>(Error::InvalidDelay),
{
    if !(16 <= DELAY && DELAY <= 32) {
        Err(Error::InvalidDelay)
    } else {
        Ok(())
    }
}

fn validate_lanes<const LANES: usize>() -> (r: Result<(), Error>)
    ensures
        lanes_ok(LANES as int) ==> r is Ok,
        !lanes_ok(LANES as int) ==> r == Err::<(), Error>(Error::InvalidLanes),
{
    if !(LANES == 1 || LANES == 2 || LANES == 4 || LANES == 8) {
        Err(Error::InvalidLanes)
    } else {
        Ok(())
    }
}

/// `2^delay`, the denominator at which a lane renormalizes.
fn threshold<const DELAY: u32>() -> (t: u64)
    requires
        delay_ok(DELAY as int),
    ensures
        t == pow2(DELAY as nat),
{
    proof {
        lemma_threshold(DELAY as nat);
        vstd::bits::lemma_u64_shl_is_mul(1, DELAY as u64);
    }
    1u64 << (DELAY as u64)
}

/// `floor(n / frequency)`, computed with the symbol's fixed-point reciprocal.
/// For valid input, numerators are below 2^48 and frequencies at most 2^16;
/// for a frequency of at least 2, `ceil(2^64 / f)` then gives `floor(n / f)`
/// exactly, since its error is below `n / 2^64 < 1 / f`. Frequency 1 is
/// handled separately.
pub fn quotient(n: u64, symbol: &Symbol) -> (q: u64)
    ensures
        symbol.frequency == 1 ==> q == n,
        symbol.frequency != 1 ==> q == (n as int * symbol.reciprocal as int) / two_pow_64(),
        reciprocal_ok(*symbol) && n < two_pow_48() ==> q == n as int / symbol.frequency as int,
{
    if symbol.frequency == 1 {
        n
    } else {
        let a = n as u128;
        let b = symbol.reciprocal as u128;
        proof {
            assert(a * b <= 0xffff_ffff_ffff_ffffu128 * 0xffff_ffff_ffff_ffffu128)
                by (nonlinear_arith)
                requires
                    a <= 0xffff_ffff_ffff_ffffu128,
                    b <= 0xffff_ffff_ffff_ffffu128,
            ;
        }
        let p = a * b;
        proof {
            assert(p >> 64u128 == p / 0x1_0000_0000_0000_0000u128) by (bit_vector);
            assert(p / 0x1_0000_0000_0000_0000u128 <= 0xffff_ffff_ffff_ffffu128) by (bit_vector);
            if reciprocal_ok(*symbol) && symbol.frequency >= 2 && n < two_pow_48() {
                lemma_reciprocal_quotient(
                    n as int,
                    symbol.frequency as int,
                    symbol.reciprocal as int,
                );
            }
        }
        (p >> 64) as u64
    }
}

/// The buffer after an encoding into it, and the call's result, for the
/// expected outcome: the payload is written at the end of the buffer and its
/// range returned, or nothing is written and the error returned.
pub open spec fn written(
    expected: Result<Seq<u8>, Error>,
    before: Seq<u8>,
    after: Seq<u8>,
    r: Result<Range<usize>, Error>,
) -> bool {
    match expected {
        Ok(p) => r matches Ok(range) && range.start == before.len() - p.len() && range.end
            == before.len() && after == before.subrange(0, range.start as int) + p,
        Err(e) => r == Err::<Range<usize>, Error>(e) && after == before,
    }
}

/// The workspace after an encoding: untouched when the configuration or the
/// size is refused, else one entry per symbol, which after a success is the
/// virtual-word schedule.
pub open spec fn workspace_after(
    delay: int,
    lanes: int,
    tables: Seq<Seq<Symbol>>,
    ids: Seq<u32>,
    before: Seq<u8>,
    after: Seq<u8>,
    succeeded: bool,
) -> bool {
    if !delay_ok(delay) || !lanes_ok(lanes) || 2 * ids.len() > usize::MAX {
        after == before
    } else {
        &&& after.len() == ids.len()
        &&& succeeded ==> forall|i: int|
            0 <= i < ids.len() ==> after[i] == (if #[trigger] is_virtual(
                resolve(tables, ids),
                delay as nat,
                lanes as nat,
                i,
            ) {
                1u8
            } else {
                0u8
            })
    }
}

/// Where the encoder takes its events from.
enum Source<'a> {
    Fixed(&'a Model, &'a [u32]),
    Events(&'a [Event<'a>]),
}

impl<'a> Source<'a> {
    spec fn tables(&self) -> Seq<Seq<Symbol>> {
        match *self {
            Source::Fixed(m, s) => same_table(m@, s@.len()),
            Source::Events(e) => event_tables(e@),
        }
    }

    spec fn ids(&self) -> Seq<u32> {
        match *self {
            Source::Fixed(m, s) => s@,
            Source::Events(e) => event_ids(e@),
        }
    }

    fn len(&self) -> (n: usize)
        ensures
            n == self.ids().len(),
            n == self.tables().len(),
    {
        match self {
            Source::Fixed(_, s) => s.len(),
            Source::Events(e) => e.len(),
        }
    }

    fn event_at(&self, i: usize) -> (e: Event<'a>)
        requires
            i < self.ids().len(),
        ensures
            e.model@ == self.tables()[i as int],
            e.symbol == self.ids()[i as int],
    {
        match self {
            Source::Fixed(m, s) => Event { model: m, symbol: s[i] },
            Source::Events(e) => e[i],
        }
    }
}

fn lanes_of<const LANES: usize, T: Copy>(value: T) -> (v: Vec<T>)
    ensures
        v@.len() == LANES,
        forall|k: int| 0 <= k < LANES ==> v@[k] == value,
{
    let mut v: Vec<T> = Vec::new();
    let mut k: usize = 0;
    while k < LANES
        invariant
            k <= LANES,
            v@.len() == k,
            forall|m: int| 0 <= m < k ==> v@[m] == value,
        decreases LANES - k,
    {
        v.push(value);
        k = k + 1;
    }
    v
}

/// What the backward pass does at index `i`: it splits the lane numerator by
/// the symbol's frequency, and the quotient (with the code word appended when
/// the word is virtual) is the lane numerator before `i`.
proof fn lemma_backward_step(syms: Seq<Symbol>, d: nat, l: nat, i: int)
    requires
        delay_ok(d as int),
        lanes_ok(l as int),
        codable(syms),
        0 <= i < syms.len(),
    ensures
        num_in(syms, d, l, i) < two_pow_48(),
        word(syms, d, l, i) < 65536,
        word(syms, d, l, i) == syms[i].start + num_in(syms, d, l, i) % (syms[i].frequency as nat),
        syms[i].frequency >= 1,
        symbol_wf(syms[i]),
        num_in(syms, d, l, i - l) == if is_virtual(syms, d, l, i) {
            (num_in(syms, d, l, i) / (syms[i].frequency as nat)) * 65536 + word(syms, d, l, i)
        } else {
            num_in(syms, d, l, i) / (syms[i].frequency as nat)
        },
{
    lemma_num_bound(syms, d, l, i);
    assert(syms[i].frequency >= 1 && symbol_wf(syms[i]));
    let a = num_in(syms, d, l, i);
    let f = syms[i].frequency as nat;
    vstd::arithmetic::div_mod::lemma_mod_bound(a as int, f as int);
}

/// The remainder of the reciprocal division.
proof fn lemma_remainder(n: u64, f: u64, q: u64)
    requires
        f >= 1,
        q == n as int / f as int,
    ensures
        q * f <= n,
        n - q * f == n as int % f as int,
        q <= n,
{
    vstd::arithmetic::div_mod::lemma_fundamental_div_mod(n as int, f as int);
    vstd::arithmetic::div_mod::lemma_mod_bound(n as int, f as int);
    assert(q * f <= n && q <= n) by (nonlinear_arith)
        requires
            n == f * q + n % f,
            n % f >= 0,
            f >= 1,
            q >= 0,
    ;
    assert(f * q == q * f) by (nonlinear_arith);
}

/// A written code word is the next two bytes of the payload.
proof fn lemma_payload_word(syms: Seq<Symbol>, d: nat, l: nat, i: int, n: int)
    requires
        0 <= i < n,
        !is_virtual(syms, d, l, i),
    ensures
        payload(syms, d, l, i + 1).len() == payload(syms, d, l, i).len() + 2,
        payload(syms, d, l, i + 1).len() <= payload(syms, d, l, n).len(),
        payload(syms, d, l, n)[payload(syms, d, l, i).len() as int] == (word(syms, d, l, i)
            / 256) as u8,
        payload(syms, d, l, n)[payload(syms, d, l, i).len() + 1int] == (word(syms, d, l, i)
            % 256) as u8,
{
    lemma_payload_prefix(syms, d, l, i + 1, n);
    let pi = payload(syms, d, l, i);
    let pi1 = payload(syms, d, l, i + 1);
    let full = payload(syms, d, l, n);
    assert(pi1 == pi + be_bytes(word(syms, d, l, i)));
    assert(full[pi.len() as int] == pi1[pi.len() as int]);
    assert(full[pi.len() + 1int] == pi1[pi.len() + 1int]);
}

/// Writing the two bytes of a word just before the written tail extends it.
proof fn lemma_write_word(
    before: Seq<u8>,
    orig: Seq<u8>,
    full: Seq<u8>,
    pos: int,
    start: int,
    after: Seq<u8>,
)
    requires
        0 <= pos,
        0 <= start,
        start + 2 <= full.len(),
        pos + 2 <= orig.len(),
        before == orig.subrange(0, pos + 2) + full.subrange(start + 2, full.len() as int),
        after == before.update(pos, full[start]).update(pos + 1, full[start + 1]),
    ensures
        after == orig.subrange(0, pos) + full.subrange(start, full.len() as int),
{
    assert(after =~= orig.subrange(0, pos) + full.subrange(start, full.len() as int));
}

fn encode_impl<'a, const DELAY: u32, const LANES: usize>(
    source: &Source<'a>,
    output: &mut [u8],
    workspace: &mut Workspace,
) -> (r: Result<Range<usize>, Error>)
    ensures
        written(
            encode_result(
                DELAY as int,
                LANES as int,
                source.tables(),
                source.ids(),
                old(output)@.len() as nat,
            ),
            old(output)@,
            final(output)@,
            r,
        ),
        workspace_after(
            DELAY as int,
            LANES as int,
            source.tables(),
            source.ids(),
            old(workspace)@,
            final(workspace)@,
            r is Ok,
        ),
{
    match validate_delay::<DELAY>() {
        Err(e) => return Err(e),
        Ok(()) => {},
    }
    match validate_lanes::<LANES>() {
        Err(e) => return Err(e),
        Ok(()) => {},
    }
    let count = source.len();
    match max_encoded_size(count) {
        Err(e) => return Err(e),
        Ok(_) => {},
    }
    let ghost tables = source.tables();
    let ghost ids = source.ids();
    let ghost syms = resolve(tables, ids);
    let ghost d = DELAY as nat;
    let ghost l = LANES as nat;
    let ghost li = LANES as int;
    workspace.virtual_symbols.resize(count, 0);
    let t = threshold::<DELAY>();
    let mut denominators: Vec<u64> = lanes_of::<LANES, u64>(1);
    let mut virtuals: Vec<bool> = lanes_of::<LANES, bool>(false);
    proof {
        lemma_threshold(d);
        assert forall|j: int| 0 - l <= j < 0 implies denominators@[j % li] == #[trigger] den_state(
            syms,
            d,
            l,
            j,
        ) && virtuals@[j % li] == carries(syms, d, l, j) by {
            vstd::arithmetic::div_mod::lemma_mod_bound(j, li);
        }
    }
    let mut words: usize = 0;
    let mut i: usize = 0;
    while i < count
        invariant
            count == ids.len(),
            tables.len() == ids.len(),
            tables == source.tables(),
            ids == source.ids(),
            syms == resolve(tables, ids),
            d == DELAY,
            l == LANES,
            li == LANES,
            delay_ok(d as int),
            lanes_ok(li),
            2 * count <= usize::MAX,
            t == pow2(d),
            65536 <= pow2(d) <= 0x1_0000_0000,
            0 <= i <= count,
            output@ == old(output)@,
            workspace.virtual_symbols@.len() == count,
            denominators@.len() == LANES,
            virtuals@.len() == LANES,
            forall|m: int|
                0 <= m < i ==> table_wf(#[trigger] tables[m]) && event_ok(tables[m], ids[m]),
            codable_upto(syms, i as int),
            forall|j: int|
                i - l <= j < i ==> denominators@[j % li] == #[trigger] den_state(syms, d, l, j)
                    && virtuals@[j % li] == carries(syms, d, l, j),
            forall|m: int|
                0 <= m < i ==> workspace.virtual_symbols@[m] == (if #[trigger] is_virtual(
                    syms,
                    d,
                    l,
                    m,
                ) {
                    1u8
                } else {
                    0u8
                }),
            2 * words == payload(syms, d, l, i as int).len(),
            words <= i,
        decreases count - i,
    {
        proof {
            lemma_lane_mask(i, LANES);
        }
        let lane = i & (LANES - 1);
        let event = source.event_at(i);
        let symbols = event.model.symbols();
        if event.symbol as usize >= symbols.len() {
            proof {
                assert(!event_ok(tables[i as int], ids[i as int]));
            }
            return Err(Error::InvalidSymbol);
        }
        let symbol = &symbols[event.symbol as usize];
        if symbol.frequency == 0 {
            proof {
                assert(!event_ok(tables[i as int], ids[i as int]));
            }
            return Err(Error::InvalidSymbol);
        }
        proof {
            assert(syms[i as int] == *symbol);
            assert(table_wf(tables[i as int]));
            assert(symbol_wf(*symbol));
            assert(codable_upto(syms, i + 1));
            lemma_mod_back(i as int, li);
            assert(denominators@[lane as int] == den_state(syms, d, l, i - l));
            lemma_den_bounds(syms, d, l, i - l);
            lemma_den_bounds(syms, d, l, i as int);
            assert(den_pre(syms, d, l, i as int) == den_state(syms, d, l, i - l) * symbol.frequency);
        }
        let virt = virtuals[lane];
        workspace.virtual_symbols[i] = if virt {
            1
        } else {
            0
        };
        if !virt {
            words = words + 1;
        }
        let old_den = denominators[lane];
        proof {
            assert(old_den * (symbol.frequency as u64) < 0x1_0000_0000 * 65536) by (nonlinear_arith)
                requires
                    old_den < 0x1_0000_0000,
                    symbol.frequency <= 65536,
            ;
        }
        let den = old_den * (symbol.frequency as u64);
        let next = den >= t;
        let ghost old_dens = denominators@;
        let ghost old_virts = virtuals@;
        proof {
            assert(den >> 16u64 == den / 65536) by (bit_vector);
        }
        denominators[lane] = if next {
            den >> 16
        } else {
            den
        };
        virtuals[lane] = next;
        proof {
            let ghost ii = i as int;
            assert(denominators@[lane as int] == den_state(syms, d, l, ii));
            assert forall|j: int| ii + 1 - l <= j < ii + 1 implies denominators@[j % li]
                == #[trigger] den_state(syms, d, l, j) && virtuals@[j % li] == carries(
                syms,
                d,
                l,
                j,
            ) by {
                if j < ii {
                    lemma_mod_distinct(j, ii, li);
                    assert(old_dens[j % li] == den_state(syms, d, l, j));
                    assert(denominators@[j % li] == old_dens[j % li]);
                    assert(virtuals@[j % li] == old_virts[j % li]);
                } else {
                    assert(j % li == lane);
                    assert(den == den_pre(syms, d, l, ii));
                    assert(virtuals@[lane as int] == carries(syms, d, l, ii));
                }
            }
        }
        i = i + 1;
    }
    if words > output.len() / 2 {
        return Err(Error::OutputTooSmall);
    }
    proof {
        assert(codable(syms));
        assert(!exists|m: int| 0 <= m < ids.len() && !event_ok(#[trigger] tables[m], ids[m]));
    }
    let len = output.len();
    let mut position: usize = len;
    let mut numerators: Vec<u64> = lanes_of::<LANES, u64>(0);
    let ghost n = count as int;
    let ghost full = payload(syms, d, l, n);
    proof {
        assert(full.subrange(full.len() as int, full.len() as int) =~= Seq::<u8>::empty());
        assert(old(output)@.subrange(0, len as int) =~= old(output)@);
    }
    let mut i: usize = count;
    while i > 0
        invariant
            count == ids.len(),
            n == count,
            tables.len() == ids.len(),
            tables == source.tables(),
            ids == source.ids(),
            syms == resolve(tables, ids),
            full == payload(syms, d, l, n),
            d == DELAY,
            l == LANES,
            li == LANES,
            delay_ok(d as int),
            lanes_ok(li),
            codable(syms),
            forall|m: int|
                0 <= m < count ==> table_wf(#[trigger] tables[m]) && event_ok(tables[m], ids[m]),
            forall|m: int|
                0 <= m < count ==> workspace.virtual_symbols@[m] == (if #[trigger] is_virtual(
                    syms,
                    d,
                    l,
                    m,
                ) {
                    1u8
                } else {
                    0u8
                }),
            workspace.virtual_symbols@.len() == count,
            0 <= i <= count,
            numerators@.len() == LANES,
            forall|j: int| i - l <= j < i ==> numerators@[j % li] == #[trigger] num_in(syms, d, l, j),
            len == old(output)@.len(),
            output@.len() == len,
            full.len() <= len,
            position == len - (full.len() - payload(syms, d, l, i as int).len()),
            output@ == old(output)@.subrange(0, position as int) + full.subrange(
                payload(syms, d, l, i as int).len() as int,
                full.len() as int,
            ),
        decreases i,
    {
        i = i - 1;
        proof {
            lemma_lane_mask(i, LANES);
        }
        let lane = i & (LANES - 1);
        let event = source.event_at(i);
        let symbols = event.model.symbols();
        let symbol = &symbols[event.symbol as usize];
        let ghost ii = i as int;
        proof {
            assert(table_wf(tables[ii]) && event_ok(tables[ii], ids[ii]));
            assert(syms[ii] == *symbol);
            assert(numerators@[lane as int] == num_in(syms, d, l, ii));
            lemma_backward_step(syms, d, l, ii);
        }
        let numerator = numerators[lane];
        let q = quotient(numerator, symbol);
        let f = symbol.frequency as u64;
        proof {
            lemma_remainder(numerator, f, q);
        }
        let remainder = (numerator - q * f) as u32;
        let w = event.model.embed_validated(symbol, remainder);
        let ghost old_nums = numerators@;
        if workspace.virtual_symbols[i] != 0 {
            proof {
                lemma_shift_or(q, w as u64);
            }
            numerators[lane] = (q << 16) | (w as u64);
        } else {
            proof {
                lemma_payload_word(syms, d, l, ii, n);
            }
            let ghost before = output@;
            position = position - 2;
            output[position] = (w / 256) as u8;
            output[position + 1] = (w % 256) as u8;
            proof {
                lemma_write_word(
                    before,
                    old(output)@,
                    full,
                    position as int,
                    payload(syms, d, l, ii).len() as int,
                    output@,
                );
            }
            numerators[lane] = q;
        }
        proof {
            lemma_mod_back(ii, li);
            assert(numerators@[lane as int] == num_in(syms, d, l, ii - l));
            assert forall|j: int| ii - l <= j < ii implies numerators@[j % li] == #[trigger] num_in(
                syms,
                d,
                l,
                j,
            ) by {
                if j > ii - l {
                    lemma_mod_distinct(j, ii, li);
                    assert(old_nums[j % li] == num_in(syms, d, l, j));
                }
            }
        }
    }
    proof {
        assert(full.subrange(0, full.len() as int) =~= full);
    }
    Ok(Range { start: position, end: len })
}

/// Writes backwards, returning the payload's range in the caller's buffer.
/// Input validity and capacity are checked before any payload byte is written.
pub fn encode_into<const DELAY: u32>(
    model: &Model,
    symbols: &[u32],
    output: &mut [u8],
    workspace: &mut Workspace,
) -> (r: Result<Range<usize>, Error>)
    ensures
        written(
            encode_result(
                DELAY as int,
                1,
                same_table(model@, symbols@.len()),
                symbols@,
                old(output)@.len() as nat,
            ),
            old(output)@,
            final(output)@,
            r,
        ),
        workspace_after(
            DELAY as int,
            1,
            same_table(model@, symbols@.len()),
            symbols@,
            old(workspace)@,
            final(workspace)@,
            r is Ok,
        ),
{
    encode_impl::<DELAY, 1>(&Source::Fixed(model, symbols), output, workspace)
}

/// Encode a sequence whose probability model may change at every symbol.
pub fn encode_events_into<const DELAY: u32>(
    events: &[Event<'_>],
    output: &mut [u8],
    workspace: &mut Workspace,
) -> (r: Result<Range<usize>, Error>)
    ensures
        written(
            encode_result(
                DELAY as int,
                1,
                event_tables(events@),
                event_ids(events@),
                old(output)@.len() as nat,
            ),
            old(output)@,
            final(output)@,
            r,
        ),
        workspace_after(
            DELAY as int,
            1,
            event_tables(events@),
            event_ids(events@),
            old(workspace)@,
            final(workspace)@,
            r is Ok,
        ),
{
    encode_impl::<DELAY, 1>(&Source::Events(events), output, workspace)
}

/// Round-robin interleaving of 1, 2, 4 or 8 independent coding states into one
/// payload. The lane count is external format metadata. No per-lane length header
/// is needed: encoder and decoder use the same deterministic physical-word order.
pub fn encode_interleaved_into<const DELAY: u32, const LANES: usize>(
    model: &Model,
    symbols: &[u32],
    output: &mut [u8],
    workspace: &mut Workspace,
) -> (r: Result<Range<usize>, Error>)
    ensures
        written(
            encode_result(
                DELAY as int,
                LANES as int,
                same_table(model@, symbols@.len()),
                symbols@,
                old(output)@.len() as nat,
            ),
            old(output)@,
            final(output)@,
            r,
        ),
        workspace_after(
            DELAY as int,
            LANES as int,
            same_table(model@, symbols@.len()),
            symbols@,
            old(workspace)@,
            final(workspace)@,
            r is Ok,
        ),
{
    encode_impl::<DELAY, LANES>(&Source::Fixed(model, symbols), output, workspace)
}

/// Interleaved encoding with explicit per-symbol models. The caller remains
/// responsible for selecting contexts in forward order before encoding.
pub fn encode_events_interleaved_into<const DELAY: u32, const LANES: usize>(
    events: &[Event<'_>],
    output: &mut [u8],
    workspace: &mut Workspace,
) -> (r: Result<Range<usize>, Error>)
    ensures
        written(
            encode_result(
                DELAY as int,
                LANES as int,
                event_tables(events@),
                event_ids(events@),
                old(output)@.len() as nat,
            ),
            old(output)@,
            final(output)@,
            r,
        ),
        workspace_after(
            DELAY as int,
            LANES as int,
            event_tables(events@),
            event_ids(events@),
            old(workspace)@,
            final(workspace)@,
            r is Ok,
        ),
{
    encode_impl::<DELAY, LANES>(&Source::Events(events), output, workspace)
}

/// Allocating convenience API. Use encode_into and a reusable workspace in hot paths.
pub fn encode<const DELAY: u32>(model: &Model, symbols: &[u32]) -> (r: Result<Vec<u8>, Error>)
    ensures
        2 * symbols@.len() > usize::MAX ==> r == Err::<Vec<u8>, Error>(Error::InputTooLarge),
        2 * symbols@.len() <= usize::MAX ==> match encode_result(
            DELAY as int,
            1,
            same_table(model@, symbols@.len()),
            symbols@,
            2 * symbols@.len(),
        ) {
            Ok(p) => r matches Ok(v) && v@ == p,
            Err(e) => r == Err::<Vec<u8>, Error>(e),
        },
{
    let size = match max_encoded_size(symbols.len()) {
        Ok(size) => size,
        Err(e) => return Err(e),
    };
    let mut output: Vec<u8> = vec![0u8; size];
    let mut workspace = Workspace::default();
    let range = match encode_into::<DELAY>(model, symbols, output.as_mut_slice(), &mut workspace) {
        Ok(range) => range,
        Err(e) => return Err(e),
    };
    let ghost p = output@.subrange(range.start as int, range.end as int);
    let start = range.start;
    let count = range.end - range.start;
    let mut k: usize = 0;
    while k < count
        invariant
            output@.len() == size,
            start + count == size,
            p.len() == count,
            0 <= k <= count,
            forall|m: int| 0 <= m < k ==> output@[m] == p[m],
            forall|m: int| start + k <= m < size ==> output@[m] == p[m - start],
        decreases count - k,
    {
        let byte = output[start + k];
        output[k] = byte;
        k = k + 1;
    }
    output.truncate(count);
    proof {
        assert(output@ =~= p);
    }
    Ok(output)
}

/// Forward decoder with explicit model selection. All input reads are bounded.
/// Errors are sticky; discard the decoder after a failed read. Call finish after
/// decoding the externally supplied symbol count. This is not a checksum.
pub struct Decoder<'a, const DELAY: u32, const LANES: usize> {
    input: &'a [u8],
    position: usize,
    states: [CodingState; LANES],
    lane: usize,
    error: Option<Error>,
}

impl<'a, const DELAY: u32, const LANES: usize> View for Decoder<'a, DELAY, LANES> {
    type V = DecodeState;

    closed spec fn view(&self) -> DecodeState {
        DecodeState {
            position: self.position as nat,
            states: self.states@,
            lane: self.lane as nat,
            error: self.error,
        }
    }
}

impl<'a, const DELAY: u32, const LANES: usize> Decoder<'a, DELAY, LANES> {
    /// What every decoder satisfies: a valid configuration, a lane index in
    /// range, an even position inside the input, no error but a truncated
    /// input, and every denominator in `1 .. 2^delay`.
    #[verifier::type_invariant]
    spec fn inv(self) -> bool {
        &&& delay_ok(DELAY as int)
        &&& lanes_ok(LANES as int)
        &&& self.states@.len() == LANES
        &&& self.lane < LANES
        &&& self.position <= self.input@.len()
        &&& self.position % 2 == 0
        &&& (self.error is None || self.error == Some(Error::TruncatedInput))
        &&& forall|i: int|
            0 <= i < LANES ==> 1 <= (#[trigger] self.states@[i]).denominator < pow2(DELAY as nat)
    }

    /// The payload the decoder reads.
    pub closed spec fn input_bytes(&self) -> Seq<u8> {
        self.input@
    }

    /// A decoder at the start of `input`, with every lane fresh.
    pub fn new(input: &'a [u8]) -> (r: Result<Self, Error>)
        ensures
            !delay_ok(DELAY as int) ==> r == Err::<Self, Error>(Error::InvalidDelay),
            delay_ok(DELAY as int) && !lanes_ok(LANES as int) ==> r == Err::<Self, Error>(
                Error::InvalidLanes,
            ),
            delay_ok(DELAY as int) && lanes_ok(LANES as int) ==> (r matches Ok(d) && d@
                == fresh_decoder(LANES as nat) && d.input_bytes() == input@),
    {
        match validate_delay::<DELAY>() {
            Err(e) => return Err(e),
            Ok(()) => {},
        }
        match validate_lanes::<LANES>() {
            Err(e) => return Err(e),
            Ok(()) => {},
        }
        let states = [CodingState { numerator: 0, denominator: 1, virtual_word: None }; LANES];
        proof {
            lemma_threshold(DELAY as nat);
        }
        let d = Self { input, position: 0, states, lane: 0, error: None };
        proof {
            assert(d@.states =~= fresh_decoder(LANES as nat).states);
        }
        Ok(d)
    }

    /// Decodes the next symbol with `model`, which must be the model the
    /// encoder used for it.
    pub fn read(&mut self, model: &Model) -> (r: Result<u32, Error>)
        ensures
            (final(self)@, r) == read_step(
                old(self)@,
                old(self).input_bytes(),
                DELAY as nat,
                LANES as nat,
                model@,
            ),
            final(self).input_bytes() == old(self).input_bytes(),
            old(self)@.position <= final(self)@.position <= final(self).input_bytes().len(),
            final(self)@.position % 2 == 0,
            final(self)@.lane < LANES,
            final(self)@.states.len() == LANES,
            final(self)@.error is None || final(self)@.error == Some(Error::TruncatedInput),
    {
        proof {
            use_type_invariant(&*self);
            lemma_threshold(DELAY as nat);
        }
        if let Some(error) = self.error {
            return Err(error);
        }
        let lane = self.lane;
        let state = self.states[lane];
        let (word, position) = match state.virtual_word {
            Some(w) => (w, self.position),
            None => {
                if self.input.len() - self.position < 2 {
                    self.error = Some(Error::TruncatedInput);
                    return Err(Error::TruncatedInput);
                }
                let hi = self.input[self.position] as u16;
                let lo = self.input[self.position + 1] as u16;
                (hi * 256 + lo, self.position + 2)
            },
        };
        let decoded = model.lookup(word);
        let f = decoded.frequency as u64;
        let product = state.numerator.wrapping_mul(f);
        let numerator = product.wrapping_add(decoded.remainder as u64);
        proof {
            lemma_wrapping_mul_add(
                state.numerator as int,
                f as int,
                decoded.remainder as int,
                product as int,
                numerator as int,
            );
            assert(symbol_wf(model@[decoded.symbol as int]));
            assert(1 <= f <= 65536);
            assert(state.denominator * f < pow2(DELAY as nat) * 65536) by (nonlinear_arith)
                requires
                    state.denominator < pow2(DELAY as nat),
                    f <= 65536,
            ;
            assert(pow2(DELAY as nat) * 65536 <= 0x1_0000_0000 * 65536) by (nonlinear_arith)
                requires
                    pow2(DELAY as nat) <= 0x1_0000_0000,
            ;
        }
        let denominator = state.denominator * f;
        let t = threshold::<DELAY>();
        let next = if denominator >= t {
            proof {
                assert(numerator >> 16u64 == numerator / 65536) by (bit_vector);
                assert(denominator >> 16u64 == denominator / 65536) by (bit_vector);
                assert(numerator as u16 == (numerator % 65536) as u16) by (bit_vector);
                assert(1 <= denominator / 65536 < pow2(DELAY as nat)) by (nonlinear_arith)
                    requires
                        65536 <= pow2(DELAY as nat) <= denominator,
                        denominator < pow2(DELAY as nat) * 65536,
                ;
            }
            CodingState {
                numerator: numerator >> 16,
                denominator: denominator >> 16,
                virtual_word: Some(numerator as u16),
            }
        } else {
            proof {
                assert(1 <= denominator) by (nonlinear_arith)
                    requires
                        1 <= state.denominator,
                        1 <= f,
                        denominator == state.denominator * f,
                ;
            }
            CodingState { numerator, denominator, virtual_word: None }
        };
        proof {
            let updated = self.states@.update(lane as int, next);
            assert forall|i: int| 0 <= i < LANES implies 1 <= (#[trigger] updated[i]).denominator
                < pow2(DELAY as nat) by {
                if i != lane {
                    assert(updated[i] == self.states@[i]);
                }
            }
        }
        self.states[lane] = next;
        self.position = position;
        let next_lane = lane + 1;
        proof {
            lemma_lane_mask(next_lane, LANES);
        }
        self.lane = next_lane & (LANES - 1);
        Ok(decoded.symbol)
    }

    /// How many payload bytes have been consumed.
    pub fn bytes_read(&self) -> (n: usize)
        ensures
            n == self@.position,
            n % 2 == 0,
            n <= self.input_bytes().len(),
    {
        proof {
            use_type_invariant(self);
        }
        self.position
    }

    /// Checks that the payload was consumed exactly and that every lane ended in
    /// the state an encoder leaves behind. This is not a checksum.
    pub fn finish(&self) -> (r: Result<(), Error>)
        ensures
            r == finish_result(self@, self.input_bytes()),
    {
        if let Some(error) = self.error {
            return Err(error);
        }
        if self.position != self.input.len() {
            return Err(Error::TrailingInput);
        }
        let mut i: usize = 0;
        proof {
            use_type_invariant(self);
        }
        while i < LANES
            invariant
                0 <= i <= self.states@.len(),
                self.states@.len() == LANES,
                self.error is None,
                self.position == self.input@.len(),
                forall|m: int|
                    0 <= m < i ==> (#[trigger] self.states@[m]).numerator == 0 && !(
                    self.states@[m].virtual_word matches Some(w) && w != 0),
            decreases LANES - i,
        {
            let s = self.states[i];
            let pending_nonzero = match s.virtual_word {
                Some(w) => w != 0,
                None => false,
            };
            if s.numerator != 0 || pending_nonzero {
                return Err(Error::InvalidState);
            }
            i = i + 1;
        }
        Ok(())
    }
}

/// The output buffer after a decoding into it, and the call's result: the
/// symbols read are written from the start, the rest is untouched.
pub open spec fn decoded_into(
    expected: (Seq<u32>, Result<(), Error>),
    before: Seq<u32>,
    after: Seq<u32>,
    r: Result<(), Error>,
) -> bool {
    &&& r == expected.1
    &&& expected.0.len() <= before.len()
    &&& after == expected.0 + before.subrange(expected.0.len() as int, before.len() as int)
}

/// Decode exactly output.len() symbols, then check consumption and final state.
/// On error, output may contain a decoded prefix.
pub fn decode_into<const DELAY: u32>(model: &Model, input: &[u8], output: &mut [u32]) -> (r: Result<
    (),
    Error,
>)
    ensures
        decoded_into(
            decode_result(DELAY as int, 1, input@, same_table(model@, old(output)@.len())),
            old(output)@,
            final(output)@,
            r,
        ),
{
    decode_interleaved_into::<DELAY, 1>(model, input, output)
}

/// Decode exactly output.len() symbols from a payload of `LANES` interleaved
/// coding states, then check consumption and final state.
pub fn decode_interleaved_into<const DELAY: u32, const LANES: usize>(
    model: &Model,
    input: &[u8],
    output: &mut [u32],
) -> (r: Result<(), Error>)
    ensures
        decoded_into(
            decode_result(DELAY as int, LANES as int, input@, same_table(model@, old(output)@.len())),
            old(output)@,
            final(output)@,
            r,
        ),
{
    let ghost before = output@;
    let mut decoder = match Decoder::<DELAY, LANES>::new(input) {
        Ok(decoder) => decoder,
        Err(e) => {
            proof {
                assert(before.subrange(0, before.len() as int) =~= before);
            }
            return Err(e);
        },
    };
    let n = output.len();
    let ghost tables = same_table(model@, n as nat);
    let ghost d = DELAY as nat;
    let ghost l = LANES as nat;
    proof {
        assert(output@.subrange(0, 0) =~= Seq::<u32>::empty());
    }
    let mut i: usize = 0;
    while i < n
        invariant
            n == output@.len(),
            before == old(output)@,
            n == before.len(),
            tables == same_table(model@, n as nat),
            d == DELAY,
            l == LANES,
            delay_ok(DELAY as int),
            lanes_ok(LANES as int),
            decoder.input_bytes() == input@,
            0 <= i <= n,
            read_many(fresh_decoder(l), input@, d, l, tables, i as int) == (
                decoder@,
                output@.subrange(0, i as int),
                Ok::<(), Error>(()),
            ),
            output@.subrange(i as int, n as int) == before.subrange(i as int, n as int),
        decreases n - i,
    {
        let ghost prev = output@;
        match decoder.read(model) {
            Ok(symbol) => {
                output[i] = symbol;
                proof {
                    assert(output@.subrange(0, i + 1) =~= prev.subrange(0, i as int).push(symbol));
                    assert(output@.subrange(i + 1, n as int) =~= prev.subrange(i + 1, n as int));
                    assert(before.subrange(i + 1, n as int) =~= before.subrange(i as int, n as int).subrange(1, n - i));
                    assert(prev.subrange(i + 1, n as int) =~= prev.subrange(i as int, n as int).subrange(1, n - i));
                }
            },
            Err(e) => {
                proof {
                    lemma_read_many_stops(fresh_decoder(l), input@, d, l, tables, i + 1, n as int);
                    assert(output@ =~= output@.subrange(0, i as int) + before.subrange(i as int, n as int));
                }
                return Err(e);
            },
        }
        i = i + 1;
    }
    proof {
        assert(output@.subrange(0, n as int) =~= output@);
        assert(before.subrange(n as int, n as int) =~= Seq::<u32>::empty());
    }
    decoder.finish()
}

} // verus!
