//! Decoding a payload gives back the symbols it was made from.
use vstd::prelude::*;

use crate::arith::{lemma_mod_back, lemma_mod_distinct, lemma_window_index, window_index};
use crate::error::Error;
use crate::format::{
    be_bytes, carries, codable, decode_result, delay_ok, den_pre, den_state, encode_result,
    event_ok, finish_result, fresh_decoder, lane_after, lanes_ok, lemma_den_bounds, lemma_num_bound,
    lemma_payload_prefix, lemma_threshold, num_in, payload, read_many, read_step, resolve, word,
    word_at, DecodeState,
};
use crate::model::{lemma_lookup_unique, symbol_wf, table_wf, two_pow_64, Symbol};

verus! {

/// Every model is well formed and every event codable in it.
pub open spec fn events_ok(tables: Seq<Seq<Symbol>>, ids: Seq<u32>) -> bool {
    &&& tables.len() == ids.len()
    &&& forall|i: int|
        0 <= i < ids.len() ==> table_wf(#[trigger] tables[i]) && event_ok(tables[i], ids[i])
}

pub proof fn lemma_events_codable(tables: Seq<Seq<Symbol>>, ids: Seq<u32>)
    requires
        events_ok(tables, ids),
    ensures
        codable(resolve(tables, ids)),
        resolve(tables, ids).len() == ids.len(),
{
    let syms = resolve(tables, ids);
    assert forall|i: int| 0 <= i < syms.len() implies (#[trigger] syms[i]).frequency >= 1
        && symbol_wf(syms[i]) by {
        assert(table_wf(tables[i]) && event_ok(tables[i], ids[i]));
        let t = tables[i];
        assert(t[ids[i] as int] == syms[i]);
    }
}

proof fn lemma_mod_next(a: int, l: int)
    requires
        l > 0,
    ensures
        (a % l + 1) % l == (a + 1) % l,
{
    vstd::arithmetic::div_mod::lemma_fundamental_div_mod(a, l);
    vstd::arithmetic::div_mod::lemma_mod_bound(a, l);
    let q = a / l;
    let r = a % l;
    if r + 1 < l {
        assert(a + 1 == q * l + (r + 1)) by (nonlinear_arith)
            requires
                a == l * q + r,
        ;
        vstd::arithmetic::div_mod::lemma_fundamental_div_mod_converse(a + 1, l, q, r + 1);
        vstd::arithmetic::div_mod::lemma_small_mod((r + 1) as nat, l as nat);
    } else {
        assert(a + 1 == (q + 1) * l + 0) by (nonlinear_arith)
            requires
                a == l * q + r,
                r + 1 == l,
        ;
        vstd::arithmetic::div_mod::lemma_fundamental_div_mod_converse(a + 1, l, q + 1, 0);
        vstd::arithmetic::div_mod::lemma_fundamental_div_mod_converse(l, l, 1, 0);
    }
}

/// The decoder has read the first `k` symbols of the stream correctly: each
/// lane holds the state the mathematics gives after its latest symbol.
pub open spec fn tracks(s: DecodeState, syms: Seq<Symbol>, delay: nat, lanes: nat, k: int) -> bool {
    &&& s.error is None
    &&& s.position == payload(syms, delay, lanes, k).len()
    &&& s.lane == k % (lanes as int)
    &&& s.states.len() == lanes
    &&& forall|j: int|
        k - lanes <= j < k ==> s.states[j % (lanes as int)] == #[trigger] lane_after(
            syms,
            delay,
            lanes,
            j,
        )
}

proof fn lemma_fresh_tracks(syms: Seq<Symbol>, delay: nat, lanes: nat)
    requires
        delay_ok(delay as int),
        lanes_ok(lanes as int),
        codable(syms),
    ensures
        tracks(fresh_decoder(lanes), syms, delay, lanes, 0),
{
    let s = fresh_decoder(lanes);
    let l = lanes as int;
    assert forall|j: int| 0 - lanes <= j < 0 implies s.states[j % l] == #[trigger] lane_after(
        syms,
        delay,
        lanes,
        j,
    ) by {
        lemma_num_bound(syms, delay, lanes, j);
        vstd::arithmetic::div_mod::lemma_mod_bound(j, l);
    }
}

proof fn lemma_step_tracks(
    s: DecodeState,
    input: Seq<u8>,
    tables: Seq<Seq<Symbol>>,
    ids: Seq<u32>,
    delay: nat,
    lanes: nat,
    k: int,
)
    requires
        delay_ok(delay as int),
        lanes_ok(lanes as int),
        events_ok(tables, ids),
        0 <= k < ids.len(),
        input == payload(resolve(tables, ids), delay, lanes, ids.len() as int),
        tracks(s, resolve(tables, ids), delay, lanes, k),
    ensures
        read_step(s, input, delay, lanes, tables[k]).1 == Ok::<u32, Error>(ids[k]),
        tracks(read_step(s, input, delay, lanes, tables[k]).0, resolve(tables, ids), delay, lanes, k + 1),
{
    let syms = resolve(tables, ids);
    lemma_events_codable(tables, ids);
    let n = ids.len() as int;
    let l = lanes as int;
    let j = k - l;
    lemma_mod_back(k, l);
    vstd::arithmetic::div_mod::lemma_mod_bound(k, l);
    let st = s.states[s.lane as int];
    assert(st == lane_after(syms, delay, lanes, j));
    lemma_num_bound(syms, delay, lanes, j);
    lemma_num_bound(syms, delay, lanes, k);
    lemma_den_bounds(syms, delay, lanes, j);
    lemma_den_bounds(syms, delay, lanes, k);
    lemma_threshold(delay);
    let a = num_in(syms, delay, lanes, k);
    let f = syms[k].frequency as nat;
    let start = syms[k].start as nat;
    assert(f >= 1 && symbol_wf(syms[k]));
    vstd::arithmetic::div_mod::lemma_fundamental_div_mod(a as int, f as int);
    vstd::arithmetic::div_mod::lemma_mod_bound(a as int, f as int);
    let w = word(syms, delay, lanes, k);
    assert(w == start + a % f);
    assert(w < 65536);
    let aj = num_in(syms, delay, lanes, j);
    let carry = carries(syms, delay, lanes, j);
    assert(aj == if carry {
        (a / f) * 65536 + start + a % f
    } else {
        a / f
    });
    if carry {
        vstd::arithmetic::div_mod::lemma_fundamental_div_mod_converse(
            aj as int,
            65536,
            (a / f) as int,
            w as int,
        );
        assert(st.virtual_word == Some(w as u16));
        assert(st.numerator == (a / f) as u64);
    } else {
        assert(st.virtual_word is None);
        assert(st.numerator == (a / f) as u64);
        lemma_payload_prefix(syms, delay, lanes, k + 1, n);
        let pk = payload(syms, delay, lanes, k);
        assert(payload(syms, delay, lanes, k + 1) == pk + be_bytes(w));
        assert(input[pk.len() as int] == payload(syms, delay, lanes, k + 1)[pk.len() as int]);
        assert(input[pk.len() + 1int] == payload(syms, delay, lanes, k + 1)[pk.len() + 1int]);
        assert(word_at(input, pk.len() as int) == w);
    }
    // The word names the symbol that was coded.
    let table = tables[k];
    let id = ids[k] as int;
    assert(table_wf(table) && event_ok(table, ids[k]));
    assert(table[id] == syms[k]);
    lemma_lookup_unique(table, id, w as int);
    // The numerator and denominator come back.
    assert((a / f) * f + a % f == a) by (nonlinear_arith)
        requires
            a == f * (a / f) + a % f,
    ;
    vstd::arithmetic::div_mod::lemma_small_mod(a, two_pow_64() as nat);
    assert(st.denominator as nat == den_state(syms, delay, lanes, j));
    assert(den_pre(syms, delay, lanes, k) == den_state(syms, delay, lanes, j) * f);
    let (s2, x) = read_step(s, input, delay, lanes, table);
    assert(x == Ok::<u32, Error>(ids[k]));
    assert(s2.states[s.lane as int] == lane_after(syms, delay, lanes, k));
    assert forall|i: int| k + 1 - lanes <= i < k + 1 implies s2.states[i % l] == #[trigger] lane_after(
        syms,
        delay,
        lanes,
        i,
    ) by {
        if i < k {
            lemma_mod_distinct(i, k, l);
            assert(s.states[i % l] == lane_after(syms, delay, lanes, i));
        }
    }
    lemma_mod_next(k, l);
}

proof fn lemma_read_many_tracks(
    input: Seq<u8>,
    tables: Seq<Seq<Symbol>>,
    ids: Seq<u32>,
    delay: nat,
    lanes: nat,
    k: int,
)
    requires
        delay_ok(delay as int),
        lanes_ok(lanes as int),
        events_ok(tables, ids),
        0 <= k <= ids.len(),
        input == payload(resolve(tables, ids), delay, lanes, ids.len() as int),
    ensures
        ({
            let (s, out, r) = read_many(fresh_decoder(lanes), input, delay, lanes, tables, k);
            &&& r is Ok
            &&& out == ids.subrange(0, k)
            &&& tracks(s, resolve(tables, ids), delay, lanes, k)
        }),
    decreases k,
{
    lemma_events_codable(tables, ids);
    if k == 0 {
        lemma_fresh_tracks(resolve(tables, ids), delay, lanes);
        assert(ids.subrange(0, 0) =~= Seq::<u32>::empty());
    } else {
        lemma_read_many_tracks(input, tables, ids, delay, lanes, k - 1);
        let (s1, out1, r1) = read_many(fresh_decoder(lanes), input, delay, lanes, tables, k - 1);
        lemma_step_tracks(s1, input, tables, ids, delay, lanes, k - 1);
        assert(ids.subrange(0, k - 1).push(ids[k - 1]) =~= ids.subrange(0, k));
    }
}

/// Decoding a payload made from a stream of codable events, with the same
/// models, delay and lane count, gives back exactly the stream's symbols, and
/// the final checks pass.
pub proof fn theorem_payload_decodes(
    delay: int,
    lanes: int,
    tables: Seq<Seq<Symbol>>,
    ids: Seq<u32>,
)
    requires
        delay_ok(delay),
        lanes_ok(lanes),
        events_ok(tables, ids),
    ensures
        decode_result(
            delay,
            lanes,
            payload(resolve(tables, ids), delay as nat, lanes as nat, ids.len() as int),
            tables,
        ) == (ids, Ok::<(), Error>(())),
{
    let d = delay as nat;
    let l = lanes as nat;
    let n = ids.len() as int;
    let syms = resolve(tables, ids);
    let input = payload(syms, d, l, n);
    lemma_events_codable(tables, ids);
    lemma_read_many_tracks(input, tables, ids, d, l, n);
    let (s, out, r) = read_many(fresh_decoder(l), input, d, l, tables, n);
    assert(ids.subrange(0, n) =~= ids);
    assert forall|i: int| 0 <= i < s.states.len() implies (#[trigger] s.states[i]).numerator == 0
        && !(s.states[i].virtual_word matches Some(w) && w != 0) by {
        lemma_window_index(n, i, lanes);
        let j = window_index(n, i, lanes);
        assert(s.states[j % lanes] == lane_after(syms, d, l, j));
        lemma_num_bound(syms, d, l, j);
    }
}

/// Law: whenever encoding succeeds, decoding its payload with the same models,
/// delay and lane count gives back the symbols, and the final checks pass.
pub proof fn law_decode_inverts_encode(
    delay: int,
    lanes: int,
    tables: Seq<Seq<Symbol>>,
    ids: Seq<u32>,
    capacity: nat,
)
    requires
        tables.len() == ids.len(),
        forall|i: int| 0 <= i < tables.len() ==> table_wf(#[trigger] tables[i]),
    ensures
        encode_result(delay, lanes, tables, ids, capacity) matches Ok(p) ==> decode_result(
            delay,
            lanes,
            p,
            tables,
        ) == (ids, Ok::<(), Error>(())),
{
    if encode_result(delay, lanes, tables, ids, capacity) is Ok {
        assert forall|i: int| 0 <= i < ids.len() implies table_wf(#[trigger] tables[i])
            && event_ok(tables[i], ids[i]) by {
            assert(table_wf(tables[i]));
        }
        theorem_payload_decodes(delay, lanes, tables, ids);
    }
}

/// Law: a decoder driven by hand over a payload, given the encoder's models in
/// forward order, recovers each symbol in turn. After the first `k` reads it
/// is in the state `read_many` gives (the composition of `k` `read_step`s, as
/// `Decoder::new` and `Decoder::read` state), those reads returned the first
/// `k` symbols, and read `k + 1` returns symbol `k`.
pub proof fn law_each_read_recovers_its_symbol(
    delay: int,
    lanes: int,
    tables: Seq<Seq<Symbol>>,
    ids: Seq<u32>,
    k: int,
)
    requires
        delay_ok(delay),
        lanes_ok(lanes),
        events_ok(tables, ids),
        0 <= k < ids.len(),
    ensures
        ({
            let input = payload(resolve(tables, ids), delay as nat, lanes as nat, ids.len() as int);
            let (s, out, r) = read_many(
                fresh_decoder(lanes as nat),
                input,
                delay as nat,
                lanes as nat,
                tables,
                k,
            );
            &&& r is Ok
            &&& out == ids.subrange(0, k)
            &&& read_step(s, input, delay as nat, lanes as nat, tables[k]).1 == Ok::<u32, Error>(
                ids[k],
            )
        }),
{
    let d = delay as nat;
    let l = lanes as nat;
    let input = payload(resolve(tables, ids), d, l, ids.len() as int);
    lemma_read_many_tracks(input, tables, ids, d, l, k);
    let (s, out, r) = read_many(fresh_decoder(l), input, d, l, tables, k);
    lemma_step_tracks(s, input, tables, ids, d, l, k);
}

/// Law: after a hand-driven decoder has read exactly as many symbols as were
/// encoded, it has consumed the whole payload and `finish` accepts it.
pub proof fn law_complete_read_finishes(
    delay: int,
    lanes: int,
    tables: Seq<Seq<Symbol>>,
    ids: Seq<u32>,
)
    requires
        delay_ok(delay),
        lanes_ok(lanes),
        events_ok(tables, ids),
    ensures
        ({
            let input = payload(resolve(tables, ids), delay as nat, lanes as nat, ids.len() as int);
            let (s, out, r) = read_many(
                fresh_decoder(lanes as nat),
                input,
                delay as nat,
                lanes as nat,
                tables,
                ids.len() as int,
            );
            &&& r is Ok
            &&& out == ids
            &&& s.position == input.len()
            &&& finish_result(s, input) == Ok::<(), Error>(())
        }),
{
    let d = delay as nat;
    let l = lanes as nat;
    let n = ids.len() as int;
    let input = payload(resolve(tables, ids), d, l, n);
    theorem_payload_decodes(delay, lanes, tables, ids);
    lemma_read_many_tracks(input, tables, ids, d, l, n);
    assert(ids.subrange(0, n) =~= ids);
}

} // verus!
