//! Properties of the coder as a whole, beyond a single call.
use vstd::prelude::*;

use crate::codec::{event_ids, event_tables, Event};
use crate::error::Error;
use crate::format::{
    decode_result, delay_ok, encode_result, finish_result, fresh_decoder, lanes_ok,
    lemma_payload_len, read_many, read_step, resolve, same_table, DecodeState,
};
use crate::model::Symbol;

verus! {

/// An empty symbol sequence emits zero bytes, whatever the buffer.
pub proof fn law_empty_stream_emits_nothing(
    delay: int,
    lanes: int,
    tables: Seq<Seq<Symbol>>,
    capacity: nat,
)
    requires
        delay_ok(delay),
        lanes_ok(lanes),
    ensures
        encode_result(delay, lanes, tables, Seq::<u32>::empty(), capacity) == Ok::<Seq<u8>, Error>(
            Seq::<u8>::empty(),
        ),
{
}

/// A payload is made of whole 16-bit words, at most one per symbol, so it
/// always fits in `max_encoded_size` bytes.
pub proof fn law_payload_fits_max_size(
    delay: int,
    lanes: int,
    tables: Seq<Seq<Symbol>>,
    ids: Seq<u32>,
    capacity: nat,
)
    ensures
        encode_result(delay, lanes, tables, ids, capacity) matches Ok(p) ==> p.len() <= 2
            * ids.len() && p.len() % 2 == 0,
{
    lemma_payload_len(resolve(tables, ids), delay as nat, lanes as nat, ids.len() as int);
}

/// Errors are sticky: once a read has failed, every later read fails with the
/// same error and changes nothing.
pub proof fn law_errors_are_sticky(
    s: DecodeState,
    input: Seq<u8>,
    delay: nat,
    lanes: nat,
    table: Seq<Symbol>,
)
    requires
        s.error is Some,
    ensures
        read_step(s, input, delay, lanes, table) == (s, Err::<u32, Error>(s.error->0)),
{
}

/// A read never moves past the end of the input and never moves back: it
/// either consumes two bytes that are there, uses a carried word, or fails.
/// So a decoder's position stays even.
pub proof fn law_reads_stay_in_input(
    s: DecodeState,
    input: Seq<u8>,
    delay: nat,
    lanes: nat,
    table: Seq<Symbol>,
)
    requires
        s.position <= input.len(),
        lanes > 0,
        s.lane < s.states.len(),
    ensures
        read_step(s, input, delay, lanes, table).0.position <= input.len(),
        read_step(s, input, delay, lanes, table).0.position >= s.position,
        s.position % 2 == 0 ==> read_step(s, input, delay, lanes, table).0.position % 2 == 0,
        read_step(s, input, delay, lanes, table).1 is Err ==> read_step(
            s,
            input,
            delay,
            lanes,
            table,
        ).0.position == s.position,
{
}

/// Encoding events that all use one model is encoding the symbols with that
/// model: the per-event and fixed-model entry points agree.
pub proof fn law_events_agree_with_fixed_model<'a>(
    events: Seq<Event<'a>>,
    table: Seq<Symbol>,
    ids: Seq<u32>,
    delay: int,
    lanes: int,
    capacity: nat,
)
    requires
        events.len() == ids.len(),
        forall|i: int| 0 <= i < events.len() ==> (#[trigger] events[i]).model@ == table,
        forall|i: int| 0 <= i < events.len() ==> (#[trigger] events[i]).symbol == ids[i],
    ensures
        encode_result(delay, lanes, event_tables(events), event_ids(events), capacity)
            == encode_result(delay, lanes, same_table(table, ids.len()), ids, capacity),
{
    assert(event_tables(events) =~= same_table(table, ids.len()));
    assert(event_ids(events) =~= ids);
}

/// The buffer size only decides whether a payload fits: any buffer large
/// enough gets the same payload, so the allocating and the in-place encoders
/// agree.
pub proof fn law_buffer_size_only_limits(
    delay: int,
    lanes: int,
    tables: Seq<Seq<Symbol>>,
    ids: Seq<u32>,
    capacity: nat,
    other: nat,
)
    ensures
        encode_result(delay, lanes, tables, ids, capacity) matches Ok(p) ==> (other >= p.len()
            ==> encode_result(delay, lanes, tables, ids, other) == Ok::<Seq<u8>, Error>(p)),
{
}

/// The payload depends only on the delay, the lane count and the events:
/// two successful encodings of the same events, into buffers of any sizes and
/// with any workspaces, give the same bytes.
pub proof fn law_payload_depends_only_on_events(
    delay: int,
    lanes: int,
    tables: Seq<Seq<Symbol>>,
    ids: Seq<u32>,
    capacity: nat,
    other: nat,
)
    ensures
        encode_result(delay, lanes, tables, ids, capacity) matches Ok(p1) ==> (encode_result(
            delay,
            lanes,
            tables,
            ids,
            other,
        ) matches Ok(p2) ==> p1 == p2),
{
}

/// Encoding is complete: for a delay in `16 ..= 32` bits and 1, 2, 4 or 8
/// lanes, a stream of `n` symbols with `2 * n` within `usize`, each an index of
/// its model with nonzero frequency, encodes successfully into any buffer of at
/// least `2 * n` bytes.
pub proof fn law_encoding_is_complete(
    delay: int,
    lanes: int,
    tables: Seq<Seq<Symbol>>,
    ids: Seq<u32>,
    capacity: nat,
)
    requires
        16 <= delay <= 32,
        lanes == 1 || lanes == 2 || lanes == 4 || lanes == 8,
        tables.len() == ids.len(),
        2 * ids.len() <= usize::MAX,
        capacity >= 2 * ids.len(),
        forall|i: int|
            0 <= i < ids.len() ==> ids[i] < (#[trigger] tables[i]).len() && tables[i][ids[i] as int].frequency
                > 0,
    ensures
        encode_result(delay, lanes, tables, ids, capacity) is Ok,
{
    lemma_payload_len(resolve(tables, ids), delay as nat, lanes as nat, ids.len() as int);
}

/// Which error encoding reports, for a delay in `16 ..= 32` bits and 1, 2, 4 or
/// 8 lanes: `InputTooLarge` exactly when `2 * n` overflows `usize`; otherwise
/// `InvalidSymbol` exactly when some event's symbol is not an index of its
/// model or has frequency zero.
pub proof fn law_encoding_errors(
    delay: int,
    lanes: int,
    tables: Seq<Seq<Symbol>>,
    ids: Seq<u32>,
    capacity: nat,
)
    requires
        16 <= delay <= 32,
        lanes == 1 || lanes == 2 || lanes == 4 || lanes == 8,
        tables.len() == ids.len(),
    ensures
        encode_result(delay, lanes, tables, ids, capacity) == Err::<Seq<u8>, Error>(
            Error::InputTooLarge,
        ) <==> 2 * ids.len() > usize::MAX,
        2 * ids.len() <= usize::MAX ==> (encode_result(delay, lanes, tables, ids, capacity)
            == Err::<Seq<u8>, Error>(Error::InvalidSymbol) <==> exists|i: int|
            0 <= i < ids.len() && !(ids[i] < (#[trigger] tables[i]).len()
                && tables[i][ids[i] as int].frequency > 0)),
{
}

proof fn lemma_read_many_errors(
    input: Seq<u8>,
    delay: nat,
    lanes: nat,
    tables: Seq<Seq<Symbol>>,
    k: int,
)
    ensures
        ({
            let (s, out, r) = read_many(fresh_decoder(lanes), input, delay, lanes, tables, k);
            &&& s.error is None || s.error == Some(Error::TruncatedInput)
            &&& r is Ok ==> s.error is None
            &&& r is Err ==> r == Err::<(), Error>(Error::TruncatedInput)
            &&& r is Ok ==> out.len() == (if k < 0 { 0 } else { k })
        }),
    decreases k,
{
    if k > 0 {
        lemma_read_many_errors(input, delay, lanes, tables, k - 1);
    }
}

/// The accepted delays are exactly `16 ..= 32` bits and the accepted lane
/// counts exactly 1, 2, 4 and 8: encoding and decoding report `InvalidDelay`
/// exactly outside that range (`Decoder::new` accepts exactly the same
/// delays), and, for an accepted delay, `InvalidLanes` exactly for other lane
/// counts.
pub proof fn law_accepted_configurations(
    delay: int,
    lanes: int,
    tables: Seq<Seq<Symbol>>,
    ids: Seq<u32>,
    capacity: nat,
    input: Seq<u8>,
)
    ensures
        delay_ok(delay) <==> 16 <= delay <= 32,
        lanes_ok(lanes) <==> (lanes == 1 || lanes == 2 || lanes == 4 || lanes == 8),
        encode_result(delay, lanes, tables, ids, capacity) == Err::<Seq<u8>, Error>(
            Error::InvalidDelay,
        ) <==> !(16 <= delay <= 32),
        decode_result(delay, lanes, input, tables).1 == Err::<(), Error>(Error::InvalidDelay) <==> !(
        16 <= delay <= 32),
        16 <= delay <= 32 ==> (encode_result(delay, lanes, tables, ids, capacity) == Err::<
            Seq<u8>,
            Error,
        >(Error::InvalidLanes) <==> !(lanes == 1 || lanes == 2 || lanes == 4 || lanes == 8)),
        16 <= delay <= 32 ==> (decode_result(delay, lanes, input, tables).1 == Err::<(), Error>(
            Error::InvalidLanes,
        ) <==> !(lanes == 1 || lanes == 2 || lanes == 4 || lanes == 8)),
{
    lemma_read_many_errors(input, delay as nat, lanes as nat, tables, tables.len() as int);
}

/// The final check accepts exactly a clean end: no read failed, every input
/// byte was consumed, and every lane holds a zero numerator and no pending
/// code word other than 0. Bytes left over give `TrailingInput`; with none
/// left, a nonzero numerator or a pending nonzero word gives `InvalidState`.
pub proof fn law_finish_accepts_only_a_clean_end(s: DecodeState, input: Seq<u8>)
    ensures
        finish_result(s, input) is Ok <==> (s.error is None && s.position == input.len()
            && forall|i: int|
            0 <= i < s.states.len() ==> (#[trigger] s.states[i]).numerator == 0 && (
            s.states[i].virtual_word is None || s.states[i].virtual_word == Some(0u16))),
        s.error is None && s.position != input.len() ==> finish_result(s, input) == Err::<
            (),
            Error,
        >(Error::TrailingInput),
        s.error is None && s.position == input.len() && (exists|i: int|
            0 <= i < s.states.len() && ((#[trigger] s.states[i]).numerator != 0 || (
            s.states[i].virtual_word is Some && s.states[i].virtual_word != Some(0u16))))
            ==> finish_result(s, input) == Err::<(), Error>(Error::InvalidState),
{
    if s.error is None && s.position == input.len() {
        if finish_result(s, input) is Ok {
            assert forall|i: int| 0 <= i < s.states.len() implies (#[trigger] s.states[i]).numerator
                == 0 && (s.states[i].virtual_word is None || s.states[i].virtual_word == Some(
                0u16,
            )) by {
                if let Some(w) = s.states[i].virtual_word {
                    assert(w == 0);
                }
            }
        }
    }
}

/// Decoding a whole buffer, for every accepted configuration: when every read
/// succeeds, the outcome is the final check of the decoder's state, so bytes
/// left after the last symbol give `TrailingInput` and a nonzero final lane
/// state gives `InvalidState`; and decoding succeeds only if all symbols were
/// read, the whole input consumed, and every lane ended clean.
pub proof fn law_decoding_checks_the_end(
    delay: int,
    lanes: int,
    input: Seq<u8>,
    tables: Seq<Seq<Symbol>>,
)
    requires
        16 <= delay <= 32,
        lanes == 1 || lanes == 2 || lanes == 4 || lanes == 8,
    ensures
        ({
            let (s, out, r) = read_many(
                fresh_decoder(lanes as nat),
                input,
                delay as nat,
                lanes as nat,
                tables,
                tables.len() as int,
            );
            let (symbols, outcome) = decode_result(delay, lanes, input, tables);
            &&& symbols == out
            &&& r is Ok && s.position != input.len() ==> outcome == Err::<(), Error>(
                Error::TrailingInput,
            )
            &&& r is Ok && s.position == input.len() && (exists|i: int|
                0 <= i < s.states.len() && ((#[trigger] s.states[i]).numerator != 0 || (
                s.states[i].virtual_word is Some && s.states[i].virtual_word != Some(0u16))))
                ==> outcome == Err::<(), Error>(Error::InvalidState)
            &&& outcome is Ok ==> r is Ok && symbols.len() == tables.len() && s.position
                == input.len() && forall|i: int|
                0 <= i < s.states.len() ==> (#[trigger] s.states[i]).numerator == 0 && (
                s.states[i].virtual_word is None || s.states[i].virtual_word == Some(0u16))
        }),
{
    let d = delay as nat;
    let l = lanes as nat;
    lemma_read_many_errors(input, d, l, tables, tables.len() as int);
    let (s, out, r) = read_many(fresh_decoder(l), input, d, l, tables, tables.len() as int);
    law_finish_accepts_only_a_clean_end(s, input);
}

} // verus!
