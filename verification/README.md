# delayed_coding

A verified delayed arithmetic coder for symbol streams with normalized 16-bit
frequency models, written in Verus.

Layout of `src/`:

- `model.rs` — normalized frequency models: each symbol owns a contiguous
  interval of the 65536 code words; lookup by binary search; fixed-point
  reciprocals of the frequencies.
- `format.rs` — the payload format and the decoder's state machine as spec
  functions (`payload`, `encode_result`, `read_step`, `decode_result`), with the
  bounds that keep every numerator below 2^48.
- `codec.rs` — the encoders (`encode_into` and its event and interleaved
  variants, `encode`), the `Decoder`, and `decode_into`; each states its result
  over the spec functions of `format.rs`.
- `roundtrip.rs` — the proof that decoding a payload gives back the symbols it
  was made from (`law_decode_inverts_encode`), also read by read
  (`law_each_read_recovers_its_symbol`, `law_complete_read_finishes`).
- `lanes.rs` — each lane codes its symbols exactly as a one-lane coder would
  (`law_lanes_code_independently`), so an interleaved payload is the lanes'
  payloads merged by symbol index (`law_interleaved_payload_merges_lanes`).
- `laws.rs` — further properties: empty streams, payload size, sticky errors,
  bounded reads, event and fixed-model encoders agreeing.
- `arith.rs` — division by reciprocal, residues modulo the lane count, and
  wrapping arithmetic.

Payloads are raw: the model, delay, lane count, symbol count and payload length
must be kept by the application. The final checks of a decoder are not a
checksum.
