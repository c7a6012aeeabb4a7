use delayed_coding::{
    decode_interleaved_into, decode_into, encode, encode_events_interleaved_into,
    encode_events_into, encode_interleaved_into, encode_into, max_encoded_size, quotient,
    Decoder, Error, Event, Model, Workspace,
};

#[test]
fn reciprocals_match_division_at_state_boundaries() {
    for frequency in 1..=65536u32 {
        let model = Model::new(&[frequency, 65536 - frequency]).unwrap();
        let symbol = &model.symbols()[0];
        let maximum = (1u64 << 48) - 1;
        let near_multiple = (maximum / u64::from(frequency) - 1) * u64::from(frequency);
        for n in [
            0,
            1,
            u64::from(frequency) - 1,
            u64::from(frequency),
            near_multiple - 1,
            near_multiple,
            near_multiple + 1,
            maximum,
        ] {
            assert_eq!(
                quotient(n, symbol),
                n / u64::from(frequency),
                "f={frequency}, n={n}"
            );
        }
    }
}

fn skewed_model() -> Model {
    Model::new(&[40000, 20000, 5000, 536]).unwrap()
}

fn sample_input(count: usize) -> Vec<u32> {
    let mut state: u32 = 12345;
    let mut out = Vec::with_capacity(count);
    for _ in 0..count {
        state = state.wrapping_mul(1103515245).wrapping_add(12345);
        let r = (state >> 16) % 100;
        out.push(if r < 60 {
            0
        } else if r < 90 {
            1
        } else if r < 98 {
            2
        } else {
            3
        });
    }
    out
}

#[test]
fn roundtrip_allocating_api() {
    let model = Model::new(&[40960, 20480, 4096]).unwrap();
    let input = [0, 0, 1, 0, 2, 0, 1, 0];
    let payload = encode::<24>(&model, &input).unwrap();
    assert!(payload.len() <= max_encoded_size(input.len()).unwrap());
    assert_eq!(payload.len() % 2, 0);
    let mut restored = [0; 8];
    decode_into::<24>(&model, &payload, &mut restored).unwrap();
    assert_eq!(restored, input);
}

#[test]
fn roundtrip_every_delay() {
    let model = skewed_model();
    let input = sample_input(1000);
    for delay in [16u32, 20, 24, 28, 32] {
        let mut buffer = vec![0u8; input.len() * 2];
        let mut workspace = Workspace::default();
        let range = match delay {
            16 => encode_into::<16>(&model, &input, &mut buffer, &mut workspace),
            20 => encode_into::<20>(&model, &input, &mut buffer, &mut workspace),
            24 => encode_into::<24>(&model, &input, &mut buffer, &mut workspace),
            28 => encode_into::<28>(&model, &input, &mut buffer, &mut workspace),
            _ => encode_into::<32>(&model, &input, &mut buffer, &mut workspace),
        }
        .unwrap();
        assert_eq!(range.end, buffer.len());
        let mut restored = vec![0u32; input.len()];
        let result = match delay {
            16 => decode_into::<16>(&model, &buffer[range.clone()], &mut restored),
            20 => decode_into::<20>(&model, &buffer[range.clone()], &mut restored),
            24 => decode_into::<24>(&model, &buffer[range.clone()], &mut restored),
            28 => decode_into::<28>(&model, &buffer[range.clone()], &mut restored),
            _ => decode_into::<32>(&model, &buffer[range.clone()], &mut restored),
        };
        assert_eq!(result, Ok(()));
        assert_eq!(restored, input);
    }
}

fn interleaved_roundtrip<const LANES: usize>(model: &Model, input: &[u32]) -> Vec<u8> {
    let mut buffer = vec![0u8; input.len() * 2];
    let mut workspace = Workspace::with_capacity(input.len());
    let range =
        encode_interleaved_into::<24, LANES>(model, input, &mut buffer, &mut workspace).unwrap();
    let mut restored = vec![0u32; input.len()];
    decode_interleaved_into::<24, LANES>(model, &buffer[range.clone()], &mut restored).unwrap();
    assert_eq!(restored, input);
    buffer[range].to_vec()
}

#[test]
fn roundtrip_every_lane_count() {
    let model = skewed_model();
    for count in [0usize, 1, 3, 7, 8, 9, 100, 1001] {
        let input = sample_input(count);
        let one = interleaved_roundtrip::<1>(&model, &input);
        interleaved_roundtrip::<2>(&model, &input);
        interleaved_roundtrip::<4>(&model, &input);
        interleaved_roundtrip::<8>(&model, &input);
        let mut buffer = vec![0u8; input.len() * 2];
        let range = encode_into::<24>(&model, &input, &mut buffer, &mut Workspace::default())
            .unwrap();
        assert_eq!(buffer[range].to_vec(), one);
    }
}

#[test]
fn conditional_models_roundtrip() {
    let models = [
        Model::new(&[58982, 6554]).unwrap(),
        Model::new(&[13107, 52429]).unwrap(),
    ];
    let input = [0u32, 0, 1, 1, 1, 0, 0, 1];
    let mut previous = 0usize;
    let mut events = Vec::new();
    for &symbol in input.iter() {
        events.push(Event {
            model: &models[previous],
            symbol,
        });
        previous = symbol as usize;
    }
    let mut storage = vec![0; input.len() * 2];
    let range = encode_events_into::<24>(&events, &mut storage, &mut Workspace::default()).unwrap();
    let mut decoder = Decoder::<24, 1>::new(&storage[range]).unwrap();
    previous = 0;
    for expected in input {
        let symbol = decoder.read(&models[previous]).unwrap();
        assert_eq!(symbol, expected);
        previous = symbol as usize;
    }
    assert_eq!(decoder.finish(), Ok(()));
}

#[test]
fn interleaved_events_roundtrip() {
    let models = [skewed_model(), Model::new(&[1, 65535]).unwrap()];
    let input = sample_input(300);
    let events: Vec<Event> = input
        .iter()
        .enumerate()
        .map(|(i, &s)| Event {
            model: &models[i % 2],
            symbol: if i % 2 == 1 { (s % 2) as u32 } else { s },
        })
        .collect();
    let mut storage = vec![0; events.len() * 2];
    let range =
        encode_events_interleaved_into::<24, 4>(&events, &mut storage, &mut Workspace::default())
            .unwrap();
    let mut decoder = Decoder::<24, 4>::new(&storage[range]).unwrap();
    for event in &events {
        assert_eq!(decoder.read(event.model), Ok(event.symbol));
    }
    assert_eq!(decoder.finish(), Ok(()));
}

#[test]
fn empty_sequence_emits_zero_bytes() {
    let model = skewed_model();
    assert_eq!(encode::<24>(&model, &[]), Ok(vec![]));
    let mut buffer = [7u8; 4];
    let range = encode_into::<24>(&model, &[], &mut buffer, &mut Workspace::default()).unwrap();
    assert_eq!(range, 4..4);
    assert_eq!(buffer, [7u8; 4]);
    let mut restored: [u32; 0] = [];
    assert_eq!(decode_into::<24>(&model, &[], &mut restored), Ok(()));
}

#[test]
fn single_symbol_payload_bytes() {
    // Symbol 1 of [32768, 32768] starts at word 32768; a fresh lane codes it as
    // that word.
    let model = Model::new(&[32768, 32768]).unwrap();
    assert_eq!(encode::<24>(&model, &[1]), Ok(vec![0x80, 0x00]));
    assert_eq!(encode::<24>(&model, &[0]), Ok(vec![0x00, 0x00]));
    assert_eq!(encode::<24>(&model, &[1, 0]), Ok(vec![0x80, 0x00, 0x00, 0x00]));
}

#[test]
fn delay_changes_bytes() {
    let model = skewed_model();
    let input = sample_input(200);
    let a = encode::<16>(&model, &input).unwrap();
    let b = encode::<24>(&model, &input).unwrap();
    assert_ne!(a, b);
}

#[test]
fn invalid_delay_is_refused() {
    let model = skewed_model();
    let mut buffer = [0u8; 4];
    assert_eq!(
        encode_into::<15>(&model, &[0], &mut buffer, &mut Workspace::default()),
        Err(Error::InvalidDelay)
    );
    assert_eq!(
        encode_into::<33>(&model, &[0], &mut buffer, &mut Workspace::default()),
        Err(Error::InvalidDelay)
    );
    assert_eq!(Decoder::<15, 1>::new(&[]).err(), Some(Error::InvalidDelay));
    let mut out = [0u32; 1];
    assert_eq!(decode_into::<40>(&model, &[0, 0], &mut out), Err(Error::InvalidDelay));
}

#[test]
fn invalid_lanes_are_refused() {
    let model = skewed_model();
    let mut buffer = [0u8; 4];
    assert_eq!(
        encode_interleaved_into::<24, 3>(&model, &[0], &mut buffer, &mut Workspace::default()),
        Err(Error::InvalidLanes)
    );
    assert_eq!(Decoder::<24, 0>::new(&[]).err(), Some(Error::InvalidLanes));
    let mut out = [0u32; 1];
    assert_eq!(
        decode_interleaved_into::<24, 16>(&model, &[0, 0], &mut out),
        Err(Error::InvalidLanes)
    );
}

#[test]
fn input_too_large_is_refused() {
    assert_eq!(max_encoded_size(usize::MAX), Err(Error::InputTooLarge));
    assert_eq!(max_encoded_size(usize::MAX / 2 + 1), Err(Error::InputTooLarge));
    assert_eq!(max_encoded_size(usize::MAX / 2), Ok(usize::MAX - 1));
    assert_eq!(max_encoded_size(5), Ok(10));
}

#[test]
fn invalid_symbols_are_refused_before_writing() {
    let model = Model::new(&[65536, 0]).unwrap();
    let mut buffer = [9u8; 8];
    // Symbol out of range.
    assert_eq!(
        encode_into::<24>(&model, &[0, 2], &mut buffer, &mut Workspace::default()),
        Err(Error::InvalidSymbol)
    );
    // Symbol with frequency zero.
    assert_eq!(
        encode_into::<24>(&model, &[1, 0], &mut buffer, &mut Workspace::default()),
        Err(Error::InvalidSymbol)
    );
    assert_eq!(buffer, [9u8; 8]);
    assert_eq!(encode::<24>(&model, &[0, 0, 1]), Err(Error::InvalidSymbol));
}

#[test]
fn small_output_is_refused_before_writing() {
    let model = skewed_model();
    let input = sample_input(50);
    let needed = encode::<24>(&model, &input).unwrap().len();
    assert!(needed > 2);
    let mut buffer = vec![5u8; needed - 1];
    assert_eq!(
        encode_into::<24>(&model, &input, &mut buffer, &mut Workspace::default()),
        Err(Error::OutputTooSmall)
    );
    assert!(buffer.iter().all(|&b| b == 5));
    let mut exact = vec![5u8; needed];
    let range = encode_into::<24>(&model, &input, &mut exact, &mut Workspace::default()).unwrap();
    assert_eq!(range, 0..needed);
}

#[test]
fn payload_is_written_at_the_end_of_the_buffer() {
    let model = skewed_model();
    let input = sample_input(20);
    let payload = encode::<24>(&model, &input).unwrap();
    let mut buffer = vec![3u8; payload.len() + 10];
    let range = encode_into::<24>(&model, &input, &mut buffer, &mut Workspace::default()).unwrap();
    assert_eq!(range, 10..payload.len() + 10);
    assert_eq!(&buffer[range], &payload[..]);
    assert!(buffer[..10].iter().all(|&b| b == 3));
}

#[test]
fn truncated_input_is_sticky() {
    let model = skewed_model();
    let input = sample_input(40);
    let payload = encode::<24>(&model, &input).unwrap();
    let short = &payload[..payload.len() - 1];
    let mut decoder = Decoder::<24, 1>::new(short).unwrap();
    let mut error = None;
    for _ in 0..input.len() {
        match decoder.read(&model) {
            Ok(_) => {}
            Err(e) => {
                error = Some(e);
                break;
            }
        }
    }
    assert_eq!(error, Some(Error::TruncatedInput));
    let position = decoder.bytes_read();
    assert_eq!(decoder.read(&model), Err(Error::TruncatedInput));
    assert_eq!(decoder.bytes_read(), position);
    assert_eq!(decoder.finish(), Err(Error::TruncatedInput));

    let mut restored = vec![0u32; input.len()];
    assert_eq!(
        decode_into::<24>(&model, short, &mut restored),
        Err(Error::TruncatedInput)
    );
}

#[test]
fn trailing_input_is_refused() {
    let model = skewed_model();
    let input = sample_input(30);
    let mut payload = encode::<24>(&model, &input).unwrap();
    payload.push(0);
    payload.push(0);
    let mut restored = vec![0u32; input.len()];
    assert_eq!(
        decode_into::<24>(&model, &payload, &mut restored),
        Err(Error::TrailingInput)
    );
    assert_eq!(restored, input);
}

#[test]
fn wrong_final_state_is_refused() {
    let model = Model::new(&[32768, 32768]).unwrap();
    // One symbol of frequency 32768 leaves a numerator of word / 32768 / ...:
    // decoding 0x8001 yields symbol 1 with remainder 1, a nonzero numerator.
    let mut restored = [0u32; 1];
    assert_eq!(
        decode_into::<24>(&model, &[0x80, 0x01], &mut restored),
        Err(Error::InvalidState)
    );
    assert_eq!(restored, [1]);
    let mut decoder = Decoder::<24, 1>::new(&[0x80, 0x01]).unwrap();
    assert_eq!(decoder.read(&model), Ok(1));
    assert_eq!(decoder.bytes_read(), 2);
    assert_eq!(decoder.finish(), Err(Error::InvalidState));
}

#[test]
fn decoding_prefix_is_left_on_error() {
    let model = skewed_model();
    let input = sample_input(60);
    let payload = encode::<24>(&model, &input).unwrap();
    let short = &payload[..payload.len() - 2];
    let mut restored = vec![77u32; input.len()];
    assert_eq!(
        decode_into::<24>(&model, short, &mut restored),
        Err(Error::TruncatedInput)
    );
    let decoded = restored.iter().position(|&s| s == 77).unwrap();
    assert_eq!(&restored[..decoded], &input[..decoded]);
    assert!(restored[decoded..].iter().all(|&s| s == 77));
}

#[test]
fn model_validation() {
    assert_eq!(Model::new(&[]).err(), Some(Error::InvalidModel));
    assert_eq!(Model::new(&[65535]).err(), Some(Error::InvalidModel));
    assert_eq!(Model::new(&[65536, 1]).err(), Some(Error::InvalidModel));
    assert_eq!(Model::new(&[40000, 30000]).err(), Some(Error::InvalidModel));
    let model = Model::new(&[0, 65536, 0]).unwrap();
    assert_eq!(model.symbols().len(), 3);
    let symbols = model.symbols();
    assert_eq!(symbols[1].start, 0);
    assert_eq!(symbols[1].frequency, 65536);
    assert_eq!(symbols[2].start, 65536);
}

#[test]
fn lookup_and_embed_agree() {
    let model = Model::new(&[100, 0, 65000, 436]).unwrap();
    let symbols = model.symbols().to_vec();
    assert_eq!(symbols[2].start, 100);
    assert_eq!(symbols[3].start, 65100);
    for word in [0u16, 99, 100, 65099, 65100, 65535] {
        let d = model.lookup(word);
        let s = &symbols[d.symbol as usize];
        assert!(s.frequency > 0);
        assert_eq!(d.frequency, s.frequency);
        assert_eq!(model.embed_validated(s, d.remainder), word);
    }
    assert_eq!(model.lookup(99).symbol, 0);
    assert_eq!(model.lookup(100).symbol, 2);
    assert_eq!(model.lookup(65535).symbol, 3);
    assert_eq!(model.lookup(65535).remainder, 435);
}

#[test]
fn reciprocal_quotient_exact_values() {
    let model = Model::new(&[3, 65533]).unwrap();
    let s = &model.symbols()[0];
    assert_eq!(s.reciprocal, u64::MAX / 3 + 1);
    assert_eq!(quotient(10, s), 3);
    assert_eq!(quotient((1u64 << 48) - 1, s), ((1u64 << 48) - 1) / 3);
    let one = Model::new(&[1, 65535]).unwrap();
    assert_eq!(quotient(u64::MAX, &one.symbols()[0]), u64::MAX);
}

#[test]
fn workspace_capacity_and_schedule() {
    let workspace = Workspace::with_capacity(64);
    assert!(workspace.capacity() >= 64);
    let mut workspace = Workspace::default();
    let model = skewed_model();
    let input = sample_input(100);
    let mut buffer = vec![0u8; 200];
    encode_into::<24>(&model, &input, &mut buffer, &mut workspace).unwrap();
    assert!(workspace.capacity() >= 100);
}

#[test]
fn decoder_reads_are_bounded_on_garbage() {
    let model = skewed_model();
    let garbage: Vec<u8> = (0..64u32).map(|i| (i * 37 + 11) as u8).collect();
    let mut decoder = Decoder::<16, 2>::new(&garbage).unwrap();
    for _ in 0..200 {
        if decoder.read(&model).is_err() {
            break;
        }
        assert!(decoder.bytes_read() <= garbage.len());
    }
    assert!(decoder.bytes_read() <= garbage.len());
}

#[test]
fn lanes_change_bytes() {
    let model = skewed_model();
    let input = sample_input(200);
    let one = interleaved_roundtrip::<1>(&model, &input);
    let four = interleaved_roundtrip::<4>(&model, &input);
    assert_ne!(one, four);
}

#[test]
fn events_with_one_model_match_fixed_model() {
    let model = skewed_model();
    let input = sample_input(150);
    let events: Vec<Event> = input
        .iter()
        .map(|&symbol| Event {
            model: &model,
            symbol,
        })
        .collect();
    let mut a = vec![0u8; 300];
    let mut b = vec![0u8; 300];
    let ra = encode_events_interleaved_into::<20, 2>(&events, &mut a, &mut Workspace::default())
        .unwrap();
    let rb = encode_interleaved_into::<20, 2>(&model, &input, &mut b, &mut Workspace::default())
        .unwrap();
    assert_eq!(ra, rb);
    assert_eq!(a, b);
}

#[test]
fn decoder_starts_fresh() {
    let decoder = Decoder::<24, 8>::new(&[1, 2, 3]).unwrap();
    assert_eq!(decoder.bytes_read(), 0);
    assert_eq!(decoder.finish(), Err(Error::TrailingInput));
    let empty = Decoder::<24, 8>::new(&[]).unwrap();
    assert_eq!(empty.finish(), Ok(()));
}

fn is_interleaving(whole: &[u8], a: &[u8], b: &[u8]) -> bool {
    let words = |s: &[u8]| -> Vec<u16> {
        s.chunks(2).map(|c| u16::from_be_bytes([c[0], c[1]])).collect()
    };
    let (w, x, y) = (words(whole), words(a), words(b));
    if w.len() != x.len() + y.len() {
        return false;
    }
    // reach[i][j]: the first i words of x and j of y can make the first i + j of w.
    let mut reach = vec![vec![false; y.len() + 1]; x.len() + 1];
    reach[0][0] = true;
    for i in 0..=x.len() {
        for j in 0..=y.len() {
            if !reach[i][j] {
                continue;
            }
            if i < x.len() && x[i] == w[i + j] {
                reach[i + 1][j] = true;
            }
            if j < y.len() && y[j] == w[i + j] {
                reach[i][j + 1] = true;
            }
        }
    }
    reach[x.len()][y.len()]
}

#[test]
fn interleaved_payload_merges_lane_payloads() {
    let model = skewed_model();
    let input = sample_input(301);
    let whole = interleaved_roundtrip::<2>(&model, &input);
    let lane0: Vec<u32> = input.iter().step_by(2).copied().collect();
    let lane1: Vec<u32> = input.iter().skip(1).step_by(2).copied().collect();
    let p0 = encode::<24>(&model, &lane0).unwrap();
    let p1 = encode::<24>(&model, &lane1).unwrap();
    assert_eq!(whole.len(), p0.len() + p1.len());
    assert!(is_interleaving(&whole, &p0, &p1));
}

#[test]
fn hand_driven_decoder_position_is_even_and_grows() {
    let model = skewed_model();
    let input = sample_input(120);
    let payload = encode::<24>(&model, &input).unwrap();
    let mut decoder = Decoder::<24, 1>::new(&payload).unwrap();
    let mut last = decoder.bytes_read();
    for &expected in &input {
        assert_eq!(decoder.read(&model), Ok(expected));
        let now = decoder.bytes_read();
        assert!(now >= last);
        assert_eq!(now % 2, 0);
        assert!(now <= payload.len());
        last = now;
    }
    assert_eq!(decoder.bytes_read(), payload.len());
    assert_eq!(decoder.finish(), Ok(()));
}

#[test]
fn workspace_capacity_is_bounded() {
    let workspace = Workspace::with_capacity(16);
    assert!(workspace.capacity() <= isize::MAX as usize);
}

#[test]
fn payload_is_independent_of_buffer_and_workspace() {
    let model = skewed_model();
    let input = sample_input(64);
    let mut ws = Workspace::default();
    let mut a = vec![0u8; 128];
    let ra = encode_into::<24>(&model, &input, &mut a, &mut ws).unwrap();
    let mut b = vec![0xffu8; 500];
    let rb = encode_into::<24>(&model, &input, &mut b, &mut ws).unwrap();
    assert_eq!(ra.len(), rb.len());
    assert_eq!(&a[ra], &b[rb]);
}
