use choice_tape::choice::{zigzag, Choice};
use choice_tape::float_bits::{
    float_key, float_shrink_target, float_to_lex, float_trunc, base_float_to_lex, exponent_rank,
    update_mantissa,
};
use choice_tape::keys::KeyElt;
use choice_tape::persisted::PersistedTape;
use choice_tape::state::TapeState;
use choice_tape::tape::{Span, Tape};
use choice_tape::tape_int::TapeInt;
use choice_tape::wire::{deserialize_choice, deserialize_tape, serialize_choice, serialize_tape};
use std::cmp::Ordering;

fn bits(v: f64) -> u64 {
    v.to_bits()
}

fn lex(v: f64) -> u64 {
    float_to_lex(v.to_bits())
}

fn key(v: f64) -> u128 {
    float_key(v.to_bits())
}

fn target(min: f64, max: f64) -> f64 {
    f64::from_bits(float_shrink_target(min.to_bits(), max.to_bits()))
}

fn tape_of(choices: Vec<Choice>) -> Tape {
    Tape { choices, spans: Vec::new(), streams: Vec::new() }
}

#[test]
fn serialize_v2_roundtrip_and_v1_compat() {
    // Stream-free tapes keep the flat format.
    let flat = tape_of(vec![
        Choice::Integer { value: 5, min: 0, max: 10, shrink_to: 0 },
        Choice::Bool { value: true },
    ]);
    let bytes = serialize_tape(&flat);
    assert_eq!(0, bytes[0], "flat bytes start with the first record tag");
    assert_eq!(Some(flat.clone()), deserialize_tape(&bytes));

    // Stream-carrying tapes round-trip through the sectioned format.
    let mut with_streams = flat.clone();
    with_streams.streams = vec![
        (
            vec![KeyElt::Split(0), KeyElt::Salt(0xdead_beef_dead_beef)],
            vec![Choice::RawU32 { value: 7 }],
        ),
        (vec![KeyElt::Split(1)], vec![Choice::Bool { value: false }]),
    ];
    let bytes = serialize_tape(&with_streams);
    assert_eq!(6, bytes[0], "sectioned bytes start with their tag");
    assert_eq!(Some(with_streams), deserialize_tape(&bytes));
}

#[test]
fn stream_deletion_orders_smaller() {
    let mut a = tape_of(vec![Choice::Bool { value: false }]);
    a.streams = vec![(vec![KeyElt::Split(0)], vec![Choice::Bool { value: true }])];
    let b = a.with_stream_deleted(0);
    assert_eq!(Ordering::Less, b.cmp_key(&a));
}

#[test]
fn zigzag_prefers_target_then_positive_side() {
    let t = 100u128;
    assert_eq!(0, zigzag(100, t));
    assert_eq!(1, zigzag(101, t));
    assert_eq!(2, zigzag(99, t));
    assert_eq!(3, zigzag(102, t));
    assert_eq!(4, zigzag(98, t));
}

fn check<T: TapeInt + PartialEq + std::fmt::Debug>(values: &[T]) {
    for &v in values {
        assert_eq!(v, T::decode(T::encode(v)));
    }
    for pair in values.windows(2) {
        assert!(pair[0].encode() < pair[1].encode());
    }
}

#[test]
fn tape_int_roundtrip_and_order() {
    check(&[0u8, 1, 200, u8::MAX]);
    check(&[i8::MIN, -1, 0, 1, i8::MAX]);
    check(&[i64::MIN, -1, 0, 1, i64::MAX]);
    check(&[u128::MIN, 1, u128::MAX]);
    check(&[i128::MIN, -1, 0, i128::MAX]);
    assert_eq!(i64::encode(0), i64::encode_zero());
    assert_eq!(u64::encode(0), u64::encode_zero());
}

#[test]
fn float_lex_simple_integers_encode_as_themselves() {
    // (Values must be exactly representable as f64, so no 2^56 - 1:
    // that rounds up to 2^56, which is no longer "simple".)
    for i in [0u64, 1, 2, 3, 10, 1000, 1 << 53, 1 << 55] {
        assert_eq!(i, lex(i as f64));
    }
}

#[test]
fn float_lex_integers_are_simpler_than_fractions() {
    // Any integer below 2^56 keys below any non-integer.
    assert!(lex(1000000.0) < lex(1.5));
    assert!(lex(3.0) < lex(2.5));
    // Ties on the integer part: fewer fraction bits is simpler.
    assert!(lex(2.5) < lex(2.25));
    assert!(lex(2.25) < lex(2.125));
    // Infinity is worse than all finite values.
    assert!(lex(f64::MAX) < lex(f64::INFINITY));
    assert!(lex(1e300) < lex(f64::INFINITY));
}

#[test]
fn float_key_sign_and_nan_ordering() {
    assert!(key(1.0) < key(-1.0));
    assert!(key(-1.0) < key(f64::NAN));
    assert!(key(f64::INFINITY) < key(f64::NAN));
    assert_eq!(0, key(0.0));
}

#[test]
fn float_shrink_target_clamps_toward_zero() {
    assert_eq!(0.0, target(-10.0, 10.0));
    assert_eq!(1.5, target(1.5, 10.0));
    assert_eq!(-1.5, target(-10.0, -1.5));
    assert_eq!(0.0, target(f64::NEG_INFINITY, f64::INFINITY));
}

#[test]
fn shortlex_shorter_tape_wins() {
    let long = tape_of(vec![Choice::RawU32 { value: 0 }, Choice::RawU32 { value: 0 }]);
    let short = tape_of(vec![Choice::RawU32 { value: u32::MAX }]);
    assert_eq!(Ordering::Less, short.cmp_key(&long));
}

#[test]
fn shortlex_compares_keys_elementwise() {
    let a = tape_of(vec![Choice::RawU32 { value: 1 }, Choice::RawU32 { value: 100 }]);
    let b = tape_of(vec![Choice::RawU32 { value: 2 }, Choice::RawU32 { value: 0 }]);
    assert_eq!(Ordering::Less, a.cmp_key(&b));
}

#[test]
fn trivial_tape_is_minimal() {
    let tape = tape_of(vec![
        Choice::Integer {
            value: i32::encode(57),
            min: i32::encode(-100),
            max: i32::encode(100),
            shrink_to: i32::encode_zero(),
        },
        Choice::Float { value: bits(3.7), min: bits(1.5), max: bits(10.0), allow_nan: false },
        Choice::RawBytes { value: vec![1, 2, 3] },
    ]);
    let trivial = tape.trivial();
    assert_eq!(Ordering::Less, trivial.cmp_key(&tape));
    assert_eq!(Ordering::Equal, trivial.cmp_key(&trivial.trivial()));
    match &trivial.choices[1] {
        Choice::Float { value, .. } => assert_eq!(1.5, f64::from_bits(*value)),
        other => panic!("unexpected {:?}", other),
    }
}

#[test]
fn tape_serialization_roundtrips() {
    let tape = tape_of(vec![
        Choice::Integer {
            value: i64::encode(-42),
            min: i64::encode(i64::MIN),
            max: i64::encode(i64::MAX),
            shrink_to: i64::encode_zero(),
        },
        Choice::Float {
            value: bits(2.5),
            min: bits(f64::NEG_INFINITY),
            max: bits(f64::INFINITY),
            allow_nan: true,
        },
        Choice::Bool { value: true },
        Choice::RawU32 { value: 0xDEAD },
        Choice::RawU64 { value: 0xBEEF_CAFE },
        Choice::RawBytes { value: vec![1, 2, 3, 4, 5] },
    ]);
    let bytes = serialize_tape(&tape);
    assert_eq!(Some(tape), deserialize_tape(&bytes));
    // Strictness: truncated input is rejected.
    assert_eq!(None, deserialize_tape(&bytes[..bytes.len() - 1]));
    assert_eq!(None, deserialize_tape(&[99]));
}

#[test]
fn replay_pops_matching_choices() {
    let mut state = TapeState::default();
    state.start_replay(tape_of(vec![Choice::RawU32 { value: 7 }, Choice::RawU64 { value: 9 }]));
    // Matching kind pops.
    let popped = state.pop_replay(|c: &Choice| matches!(c, Choice::RawU32 { .. }));
    assert_eq!(Some(Choice::RawU32 { value: 7 }), popped);
    // Kind mismatch does not consume...
    assert_eq!(None, state.pop_replay(|c: &Choice| matches!(c, Choice::RawU32 { .. })));
    // ...so the u64 is still there.
    let popped = state.pop_replay(|c: &Choice| matches!(c, Choice::RawU64 { .. }));
    assert_eq!(Some(Choice::RawU64 { value: 9 }), popped);
    // Overrun.
    assert_eq!(None, state.pop_replay(|c: &Choice| matches!(c, Choice::RawU32 { .. })));
    let (output, overrun) = state.finish_replay();
    assert!(overrun);
    assert!(output.choices.is_empty());
}

/// A few thousand bit patterns, and the corner cases.
fn patterns() -> Vec<u64> {
    let mut all = vec![0.0, 1.0, 0.5, 1.5, 2.5, 3.7, 1e300, 5e-324, f64::MAX, f64::MIN_POSITIVE]
        .into_iter()
        .map(f64::to_bits)
        .collect::<Vec<u64>>();
    for e in 0..2047u64 {
        all.push(e << 52);
        all.push((e << 52) | 1);
        all.push((e << 52) | ((1 << 52) - 1));
    }
    let mut x = 0x9e37_79b9_7f4a_7c15u64;
    for _ in 0..4000 {
        x ^= x << 13;
        x ^= x >> 7;
        x ^= x << 17;
        all.push(x & !(1 << 63));
    }
    for e in 1015..1085u64 {
        x ^= x << 13;
        x ^= x >> 7;
        x ^= x << 17;
        let m = x & ((1 << 52) - 1);
        all.push((e << 52) | m);
        all.push((e << 52) | (m & !((1 << 30) - 1)));
        all.push((e << 52) | (m & !((1 << 45) - 1)));
    }
    all.push(f64::INFINITY.to_bits());
    all.push(f64::NAN.to_bits());
    all
}

/// The encoding, by float arithmetic and bit reversal.
fn lex_by_floats(f: f64) -> u64 {
    if f.is_finite() && f == f.trunc() && f < (1u64 << 56) as f64 {
        return f as u64;
    }
    let bits = f.to_bits();
    let exponent = bits >> 52;
    let mut mantissa = bits & ((1 << 52) - 1);
    let unbiased = exponent as i64 - 1023;
    if unbiased <= 0 {
        mantissa = mantissa.reverse_bits() >> 12;
    } else if unbiased <= 51 {
        let n = (52 - unbiased) as u32;
        let fraction = mantissa & ((1u64 << n) - 1);
        mantissa -= fraction;
        mantissa |= fraction.reverse_bits() >> (64 - n);
    }
    let rank = match exponent {
        2047 => 2047,
        e if e >= 1023 => e - 1023,
        e => 2046 - e,
    };
    (1 << 63) | (rank << 52) | mantissa
}

#[test]
fn float_encoding_agrees_with_float_arithmetic() {
    for b in patterns() {
        let f = f64::from_bits(b);
        assert_eq!(lex_by_floats(f), float_to_lex(b), "{:x}", b);
        assert_eq!(f.trunc().to_bits(), float_trunc(b), "{:x}", b);
        let negative = b | (1 << 63);
        assert_eq!(f64::from_bits(negative).trunc().to_bits(), float_trunc(negative));
    }
}

#[test]
fn float_encoding_exact_values() {
    let tag = 1u64 << 63;
    assert_eq!(tag | 1, lex(1.5));
    assert_eq!(tag | 1 << 52 | 1, lex(2.5));
    assert_eq!(tag | 1 << 52 | 2, lex(2.25));
    assert_eq!(tag | 1024 << 52, lex(0.5));
    assert_eq!(tag | 0x7FF << 52, lex(f64::INFINITY));
    assert_eq!(tag | 56 << 52, lex((1u64 << 56) as f64));
    assert_eq!(0, lex(-0.0));
    assert_eq!(tag, base_float_to_lex(bits(1.0)));
    assert_eq!(tag, base_float_to_lex(bits(-1.0)));
    assert_eq!(1 << 64, key(-0.0));
    assert_eq!(1 << 64 | 1, key(-1.0));
    assert_eq!(u128::MAX, key(f64::NAN));
    assert_eq!(u128::MAX, key(-f64::NAN));
    assert_eq!(0, exponent_rank(1023));
    assert_eq!(1023, exponent_rank(2046));
    assert_eq!(1024, exponent_rank(1022));
    assert_eq!(2046, exponent_rank(0));
    assert_eq!(2047, exponent_rank(2047));
    assert_eq!(1 << 51, update_mantissa(0, 1));
    assert_eq!(1 << 51, update_mantissa(-1023, 1));
    assert_eq!(0b110, update_mantissa(50, 0b101));
    assert_eq!(0b101, update_mantissa(52, 0b101));
}

#[test]
fn float_order_by_value_and_class() {
    for pair in [(0.0, 5e-324), (0.5, 0.75), (1.0, 1.5), (1.5, f64::MAX), (f64::MAX, f64::INFINITY)] {
        assert!(bits(pair.0) < bits(pair.1));
    }
    for v in [0.1, 0.5, 1e-300, 5e-324, 1e17, f64::MAX] {
        assert!(lex(v) < lex(f64::INFINITY));
        assert!(lex(72057594037927928.0) < lex(v), "{}", v);
        assert!(key(v) < key(-v));
    }
}

#[test]
fn float_shrink_target_agrees_with_float_arithmetic() {
    let values = [
        f64::NEG_INFINITY,
        -10.0,
        -1.5,
        -5e-324,
        0.0,
        5e-324,
        1.5,
        10.0,
        f64::INFINITY,
        f64::NAN,
    ];
    for min in values {
        for max in values {
            let expected = min.max(0.0).min(max);
            assert_eq!(expected, target(min, max), "[{}, {}]", min, max);
        }
    }
    assert_eq!(0, float_shrink_target(bits(-0.0), bits(1.0)));
}

#[test]
fn zigzag_saturates_at_the_extremes() {
    assert_eq!(u128::MAX - 1, zigzag(u128::MAX, 0));
    assert_eq!(u128::MAX, zigzag(0, u128::MAX));
    assert_eq!(u128::MAX - 2, zigzag(u128::MAX / 2, 0));
    assert_eq!(u128::MAX - 1, zigzag(u128::MAX / 2 + 1, 0));
    assert_eq!(u128::MAX - 1, zigzag(0, u128::MAX / 2));
    assert_eq!(0, zigzag(u128::MAX, u128::MAX));
}

#[test]
fn tape_int_wraps_what_is_out_of_range() {
    assert_eq!(1u8, u8::decode(257));
    assert_eq!(0xFFFFu16, u16::decode(u128::MAX));
    assert_eq!(-126i8, i8::decode(i8::encode_zero() + 130));
    assert_eq!(i32::MIN, i32::decode(i32::encode_zero() + (1 << 31)));
    assert_eq!(-1i64, i64::decode(i64::encode_zero() + u128::from(u64::MAX)));
    assert_eq!(0, i16::decode(0));
    assert_eq!(5u128, u128::encode(5));
    assert_eq!(1 << 127, i128::encode(0));
    check(&[0u16, 1, u16::MAX]);
    check(&[0u32, 1, u32::MAX]);
    check(&[0u64, 1, u64::MAX]);
    check(&[0usize, 1, usize::MAX]);
    check(&[i16::MIN, -1, 0, i16::MAX]);
    check(&[i32::MIN, -1, 0, i32::MAX]);
    check(&[isize::MIN, -1, 0, isize::MAX]);
}

fn float(value: f64) -> Choice {
    Choice::Float { value: bits(value), min: bits(-1.0), max: bits(1.0), allow_nan: true }
}

#[test]
fn choices_compare_as_numbers() {
    assert_eq!(float(0.0), float(-0.0));
    assert_ne!(float(f64::NAN), float(f64::NAN));
    assert_ne!(Choice::RawU32 { value: 0 }, Choice::RawU64 { value: 0 });
    assert_eq!(Choice::RawBytes { value: vec![1] }, Choice::RawBytes { value: vec![1] });
    assert_ne!(Choice::RawBytes { value: vec![1] }, Choice::RawBytes { value: vec![2] });
    assert_eq!(float(0.5), float(0.5).clone());
}

#[test]
fn complexity_of_choices() {
    let blob = |value: Vec<u8>| Choice::RawBytes { value };
    let largest = Choice::Integer { value: 0, min: 0, max: u128::MAX, shrink_to: u128::MAX };
    assert_eq!(Some(u128::MAX), largest.scalar_key());
    assert_eq!(Some(1), Choice::Bool { value: true }.scalar_key());
    assert_eq!(Some(0), Choice::Bool { value: false }.scalar_key());
    assert_eq!(Some(7), Choice::RawU64 { value: 7 }.scalar_key());
    assert_eq!(None, blob(vec![]).scalar_key());
    // Numbers of different kinds compare by their keys.
    assert_eq!(Ordering::Equal, Choice::RawU32 { value: 1 }.cmp_complexity(&Choice::Bool { value: true }));
    // Everything else comes before bytes; bytes compare by length first.
    assert_eq!(Ordering::Less, largest.cmp_complexity(&blob(vec![])));
    assert_eq!(Ordering::Greater, blob(vec![]).cmp_complexity(&largest));
    assert_eq!(Ordering::Less, blob(vec![9]).cmp_complexity(&blob(vec![0, 0])));
    assert_eq!(Ordering::Less, blob(vec![1, 2]).cmp_complexity(&blob(vec![1, 3])));
    assert_eq!(Ordering::Greater, blob(vec![2, 0]).cmp_complexity(&blob(vec![1, 3])));
    assert_eq!(Ordering::Equal, blob(vec![2]).cmp_complexity(&blob(vec![2])));
}

#[test]
fn trivial_choices() {
    assert_eq!(Choice::RawBytes { value: vec![0, 0] }, Choice::RawBytes { value: vec![3, 4] }.trivial());
    assert_eq!(Choice::Bool { value: false }, Choice::Bool { value: true }.trivial());
    assert_eq!(Choice::RawU32 { value: 0 }, Choice::RawU32 { value: 9 }.trivial());
    assert_eq!(Choice::RawU64 { value: 0 }, Choice::RawU64 { value: 9 }.trivial());
    assert_eq!(float(0.0), float(0.75).trivial());
    // The target is the simplest value of its range, whatever it is elsewhere.
    let within = |value: f64| Choice::Float {
        value: bits(value),
        min: bits(1.5),
        max: bits(10.0),
        allow_nan: false,
    };
    assert_eq!(within(1.5), within(2.0).trivial());
    assert_eq!(Some(0), within(1.5).scalar_key());
    assert_eq!(Some(2), within(2.0).scalar_key());
    assert_eq!(Some(key(2.5)), within(2.5).scalar_key());
    assert_eq!(Ordering::Less, within(2.0).trivial().cmp_complexity(&within(2.0)));
    assert_eq!(Ordering::Less, within(2.0).cmp_complexity(&within(3.0)));
    assert_eq!(Ordering::Less, within(3.0).cmp_complexity(&within(2.5)));
    // Any other value keeps its own key, outside of the range too.
    assert_eq!(Some(key(0.0)), within(0.0).scalar_key());
    assert_eq!(Some(key(0.5)), within(0.5).scalar_key());
    assert_eq!(Some(0), float(0.0).scalar_key());
    assert_eq!(Some(1 << 64), float(-0.0).scalar_key());
    assert_eq!(Some(3), float(3.0).scalar_key());
}

fn streamed() -> Tape {
    Tape {
        choices: vec![Choice::RawU32 { value: 1 }, Choice::RawU32 { value: 2 }, Choice::RawU32 { value: 3 }],
        spans: vec![Span { start: 0, end: 2 }],
        streams: vec![
            (vec![KeyElt::Split(0)], vec![Choice::RawU32 { value: 4 }]),
            (vec![KeyElt::Split(1)], vec![Choice::RawU32 { value: 5 }, Choice::RawU32 { value: 6 }]),
        ],
    }
}

#[test]
fn edits_of_tapes() {
    let tape = streamed();
    assert_eq!(6, tape.total_len());
    assert_eq!(6, tape.trivial().total_len());

    let edited = tape.with_choice(1, Choice::RawU32 { value: 0 });
    assert_eq!(Choice::RawU32 { value: 0 }, edited.choices[1]);
    assert!(edited.spans.is_empty());
    assert_eq!(tape.streams, edited.streams);
    assert_eq!(Ordering::Less, edited.cmp_key(&tape));
    assert_eq!(Ordering::Greater, tape.cmp_key(&edited));

    let deleted = tape.with_span_deleted(tape.spans[0]);
    assert_eq!(vec![Choice::RawU32 { value: 3 }], deleted.choices);
    assert_eq!(Ordering::Less, deleted.cmp_key(&tape));

    let edited = tape.with_stream_choice(1, 0, Choice::RawU32 { value: 9 });
    assert_eq!(vec![Choice::RawU32 { value: 9 }, Choice::RawU32 { value: 6 }], edited.streams[1].1);
    assert_eq!(tape.streams[0], edited.streams[0]);
    assert_eq!(Ordering::Greater, edited.cmp_key(&tape));
    let edited = tape.with_stream_choice(1, 1, Choice::RawU32 { value: 0 });
    assert_eq!(Ordering::Less, edited.cmp_key(&tape));

    let deleted = tape.with_stream_deleted(0);
    assert_eq!(vec![tape.streams[1].clone()], deleted.streams);
    assert_eq!(Ordering::Less, deleted.cmp_key(&tape));
    assert_eq!(Ordering::Equal, tape.cmp_key(&tape.clone()));
}

#[test]
fn an_empty_stream_still_counts() {
    let mut tape = tape_of(vec![Choice::Bool { value: true }]);
    tape.streams = vec![(vec![KeyElt::Split(0)], Vec::new())];
    assert_eq!(Ordering::Less, tape.with_stream_deleted(0).cmp_key(&tape));
}

#[test]
fn streams_compare_by_key_then_choices() {
    let with = |key: KeyElt, value: u32| Tape {
        choices: Vec::new(),
        spans: Vec::new(),
        streams: vec![(vec![key], vec![Choice::RawU32 { value }])],
    };
    let first = with(KeyElt::Split(0), 9);
    assert_eq!(Ordering::Less, first.cmp_key(&with(KeyElt::Split(1), 0)));
    assert_eq!(Ordering::Less, with(KeyElt::Split(u32::MAX), 9).cmp_key(&with(KeyElt::Salt(0), 0)));
    assert_eq!(Ordering::Greater, first.cmp_key(&with(KeyElt::Split(0), 8)));
    // The main stream decides before the streams do.
    let mut a = with(KeyElt::Split(0), 9);
    a.choices = vec![Choice::RawU32 { value: 1 }];
    let mut b = with(KeyElt::Split(0), 0);
    b.choices = vec![Choice::RawU32 { value: 2 }];
    assert_eq!(Ordering::Less, a.cmp_key(&b));
    // A shorter main stream is simpler only where the totals tie.
    let mut c = with(KeyElt::Split(0), 9);
    c.streams[0].1.push(Choice::RawU32 { value: 9 });
    assert_eq!(Ordering::Less, c.cmp_key(&a));
}

#[test]
fn persisted_bytes_are_exact() {
    let tape = Tape {
        choices: vec![Choice::RawU64 { value: 0x0102_0304_0506_0708 }],
        spans: vec![Span { start: 0, end: 1 }],
        streams: vec![(
            vec![KeyElt::Split(3), KeyElt::Salt(4)],
            vec![Choice::RawBytes { value: vec![0xAA] }, Choice::Bool { value: true }],
        )],
    };
    let bytes = serialize_tape(&tape);
    let expected = [
        vec![6, 1, 0, 0, 0, 4, 8, 7, 6, 5, 4, 3, 2, 1],
        vec![1, 0, 0, 0, 2, 0, 0, 0, 0, 3, 0, 0, 0, 1, 4, 0, 0, 0, 0, 0, 0, 0],
        vec![2, 0, 0, 0, 5, 1, 0, 0, 0, 0xAA, 2, 1],
    ]
    .concat();
    assert_eq!(expected, bytes);
    let read = deserialize_tape(&bytes).unwrap();
    assert!(read.spans.is_empty());
    assert_eq!(tape.streams, read.streams);
    // Every cut but the one to nothing is rejected, and so is anything more.
    for n in 1..bytes.len() {
        assert_eq!(None, deserialize_tape(&bytes[..n]));
    }
    assert_eq!(None, deserialize_tape(&[&bytes[..], &[0]].concat()));
    assert_eq!(Some(Tape::default()), deserialize_tape(&[]));
}

#[test]
fn persisted_numbers_are_little_endian() {
    let tape = tape_of(vec![
        Choice::Integer { value: 1, min: 2, max: 3, shrink_to: 4 << 120 },
        Choice::Float { value: bits(1.0), min: 0, max: u64::MAX, allow_nan: false },
    ]);
    let bytes = serialize_tape(&tape);
    assert_eq!(65 + 26, bytes.len());
    assert_eq!((0, 1, 2, 3, 4), (bytes[0], bytes[1], bytes[17], bytes[33], bytes[64]));
    assert_eq!([1, 0, 0, 0, 0, 0, 0, 0xF0, 0x3F], bytes[65..74]);
    assert_eq!(0, bytes[90]);
    // The upper bound is NaN, which is no number: look at the bits.
    match &deserialize_tape(&bytes).unwrap().choices[1] {
        Choice::Float { value, max, .. } => assert_eq!((bits(1.0), u64::MAX), (*value, *max)),
        other => panic!("unexpected {:?}", other),
    }
}

#[test]
fn malformed_bytes_are_rejected() {
    // Cut records, and counts that promise more than there is.
    for n in [1, 16, 64] {
        assert_eq!(None, deserialize_tape(&vec![0; n]));
    }
    assert_eq!(None, deserialize_tape(&[1; 25]));
    assert_eq!(None, deserialize_tape(&[2]));
    assert_eq!(None, deserialize_tape(&[3, 0, 0, 0]));
    assert_eq!(None, deserialize_tape(&[4, 0, 0, 0, 0, 0, 0, 0]));
    assert_eq!(None, deserialize_tape(&[5, 2, 0, 0, 0, 9]));
    assert_eq!(None, deserialize_tape(&[5, 2, 0, 0]));
    assert_eq!(None, deserialize_tape(&[7]));
    // The tag of the sectioned form is no record.
    assert_eq!(None, deserialize_tape(&[2, 0, 6]));
    // A key element of neither kind.
    let key = [6, 0, 0, 0, 0, 1, 0, 0, 0, 1, 0, 0, 0, 2, 0, 0, 0, 0, 0, 0, 0, 0];
    assert_eq!(None, deserialize_tape(&key));
    assert_eq!(None, deserialize_tape(&[6, 255, 255, 255, 255]));
    // Any byte but 0 sets a flag, and a sectioned form may hold no section.
    assert_eq!(Some(tape_of(vec![Choice::Bool { value: true }])), deserialize_tape(&[2, 200]));
    assert_eq!(Some(Tape::default()), deserialize_tape(&[6, 0, 0, 0, 0, 0, 0, 0, 0]));
}

#[test]
fn persisted_tape_form_roundtrips_as_string() {
    let seed = PersistedTape {
        bytes: vec![0xab, 0xcd, 0x01],
    };
    let string = seed.to_text();
    assert!(string.starts_with("ct1 "), "got: {}", string);
    assert_eq!(Some(seed), PersistedTape::from_text(&string));
}

#[test]
fn persisted_text_is_read_strictly() {
    let seed = PersistedTape {
        bytes: vec![0xab, 0xcd, 0x01],
    };
    assert_eq!("ct1 abcd01", seed.to_text());
    assert_eq!(None, PersistedTape::from_text("ct1 abcd0"));
    assert_eq!(None, PersistedTape::from_text("ct1 abcg"));
    assert_eq!(None, PersistedTape::from_text("ct2 abcd01"));
    assert_eq!(None, PersistedTape::from_text("ct1"));
    assert_eq!(None, PersistedTape::from_text(""));
}

#[test]
fn persisted_tape_is_read_back_and_corrupt_one_is_not() {
    let tape = Tape {
        choices: vec![Choice::RawU32 { value: 7 }, Choice::Bool { value: true }],
        ..Tape::default()
    };
    let text = PersistedTape::of_tape(&tape).to_text();
    let read = PersistedTape::from_text(&text).unwrap();
    assert_eq!(Some(tape), read.tape());
    let corrupt = PersistedTape { bytes: vec![99] };
    assert_eq!(None, corrupt.tape());
}

#[test]
fn one_choice_reads_back_with_what_follows_it() {
    let choices = [
        Choice::Integer { value: 5, min: 1, max: 9, shrink_to: 2 },
        float(2.5),
        Choice::Bool { value: true },
        Choice::RawU32 { value: 7 },
        Choice::RawU64 { value: 8 },
        Choice::RawBytes { value: vec![1, 2, 3] },
    ];
    for c in choices {
        let mut out = Vec::new();
        serialize_choice(&c, &mut out);
        out.extend([4, 5]);
        let mut bytes = &out[..];
        assert_eq!(Some(c), deserialize_choice(&mut bytes));
        assert_eq!([4, 5], bytes);
        assert_eq!(None, deserialize_choice(&mut bytes));
    }
    let mut none: &[u8] = &[];
    assert_eq!(None, deserialize_choice(&mut none));
}

#[test]
fn mantissas_and_encodings_lose_nothing() {
    for e in [-1023, -1, 0, 1, 30, 51, 52, 1023] {
        for m in [0, 1, 0x8_0000_0000_0001, 0x1234_5678_9abc, (1 << 52) - 1] {
            assert_eq!(m, update_mantissa(e, update_mantissa(e, m)), "{} {}", e, m);
        }
    }
    let values = [0.0, 0.5, 1.0, 1.5, 2.0, 2.5, 0.1, 1e300, 5e-324, 72057594037927936.0, f64::INFINITY];
    for (i, a) in values.iter().enumerate() {
        for (j, b) in values.iter().enumerate() {
            assert_eq!(i == j, lex(*a) == lex(*b), "{} {}", a, b);
        }
    }
}
