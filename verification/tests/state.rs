use choice_tape::choice::Choice;
use choice_tape::keys::{KeyElt, StreamKey};
use choice_tape::state::TapeState;
use choice_tape::tape::{Span, Tape};
use choice_tape::wire::{deserialize_tape, serialize_tape};

fn raw(value: u32) -> Choice {
    Choice::RawU32 { value }
}

fn is_raw(c: &Choice) -> bool {
    matches!(c, Choice::RawU32 { .. })
}

fn main_only(choices: Vec<Choice>) -> Tape {
    Tape { choices, spans: Vec::new(), streams: Vec::new() }
}

fn salted(n: u32, salt: u64) -> StreamKey {
    vec![KeyElt::Split(n), KeyElt::Salt(salt)]
}

/// Draws as generation does: what replay answers, and otherwise `fresh`.
fn draw(state: &mut TapeState, fresh: u32) -> u32 {
    let value = match state.pop_replay(is_raw) {
        Some(Choice::RawU32 { value }) => value,
        _ => fresh,
    };
    state.record(raw(value));
    value
}

/// A run with spans, splits and calls; returns what it drew.
fn script(state: &mut TapeState, fresh: u32) -> Vec<u32> {
    let mut drawn = Vec::new();
    state.start_span();
    drawn.push(draw(state, fresh));
    drawn.push(draw(state, fresh + 1));
    state.end_span();
    let function = state.alloc_split();
    state.record_forced_bool(true);
    for salt in [9, 4, 9] {
        let mut key = function.clone();
        key.push(KeyElt::Salt(salt));
        let prev = state.enter_stream(key);
        drawn.push(draw(state, fresh + salt as u32));
        drawn.push(draw(state, fresh + 2 * salt as u32));
        state.exit_stream(prev);
    }
    drawn.push(u32::from(state.draw_bool_forced(true)));
    drawn
}

#[test]
fn replaying_a_recording_reproduces_it() {
    let mut state = TapeState::default();
    state.start_recording();
    let drawn = script(&mut state, 100);
    let tape = state.take_recording();
    assert_eq!(4, tape.choices.len());
    assert_eq!(vec![Span { start: 0, end: 2 }], tape.spans);
    // Two calls with the same argument wrote one stream; streams are sorted.
    assert_eq!(
        vec![
            (salted(0, 4), vec![raw(104), raw(108)]),
            (salted(0, 9), vec![raw(109), raw(118)]),
        ],
        tape.streams
    );

    let mut replay = TapeState::default();
    replay.start_replay(tape.clone());
    assert_eq!(drawn, script(&mut replay, 7000));
    assert!(!replay.overrun_now());
    let (again, overrun) = replay.finish_replay();
    assert!(!overrun);
    assert_eq!(tape, again);

    // So does replaying what was persisted, which has no spans.
    let persisted = deserialize_tape(&serialize_tape(&tape)).unwrap();
    assert!(persisted.spans.is_empty());
    let mut replay = TapeState::default();
    replay.start_replay(persisted);
    assert_eq!(drawn, script(&mut replay, 7000));
    assert_eq!((tape, false), replay.finish_replay());
}

#[test]
fn off_records_nothing() {
    let mut state = TapeState::default();
    assert!(!state.is_on());
    assert!(!state.is_replaying());
    state.start_span();
    state.record(raw(1));
    state.record_forced_bool(true);
    assert!(state.draw_bool_forced(true));
    assert!(!state.draw_bool_forced(false));
    state.end_span();
    assert_eq!(None, state.pop_replay(is_raw));
    assert_eq!(Tape::default(), state.take_recording());
    assert_eq!((Tape::default(), false), state.finish_replay());
}

#[test]
fn taking_the_other_kind_of_tape_gives_nothing() {
    let mut state = TapeState::default();
    state.start_recording();
    state.record(raw(1));
    assert_eq!((Tape::default(), false), state.finish_replay());
    state.start_replay(main_only(vec![raw(1)]));
    assert!(state.is_on());
    assert!(state.is_replaying());
    state.record(raw(1));
    assert_eq!(Tape::default(), state.take_recording());
    assert!(!state.is_on());
}

#[test]
fn an_unknown_stream_draws_fresh_without_overrun() {
    let mut state = TapeState::default();
    state.start_replay(main_only(vec![raw(1)]));
    let prev = state.enter_stream(salted(0, 1));
    assert_eq!(None, state.pop_replay(is_raw));
    assert!(!state.overrun_now());
    state.record(raw(5));
    state.exit_stream(prev);
    assert_eq!(Some(raw(1)), state.pop_replay(is_raw));
    assert_eq!(None, state.pop_replay(is_raw));
    assert!(state.overrun_now());
    let (tape, overrun) = state.finish_replay();
    assert!(overrun);
    assert_eq!(vec![(salted(0, 1), vec![raw(5)])], tape.streams);
}

#[test]
fn entering_rewinds_and_divergence_overwrites() {
    let mut state = TapeState::default();
    state.start_recording();
    for values in [[1, 2, 3], [1, 9, 9]] {
        let prev = state.enter_stream(salted(0, 1));
        for v in &values[..2] {
            state.record(raw(*v));
        }
        if values[1] == 2 {
            state.record(raw(values[2]));
        }
        state.exit_stream(prev);
    }
    // The second call agreed on the first choice, and replaced the rest.
    let tape = state.take_recording();
    assert_eq!(vec![(salted(0, 1), vec![raw(1), raw(9)])], tape.streams);
}

#[test]
fn nan_is_recorded_over() {
    let nan = || Choice::Float {
        value: f64::NAN.to_bits(),
        min: 0,
        max: 0,
        allow_nan: true,
    };
    let mut state = TapeState::default();
    state.start_recording();
    for _ in 0..2 {
        let prev = state.enter_stream(salted(0, 1));
        state.record(nan());
        state.exit_stream(prev);
    }
    let tape = state.take_recording();
    assert_eq!(1, tape.streams[0].1.len());
    assert!(matches!(tape.streams[0].1[0], Choice::Float { .. }));
}

#[test]
fn calls_are_pure_on_edited_tapes() {
    let mut state = TapeState::default();
    state.start_replay(Tape {
        choices: Vec::new(),
        spans: Vec::new(),
        streams: vec![(salted(0, 1), vec![raw(42), Choice::Bool { value: true }])],
    });
    let mut results = Vec::new();
    for _ in 0..2 {
        let prev = state.enter_stream(salted(0, 1));
        // The second draw finds another kind, and goes fresh.
        results.push((draw(&mut state, 7), draw(&mut state, 8)));
        state.exit_stream(prev);
    }
    assert_eq!(vec![(42, 8), (42, 8)], results);
}

#[test]
fn orphans_are_adopted_in_key_order_and_once() {
    let mut state = TapeState::default();
    state.start_replay(Tape {
        choices: Vec::new(),
        spans: Vec::new(),
        streams: vec![
            (vec![KeyElt::Split(0)], vec![raw(9)]),
            (salted(0, 30), vec![raw(30)]),
            (salted(0, 20), vec![raw(20)]),
            (salted(1, 10), vec![raw(10)]),
        ],
    });
    let enter = |state: &mut TapeState, key: StreamKey| {
        let prev = state.enter_stream(key);
        assert!(prev.is_empty());
        let drawn = draw(state, 1);
        state.exit_stream(prev);
        drawn
    };
    // New arguments of function 0 take over its orphans, lowest salt first.
    assert_eq!(20, enter(&mut state, salted(0, 55)));
    assert_eq!(30, enter(&mut state, salted(0, 44)));
    // None is left for a third one, which draws fresh.
    assert_eq!(1, enter(&mut state, salted(0, 33)));
    // An adopted stream keeps what it took over.
    assert_eq!(20, enter(&mut state, salted(0, 55)));
    // A donor can still be called itself.
    assert_eq!(30, enter(&mut state, salted(0, 30)));
    // A function's own stream is no call, and adopts nothing.
    assert_eq!(1, enter(&mut state, vec![KeyElt::Split(1)]));
    assert!(!state.overrun_now());
}

#[test]
fn an_entered_stream_is_no_donor() {
    let mut state = TapeState::default();
    state.start_replay(Tape {
        choices: Vec::new(),
        spans: Vec::new(),
        streams: vec![(salted(0, 1), vec![raw(1)])],
    });
    let prev = state.enter_stream(salted(0, 1));
    state.exit_stream(prev);
    let prev = state.enter_stream(salted(0, 2));
    assert_eq!(None, state.pop_replay(is_raw));
    state.exit_stream(prev);
    assert!(!state.overrun_now());
}

#[test]
fn recording_adopts_nothing() {
    let mut state = TapeState::default();
    state.start_recording();
    let prev = state.enter_stream(salted(0, 1));
    assert_eq!(3, draw(&mut state, 3));
    state.exit_stream(prev);
    let prev = state.enter_stream(salted(0, 2));
    assert_eq!(4, draw(&mut state, 4));
    state.exit_stream(prev);
    assert_eq!(2, state.take_recording().streams.len());
}

#[test]
fn splits_are_numbered_per_parent() {
    let mut state = TapeState::default();
    state.start_recording();
    assert_eq!(vec![KeyElt::Split(0)], state.alloc_split());
    assert_eq!(vec![KeyElt::Split(1)], state.alloc_split());
    let prev = state.enter_stream(vec![KeyElt::Split(1)]);
    assert_eq!(vec![KeyElt::Split(1), KeyElt::Split(0)], state.alloc_split());
    state.exit_stream(prev);
    assert_eq!(Some(vec![KeyElt::Split(2)]), state.try_split());
    // A new run starts over.
    state.start_recording();
    assert_eq!(vec![KeyElt::Split(0)], state.alloc_split());
}

#[test]
fn spans_nest_and_empty_ones_are_dropped() {
    let mut state = TapeState::default();
    state.start_recording();
    state.start_span();
    state.record(raw(1));
    state.start_span();
    state.end_span();
    state.start_span();
    state.record(raw(2));
    state.end_span();
    state.end_span();
    state.end_span();
    // Off the main stream spans do not apply.
    let prev = state.enter_stream(vec![KeyElt::Split(0)]);
    state.start_span();
    state.record(raw(3));
    state.end_span();
    state.start_span();
    state.exit_stream(prev);
    state.record(raw(4));
    state.end_span();
    let tape = state.take_recording();
    assert_eq!(
        vec![Span { start: 1, end: 2 }, Span { start: 0, end: 2 }],
        tape.spans
    );
    for span in &tape.spans {
        assert!(tape.with_span_deleted(*span).choices.len() < tape.choices.len());
    }
}

#[test]
fn forced_booleans() {
    let input = || {
        main_only(vec![
            Choice::Bool { value: false },
            Choice::Bool { value: false },
            raw(1),
        ])
    };
    // A recorded value is consumed unread; the end of the input is no overrun.
    let mut state = TapeState::default();
    state.start_replay(input());
    for _ in 0..3 {
        state.record_forced_bool(true);
    }
    assert_eq!(Some(raw(1)), state.pop_replay(is_raw));
    state.record_forced_bool(true);
    let (tape, overrun) = state.finish_replay();
    assert!(!overrun);
    assert_eq!(vec![Choice::Bool { value: true }; 4], tape.choices);

    // A drawn value is honored; another kind and the end are not.
    let mut state = TapeState::default();
    state.start_replay(input());
    assert!(!state.draw_bool_forced(true));
    assert!(!state.draw_bool_forced(true));
    assert!(state.draw_bool_forced(true));
    assert!(!state.overrun_now());
    assert_eq!(Some(raw(1)), state.pop_replay(is_raw));
    assert!(state.draw_bool_forced(true));
    assert!(state.overrun_now());
    let (tape, _) = state.finish_replay();
    let values = [false, false, true, true];
    let expected: Vec<Choice> = values.iter().map(|&value| Choice::Bool { value }).collect();
    assert_eq!(expected, tape.choices);
}

#[test]
fn raw_draws_are_suppressed_across_runs() {
    let mut state = TapeState::default();
    assert!(!state.raw_active());
    state.start_recording();
    assert!(state.raw_active());
    state.suppress_raw();
    state.suppress_raw();
    state.unsuppress_raw();
    assert!(!state.raw_active());
    state.start_recording();
    assert!(!state.raw_active());
    state.unsuppress_raw();
    assert!(state.raw_active());
}

#[test]
fn untouched_streams_are_dropped() {
    let mut state = TapeState::default();
    state.start_replay(Tape {
        choices: vec![raw(1)],
        spans: vec![Span { start: 0, end: 1 }],
        streams: vec![(salted(0, 1), vec![raw(1)])],
    });
    let prev = state.enter_stream(salted(0, 1));
    state.exit_stream(prev);
    assert_eq!((Tape::default(), false), state.finish_replay());
}

#[test]
fn the_last_input_for_a_key_counts() {
    let mut state = TapeState::default();
    state.start_replay(Tape {
        choices: vec![raw(1)],
        spans: Vec::new(),
        streams: vec![
            (salted(0, 1), vec![raw(2)]),
            (salted(0, 1), vec![raw(3)]),
            (Vec::new(), vec![raw(4)]),
        ],
    });
    assert_eq!(Some(raw(4)), state.pop_replay(is_raw));
    let _ = state.enter_stream(salted(0, 1));
    assert_eq!(Some(raw(3)), state.pop_replay(is_raw));
}

#[test]
fn a_clone_goes_its_own_way() {
    let mut state = TapeState::default();
    state.start_recording();
    state.record(raw(1));
    let mut copy = state.clone();
    copy.record(raw(2));
    assert_eq!(vec![raw(1)], state.take_recording().choices);
    assert_eq!(vec![raw(1), raw(2)], copy.take_recording().choices);
}
