use choice_tape::choice::Choice;
use choice_tape::func::{
    describe_function, function, Function, FunctionValueTree, RandomFn, Strategy, ValueTree,
};
use choice_tape::keys::KeyElt;
use choice_tape::observed::Observed;
use choice_tape::runner::{draw_raw_u64, Runner};
use choice_tape::salt::{derive_seed, salt_of, salt_of_bytes, splitmix64, Fnv1a};
use choice_tape::state::TapeState;
use choice_tape::tape::Tape;
use choice_tape::tape_int::TapeInt;
use rand::{RngExt, SeedableRng};
use rand_xorshift::XorShiftRng;
use std::hash::Hasher;

/// Integers in `[lo, hi)`, drawn as one typed choice.
#[derive(Debug)]
struct Range {
    lo: i32,
    hi: i32,
}

struct Drawn(i32);

impl ValueTree for Drawn {
    type Value = i32;

    fn current(&self) -> i32 {
        self.0
    }

    fn simplify(&mut self) -> bool {
        false
    }

    fn complicate(&mut self) -> bool {
        false
    }
}

impl Strategy for Range {
    type Value = i32;
    type Tree = Drawn;

    fn new_tree(&self, runner: &mut Runner) -> Result<Drawn, String> {
        if self.lo >= self.hi {
            return Err(String::from("empty range"));
        }
        runner.tape.suppress_raw();
        let raw = runner.random();
        runner.tape.unsuppress_raw();
        let fresh = self.lo + (raw % (self.hi - self.lo) as u64) as i32;
        let min = i32::encode(self.lo);
        let max = i32::encode(self.hi - 1);
        let value = match runner
            .tape
            .pop_replay(|c: &Choice| matches!(c, Choice::Integer { .. }))
        {
            Some(Choice::Integer { value, .. }) => value.max(min).min(max),
            _ => i32::encode(fresh),
        };
        runner.tape.record(Choice::Integer {
            value,
            min,
            max,
            shrink_to: i32::encode(0).max(min).min(max),
        });
        Ok(Drawn(i32::decode(value)))
    }
}

fn seeded(n: u8) -> Runner {
    Runner::from_seed([n; 16], TapeState::default())
}

fn thousand() -> Function<u32, Range> {
    function::<u32, _>(Range { lo: 0, hi: 1000 })
}

#[test]
fn deterministic_and_pure_without_tape() {
    let mut runner = seeded(1);
    let f = thousand().new_tree(&mut runner).unwrap().current();
    let tape = &mut runner.tape;
    let table = &mut Observed::new();
    let a = f.call(&7, tape, table).unwrap();
    assert_eq!(a, f.call(&7, tape, table).unwrap(), "same argument, same result");
    let distinct: Vec<i32> = (0..16u32).map(|i| f.call(&i, tape, table).unwrap()).collect();
    assert!(distinct.iter().any(|v| *v != distinct[0]));
}

#[test]
fn classic_engine_generates_but_does_not_shrink() {
    for case in 0..50u8 {
        let mut runner = seeded(case);
        let mut tree = thousand().new_tree(&mut runner).unwrap();
        let f = tree.current();
        let tape = &mut runner.tape;
        let table = &mut Observed::new();
        let _ = f.call(&0, tape, table).unwrap();
        assert!(f.call(&1, tape, table).unwrap() == f.call(&1, tape, table).unwrap());
        assert!(!tree.simplify());
        assert!(!tree.complicate());
    }
}

#[test]
fn hash_of_known_texts() {
    assert_eq!(0xcbf2_9ce4_8422_2325, salt_of_bytes(b""));
    assert_eq!(0xaf63_dc4c_8601_ec8c, salt_of_bytes(b"a"));
    assert_eq!(0x8594_4171_f739_67e8, salt_of_bytes(b"foobar"));
    let mut pieces = Fnv1a(0xcbf2_9ce4_8422_2325);
    pieces.write(b"foo");
    pieces.write(b"bar");
    assert_eq!(0x8594_4171_f739_67e8, pieces.finish());
}

#[test]
fn salt_is_the_hash_of_what_the_argument_writes() {
    assert_eq!(salt_of_bytes(&7u32.to_ne_bytes()), salt_of(&7u32));
    assert_eq!(salt_of_bytes(&[]), salt_of(&()));
    assert_eq!(salt_of_bytes(&[1, 2, 3]), salt_of(&(1u8, (2u8, 3u8))));
    assert_ne!(salt_of(&7u32), salt_of(&8u32));
}

#[test]
fn splitmix_of_known_states() {
    assert_eq!(0xe220_a839_7b1d_cdaf, splitmix64(0));
    assert_eq!(0x6e78_9e6a_a1b9_65f4, splitmix64(0x9e37_79b9_7f4a_7c15));
}

#[test]
fn call_seeds_are_two_rounds_of_splitmix() {
    let derived = splitmix64(5 ^ 9);
    let seed = derive_seed(5, 9);
    assert_eq!(derived.to_le_bytes(), seed[..8]);
    assert_eq!(splitmix64(derived).to_le_bytes(), seed[8..]);
    assert_ne!(seed, derive_seed(5, 8));
}

#[test]
fn fresh_draws_are_decided_by_the_seed() {
    let mut a = seeded(3);
    let mut b = seeded(3);
    let drawn: Vec<u64> = (0..4).map(|_| a.random()).collect();
    assert_eq!(drawn, (0..4).map(|_| b.random()).collect::<Vec<u64>>());
    assert!((1..4).all(|i| drawn[i] != drawn[0]));
    assert_ne!(drawn[0], seeded(4).random());
    assert_ne!(drawn[0], u64::from_le_bytes([3; 8]));
}

#[test]
fn fresh_draws_are_those_of_one_generator() {
    for seed in [[0; 16], [7; 16], *b"0123456789abcdef", derive_seed(5, 9)] {
        let mut runner = Runner::from_seed(seed, TapeState::default());
        let mut generator = XorShiftRng::from_seed(seed);
        for _ in 0..20 {
            assert_eq!(generator.random::<u64>(), runner.random());
        }
    }
    // Words 1, 0, 0, 0: the first draw shifts out the 1.
    let mut one = [0; 16];
    one[0] = 1;
    let mut runner = Runner::from_seed(one, TapeState::default());
    assert_eq!(0x0000_0809_0000_0809, runner.random());
}

#[test]
fn raw_draws_go_through_the_tape() {
    let mut tape = TapeState::default();
    assert_eq!(5, draw_raw_u64(&mut tape, 5));
    tape.start_recording();
    assert_eq!(6, draw_raw_u64(&mut tape, 6));
    tape.suppress_raw();
    assert_eq!(7, draw_raw_u64(&mut tape, 7));
    tape.unsuppress_raw();
    let recording = tape.take_recording();
    assert_eq!(vec![Choice::RawU64 { value: 6 }], recording.choices);
    tape.start_replay(recording);
    assert_eq!(6, draw_raw_u64(&mut tape, 1));
    assert_eq!(2, draw_raw_u64(&mut tape, 2));
    assert!(tape.overrun_now());
}

/// Generates a function on a recording tape.
fn recorded(n: u8) -> (RandomFn<u32, Range>, TapeState) {
    let mut runner = seeded(n);
    runner.tape.start_recording();
    let tree: FunctionValueTree<u32, Range> = thousand().new_tree(&mut runner).unwrap();
    (tree.current(), runner.tape)
}

#[test]
fn calls_are_recorded_as_streams() {
    let (f, mut tape) = recorded(1);
    let table = &mut Observed::new();
    let seven = f.call(&7, &mut tape, table).unwrap();
    let eight = f.call(&8, &mut tape, table).unwrap();
    assert_eq!(seven, f.call(&7, &mut tape, table).unwrap());
    let recording = tape.take_recording();
    // The captured seed is the one choice of the main stream.
    assert_eq!(1, recording.choices.len());
    assert!(matches!(recording.choices[0], Choice::RawU64 { .. }));
    assert_eq!(2, recording.streams.len());
    for (arg, value) in [(7u32, seven), (8, eight)] {
        let key = vec![KeyElt::Split(0), KeyElt::Salt(salt_of(&arg))];
        let stream = recording.streams.iter().find(|s| s.0 == key).unwrap();
        assert_eq!(1, stream.1.len());
        match stream.1[0] {
            Choice::Integer { value: v, .. } => assert_eq!(value, i32::decode(v)),
            ref other => panic!("unexpected {:?}", other),
        }
    }
}

/// Replays a tape of one function, and calls it.
fn replayed(tape: Tape, args: &[u32]) -> (Vec<i32>, Tape) {
    let mut runner = seeded(99);
    runner.tape.start_replay(tape);
    let f = thousand().new_tree(&mut runner).unwrap().current();
    let table = &mut Observed::new();
    let results = args.iter().map(|a| f.call(a, &mut runner.tape, table).unwrap()).collect();
    let (output, overrun) = runner.tape.finish_replay();
    assert!(!overrun);
    (results, output)
}

#[test]
fn replayed_functions_keep_their_behaviour() {
    let (f, mut tape) = recorded(1);
    let table = &mut Observed::new();
    let expected: Vec<i32> =
        [7, 8, 7].iter().map(|a| f.call(a, &mut tape, table).unwrap()).collect();
    let recording = tape.take_recording();
    let (results, output) = replayed(recording.clone(), &[7, 8, 7]);
    assert_eq!(expected, results);
    assert_eq!(recording, output);

    // Editing a stream edits what the function returns for that argument.
    let salt = KeyElt::Salt(salt_of(&7u32));
    let at = recording.streams.iter().position(|s| s.0[1] == salt).unwrap();
    let edited = recording.with_stream_choice(
        at,
        0,
        Choice::Integer { value: i32::encode(100), min: 0, max: 0, shrink_to: 0 },
    );
    let (results, _) = replayed(edited.clone(), &[7, 8, 7]);
    assert_eq!(vec![100, expected[1], 100], results);

    // A value that an edit took out of the range is taken back into it, each
    // time the function is called.
    let outside = recording.with_stream_choice(
        at,
        0,
        Choice::Integer { value: i32::encode(5000), min: 0, max: 0, shrink_to: 0 },
    );
    let (results, output) = replayed(outside, &[7, 8, 7, 9, 7]);
    assert_eq!((999, 999, 999), (results[0], results[2], results[4]));
    assert_eq!(expected[1], results[1]);
    match output.streams.iter().find(|s| s.0[1] == salt).unwrap().1[..] {
        [Choice::Integer { value, .. }] => assert_eq!(999, i32::decode(value)),
        ref other => panic!("unexpected {:?}", other),
    }

    // A call with a new argument takes over the stream of one that is gone.
    let (results, output) = replayed(edited.with_stream_deleted(1 - at), &[9]);
    assert_eq!(vec![100], results);
    assert_eq!(vec![KeyElt::Split(0), KeyElt::Salt(salt_of(&9u32))], output.streams[0].0);

    // Without any stream, calls draw fresh, decided by the captured seed.
    let bare = recording.with_stream_deleted(0).with_stream_deleted(0);
    let (results, _) = replayed(bare, &[7, 8, 7]);
    assert_eq!(expected, results);
}

#[test]
fn failing_output_is_reported() {
    let mut runner = seeded(1);
    runner.tape.start_recording();
    let strategy = function::<u32, _>(Range { lo: 5, hi: 5 });
    let f = strategy.new_tree(&mut runner).unwrap().current();
    let mut table = Observed::new();
    let result = f.call(&7, &mut runner.tape, &mut table);
    assert_eq!(Err(String::from("empty range")), result);
    assert_eq!("RandomFn { _ => <fresh> }", f.debug_text(&table));
    // The call's stream was left again.
    runner.tape.record(Choice::Bool { value: true });
    let recording = runner.tape.take_recording();
    assert_eq!(2, recording.choices.len());
    assert!(recording.streams.is_empty());
}

#[test]
fn debug_texts() {
    let mut observed = Observed::new();
    assert_eq!("RandomFn { _ => <fresh> }", observed.text());
    observed.insert(String::from("9"), String::from("a"));
    observed.insert(String::from("10"), String::from("b"));
    observed.insert(String::from("9"), String::from("c"));
    observed.insert(String::from("é"), String::from("d"));
    observed.insert(String::from(""), String::from("e"));
    assert_eq!(
        "RandomFn {  => e, 10 => b, 9 => c, é => d, _ => <fresh> }",
        observed.clone().text()
    );
    assert_eq!("Function { output: Range { lo: 0, hi: 1000 } }", thousand().debug_text());
    assert_eq!("Function { output: x }", describe_function("x"));

    // A function and its clones note their calls in the table they share.
    let (f, mut tape) = recorded(1);
    let mut table = Observed::new();
    let seven = f.call(&7, &mut tape, &mut table).unwrap();
    let g = f.clone();
    assert_eq!(format!("RandomFn {{ 7 => {}, _ => <fresh> }}", seven), g.debug_text(&table));
    assert_eq!(seven, g.call(&7, &mut tape, &mut table).unwrap());
    let eight = g.call(&8, &mut tape, &mut table).unwrap();
    assert_eq!(
        format!("RandomFn {{ 7 => {}, 8 => {}, _ => <fresh> }}", seven, eight),
        f.debug_text(&table)
    );
}

#[test]
fn calls_are_pure_whatever_comes_in_between() {
    let (f, mut tape) = recorded(1);
    let table = &mut Observed::new();
    let before: Vec<i32> = (0..8u32).map(|i| f.call(&i, &mut tape, table).unwrap()).collect();
    tape.record(Choice::Bool { value: true });
    let _ = draw_raw_u64(&mut tape, 3);
    let g = f.clone();
    for i in (0..8u32).rev() {
        assert_eq!(before[i as usize], g.call(&i, &mut tape, table).unwrap());
    }
    // On an edited tape too, and where a call took over another's stream.
    let mut recording = tape.take_recording();
    recording = recording.with_stream_deleted(0);
    let args: Vec<u32> = (0..8).chain(100..108).chain((0..8).rev()).chain(100..108).collect();
    let (results, _) = replayed(recording, &args);
    for (i, a) in args.iter().enumerate() {
        let first = args.iter().position(|b| a == b).unwrap();
        assert_eq!(results[first], results[i], "argument {}", a);
    }
}

#[test]
fn functions_do_not_shrink_as_trees() {
    let mut runner = seeded(2);
    let mut tree = thousand().new_tree(&mut runner).unwrap();
    assert!(!tree.simplify());
    assert!(!tree.complicate());
    let a = tree.current().call(&1, &mut runner.tape, &mut Observed::new()).unwrap();
    let b = tree.current().call_salted(salt_of(&1u32), &mut runner.tape).unwrap();
    assert_eq!(a, b);
}
