use choice_tape::base16::{from_base16, to_base16};
use choice_tape::choice::Choice;
use choice_tape::forkfile::{
    append, hex_of_tape, init_file, is_sentinel, parse_from, tape_of_hex, Fed, ForkLog, ParsedForkfile,
    Record, Status,
};
use choice_tape::tape::{Span, Tape};
use choice_tape::text::blank;

const SEED: &str = "xs 1 2 3 4 5 6 7 8 9 10 11 12 13 14 15 16";

fn tape(vals: &[u128]) -> Tape {
    Tape {
        choices: vals
            .iter()
            .map(|&v| Choice::Integer { value: v, min: 0, max: 1000, shrink_to: 0 })
            .collect(),
        spans: Vec::new(),
        streams: Vec::new(),
    }
}

fn write_all(records: &[Record]) -> String {
    let mut text = String::new();
    init_file(&mut text, SEED);
    for r in records {
        append(&mut text, r);
    }
    text
}

fn parse(text: &str) -> ParsedForkfile<String> {
    parse_from(text, |line: &str| line.strip_suffix('\n').map(String::from))
}

#[test]
fn roundtrips_a_completed_shrink() {
    let text = write_all(&[
        Record::Case(tape(&[5])),
        Record::Status(Status::Pass),
        Record::Case(tape(&[500, 500])),
        Record::Status(Status::Fail),
        Record::Attempt(tape(&[0, 500])),
        Record::Status(Status::Fail),
        Record::Best(tape(&[0, 100])),
        Record::Terminate,
    ]);
    match parse(&text) {
        ParsedForkfile::Terminated(st) => {
            assert_eq!(Some(tape(&[0, 100])), st.best);
            assert!(!st.best_from_crash);
            assert_eq!(2, st.cases_done);
            assert_eq!(3, st.statuses_recorded);
            assert_eq!(SEED, st.seed);
        }
        other => panic!("unexpected: {:?}", other),
    }
}

#[test]
fn dangling_attempt_is_a_crash_best() {
    // Child wrote an attempt, then died before its status.
    let text = write_all(&[
        Record::Case(tape(&[500, 500])),
        Record::Status(Status::Fail),
        Record::Best(tape(&[0, 300])),
        Record::Attempt(tape(&[0, 200])),
    ]);
    match parse(&text) {
        ParsedForkfile::InProgress(st) => {
            assert_eq!(Some(tape(&[0, 200])), st.best);
            assert!(st.best_from_crash);
        }
        other => panic!("unexpected: {:?}", other),
    }
}

#[test]
fn dangling_case_is_the_failing_input() {
    let text = write_all(&[
        Record::Case(tape(&[5])),
        Record::Status(Status::Pass),
        Record::Case(tape(&[999, 1])),
    ]);
    match parse(&text) {
        ParsedForkfile::InProgress(st) => {
            assert_eq!(Some(tape(&[999, 1])), st.best);
            assert!(st.best_from_crash);
            assert_eq!(1, st.cases_done);
        }
        other => panic!("unexpected: {:?}", other),
    }
}

#[test]
fn no_failure_yet() {
    let text = write_all(&[
        Record::Case(tape(&[5])),
        Record::Status(Status::Pass),
        Record::Case(tape(&[6])),
        Record::Status(Status::Reject),
    ]);
    match parse(&text) {
        ParsedForkfile::InProgress(st) => {
            assert_eq!(None, st.best);
            assert_eq!(2, st.cases_done);
        }
        other => panic!("unexpected: {:?}", other),
    }
}

#[test]
fn wrong_sentinel_is_corrupt() {
    let text = format!("proptest-forkfile\n{}\n", SEED);
    assert!(matches!(parse(&text), ParsedForkfile::Corrupt));
}

#[test]
fn bad_hex_is_corrupt() {
    let mut text = write_all(&[]);
    text.push_str("C zzzz\n");
    assert!(matches!(parse(&text), ParsedForkfile::Corrupt));
}

#[test]
fn written_lines_are_exact() {
    let mut text = String::new();
    init_file(&mut text, "seed");
    let bools = Tape {
        choices: vec![Choice::Bool { value: true }, Choice::RawU32 { value: 0xABCD }],
        spans: Vec::new(),
        streams: Vec::new(),
    };
    append(&mut text, &Record::Case(bools.clone()));
    append(&mut text, &Record::Status(Status::Pass));
    append(&mut text, &Record::Attempt(bools.clone()));
    append(&mut text, &Record::Status(Status::Fail));
    append(&mut text, &Record::Best(bools.clone()));
    append(&mut text, &Record::Status(Status::Reject));
    append(&mut text, &Record::Terminate);
    assert_eq!(
        "proptest-tape-forkfile\nseed\nC 020103cdab0000\n= +\nA 020103cdab0000\n= -\n\
         B 020103cdab0000\n= !\n.\n",
        text
    );
    assert_eq!("020103cdab0000", hex_of_tape(&bools));
}

#[test]
fn spans_are_not_logged() {
    let mut t = tape(&[1, 2]);
    t.spans = vec![Span { start: 0, end: 2 }];
    let text = write_all(&[Record::Best(t)]);
    match parse(&text) {
        ParsedForkfile::InProgress(st) => assert_eq!(Some(tape(&[1, 2])), st.best),
        other => panic!("unexpected: {:?}", other),
    }
}

#[test]
fn missing_seed_is_corrupt() {
    let text = write_all(&[]);
    assert!(matches!(parse_from(&text, |_: &str| None::<u8>), ParsedForkfile::Corrupt));
    match parse_from(&text, |line: &str| Some(line.len())) {
        ParsedForkfile::InProgress(st) => assert_eq!(SEED.len() + 1, st.seed),
        other => panic!("unexpected: {:?}", other),
    }
    // The reader gets what there is of the line, and nothing without a sentinel.
    let sentinel = &text[..text.find('\n').unwrap() + 1];
    assert!(matches!(parse(sentinel), ParsedForkfile::Corrupt));
    match parse_from(sentinel, |line: &str| Some(line.len())) {
        ParsedForkfile::InProgress(st) => assert_eq!(0, st.seed),
        other => panic!("unexpected: {:?}", other),
    }
    let never = |_: &str| -> Option<u8> { unreachable!() };
    assert!(matches!(parse_from("", never), ParsedForkfile::Corrupt));
}

#[test]
fn malformed_records_are_corrupt() {
    for bad in [
        // A status of nothing, and one that is not a status.
        "= +\n",
        "C \n= ?\n",
        "C \n=\n",
        "C \n= \n",
        // A second status for the same case.
        "C \n= +\n= +\n",
        // Unknown tags, and tags that do not stand alone.
        "X 00\n",
        "CC 00\n",
        " C\n",
        "..\n",
        // An odd number of digits, and no tape.
        "C 0\n",
        "A 63\n",
        "B 0g\n",
        // A carriage return belongs to the line.
        ".\r\n",
    ] {
        let text = format!("{}{}", write_all(&[]), bad);
        assert!(matches!(parse(&text), ParsedForkfile::Corrupt), "{:?}", bad);
    }
}

#[test]
fn tolerated_forms() {
    // Blanks around the sentinel, empty lines, digits of either case, text
    // after a status or after the end, and a last line without a line break.
    let text = format!(
        " proptest-tape-forkfile\r\n{}\n\nC 03CDAB0000\n\n= - why\nA\n= +\n. bye\nnot read",
        SEED
    );
    match parse(&text) {
        ParsedForkfile::Terminated(st) => {
            let best = st.best.unwrap();
            assert_eq!(vec![Choice::RawU32 { value: 0xABCD }], best.choices);
            assert_eq!(1, st.cases_done);
            assert_eq!(2, st.statuses_recorded);
        }
        other => panic!("unexpected: {:?}", other),
    }
    let text = format!("{}{}", write_all(&[]), ".");
    assert!(matches!(parse(&text), ParsedForkfile::Terminated(_)));
}

#[test]
fn a_later_failing_case_does_not_replace_the_best() {
    let text = write_all(&[
        Record::Case(tape(&[1])),
        Record::Status(Status::Fail),
        Record::Case(tape(&[2])),
        Record::Status(Status::Fail),
    ]);
    match parse(&text) {
        ParsedForkfile::InProgress(st) => {
            assert_eq!(Some(tape(&[1])), st.best);
            assert!(!st.best_from_crash);
            assert_eq!(2, st.cases_done);
        }
        other => panic!("unexpected: {:?}", other),
    }
}

#[test]
fn a_best_clears_a_crash() {
    let text = write_all(&[
        Record::Case(tape(&[1])),
        Record::Best(tape(&[2])),
        Record::Status(Status::Fail),
    ]);
    match parse(&text) {
        ParsedForkfile::InProgress(st) => {
            assert_eq!(Some(tape(&[2])), st.best);
            assert!(!st.best_from_crash);
        }
        other => panic!("unexpected: {:?}", other),
    }
}

#[test]
fn log_is_fed_line_by_line() {
    let mut log = ForkLog::new();
    assert_eq!(Fed::More, log.feed("\n"));
    assert_eq!(Fed::More, log.feed("C 0201\n"));
    assert_eq!(Fed::More, log.feed("= +"));
    assert_eq!(Fed::Corrupt, log.feed("= +\n"));
    assert_eq!(Fed::Stop, log.feed(".\n"));
    assert!(is_sentinel("\u{3000}proptest-tape-forkfile\n"));
    assert!(!is_sentinel("proptest-tape-forkfiles\n"));
}

#[test]
fn status_characters() {
    for (status, c) in [(Status::Pass, '+'), (Status::Fail, '-'), (Status::Reject, '!')] {
        assert_eq!(c, status.to_char());
        assert_eq!(Some(status), Status::from_char(c));
    }
    assert_eq!(None, Status::from_char('='));
}

#[test]
fn blanks_are_unicode_white_space() {
    for n in 0..=0x10FFFFu32 {
        if let Some(c) = char::from_u32(n) {
            assert_eq!(c.is_whitespace(), blank(c), "{:x}", n);
        }
    }
}

#[test]
fn base16_round_trips() {
    let bytes: Vec<u8> = (0..=255u8).collect();
    let mut text = String::from("x");
    to_base16(&mut text, &bytes);
    assert!(text.starts_with("x000102"));
    assert!(text.ends_with("fdfeff"));
    let digits: Vec<char> = text.chars().skip(1).collect();
    assert_eq!(Some(bytes), from_base16(&digits));
    assert_eq!(None, from_base16(&vec!['0', '+']));
    assert_eq!(None, from_base16(&vec!['0']));
    assert_eq!(Some(vec![0xAF]), from_base16(&vec!['A', 'f']));
    assert_eq!(None, tape_of_hex(&vec!['é', '0']));
}

#[test]
fn what_follows_the_end_does_not_count() {
    let text = write_all(&[Record::Case(tape(&[5])), Record::Status(Status::Fail)]);
    let before = match parse(&text) {
        ParsedForkfile::InProgress(st) => st,
        other => panic!("unexpected: {:?}", other),
    };
    for rest in ["", "C zz\n", "= +\n= +", "junk"] {
        match parse(&format!("{}.\n{}", text, rest)) {
            ParsedForkfile::Terminated(st) => {
                assert_eq!(before.seed, st.seed);
                assert_eq!(before.best, st.best);
                assert_eq!(before.best_from_crash, st.best_from_crash);
                assert_eq!(before.cases_done, st.cases_done);
                assert_eq!(before.statuses_recorded, st.statuses_recorded);
            }
            other => panic!("unexpected: {:?}", other),
        }
    }
}
