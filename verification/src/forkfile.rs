//! Forkfile protocol: the tapes of a run, logged so that a run that dies can
//! be picked up where it left off.
//!
//! A sentinel, then the seed line, then a sequence of newline-terminated
//! records:
//!
//! ```text
//! proptest-tape-forkfile
//! <seed>
//! C <hex tape>      a generation case, written BEFORE its test runs
//! = -               the preceding case/attempt's status (+ - !)
//! B <hex tape>      a new accepted best (written when shrinking improves)
//! A <hex tape>      a shrink attempt, written BEFORE it runs
//! = +
//! .                 the run terminated normally
//! ```
//!
//! A record written before running (`C`/`A`) with no following `=` is the
//! input the child died on: a failure worth keeping, which becomes the best.
use crate::base16::{from_base16, hex_of, lemma_hex_digits, lemma_hex_round_trip, to_base16, unhex};
use crate::tape::{Tape, TapeView};
use crate::text::{
    after_line, after_word, chars_of, find_char, first_index, lemma_first_index,
    lemma_is_first_index, lemma_line_len, lemma_line_of_line, lemma_word_of_word, line_end,
    line_of, part_of, same_text, trim, trim_end, trim_start, trimmed, unbroken, without_breaks,
    word_of,
};
use crate::wire::{deserialize_tape, parse_tape, serialize_tape, tape_bytes};
use crate::wire_laws::{lemma_tape_round_trip, tape_fits};
use vstd::prelude::*;
use vstd::string::{StrSliceExecFns, StringExecFns};

verus! {

/// The first line of every forkfile.
pub const SENTINEL: &'static str = "proptest-tape-forkfile";

/// One outcome of running a case or attempt in the child.
#[derive(Clone, Copy, Debug, PartialEq, Eq, Structural)]
pub enum Status {
    Pass,
    Fail,
    Reject,
}

/// The character that stands for an outcome.
pub open spec fn status_char(s: Status) -> char {
    match s {
        Status::Pass => '+',
        Status::Fail => '-',
        Status::Reject => '!',
    }
}

/// The outcome that a character stands for.
pub open spec fn status_of(c: char) -> Option<Status> {
    if c == '+' {
        Some(Status::Pass)
    } else if c == '-' {
        Some(Status::Fail)
    } else if c == '!' {
        Some(Status::Reject)
    } else {
        None
    }
}

impl Status {
    /// The character that stands for the outcome.
    pub fn to_char(self) -> (r: char)
        ensures
            r == status_char(self),
            status_of(r) == Some(self),
    {
        match self {
            Status::Pass => '+',
            Status::Fail => '-',
            Status::Reject => '!',
        }
    }

    /// The outcome that a character stands for.
    pub fn from_char(c: char) -> (r: Option<Status>)
        ensures
            r == status_of(c),
    {
        match c {
            '+' => Some(Status::Pass),
            '-' => Some(Status::Fail),
            '!' => Some(Status::Reject),
            _ => None,
        }
    }
}

/// A record appended to the tape forkfile.
#[derive(Clone, Debug, PartialEq)]
pub enum Record {
    /// A generation case's recorded tape, written before its test runs.
    Case(Tape),
    /// A shrink attempt's proposal tape, written before it runs.
    Attempt(Tape),
    /// A newly accepted best (simpler failing) tape.
    Best(Tape),
    /// The status of the preceding `Case`/`Attempt`.
    Status(Status),
    /// The run terminated normally.
    Terminate,
}

/// What a [`Record`] says.
pub enum RecordView {
    Case(TapeView),
    Attempt(TapeView),
    Best(TapeView),
    Status(Status),
    Terminate,
}

impl View for Record {
    type V = RecordView;

    open spec fn view(&self) -> RecordView {
        match *self {
            Record::Case(t) => RecordView::Case(t@),
            Record::Attempt(t) => RecordView::Attempt(t@),
            Record::Best(t) => RecordView::Best(t@),
            Record::Status(s) => RecordView::Status(s),
            Record::Terminate => RecordView::Terminate,
        }
    }
}

/// A tape as text.
pub open spec fn tape_text(t: TapeView) -> Seq<char> {
    hex_of(tape_bytes(t))
}

/// The line of a record, without its line break.
pub open spec fn record_text(r: RecordView) -> Seq<char> {
    match r {
        RecordView::Case(t) => seq!['C', ' '] + tape_text(t),
        RecordView::Attempt(t) => seq!['A', ' '] + tape_text(t),
        RecordView::Best(t) => seq!['B', ' '] + tape_text(t),
        RecordView::Status(s) => seq!['=', ' ', status_char(s)],
        RecordView::Terminate => seq!['.'],
    }
}

/// The lines of all records.
pub open spec fn records_text(s: Seq<RecordView>) -> Seq<char>
    decreases s.len(),
{
    if s.len() == 0 {
        Seq::empty()
    } else {
        record_text(s[0]).push('\n') + records_text(s.drop_first())
    }
}

/// The two lines that a forkfile starts with.
pub open spec fn header_text(seed: Seq<char>) -> Seq<char> {
    SENTINEL@.push('\n') + seed.push('\n')
}

/// The tape that a text spells.
pub open spec fn read_tape(s: Seq<char>) -> Option<TapeView> {
    match unhex(s) {
        None => None,
        Some(bytes) => parse_tape(bytes),
    }
}

/// What the records read so far amount to.
pub struct LogView {
    pub best: Option<TapeView>,
    pub best_from_crash: bool,
    pub cases_done: nat,
    pub statuses_recorded: nat,
    /// The tape of a case or attempt that awaits its status, and whether it
    /// is an attempt.
    pub pending: Option<(bool, TapeView)>,
}

/// Nothing was read yet.
pub open spec fn empty_log() -> LogView {
    LogView {
        best: None,
        best_from_crash: false,
        cases_done: 0,
        statuses_recorded: 0,
        pending: None,
    }
}

/// The log after a case was about to run.
pub open spec fn with_case(log: LogView, t: TapeView) -> LogView {
    LogView { pending: Some((false, t)), ..log }
}

/// The log after a shrink attempt was about to run.
pub open spec fn with_attempt(log: LogView, t: TapeView) -> LogView {
    LogView { pending: Some((true, t)), ..log }
}

/// The log after a new best was accepted.
pub open spec fn with_best(log: LogView, t: TapeView) -> LogView {
    LogView { best: Some(t), best_from_crash: false, ..log }
}

/// The log after a status came in. A case counts as done, and a failing one
/// is the best unless there is one already; a failing attempt is accepted by
/// a best record only. Without anything pending there is nothing that a
/// status could be of.
pub open spec fn with_status(log: LogView, s: Status) -> Option<LogView> {
    match log.pending {
        None => None,
        Some((is_attempt, t)) => {
            let next = LogView {
                pending: None,
                statuses_recorded: log.statuses_recorded + 1,
                cases_done: if is_attempt {
                    log.cases_done
                } else {
                    log.cases_done + 1
                },
                ..log
            };
            Some(
                if s == Status::Fail && !is_attempt && log.best is None {
                    with_best(next, t)
                } else {
                    next
                },
            )
        },
    }
}

/// What comes of reading a line.
pub enum FedView {
    More(LogView),
    /// The run terminated normally; nothing is read any more.
    Stop,
    Corrupt,
}

/// What comes of a line that may have no place in the log.
pub open spec fn fed_or_corrupt(log: Option<LogView>) -> FedView {
    match log {
        Some(log) => FedView::More(log),
        None => FedView::Corrupt,
    }
}

/// What comes of reading a line that may have a line break at its end. Empty
/// lines say nothing.
pub open spec fn fed(log: LogView, line: Seq<char>) -> FedView {
    let s = unbroken(line);
    let tag = word_of(s);
    let rest = after_word(s);
    if s.len() == 0 {
        FedView::More(log)
    } else if tag == seq!['C'] {
        match read_tape(rest) {
            Some(t) => FedView::More(with_case(log, t)),
            None => FedView::Corrupt,
        }
    } else if tag == seq!['A'] {
        match read_tape(rest) {
            Some(t) => FedView::More(with_attempt(log, t)),
            None => FedView::Corrupt,
        }
    } else if tag == seq!['B'] {
        match read_tape(rest) {
            Some(t) => FedView::More(with_best(log, t)),
            None => FedView::Corrupt,
        }
    } else if tag == seq!['='] {
        if rest.len() == 0 || status_of(rest[0]) is None {
            FedView::Corrupt
        } else {
            fed_or_corrupt(with_status(log, status_of(rest[0])->0))
        }
    } else if tag == seq!['.'] {
        FedView::Stop
    } else {
        FedView::Corrupt
    }
}

/// What comes of reading all lines of `s`, and whether the run terminated
/// normally; `None` if a line is corrupt.
pub open spec fn read_log(log: LogView, s: Seq<char>) -> Option<(LogView, bool)>
    decreases s.len(),
{
    if s.len() == 0 {
        Some((log, false))
    } else {
        proof {
            lemma_line_len(s);
        }
        match fed(log, line_of(s)) {
            FedView::More(next) => read_log(next, after_line(s)),
            FedView::Stop => Some((log, true)),
            FedView::Corrupt => None,
        }
    }
}

/// What comes of reading a forkfile, its seed line aside.
pub open spec fn read_forkfile(s: Seq<char>) -> Option<(LogView, bool)> {
    if trimmed(line_of(s)) == SENTINEL@ {
        read_log(empty_log(), after_line(after_line(s)))
    } else {
        None
    }
}

/// The log of a run that is over: what is still pending killed the child, and
/// a crashing input is a failure worth keeping.
pub open spec fn concluded(log: LogView) -> LogView {
    match log.pending {
        Some((_, t)) => LogView { best: Some(t), best_from_crash: true, ..log },
        None => log,
    }
}

/// A tape that may not be there.
pub open spec fn optional_tape(t: Option<Tape>) -> Option<TapeView> {
    match t {
        Some(t) => Some(t@),
        None => None,
    }
}

/// Result of parsing a tape forkfile.
#[derive(Clone, Debug)]
pub enum ParsedForkfile<S> {
    /// Valid; the run is still in progress.
    InProgress(ForkState<S>),
    /// Valid; the run terminated normally.
    Terminated(ForkState<S>),
    /// Not parsable (wrong sentinel, bad seed, malformed record).
    Corrupt,
}

/// The reconstructed state of a tape-forkfile run.
#[derive(Clone, Debug)]
pub struct ForkState<S> {
    pub seed: S,
    /// The best (simplest known failing) tape so far, if a failure has
    /// been found. A dangling `Attempt`/`Case` (the child died running
    /// it) is folded in here: a crashing input is a failure worth
    /// keeping.
    pub best: Option<Tape>,
    /// Whether the current best came from a child dying on it (as
    /// opposed to the test returning a normal failure). Kept for the
    /// reason string the parent reports.
    pub best_from_crash: bool,
    /// Number of `Case` records seen with a recorded status, i.e.
    /// generation cases the child already got through. Lets a resuming
    /// child skip re-running the passing prefix of the generation
    /// phase.
    pub cases_done: usize,
    /// Total `=` status records (case or attempt). Zero means no test
    /// ever completed without the child dying, i.e. the child cannot
    /// run even one case (as opposed to finding a real failure), which
    /// the parent treats as "failed to start".
    pub statuses_recorded: usize,
}

impl<S> ForkState<S> {
    /// The state is that of a run with this seed that is over with this log.
    pub open spec fn is_of(&self, seed: S, log: LogView) -> bool {
        &&& self.seed == seed
        &&& optional_tape(self.best) == concluded(log).best
        &&& self.best_from_crash == concluded(log).best_from_crash
        &&& self.cases_done == log.cases_done
        &&& self.statuses_recorded == log.statuses_recorded
    }
}

/// Appends the file header (sentinel + seed). Call once, before any
/// records, when creating the forkfile.
pub fn init_file(out: &mut String, seed: &str)
    ensures
        final(out)@ == old(out)@ + header_text(seed@),
{
    let ghost start = out@;
    proof {
        reveal_strlit("\n");
    }
    out.append(SENTINEL);
    out.append("\n");
    out.append(seed);
    out.append("\n");
    assert(out@ =~= start + header_text(seed@));
}

/// A tape as text.
pub fn hex_of_tape(tape: &Tape) -> (r: String)
    ensures
        r@ == tape_text(tape@),
{
    let mut s = String::new();
    to_base16(&mut s, &serialize_tape(tape));
    assert(s@ =~= tape_text(tape@));
    s
}

/// Appends one record, newline-terminated.
pub fn append(out: &mut String, record: &Record)
    ensures
        final(out)@ == old(out)@ + record_text(record@).push('\n'),
{
    let ghost start = out@;
    proof {
        reveal_strlit("C ");
        reveal_strlit("A ");
        reveal_strlit("B ");
        reveal_strlit("= +");
        reveal_strlit("= -");
        reveal_strlit("= !");
        reveal_strlit(".");
        reveal_strlit("\n");
    }
    match record {
        Record::Case(t) => {
            out.append("C ");
            out.append(hex_of_tape(t).as_str());
        },
        Record::Attempt(t) => {
            out.append("A ");
            out.append(hex_of_tape(t).as_str());
        },
        Record::Best(t) => {
            out.append("B ");
            out.append(hex_of_tape(t).as_str());
        },
        Record::Status(s) => {
            match s {
                Status::Pass => out.append("= +"),
                Status::Fail => out.append("= -"),
                Status::Reject => out.append("= !"),
            }
        },
        Record::Terminate => {
            out.append(".");
        },
    }
    out.append("\n");
    assert(out@ =~= start + record_text(record@).push('\n'));
}

/// The tape that a text spells.
pub fn tape_of_hex(hex: &Vec<char>) -> (r: Option<Tape>)
    ensures
        optional_tape(r) == read_tape(hex@),
{
    match from_base16(hex) {
        None => None,
        Some(bytes) => deserialize_tape(bytes.as_slice()),
    }
}

/// What came of reading a line.
#[derive(Clone, Copy, Debug, PartialEq, Eq, Structural)]
pub enum Fed {
    More,
    /// The run terminated normally; nothing is read any more.
    Stop,
    Corrupt,
}

/// What the records read so far amount to.
#[derive(Debug)]
pub struct ForkLog {
    best: Option<Tape>,
    best_from_crash: bool,
    cases_done: usize,
    statuses_recorded: usize,
    /// The tape of a `Case`/`Attempt` record awaiting its `=` status, and
    /// whether it is an attempt.
    pending: Option<(bool, Tape)>,
}

impl View for ForkLog {
    type V = LogView;

    closed spec fn view(&self) -> LogView {
        LogView {
            best: optional_tape(self.best),
            best_from_crash: self.best_from_crash,
            cases_done: self.cases_done as nat,
            statuses_recorded: self.statuses_recorded as nat,
            pending: match self.pending {
                Some((is_attempt, t)) => Some((is_attempt, t@)),
                None => None,
            },
        }
    }
}

/// Whether a line is the first line of a forkfile.
pub fn is_sentinel(line: &str) -> (r: bool)
    ensures
        r == (trimmed(line@) == SENTINEL@),
{
    same_text(&trim(&chars_of(line)), &chars_of(SENTINEL))
}

impl ForkLog {
    /// Nothing was read yet.
    pub fn new() -> (r: Self)
        ensures
            r@ == empty_log(),
    {
        ForkLog {
            best: None,
            best_from_crash: false,
            cases_done: 0,
            statuses_recorded: 0,
            pending: None,
        }
    }

    /// Reads the next line.
    pub fn feed(&mut self, line: &str) -> (r: Fed)
        requires
            old(self)@.cases_done < usize::MAX,
            old(self)@.statuses_recorded < usize::MAX,
        ensures
            match fed(old(self)@, line@) {
                FedView::More(log) => r == Fed::More && final(self)@ == log,
                FedView::Stop => r == Fed::Stop && final(self)@ == old(self)@,
                FedView::Corrupt => r == Fed::Corrupt,
            },
    {
        self.feed_chars(&chars_of(line))
    }

    /// Takes in the status of what is pending.
    fn take_status(&mut self, status: Status) -> (r: bool)
        requires
            old(self)@.cases_done < usize::MAX,
            old(self)@.statuses_recorded < usize::MAX,
        ensures
            match with_status(old(self)@, status) {
                Some(log) => r && final(self)@ == log,
                None => !r,
            },
    {
        let mut pending: Option<(bool, Tape)> = None;
        core::mem::swap(&mut self.pending, &mut pending);
        let (is_attempt, tape) = match pending {
            Some(p) => p,
            None => {
                return false;
            },
        };
        self.statuses_recorded += 1;
        // A failing case is the initial best; a failing attempt is only
        // accepted via a `B` record, so it is not promoted here.
        if !is_attempt {
            self.cases_done += 1;
            if status == Status::Fail && self.best.is_none() {
                self.best = Some(tape);
                self.best_from_crash = false;
            }
        }
        true
    }

    fn feed_chars(&mut self, line: &Vec<char>) -> (r: Fed)
        requires
            old(self)@.cases_done < usize::MAX,
            old(self)@.statuses_recorded < usize::MAX,
        ensures
            match fed(old(self)@, line@) {
                FedView::More(log) => r == Fed::More && final(self)@ == log,
                FedView::Stop => r == Fed::Stop && final(self)@ == old(self)@,
                FedView::Corrupt => r == Fed::Corrupt,
            },
    {
        let s = without_breaks(line);
        if s.len() == 0 {
            return Fed::More;
        }
        let space: usize = find_char(&s, ' ', 0);
        proof {
            assert(s@.skip(0) =~= s@);
            lemma_first_index(s@, ' ');
        }
        let rest: Vec<char> = if space < s.len() {
            part_of(&s, space + 1, s.len())
        } else {
            Vec::new()
        };
        assert(rest@ =~= after_word(s@));
        assert(word_of(s@).len() == space);
        if space != 1 {
            assert(seq!['C'].len() == 1 && seq!['A'].len() == 1 && seq!['B'].len() == 1
                && seq!['='].len() == 1 && seq!['.'].len() == 1);
            return Fed::Corrupt;
        }
        let tag: char = s[0];
        proof {
            assert(word_of(s@) =~= seq![tag]);
            assert(seq![tag][0] == tag && seq!['C'][0] == 'C' && seq!['A'][0] == 'A'
                && seq!['B'][0] == 'B' && seq!['='][0] == '=' && seq!['.'][0] == '.');
        }
        if tag == 'C' {
            match tape_of_hex(&rest) {
                None => Fed::Corrupt,
                Some(t) => {
                    self.pending = Some((false, t));
                    Fed::More
                },
            }
        } else if tag == 'A' {
            match tape_of_hex(&rest) {
                None => Fed::Corrupt,
                Some(t) => {
                    self.pending = Some((true, t));
                    Fed::More
                },
            }
        } else if tag == 'B' {
            match tape_of_hex(&rest) {
                None => Fed::Corrupt,
                Some(t) => {
                    self.best = Some(t);
                    self.best_from_crash = false;
                    Fed::More
                },
            }
        } else if tag == '=' {
            if rest.len() == 0 {
                return Fed::Corrupt;
            }
            match Status::from_char(rest[0]) {
                None => Fed::Corrupt,
                Some(status) => {
                    if self.take_status(status) {
                        Fed::More
                    } else {
                        Fed::Corrupt
                    }
                },
            }
        } else if tag == '.' {
            Fed::Stop
        } else {
            Fed::Corrupt
        }
    }

    /// The state of a run whose records were read.
    pub fn finish<S>(self, seed: S, terminated: bool) -> (r: ParsedForkfile<S>)
        ensures
            match r {
                ParsedForkfile::Terminated(state) => terminated && state.is_of(seed, self@),
                ParsedForkfile::InProgress(state) => !terminated && state.is_of(seed, self@),
                ParsedForkfile::Corrupt => false,
            },
    {
        let ForkLog { best, best_from_crash, cases_done, statuses_recorded, pending } = self;
        // A record written before running with no status: the child died
        // on that input. A crashing input is a failure worth keeping.
        let (best, best_from_crash) = match pending {
            Some((_, tape)) => (Some(tape), true),
            None => (best, best_from_crash),
        };
        let state = ForkState { seed, best, best_from_crash, cases_done, statuses_recorded };
        if terminated {
            ParsedForkfile::Terminated(state)
        } else {
            ParsedForkfile::InProgress(state)
        }
    }
}

/// What parsing a forkfile gives, where `seed` is what its seed line reads as.
pub open spec fn parsed_as<S>(s: Seq<char>, seed: Option<S>, r: ParsedForkfile<S>) -> bool {
    match (read_forkfile(s), seed) {
        (Some((log, terminated)), Some(seed)) => match r {
            ParsedForkfile::Terminated(state) => terminated && state.is_of(seed, log),
            ParsedForkfile::InProgress(state) => !terminated && state.is_of(seed, log),
            ParsedForkfile::Corrupt => false,
        },
        _ => r is Corrupt,
    }
}

/// Parse a tape forkfile. `read_seed` reads the seed line (`None` if it is not
/// a seed); it is asked only where the file starts with the sentinel.
pub fn parse_from<S, R: FnOnce(&str) -> Option<S>>(text: &str, read_seed: R) -> (r: ParsedForkfile<
    S,
>)
    requires
        forall|line: &str|
            line@ == line_of(after_line(text@)) ==> #[trigger] call_requires(read_seed, (line,)),
    ensures
        if trimmed(line_of(text@)) == SENTINEL@ {
            exists|line: &str, seed: Option<S>|
                {
                    &&& line@ == line_of(after_line(text@))
                    &&& #[trigger] call_ensures(read_seed, (line,), seed)
                    &&& parsed_as(text@, seed, r)
                }
        } else {
            r is Corrupt
        },
{
    let chars = chars_of(text);
    assert(chars@.skip(0) =~= chars@);
    let first: usize = line_end(&chars, 0);
    if !same_text(&trim(&part_of(&chars, 0, first)), &chars_of(SENTINEL)) {
        return ParsedForkfile::Corrupt;
    }
    let mut pos: usize = line_end(&chars, first);
    let line = text.substring_char(first, pos);
    let read = read_seed(line);
    assert(line@ == line_of(after_line(text@)));
    let ghost was_read = read;
    let seed = match read {
        Some(seed) => seed,
        None => {
            assert(parsed_as(text@, was_read, ParsedForkfile::<S>::Corrupt));
            return ParsedForkfile::Corrupt;
        },
    };
    let mut log = ForkLog::new();
    let mut terminated = false;
    let ghost all = read_forkfile(text@);
    while pos < chars.len()
        invariant_except_break
            !terminated,
        invariant
            pos <= chars@.len(),
            log@.cases_done <= pos,
            log@.statuses_recorded <= pos,
            all == read_forkfile(text@),
            line@ == line_of(after_line(text@)),
            call_ensures(read_seed, (line,), was_read),
            was_read == Some(seed),
            trimmed(line_of(text@)) == SENTINEL@,
            all == read_log(log@, chars@.skip(pos as int)) || (terminated && all == Some(
                (log@, true),
            )),
        ensures
            all == Some((log@, terminated)),
        decreases chars@.len() - pos,
    {
        let end: usize = line_end(&chars, pos);
        let line = part_of(&chars, pos, end);
        match log.feed_chars(&line) {
            Fed::More => {},
            Fed::Stop => {
                terminated = true;
                break;
            },
            Fed::Corrupt => {
                assert(parsed_as(text@, was_read, ParsedForkfile::<S>::Corrupt));
                return ParsedForkfile::Corrupt;
            },
        }
        pos = end;
    }
    let r = log.finish(seed, terminated);
    assert(parsed_as(text@, was_read, r));
    r
}

/// A tape as it comes back from the log: without its spans.
pub open spec fn without_spans(t: TapeView) -> TapeView {
    TapeView { choices: t.choices, spans: Seq::empty(), streams: t.streams }
}

/// What a record says to a log.
pub open spec fn applied(log: LogView, r: RecordView) -> FedView {
    match r {
        RecordView::Case(t) => FedView::More(with_case(log, without_spans(t))),
        RecordView::Attempt(t) => FedView::More(with_attempt(log, without_spans(t))),
        RecordView::Best(t) => FedView::More(with_best(log, without_spans(t))),
        RecordView::Status(s) => fed_or_corrupt(with_status(log, s)),
        RecordView::Terminate => FedView::Stop,
    }
}

/// What records amount to, and whether one of them ends the run; `None` if a
/// status is of nothing.
pub open spec fn replayed(log: LogView, records: Seq<RecordView>) -> Option<(LogView, bool)>
    decreases records.len(),
{
    if records.len() == 0 {
        Some((log, false))
    } else {
        match applied(log, records[0]) {
            FedView::More(next) => replayed(next, records.drop_first()),
            FedView::Stop => Some((log, true)),
            FedView::Corrupt => None,
        }
    }
}

/// The tape of the record can be persisted.
pub open spec fn record_fits(r: RecordView) -> bool {
    match r {
        RecordView::Case(t) => tape_fits(t),
        RecordView::Attempt(t) => tape_fits(t),
        RecordView::Best(t) => tape_fits(t),
        _ => true,
    }
}

/// The text of a tape reads as that tape, without its spans.
pub proof fn lemma_tape_text_round_trip(t: TapeView)
    requires
        tape_fits(t),
    ensures
        read_tape(tape_text(t)) == Some(without_spans(t)),
{
    lemma_hex_round_trip(tape_bytes(t));
    lemma_tape_round_trip(t);
}

/// A line of a tag and a text reads as that tag and that text.
proof fn lemma_tagged_line(tag: char, rest: Seq<char>)
    requires
        tag != ' ',
    ensures
        word_of(seq![tag, ' '] + rest) == seq![tag],
        after_word(seq![tag, ' '] + rest) == rest,
{
    let word = seq![tag];
    lemma_word_of_word(word, rest);
    assert(word.push(' ') + rest =~= seq![tag, ' '] + rest);
}

/// The line of a record says what the record says.
proof fn lemma_record_line(log: LogView, r: RecordView, rest: Seq<char>)
    requires
        record_fits(r),
    ensures
        fed(log, line_of(record_text(r).push('\n') + rest)) == applied(log, r),
        after_line(record_text(r).push('\n') + rest) == rest,
        record_text(r).len() > 0,
{
    let s = record_text(r);
    assert forall|i: int| 0 <= i < s.len() implies s[i] != '\n' by {
        match r {
            RecordView::Case(t) => lemma_hex_digits(tape_bytes(t)),
            RecordView::Attempt(t) => lemma_hex_digits(tape_bytes(t)),
            RecordView::Best(t) => lemma_hex_digits(tape_bytes(t)),
            _ => {},
        }
    }
    lemma_line_of_line(s, rest);
    assert(seq!['C'][0] == 'C' && seq!['A'][0] == 'A' && seq!['B'][0] == 'B' && seq!['='][0] == '='
        && seq!['.'][0] == '.');
    match r {
        RecordView::Case(t) => {
            lemma_tagged_line('C', tape_text(t));
            lemma_tape_text_round_trip(t);
        },
        RecordView::Attempt(t) => {
            lemma_tagged_line('A', tape_text(t));
            lemma_tape_text_round_trip(t);
        },
        RecordView::Best(t) => {
            lemma_tagged_line('B', tape_text(t));
            lemma_tape_text_round_trip(t);
        },
        RecordView::Status(status) => {
            lemma_tagged_line('=', seq![status_char(status)]);
            assert(s =~= seq!['=', ' '] + seq![status_char(status)]);
        },
        RecordView::Terminate => {
            lemma_word_of_word(s, Seq::empty());
        },
    }
}

/// Reading written records gives what they say, one after the other.
proof fn lemma_records_read_back(log: LogView, records: Seq<RecordView>)
    requires
        forall|i: int| 0 <= i < records.len() ==> record_fits(#[trigger] records[i]),
    ensures
        read_log(log, records_text(records)) == replayed(log, records),
    decreases records.len(),
{
    if records.len() > 0 {
        let tail = records.drop_first();
        assert forall|i: int| 0 <= i < tail.len() implies record_fits(#[trigger] tail[i]) by {
            assert(tail[i] == records[i + 1]);
        }
        lemma_record_line(log, records[0], records_text(tail));
        if let FedView::More(next) = applied(log, records[0]) {
            lemma_records_read_back(next, tail);
        }
    }
}

/// Reading a forkfile that was written gives what its records say, one after
/// the other.
pub proof fn lemma_forkfile_round_trip(seed: Seq<char>, records: Seq<RecordView>)
    requires
        forall|i: int| 0 <= i < seed.len() ==> seed[i] != '\n',
        forall|i: int| 0 <= i < records.len() ==> record_fits(#[trigger] records[i]),
    ensures
        read_forkfile(header_text(seed) + records_text(records)) == replayed(
            empty_log(),
            records,
        ),
{
    let sentinel = SENTINEL@;
    let rest = seed.push('\n') + records_text(records);
    let s = header_text(seed) + records_text(records);
    reveal_strlit("proptest-tape-forkfile");
    assert(s =~= sentinel.push('\n') + rest);
    lemma_line_of_line(sentinel, rest);
    lemma_line_of_line(seed, records_text(records));
    assert(trimmed(sentinel.push('\n')) == sentinel) by {
        let line = sentinel.push('\n');
        assert(line[0] == 'p');
        assert(trim_start(line) == line);
        assert(line.drop_last() =~= sentinel);
        assert(trim_end(sentinel) == sentinel);
    }
    lemma_records_read_back(empty_log(), records);
}

/// What stands after the record that ends the run is not read.
pub proof fn lemma_termination_is_final(log: LogView, rest: Seq<char>)
    ensures
        read_log(log, record_text(RecordView::Terminate).push('\n') + rest) == Some((log, true)),
{
    lemma_record_line(log, RecordView::Terminate, rest);
}

/// The first line of a text that has a line break, and what follows it, are
/// found whatever the text is followed by.
proof fn lemma_line_of_more(s: Seq<char>, t: Seq<char>)
    requires
        s.len() > 0,
        s.last() == '\n',
    ensures
        line_of(s + t) == line_of(s),
        after_line(s + t) == after_line(s) + t,
        after_line(s).len() > 0 ==> after_line(s).last() == '\n',
        after_line(s).len() < s.len(),
{
    lemma_first_index(s, '\n');
    lemma_line_len(s);
    let n = first_index(s, '\n');
    assert(n < s.len()) by {
        if n == s.len() {
            assert(s[s.len() - 1] != '\n');
        }
    }
    assert forall|i: int| 0 <= i < n implies (s + t)[i] != '\n' by {
        assert(s[i] != '\n');
    }
    assert((s + t)[n] == '\n');
    lemma_is_first_index(s + t, '\n', n);
    assert(line_of(s + t) =~= line_of(s));
    assert(after_line(s + t) =~= after_line(s) + t);
}

/// Reading goes on where whole lines end.
proof fn lemma_log_continues(log: LogView, s: Seq<char>, t: Seq<char>)
    requires
        s.len() > 0 ==> s.last() == '\n',
        read_log(log, s) matches Some((_, terminated)) && !terminated,
    ensures
        read_log(log, s + t) == read_log((read_log(log, s)->0).0, t),
    decreases s.len(),
{
    if s.len() == 0 {
        assert(s + t =~= t);
    } else {
        lemma_line_of_more(s, t);
        if let FedView::More(next) = fed(log, line_of(s)) {
            lemma_log_continues(next, after_line(s), t);
        }
    }
}

/// Terminating a run ends its file: a whole file that reads as a run in
/// progress, followed by the record that ends the run and by anything, reads
/// as that run, terminated, and hands the same line to the seed reader. (A
/// whole file has its seed line: a file of the sentinel alone has not.)
pub proof fn lemma_terminated_file<S>(s: Seq<char>, x: Seq<char>, seed: Option<S>)
    requires
        s.len() > 0,
        s.last() == '\n',
        after_line(s).len() > 0,
        read_forkfile(s) matches Some((_, terminated)) && !terminated,
    ensures
        ({
            let ended = s + (record_text(RecordView::Terminate).push('\n') + x);
            &&& read_forkfile(ended) == Some(((read_forkfile(s)->0).0, true))
            &&& line_of(ended) == line_of(s)
            &&& line_of(after_line(ended)) == line_of(after_line(s))
            &&& forall|state: ForkState<S>| #[trigger]
                parsed_as(s, seed, ParsedForkfile::InProgress(state)) ==> parsed_as(
                    ended,
                    seed,
                    ParsedForkfile::Terminated(state),
                )
        }),
{
    let end = record_text(RecordView::Terminate).push('\n') + x;
    let records = after_line(after_line(s));
    let log = (read_forkfile(s)->0).0;
    lemma_line_of_more(s, end);
    lemma_line_of_more(after_line(s), end);
    lemma_log_continues(empty_log(), records, end);
    lemma_termination_is_final(log, x);
}

/// The input that the child died on is the best one, whatever was best
/// before: a case or attempt without a status.
pub proof fn lemma_dangling_input_is_best(log: LogView, t: TapeView)
    ensures
        concluded(with_case(log, t)).best == Some(t),
        concluded(with_case(log, t)).best_from_crash,
        concluded(with_attempt(log, t)).best == Some(t),
        concluded(with_attempt(log, t)).best_from_crash,
{
}

/// A case or attempt whose status is known did not kill the child: a failing
/// case is best where nothing was, and nothing else changes the best.
pub proof fn lemma_status_settles_input(log: LogView, t: TapeView, s: Status)
    ensures
        with_status(with_case(log, t), s) matches Some(next) && concluded(next).best == (if s
            == Status::Fail && log.best is None {
            Some(t)
        } else {
            log.best
        }) && next.cases_done == log.cases_done + 1,
        with_status(with_attempt(log, t), s) matches Some(next) && concluded(next).best == log.best
            && next.cases_done == log.cases_done,
{
}

/// Records that do not end the run are taken in one after the other.
proof fn lemma_replayed_adds(log: LogView, a: Seq<RecordView>, b: Seq<RecordView>)
    requires
        replayed(log, a) matches Some((_, terminated)) && !terminated,
    ensures
        replayed(log, a + b) == replayed((replayed(log, a)->0).0, b),
    decreases a.len(),
{
    if a.len() == 0 {
        assert(a + b =~= b);
    } else {
        assert((a + b).drop_first() =~= a.drop_first() + b);
        assert((a + b)[0] == a[0]);
        if let FedView::More(next) = applied(log, a[0]) {
            lemma_replayed_adds(next, a.drop_first(), b);
        }
    }
}

/// A child that dies leaves behind exactly the input that killed it: a
/// forkfile that ends with a case or an attempt reads as a run whose best is
/// that input, whatever was logged before.
pub proof fn lemma_crash_leaves_its_input(
    seed: Seq<char>,
    records: Seq<RecordView>,
    t: TapeView,
    last: RecordView,
)
    requires
        forall|i: int| 0 <= i < seed.len() ==> seed[i] != '\n',
        forall|i: int| 0 <= i < records.len() ==> record_fits(#[trigger] records[i]),
        tape_fits(t),
        last == RecordView::Case(t) || last == RecordView::Attempt(t),
        replayed(empty_log(), records) matches Some((_, terminated)) && !terminated,
    ensures
        read_forkfile(header_text(seed) + records_text(records.push(last))) matches Some(
            (log, terminated),
        ) && !terminated && concluded(log).best == Some(without_spans(t)) && concluded(
            log,
        ).best_from_crash,
{
    let all = records.push(last);
    let tail = seq![last];
    assert forall|i: int| 0 <= i < all.len() implies record_fits(#[trigger] all[i]) by {
        if i < records.len() {
            assert(all[i] == records[i]);
        }
    }
    lemma_forkfile_round_trip(seed, all);
    lemma_replayed_adds(empty_log(), records, tail);
    assert(records + tail =~= all);
    let log = (replayed(empty_log(), records)->0).0;
    assert(tail.drop_first() =~= Seq::empty());
    assert(applied(log, tail[0]) is More);
    assert(replayed(applied(log, last)->More_0, tail.drop_first()) == Some(
        (applied(log, last)->More_0, false),
    ));
}

/// The signs of the outcomes; no other character is one.
pub proof fn lemma_status_signs(c: char)
    ensures
        status_char(Status::Pass) == '+',
        status_char(Status::Fail) == '-',
        status_char(Status::Reject) == '!',
        status_of('+') == Some(Status::Pass),
        status_of('-') == Some(Status::Fail),
        status_of('!') == Some(Status::Reject),
        c != '+' && c != '-' && c != '!' ==> status_of(c) is None,
{
}

/// What records look like: a letter for the kind, a space, and the tape in
/// hexadecimal; `=`, a space, and the sign of an outcome; or a dot.
pub proof fn lemma_record_lines(t: TapeView, s: Status)
    ensures
        record_text(RecordView::Case(t)) == seq!['C', ' '] + hex_of(tape_bytes(t)),
        record_text(RecordView::Attempt(t)) == seq!['A', ' '] + hex_of(tape_bytes(t)),
        record_text(RecordView::Best(t)) == seq!['B', ' '] + hex_of(tape_bytes(t)),
        record_text(RecordView::Status(s)) == seq!['=', ' ', status_char(s)],
        record_text(RecordView::Terminate) == seq!['.'],
        records_text(Seq::<RecordView>::empty()).len() == 0,
        records_text(seq![RecordView::Status(s)]) == seq!['=', ' ', status_char(s), '\n'],
{
    let one = seq![RecordView::Status(s)];
    assert(one.drop_first() =~= Seq::<RecordView>::empty());
    assert(records_text(one.drop_first()) =~= Seq::<char>::empty());
    assert(records_text(one) =~= seq!['=', ' ', status_char(s), '\n']);
}

/// A forkfile starts with two lines: the sentinel, and the seed. What follows
/// them are the records.
pub proof fn lemma_header_lines(seed: Seq<char>, rest: Seq<char>)
    requires
        forall|i: int| 0 <= i < seed.len() ==> seed[i] != '\n',
    ensures
        ({
            let s = header_text(seed) + rest;
            &&& line_of(s) == "proptest-tape-forkfile"@.push('\n')
            &&& line_of(after_line(s)) == seed.push('\n')
            &&& after_line(after_line(s)) == rest
        }),
{
    let sentinel = SENTINEL@;
    let tail = seed.push('\n') + rest;
    reveal_strlit("proptest-tape-forkfile");
    assert(header_text(seed) + rest =~= sentinel.push('\n') + tail);
    lemma_line_of_line(sentinel, tail);
    lemma_line_of_line(seed, rest);
}

/// What a record does to the log. A case or an attempt awaits its status, in
/// place of what awaited one before. A best is the best, and not from a crash. A
/// status settles what awaits one: it counts, a case counts as done, and a case
/// that failed is the best if there was none; an attempt changes no best. There
/// is no status of nothing.
pub proof fn lemma_log_takes_records(log: LogView, t: TapeView, s: Status)
    ensures
        with_case(log, t) == (LogView { pending: Some((false, t)), ..log }),
        with_attempt(log, t) == (LogView { pending: Some((true, t)), ..log }),
        with_best(log, t) == (LogView { best: Some(t), best_from_crash: false, ..log }),
        log.pending is None ==> with_status(log, s) is None,
        log.pending matches Some((is_attempt, u)) ==> with_status(log, s) matches Some(next) && {
            &&& next.pending is None
            &&& next.statuses_recorded == log.statuses_recorded + 1
            &&& next.cases_done == log.cases_done + (if is_attempt { 0int } else { 1 })
            &&& !is_attempt && s == Status::Fail && log.best is None ==> next.best == Some(u)
                && !next.best_from_crash
            &&& is_attempt || s != Status::Fail || log.best is Some ==> next.best == log.best
                && next.best_from_crash == log.best_from_crash
        },
{
}

/// What a run that is over amounts to: what still awaits its status killed the
/// child and is the best, from a crash; otherwise the best stays what it was.
/// Counts are as they were.
pub proof fn lemma_state_of_log<S>(state: ForkState<S>, seed: S, log: LogView)
    requires
        state.is_of(seed, log),
    ensures
        state.seed == seed,
        state.cases_done == log.cases_done,
        state.statuses_recorded == log.statuses_recorded,
        log.pending matches Some((_, t)) ==> state.best_from_crash && (state.best matches Some(u)
            && u@ == t),
        log.pending is None ==> state.best_from_crash == log.best_from_crash && match log.best {
            Some(t) => state.best matches Some(u) && u@ == t,
            None => state.best is None,
        },
{
}

/// Nothing was logged at first.
pub proof fn lemma_log_starts_empty()
    ensures
        empty_log().best is None,
        !empty_log().best_from_crash,
        empty_log().cases_done == 0,
        empty_log().statuses_recorded == 0,
        empty_log().pending is None,
{
}

/// A file that does not start with the sentinel is no forkfile, whatever seed and
/// records it has.
pub proof fn lemma_wrong_sentinel<S>(s: Seq<char>, seed: Option<S>, r: ParsedForkfile<S>)
    requires
        trimmed(line_of(s)) != "proptest-tape-forkfile"@,
        parsed_as(s, seed, r),
    ensures
        r is Corrupt,
{
}

/// How a line of a tape is read: the letter says what is done with the tape, and
/// a text that spells no tape is corrupt.
pub proof fn lemma_tape_lines_read(log: LogView, rest: Seq<char>)
    requires
        rest.len() > 0,
        rest.last() != '\n',
    ensures
        match read_tape(rest) {
            Some(t) => {
                &&& fed(log, seq!['C', ' '] + rest) == FedView::More(
                    LogView { pending: Some((false, t)), ..log },
                )
                &&& fed(log, seq!['A', ' '] + rest) == FedView::More(
                    LogView { pending: Some((true, t)), ..log },
                )
                &&& fed(log, seq!['B', ' '] + rest) == FedView::More(
                    LogView { best: Some(t), best_from_crash: false, ..log },
                )
            },
            None => {
                &&& fed(log, seq!['C', ' '] + rest) is Corrupt
                &&& fed(log, seq!['A', ' '] + rest) is Corrupt
                &&& fed(log, seq!['B', ' '] + rest) is Corrupt
            },
        },
        unhex(rest) is None ==> read_tape(rest) is None,
        unhex(rest) matches Some(bytes) ==> read_tape(rest) == parse_tape(bytes),
{
    lemma_tagged_line('C', rest);
    lemma_tagged_line('A', rest);
    lemma_tagged_line('B', rest);
    assert((seq!['C', ' '] + rest).last() == rest.last());
    assert((seq!['A', ' '] + rest).last() == rest.last());
    assert((seq!['B', ' '] + rest).last() == rest.last());
    assert(seq!['A'][0] != seq!['C'][0]);
    assert(seq!['B'][0] != seq!['C'][0]);
    assert(seq!['B'][0] != seq!['A'][0]);
}

/// Lines that say nothing, and lines that are corrupt: an empty line is skipped;
/// a line is corrupt that starts with no record's letter, or whose letter is
/// followed by anything but a space.
pub proof fn lemma_other_lines(log: LogView, line: Seq<char>)
    requires
        line.len() > 0 ==> line.last() != '\n',
    ensures
        line.len() == 0 ==> fed(log, line) == FedView::More(log),
        line.len() > 0 && line[0] != 'C' && line[0] != 'A' && line[0] != 'B' && line[0] != '='
            && line[0] != '.' ==> fed(log, line) is Corrupt,
        line.len() > 1 && line[1] != ' ' ==> fed(log, line) is Corrupt,
{
    let tag = word_of(line);
    lemma_first_index(line, ' ');
    let n = first_index(line, ' ');
    assert(unbroken(line) == line);
    if line.len() > 0 {
        if n == 0 {
            assert(tag.len() == 0);
        } else {
            assert(tag[0] == line[0]);
        }
        if line.len() > 1 && line[1] != ' ' {
            assert(n == 0 || n > 1);
        }
        if tag.len() != 1 {
            assert(tag != seq!['C'] && tag != seq!['A'] && tag != seq!['B'] && tag != seq!['=']
                && tag != seq!['.']) by {
                assert(seq!['C'].len() == 1 && seq!['A'].len() == 1 && seq!['B'].len() == 1
                    && seq!['='].len() == 1 && seq!['.'].len() == 1);
            }
        } else {
            assert(tag[0] == line[0]);
            assert(seq!['C'][0] == 'C' && seq!['A'][0] == 'A' && seq!['B'][0] == 'B' && seq!['='][0]
                == '=' && seq!['.'][0] == '.');
        }
    }
}

/// How a status line is read: by the character after the space, whatever follows
/// it. It is corrupt if that is the sign of no outcome, or if nothing awaits a
/// status. A dot, alone or followed by a space, ends the run.
pub proof fn lemma_status_lines_read(log: LogView, c: char, more: Seq<char>)
    requires
        c != '\n',
        more.len() > 0 ==> more.last() != '\n',
    ensures
        ({
            let line = seq!['=', ' '] + (seq![c] + more);
            &&& c != '+' && c != '-' && c != '!' ==> fed(log, line) is Corrupt
            &&& log.pending is None ==> fed(log, line) is Corrupt
            &&& log.pending is Some && c == '+' ==> fed(log, line) == FedView::More(
                with_status(log, Status::Pass)->0,
            )
            &&& log.pending is Some && c == '-' ==> fed(log, line) == FedView::More(
                with_status(log, Status::Fail)->0,
            )
            &&& log.pending is Some && c == '!' ==> fed(log, line) == FedView::More(
                with_status(log, Status::Reject)->0,
            )
        }),
        fed(log, seq!['.']) is Stop,
        fed(log, seq!['.', ' '] + (seq![c] + more)) is Stop,
{
    let rest = seq![c] + more;
    lemma_tagged_line('=', rest);
    lemma_tagged_line('.', rest);
    lemma_word_of_word(seq!['.'], Seq::empty());
    assert(rest.last() != '\n');
    assert(rest[0] == c);
    assert((seq!['=', ' '] + rest).last() == rest.last());
    assert((seq!['.', ' '] + rest).last() == rest.last());
    assert(seq!['C'][0] == 'C' && seq!['A'][0] == 'A' && seq!['B'][0] == 'B' && seq!['='][0] == '='
        && seq!['.'][0] == '.');
}

} // verus!
