//! Strategies for generating random functions.
//!
//! [`function(output)`](function) generates values of [`RandomFn<I, S>`],
//! a pure pseudo-random function from `I` to the values of the `output`
//! strategy: calling it hashes the argument into a salt and materialises
//! the result from a stream derived from (captured seed, salt), so the same
//! argument always maps to the same result within a test case, and different
//! arguments get independent results.
//!
//! While a tape is on, each call's draws are recorded as a keyed sub-stream
//! of the test case's choice tape, so shrinking edits what the function
//! returns for the arguments the test actually used.
//!
//! A function and its clones share two things, which whoever calls them hands
//! in: the tape, and the table of observed calls that a failure report shows.
use crate::apply::apply;
use crate::choice::ChoiceView;
use crate::keys::{copy_key, KeyElt, StreamKey};
use crate::observed::{lemma_row_set, out_of, row_set, sorted, table_text, Observed, Row};
use crate::runner::{after_draw, fresh_draw, lemma_raw_draw, random_drawn, Runner, RunnerView};
use crate::salt::{
    call_seed, derive_seed, hash_alike, hashes_to, lemma_entropy_separates_functions,
    lemma_salts_separate_calls, salt_of,
};
use crate::state::{entered, next_split, split_allocated, StateView, TapeMode, TapeState};
use crate::state_laws::{
    lemma_draws_decided_by_input, lemma_draws_leave_streams, lemma_draws_without_tape,
    lemma_program_is_run, lemma_reentry_reads_alike, lemma_run_in_parts, lemma_run_keeps_mode,
    outcome, reads_alike, run, stays, step, Event, Program,
};
use core::fmt::Debug;
use core::hash::Hash;
use core::marker::PhantomData;
use std::rc::Rc;
use vstd::prelude::*;
use vstd::string::StringExecFns;

verus! {

/// A generated value that can be shrunk.
pub trait ValueTree {
    type Value;

    /// `value` is the current value of the tree, as far as the tree says.
    open spec fn shows(&self, value: Self::Value) -> bool {
        true
    }

    /// The current value.
    fn current(&self) -> (r: Self::Value)
        ensures
            self.shows(r),
    ;

    /// Tries to make the value simpler; whether that changed it.
    fn simplify(&mut self) -> bool;

    /// Tries to undo part of a simplification; whether that changed the value.
    fn complicate(&mut self) -> bool;
}

/// A way to generate values.
pub trait Strategy {
    type Value;

    type Tree: ValueTree<Value = Self::Value>;

    /// Generating from a runner may leave it so and make this, or fail with
    /// this reason, as far as the strategy says.
    open spec fn generates(
        &self,
        before: RunnerView,
        after: RunnerView,
        made: Result<Self::Tree, String>,
    ) -> bool {
        true
    }

    /// Generates a value.
    fn new_tree(&self, runner: &mut Runner) -> (r: Result<Self::Tree, String>)
        requires
            old(runner).wf(),
        ensures
            final(runner).wf(),
            self.generates(old(runner)@, final(runner)@, r),
    ;
}

/// Another handle to the same value, by `std::rc::Rc::clone`. Claimed is that
/// both handles are to the same value.
#[verifier::external_body]
fn share<T>(rc: &Rc<T>) -> (r: Rc<T>)
    ensures
        r == *rc,
{
    Rc::clone(rc)
}

/// What `format!` with `{:?}` makes of a value. Nothing is claimed of it: it is
/// up to the type's implementation of `std::fmt::Debug`.
#[verifier::external_body]
fn debug_form<T: Debug>(value: &T) -> String {
    format!("{:?}", value)
}

/// The value's `Debug` may give this text.
pub closed spec fn shown_as<T: Debug>(value: &T, text: Seq<char>) -> bool {
    exists|s: String| #[trigger] call_ensures(debug_form::<T>, (value,), s) && s@ == text
}

/// What a value looks like.
fn debug_of<T: Debug>(value: &T) -> (r: String)
    ensures
        shown_as(value, r@),
{
    apply(debug_form::<T>, value)
}

/// Whether a call of a function with this stream goes to a stream of its own.
pub open spec fn call_enters(stream: Option<Seq<KeyElt>>, tape: StateView) -> bool {
    stream is Some && tape.mode != TapeMode::Off
}

/// What the output strategy of a function is given to generate the result of
/// a call from: fresh draws decided by the captured seed and the salt, and
/// the tape, with the per-argument stream entered if the function has one.
pub open spec fn call_start(
    stream: Option<Seq<KeyElt>>,
    seed: u64,
    salt: u64,
    tape: StateView,
) -> RunnerView {
    RunnerView {
        seed: call_seed(seed, salt),
        tape: if call_enters(stream, tape) {
            entered(tape, stream->0.push(KeyElt::Salt(salt)))
        } else {
            tape
        },
    }
}

/// The tape after a call, where `after` is how the output strategy left it: a
/// stream that was entered is left again.
pub open spec fn call_end(
    stream: Option<Seq<KeyElt>>,
    tape: StateView,
    after: StateView,
) -> StateView {
    if call_enters(stream, tape) {
        StateView { current: tape.current, ..after }
    } else {
        after
    }
}

/// A randomly generated pure function from `I` to the values of an
/// output strategy `S`. See the [module documentation](self).
pub struct RandomFn<I, S: Strategy> {
    output: Rc<S>,
    /// Entropy captured at generation time (a recorded draw, so it
    /// replays deterministically).
    seed: u64,
    /// The function's stream identity when generated under a live tape.
    stream: Option<StreamKey>,
    marker: PhantomData<I>,
}

impl<I, S: Strategy> RandomFn<I, S> {
    /// What results are generated by.
    pub closed spec fn output(&self) -> S {
        *self.output
    }

    /// The captured entropy.
    pub closed spec fn seed(&self) -> u64 {
        self.seed
    }

    /// The stream identity.
    pub closed spec fn stream(&self) -> Option<Seq<KeyElt>> {
        match self.stream {
            Some(key) => Some(key@),
            None => None,
        }
    }

    /// The same function.
    pub open spec fn same(&self, other: &Self) -> bool {
        &&& self.output() == other.output()
        &&& self.seed() == other.seed()
        &&& self.stream() == other.stream()
    }

    /// A call with this salt may leave the tape so and return this.
    pub open spec fn calls(
        &self,
        salt: u64,
        before: StateView,
        after: StateView,
        r: Result<S::Value, String>,
    ) -> bool {
        exists|end: RunnerView, made: Result<S::Tree, String>|
            {
                &&& #[trigger] self.output().generates(
                    call_start(self.stream(), self.seed(), salt, before),
                    end,
                    made,
                )
                &&& after == call_end(self.stream(), before, end.tape)
                &&& match made {
                    Ok(tree) => r matches Ok(value) && tree.shows(value),
                    Err(reason) => r == Err::<S::Value, String>(reason),
                }
            }
    }

    /// Apply the function to the argument with this salt.
    ///
    /// When generated under a live tape, the call goes to its per-argument
    /// stream: entering rewinds the stream's cursors, so repeated
    /// same-argument calls replay identically even on edited tapes. Draws
    /// that the tape does not answer are decided by (captured seed, salt).
    pub fn call_salted(&self, salt: u64, tape: &mut TapeState) -> (r: Result<S::Value, String>)
        requires
            old(tape).wf(),
        ensures
            final(tape).wf(),
            self.calls(salt, old(tape)@, final(tape)@, r),
    {
        let ghost st = tape@;
        let prev: Option<StreamKey> = match &self.stream {
            Some(stream) => {
                if tape.is_on() {
                    let mut key = copy_key(stream);
                    key.push(KeyElt::Salt(salt));
                    Some(tape.enter_stream(key))
                } else {
                    None
                }
            },
            None => None,
        };
        let mut runner = Runner::from_seed(derive_seed(self.seed, salt), TapeState::default());
        core::mem::swap(tape, &mut runner.tape);
        assert(runner@ =~= call_start(self.stream(), self.seed(), salt, st));
        let result = self.output.new_tree(&mut runner);
        let ghost end = runner@;
        core::mem::swap(tape, &mut runner.tape);
        if let Some(prev) = prev {
            tape.exit_stream(prev);
        }
        let ghost made = result;
        assert(tape@ == call_end(self.stream(), st, end.tape));
        assert(self.output().generates(
            call_start(self.stream(), self.seed(), salt, st),
            end,
            made,
        ));
        match result {
            Ok(tree) => {
                let value = tree.current();
                assert(made == Ok::<S::Tree, String>(tree));
                Ok(value)
            },
            Err(reason) => Err(reason),
        }
    }

    /// The table of observed calls, which is what a failure report shows of
    /// the function.
    pub fn debug_text(&self, observed: &Observed) -> (r: String)
        ensures
            r@ == table_text(observed@),
    {
        observed.text()
    }
}

impl<I: Hash, S: Strategy> RandomFn<I, S> {
    /// A call with this argument may leave the tape so and return this.
    pub open spec fn called(
        &self,
        arg: &I,
        before: StateView,
        after: StateView,
        r: Result<S::Value, String>,
    ) -> bool {
        exists|salt: u64| #[trigger] hashes_to(arg, salt) && self.calls(salt, before, after, r)
    }
}

/// The table after a call that gave this value.
pub open spec fn noted<I: Debug, V: Debug>(
    before: Seq<Row>,
    arg: &I,
    value: &V,
    after: Seq<Row>,
) -> bool {
    exists|row: Row|
        {
            &&& shown_as(arg, row.arg)
            &&& shown_as(value, row.out)
            &&& after == #[trigger] row_set(before, row)
        }
}

impl<I: Hash + Debug, S: Strategy> RandomFn<I, S> where S::Value: Debug {
    /// Apply the function, and note the call in its table. Pure within a test
    /// case: equal arguments (under `Hash`) map to equal results. Fails where
    /// the output strategy fails to generate a value.
    pub fn call(&self, arg: &I, tape: &mut TapeState, observed: &mut Observed) -> (r: Result<
        S::Value,
        String,
    >)
        requires
            old(tape).wf(),
        ensures
            final(tape).wf(),
            self.called(arg, old(tape)@, final(tape)@, r),
            match r {
                Ok(value) => noted(old(observed)@, arg, &value, final(observed)@),
                Err(_) => *final(observed) == *old(observed),
            },
    {
        let salt: u64 = salt_of(arg);
        let result = self.call_salted(salt, tape);
        match &result {
            Ok(value) => {
                let ghost before = observed@;
                let row = (debug_of(arg), debug_of(value));
                let ghost noted_row = Row { arg: row.0@, out: row.1@ };
                observed.insert(row.0, row.1);
                assert(observed@ == row_set(before, noted_row));
            },
            Err(_) => {},
        }
        result
    }
}

impl<I, S: Strategy> Clone for RandomFn<I, S> {
    fn clone(&self) -> (r: Self)
        ensures
            r.same(self),
    {
        RandomFn {
            output: share(&self.output),
            seed: self.seed,
            stream: match &self.stream {
                Some(key) => Some(copy_key(key)),
                None => None,
            },
            marker: PhantomData,
        }
    }
}

/// The strategy returned by [`function`].
#[must_use]
pub struct Function<I, S> {
    output: Rc<S>,
    marker: PhantomData<I>,
}

impl<I, S> Function<I, S> {
    /// What results are generated by.
    pub closed spec fn output(&self) -> S {
        *self.output
    }
}

/// What a strategy of functions looks like, given what its output strategy
/// looks like.
pub open spec fn function_text(output: Seq<char>) -> Seq<char> {
    "Function { output: "@ + output + " }"@
}

/// What a strategy of functions looks like, given what its output strategy
/// looks like.
pub fn describe_function(output: &str) -> (r: String)
    ensures
        r@ == function_text(output@),
{
    let mut s = String::from_str("Function { output: ");
    s.append(output);
    s.append(" }");
    s
}

impl<I, S: Debug> Function<I, S> {
    /// What the strategy looks like.
    pub fn debug_text(&self) -> (r: String)
        ensures
            exists|output: Seq<char>|
                shown_as(&self.output(), output) && r@ == #[trigger] function_text(output),
    {
        let output = debug_of(&*self.output);
        describe_function(output.as_str())
    }
}

/// The value tree for [`Function`]. A function value cannot be walked, so
/// `simplify`/`complicate` are inert; the function shrinks through its
/// recorded streams instead.
pub struct FunctionValueTree<I, S: Strategy> {
    value: RandomFn<I, S>,
}

impl<I, S: Strategy> FunctionValueTree<I, S> {
    /// The generated function.
    pub closed spec fn value(&self) -> RandomFn<I, S> {
        self.value
    }
}

impl<I: Hash + Debug, S: Strategy> ValueTree for FunctionValueTree<I, S> {
    type Value = RandomFn<I, S>;

    open spec fn shows(&self, value: RandomFn<I, S>) -> bool {
        value.same(&self.value())
    }

    fn current(&self) -> RandomFn<I, S> {
        self.value.clone()
    }

    fn simplify(&mut self) -> (r: bool)
        ensures
            !r,
            *final(self) == *old(self),
    {
        false
    }

    fn complicate(&mut self) -> (r: bool)
        ensures
            !r,
            *final(self) == *old(self),
    {
        false
    }
}

/// No sub-stream key is left under the current stream.
pub open spec fn splits_used_up(tape: StateView) -> bool {
    tape.mode != TapeMode::Off && tape.split_counters[tape.current] >= u32::MAX
}

impl<I: Hash + Debug, S: Strategy> Strategy for Function<I, S> {
    type Value = RandomFn<I, S>;

    type Tree = FunctionValueTree<I, S>;

    /// The captured seed is an ordinary recorded draw, so a tape replay
    /// reproduces it; the stream identity is a per-run split ordinal,
    /// deterministic for the same reason. Generation fails only where the
    /// ordinals are used up.
    open spec fn generates(
        &self,
        before: RunnerView,
        after: RunnerView,
        made: Result<FunctionValueTree<I, S>, String>,
    ) -> bool {
        let (drawn, seed) = random_drawn(before);
        if splits_used_up(drawn.tape) {
            made is Err && after == drawn
        } else {
            &&& made is Ok
            &&& made->Ok_0.value().output() == self.output()
            &&& made->Ok_0.value().seed() == seed
            &&& if drawn.tape.mode == TapeMode::Off {
                made->Ok_0.value().stream() is None && after == drawn
            } else {
                &&& made->Ok_0.value().stream() == Some(next_split(drawn.tape))
                &&& after == RunnerView { tape: split_allocated(drawn.tape), ..drawn }
            }
        }
    }

    fn new_tree(&self, runner: &mut Runner) -> (r: Result<FunctionValueTree<I, S>, String>) {
        let seed: u64 = runner.random();
        let stream: Option<StreamKey> = if runner.tape.is_on() {
            match runner.tape.try_split() {
                Some(key) => Some(key),
                None => {
                    return Err(String::from_str("no sub-stream is left for another function"));
                },
            }
        } else {
            None
        };
        Ok(
            FunctionValueTree {
                value: RandomFn {
                    output: share(&self.output),
                    seed,
                    stream,
                    marker: PhantomData,
                },
            },
        )
    }
}

/// Generate pure pseudo-random functions from `I` (anything `Hash +
/// Debug`) to the values of `output`. See the
/// [module documentation](self).
pub fn function<I: Hash + Debug, S: Strategy>(output: S) -> (r: Function<I, S>)
    ensures
        r.output() == output,
{
    Function { output: Rc::new(output), marker: PhantomData }
}

/// Generation from the two runners finds the same: fresh draws, and what the
/// tape answers.
pub open spec fn starts_alike(a: RunnerView, b: RunnerView) -> bool {
    &&& a.seed == b.seed
    &&& a.tape.mode == b.tape.mode
    &&& a.tape.suppress_raw == b.tape.suppress_raw
    &&& a.tape.mode != TapeMode::Off ==> reads_alike(a.tape, b.tape)
}

/// The two generated the same: the same value, whichever they show, or the
/// same reason for there being none.
pub open spec fn made_alike<T: ValueTree>(a: Result<T, String>, b: Result<T, String>) -> bool {
    match (a, b) {
        (Ok(t), Ok(u)) => forall|v: T::Value, w: T::Value| #[trigger]
            t.shows(v) && #[trigger] u.shows(w) ==> v == w,
        (Err(x), Err(y)) => x == y,
        _ => false,
    }
}

/// What the strategy generates is decided by what it draws.
pub open spec fn decided_by_draws<S: Strategy>(s: &S) -> bool {
    forall|
        b: RunnerView,
        a: RunnerView,
        m: Result<S::Tree, String>,
        c: RunnerView,
        d: RunnerView,
        n: Result<S::Tree, String>,
    |
        #[trigger] s.generates(b, a, m) && #[trigger] s.generates(c, d, n) && starts_alike(b, c)
            ==> made_alike(m, n)
}

/// What the strategy does to the tape is a run.
pub open spec fn runs_on_tape<S: Strategy>(s: &S) -> bool {
    forall|b: RunnerView, a: RunnerView, m: Result<S::Tree, String>| #[trigger]
        s.generates(b, a, m) ==> exists|events: Seq<Event>| a.tape == (#[trigger] run(
            b.tape,
            events,
        )).0
}

/// A call that is made again, after whatever came in between, finds what the
/// first call found.
proof fn lemma_calls_start_alike(
    stream: Option<Seq<KeyElt>>,
    seed: u64,
    salt: u64,
    st: StateView,
    during: Seq<Event>,
    between: Seq<Event>,
)
    requires
        stream is Some || st.mode == TapeMode::Off,
    ensures
        ({
            let start = call_start(stream, seed, salt, st);
            let mid = call_end(stream, st, run(start.tape, during).0);
            starts_alike(start, call_start(stream, seed, salt, run(mid, between).0))
        }),
{
    let start = call_start(stream, seed, salt, st);
    let after = run(start.tape, during).0;
    let mid = call_end(stream, st, after);
    lemma_run_keeps_mode(start.tape, during);
    lemma_run_keeps_mode(mid, between);
    if call_enters(stream, st) {
        let key = stream->0.push(KeyElt::Salt(salt));
        let exit = seq![Event::Exit { key: st.current }];
        let events = during + (exit + between);
        lemma_run_in_parts(start.tape, during, exit + between);
        lemma_run_in_parts(after, exit, between);
        assert(run(after, exit).0 == mid) by {
            reveal_with_fuel(run, 2);
            assert(step(after, exit[0]).0 == mid);
        }
        lemma_reentry_reads_alike(st, key, events);
    }
}

/// Pure within a test case: a function, or a clone of it, that is called again
/// with the same salt returns the same, whatever run came in between: draws,
/// which may make replayed choices conform to constraints of their own, spans,
/// and calls of this and other functions. This takes an output strategy that
/// works on the tape in no other way and whose values are decided by what it
/// draws, and a function with a stream of its own wherever there is a tape,
/// as every function has that was generated on it.
pub proof fn lemma_equal_salts_equal_results<I, S: Strategy>(
    f: &RandomFn<I, S>,
    g: &RandomFn<I, S>,
    salt: u64,
    st: StateView,
    mid: StateView,
    r: Result<S::Value, String>,
    between: Seq<Event>,
    end: StateView,
    q: Result<S::Value, String>,
)
    requires
        f.same(g),
        decided_by_draws(&f.output()),
        runs_on_tape(&f.output()),
        f.stream() is Some || st.mode == TapeMode::Off,
        f.calls(salt, st, mid, r),
        g.calls(salt, run(mid, between).0, end, q),
    ensures
        q == r,
{
    let (stream, seed) = (f.stream(), f.seed());
    let start = call_start(stream, seed, salt, st);
    let later = run(mid, between).0;
    let again = call_start(stream, seed, salt, later);
    let (e, m) = choose|e: RunnerView, m: Result<S::Tree, String>|
        {
            &&& #[trigger] f.output().generates(start, e, m)
            &&& mid == call_end(stream, st, e.tape)
            &&& match m {
                Ok(tree) => r matches Ok(value) && tree.shows(value),
                Err(reason) => r == Err::<S::Value, String>(reason),
            }
        };
    let (d, n) = choose|d: RunnerView, n: Result<S::Tree, String>|
        {
            &&& #[trigger] g.output().generates(again, d, n)
            &&& end == call_end(stream, later, d.tape)
            &&& match n {
                Ok(tree) => q matches Ok(value) && tree.shows(value),
                Err(reason) => q == Err::<S::Value, String>(reason),
            }
        };
    let during = choose|during: Seq<Event>| e.tape == (#[trigger] run(start.tape, during)).0;
    lemma_calls_start_alike(stream, seed, salt, st, during, between);
    assert(made_alike(m, n));
}

/// Pure within a test case: arguments that no hash tells apart get the same
/// result from a function and its clones, whatever run came in between.
pub proof fn lemma_equal_arguments_equal_results<I: Hash, S: Strategy>(
    f: &RandomFn<I, S>,
    g: &RandomFn<I, S>,
    a: &I,
    b: &I,
    st: StateView,
    mid: StateView,
    r: Result<S::Value, String>,
    between: Seq<Event>,
    end: StateView,
    q: Result<S::Value, String>,
)
    requires
        f.same(g),
        decided_by_draws(&f.output()),
        runs_on_tape(&f.output()),
        f.stream() is Some || st.mode == TapeMode::Off,
        hash_alike(a, b),
        f.called(a, st, mid, r),
        g.called(b, run(mid, between).0, end, q),
    ensures
        q == r,
{
    let s = choose|s: u64| #[trigger] hashes_to(a, s) && f.calls(s, st, mid, r);
    let t = choose|t: u64| #[trigger]
        hashes_to(b, t) && g.calls(t, run(mid, between).0, end, q);
    lemma_equal_salts_equal_results(f, g, s, st, mid, r, between, end, q);
}

/// A generated function has a stream of its own wherever there is a tape, from
/// its generation to the end of the test case.
pub proof fn lemma_generated_function_has_stream<I: Hash + Debug, S: Strategy>(
    strategy: &Function<I, S>,
    before: RunnerView,
    after: RunnerView,
    tree: FunctionValueTree<I, S>,
    events: Seq<Event>,
)
    requires
        strategy.generates(before, after, Ok(tree)),
    ensures
        tree.value().output() == strategy.output(),
        tree.value().stream() is Some || run(after.tape, events).0.mode == TapeMode::Off,
{
    lemma_run_keeps_mode(after.tape, events);
}

/// The strategy draws by a program that its fresh draws decide, and makes of
/// the choices that were used what `value` says.
pub open spec fn draws_by<S: Strategy>(
    s: &S,
    program: spec_fn(Seq<u8>, nat) -> Program,
    steps: nat,
    value: spec_fn(Seq<u8>, nat, Seq<ChoiceView>) -> Result<S::Value, String>,
) -> bool {
    forall|b: RunnerView, a: RunnerView, m: Result<S::Tree, String>| #[trigger]
        s.generates(b, a, m) ==> {
            let p = program(b.seed, b.tape.suppress_raw);
            let (tape, used) = outcome(b.tape, p, steps);
            let made = value(b.seed, b.tape.suppress_raw, used);
            &&& stays(p)
            &&& a.tape == tape
            &&& match m {
                Ok(tree) => made is Ok && forall|v: S::Value| #[trigger]
                    tree.shows(v) ==> v == made->Ok_0,
                Err(reason) => made == Err::<S::Value, String>(reason),
            }
        }
}

/// A strategy that draws by a program is one whose functions are pure.
pub proof fn lemma_drawing_decides<S: Strategy>(
    s: &S,
    program: spec_fn(Seq<u8>, nat) -> Program,
    steps: nat,
    value: spec_fn(Seq<u8>, nat, Seq<ChoiceView>) -> Result<S::Value, String>,
)
    requires
        draws_by(s, program, steps, value),
    ensures
        decided_by_draws(s),
        runs_on_tape(s),
{
    assert forall|b: RunnerView, a: RunnerView, m: Result<S::Tree, String>| #[trigger]
        s.generates(b, a, m) implies exists|events: Seq<Event>| a.tape == (#[trigger] run(
        b.tape,
        events,
    )).0 by {
        let p = program(b.seed, b.tape.suppress_raw);
        let events = lemma_program_is_run(b.tape, p, 0, Seq::empty(), steps);
        assert(a.tape == run(b.tape, events).0);
    }
    assert forall|
        b: RunnerView,
        a: RunnerView,
        m: Result<S::Tree, String>,
        c: RunnerView,
        d: RunnerView,
        n: Result<S::Tree, String>,
    |
        #[trigger] s.generates(b, a, m) && #[trigger] s.generates(c, d, n) && starts_alike(
            b,
            c,
        ) implies made_alike(m, n) by {
        let p = program(b.seed, b.tape.suppress_raw);
        if b.tape.mode == TapeMode::Off {
            lemma_draws_without_tape(b.tape, c.tape, p, 0, Seq::empty(), steps);
        } else {
            lemma_draws_decided_by_input(b.tape, c.tape, p, 0, Seq::empty(), steps);
        }
        assert(outcome(b.tape, p, steps).1 == outcome(c.tape, p, steps).1);
    }
}

/// Different arguments get independent results: whatever the tape does, the
/// output strategy is started on a source of fresh draws that the captured
/// entropy and the salt decide, a different one for each salt and for each
/// entropy.
pub proof fn lemma_calls_start_apart(
    stream: Option<Seq<KeyElt>>,
    other: Option<Seq<KeyElt>>,
    a: u64,
    b: u64,
    s: u64,
    t: u64,
    st: StateView,
    later: StateView,
)
    ensures
        s != t ==> call_start(stream, a, s, st).seed != call_start(stream, a, t, later).seed,
        a != b ==> call_start(stream, a, s, st).seed != call_start(other, b, s, later).seed,
        call_start(stream, a, s, st).seed == call_start(other, a, s, later).seed,
{
    if call_seed(a, s) == call_seed(a, t) {
        lemma_salts_separate_calls(a, s, t);
    }
    if call_seed(a, s) == call_seed(b, s) {
        lemma_entropy_separates_functions(a, b, s);
    }
}

/// Where a call's draws go. With the tape on, a function with a stream of its
/// own has each argument's draws on the sub-stream of that argument's salt, read
/// and written from its start; otherwise the tape is as it was.
pub proof fn lemma_calls_have_streams(
    stream: Option<Seq<KeyElt>>,
    seed: u64,
    salt: u64,
    st: StateView,
)
    ensures
        ({
            let tape = call_start(stream, seed, salt, st).tape;
            &&& st.mode == TapeMode::Off || stream is None ==> tape == st
            &&& st.mode != TapeMode::Off && stream is Some ==> {
                &&& tape.current.len() == stream->0.len() + 1
                &&& forall|i: int| 0 <= i < stream->0.len() ==> tape.current[i] == stream->0[i]
                &&& tape.current.last() == KeyElt::Salt(salt)
                &&& tape.streams[tape.current].rpos == 0
                &&& tape.streams[tape.current].wpos == 0
                &&& tape.mode == st.mode
                &&& tape.spans == st.spans
                &&& tape.overrun == st.overrun
            }
        }),
{
}

/// Calls of one function with different salts, and of functions with different
/// streams, draw on different streams.
pub proof fn lemma_calls_on_different_streams(
    f: Seq<KeyElt>,
    g: Seq<KeyElt>,
    seed: u64,
    s: u64,
    t: u64,
    st: StateView,
    later: StateView,
)
    requires
        st.mode != TapeMode::Off,
        later.mode != TapeMode::Off,
        f != g || s != t,
    ensures
        call_start(Some(f), seed, s, st).tape.current != call_start(
            Some(g),
            seed,
            t,
            later,
        ).tape.current,
{
    let x = f.push(KeyElt::Salt(s));
    let y = g.push(KeyElt::Salt(t));
    if x == y {
        assert(x.drop_last() =~= f);
        assert(y.drop_last() =~= g);
        assert(x.last() == y.last());
    }
}

/// After a call that had a stream, draws go where they went before it, and
/// everything else is as the output strategy left it. A call without one leaves
/// the tape as the output strategy did.
pub proof fn lemma_call_end(stream: Option<Seq<KeyElt>>, st: StateView, after: StateView)
    ensures
        ({
            let end = call_end(stream, st, after);
            &&& st.mode != TapeMode::Off && stream is Some ==> end.current == st.current
            &&& st.mode == TapeMode::Off || stream is None ==> end == after
            &&& end.mode == after.mode
            &&& end.streams == after.streams
            &&& end.overrun == after.overrun
            &&& end.suppress_raw == after.suppress_raw
            &&& end.span_stack == after.span_stack
            &&& end.spans == after.spans
            &&& end.split_counters == after.split_counters
        }),
{
}

/// A call returns the value that its output strategy generated, or the reason
/// for which it generated none, from the runner that the call started.
pub proof fn lemma_call_gives_what_was_generated<I, S: Strategy>(
    f: &RandomFn<I, S>,
    salt: u64,
    st: StateView,
    mid: StateView,
    r: Result<S::Value, String>,
)
    requires
        f.calls(salt, st, mid, r),
    ensures
        exists|end: RunnerView, made: Result<S::Tree, String>|
            {
                &&& #[trigger] f.output().generates(
                    call_start(f.stream(), f.seed(), salt, st),
                    end,
                    made,
                )
                &&& made is Ok <==> r is Ok
                &&& made is Ok ==> made->Ok_0.shows(r->Ok_0)
                &&& made is Err ==> made->Err_0 == r->Err_0
                &&& mid.streams == end.tape.streams
                &&& mid.spans == end.tape.spans
                &&& mid.overrun == end.tape.overrun
            },
{
    let (end, made) = choose|end: RunnerView, made: Result<S::Tree, String>|
        {
            &&& #[trigger] f.output().generates(
                call_start(f.stream(), f.seed(), salt, st),
                end,
                made,
            )
            &&& mid == call_end(f.stream(), st, end.tape)
            &&& match made {
                Ok(tree) => r matches Ok(value) && tree.shows(value),
                Err(reason) => r == Err::<S::Value, String>(reason),
            }
        };
    assert(f.output().generates(call_start(f.stream(), f.seed(), salt, st), end, made));
}

/// A call hashes its argument, and generates with the salt that came of it.
pub proof fn lemma_call_uses_hash_of_argument<I: Hash, S: Strategy>(
    f: &RandomFn<I, S>,
    arg: &I,
    st: StateView,
    mid: StateView,
    r: Result<S::Value, String>,
)
    requires
        f.called(arg, st, mid, r),
    ensures
        exists|salt: u64, end: RunnerView, made: Result<S::Tree, String>|
            {
                &&& #[trigger] hashes_to(arg, salt)
                &&& #[trigger] f.output().generates(
                    call_start(f.stream(), f.seed(), salt, st),
                    end,
                    made,
                )
                &&& made is Ok <==> r is Ok
                &&& made is Ok ==> made->Ok_0.shows(r->Ok_0)
            },
{
    let salt = choose|salt: u64| #[trigger] hashes_to(arg, salt) && f.calls(salt, st, mid, r);
    lemma_call_gives_what_was_generated(f, salt, st, mid, r);
    let (end, made) = choose|end: RunnerView, made: Result<S::Tree, String>|
        {
            &&& #[trigger] f.output().generates(
                call_start(f.stream(), f.seed(), salt, st),
                end,
                made,
            )
            &&& made is Ok <==> r is Ok
            &&& made is Ok ==> made->Ok_0.shows(r->Ok_0)
        };
    assert(hashes_to(arg, salt));
    assert(f.output().generates(call_start(f.stream(), f.seed(), salt, st), end, made));
}

/// A call that gave a value leaves a table in which what the argument looks like
/// stands with what the value looks like; all other arguments stand as they did,
/// and the table stays in order.
pub proof fn lemma_noted_call<I: Debug, V: Debug>(
    before: Seq<Row>,
    arg: &I,
    value: &V,
    after: Seq<Row>,
    other: Seq<char>,
)
    requires
        noted(before, arg, value, after),
        sorted(before),
    ensures
        sorted(after),
        exists|a: Seq<char>, v: Seq<char>|
            {
                &&& #[trigger] shown_as(arg, a)
                &&& #[trigger] shown_as(value, v)
                &&& out_of(after, a) == Some(v)
                &&& other != a ==> out_of(after, other) == out_of(before, other)
            },
{
    let row = choose|row: Row|
        {
            &&& shown_as(arg, row.arg)
            &&& shown_as(value, row.out)
            &&& after == #[trigger] row_set(before, row)
        };
    lemma_row_set(before, row, row.arg);
    lemma_row_set(before, row, other);
    assert(shown_as(arg, row.arg));
    assert(shown_as(value, row.out));
}

/// A function and its clones have the same output strategy, entropy and stream,
/// and what one of them may return the other may.
pub proof fn lemma_clones_call_alike<I, S: Strategy>(
    f: &RandomFn<I, S>,
    g: &RandomFn<I, S>,
    salt: u64,
    st: StateView,
    mid: StateView,
    r: Result<S::Value, String>,
)
    requires
        f.same(g),
    ensures
        f.output() == g.output(),
        f.seed() == g.seed(),
        f.stream() == g.stream(),
        f.calls(salt, st, mid, r) <==> g.calls(salt, st, mid, r),
{
}

/// A generated function captures the number that its generation drew. With the
/// tape on, and raw draws not suppressed, that is the raw number which the
/// generation left on the current stream: the next one of the input, and where
/// there is none a fresh one. Otherwise it is a fresh one, and the tape is left
/// alone.
pub proof fn lemma_generation_captures_its_draw<I: Hash + Debug, S: Strategy>(
    strategy: &Function<I, S>,
    before: RunnerView,
    after: RunnerView,
    tree: FunctionValueTree<I, S>,
)
    requires
        strategy.generates(before, after, Ok(tree)),
        before.tape.streams[before.tape.current].wpos
            <= before.tape.streams[before.tape.current].written.len(),
    ensures
        ({
            let st = before.tape;
            let (a, b) = (st.streams[st.current], after.tape.streams[st.current]);
            let seed = tree.value().seed();
            &&& after.seed == after_draw(before.seed)
            &&& if st.mode != TapeMode::Off && st.suppress_raw == 0 {
                &&& b.written.len() > a.wpos
                &&& b.written[a.wpos as int] == (ChoiceView::RawU64 { value: seed })
                &&& b.wpos == a.wpos + 1
                &&& seed == (if st.mode == TapeMode::Replaying && a.known && a.rpos < a.input.len()
                    && a.input[a.rpos as int] is RawU64 {
                    a.input[a.rpos as int]->RawU64_value
                } else {
                    fresh_draw(before.seed)
                })
            } else {
                seed == fresh_draw(before.seed) && after.tape.streams == st.streams
            }
        }),
{
    lemma_raw_draw(before.tape, fresh_draw(before.seed));
}

/// Generations that draw different numbers make different functions: no call of
/// one starts where a call of the other with the same argument starts.
pub proof fn lemma_generations_differ<I: Hash + Debug, S: Strategy>(
    f: &Function<I, S>,
    g: &Function<I, S>,
    a: RunnerView,
    b: RunnerView,
    c: RunnerView,
    d: RunnerView,
    tree: FunctionValueTree<I, S>,
    other: FunctionValueTree<I, S>,
    salt: u64,
    st: StateView,
)
    requires
        f.generates(a, b, Ok(tree)),
        g.generates(c, d, Ok(other)),
        a.tape.mode == TapeMode::Off || a.tape.mode == TapeMode::Recording,
        c.tape.mode == TapeMode::Off || c.tape.mode == TapeMode::Recording,
        fresh_draw(a.seed) != fresh_draw(c.seed),
    ensures
        tree.value().seed() != other.value().seed(),
        call_start(tree.value().stream(), tree.value().seed(), salt, st).seed != call_start(
            other.value().stream(),
            other.value().seed(),
            salt,
            st,
        ).seed,
{
    lemma_calls_start_apart(
        tree.value().stream(),
        other.value().stream(),
        tree.value().seed(),
        other.value().seed(),
        salt,
        salt,
        st,
        st,
    );
}

/// A function that is generated on a tape gets the next sub-stream key under the
/// current stream, and no other function generated there gets it; without a tape
/// it gets none.
pub proof fn lemma_generation_takes_a_key<I: Hash + Debug, S: Strategy>(
    strategy: &Function<I, S>,
    before: RunnerView,
    after: RunnerView,
    tree: FunctionValueTree<I, S>,
)
    requires
        strategy.generates(before, after, Ok(tree)),
    ensures
        tree.value().output() == strategy.output(),
        ({
            let st = before.tape;
            let n = st.split_counters[st.current];
            let stream = tree.value().stream();
            &&& after.tape.current == st.current
            &&& after.tape.mode == st.mode
            &&& st.mode == TapeMode::Off ==> stream is None && after.tape == st
            &&& st.mode != TapeMode::Off ==> {
                &&& stream is Some
                &&& stream->0 == st.current.push(KeyElt::Split(n as u32))
                &&& n < u32::MAX
                &&& after.tape.split_counters == st.split_counters.insert(st.current, n + 1)
            }
        }),
{
}

/// A call leaves draws where they went before it.
pub proof fn lemma_call_returns(
    stream: Option<Seq<KeyElt>>,
    seed: u64,
    salt: u64,
    st: StateView,
    program: Program,
    steps: nat,
)
    requires
        stays(program),
    ensures
        ({
            let start = call_start(stream, seed, salt, st);
            let after = outcome(start.tape, program, steps).0;
            call_end(stream, st, after).current == st.current
        }),
{
    let start = call_start(stream, seed, salt, st);
    lemma_draws_leave_streams(start.tape, program, 0, Seq::empty(), steps);
}

} // verus!
