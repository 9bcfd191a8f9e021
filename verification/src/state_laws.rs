//! What holds of whole runs: replaying a recording reproduces it, calls are
//! pure, and orphans are adopted at most once.
use crate::choice::{same_choice, ChoiceView};
use crate::keys::{elt_number, is_salted, key_lt, lemma_key_lt, lemma_salted_keys, KeyElt};
use crate::state::{
    adopted, advanced, collects, current_stream, entered, forced_drawn, forced_recorded,
    fresh_stream, is_donor, is_first_donor, known_stream, next_input, next_split, popped,
    recorded, replay_streams, replaying, rt_recorded, span_closed, span_opened, split_allocated,
    started, RtView, StateView, TapeMode,
};
use crate::tape::{stream_deleted, StreamView, TapeView};
use crate::wire::{parse_tape, tape_bytes};
use crate::wire_laws::{lemma_tape_round_trip, tape_fits};
use vstd::prelude::*;

verus! {

/// One thing that a run does.
pub enum Event {
    /// A draw: takes the next input choice if its kind fits, made to conform
    /// to the draw's own constraints, and otherwise the `fresh` one; records
    /// what it took.
    Draw {
        fresh: ChoiceView,
        kind: spec_fn(ChoiceView) -> bool,
        conform: spec_fn(ChoiceView) -> ChoiceView,
    },
    /// A boolean whose value cannot be chosen.
    Forced { value: bool },
    /// A boolean that is forced, but that replay may change.
    DrawForced { forced: bool },
    /// Entering a stream, as a call of a generated function does.
    Enter { key: Seq<KeyElt> },
    /// Going back to a stream.
    Exit { key: Seq<KeyElt> },
    StartSpan,
    EndSpan,
    /// Handing out a sub-stream key.
    Split,
}

/// The choice that the next draw takes.
pub open spec fn drawn(
    st: StateView,
    fresh: ChoiceView,
    kind: spec_fn(ChoiceView) -> bool,
    conform: spec_fn(ChoiceView) -> ChoiceView,
) -> (StateView, ChoiceView) {
    match popped(st, next_input(st) is Some && kind(next_input(st)->0)) {
        (next, Some(c)) => (recorded(next, conform(c)), conform(c)),
        (next, None) => (recorded(next, fresh), fresh),
    }
}

/// What one event leaves, and the choice it used, if any.
pub open spec fn step(st: StateView, event: Event) -> (StateView, Seq<ChoiceView>) {
    match event {
        Event::Draw { fresh, kind, conform } => {
            let (next, c) = drawn(st, fresh, kind, conform);
            (next, seq![c])
        },
        Event::Forced { value } => (
            forced_recorded(st, value),
            seq![ChoiceView::Bool { value }],
        ),
        Event::DrawForced { forced } => {
            let (next, value) = forced_drawn(st, forced);
            (next, seq![ChoiceView::Bool { value }])
        },
        Event::Enter { key } => (entered(st, key), Seq::empty()),
        Event::Exit { key } => (StateView { current: key, ..st }, Seq::empty()),
        Event::StartSpan => (span_opened(st), Seq::empty()),
        Event::EndSpan => (span_closed(st), Seq::empty()),
        Event::Split => (split_allocated(st), Seq::empty()),
    }
}

/// What a run leaves, and the choices it used, in order.
pub open spec fn run(st: StateView, events: Seq<Event>) -> (StateView, Seq<ChoiceView>)
    decreases events.len(),
{
    if events.len() == 0 {
        (st, Seq::empty())
    } else {
        let (next, first) = step(st, events[0]);
        let (last, rest) = run(next, events.drop_first());
        (last, first + rest)
    }
}

/// The two events differ in what they would draw fresh at most.
pub open spec fn same_shape(a: Event, b: Event) -> bool {
    match (a, b) {
        (Event::Draw { kind: k, conform: f, .. }, Event::Draw { kind, conform, .. }) => k == kind
            && f == conform,
        _ => a == b,
    }
}

/// The two runs differ in what they would draw fresh at most.
pub open spec fn same_shapes(a: Seq<Event>, b: Seq<Event>) -> bool {
    a.len() == b.len() && forall|i: int| 0 <= i < a.len() ==> same_shape(#[trigger] a[i], b[i])
}

/// The choice that a recording run records for this event.
pub open spec fn records(event: Event) -> Option<ChoiceView> {
    match event {
        Event::Draw { fresh, .. } => Some(fresh),
        Event::Forced { value } => Some(ChoiceView::Bool { value }),
        Event::DrawForced { forced } => Some(ChoiceView::Bool { value: forced }),
        _ => None,
    }
}

/// What this event records in a recording run is what the finished run `end`
/// holds at that place, and a draw takes what it draws itself as it is.
pub open spec fn kept_step(st: StateView, event: Event, end: StateView) -> bool {
    &&& records(event) matches Some(c) ==> {
        let place = current_stream(st).wpos;
        let written = end.streams[st.current].written;
        place < written.len() && written[place as int] == c
    }
    &&& event matches Event::Draw { fresh, kind, conform } ==> kind(fresh) && conform(fresh)
        == fresh
}

/// Everything that the run records is what the finished run `end` holds at
/// that place: a call that is made again draws what it drew before.
pub open spec fn kept(st: StateView, events: Seq<Event>, end: StateView) -> bool
    decreases events.len(),
{
    events.len() == 0 || (kept_step(st, events[0], end) && kept(
        step(st, events[0]).0,
        events.drop_first(),
        end,
    ))
}

/// A stream that the finished run's tape holds.
pub open spec fn on_tape(end: StateView, k: Seq<KeyElt>) -> bool {
    k.len() == 0 || end.streams[k].written.len() > 0
}

/// A recording run `r` and a replay `p` of what it recorded are at the same
/// point; `end` is the finished recording.
spec fn in_step(r: StateView, p: StateView, end: StateView) -> bool {
    &&& r.mode == TapeMode::Recording
    &&& p.mode == TapeMode::Replaying
    &&& r.current == p.current
    &&& r.span_stack == p.span_stack
    &&& r.spans == p.spans
    &&& r.split_counters == p.split_counters
    &&& !p.overrun
    &&& forall|k: Seq<KeyElt>|
        {
            &&& (#[trigger] p.streams[k]).written == r.streams[k].written
            &&& p.streams[k].wpos == r.streams[k].wpos
        }
    &&& forall|k: Seq<KeyElt>| #[trigger]
        on_tape(end, k) ==> {
            &&& p.streams[k].known
            &&& p.streams[k].input == end.streams[k].written
            &&& p.streams[k].rpos == p.streams[k].wpos
        }
}

proof fn lemma_step_in_step(r: StateView, p: StateView, end: StateView, a: Event, b: Event)
    requires
        in_step(r, p, end),
        same_shape(a, b),
        kept_step(r, a, end),
    ensures
        in_step(step(r, a).0, step(p, b).0, end),
        step(r, a).1 == step(p, b).1,
{
    let k = r.current;
    if records(a) is Some {
        let c = records(a)->0;
        assert(on_tape(end, k));
        assert(next_input(p) == Some(c));
        let rt = current_stream(p);
        assert(p.streams[k].written == r.streams[k].written);
        assert(step(r, a).0 == recorded(r, c));
        assert(step(p, b).0 == recorded(advanced(p), c));
        assert forall|j: Seq<KeyElt>|
            {
                &&& (#[trigger] step(p, b).0.streams[j]).written == step(r, a).0.streams[j].written
                &&& step(p, b).0.streams[j].wpos == step(r, a).0.streams[j].wpos
            } by {
            assert(p.streams[j].written == r.streams[j].written);
        }
        assert forall|j: Seq<KeyElt>| #[trigger] on_tape(end, j) implies {
            &&& step(p, b).0.streams[j].known
            &&& step(p, b).0.streams[j].input == end.streams[j].written
            &&& step(p, b).0.streams[j].rpos == step(p, b).0.streams[j].wpos
        } by {}
    } else {
        match a {
            Event::Enter { key } => {
                assert(adopted(r, key) is None);
                assert forall|j: Seq<KeyElt>|
                    {
                        &&& (#[trigger] step(p, b).0.streams[j]).written == step(
                            r,
                            a,
                        ).0.streams[j].written
                        &&& step(p, b).0.streams[j].wpos == step(r, a).0.streams[j].wpos
                    } by {
                    assert(p.streams[j].written == r.streams[j].written);
                }
                assert forall|j: Seq<KeyElt>| #[trigger] on_tape(end, j) implies {
                    &&& step(p, b).0.streams[j].known
                    &&& step(p, b).0.streams[j].input == end.streams[j].written
                    &&& step(p, b).0.streams[j].rpos == step(p, b).0.streams[j].wpos
                } by {
                    if j == key {
                        assert(adopted(p, key) is None);
                    }
                }
            },
            _ => {
                assert(p.streams[k].written == r.streams[k].written);
                assert(step(p, b).0.streams == p.streams);
                assert(step(r, a).0.streams == r.streams);
            },
        }
    }
}

proof fn lemma_run_in_step(
    r: StateView,
    p: StateView,
    end: StateView,
    a: Seq<Event>,
    b: Seq<Event>,
)
    requires
        in_step(r, p, end),
        same_shapes(a, b),
        kept(r, a, end),
    ensures
        in_step(run(r, a).0, run(p, b).0, end),
        run(r, a).1 == run(p, b).1,
    decreases a.len(),
{
    if a.len() > 0 {
        lemma_step_in_step(r, p, end, a[0], b[0]);
        assert forall|i: int| 0 <= i < a.drop_first().len() implies same_shape(
            #[trigger] a.drop_first()[i],
            b.drop_first()[i],
        ) by {
            assert(same_shape(a[i + 1], b[i + 1]));
        }
        lemma_run_in_step(
            step(r, a[0]).0,
            step(p, b[0]).0,
            end,
            a.drop_first(),
            b.drop_first(),
        );
    }
}

/// The keys of the list are pairwise different.
pub open spec fn distinct_keys(s: Seq<StreamView>) -> bool {
    forall|i: int, j: int|
        0 <= i < j < s.len() ==> (#[trigger] s[i]).key != (#[trigger] s[j]).key
}

/// What a replay starts a stream with: the choices given for its key, and for
/// the main stream those of the main stream.
pub proof fn lemma_replay_streams(main: Seq<ChoiceView>, s: Seq<StreamView>, k: Seq<KeyElt>)
    requires
        distinct_keys(s),
    ensures
        forall|i: int|
            0 <= i < s.len() && (#[trigger] s[i]).key == k ==> replay_streams(main, s)[k]
                == known_stream(s[i].choices),
        (forall|i: int| 0 <= i < s.len() ==> (#[trigger] s[i]).key != k) ==> replay_streams(
            main,
            s,
        )[k] == (if k.len() == 0 {
            known_stream(main)
        } else {
            fresh_stream()
        }),
    decreases s.len(),
{
    if s.len() == 0 {
        if k.len() == 0 {
            assert(k =~= Seq::empty());
        }
    } else {
        let front = s.drop_last();
        let last = s.last();
        assert forall|i: int, j: int| 0 <= i < j < front.len() implies (#[trigger] front[i]).key
            != (#[trigger] front[j]).key by {
            assert(s[i].key != s[j].key);
        }
        lemma_replay_streams(main, front, k);
        assert forall|i: int| 0 <= i < s.len() && (#[trigger] s[i]).key == k implies replay_streams(
            main,
            s,
        )[k] == known_stream(s[i].choices) by {
            if i < front.len() {
                assert(front[i].key == k);
                assert(s[i].key != s[s.len() - 1].key);
            }
        }
        if forall|i: int| 0 <= i < s.len() ==> (#[trigger] s[i]).key != k {
            assert(s[s.len() - 1].key != k);
            assert forall|i: int| 0 <= i < front.len() implies (#[trigger] front[i]).key != k by {
                assert(s[i].key != k);
            }
        }
    }
}

proof fn lemma_collected_keys_distinct(t: TapeView, st: StateView)
    requires
        collects(t, st),
    ensures
        distinct_keys(t.streams),
{
    assert forall|i: int, j: int| 0 <= i < j < t.streams.len() implies (#[trigger] t.streams[i]).key
        != (#[trigger] t.streams[j]).key by {
        lemma_key_lt(t.streams[i].key, t.streams[j].key);
    }
}

/// Replaying a recording reproduces it: a run that does the same things, with
/// whatever it would draw fresh, uses the very choices that were recorded,
/// does not overrun its input, writes the same tape again, and ends where the
/// recording ended, with the same sub-stream keys handed out.
pub proof fn lemma_replay_reproduces(
    recording: Seq<Event>,
    replay: Seq<Event>,
    t: TapeView,
    n: nat,
    m: nat,
)
    requires
        ({
            let start = started(TapeMode::Recording, n);
            let end = run(start, recording).0;
            kept(start, recording, end) && collects(t, end)
        }),
        same_shapes(recording, replay),
    ensures
        ({
            let (end, used) = run(started(TapeMode::Recording, n), recording);
            let (replayed, used_again) = run(replaying(t, m), replay);
            &&& used_again == used
            &&& !replayed.overrun
            &&& collects(t, replayed)
            &&& replayed.current == end.current
            &&& replayed.split_counters == end.split_counters
        }),
{
    let r = started(TapeMode::Recording, n);
    let p = replaying(t, m);
    let end = run(r, recording).0;
    lemma_collected_keys_distinct(t, end);
    assert forall|k: Seq<KeyElt>|
        {
            &&& (#[trigger] p.streams[k]).written == r.streams[k].written
            &&& p.streams[k].wpos == r.streams[k].wpos
        } by {
        lemma_replay_streams(t.choices, t.streams, k);
        if exists|i: int| 0 <= i < t.streams.len() && (#[trigger] t.streams[i]).key == k {
            let i = choose|i: int| 0 <= i < t.streams.len() && (#[trigger] t.streams[i]).key == k;
            assert(t.streams[i].key == k);
        }
    }
    assert forall|k: Seq<KeyElt>| #[trigger] on_tape(end, k) implies {
        &&& p.streams[k].known
        &&& p.streams[k].input == end.streams[k].written
        &&& p.streams[k].rpos == p.streams[k].wpos
    } by {
        lemma_replay_streams(t.choices, t.streams, k);
        if k.len() > 0 {
            assert(end.streams[k].written.len() > 0);
            let i = choose|i: int| 0 <= i < t.streams.len() && (#[trigger] t.streams[i]).key == k;
            assert(t.streams[i].key == k);
        } else {
            assert(k =~= Seq::empty());
        }
    }
    lemma_run_in_step(r, p, end, recording, replay);
    let replayed = run(p, replay).0;
    assert forall|k: Seq<KeyElt>| #[trigger] replayed.streams[k].written
        == end.streams[k].written by {}
    assert(collects(t, replayed)) by {
        assert forall|i: int| 0 <= i < t.streams.len() implies (#[trigger] t.streams[i]).choices
            == replayed.streams[t.streams[i].key].written by {}
        assert forall|k: Seq<KeyElt>|
            k.len() > 0 && (#[trigger] replayed.streams[k]).written.len() > 0 implies exists|
            i: int,
        | 0 <= i < t.streams.len() && (#[trigger] t.streams[i]).key == k by {
            assert(end.streams[k].written.len() > 0);
        }
    }
}

/// What a run has written makes one tape only.
pub proof fn lemma_collected_tape_is_unique(t: TapeView, u: TapeView, st: StateView)
    requires
        collects(t, st),
        collects(u, st),
    ensures
        t == u,
{
    lemma_collected_prefix(t, u, st, t.streams.len() as int);
    lemma_collected_prefix(u, t, st, u.streams.len() as int);
    assert(t.streams =~= u.streams);
}

/// Streams are told by their keys, so both lists start alike.
proof fn lemma_collected_prefix(t: TapeView, u: TapeView, st: StateView, n: int)
    requires
        collects(t, st),
        collects(u, st),
        0 <= n <= t.streams.len(),
    ensures
        n <= u.streams.len(),
        forall|i: int| 0 <= i < n ==> t.streams[i] == u.streams[i],
    decreases n,
{
    if n > 0 {
        lemma_collected_prefix(t, u, st, n - 1);
        let m = n - 1;
        let a = t.streams[m];
        assert(st.streams[a.key].written.len() > 0);
        let i = choose|i: int| 0 <= i < u.streams.len() && (#[trigger] u.streams[i]).key == a.key;
        assert(u.streams[i].key == a.key);
        if i < m {
            assert(t.streams[i].key == a.key);
            lemma_key_lt(t.streams[i].key, t.streams[m].key);
            assert(false);
        }
        if i > m {
            let b = u.streams[m];
            assert(key_lt(u.streams[m].key, u.streams[i].key));
            assert(st.streams[b.key].written.len() > 0);
            let j = choose|j: int|
                0 <= j < t.streams.len() && (#[trigger] t.streams[j]).key == b.key;
            assert(t.streams[j].key == b.key);
            if j < m {
                assert(u.streams[j].key == b.key);
                lemma_key_lt(u.streams[j].key, u.streams[m].key);
                assert(false);
            }
            lemma_key_lt(b.key, a.key);
            if j > m {
                assert(key_lt(t.streams[m].key, t.streams[j].key));
            }
            assert(false);
        }
    }
}

/// The event draws on the current stream.
pub open spec fn is_draw(event: Event) -> bool {
    event is Draw || event is Forced || event is DrawForced
}

/// The event draws on the current stream, or marks a span.
pub open spec fn is_local(event: Event) -> bool {
    is_draw(event) || event is StartSpan || event is EndSpan
}

/// What decides the next event by how many came before and the choices they
/// used; `None` when it is done.
pub type Program = spec_fn(nat, Seq<ChoiceView>) -> Option<Event>;

/// The program stays on the current stream.
pub open spec fn stays(program: Program) -> bool {
    forall|n: nat, used: Seq<ChoiceView>|
        (#[trigger] program(n, used)) matches Some(e) ==> is_local(e)
}

/// What at most `steps` steps of a program leave, and the choices it used,
/// where `n` events came before and used `used`.
pub open spec fn run_program(
    st: StateView,
    program: Program,
    n: nat,
    used: Seq<ChoiceView>,
    steps: nat,
) -> (StateView, Seq<ChoiceView>)
    decreases steps,
{
    if steps == 0 {
        (st, used)
    } else {
        match program(n, used) {
            None => (st, used),
            Some(event) => {
                let (next, more) = step(st, event);
                run_program(next, program, n + 1, used + more, (steps - 1) as nat)
            },
        }
    }
}

/// What a program leaves of a state, and the choices it uses, in at most
/// `steps` steps.
pub open spec fn outcome(st: StateView, program: Program, steps: nat) -> (
    StateView,
    Seq<ChoiceView>,
) {
    run_program(st, program, 0, Seq::empty(), steps)
}

/// Draws read the same input in both states.
pub open spec fn reads_alike(a: StateView, b: StateView) -> bool {
    &&& a.mode == b.mode
    &&& a.streams[a.current].known == b.streams[b.current].known
    &&& a.streams[a.current].input == b.streams[b.current].input
    &&& a.streams[a.current].rpos == b.streams[b.current].rpos
}

/// An event on streams that read alike uses the same and leaves them alike.
proof fn lemma_step_reads_alike(a: StateView, b: StateView, event: Event)
    requires
        is_local(event),
        reads_alike(a, b),
    ensures
        step(a, event).1 == step(b, event).1,
        reads_alike(step(a, event).0, step(b, event).0),
{
    if is_draw(event) {
        assert(next_input(a) == next_input(b));
    }
}

/// What draws use is decided by the input that they read.
pub proof fn lemma_draws_decided_by_input(
    a: StateView,
    b: StateView,
    program: Program,
    n: nat,
    used: Seq<ChoiceView>,
    steps: nat,
)
    requires
        stays(program),
        reads_alike(a, b),
    ensures
        run_program(a, program, n, used, steps).1 == run_program(b, program, n, used, steps).1,
    decreases steps,
{
    if steps > 0 {
        if let Some(event) = program(n, used) {
            lemma_step_reads_alike(a, b, event);
            lemma_draws_decided_by_input(
                step(a, event).0,
                step(b, event).0,
                program,
                n + 1,
                used + step(a, event).1,
                (steps - 1) as nat,
            );
        }
    }
}

/// When the tape is off, what draws use is decided by what they draw fresh.
pub proof fn lemma_draws_without_tape(
    a: StateView,
    b: StateView,
    program: Program,
    n: nat,
    used: Seq<ChoiceView>,
    steps: nat,
)
    requires
        stays(program),
        a.mode == TapeMode::Off,
        b.mode == TapeMode::Off,
    ensures
        run_program(a, program, n, used, steps).1 == run_program(b, program, n, used, steps).1,
    decreases steps,
{
    if steps > 0 {
        if let Some(event) = program(n, used) {
            lemma_draws_without_tape(
                step(a, event).0,
                step(b, event).0,
                program,
                n + 1,
                used + step(a, event).1,
                (steps - 1) as nat,
            );
        }
    }
}

/// What draws leave alone: everything but the cursors and writes of the
/// current stream, and the overrun flag.
pub proof fn lemma_draws_leave_streams(
    st: StateView,
    program: Program,
    n: nat,
    used: Seq<ChoiceView>,
    steps: nat,
)
    requires
        stays(program),
    ensures
        ({
            let end = run_program(st, program, n, used, steps).0;
            &&& end.mode == st.mode
            &&& end.current == st.current
            &&& forall|k: Seq<KeyElt>|
                {
                    &&& (#[trigger] end.streams[k]).known == st.streams[k].known
                    &&& end.streams[k].claimed == st.streams[k].claimed
                    &&& end.streams[k].input == st.streams[k].input
                }
        }),
    decreases steps,
{
    if steps > 0 {
        if let Some(event) = program(n, used) {
            let next = step(st, event).0;
            let end = run_program(st, program, n, used, steps).0;
            lemma_draws_leave_streams(
                next,
                program,
                n + 1,
                used + step(st, event).1,
                (steps - 1) as nat,
            );
            assert forall|k: Seq<KeyElt>|
                {
                    &&& (#[trigger] end.streams[k]).known == st.streams[k].known
                    &&& end.streams[k].claimed == st.streams[k].claimed
                    &&& end.streams[k].input == st.streams[k].input
                } by {
                assert(next.streams[k].known == st.streams[k].known);
            }
        }
    }
}

/// A run in two parts.
pub proof fn lemma_run_in_parts(st: StateView, a: Seq<Event>, b: Seq<Event>)
    ensures
        run(st, a + b).0 == run(run(st, a).0, b).0,
        run(st, a + b).1 == run(st, a).1 + run(run(st, a).0, b).1,
    decreases a.len(),
{
    if a.len() == 0 {
        assert(a + b =~= b);
        assert(run(st, a).1 + run(st, b).1 =~= run(st, b).1);
    } else {
        assert((a + b).drop_first() =~= a.drop_first() + b);
        lemma_run_in_parts(step(st, a[0]).0, a.drop_first(), b);
        assert(run(st, a + b).1 =~= run(st, a).1 + run(run(st, a).0, b).1);
    }
}

/// What a program does is a run.
pub proof fn lemma_program_is_run(
    st: StateView,
    program: Program,
    n: nat,
    used: Seq<ChoiceView>,
    steps: nat,
) -> (events: Seq<Event>)
    ensures
        run(st, events).0 == run_program(st, program, n, used, steps).0,
        used + run(st, events).1 == run_program(st, program, n, used, steps).1,
    decreases steps,
{
    if steps == 0 || program(n, used) is None {
        assert(used + Seq::<ChoiceView>::empty() =~= used);
        Seq::empty()
    } else {
        let event = program(n, used)->0;
        let (next, more) = step(st, event);
        let rest = lemma_program_is_run(next, program, n + 1, used + more, (steps - 1) as nat);
        let events = seq![event] + rest;
        assert(events.drop_first() =~= rest);
        assert(used + run(st, events).1 =~= (used + more) + run(next, rest).1);
        events
    }
}

/// If a stream may adopt, there is a first one for it to adopt: salts cannot
/// go down forever.
pub proof fn lemma_first_donor_exists(st: StateView, key: Seq<KeyElt>, d: Seq<KeyElt>)
    requires
        is_donor(st, key, d),
    ensures
        exists|e: Seq<KeyElt>| is_first_donor(st, key, e),
    decreases elt_number(d.last()),
{
    if !is_first_donor(st, key, d) {
        let e = choose|e: Seq<KeyElt>| #[trigger]
            is_donor(st, key, e) && e != d && !key_lt(d, e);
        lemma_key_lt(d, e);
        lemma_salted_keys(e, d);
        lemma_first_donor_exists(st, key, e);
    }
}

/// What is settled once the stream of `key` was entered, as it was in `first`:
/// its input, and that it will not adopt another one.
pub open spec fn settled(first: StateView, now: StateView, key: Seq<KeyElt>) -> bool {
    &&& now.mode == first.mode
    &&& now.suppress_raw == first.suppress_raw
    &&& now.streams[key].claimed
    &&& now.streams[key].known == first.streams[key].known
    &&& now.streams[key].input == first.streams[key].input
    &&& now.mode == TapeMode::Replaying && !now.streams[key].known && is_salted(key)
        ==> forall|d: Seq<KeyElt>| !#[trigger] is_donor(now, key, d)
}

proof fn lemma_entry_settles(st: StateView, key: Seq<KeyElt>)
    ensures
        settled(entered(st, key), entered(st, key), key),
{
    let first = entered(st, key);
    if first.mode == TapeMode::Replaying && !first.streams[key].known && is_salted(key) {
        assert(adopted(st, key) is None);
        assert forall|d: Seq<KeyElt>| !#[trigger] is_donor(first, key, d) by {
            if is_donor(first, key, d) {
                assert(is_donor(st, key, d));
                lemma_first_donor_exists(st, key, d);
            }
        }
    }
}

proof fn lemma_step_settled(first: StateView, now: StateView, key: Seq<KeyElt>, event: Event)
    requires
        settled(first, now, key),
    ensures
        settled(first, step(now, event).0, key),
{
    let next = step(now, event).0;
    match event {
        Event::Enter { key: other } => {
            if adopted(now, other) is Some {
                let d = choose|d: Seq<KeyElt>| is_first_donor(now, other, d);
                assert(is_first_donor(now, other, d));
                assert(d != key);
                if other == key {
                    assert(is_donor(now, key, d));
                }
            }
            assert forall|d: Seq<KeyElt>| #[trigger] is_donor(next, key, d) implies is_donor(
                now,
                key,
                d,
            ) by {}
        },
        _ => {
            assert forall|k: Seq<KeyElt>|
                {
                    &&& (#[trigger] next.streams[k]).known == now.streams[k].known
                    &&& next.streams[k].claimed == now.streams[k].claimed
                    &&& next.streams[k].input == now.streams[k].input
                } by {}
            assert forall|d: Seq<KeyElt>| #[trigger] is_donor(next, key, d) implies is_donor(
                now,
                key,
                d,
            ) by {
                assert(next.streams[d].known == now.streams[d].known);
            }
        },
    }
}

proof fn lemma_run_settled(
    first: StateView,
    now: StateView,
    key: Seq<KeyElt>,
    events: Seq<Event>,
)
    requires
        settled(first, now, key),
    ensures
        settled(first, run(now, events).0, key),
    decreases events.len(),
{
    if events.len() > 0 {
        lemma_step_settled(first, now, key, events[0]);
        lemma_run_settled(first, step(now, events[0]).0, key, events.drop_first());
    }
}

/// A stream that is entered again reads what it read when it was entered
/// before, from the start, whatever run came in between.
pub proof fn lemma_reentry_reads_alike(st: StateView, key: Seq<KeyElt>, events: Seq<Event>)
    ensures
        ({
            let first = entered(st, key);
            let second = entered(run(first, events).0, key);
            reads_alike(first, second) && second.suppress_raw == first.suppress_raw
        }),
{
    let first = entered(st, key);
    let later = run(first, events).0;
    lemma_entry_settles(st, key);
    lemma_run_settled(first, first, key, events);
    assert(adopted(later, key) is None) by {
        if adopted(later, key) is Some {
            let d = choose|d: Seq<KeyElt>| is_first_donor(later, key, d);
            assert(is_first_donor(later, key, d));
            assert(is_donor(later, key, d));
        }
    }
}

/// Nothing that a run does turns the tape on or off, or suppresses raw draws.
pub proof fn lemma_run_keeps_mode(st: StateView, events: Seq<Event>)
    ensures
        run(st, events).0.mode == st.mode,
        run(st, events).0.suppress_raw == st.suppress_raw,
    decreases events.len(),
{
    if events.len() > 0 {
        lemma_run_keeps_mode(step(st, events[0]).0, events.drop_first());
    }
}

/// Equal arguments map to equal results: a call that enters the same stream
/// again, after whatever run came in between, and decides its draws in the
/// same way, uses the same choices.
pub proof fn lemma_calls_are_pure(
    st: StateView,
    key: Seq<KeyElt>,
    program: Program,
    steps: nat,
    events: Seq<Event>,
)
    requires
        stays(program),
    ensures
        ({
            let (after, used) = outcome(entered(st, key), program, steps);
            let later = run(after, events).0;
            outcome(entered(later, key), program, steps).1 == used
        }),
{
    let first = entered(st, key);
    let call = lemma_program_is_run(first, program, 0, Seq::empty(), steps);
    lemma_run_in_parts(first, call, events);
    lemma_reentry_reads_alike(st, key, call + events);
    let second = entered(run(first, call + events).0, key);
    lemma_draws_decided_by_input(first, second, program, 0, Seq::empty(), steps);
}

/// Orphan adoption: the entering stream reads what its donor would have read,
/// from the start, and the donor is never adopted again.
pub proof fn lemma_adoption(st: StateView, key: Seq<KeyElt>, other: Seq<KeyElt>)
    requires
        adopted(st, key) is Some,
    ensures
        ({
            let d = adopted(st, key)->0;
            let end = entered(st, key);
            &&& is_first_donor(st, key, d)
            &&& end.streams[key].known
            &&& end.streams[key].input == st.streams[d].input
            &&& end.streams[key].rpos == 0
            &&& end.streams[d].claimed
            &&& !is_donor(end, other, d)
            &&& !is_donor(end, other, key)
        }),
{
    let d = choose|d: Seq<KeyElt>| is_first_donor(st, key, d);
    assert(is_first_donor(st, key, d));
}

/// A stream that was entered or adopted stays claimed for the rest of the
/// run.
pub proof fn lemma_claims_last(st: StateView, events: Seq<Event>, k: Seq<KeyElt>)
    requires
        st.streams[k].claimed,
    ensures
        run(st, events).0.streams[k].claimed,
    decreases events.len(),
{
    if events.len() > 0 {
        lemma_claims_last(step(st, events[0]).0, events.drop_first(), k);
    }
}

/// An overrun is never forgotten.
pub proof fn lemma_overrun_lasts(st: StateView, events: Seq<Event>)
    requires
        st.overrun,
    ensures
        run(st, events).0.overrun,
    decreases events.len(),
{
    if events.len() > 0 {
        lemma_overrun_lasts(step(st, events[0]).0, events.drop_first());
    }
}

/// A stream that the input does not hold draws fresh, silently: nothing is
/// popped, and nothing is overrun.
pub proof fn lemma_absent_stream_draws_fresh(st: StateView, accepted: bool)
    requires
        !current_stream(st).known,
    ensures
        popped(st, accepted) == (st, None::<ChoiceView>),
{
}

/// Exhausting a stream that the input holds is an overrun.
pub proof fn lemma_exhausted_stream_overruns(st: StateView, accepted: bool)
    requires
        st.mode == TapeMode::Replaying,
        current_stream(st).known,
        current_stream(st).rpos >= current_stream(st).input.len(),
    ensures
        popped(st, accepted).1 is None,
        popped(st, accepted).0.overrun,
{
}

/// When the tape is off, draws and spans leave no trace.
pub proof fn lemma_off_records_nothing(st: StateView, event: Event)
    requires
        st.mode == TapeMode::Off,
        is_draw(event) || event is StartSpan,
    ensures
        step(st, event).0 == st,
{
}

/// Sub-stream keys handed out under the same parent never repeat.
pub proof fn lemma_splits_differ(st: StateView, events: Seq<Event>, back: Seq<KeyElt>)
    requires
        st.split_counters[st.current] < u32::MAX,
        back == st.current,
        ({
            let later = StateView { current: back, ..run(split_allocated(st), events).0 };
            later.split_counters[back] <= u32::MAX
        }),
    ensures
        ({
            let later = StateView { current: back, ..run(split_allocated(st), events).0 };
            next_split(later) != next_split(st)
        }),
{
    let later = StateView { current: back, ..run(split_allocated(st), events).0 };
    lemma_counters_grow(split_allocated(st), events, back);
    assert(next_split(later).last() == KeyElt::Split(later.split_counters[back] as u32));
    assert(next_split(st).last() == KeyElt::Split(st.split_counters[back] as u32));
}

proof fn lemma_counters_grow(st: StateView, events: Seq<Event>, k: Seq<KeyElt>)
    ensures
        run(st, events).0.split_counters[k] >= st.split_counters[k],
    decreases events.len(),
{
    if events.len() > 0 {
        lemma_counters_grow(step(st, events[0]).0, events.drop_first(), k);
    }
}

/// A recording run that, where it comes over entries again, draws what stands
/// there (and no NaN, which is never equal to itself), and whose draws take
/// what they draw themselves as it is.
pub open spec fn redraws_agree(st: StateView, events: Seq<Event>) -> bool
    decreases events.len(),
{
    events.len() == 0 || {
        let rt = current_stream(st);
        &&& records(events[0]) matches Some(c) ==> rt.wpos < rt.written.len()
            ==> rt.written[rt.wpos as int] == c && same_choice(c, c)
        &&& events[0] matches Event::Draw { fresh, kind, conform } ==> kind(fresh) && conform(
            fresh,
        ) == fresh
        &&& redraws_agree(step(st, events[0]).0, events.drop_first())
    }
}

/// Every write cursor lies within what its stream has written.
spec fn writes_ok(st: StateView) -> bool {
    forall|k: Seq<KeyElt>| (#[trigger] st.streams[k]).wpos <= st.streams[k].written.len()
}

/// What a stream has written at one point of a recording, it has still
/// written at a later one.
spec fn grows(st: StateView, end: StateView) -> bool {
    forall|k: Seq<KeyElt>|
        {
            let now = (#[trigger] st.streams[k]).written;
            let later = end.streams[k].written;
            now.len() <= later.len() && forall|i: int| 0 <= i < now.len() ==> later[i] == now[i]
        }
}

proof fn lemma_agreeing_step(st: StateView, events: Seq<Event>)
    requires
        events.len() > 0,
        st.mode == TapeMode::Recording,
        writes_ok(st),
        redraws_agree(st, events),
    ensures
        ({
            let next = step(st, events[0]).0;
            &&& next.mode == TapeMode::Recording
            &&& writes_ok(next)
            &&& grows(st, next)
            &&& kept_step(st, events[0], next)
        }),
{
    let next = step(st, events[0]).0;
    let k = st.current;
    assert(st.streams[k].wpos <= st.streams[k].written.len());
    if records(events[0]) is Some {
        assert(next == recorded(st, records(events[0])->0));
    }
    assert forall|j: Seq<KeyElt>| (#[trigger] next.streams[j]).wpos
        <= next.streams[j].written.len() by {
        assert(st.streams[j].wpos <= st.streams[j].written.len());
    }
}

proof fn lemma_agreeing_run(st: StateView, events: Seq<Event>)
    requires
        st.mode == TapeMode::Recording,
        writes_ok(st),
        redraws_agree(st, events),
    ensures
        grows(st, run(st, events).0),
        kept(st, events, run(st, events).0),
    decreases events.len(),
{
    if events.len() > 0 {
        let next = step(st, events[0]).0;
        let end = run(st, events).0;
        lemma_agreeing_step(st, events);
        lemma_agreeing_run(next, events.drop_first());
        assert forall|k: Seq<KeyElt>|
            {
                let now = (#[trigger] st.streams[k]).written;
                let later = end.streams[k].written;
                now.len() <= later.len() && forall|i: int|
                    0 <= i < now.len() ==> later[i] == now[i]
            } by {
            let now = st.streams[k].written;
            let soon = next.streams[k].written;
            let later = end.streams[k].written;
            assert(soon.len() <= later.len());
            assert forall|i: int| 0 <= i < now.len() implies later[i] == now[i] by {
                assert(soon[i] == now[i]);
            }
        }
        assert(next.streams[st.current].written.len() <= end.streams[st.current].written.len());
        assert(kept_step(st, events[0], end));
    }
}

/// A recording whose repeated calls draw what they drew before is kept whole,
/// so that replaying it reproduces it.
pub proof fn lemma_agreeing_recording_is_kept(events: Seq<Event>, n: nat)
    requires
        redraws_agree(started(TapeMode::Recording, n), events),
    ensures
        ({
            let start = started(TapeMode::Recording, n);
            kept(start, events, run(start, events).0)
        }),
{
    lemma_agreeing_run(started(TapeMode::Recording, n), events);
}

/// Replay ignores the spans of its input.
pub proof fn lemma_replay_ignores_spans(t: TapeView, u: TapeView, n: nat)
    requires
        t.choices == u.choices,
        t.streams == u.streams,
    ensures
        replaying(t, n) == replaying(u, n),
{
}

/// A tape that was persisted and read back replays as the tape itself.
pub proof fn lemma_persisted_tape_replays(t: TapeView, n: nat)
    requires
        tape_fits(t),
    ensures
        parse_tape(tape_bytes(t)) matches Some(u) && replaying(u, n) == replaying(t, n),
{
    lemma_tape_round_trip(t);
}

/// What was written to the main stream.
pub open spec fn main_written(st: StateView) -> Seq<ChoiceView> {
    st.streams[Seq::<KeyElt>::empty()].written
}

/// The main stream is written at its end.
pub open spec fn main_appends(st: StateView) -> bool {
    st.streams[Seq::<KeyElt>::empty()].wpos == main_written(st).len()
}

/// Every span holds a choice, and lies within the main stream.
pub open spec fn spans_fit(st: StateView) -> bool {
    forall|i: int|
        0 <= i < st.spans.len() ==> (#[trigger] st.spans[i]).start < st.spans[i].end
            && st.spans[i].end <= main_written(st).len()
}

/// No event enters the main stream, which would rewind it.
pub open spec fn main_not_entered(events: Seq<Event>) -> bool {
    forall|i: int|
        0 <= i < events.len() ==> ((#[trigger] events[i]) matches Event::Enter { key } ==> key.len()
            > 0)
}

proof fn lemma_step_keeps_spans(st: StateView, event: Event)
    requires
        main_appends(st),
        event matches Event::Enter { key } ==> key.len() > 0,
    ensures
        main_appends(step(st, event).0),
        main_written(st).len() <= main_written(step(st, event).0).len(),
        spans_fit(st) && main_written(st).len() <= usize::MAX ==> spans_fit(step(st, event).0),
{
    let root = Seq::<KeyElt>::empty();
    let next = step(st, event).0;
    if st.current.len() == 0 {
        assert(st.current =~= root);
    }
    if let Event::Enter { key } = event {
        if adopted(st, key) is Some {
            let d = choose|d: Seq<KeyElt>| is_first_donor(st, key, d);
            assert(is_first_donor(st, key, d));
            assert(d.len() > 0);
        }
        assert(next.streams[root] == st.streams[root]);
    }
    if spans_fit(st) && main_written(st).len() <= usize::MAX {
        assert forall|i: int| 0 <= i < next.spans.len() implies (#[trigger] next.spans[i]).start
            < next.spans[i].end && next.spans[i].end <= main_written(next).len() by {
            if i < st.spans.len() {
                assert(next.spans[i] == st.spans[i]);
            }
        }
    }
}

/// The spans that a run records can be deleted from what it records: each
/// holds a choice and lies within the main stream, as long as the main stream
/// is not entered again and fits in memory.
pub proof fn lemma_recorded_spans_fit(st: StateView, events: Seq<Event>)
    requires
        main_appends(st),
        spans_fit(st),
        main_not_entered(events),
        main_written(run(st, events).0).len() <= usize::MAX,
    ensures
        main_appends(run(st, events).0),
        spans_fit(run(st, events).0),
        main_written(st).len() <= main_written(run(st, events).0).len(),
    decreases events.len(),
{
    if events.len() > 0 {
        let next = step(st, events[0]).0;
        let tail = events.drop_first();
        assert forall|i: int| 0 <= i < tail.len() implies ((#[trigger] tail[i]) matches
            Event::Enter { key } ==> key.len() > 0) by {
            assert(tail[i] == events[i + 1]);
        }
        lemma_step_keeps_spans(st, events[0]);
        lemma_main_grows(next, tail);
        lemma_recorded_spans_fit(next, tail);
    }
}

proof fn lemma_main_grows(st: StateView, events: Seq<Event>)
    requires
        main_appends(st),
        main_not_entered(events),
    ensures
        main_written(st).len() <= main_written(run(st, events).0).len(),
    decreases events.len(),
{
    if events.len() > 0 {
        let tail = events.drop_first();
        assert forall|i: int| 0 <= i < tail.len() implies ((#[trigger] tail[i]) matches
            Event::Enter { key } ==> key.len() > 0) by {
            assert(tail[i] == events[i + 1]);
        }
        lemma_step_keeps_spans(st, events[0]);
        lemma_main_grows(step(st, events[0]).0, tail);
    }
}

/// A stream after a run of choices was recorded on it.
pub open spec fn rt_recorded_all(rt: RtView, choices: Seq<ChoiceView>) -> RtView
    decreases choices.len(),
{
    if choices.len() == 0 {
        rt
    } else {
        rt_recorded_all(rt_recorded(rt, choices[0]), choices.drop_first())
    }
}

/// Recording again what a rewound stream holds changes nothing but the write
/// cursor: a repeated call appends no duplicates. (NaN, which is never equal
/// to itself, is recorded anew.)
pub proof fn lemma_recording_again_keeps(rt: RtView, choices: Seq<ChoiceView>)
    requires
        rt.wpos + choices.len() <= rt.written.len(),
        forall|i: int|
            0 <= i < choices.len() ==> #[trigger] choices[i] == rt.written[rt.wpos + i]
                && same_choice(choices[i], choices[i]),
    ensures
        rt_recorded_all(rt, choices) == (RtView { wpos: rt.wpos + choices.len(), ..rt }),
    decreases choices.len(),
{
    if choices.len() > 0 {
        let next = rt_recorded(rt, choices[0]);
        let tail = choices.drop_first();
        assert(choices[0] == rt.written[rt.wpos as int]);
        assert forall|i: int| 0 <= i < tail.len() implies #[trigger] tail[i]
            == next.written[next.wpos + i] && same_choice(tail[i], tail[i]) by {
            assert(choices[i + 1] == rt.written[rt.wpos + (i + 1)]);
        }
        lemma_recording_again_keeps(next, tail);
    }
}

/// Recording on a stream whose cursor is at its end appends.
pub proof fn lemma_recording_at_the_end_appends(rt: RtView, choices: Seq<ChoiceView>)
    requires
        rt.wpos == rt.written.len(),
    ensures
        rt_recorded_all(rt, choices) == (RtView {
            written: rt.written + choices,
            wpos: rt.wpos + choices.len(),
            ..rt
        }),
    decreases choices.len(),
{
    if choices.len() == 0 {
        assert(rt.written + choices =~= rt.written);
    } else {
        let next = rt_recorded(rt, choices[0]);
        assert(next.written =~= rt.written.push(choices[0]));
        lemma_recording_at_the_end_appends(next, choices.drop_first());
        assert(next.written + choices.drop_first() =~= rt.written + choices);
    }
}

/// A sub-stream that was deleted from a tape is absent when the tape is
/// replayed, so that its draws go fresh.
pub proof fn lemma_deleted_stream_is_absent(t: TapeView, i: int, n: nat)
    requires
        0 <= i < t.streams.len(),
        t.streams[i].key.len() > 0,
        forall|a: int, b: int|
            0 <= a < b < t.streams.len() ==> key_lt(
                (#[trigger] t.streams[a]).key,
                (#[trigger] t.streams[b]).key,
            ),
    ensures
        replaying(stream_deleted(t, i), n).streams[t.streams[i].key] == fresh_stream(),
{
    let u = stream_deleted(t, i);
    let k = t.streams[i].key;
    assert forall|a: int, b: int| 0 <= a < b < u.streams.len() implies (#[trigger] u.streams[a]).key
        != (#[trigger] u.streams[b]).key by {
        let x = if a < i { a } else { a + 1 };
        let y = if b < i { b } else { b + 1 };
        assert(u.streams[a] == t.streams[x] && u.streams[b] == t.streams[y]);
        lemma_key_lt(t.streams[x].key, t.streams[y].key);
    }
    assert forall|a: int| 0 <= a < u.streams.len() implies (#[trigger] u.streams[a]).key != k by {
        let x = if a < i { a } else { a + 1 };
        assert(u.streams[a] == t.streams[x]);
        lemma_key_lt(t.streams[x].key, t.streams[i].key);
        if x < i {
            assert(key_lt(t.streams[x].key, t.streams[i].key));
        } else {
            assert(key_lt(t.streams[i].key, t.streams[x].key));
        }
    }
    lemma_replay_streams(u.choices, u.streams, k);
}

} // verus!
