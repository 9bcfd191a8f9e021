//! Recording and replaying: the state that every draw of a run goes through.
use crate::choice::{same_choice, views, Choice, ChoiceView};
use crate::key_map::{lemma_same_keys, KeyMap};
use crate::keys::{
    copy_key, is_salted, key_lt, lemma_key_lt, salted, KeyElt, StreamKey,
};
use crate::tape::{copy_choices, empty_tape, stream_views, Span, StreamView, Tape, TapeView};
use vstd::prelude::*;

verus! {

/// Recording/replaying mode.
#[derive(Clone, Copy, Debug, PartialEq, Eq, Structural)]
pub enum TapeMode {
    Off,
    Recording,
    Replaying,
}

/// Per-stream runtime state. The write side has rewrite-over semantics:
/// `wpos` rewinds to 0 at a call boundary (`enter_stream`), so a second
/// same-argument call re-records over the same entries instead of
/// appending duplicates; a divergent value truncates and overwrites.
/// The read side is a per-stream replay cursor; `known` distinguishes a
/// stream present in the replay input (exhausting it is an overrun)
/// from a brand-new stream (all draws fresh, silently).
#[derive(Debug)]
pub struct StreamRt {
    pub written: Vec<Choice>,
    pub wpos: usize,
    pub input: Vec<Choice>,
    pub rpos: usize,
    pub known: bool,
    /// Set once this stream has been entered (or donated) during a
    /// replay, so orphan adoption never reuses a donor.
    pub claimed: bool,
}

/// What a [`StreamRt`] holds.
#[verifier::ext_equal]
pub struct RtView {
    pub written: Seq<ChoiceView>,
    pub wpos: nat,
    pub input: Seq<ChoiceView>,
    pub rpos: nat,
    pub known: bool,
    pub claimed: bool,
}

impl View for StreamRt {
    type V = RtView;

    open spec fn view(&self) -> RtView {
        RtView {
            written: views(self.written@),
            wpos: self.wpos as nat,
            input: views(self.input@),
            rpos: self.rpos as nat,
            known: self.known,
            claimed: self.claimed,
        }
    }
}

/// The cursors lie within what they move over.
pub open spec fn cursors_ok(rt: RtView) -> bool {
    rt.wpos <= rt.written.len() && rt.rpos <= rt.input.len()
}

/// A stream that nothing is known of.
pub open spec fn fresh_stream() -> RtView {
    RtView {
        written: Seq::empty(),
        wpos: 0,
        input: Seq::empty(),
        rpos: 0,
        known: false,
        claimed: false,
    }
}

/// A stream to be replayed.
pub open spec fn known_stream(input: Seq<ChoiceView>) -> RtView {
    RtView { input, known: true, ..fresh_stream() }
}

/// The stream after `c` was recorded at its write cursor: moving over an
/// equal entry, or replacing everything from there on.
pub open spec fn rt_recorded(rt: RtView, c: ChoiceView) -> RtView {
    if rt.wpos < rt.written.len() && same_choice(rt.written[rt.wpos as int], c) {
        RtView { wpos: rt.wpos + 1, ..rt }
    } else {
        RtView { written: rt.written.take(rt.wpos as int).push(c), wpos: rt.wpos + 1, ..rt }
    }
}

/// What a [`TapeState`] holds. Every key has a stream and a split counter;
/// a stream that was never touched is fresh, and such a counter is 0.
#[verifier::ext_equal]
pub struct StateView {
    pub mode: TapeMode,
    pub streams: Map<Seq<KeyElt>, RtView>,
    /// The stream that draws go to.
    pub current: Seq<KeyElt>,
    /// A known stream has run out of input.
    pub overrun: bool,
    /// How many times raw draws were suppressed and not released.
    pub suppress_raw: nat,
    /// Where the open spans start; `usize::MAX` off the main stream.
    pub span_stack: Seq<usize>,
    pub spans: Seq<Span>,
    /// Next sub-stream ordinal, per parent key.
    pub split_counters: Map<Seq<KeyElt>, nat>,
}

/// No stream was touched.
pub open spec fn fresh_streams() -> Map<Seq<KeyElt>, RtView> {
    Map::new(|k: Seq<KeyElt>| true, |k: Seq<KeyElt>| fresh_stream())
}

/// The state at the start of a run.
pub open spec fn started(mode: TapeMode, suppress_raw: nat) -> StateView {
    StateView {
        mode,
        streams: fresh_streams(),
        current: Seq::empty(),
        overrun: false,
        suppress_raw,
        span_stack: Seq::empty(),
        spans: Seq::empty(),
        split_counters: Map::new(|k: Seq<KeyElt>| true, |k: Seq<KeyElt>| 0nat),
    }
}

/// The state with the stream of `k` replaced.
pub open spec fn with_stream(st: StateView, k: Seq<KeyElt>, rt: RtView) -> StateView {
    StateView { streams: st.streams.insert(k, rt), ..st }
}

/// The stream that draws go to.
pub open spec fn current_stream(st: StateView) -> RtView {
    st.streams[st.current]
}

/// The state with the current stream replaced.
pub open spec fn with_current(st: StateView, rt: RtView) -> StateView {
    with_stream(st, st.current, rt)
}

/// The state after `c` was recorded on the current stream. Nothing happens
/// when the tape is off.
pub open spec fn recorded(st: StateView, c: ChoiceView) -> StateView {
    if st.mode == TapeMode::Off {
        st
    } else {
        with_current(st, rt_recorded(current_stream(st), c))
    }
}

/// The choice that replay reads next on the current stream, if there is one.
pub open spec fn next_input(st: StateView) -> Option<ChoiceView> {
    let rt = current_stream(st);
    if st.mode == TapeMode::Replaying && rt.known && rt.rpos < rt.input.len() {
        Some(rt.input[rt.rpos as int])
    } else {
        None
    }
}

/// The state after the next input choice was consumed.
pub open spec fn advanced(st: StateView) -> StateView {
    let rt = current_stream(st);
    with_current(st, RtView { rpos: rt.rpos + 1, ..rt })
}

/// The state after a draw found no input: a known stream that has run out is
/// an overrun; a stream that is not known draws fresh by design.
pub open spec fn missed(st: StateView) -> StateView {
    if st.mode == TapeMode::Replaying && current_stream(st).known {
        StateView { overrun: true, ..st }
    } else {
        st
    }
}

/// What popping the next input choice leaves and returns, where `accepted`
/// says whether the drawer takes it.
pub open spec fn popped(st: StateView, accepted: bool) -> (StateView, Option<ChoiceView>) {
    match next_input(st) {
        Some(c) => if accepted {
            (advanced(st), Some(c))
        } else {
            (st, None)
        },
        None => (missed(st), None),
    }
}

/// The state after a boolean was recorded whose value cannot be chosen: a
/// boolean that is next in the input is consumed without being read.
pub open spec fn forced_recorded(st: StateView, value: bool) -> StateView {
    let aligned = if next_input(st) is Some && next_input(st)->0 is Bool {
        advanced(st)
    } else {
        st
    };
    recorded(aligned, ChoiceView::Bool { value })
}

/// What drawing a boolean leaves and returns that generation forces, but that
/// replay may change.
pub open spec fn forced_drawn(st: StateView, forced: bool) -> (StateView, bool) {
    if st.mode == TapeMode::Off {
        (st, forced)
    } else {
        match popped(st, next_input(st) is Some && next_input(st)->0 is Bool) {
            (next, Some(ChoiceView::Bool { value })) => (
                recorded(next, ChoiceView::Bool { value }),
                value,
            ),
            (next, _) => (recorded(next, ChoiceView::Bool { value: forced }), forced),
        }
    }
}

/// The state after a span was opened. Off the main stream spans do not apply.
pub open spec fn span_opened(st: StateView) -> StateView {
    if st.mode == TapeMode::Off {
        st
    } else {
        let start = if st.current.len() == 0 {
            current_stream(st).written.len() as usize
        } else {
            usize::MAX
        };
        StateView { span_stack: st.span_stack.push(start), ..st }
    }
}

/// The state after the innermost open span was closed. It is kept if it was
/// opened and closed on the main stream and holds a choice.
pub open spec fn span_closed(st: StateView) -> StateView {
    if st.span_stack.len() == 0 {
        st
    } else {
        let start = st.span_stack.last();
        let end = current_stream(st).written.len();
        let closed = StateView { span_stack: st.span_stack.drop_last(), ..st };
        if start != usize::MAX && st.mode != TapeMode::Off && st.current.len() == 0 && end > start {
            StateView { spans: st.spans.push(Span { start, end: end as usize }), ..closed }
        } else {
            closed
        }
    }
}

/// The key of the next sub-stream under the current one.
pub open spec fn next_split(st: StateView) -> Seq<KeyElt> {
    st.current.push(KeyElt::Split(st.split_counters[st.current] as u32))
}

/// The state after the next sub-stream key was handed out.
pub open spec fn split_allocated(st: StateView) -> StateView {
    StateView {
        split_counters: st.split_counters.insert(
            st.current,
            st.split_counters[st.current] + 1,
        ),
        ..st
    }
}

/// `d` is an orphan that a call with stream `key` may adopt: a stream of the
/// input that no call has entered yet, of another call of the same function.
pub open spec fn is_donor(st: StateView, key: Seq<KeyElt>, d: Seq<KeyElt>) -> bool {
    &&& st.streams[d].known
    &&& !st.streams[d].claimed
    &&& d.len() == key.len()
    &&& d.drop_last() == key.drop_last()
    &&& is_salted(d)
}

/// `d` is the first donor in key order.
pub open spec fn is_first_donor(st: StateView, key: Seq<KeyElt>, d: Seq<KeyElt>) -> bool {
    &&& is_donor(st, key, d)
    &&& forall|e: Seq<KeyElt>| #[trigger] is_donor(st, key, e) && e != d ==> key_lt(d, e)
}

/// The stream whose input a call with stream `key` adopts: only an unknown
/// salted stream of a replay adopts one.
pub open spec fn adopted(st: StateView, key: Seq<KeyElt>) -> Option<Seq<KeyElt>> {
    if st.mode == TapeMode::Replaying && !st.streams[key].known && is_salted(key) && (exists|
        d: Seq<KeyElt>,
    |
        is_first_donor(st, key, d)) {
        Some(choose|d: Seq<KeyElt>| is_first_donor(st, key, d))
    } else {
        None
    }
}

/// The streams after an adoption.
pub open spec fn after_adoption(st: StateView, key: Seq<KeyElt>) -> Map<Seq<KeyElt>, RtView> {
    match adopted(st, key) {
        None => st.streams,
        Some(d) => {
            let donor = st.streams[d];
            let claimed = st.streams.insert(d, RtView { claimed: true, ..donor });
            claimed.insert(key, RtView { input: donor.input, known: true, ..claimed[key] })
        },
    }
}

/// The state after the stream of `key` was entered: draws go there, and its
/// cursors start over.
pub open spec fn entered(st: StateView, key: Seq<KeyElt>) -> StateView {
    let streams = after_adoption(st, key);
    StateView {
        streams: streams.insert(
            key,
            RtView { rpos: 0, wpos: 0, claimed: true, ..streams[key] },
        ),
        current: key,
        ..st
    }
}

/// The streams that a replay of these keyed choices starts with: the last
/// choices given for a key are its input.
pub open spec fn replay_streams(
    main: Seq<ChoiceView>,
    streams: Seq<StreamView>,
) -> Map<Seq<KeyElt>, RtView>
    decreases streams.len(),
{
    if streams.len() == 0 {
        fresh_streams().insert(Seq::empty(), known_stream(main))
    } else {
        let last = streams.last();
        replay_streams(main, streams.drop_last()).insert(last.key, known_stream(last.choices))
    }
}

/// The state at the start of a replay of `t`.
pub open spec fn replaying(t: TapeView, suppress_raw: nat) -> StateView {
    StateView {
        streams: replay_streams(t.choices, t.streams),
        ..started(TapeMode::Replaying, suppress_raw)
    }
}

/// `t` is what the run has written: the main stream with its spans, and every
/// sub-stream that was written to, in key order.
pub open spec fn collects(t: TapeView, st: StateView) -> bool {
    &&& t.choices == st.streams[Seq::<KeyElt>::empty()].written
    &&& t.spans == st.spans
    &&& forall|i: int, j: int|
        0 <= i < j < t.streams.len() ==> key_lt(
            (#[trigger] t.streams[i]).key,
            (#[trigger] t.streams[j]).key,
        )
    &&& forall|i: int|
        0 <= i < t.streams.len() ==> (#[trigger] t.streams[i]).key.len() > 0
            && t.streams[i].choices.len() > 0 && t.streams[i].choices
            == st.streams[t.streams[i].key].written
    &&& forall|k: Seq<KeyElt>|
        k.len() > 0 && (#[trigger] st.streams[k]).written.len() > 0 ==> exists|i: int|
            0 <= i < t.streams.len() && (#[trigger] t.streams[i]).key == k
}

/// A choice that may not be there.
pub open spec fn optional_view(c: Option<Choice>) -> Option<ChoiceView> {
    match c {
        Some(c) => Some(c@),
        None => None,
    }
}

impl StreamRt {
    pub open spec fn wf(&self) -> bool {
        self.wpos <= self.written@.len() && self.rpos <= self.input@.len()
    }

    /// Well-formedness is a matter of the view.
    proof fn lemma_wf(&self)
        ensures
            self.wf() == cursors_ok(self@),
    {
    }

    /// Records `choice` at the write cursor.
    pub fn record(&mut self, choice: Choice)
        requires
            old(self).wf(),
        ensures
            final(self).wf(),
            final(self)@ == rt_recorded(old(self)@, choice@),
    {
        if self.wpos < self.written.len() && self.written[self.wpos] == choice {
            self.wpos += 1;
        } else {
            let ghost c = choice@;
            self.written.truncate(self.wpos);
            self.written.push(choice);
            assert(views(self.written@) =~= views(old(self).written@).take(
                self.wpos as int,
            ).push(c));
            assert(self.written.len() == self.wpos + 1);
            self.wpos += 1;
        }
    }
}

impl Default for StreamRt {
    fn default() -> (r: Self)
        ensures
            r.wf(),
            r@ == fresh_stream(),
    {
        let r = StreamRt {
            written: Vec::new(),
            wpos: 0,
            input: Vec::new(),
            rpos: 0,
            known: false,
            claimed: false,
        };
        assert(r@ =~= fresh_stream());
        r
    }
}

/// Recording/replaying state. All draws route to the current stream (the
/// main stream by default); generated functions enter their per-argument
/// stream around each call.
#[derive(Debug)]
pub struct TapeState {
    mode: TapeMode,
    streams: KeyMap<StreamRt>,
    current: StreamKey,
    overrun: bool,
    /// While positive, raw draws bypass the tape entirely.
    suppress_raw: u32,
    /// Start indices of currently-open spans (main-stream choice count at
    /// `start_span` time; `usize::MAX` when opened off the main stream,
    /// where spans do not apply).
    span_stack: Vec<usize>,
    /// Spans recorded on the main stream this run.
    spans: Vec<Span>,
    /// Sub-stream ordinal counters, per parent key, reset each run.
    split_counters: KeyMap<u32>,
}

/// The stream of `k` in a key map.
spec fn stream_in(m: KeyMap<StreamRt>, k: Seq<KeyElt>) -> RtView {
    match m.value_of(k) {
        Some(rt) => rt@,
        None => fresh_stream(),
    }
}

/// All streams of a key map.
spec fn streams_of(m: KeyMap<StreamRt>) -> Map<Seq<KeyElt>, RtView> {
    Map::new(|k: Seq<KeyElt>| true, |k: Seq<KeyElt>| stream_in(m, k))
}

/// The counter of `k` in a key map.
spec fn counter_in(m: KeyMap<u32>, k: Seq<KeyElt>) -> nat {
    match m.value_of(k) {
        Some(n) => n as nat,
        None => 0,
    }
}

/// All counters of a key map.
spec fn counters_of(m: KeyMap<u32>) -> Map<Seq<KeyElt>, nat> {
    Map::new(|k: Seq<KeyElt>| true, |k: Seq<KeyElt>| counter_in(m, k))
}

impl View for TapeState {
    type V = StateView;

    closed spec fn view(&self) -> StateView {
        StateView {
            mode: self.mode,
            streams: streams_of(self.streams),
            current: self.current@,
            overrun: self.overrun,
            suppress_raw: self.suppress_raw as nat,
            span_stack: self.span_stack@,
            spans: self.spans@,
            split_counters: counters_of(self.split_counters),
        }
    }
}

impl TapeState {
    /// The maps are in order, and every cursor lies within its stream.
    pub closed spec fn wf(&self) -> bool {
        &&& self.streams.wf()
        &&& self.split_counters.wf()
        &&& forall|k: Seq<KeyElt>|
            (#[trigger] self.streams.value_of(k)) matches Some(rt) ==> rt.wf()
    }

    /// Every cursor lies within what it moves over.
    pub proof fn lemma_cursors(&self, k: Seq<KeyElt>)
        requires
            self.wf(),
        ensures
            cursors_ok(self@.streams[k]),
    {
        assert(self.streams.value_of(k) matches Some(rt) ==> rt.wf());
    }

    /// Gives the stream of `key` a place, and says where.
    fn place(&mut self, key: &StreamKey) -> (r: usize)
        requires
            old(self).wf(),
        ensures
            final(self).wf(),
            final(self)@ == old(self)@,
            final(self).streams.is_at(key@, r as int),
            final(self).current == old(self).current,
    {
        match self.streams.find(key) {
            Some(i) => i,
            None => {
                let i = self.streams.insert(copy_key(key), StreamRt::default());
                assert(self@.streams =~= old(self)@.streams);
                i
            },
        }
    }

    /// The state of the current stream, to be changed in place.
    fn current_rt(&mut self) -> (r: &mut StreamRt)
        requires
            old(self).wf(),
        ensures
            r.wf(),
            r@ == current_stream(old(self)@),
            final(self)@ == with_current(old(self)@, final(r)@),
            final(r).wf() ==> final(self).wf(),
    {
        let key = copy_key(&self.current);
        let i = self.place(&key);
        proof {
            self.streams.lemma_at(i as int);
        }
        self.streams.at_mut(i)
    }

    /// Whether draws are recorded or replayed.
    pub fn is_on(&self) -> (r: bool)
        ensures
            r == (self@.mode != TapeMode::Off),
    {
        self.mode != TapeMode::Off
    }

    /// Whether draws are replayed.
    pub fn is_replaying(&self) -> (r: bool)
        ensures
            r == (self@.mode == TapeMode::Replaying),
    {
        self.mode == TapeMode::Replaying
    }

    /// Whether raw draws should currently be recorded/replayed.
    pub fn raw_active(&self) -> (r: bool)
        ensures
            r == (self@.mode != TapeMode::Off && self@.suppress_raw == 0),
    {
        self.is_on() && self.suppress_raw == 0
    }

    /// Makes raw draws bypass the tape, until `unsuppress_raw` is called as
    /// often as this.
    pub fn suppress_raw(&mut self)
        requires
            old(self).wf(),
            old(self)@.suppress_raw < u32::MAX,
        ensures
            final(self).wf(),
            final(self)@ == (StateView { suppress_raw: old(self)@.suppress_raw + 1, ..old(self)@ }),
    {
        self.suppress_raw += 1;
    }

    /// Takes one `suppress_raw` back.
    pub fn unsuppress_raw(&mut self)
        requires
            old(self).wf(),
            old(self)@.suppress_raw > 0,
        ensures
            final(self).wf(),
            final(self)@ == (StateView {
                suppress_raw: (old(self)@.suppress_raw - 1) as nat,
                ..old(self)@
            }),
    {
        self.suppress_raw -= 1;
    }

    /// Forgets the run; raw draws stay suppressed as they were.
    fn reset(&mut self, mode: TapeMode)
        ensures
            final(self).wf(),
            final(self)@ == started(mode, old(self)@.suppress_raw),
    {
        self.mode = mode;
        self.streams = KeyMap::new();
        self.current = Vec::new();
        self.overrun = false;
        self.span_stack = Vec::new();
        self.spans = Vec::new();
        self.split_counters = KeyMap::new();
        assert(self@.streams =~= fresh_streams());
        assert(self@ =~= started(mode, old(self)@.suppress_raw));
    }

    /// Starts a run that records its draws.
    pub fn start_recording(&mut self)
        ensures
            final(self).wf(),
            final(self)@ == started(TapeMode::Recording, old(self)@.suppress_raw),
    {
        self.reset(TapeMode::Recording);
    }

    /// Gives the stream of `key` the input `choices`.
    fn provide(&mut self, key: StreamKey, choices: Vec<Choice>)
        requires
            old(self).wf(),
        ensures
            final(self).wf(),
            final(self)@ == with_stream(old(self)@, key@, known_stream(views(choices@))),
    {
        let ghost k = key@;
        let rt = StreamRt { input: choices, known: true, ..StreamRt::default() };
        assert(rt@ =~= known_stream(views(choices@)));
        let _ = self.streams.insert(key, rt);
        assert(self@.streams =~= old(self)@.streams.insert(k, rt@));
    }

    /// Starts a run that draws from `input`, and records what it draws.
    pub fn start_replay(&mut self, input: Tape)
        ensures
            final(self).wf(),
            final(self)@ == replaying(input@, old(self)@.suppress_raw),
    {
        let ghost main = input@.choices;
        let ghost streams = input@.streams;
        self.reset(TapeMode::Replaying);
        let Tape { choices, spans: _, streams: mut rest } = input;
        let ghost all = rest@;
        self.provide(Vec::new(), choices);
        assert(streams.take(0) =~= Seq::empty());
        let mut i: usize = 0;
        let n: usize = rest.len();
        while i < n
            invariant
                self.wf(),
                i <= n == all.len(),
                all.len() == streams.len() == rest@.len(),
                streams == stream_views(all),
                forall|j: int| i <= j < n ==> rest@[j] == all[j],
                self@ == (StateView {
                    streams: replay_streams(main, streams.take(i as int)),
                    ..started(TapeMode::Replaying, old(self)@.suppress_raw)
                }),
            decreases n - i,
        {
            let mut entry: (StreamKey, Vec<Choice>) = (Vec::new(), Vec::new());
            core::mem::swap(&mut entry, &mut rest[i]);
            proof {
                assert(streams.take(i + 1).drop_last() =~= streams.take(i as int));
                assert(streams[i as int] == StreamView {
                    key: entry.0@,
                    choices: views(entry.1@),
                });
            }
            self.provide(entry.0, entry.1);
            i += 1;
        }
        assert(streams.take(i as int) =~= streams);
    }

    /// Collect the run's output tape: the main stream's writes and spans
    /// plus every sub-stream that was actually written (streams the run
    /// never touched are dropped, which garbage-collects orphans).
    fn collect(&mut self) -> (r: Tape)
        requires
            old(self).wf(),
        ensures
            collects(r@, old(self)@),
            final(self).suppress_raw == old(self).suppress_raw,
    {
        let ghost st = self@;
        let mut taken: KeyMap<StreamRt> = KeyMap::new();
        core::mem::swap(&mut self.streams, &mut taken);
        let ghost all = taken;
        let mut main: Vec<Choice> = Vec::new();
        let mut streams: Vec<(StreamKey, Vec<Choice>)> = Vec::new();
        let n: usize = taken.entries.len();
        let mut i: usize = 0;
        proof {
            assert(views(main@) =~= Seq::empty());
            assert(stream_views(streams@) =~= Seq::empty());
            reveal(gathered);
            reveal(gathered_main);
        }
        while i < n
            invariant
                all.wf(),
                st.streams == streams_of(all),
                i <= n == all.entries@.len() == taken.entries@.len(),
                forall|j: int| i <= j < n ==> taken.entries@[j] == all.entries@[j],
                gathered_main(views(main@), all, i as int),
                gathered(stream_views(streams@), all, i as int),
            decreases n - i,
        {
            let key = copy_key(&taken.entries[i].0);
            let mut written: Vec<Choice> = Vec::new();
            core::mem::swap(&mut taken.entries[i].1.written, &mut written);
            proof {
                all.lemma_at(i as int);
                assert(all.key_at(i as int) == key@);
                assert(st.streams[key@].written == views(written@));
                assert(views(written@).len() == written@.len());
            }
            let ghost before = stream_views(streams@);
            proof {
                lemma_gathered_main(views(main@), all, i as int);
            }
            if key.len() == 0 {
                proof {
                    lemma_gathered_skip(before, all, i as int);
                }
                main = written;
            } else if written.len() > 0 {
                proof {
                    lemma_gathered_push(before, all, i as int);
                }
                streams.push((key, written));
                assert(stream_views(streams@) =~= before.push(
                    StreamView { key: key@, choices: views(written@) },
                ));
            } else {
                proof {
                    lemma_gathered_skip(before, all, i as int);
                }
            }
            i += 1;
        }
        let mut spans: Vec<Span> = Vec::new();
        core::mem::swap(&mut self.spans, &mut spans);
        let tape = Tape { choices: main, spans, streams };
        proof {
            lemma_gathered_all(tape@, all, st);
        }
        tape
    }
}

/// `main` is what the first `n` entries of `m` have written to the main
/// stream.
#[verifier::opaque]
spec fn gathered_main(main: Seq<ChoiceView>, m: KeyMap<StreamRt>, n: int) -> bool {
    &&& forall|j: int|
        0 <= j < n && (#[trigger] m.key_at(j)).len() == 0 ==> main == m.entries@[j].1@.written
    &&& (forall|j: int| 0 <= j < n ==> (#[trigger] m.key_at(j)).len() > 0) ==> main == Seq::<
        ChoiceView,
    >::empty()
}

proof fn lemma_gathered_main(main: Seq<ChoiceView>, m: KeyMap<StreamRt>, n: int)
    requires
        m.wf(),
        gathered_main(main, m, n),
        0 <= n < m.entries@.len(),
    ensures
        m.key_at(n).len() > 0 ==> gathered_main(main, m, n + 1),
        m.key_at(n).len() == 0 ==> gathered_main(m.entries@[n].1@.written, m, n + 1),
{
    reveal(gathered_main);
    if m.key_at(n).len() == 0 {
        assert forall|j: int| 0 <= j < n implies (#[trigger] m.key_at(j)).len() > 0 by {
            if m.key_at(j).len() == 0 {
                assert(m.key_at(j) =~= m.key_at(n));
                lemma_key_lt(m.key_at(j), m.key_at(n));
            }
        }
    } else if forall|j: int| 0 <= j < n + 1 ==> (#[trigger] m.key_at(j)).len() > 0 {
        assert forall|j: int| 0 <= j < n implies (#[trigger] m.key_at(j)).len() > 0 by {}
    }
}

/// `s` are the sub-streams that the first `n` entries of `m` have written.
#[verifier::opaque]
spec fn gathered(s: Seq<StreamView>, m: KeyMap<StreamRt>, n: int) -> bool {
    &&& forall|i: int, j: int|
        0 <= i < j < s.len() ==> key_lt((#[trigger] s[i]).key, (#[trigger] s[j]).key)
    &&& forall|i: int|
        0 <= i < s.len() ==> (#[trigger] s[i]).key.len() > 0 && s[i].choices.len() > 0 && exists|
            e: int,
        |
            0 <= e < n && #[trigger] m.key_at(e) == s[i].key && s[i].choices
                == m.entries@[e].1@.written
    &&& forall|e: int|
        0 <= e < n && (#[trigger] m.key_at(e)).len() > 0 && m.entries@[e].1@.written.len() > 0
            ==> exists|i: int| 0 <= i < s.len() && (#[trigger] s[i]).key == m.key_at(e)
}

proof fn lemma_gathered_skip(s: Seq<StreamView>, m: KeyMap<StreamRt>, n: int)
    requires
        gathered(s, m, n),
        0 <= n < m.entries@.len(),
        m.key_at(n).len() == 0 || m.entries@[n].1@.written.len() == 0,
    ensures
        gathered(s, m, n + 1),
{
    reveal(gathered);
    assert forall|i: int| 0 <= i < s.len() implies exists|e: int|
        0 <= e < n + 1 && #[trigger] m.key_at(e) == (#[trigger] s[i]).key && s[i].choices
            == m.entries@[e].1@.written by {
        let e = choose|e: int|
            0 <= e < n && #[trigger] m.key_at(e) == s[i].key && s[i].choices
                == m.entries@[e].1@.written;
        assert(m.key_at(e) == s[i].key);
    }
}

proof fn lemma_gathered_push(s: Seq<StreamView>, m: KeyMap<StreamRt>, n: int)
    requires
        m.wf(),
        gathered(s, m, n),
        0 <= n < m.entries@.len(),
        m.key_at(n).len() > 0,
        m.entries@[n].1@.written.len() > 0,
    ensures
        gathered(
            s.push(StreamView { key: m.key_at(n), choices: m.entries@[n].1@.written }),
            m,
            n + 1,
        ),
{
    reveal(gathered);
    let last = StreamView { key: m.key_at(n), choices: m.entries@[n].1@.written };
    let t = s.push(last);
    assert forall|i: int| 0 <= i < t.len() implies (#[trigger] t[i]).key.len() > 0
        && t[i].choices.len() > 0 && exists|e: int|
        0 <= e < n + 1 && #[trigger] m.key_at(e) == t[i].key && t[i].choices
            == m.entries@[e].1@.written by {
        if i < s.len() {
            assert(t[i] == s[i]);
            let e = choose|e: int|
                0 <= e < n && #[trigger] m.key_at(e) == s[i].key && s[i].choices
                    == m.entries@[e].1@.written;
            assert(m.key_at(e) == t[i].key);
        } else {
            assert(m.key_at(n) == t[i].key);
        }
    }
    assert forall|i: int, j: int| 0 <= i < j < t.len() implies key_lt(
        (#[trigger] t[i]).key,
        (#[trigger] t[j]).key,
    ) by {
        assert(t[i] == s[i]);
        if j < s.len() {
            assert(t[j] == s[j]);
        } else {
            let e = choose|e: int|
                0 <= e < n && #[trigger] m.key_at(e) == s[i].key && s[i].choices
                    == m.entries@[e].1@.written;
            assert(key_lt(m.key_at(e), m.key_at(n)));
        }
    }
    assert forall|e: int|
        0 <= e < n + 1 && (#[trigger] m.key_at(e)).len() > 0 && m.entries@[e].1@.written.len()
            > 0 implies exists|i: int| 0 <= i < t.len() && (#[trigger] t[i]).key == m.key_at(e) by {
        if e < n {
            let i = choose|i: int| 0 <= i < s.len() && (#[trigger] s[i]).key == m.key_at(e);
            assert(t[i].key == m.key_at(e));
        } else {
            assert(t[s.len() as int].key == m.key_at(e));
        }
    }
}

proof fn lemma_gathered_all(t: TapeView, m: KeyMap<StreamRt>, st: StateView)
    requires
        m.wf(),
        st.streams == streams_of(m),
        t.spans == st.spans,
        gathered(t.streams, m, m.entries@.len() as int),
        gathered_main(t.choices, m, m.entries@.len() as int),
    ensures
        collects(t, st),
{
    reveal(gathered);
    reveal(gathered_main);
    let root = Seq::<KeyElt>::empty();
    assert(t.choices == st.streams[root].written) by {
        if exists|j: int| m.is_at(root, j) {
            let j = choose|j: int| m.is_at(root, j);
            assert(m.is_at(root, j));
            m.lemma_at(j);
            assert(m.key_at(j).len() == 0);
        } else {
            assert forall|j: int| 0 <= j < m.entries@.len() implies (#[trigger] m.key_at(j)).len()
                > 0 by {
                if m.key_at(j).len() == 0 {
                    assert(m.key_at(j) =~= root);
                    assert(m.is_at(root, j));
                }
            }
        }
    }
    assert forall|i: int| 0 <= i < t.streams.len() implies (#[trigger] t.streams[i]).choices
        == st.streams[t.streams[i].key].written by {
        let e = choose|e: int|
            0 <= e < m.entries@.len() && #[trigger] m.key_at(e) == t.streams[i].key
                && t.streams[i].choices == m.entries@[e].1@.written;
        m.lemma_at(e);
    }
    assert forall|k: Seq<KeyElt>|
        k.len() > 0 && (#[trigger] st.streams[k]).written.len() > 0 implies exists|i: int|
        0 <= i < t.streams.len() && (#[trigger] t.streams[i]).key == k by {
        if exists|e: int| m.is_at(k, e) {
            let e = choose|e: int| m.is_at(k, e);
            assert(m.is_at(k, e));
            m.lemma_at(e);
            assert(m.key_at(e) == k);
        }
    }
}

/// Whether the choice is a boolean.
fn is_bool(c: &Choice) -> (r: bool)
    ensures
        r == (c@ is Bool),
{
    matches!(c, Choice::Bool { .. })
}

/// Whether two keys of the same length agree on all but their last element.
fn same_parent(a: &StreamKey, b: &StreamKey) -> (r: bool)
    requires
        a@.len() == b@.len() > 0,
    ensures
        r == (a@.drop_last() == b@.drop_last()),
{
    let mut i: usize = 0;
    while i < a.len() - 1
        invariant
            i < a@.len() == b@.len(),
            forall|j: int| 0 <= j < i ==> a@[j] == b@[j],
        decreases a@.len() - i,
    {
        if a[i] != b[i] {
            assert(a@.drop_last()[i as int] != b@.drop_last()[i as int]);
            return false;
        }
        i += 1;
    }
    assert(a@.drop_last() =~= b@.drop_last());
    true
}

/// No donor comes before the first one.
proof fn lemma_first_donor_unique(
    st: StateView,
    key: Seq<KeyElt>,
    d: Seq<KeyElt>,
    e: Seq<KeyElt>,
)
    requires
        is_first_donor(st, key, d),
        is_first_donor(st, key, e),
    ensures
        d == e,
{
    if d != e {
        lemma_key_lt(d, e);
    }
}

impl TapeState {
    /// Stop recording and return the recorded tape. Returns an empty tape
    /// if not recording.
    pub fn take_recording(&mut self) -> (r: Tape)
        requires
            old(self).wf(),
        ensures
            final(self).wf(),
            final(self)@ == started(TapeMode::Off, old(self)@.suppress_raw),
            if old(self)@.mode == TapeMode::Recording {
                collects(r@, old(self)@)
            } else {
                r@ == empty_tape()
            },
    {
        let was_recording = self.mode == TapeMode::Recording;
        let tape = self.collect();
        self.reset(TapeMode::Off);
        if was_recording {
            tape
        } else {
            Tape::default()
        }
    }

    /// Stop replaying and return the re-recorded output tape plus whether
    /// the input was overrun. Returns an empty tape if not replaying.
    pub fn finish_replay(&mut self) -> (r: (Tape, bool))
        requires
            old(self).wf(),
        ensures
            final(self).wf(),
            final(self)@ == started(TapeMode::Off, old(self)@.suppress_raw),
            if old(self)@.mode == TapeMode::Replaying {
                collects(r.0@, old(self)@) && r.1 == old(self)@.overrun
            } else {
                r.0@ == empty_tape() && !r.1
            },
    {
        let was_replaying = self.mode == TapeMode::Replaying;
        let overrun = self.overrun;
        let tape = self.collect();
        self.reset(TapeMode::Off);
        if was_replaying {
            (tape, overrun)
        } else {
            (Tape::default(), false)
        }
    }

    /// Whether the replay input has already been overrun. Lets the
    /// engine reject a proposal before running the test.
    pub fn overrun_now(&self) -> (r: bool)
        ensures
            r == self@.overrun,
    {
        self.overrun
    }

    /// Where the first donor for `key` is.
    fn find_donor(&self, key: &StreamKey) -> (r: Option<usize>)
        requires
            self.wf(),
            is_salted(key@),
        ensures
            match r {
                Some(i) => i < self.streams.entries@.len() && is_first_donor(
                    self@,
                    key@,
                    self.streams.key_at(i as int),
                ),
                None => forall|d: Seq<KeyElt>| !#[trigger] is_donor(self@, key@, d),
            },
    {
        let mut i: usize = 0;
        while i < self.streams.entries.len()
            invariant
                self.wf(),
                is_salted(key@),
                i <= self.streams.entries@.len(),
                forall|j: int|
                    0 <= j < i ==> !is_donor(self@, key@, #[trigger] self.streams.key_at(j)),
            decreases self.streams.entries@.len() - i,
        {
            let entry = &self.streams.entries[i];
            proof {
                self.streams.lemma_at(i as int);
            }
            if entry.1.known && !entry.1.claimed && entry.0.len() == key.len() && same_parent(
                &entry.0,
                key,
            ) && salted(&entry.0) {
                proof {
                    let d = self.streams.key_at(i as int);
                    assert(is_donor(self@, key@, d));
                    assert forall|e: Seq<KeyElt>| #[trigger]
                        is_donor(self@, key@, e) && e != d implies key_lt(d, e) by {
                        self.lemma_donor_has_place(key@, e);
                        let j = choose|j: int| self.streams.is_at(e, j);
                        assert(self.streams.key_at(j) == e);
                        assert(j > i);
                    }
                }
                return Some(i);
            }
            i += 1;
        }
        proof {
            assert forall|d: Seq<KeyElt>| !#[trigger] is_donor(self@, key@, d) by {
                if is_donor(self@, key@, d) {
                    self.lemma_donor_has_place(key@, d);
                    let j = choose|j: int| self.streams.is_at(d, j);
                    assert(self.streams.key_at(j) == d);
                }
            }
        }
        None
    }

    proof fn lemma_donor_has_place(&self, key: Seq<KeyElt>, d: Seq<KeyElt>)
        requires
            is_donor(self@, key, d),
        ensures
            exists|j: int| self.streams.is_at(d, j),
    {
    }

    /// Switch all draws to `key`'s stream, rewinding that stream's read
    /// and write cursors (a call boundary: same-argument calls replay
    /// identically). Returns the previous stream for `exit_stream`.
    ///
    /// Orphan adoption: when a replay enters an unknown salted stream
    /// (a generated function called with an argument the input tape
    /// never saw, typically because a shrink edit changed the argument
    /// and with it the salt), the stream adopts the input of an
    /// unclaimed sibling (same parent, salt leaf, key order). That
    /// sibling is exactly the orphan whose argument just changed, so
    /// the function keeps its observed behaviour across the edit
    /// instead of flipping a fresh coin; the accepted output re-records
    /// under the new salt, realigning the tape for the next round.
    pub fn enter_stream(&mut self, key: StreamKey) -> (r: StreamKey)
        requires
            old(self).wf(),
        ensures
            final(self).wf(),
            final(self)@ == entered(old(self)@, key@),
            r@ == old(self)@.current,
            old(self)@.mode == TapeMode::Replaying && !old(self)@.streams[key@].known && is_salted(
                key@,
            ) && (exists|d: Seq<KeyElt>| is_donor(old(self)@, key@, d)) ==> adopted(
                old(self)@,
                key@,
            ) is Some,
    {
        let ghost st = self@;
        let ghost k = key@;
        let i = self.place(&key);
        proof {
            self.streams.lemma_at(i as int);
        }
        if self.mode == TapeMode::Replaying && !self.streams.entries[i].1.known && salted(&key) {
            let donor = self.find_donor(&key);
            if let Some(d) = donor {
                let ghost dk = self.streams.key_at(d as int);
                proof {
                    self.streams.lemma_at(d as int);
                    lemma_first_donor_unique(
                        st,
                        k,
                        dk,
                        choose|e: Seq<KeyElt>| is_first_donor(st, k, e),
                    );
                    assert(adopted(st, k) == Some(dk));
                }
                let donated = copy_choices(&self.streams.entries[d].1.input);
                let rt = self.streams.at_mut(d);
                rt.claimed = true;
                assert(self@.streams =~= st.streams.insert(
                    dk,
                    RtView { claimed: true, ..st.streams[dk] },
                ));
                let i = self.place(&key);
                proof {
                    self.streams.lemma_at(i as int);
                }
                let rt = self.streams.at_mut(i);
                rt.input = donated;
                rt.known = true;
                rt.rpos = 0;
                let ghost adopting = after_adoption(st, k);
                assert(self@.streams =~= adopting.insert(k, RtView { rpos: 0, ..adopting[k] }));
            } else {
                assert(adopted(st, k) is None);
                assert(self@.streams == after_adoption(st, k));
            }
        } else {
            assert(self@.streams == after_adoption(st, k));
        }
        let ghost before = self@.streams;
        let ghost adopting = after_adoption(st, k);
        assert(before == adopting || before == adopting.insert(
            k,
            RtView { rpos: 0, ..adopting[k] },
        ));
        let i = self.place(&key);
        proof {
            self.streams.lemma_at(i as int);
        }
        let rt = self.streams.at_mut(i);
        rt.rpos = 0;
        rt.wpos = 0;
        rt.claimed = true;
        proof {
            let rewound = RtView { rpos: 0, wpos: 0, claimed: true, ..before[k] };
            assert(self@.streams[k] == rewound);
            assert(self@.streams =~= before.insert(k, rewound));
            assert(rewound == entered(st, k).streams[k]);
            assert(self@.streams =~= entered(st, k).streams);
        }
        let mut prev = key;
        core::mem::swap(&mut self.current, &mut prev);
        prev
    }

    /// Restore the stream returned by `enter_stream`.
    pub fn exit_stream(&mut self, prev: StreamKey)
        requires
            old(self).wf(),
        ensures
            final(self).wf(),
            final(self)@ == (StateView { current: prev@, ..old(self)@ }),
    {
        self.current = prev;
    }

    /// Allocate the next sub-stream key under the current stream. The
    /// per-parent ordinal makes keys deterministic across record and
    /// replay: splits happen at generation-driven points.
    pub fn alloc_split(&mut self) -> (r: StreamKey)
        requires
            old(self).wf(),
            old(self)@.split_counters[old(self)@.current] < u32::MAX,
        ensures
            final(self).wf(),
            final(self)@ == split_allocated(old(self)@),
            r@ == next_split(old(self)@),
    {
        let ordinal: u32 = match self.split_counters.find(&self.current) {
            Some(i) => self.split_counters.entries[i].1,
            None => 0,
        };
        let mut key = copy_key(&self.current);
        let _ = self.split_counters.insert(copy_key(&self.current), ordinal + 1);
        assert(self@.split_counters =~= split_allocated(old(self)@).split_counters);
        key.push(KeyElt::Split(ordinal));
        key
    }

    /// Allocate the next sub-stream key under the current stream, if there
    /// is one left.
    pub fn try_split(&mut self) -> (r: Option<StreamKey>)
        requires
            old(self).wf(),
        ensures
            final(self).wf(),
            match r {
                Some(key) => old(self)@.split_counters[old(self)@.current] < u32::MAX && key@
                    == next_split(old(self)@) && final(self)@ == split_allocated(old(self)@),
                None => old(self)@.split_counters[old(self)@.current] >= u32::MAX && final(self)@
                    == old(self)@,
            },
    {
        let used_up = match self.split_counters.find(&self.current) {
            Some(i) => self.split_counters.entries[i].1 == u32::MAX,
            None => false,
        };
        if used_up {
            None
        } else {
            Some(self.alloc_split())
        }
    }

    /// Open a span at the current position of the main stream. No-op
    /// when the tape is off; spans opened while a sub-stream is current
    /// are ignored (a sub-stream's deletable unit is the whole stream).
    pub fn start_span(&mut self)
        requires
            old(self).wf(),
        ensures
            final(self).wf(),
            final(self)@ == span_opened(old(self)@),
    {
        if !self.is_on() {
            return;
        }
        let pos: usize = if self.current.len() == 0 {
            self.written_len()
        } else {
            usize::MAX
        };
        self.span_stack.push(pos);
    }

    /// How many choices the current stream holds.
    fn written_len(&self) -> (r: usize)
        requires
            self.wf(),
        ensures
            r == current_stream(self@).written.len(),
    {
        match self.streams.find(&self.current) {
            Some(i) => self.streams.entries[i].1.written.len(),
            None => 0,
        }
    }

    /// Close the innermost open span. Robust against unbalanced calls
    /// (e.g. when generation errors out mid-span): closing with no open
    /// span is a no-op.
    pub fn end_span(&mut self)
        requires
            old(self).wf(),
        ensures
            final(self).wf(),
            final(self)@ == span_closed(old(self)@),
    {
        let start: usize = match self.span_stack.pop() {
            Some(start) => start,
            None => {
                return;
            },
        };
        if start == usize::MAX || !self.is_on() || self.current.len() > 0 {
            return;
        }
        let end: usize = self.written_len();
        if end > start {
            self.spans.push(Span { start, end });
        }
    }

    /// Append the choice actually used to the current stream (the
    /// recording, or the output re-recording during replay). No-op when
    /// off.
    pub fn record(&mut self, choice: Choice)
        requires
            old(self).wf(),
        ensures
            final(self).wf(),
            final(self)@ == recorded(old(self)@, choice@),
    {
        if !self.is_on() {
            return;
        }
        self.current_rt().record(choice);
    }

    /// Record a choice whose value is forced by generation structure
    /// rather than drawn (e.g. the "stop" continuation flag of a
    /// maximum-length collection). During replay a matching next input
    /// choice is consumed so edits stay aligned, but its value is
    /// ignored, and running off the end of the input is not an overrun:
    /// no information is being read.
    pub fn record_forced_bool(&mut self, value: bool)
        requires
            old(self).wf(),
        ensures
            final(self).wf(),
            final(self)@ == forced_recorded(old(self)@, value),
    {
        if !self.is_on() {
            return;
        }
        if self.is_replaying() {
            let rt = self.current_rt();
            let is_next = rt.known && rt.rpos < rt.input.len() && matches!(
                rt.input[rt.rpos],
                Choice::Bool { .. }
            );
            if is_next {
                rt.rpos += 1;
            }
            assert(self@.streams =~= (if is_next {
                advanced(old(self)@)
            } else {
                old(self)@
            }).streams);
        }
        self.record(Choice::Bool { value });
    }

    /// During replay, consume and return the current stream's next input
    /// choice if `matcher` accepts it. Returns `None` (and samples must
    /// go fresh) on kind mismatch, on overrun of a known stream (also
    /// setting the overrun flag), on an unknown stream (fresh by
    /// design), or when not replaying.
    pub fn pop_replay<F: FnOnce(&Choice) -> bool>(&mut self, matcher: F) -> (r: Option<Choice>)
        requires
            old(self).wf(),
            forall|c: &Choice| call_requires(matcher, (c,)),
        ensures
            final(self).wf(),
            exists|accepted: bool|
                {
                    &&& (final(self)@, optional_view(r)) == #[trigger] popped(old(self)@, accepted)
                    &&& next_input(old(self)@) is Some ==> exists|c: Choice|
                        #![trigger call_ensures(matcher, (&c,), accepted)]
                        c@ == next_input(old(self)@)->0 && call_ensures(matcher, (&c,), accepted)
                },
    {
        let ghost st = self@;
        if !self.is_replaying() {
            assert((self@, None::<ChoiceView>) == popped(st, true));
            return None;
        }
        let rt = self.current_rt();
        if !rt.known {
            assert(self@.streams =~= st.streams);
            assert((self@, None::<ChoiceView>) == popped(st, true));
            return None;
        }
        if rt.rpos >= rt.input.len() {
            self.overrun = true;
            assert(self@.streams =~= st.streams);
            assert((self@, None::<ChoiceView>) == popped(st, true));
            return None;
        }
        let ghost c = rt.input@[rt.rpos as int];
        assert(c@ == next_input(st)->0);
        let accepted = matcher(&rt.input[rt.rpos]);
        assert(call_ensures(matcher, (&c,), accepted));
        if accepted {
            let choice = rt.input[rt.rpos].clone();
            rt.rpos += 1;
            assert((self@, Some(choice@)) == popped(st, true));
            return Some(choice);
        }
        assert(self@.streams =~= st.streams);
        assert((self@, None::<ChoiceView>) == popped(st, false));
        None
    }

    /// Record a boolean that generation forces to `forced` (drawing no
    /// entropy), but that shrinking may edit: during replay the next
    /// input Bool's value is honored if present. Used for units that are
    /// structurally mandatory during generation yet deletable during
    /// shrinking.
    ///
    /// Contrast `record_forced_bool`, which ignores the replayed value
    /// (for markers whose value can never matter, like the stop flag of
    /// a maximum-length collection).
    pub fn draw_bool_forced(&mut self, forced: bool) -> (r: bool)
        requires
            old(self).wf(),
        ensures
            final(self).wf(),
            (final(self)@, r) == forced_drawn(old(self)@, forced),
    {
        if !self.is_on() {
            return forced;
        }
        let input = self.pop_replay(is_bool);
        if let Some(Choice::Bool { value }) = input {
            self.record(Choice::Bool { value });
            return value;
        }
        // Not replaying, kind mismatch, or overrun: use the forced value.
        self.record(Choice::Bool { value: forced });
        forced
    }
}

impl Default for TapeState {
    fn default() -> (r: Self)
        ensures
            r.wf(),
            r@ == started(TapeMode::Off, 0),
    {
        let r = TapeState {
            mode: TapeMode::Off,
            streams: KeyMap::new(),
            current: Vec::new(),
            overrun: false,
            suppress_raw: 0,
            span_stack: Vec::new(),
            spans: Vec::new(),
            split_counters: KeyMap::new(),
        };
        assert(r@.streams =~= fresh_streams());
        assert(r@ =~= started(TapeMode::Off, 0));
        r
    }
}

impl Clone for StreamRt {
    fn clone(&self) -> (r: Self)
        ensures
            r@ == self@,
    {
        StreamRt {
            written: copy_choices(&self.written),
            wpos: self.wpos,
            input: copy_choices(&self.input),
            rpos: self.rpos,
            known: self.known,
            claimed: self.claimed,
        }
    }
}

/// A copy of a map, value by value.
fn copy_map<V: Clone>(m: &KeyMap<V>) -> (r: KeyMap<V>)
    ensures
        r.entries@.len() == m.entries@.len(),
        forall|i: int| 0 <= i < m.entries@.len() ==> #[trigger] r.key_at(i) == m.key_at(i),
        forall|i: int|
            0 <= i < m.entries@.len() ==> cloned(m.entries@[i].1, (#[trigger] r.entries@[i]).1),
{
    let mut entries: Vec<(StreamKey, V)> = Vec::new();
    let mut i: usize = 0;
    while i < m.entries.len()
        invariant
            i <= m.entries@.len(),
            entries@.len() == i,
            forall|j: int| 0 <= j < i ==> (#[trigger] entries@[j]).0@ == m.key_at(j),
            forall|j: int| 0 <= j < i ==> cloned(m.entries@[j].1, (#[trigger] entries@[j]).1),
        decreases m.entries@.len() - i,
    {
        entries.push((copy_key(&m.entries[i].0), m.entries[i].1.clone()));
        i += 1;
    }
    let r = KeyMap { entries };
    assert forall|j: int| 0 <= j < m.entries@.len() implies #[trigger] r.key_at(j) == m.key_at(
        j,
    ) by {
        assert(entries@[j].0@ == m.key_at(j));
    }
    r
}

impl Clone for TapeState {
    fn clone(&self) -> (r: Self)
        ensures
            self.wf() ==> r.wf() && r@ == self@,
    {
        let mut span_stack: Vec<usize> = Vec::new();
        span_stack.extend_from_slice(self.span_stack.as_slice());
        let mut spans: Vec<Span> = Vec::new();
        spans.extend_from_slice(self.spans.as_slice());
        let r = TapeState {
            mode: self.mode,
            streams: copy_map(&self.streams),
            current: copy_key(&self.current),
            overrun: self.overrun,
            suppress_raw: self.suppress_raw,
            span_stack,
            spans,
            split_counters: copy_map(&self.split_counters),
        };
        proof {
            if self.wf() {
                assert forall|k: Seq<KeyElt>|
                    {
                        &&& #[trigger] r.streams.value_of(k) is Some
                            <==> self.streams.value_of(k) is Some
                        &&& r.streams.value_of(k) matches Some(rt) ==> rt@
                            == self.streams.value_of(k)->0@ && rt.wf()
                    } by {
                    lemma_same_keys(self.streams, r.streams, k);
                    if exists|i: int| self.streams.is_at(k, i) {
                        let i = choose|i: int| self.streams.is_at(k, i);
                        assert(self.streams.is_at(k, i));
                        assert(self.streams.value_of(k) matches Some(rt) ==> rt.wf());
                        assert(r.streams.entries@[i].1@ == self.streams.entries@[i].1@);
                        self.streams.entries@[i].1.lemma_wf();
                        r.streams.entries@[i].1.lemma_wf();
                    }
                }
                assert forall|k: Seq<KeyElt>| #[trigger] r.split_counters.value_of(k)
                    == self.split_counters.value_of(k) by {
                    lemma_same_keys(self.split_counters, r.split_counters, k);
                    if exists|i: int| self.split_counters.is_at(k, i) {
                        let i = choose|i: int| self.split_counters.is_at(k, i);
                        assert(self.split_counters.is_at(k, i));
                        assert(r.split_counters.entries@[i].1
                            == self.split_counters.entries@[i].1);
                    }
                }
                lemma_same_keys(self.streams, r.streams, Seq::empty());
                lemma_same_keys(self.split_counters, r.split_counters, Seq::empty());
                assert(r@.streams =~= self@.streams);
                assert(r@.split_counters =~= self@.split_counters);
                assert(r@ =~= self@);
            }
        }
        r
    }
}

} // verus!
