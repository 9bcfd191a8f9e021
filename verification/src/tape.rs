//! A recorded generation run, and the order that shrinking descends in.
use crate::choice::{
    choice_order, lemma_choice_order_preorder, lemma_trivial_choice_is_simpler,
    lemma_trivial_choice_stays, same_choice, trivial_choice, views, Choice, ChoiceView,
};
use crate::keys::{
    compare_keys, copy_key, elt_order, key_order, lemma_elt_order_preorder, lemma_key_order_equal,
    same_key, KeyElt, StreamKey,
};
use crate::order::{
    chained, flipped, lemma_lex_at, lemma_lex_flipped, lemma_lex_reflexive, lemma_lex_skip,
    lemma_lex_transitive, lex, nat_order, order_lengths, total_preorder,
};
use core::cmp::Ordering;
use vstd::prelude::*;

verus! {

/// A contiguous run of choices forming one logical unit of generation
/// (e.g. one collection element together with its continuation flag).
/// Spans are metadata for the deletion pass: replay ignores them and
/// re-records them from the actual generation structure.
#[derive(Clone, Copy, Debug, PartialEq, Eq, Structural)]
pub struct Span {
    pub start: usize,
    pub end: usize,
}

/// A recorded generation run: the main stream's choices and spans, plus
/// keyed sub-streams (sorted by key) for split-off draws, i.e. what
/// generated functions returned. Sub-streams have no spans: their
/// deletable unit is the whole stream.
#[derive(Debug)]
pub struct Tape {
    pub choices: Vec<Choice>,
    pub spans: Vec<Span>,
    pub streams: Vec<(StreamKey, Vec<Choice>)>,
}

/// What one sub-stream of a tape records.
#[verifier::ext_equal]
pub struct StreamView {
    pub key: Seq<KeyElt>,
    pub choices: Seq<ChoiceView>,
}

/// What a [`Tape`] records.
#[verifier::ext_equal]
pub struct TapeView {
    pub choices: Seq<ChoiceView>,
    pub spans: Seq<Span>,
    pub streams: Seq<StreamView>,
}

/// What a list of keyed sub-streams records.
pub open spec fn stream_views(s: Seq<(StreamKey, Vec<Choice>)>) -> Seq<StreamView> {
    Seq::new(s.len(), |i: int| StreamView { key: s[i].0@, choices: views(s[i].1@) })
}

impl View for Tape {
    type V = TapeView;

    open spec fn view(&self) -> TapeView {
        TapeView {
            choices: views(self.choices@),
            spans: self.spans@,
            streams: stream_views(self.streams@),
        }
    }
}

/// The tape of a run that drew nothing.
pub open spec fn empty_tape() -> TapeView {
    TapeView { choices: Seq::empty(), spans: Seq::empty(), streams: Seq::empty() }
}

/// Number of choices in all of these streams.
pub open spec fn streams_len(s: Seq<StreamView>) -> nat
    decreases s.len(),
{
    if s.len() == 0 {
        0
    } else {
        streams_len(s.drop_last()) + s.last().choices.len()
    }
}

/// Number of choices in the main stream and all sub-streams.
pub open spec fn tape_len(t: TapeView) -> nat {
    t.choices.len() + streams_len(t.streams)
}

/// How two runs of choices compare: the shorter one first, then elementwise
/// by complexity.
pub open spec fn shortlex(a: Seq<ChoiceView>, b: Seq<ChoiceView>) -> Ordering {
    chained(
        nat_order(a.len(), b.len()),
        lex(a, b, |x: ChoiceView, y: ChoiceView| choice_order(x, y)),
    )
}

/// How two sub-streams compare: by key, then by their choices.
pub open spec fn stream_order(a: StreamView, b: StreamView) -> Ordering {
    chained(key_order(a.key, b.key), shortlex(a.choices, b.choices))
}

/// How two tapes compare: by the total number of choices, then by the main
/// stream, then by the number of sub-streams, then by the sub-streams
/// pairwise.
pub open spec fn tape_order(a: TapeView, b: TapeView) -> Ordering {
    chained(
        nat_order(tape_len(a), tape_len(b)),
        chained(
            shortlex(a.choices, b.choices),
            chained(
                nat_order(a.streams.len(), b.streams.len()),
                lex(a.streams, b.streams, |x: StreamView, y: StreamView| stream_order(x, y)),
            ),
        ),
    )
}

/// Every choice at its shrink target.
pub open spec fn trivial_choices(s: Seq<ChoiceView>) -> Seq<ChoiceView> {
    Seq::new(s.len(), |i: int| trivial_choice(s[i]))
}

/// Every choice of every stream at its shrink target.
pub open spec fn trivial_streams(s: Seq<StreamView>) -> Seq<StreamView> {
    Seq::new(
        s.len(),
        |i: int| StreamView { key: s[i].key, choices: trivial_choices(s[i].choices) },
    )
}

/// The tape with every choice, in every stream, at its shrink target.
pub open spec fn trivial_tape(t: TapeView) -> TapeView {
    TapeView {
        choices: trivial_choices(t.choices),
        spans: t.spans,
        streams: trivial_streams(t.streams),
    }
}

/// The tape with one choice of the main stream replaced, without spans.
pub open spec fn choice_replaced(t: TapeView, idx: int, choice: ChoiceView) -> TapeView {
    TapeView { choices: t.choices.update(idx, choice), spans: Seq::empty(), streams: t.streams }
}

/// The tape without the main stream's choices from `start` up to `end`,
/// without spans.
pub open spec fn span_deleted(t: TapeView, start: int, end: int) -> TapeView {
    TapeView {
        choices: t.choices.take(start) + t.choices.skip(end),
        spans: Seq::empty(),
        streams: t.streams,
    }
}

/// The tape with one choice of one sub-stream replaced, without spans.
pub open spec fn stream_choice_replaced(
    t: TapeView,
    stream_idx: int,
    idx: int,
    choice: ChoiceView,
) -> TapeView {
    let stream = t.streams[stream_idx];
    TapeView {
        choices: t.choices,
        spans: Seq::empty(),
        streams: t.streams.update(
            stream_idx,
            StreamView { key: stream.key, choices: stream.choices.update(idx, choice) },
        ),
    }
}

/// The tape without one of its sub-streams, without spans.
pub open spec fn stream_deleted(t: TapeView, stream_idx: int) -> TapeView {
    TapeView {
        choices: t.choices,
        spans: Seq::empty(),
        streams: t.streams.remove(stream_idx),
    }
}

/// Equality of runs of choices.
pub open spec fn same_choices(a: Seq<ChoiceView>, b: Seq<ChoiceView>) -> bool {
    a.len() == b.len() && forall|i: int| 0 <= i < a.len() ==> same_choice(#[trigger] a[i], b[i])
}

/// Equality of lists of sub-streams.
pub open spec fn same_streams(a: Seq<StreamView>, b: Seq<StreamView>) -> bool {
    a.len() == b.len() && forall|i: int|
        0 <= i < a.len() ==> (#[trigger] a[i]).key == b[i].key && same_choices(
            a[i].choices,
            b[i].choices,
        )
}

/// Equality of tapes, floats compared as numbers.
pub open spec fn same_tape(a: TapeView, b: TapeView) -> bool {
    same_choices(a.choices, b.choices) && a.spans == b.spans && same_streams(a.streams, b.streams)
}

/// Shortlex comparison of two runs of choices.
pub fn cmp_choices_shortlex(a: &Vec<Choice>, b: &Vec<Choice>) -> (r: Ordering)
    ensures
        r == shortlex(views(a@), views(b@)),
{
    let lengths = order_lengths(a.len(), b.len());
    match lengths {
        Ordering::Equal => {},
        _ => {
            return lengths;
        },
    }
    let ghost f = |x: ChoiceView, y: ChoiceView| choice_order(x, y);
    let ghost va = views(a@);
    let ghost vb = views(b@);
    let mut i: usize = 0;
    while i < a.len()
        invariant
            i <= a.len() == b.len(),
            va == views(a@),
            vb == views(b@),
            f == |x: ChoiceView, y: ChoiceView| choice_order(x, y),
            forall|j: int| 0 <= j < i ==> f(#[trigger] va[j], vb[j]) == Ordering::Equal,
        decreases a.len() - i,
    {
        let o = a[i].cmp_complexity(&b[i]);
        assert(o == f(va[i + 0], vb[i + 0]));
        match o {
            Ordering::Equal => {},
            _ => {
                proof {
                    lemma_lex_at(va, vb, f, i + 0);
                }
                return o;
            },
        }
        i += 1;
    }
    proof {
        lemma_lex_skip(va, vb, f, i + 0);
    }
    Ordering::Equal
}

/// A copy of a run of choices.
pub fn copy_choices(choices: &Vec<Choice>) -> (r: Vec<Choice>)
    ensures
        views(r@) == views(choices@),
{
    let r = choices.clone();
    assert(views(r@) =~= views(choices@));
    r
}

/// A copy of a list of sub-streams.
fn copy_streams(streams: &Vec<(StreamKey, Vec<Choice>)>) -> (r: Vec<(StreamKey, Vec<Choice>)>)
    ensures
        stream_views(r@) == stream_views(streams@),
{
    let mut r: Vec<(StreamKey, Vec<Choice>)> = Vec::new();
    let mut i: usize = 0;
    while i < streams.len()
        invariant
            i <= streams.len(),
            stream_views(r@) =~= stream_views(streams@).take(i as int),
        decreases streams.len() - i,
    {
        let ghost before = stream_views(r@);
        r.push((copy_key(&streams[i].0), copy_choices(&streams[i].1)));
        assert(stream_views(r@) =~= before.push(stream_views(streams@)[i as int]));
        i += 1;
    }
    assert(stream_views(r@) =~= stream_views(streams@));
    r
}

/// Every choice at its shrink target.
fn trivial_run(choices: &Vec<Choice>) -> (r: Vec<Choice>)
    ensures
        views(r@) == trivial_choices(views(choices@)),
{
    let mut r: Vec<Choice> = Vec::new();
    let mut i: usize = 0;
    while i < choices.len()
        invariant
            i <= choices.len(),
            r.len() == i,
            forall|j: int| 0 <= j < i ==> (#[trigger] r@[j])@ == trivial_choice(choices@[j]@),
        decreases choices.len() - i,
    {
        r.push(choices[i].trivial());
        i += 1;
    }
    assert(views(r@) =~= trivial_choices(views(choices@)));
    r
}

/// Whether two runs of choices are equal.
fn equal_choices(a: &Vec<Choice>, b: &Vec<Choice>) -> (r: bool)
    ensures
        r == same_choices(views(a@), views(b@)),
{
    if a.len() != b.len() {
        return false;
    }
    let mut i: usize = 0;
    while i < a.len()
        invariant
            i <= a.len() == b.len(),
            forall|j: int|
                0 <= j < i ==> same_choice(#[trigger] views(a@)[j], views(b@)[j]),
        decreases a.len() - i,
    {
        if !(a[i] == b[i]) {
            assert(!same_choice(views(a@)[i as int], views(b@)[i as int]));
            return false;
        }
        i += 1;
    }
    true
}

/// Whether two span lists are equal.
fn equal_spans(a: &Vec<Span>, b: &Vec<Span>) -> (r: bool)
    ensures
        r == (a@ == b@),
{
    if a.len() != b.len() {
        return false;
    }
    let mut i: usize = 0;
    while i < a.len()
        invariant
            i <= a.len() == b.len(),
            forall|j: int| 0 <= j < i ==> a@[j] == b@[j],
        decreases a.len() - i,
    {
        if a[i] != b[i] {
            return false;
        }
        i += 1;
    }
    assert(a@ =~= b@);
    true
}

/// Whether two lists of sub-streams are equal.
fn equal_streams(
    a: &Vec<(StreamKey, Vec<Choice>)>,
    b: &Vec<(StreamKey, Vec<Choice>)>,
) -> (r: bool)
    ensures
        r == same_streams(stream_views(a@), stream_views(b@)),
{
    if a.len() != b.len() {
        return false;
    }
    let ghost va = stream_views(a@);
    let ghost vb = stream_views(b@);
    let mut i: usize = 0;
    while i < a.len()
        invariant
            i <= a.len() == b.len(),
            va == stream_views(a@),
            vb == stream_views(b@),
            forall|j: int|
                0 <= j < i ==> (#[trigger] va[j]).key == vb[j].key && same_choices(
                    va[j].choices,
                    vb[j].choices,
                ),
        decreases a.len() - i,
    {
        if !same_key(&a[i].0, &b[i].0) || !equal_choices(&a[i].1, &b[i].1) {
            assert(!(va[i as int].key == vb[i as int].key && same_choices(
                va[i as int].choices,
                vb[i as int].choices,
            )));
            return false;
        }
        i += 1;
    }
    true
}

proof fn lemma_streams_len_step(s: Seq<StreamView>, i: int)
    requires
        0 <= i < s.len(),
    ensures
        streams_len(s.take(i + 1)) == streams_len(s.take(i)) + s[i].choices.len(),
{
    assert(s.take(i + 1).drop_last() =~= s.take(i));
}

impl Tape {
    /// Number of choices, in a type that no tape can exceed.
    fn length(&self) -> (r: u128)
        ensures
            r == tape_len(self@),
    {
        let mut sum: u128 = 0;
        let mut i: usize = 0;
        while i < self.streams.len()
            invariant
                i <= self.streams.len(),
                sum == streams_len(self@.streams.take(i as int)),
                sum <= i * 0xFFFF_FFFF_FFFF_FFFF,
            decreases self.streams.len() - i,
        {
            proof {
                lemma_streams_len_step(self@.streams, i as int);
            }
            sum = sum + self.streams[i].1.len() as u128;
            i += 1;
        }
        assert(self@.streams.take(i as int) =~= self@.streams);
        sum + self.choices.len() as u128
    }

    /// Total number of choices across the main stream and all
    /// sub-streams.
    pub fn total_len(&self) -> (r: usize)
        requires
            tape_len(self@) <= usize::MAX,
        ensures
            r == tape_len(self@),
    {
        self.length() as usize
    }

    /// Shortlex comparison: fewer choices first (totalled across all
    /// streams, so deleting a whole sub-stream is an improvement), then
    /// the main stream elementwise by complexity key, then fewer
    /// sub-streams, then the sorted sub-streams pairwise. `Less` means
    /// `self` is simpler than `other`.
    pub fn cmp_key(&self, other: &Tape) -> (r: Ordering)
        ensures
            r == tape_order(self@, other@),
    {
        let mine: u128 = self.length();
        let others: u128 = other.length();
        if mine < others {
            return Ordering::Less;
        }
        if mine > others {
            return Ordering::Greater;
        }
        let main = cmp_choices_shortlex(&self.choices, &other.choices);
        match main {
            Ordering::Equal => {},
            _ => {
                return main;
            },
        }
        let counts = order_lengths(self.streams.len(), other.streams.len());
        match counts {
            Ordering::Equal => {},
            _ => {
                return counts;
            },
        }
        let ghost f = |x: StreamView, y: StreamView| stream_order(x, y);
        let ghost va = self@.streams;
        let ghost vb = other@.streams;
        let mut i: usize = 0;
        while i < self.streams.len()
            invariant
                i <= self.streams.len() == other.streams.len(),
                va == self@.streams,
                vb == other@.streams,
                f == |x: StreamView, y: StreamView| stream_order(x, y),
                tape_order(self@, other@) == lex(va, vb, f),
                forall|j: int| 0 <= j < i ==> f(#[trigger] va[j], vb[j]) == Ordering::Equal,
            decreases self.streams.len() - i,
        {
            let keys = compare_keys(&self.streams[i].0, &other.streams[i].0);
            let o = match keys {
                Ordering::Equal => cmp_choices_shortlex(&self.streams[i].1, &other.streams[i].1),
                _ => keys,
            };
            assert(o == f(va[i + 0], vb[i + 0]));
            match o {
                Ordering::Equal => {},
                _ => {
                    proof {
                        lemma_lex_at(va, vb, f, i + 0);
                    }
                    return o;
                },
            }
            i += 1;
        }
        proof {
            lemma_lex_skip(va, vb, f, i + 0);
        }
        Ordering::Equal
    }

    /// The tape with every choice, in every stream, at its shrink
    /// target.
    pub fn trivial(&self) -> (r: Tape)
        ensures
            r@ == trivial_tape(self@),
    {
        let mut streams: Vec<(StreamKey, Vec<Choice>)> = Vec::new();
        let mut i: usize = 0;
        while i < self.streams.len()
            invariant
                i <= self.streams.len(),
                stream_views(streams@) =~= trivial_streams(self@.streams).take(i as int),
            decreases self.streams.len() - i,
        {
            let ghost before = stream_views(streams@);
            streams.push((copy_key(&self.streams[i].0), trivial_run(&self.streams[i].1)));
            assert(stream_views(streams@) =~= before.push(
                trivial_streams(self@.streams)[i as int],
            ));
            i += 1;
        }
        assert(stream_views(streams@) =~= trivial_streams(self@.streams));
        Tape { choices: trivial_run(&self.choices), spans: copy_spans(&self.spans), streams }
    }

    /// A copy of the tape with the main-stream choice at `idx` replaced.
    /// Like `with_span_deleted`, the copy's span list is dropped: replay
    /// ignores input spans, and an accepted proposal re-records fresh
    /// ones on its output tape.
    pub fn with_choice(&self, idx: usize, choice: Choice) -> (r: Tape)
        requires
            idx < self.choices@.len(),
        ensures
            r@ == choice_replaced(self@, idx as int, choice@),
    {
        let ghost new = choice@;
        let mut choices = copy_choices(&self.choices);
        assert(choices@.len() == views(choices@).len());
        choices.set(idx, choice);
        assert(views(choices@) =~= self@.choices.update(idx as int, new)) by {
            assert forall|j: int| 0 <= j < choices@.len() && j != idx implies views(choices@)[j]
                == self@.choices[j] by {
                assert(views(self.choices@)[j] == self@.choices[j]);
            }
        }
        Tape { choices, spans: Vec::new(), streams: copy_streams(&self.streams) }
    }

    /// A copy of the tape with the choices of `span` removed from the
    /// main stream. The copy's span list is dropped (it would be stale);
    /// an accepted proposal gets fresh spans from the replay's output
    /// tape anyway.
    pub fn with_span_deleted(&self, span: Span) -> (r: Tape)
        requires
            span.start <= span.end <= self.choices@.len(),
        ensures
            r@ == span_deleted(self@, span.start as int, span.end as int),
    {
        let mut choices: Vec<Choice> = Vec::new();
        let mut i: usize = 0;
        while i < span.start
            invariant
                i <= span.start <= self.choices@.len(),
                choices@.len() == i,
                views(choices@) =~= self@.choices.take(i as int),
            decreases span.start - i,
        {
            choices.push(self.choices[i].clone());
            i += 1;
        }
        let mut i: usize = span.end;
        while i < self.choices.len()
            invariant
                span.start <= span.end <= i <= self.choices@.len(),
                choices@.len() == span.start + (i - span.end),
                views(choices@) =~= self@.choices.take(span.start as int)
                    + self@.choices.subrange(span.end as int, i as int),
            decreases self.choices@.len() - i,
        {
            let ghost before = views(choices@);
            choices.push(self.choices[i].clone());
            assert(views(choices@) =~= before.push(self@.choices[i as int]));
            assert(self@.choices.subrange(span.end as int, i + 1) =~= self@.choices.subrange(
                span.end as int,
                i as int,
            ).push(self@.choices[i as int]));
            i += 1;
        }
        assert(self@.choices.subrange(span.end as int, i as int) =~= self@.choices.skip(
            span.end as int,
        ));
        Tape { choices, spans: Vec::new(), streams: copy_streams(&self.streams) }
    }

    /// A copy of the tape with the choice at `idx` of sub-stream
    /// `stream_idx` replaced.
    pub fn with_stream_choice(&self, stream_idx: usize, idx: usize, choice: Choice) -> (r: Tape)
        requires
            stream_idx < self.streams@.len(),
            idx < self.streams@[stream_idx as int].1@.len(),
        ensures
            r@ == stream_choice_replaced(self@, stream_idx as int, idx as int, choice@),
    {
        let ghost new = choice@;
        let mut streams = copy_streams(&self.streams);
        let ghost old_streams = streams@;
        proof {
            assert(streams@.len() == stream_views(streams@).len());
            assert(stream_views(streams@)[stream_idx as int]
                == self@.streams[stream_idx as int]);
            assert(streams@[stream_idx as int].1@.len()
                == self@.streams[stream_idx as int].choices.len());
        }
        let (key, mut choices) = streams.remove(stream_idx);
        let ghost old_choices = choices@;
        choices.set(idx, choice);
        let ghost stream = self@.streams[stream_idx as int];
        assert(views(choices@) =~= views(old_choices).update(idx as int, new));
        streams.insert(stream_idx, (key, choices));
        assert(stream_views(streams@) =~= self@.streams.update(
            stream_idx as int,
            StreamView { key: stream.key, choices: stream.choices.update(idx as int, new) },
        )) by {
            assert forall|j: int| 0 <= j < streams@.len() && j != stream_idx implies stream_views(
                streams@,
            )[j] == self@.streams[j] by {
                assert(streams@[j] == old_streams[j]);
                assert(stream_views(old_streams)[j] == self@.streams[j]);
            }
        }
        Tape { choices: copy_choices(&self.choices), spans: Vec::new(), streams }
    }

    /// A copy of the tape with sub-stream `stream_idx` removed entirely:
    /// its draws resample fresh on replay (an absent stream is not an
    /// overrun), which pushes generated functions toward constant
    /// observed behaviour.
    pub fn with_stream_deleted(&self, stream_idx: usize) -> (r: Tape)
        requires
            stream_idx < self.streams@.len(),
        ensures
            r@ == stream_deleted(self@, stream_idx as int),
    {
        let mut streams = copy_streams(&self.streams);
        let ghost old_streams = streams@;
        assert(streams@.len() == stream_views(streams@).len());
        let _ = streams.remove(stream_idx);
        assert(stream_views(streams@) =~= stream_views(old_streams).remove(stream_idx as int));
        Tape { choices: copy_choices(&self.choices), spans: Vec::new(), streams }
    }
}

/// A copy of a span list.
fn copy_spans(spans: &Vec<Span>) -> (r: Vec<Span>)
    ensures
        r@ == spans@,
{
    let r = spans.clone();
    assert(r@ =~= spans@);
    r
}

impl Clone for Tape {
    fn clone(&self) -> (r: Self)
        ensures
            r@ == self@,
    {
        Tape {
            choices: copy_choices(&self.choices),
            spans: copy_spans(&self.spans),
            streams: copy_streams(&self.streams),
        }
    }
}

impl Default for Tape {
    fn default() -> (r: Self)
        ensures
            r@ == empty_tape(),
    {
        let r = Tape { choices: Vec::new(), spans: Vec::new(), streams: Vec::new() };
        assert(r@ =~= empty_tape());
        r
    }
}

impl PartialEq for Tape {
    fn eq(&self, other: &Self) -> (r: bool) {
        equal_choices(&self.choices, &other.choices) && equal_spans(&self.spans, &other.spans)
            && equal_streams(&self.streams, &other.streams)
    }
}

impl vstd::std_specs::cmp::PartialEqSpecImpl for Tape {
    open spec fn obeys_eq_spec() -> bool {
        true
    }

    open spec fn eq_spec(&self, other: &Self) -> bool {
        same_tape(self@, other@)
    }
}

/// Runs of choices are totally preordered.
proof fn lemma_shortlex(a: Seq<ChoiceView>, b: Seq<ChoiceView>, c: Seq<ChoiceView>)
    ensures
        shortlex(a, a) == Ordering::Equal,
        shortlex(b, a) == flipped(shortlex(a, b)),
        shortlex(a, b) != Ordering::Greater && shortlex(b, c) != Ordering::Greater ==> shortlex(
            a,
            c,
        ) == chained(shortlex(a, b), shortlex(b, c)),
{
    let f = |x: ChoiceView, y: ChoiceView| choice_order(x, y);
    lemma_choice_order_preorder();
    lemma_lex_reflexive(a, f);
    lemma_lex_flipped(a, b, f);
    if lex(a, b, f) != Ordering::Greater && lex(b, c, f) != Ordering::Greater {
        lemma_lex_transitive(a, b, c, f);
    }
}

/// Sub-streams are totally preordered.
proof fn lemma_stream_order_preorder()
    ensures
        total_preorder(|x: StreamView, y: StreamView| stream_order(x, y)),
{
    let f = |x: StreamView, y: StreamView| stream_order(x, y);
    let g = |x: KeyElt, y: KeyElt| elt_order(x, y);
    lemma_elt_order_preorder();
    assert forall|a: StreamView| #[trigger] f(a, a) == Ordering::Equal by {
        lemma_lex_reflexive(a.key, g);
        lemma_shortlex(a.choices, a.choices, a.choices);
    }
    assert forall|a: StreamView, b: StreamView| #[trigger] f(b, a) == flipped(f(a, b)) by {
        lemma_lex_flipped(a.key, b.key, g);
        lemma_shortlex(a.choices, b.choices, b.choices);
    }
    assert forall|a: StreamView, b: StreamView, c: StreamView|
        #![trigger f(a, b), f(b, c)]
        f(a, b) != Ordering::Greater && f(b, c) != Ordering::Greater implies f(a, c) == chained(
        f(a, b),
        f(b, c),
    ) by {
        lemma_lex_transitive(a.key, b.key, c.key, g);
        lemma_shortlex(a.choices, b.choices, c.choices);
    }
}

/// Tapes are totally preordered: comparing a tape with itself ties, swapping
/// the sides flips the result, and steps that do not go up add up to a step
/// that does not go up, strict where one of them is. So accepting only
/// strictly smaller tapes never comes back to one.
pub proof fn lemma_tape_order(a: TapeView, b: TapeView, c: TapeView)
    ensures
        tape_order(a, a) == Ordering::Equal,
        tape_order(b, a) == flipped(tape_order(a, b)),
        tape_order(a, b) != Ordering::Greater && tape_order(b, c) != Ordering::Greater
            ==> tape_order(a, c) == chained(tape_order(a, b), tape_order(b, c)),
{
    let f = |x: StreamView, y: StreamView| stream_order(x, y);
    lemma_stream_order_preorder();
    lemma_shortlex(a.choices, b.choices, c.choices);
    lemma_lex_reflexive(a.streams, f);
    lemma_lex_flipped(a.streams, b.streams, f);
    if lex(a.streams, b.streams, f) != Ordering::Greater && lex(b.streams, c.streams, f)
        != Ordering::Greater {
        lemma_lex_transitive(a.streams, b.streams, c.streams, f);
    }
}

/// Deleting a span that holds a choice makes the tape simpler.
pub proof fn lemma_span_deletion_is_simpler(t: TapeView, start: int, end: int)
    requires
        0 <= start < end <= t.choices.len(),
    ensures
        tape_order(span_deleted(t, start, end), t) == Ordering::Less,
{
}

proof fn lemma_streams_len_remove(s: Seq<StreamView>, i: int)
    requires
        0 <= i < s.len(),
    ensures
        streams_len(s.remove(i)) + s[i].choices.len() == streams_len(s),
    decreases s.len(),
{
    if i == s.len() - 1 {
        assert(s.remove(i) =~= s.drop_last());
    } else {
        lemma_streams_len_remove(s.drop_last(), i);
        assert(s.remove(i).drop_last() =~= s.drop_last().remove(i));
        assert(s.remove(i).last() == s.last());
    }
}

/// Deleting a whole sub-stream makes the tape simpler, even an empty one.
pub proof fn lemma_stream_deletion_is_simpler(t: TapeView, stream_idx: int)
    requires
        0 <= stream_idx < t.streams.len(),
    ensures
        tape_order(stream_deleted(t, stream_idx), t) == Ordering::Less,
{
    lemma_streams_len_remove(t.streams, stream_idx);
    lemma_shortlex(t.choices, t.choices, t.choices);
}

/// A run with one choice replaced compares with the run as the new choice
/// does with the old one.
proof fn lemma_shortlex_update(s: Seq<ChoiceView>, idx: int, choice: ChoiceView)
    requires
        0 <= idx < s.len(),
    ensures
        shortlex(s.update(idx, choice), s) == choice_order(choice, s[idx]),
{
    let f = |x: ChoiceView, y: ChoiceView| choice_order(x, y);
    let u = s.update(idx, choice);
    lemma_choice_order_preorder();
    assert forall|j: int| 0 <= j < idx implies f(#[trigger] u[j], s[j]) == Ordering::Equal by {}
    assert(f(u[idx], s[idx]) == choice_order(choice, s[idx]));
    if choice_order(choice, s[idx]) == Ordering::Equal {
        lemma_lex_skip(u, s, f, idx + 1);
        assert(u.skip(idx + 1) =~= s.skip(idx + 1));
        lemma_lex_reflexive(s.skip(idx + 1), f);
    } else {
        lemma_lex_at(u, s, f, idx);
    }
}

/// Replacing a choice of the main stream moves the tape as the new choice
/// compares with the old one: a simpler choice makes a simpler tape.
pub proof fn lemma_choice_replacement_order(t: TapeView, idx: int, choice: ChoiceView)
    requires
        0 <= idx < t.choices.len(),
    ensures
        tape_order(choice_replaced(t, idx, choice), t) == choice_order(choice, t.choices[idx]),
{
    lemma_shortlex_update(t.choices, idx, choice);
    lemma_stream_order_preorder();
    lemma_lex_reflexive(t.streams, |x: StreamView, y: StreamView| stream_order(x, y));
}

proof fn lemma_streams_len_update(s: Seq<StreamView>, i: int, x: StreamView)
    requires
        0 <= i < s.len(),
        x.choices.len() == s[i].choices.len(),
    ensures
        streams_len(s.update(i, x)) == streams_len(s),
    decreases s.len(),
{
    if i == s.len() - 1 {
        assert(s.update(i, x).drop_last() =~= s.drop_last());
    } else {
        lemma_streams_len_update(s.drop_last(), i, x);
        assert(s.update(i, x).drop_last() =~= s.drop_last().update(i, x));
    }
}

/// Replacing a choice of a sub-stream moves the tape as the new choice
/// compares with the old one.
pub proof fn lemma_stream_choice_replacement_order(
    t: TapeView,
    stream_idx: int,
    idx: int,
    choice: ChoiceView,
)
    requires
        0 <= stream_idx < t.streams.len(),
        0 <= idx < t.streams[stream_idx].choices.len(),
    ensures
        tape_order(stream_choice_replaced(t, stream_idx, idx, choice), t) == choice_order(
            choice,
            t.streams[stream_idx].choices[idx],
        ),
{
    let f = |x: StreamView, y: StreamView| stream_order(x, y);
    let s = t.streams[stream_idx];
    let u = stream_choice_replaced(t, stream_idx, idx, choice).streams;
    lemma_shortlex(t.choices, t.choices, t.choices);
    lemma_streams_len_update(t.streams, stream_idx, u[stream_idx]);
    lemma_shortlex_update(s.choices, idx, choice);
    lemma_key_order_equal(s.key, s.key);
    lemma_stream_order_preorder();
    assert forall|j: int| 0 <= j < stream_idx implies f(#[trigger] u[j], t.streams[j])
        == Ordering::Equal by {}
    assert(f(u[stream_idx], t.streams[stream_idx]) == choice_order(choice, s.choices[idx]));
    if choice_order(choice, s.choices[idx]) == Ordering::Equal {
        lemma_lex_skip(u, t.streams, f, stream_idx + 1);
        assert(u.skip(stream_idx + 1) =~= t.streams.skip(stream_idx + 1));
        lemma_lex_reflexive(t.streams.skip(stream_idx + 1), f);
    } else {
        lemma_lex_at(u, t.streams, f, stream_idx);
    }
}

proof fn lemma_streams_len_equal(s: Seq<StreamView>, u: Seq<StreamView>)
    requires
        s.len() == u.len(),
        forall|i: int|
            0 <= i < s.len() ==> (#[trigger] s[i]).choices.len() == u[i].choices.len(),
    ensures
        streams_len(s) == streams_len(u),
    decreases s.len(),
{
    if s.len() > 0 {
        assert(s[s.len() - 1].choices.len() == u[u.len() - 1].choices.len());
        assert forall|i: int| 0 <= i < s.drop_last().len() implies (#[trigger] s.drop_last()[i])
            .choices.len() == u.drop_last()[i].choices.len() by {
            assert(s[i].choices.len() == u[i].choices.len());
        }
        lemma_streams_len_equal(s.drop_last(), u.drop_last());
    }
}

/// Making a tape trivial keeps its length.
pub proof fn lemma_trivial_tape_keeps_len(t: TapeView)
    ensures
        tape_len(trivial_tape(t)) == tape_len(t),
{
    lemma_streams_len_equal(trivial_tape(t).streams, t.streams);
}

/// A trivial tape stays as it is.
pub proof fn lemma_trivial_tape_stays(t: TapeView)
    ensures
        trivial_tape(trivial_tape(t)) == trivial_tape(t),
{
    let u = trivial_tape(t);
    assert forall|s: Seq<ChoiceView>| #[trigger]
        trivial_choices(trivial_choices(s)) == trivial_choices(s) by {
        assert forall|i: int| 0 <= i < s.len() implies trivial_choices(trivial_choices(s))[i]
            == trivial_choices(s)[i] by {
            lemma_trivial_choice_stays(s[i]);
        }
        assert(trivial_choices(trivial_choices(s)) =~= trivial_choices(s));
    }
    assert(trivial_tape(u).streams =~= u.streams);
    assert(trivial_tape(u).choices == u.choices);
}

proof fn lemma_lex_not_greater<T>(a: Seq<T>, b: Seq<T>, f: spec_fn(T, T) -> Ordering)
    requires
        a.len() == b.len(),
        forall|i: int| 0 <= i < a.len() ==> f(#[trigger] a[i], b[i]) != Ordering::Greater,
    ensures
        lex(a, b, f) != Ordering::Greater,
    decreases a.len(),
{
    if a.len() > 0 {
        assert(f(a[0], b[0]) != Ordering::Greater);
        assert forall|i: int| 0 <= i < a.drop_first().len() implies f(
            #[trigger] a.drop_first()[i],
            b.drop_first()[i],
        ) != Ordering::Greater by {
            assert(f(a[i + 1], b[i + 1]) != Ordering::Greater);
        }
        lemma_lex_not_greater(a.drop_first(), b.drop_first(), f);
    }
}

proof fn lemma_trivial_choices_simpler(s: Seq<ChoiceView>)
    ensures
        shortlex(trivial_choices(s), s) != Ordering::Greater,
{
    let f = |x: ChoiceView, y: ChoiceView| choice_order(x, y);
    assert forall|i: int| 0 <= i < s.len() implies f(#[trigger] trivial_choices(s)[i], s[i])
        != Ordering::Greater by {
        lemma_trivial_choice_is_simpler(s[i]);
    }
    lemma_lex_not_greater(trivial_choices(s), s, f);
}

/// Going to the shrink targets never goes up.
pub proof fn lemma_trivial_tape_is_simpler(t: TapeView)
    ensures
        tape_order(trivial_tape(t), t) != Ordering::Greater,
{
    let f = |x: StreamView, y: StreamView| stream_order(x, y);
    let u = trivial_tape(t);
    lemma_trivial_tape_keeps_len(t);
    lemma_trivial_choices_simpler(t.choices);
    assert forall|i: int| 0 <= i < u.streams.len() implies f(#[trigger] u.streams[i], t.streams[i])
        != Ordering::Greater by {
        lemma_key_order_equal(t.streams[i].key, t.streams[i].key);
        lemma_trivial_choices_simpler(t.streams[i].choices);
    }
    lemma_lex_not_greater(u.streams, t.streams, f);
}

} // verus!
