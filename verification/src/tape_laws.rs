//! What tapes are compared by, and what edits of a tape do to it, said of
//! their choices and streams.
use crate::choice::{
    choice_order, lemma_trivial_choice_keys_to_zero, same_choice, scalar_complexity,
    trivial_choice, ChoiceView,
};
use crate::choice_laws::{lemma_equal_choices, lemma_trivial_choice_goes_to_target};
use crate::keys::{key_lt, lemma_key_order_equal};
use crate::order::{lemma_lex_at, lemma_lex_skip};
use crate::tape::{
    choice_replaced, same_tape, shortlex, span_deleted, stream_choice_replaced, stream_deleted,
    stream_order, streams_len, tape_len, tape_order, trivial_tape, StreamView, TapeView,
};
use core::cmp::Ordering;
use vstd::prelude::*;

verus! {

/// The length of a tape counts the choices of the main stream and of every
/// sub-stream: one more choice, in whichever stream, adds one, and one more
/// sub-stream adds as many as it has.
pub proof fn lemma_length_counts_choices(t: TapeView, c: ChoiceView, s: StreamView)
    ensures
        t.streams.len() == 0 ==> tape_len(t) == t.choices.len(),
        tape_len(TapeView { choices: t.choices.push(c), ..t }) == tape_len(t) + 1,
        tape_len(TapeView { streams: t.streams.push(s), ..t }) == tape_len(t) + s.choices.len(),
{
    assert(t.streams.push(s).drop_last() =~= t.streams);
}

/// A tape with fewer choices in total is simpler, whatever the choices are and
/// however they are spread over streams.
pub proof fn lemma_fewer_choices_are_simpler(a: TapeView, b: TapeView)
    requires
        tape_len(a) < tape_len(b),
    ensures
        tape_order(a, b) == Ordering::Less,
        tape_order(b, a) == Ordering::Greater,
{
}

/// Where two runs of choices first differ in complexity.
pub open spec fn differ_at(a: Seq<ChoiceView>, b: Seq<ChoiceView>, i: int) -> bool {
    &&& a.len() == b.len()
    &&& 0 <= i < a.len()
    &&& forall|j: int| 0 <= j < i ==> choice_order(#[trigger] a[j], b[j]) == Ordering::Equal
    &&& choice_order(a[i], b[i]) != Ordering::Equal
}

/// The runs have the same complexities throughout.
pub open spec fn tied(a: Seq<ChoiceView>, b: Seq<ChoiceView>) -> bool {
    &&& a.len() == b.len()
    &&& forall|j: int|
        0 <= j < a.len() ==> choice_order(#[trigger] a[j], b[j]) == Ordering::Equal
}

/// How runs of choices compare: a shorter one is simpler, and of two with the
/// same length the first choice that differs in complexity decides.
pub proof fn lemma_runs_compare(a: Seq<ChoiceView>, b: Seq<ChoiceView>, i: int)
    ensures
        a.len() < b.len() ==> shortlex(a, b) == Ordering::Less,
        a.len() > b.len() ==> shortlex(a, b) == Ordering::Greater,
        differ_at(a, b, i) ==> shortlex(a, b) == choice_order(a[i], b[i]),
        tied(a, b) ==> shortlex(a, b) == Ordering::Equal,
{
    let f = |x: ChoiceView, y: ChoiceView| choice_order(x, y);
    if differ_at(a, b, i) {
        assert forall|j: int| 0 <= j < i implies f(#[trigger] a[j], b[j]) == Ordering::Equal by {}
        lemma_lex_at(a, b, f, i);
    }
    if tied(a, b) {
        assert forall|j: int| 0 <= j < a.len() implies f(#[trigger] a[j], b[j])
            == Ordering::Equal by {}
        lemma_lex_skip(a, b, f, a.len() - 0);
    }
}

/// Where the totals tie, the main stream decides: a shorter one is simpler, and
/// of two with the same length the first choice that differs in complexity
/// decides, whatever the sub-streams are.
pub proof fn lemma_main_stream_decides(a: TapeView, b: TapeView, i: int)
    requires
        tape_len(a) == tape_len(b),
    ensures
        a.choices.len() < b.choices.len() ==> tape_order(a, b) == Ordering::Less,
        differ_at(a.choices, b.choices, i) ==> tape_order(a, b) == choice_order(
            a.choices[i],
            b.choices[i],
        ),
{
    lemma_runs_compare(a.choices, b.choices, i);
}

/// Where the main streams tie as well, the tape with fewer sub-streams is
/// simpler, and of two with as many the first sub-stream that differs decides:
/// by its key, then by its length, then by its first choice that differs.
pub proof fn lemma_streams_decide(a: TapeView, b: TapeView, n: int, i: int)
    requires
        tape_len(a) == tape_len(b),
        tied(a.choices, b.choices),
    ensures
        a.streams.len() < b.streams.len() ==> tape_order(a, b) == Ordering::Less,
        a.streams.len() == b.streams.len() && 0 <= n < a.streams.len() && (forall|j: int|
            0 <= j < n ==> (#[trigger] a.streams[j]).key == b.streams[j].key && tied(
                a.streams[j].choices,
                b.streams[j].choices,
            )) ==> {
            let (x, y) = (a.streams[n], b.streams[n]);
            &&& key_lt(x.key, y.key) ==> tape_order(a, b) == Ordering::Less
            &&& x.key == y.key && x.choices.len() < y.choices.len() ==> tape_order(a, b)
                == Ordering::Less
            &&& x.key == y.key && differ_at(x.choices, y.choices, i) ==> tape_order(a, b)
                == choice_order(x.choices[i], y.choices[i])
        },
{
    let f = |x: StreamView, y: StreamView| stream_order(x, y);
    lemma_runs_compare(a.choices, b.choices, 0);
    if a.streams.len() == b.streams.len() && 0 <= n < a.streams.len() && (forall|j: int|
        0 <= j < n ==> (#[trigger] a.streams[j]).key == b.streams[j].key && tied(
            a.streams[j].choices,
            b.streams[j].choices,
        )) {
        assert forall|j: int| 0 <= j < n implies f(#[trigger] a.streams[j], b.streams[j])
            == Ordering::Equal by {
            lemma_key_order_equal(a.streams[j].key, b.streams[j].key);
            lemma_runs_compare(a.streams[j].choices, b.streams[j].choices, 0);
        }
        let (x, y) = (a.streams[n], b.streams[n]);
        lemma_key_order_equal(x.key, y.key);
        lemma_runs_compare(x.choices, y.choices, i);
        if f(x, y) != Ordering::Equal {
            lemma_lex_at(a.streams, b.streams, f, n);
        }
    }
}

/// Tapes with the same keys and the same complexities throughout tie.
pub proof fn lemma_tied_tapes(a: TapeView, b: TapeView)
    requires
        tied(a.choices, b.choices),
        a.streams.len() == b.streams.len(),
        forall|j: int|
            0 <= j < a.streams.len() ==> (#[trigger] a.streams[j]).key == b.streams[j].key && tied(
                a.streams[j].choices,
                b.streams[j].choices,
            ),
    ensures
        tape_order(a, b) == Ordering::Equal,
{
    let f = |x: StreamView, y: StreamView| stream_order(x, y);
    lemma_lengths_tie(a.streams, b.streams);
    lemma_runs_compare(a.choices, b.choices, 0);
    assert forall|j: int| 0 <= j < a.streams.len() implies f(#[trigger] a.streams[j], b.streams[j])
        == Ordering::Equal by {
        lemma_key_order_equal(a.streams[j].key, b.streams[j].key);
        lemma_runs_compare(a.streams[j].choices, b.streams[j].choices, 0);
    }
    lemma_lex_skip(a.streams, b.streams, f, a.streams.len() - 0);
}

proof fn lemma_lengths_tie(s: Seq<StreamView>, u: Seq<StreamView>)
    requires
        s.len() == u.len(),
        forall|j: int|
            0 <= j < s.len() ==> (#[trigger] s[j]).choices.len() == u[j].choices.len(),
    ensures
        streams_len(s) == streams_len(u),
    decreases s.len(),
{
    if s.len() > 0 {
        assert(s[s.len() - 1].choices.len() == u[u.len() - 1].choices.len());
        assert forall|j: int| 0 <= j < s.drop_last().len() implies (#[trigger] s.drop_last()[j])
            .choices.len() == u.drop_last()[j].choices.len() by {
            assert(s[j].choices.len() == u[j].choices.len());
        }
        lemma_lengths_tie(s.drop_last(), u.drop_last());
    }
}

/// Deleting a span removes exactly its choices: those before it stay, those
/// after it follow on them, and the sub-streams stay. The spans are dropped.
pub proof fn lemma_span_deletion_removes_span(t: TapeView, start: int, end: int)
    requires
        0 <= start <= end <= t.choices.len(),
    ensures
        ({
            let r = span_deleted(t, start, end);
            &&& r.choices.len() == t.choices.len() - (end - start)
            &&& forall|i: int| 0 <= i < start ==> #[trigger] r.choices[i] == t.choices[i]
            &&& forall|i: int|
                start <= i < r.choices.len() ==> #[trigger] r.choices[i] == t.choices[i + (end
                    - start)]
            &&& r.streams == t.streams
            &&& r.spans.len() == 0
            &&& tape_len(r) == tape_len(t) - (end - start)
        }),
{
}

/// Deleting a sub-stream removes exactly that one: the others stay in order
/// and as they are, and so does the main stream. The spans are dropped.
pub proof fn lemma_stream_deletion_removes_stream(t: TapeView, n: int)
    requires
        0 <= n < t.streams.len(),
    ensures
        ({
            let r = stream_deleted(t, n);
            &&& r.streams.len() == t.streams.len() - 1
            &&& forall|i: int| 0 <= i < n ==> #[trigger] r.streams[i] == t.streams[i]
            &&& forall|i: int|
                n <= i < r.streams.len() ==> #[trigger] r.streams[i] == t.streams[i + 1]
            &&& r.choices == t.choices
            &&& r.spans.len() == 0
        }),
{
}

/// Replacing a choice of the main stream puts the new one in its place and
/// leaves every other choice, and the sub-streams, alone. The spans are
/// dropped.
pub proof fn lemma_replacement_replaces_one(t: TapeView, n: int, c: ChoiceView)
    requires
        0 <= n < t.choices.len(),
    ensures
        ({
            let r = choice_replaced(t, n, c);
            &&& r.choices.len() == t.choices.len()
            &&& r.choices[n] == c
            &&& forall|i: int|
                0 <= i < t.choices.len() && i != n ==> #[trigger] r.choices[i] == t.choices[i]
            &&& r.streams == t.streams
            &&& r.spans.len() == 0
        }),
{
}

/// Replacing a choice of a sub-stream puts the new one in its place and leaves
/// its key, every other choice of every stream, and the main stream alone. The
/// spans are dropped.
pub proof fn lemma_stream_replacement_replaces_one(t: TapeView, n: int, m: int, c: ChoiceView)
    requires
        0 <= n < t.streams.len(),
        0 <= m < t.streams[n].choices.len(),
    ensures
        ({
            let r = stream_choice_replaced(t, n, m, c);
            &&& r.streams.len() == t.streams.len()
            &&& r.streams[n].key == t.streams[n].key
            &&& r.streams[n].choices.len() == t.streams[n].choices.len()
            &&& r.streams[n].choices[m] == c
            &&& forall|i: int|
                0 <= i < t.streams[n].choices.len() && i != m ==> #[trigger] r.streams[n].choices[i]
                    == t.streams[n].choices[i]
            &&& forall|i: int|
                0 <= i < t.streams.len() && i != n ==> #[trigger] r.streams[i] == t.streams[i]
            &&& r.choices == t.choices
            &&& r.spans.len() == 0
        }),
{
}

/// The choice is at its shrink target: a number keys to 0, and a byte string is
/// all zeros.
pub open spec fn at_target(c: ChoiceView) -> bool {
    match c {
        ChoiceView::RawBytes { value } => forall|i: int| 0 <= i < value.len() ==> value[i] == 0,
        _ => scalar_complexity(c) == Some(0nat),
    }
}

/// The choices are of one kind, with the same constraints and, for byte
/// strings, the same length.
pub open spec fn same_constraints(a: ChoiceView, b: ChoiceView) -> bool {
    match (a, b) {
        (
            ChoiceView::Integer { min: l, max: h, shrink_to: t, .. },
            ChoiceView::Integer { min, max, shrink_to, .. },
        ) => l == min && h == max && t == shrink_to,
        (
            ChoiceView::Float { min: l, max: h, allow_nan: n, .. },
            ChoiceView::Float { min, max, allow_nan, .. },
        ) => l == min && h == max && n == allow_nan,
        (ChoiceView::Bool { .. }, ChoiceView::Bool { .. }) => true,
        (ChoiceView::RawU32 { .. }, ChoiceView::RawU32 { .. }) => true,
        (ChoiceView::RawU64 { .. }, ChoiceView::RawU64 { .. }) => true,
        (ChoiceView::RawBytes { value: v }, ChoiceView::RawBytes { value }) => v.len()
            == value.len(),
        _ => false,
    }
}

proof fn lemma_trivial_choice_at_target(c: ChoiceView)
    ensures
        at_target(trivial_choice(c)),
        same_constraints(trivial_choice(c), c),
{
    lemma_trivial_choice_goes_to_target(c);
    if !(c is RawBytes) {
        lemma_trivial_choice_keys_to_zero(c);
    }
}

/// In the trivial tape every choice of every stream, the main one and each
/// sub-stream, is at its target, with its kind and its constraints as they
/// were; keys and spans stay.
pub proof fn lemma_trivial_tape_is_at_targets(t: TapeView)
    ensures
        ({
            let r = trivial_tape(t);
            &&& r.choices.len() == t.choices.len()
            &&& forall|i: int|
                0 <= i < t.choices.len() ==> at_target(#[trigger] r.choices[i]) && same_constraints(
                    r.choices[i],
                    t.choices[i],
                )
            &&& r.streams.len() == t.streams.len()
            &&& forall|n: int|
                0 <= n < t.streams.len() ==> (#[trigger] r.streams[n]).key == t.streams[n].key
                    && r.streams[n].choices.len() == t.streams[n].choices.len()
            &&& forall|n: int, i: int|
                0 <= n < t.streams.len() && 0 <= i < t.streams[n].choices.len() ==> at_target(
                    #[trigger] r.streams[n].choices[i],
                ) && same_constraints(r.streams[n].choices[i], t.streams[n].choices[i])
            &&& r.spans == t.spans
        }),
{
    let r = trivial_tape(t);
    assert forall|i: int| 0 <= i < t.choices.len() implies at_target(#[trigger] r.choices[i])
        && same_constraints(r.choices[i], t.choices[i]) by {
        lemma_trivial_choice_at_target(t.choices[i]);
    }
    assert forall|n: int, i: int|
        0 <= n < t.streams.len() && 0 <= i < t.streams[n].choices.len() implies at_target(
        #[trigger] r.streams[n].choices[i],
    ) && same_constraints(r.streams[n].choices[i], t.streams[n].choices[i]) by {
        lemma_trivial_choice_at_target(t.streams[n].choices[i]);
    }
}

/// No choice of the run is a float.
pub open spec fn without_floats(s: Seq<ChoiceView>) -> bool {
    forall|i: int| 0 <= i < s.len() ==> !(#[trigger] s[i] is Float)
}

/// Two tapes are equal if they have the same spans, the same keys in the same
/// order, and pairwise equal choices; without floats, if they are the same.
pub proof fn lemma_equal_tapes(a: TapeView, b: TapeView)
    ensures
        same_tape(a, b) <==> {
            &&& a.spans == b.spans
            &&& a.choices.len() == b.choices.len()
            &&& forall|i: int|
                0 <= i < a.choices.len() ==> same_choice(#[trigger] a.choices[i], b.choices[i])
            &&& a.streams.len() == b.streams.len()
            &&& forall|n: int|
                0 <= n < a.streams.len() ==> (#[trigger] a.streams[n]).key == b.streams[n].key
                    && a.streams[n].choices.len() == b.streams[n].choices.len() && (forall|i: int|
                    0 <= i < a.streams[n].choices.len() ==> same_choice(
                        #[trigger] a.streams[n].choices[i],
                        b.streams[n].choices[i],
                    ))
        },
        same_tape(a, b) && without_floats(a.choices) && (forall|n: int|
            0 <= n < a.streams.len() ==> without_floats((#[trigger] a.streams[n]).choices)) ==> a
            == b,
{
    if same_tape(a, b) && without_floats(a.choices) && (forall|n: int|
        0 <= n < a.streams.len() ==> without_floats((#[trigger] a.streams[n]).choices)) {
        assert forall|i: int| 0 <= i < a.choices.len() implies a.choices[i] == b.choices[i] by {
            assert(same_choice(a.choices[i], b.choices[i]));
            lemma_equal_choices(a.choices[i], b.choices[i]);
        }
        assert forall|n: int| 0 <= n < a.streams.len() implies a.streams[n] == b.streams[n] by {
            let (x, y) = (a.streams[n], b.streams[n]);
            assert(without_floats(x.choices));
            assert forall|i: int| 0 <= i < x.choices.len() implies x.choices[i]
                == y.choices[i] by {
                assert(same_choice(x.choices[i], y.choices[i]));
                lemma_equal_choices(x.choices[i], y.choices[i]);
            }
            assert(x.choices =~= y.choices);
        }
        assert(a.choices =~= b.choices);
        assert(a.streams =~= b.streams);
    }
}

} // verus!
