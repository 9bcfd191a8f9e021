//! What each step of a run does to the tape state, said of the streams and
//! their cursors.
use crate::choice::{same_choice, ChoiceView};
use crate::keys::{elt_number, is_salted, key_lt, lemma_salted_keys, KeyElt};
use crate::state::{
    adopted, collects, entered, forced_drawn, forced_recorded, is_donor, is_first_donor,
    next_split, popped, recorded, replaying, span_closed, span_opened, split_allocated, started,
    RtView, StateView, TapeMode,
};
use crate::state_laws::{lemma_adoption, lemma_first_donor_exists, lemma_replay_streams};
use crate::tape::{Span, TapeView};
use vstd::prelude::*;

verus! {

/// The states differ in nothing but their streams.
pub open spec fn rest_kept(a: StateView, b: StateView) -> bool {
    &&& a.mode == b.mode
    &&& a.current == b.current
    &&& a.overrun == b.overrun
    &&& a.suppress_raw == b.suppress_raw
    &&& a.span_stack == b.span_stack
    &&& a.spans == b.spans
    &&& a.split_counters == b.split_counters
}

/// Every stream but the current one is as it was.
pub open spec fn others_kept(a: StateView, b: StateView) -> bool {
    forall|k: Seq<KeyElt>| k != a.current ==> #[trigger] b.streams[k] == a.streams[k]
}

/// The stream's writes are as they were.
pub open spec fn writes_kept(a: RtView, b: RtView) -> bool {
    a.written == b.written && a.wpos == b.wpos
}

/// The stream's input, and where it is read, are as they were.
pub open spec fn reads_kept(a: RtView, b: RtView) -> bool {
    a.input == b.input && a.rpos == b.rpos && a.known == b.known
}

/// `b` is the stream `a` after `c` was recorded on it: what stood before its
/// write cursor stands, the cursor moved by one, and `c` stands there. Where
/// an equal choice stood there already, everything stays as it was written;
/// otherwise what stood there and after it is gone.
pub open spec fn writes_next(a: RtView, b: RtView, c: ChoiceView) -> bool {
    &&& b.wpos == a.wpos + 1
    &&& b.written.len() > a.wpos
    &&& forall|i: int| 0 <= i < a.wpos ==> #[trigger] b.written[i] == a.written[i]
    &&& if a.wpos < a.written.len() && same_choice(a.written[a.wpos as int], c) {
        b.written == a.written
    } else {
        b.written.len() == a.wpos + 1 && b.written[a.wpos as int] == c
    }
}

/// Recording writes the choice to the current stream and changes nothing else;
/// with the tape off it changes nothing.
pub proof fn lemma_recording(st: StateView, c: ChoiceView)
    requires
        st.streams[st.current].wpos <= st.streams[st.current].written.len(),
    ensures
        st.mode == TapeMode::Off ==> recorded(st, c) == st,
        st.mode != TapeMode::Off ==> {
            let next = recorded(st, c);
            let (a, b) = (st.streams[st.current], next.streams[st.current]);
            &&& rest_kept(st, next)
            &&& others_kept(st, next)
            &&& reads_kept(a, b)
            &&& a.claimed == b.claimed
            &&& writes_next(a, b, c)
        },
{
}

/// Recording a choice on a stream that is written at its end appends it.
pub proof fn lemma_recording_appends(st: StateView, c: ChoiceView)
    requires
        st.mode != TapeMode::Off,
        st.streams[st.current].wpos == st.streams[st.current].written.len(),
    ensures
        recorded(st, c).streams[st.current].written == st.streams[st.current].written.push(c),
{
    let rt = st.streams[st.current];
    assert(rt.written.take(rt.wpos as int) =~= rt.written);
}

/// There is a choice for the next draw of the run to read.
pub open spec fn has_input(st: StateView) -> bool {
    let rt = st.streams[st.current];
    st.mode == TapeMode::Replaying && rt.known && rt.rpos < rt.input.len()
}

/// Popping hands out the choice under the read cursor and moves the cursor over
/// it, if the drawer takes it. A choice that is not taken stays. A known stream
/// that has run out is an overrun; a stream that the input does not have, and a
/// run that does not replay, only hand out nothing.
pub proof fn lemma_popping(st: StateView, accepted: bool)
    ensures
        ({
            let (next, c) = popped(st, accepted);
            let (a, b) = (st.streams[st.current], next.streams[st.current]);
            &&& others_kept(st, next)
            &&& writes_kept(a, b)
            &&& a.input == b.input
            &&& a.known == b.known
            &&& a.claimed == b.claimed
            &&& if has_input(st) {
                if accepted {
                    c == Some(a.input[a.rpos as int]) && b.rpos == a.rpos + 1 && rest_kept(st, next)
                } else {
                    c is None && next == st
                }
            } else if st.mode == TapeMode::Replaying && a.known {
                c is None && b.rpos == a.rpos && next.overrun && next == (StateView {
                    overrun: true,
                    ..st
                })
            } else {
                c is None && next == st
            }
        }),
{
}

/// A forced boolean is recorded whatever the input says. A boolean that is next
/// in the input is passed over; anything else there stays. Running out of input
/// is no overrun. With the tape off nothing changes.
pub proof fn lemma_forced_boolean(st: StateView, value: bool)
    requires
        st.streams[st.current].wpos <= st.streams[st.current].written.len(),
    ensures
        st.mode == TapeMode::Off ==> forced_recorded(st, value) == st,
        st.mode != TapeMode::Off ==> {
            let next = forced_recorded(st, value);
            let (a, b) = (st.streams[st.current], next.streams[st.current]);
            &&& rest_kept(st, next)
            &&& others_kept(st, next)
            &&& writes_next(a, b, ChoiceView::Bool { value })
            &&& b.input == a.input
            &&& b.known == a.known
            &&& b.claimed == a.claimed
            &&& b.rpos == (if has_input(st) && a.input[a.rpos as int] is Bool {
                a.rpos + 1
            } else {
                a.rpos
            })
        },
{
}

/// A forced draw takes the boolean that is next in the input, and otherwise the
/// forced value, and records what it took. Running out of a known stream is an
/// overrun. With the tape off it gives the forced value and changes nothing.
pub proof fn lemma_forced_draw(st: StateView, forced: bool)
    requires
        st.streams[st.current].wpos <= st.streams[st.current].written.len(),
    ensures
        st.mode == TapeMode::Off ==> forced_drawn(st, forced) == (st, forced),
        st.mode != TapeMode::Off ==> {
            let (next, value) = forced_drawn(st, forced);
            let (a, b) = (st.streams[st.current], next.streams[st.current]);
            &&& others_kept(st, next)
            &&& writes_next(a, b, ChoiceView::Bool { value })
            &&& b.input == a.input
            &&& b.known == a.known
            &&& if has_input(st) && a.input[a.rpos as int] is Bool {
                &&& value == a.input[a.rpos as int]->Bool_value
                &&& b.rpos == a.rpos + 1
                &&& rest_kept(st, next)
            } else {
                &&& value == forced
                &&& b.rpos == a.rpos
                &&& next.overrun == (st.overrun || (st.mode == TapeMode::Replaying && a.known
                    && !has_input(st)))
                &&& rest_kept(StateView { overrun: next.overrun, ..st }, next)
            }
        },
{
}

/// A span marks what the main stream writes between its start and its end: the
/// end of the innermost open span adds the choices from where the main stream
/// ended at its start to where it ends now, unless that is none. Whatever
/// `later` is, as long as every span that was opened in between is closed.
pub proof fn lemma_span_marks_choices(st: StateView, later: StateView)
    requires
        st.mode != TapeMode::Off,
        st.current.len() == 0,
        st.streams[st.current].written.len() < usize::MAX,
        later.mode != TapeMode::Off,
        later.current.len() == 0,
        later.streams[later.current].written.len() <= usize::MAX,
        later.span_stack == span_opened(st).span_stack,
    ensures
        ({
            let start = st.streams[st.current].written.len();
            let end = later.streams[later.current].written.len();
            let closed = span_closed(later);
            &&& span_opened(st) == StateView { span_stack: later.span_stack, ..st }
            &&& closed.span_stack == st.span_stack
            &&& closed == StateView { span_stack: st.span_stack, spans: closed.spans, ..later }
            &&& end > start ==> closed.spans == later.spans.push(
                Span { start: start as usize, end: end as usize },
            )
            &&& end <= start ==> closed.spans == later.spans
        }),
{
    assert(later.span_stack.drop_last() =~= st.span_stack);
}

/// Off the main stream spans mark nothing, and closing a span that was never
/// opened does nothing.
pub proof fn lemma_spans_without_effect(st: StateView, later: StateView)
    requires
        later.span_stack == span_opened(st).span_stack,
    ensures
        st.span_stack.len() == 0 ==> span_closed(st) == st,
        st.mode == TapeMode::Off ==> span_opened(st) == st,
        st.mode != TapeMode::Off && st.current.len() > 0 ==> span_closed(later) == (StateView {
            span_stack: st.span_stack,
            ..later
        }),
        later.current.len() > 0 ==> span_closed(later).spans == later.spans,
{
    if st.mode != TapeMode::Off {
        assert(later.span_stack.drop_last() =~= st.span_stack);
    }
}

/// Sub-stream keys are the current key with an ordinal that counts up from 0,
/// for each parent on its own.
pub proof fn lemma_split_ordinals(st: StateView, n: nat, other: Seq<KeyElt>)
    requires
        st.split_counters[st.current] <= u32::MAX,
    ensures
        started(st.mode, n).split_counters[st.current] == 0,
        next_split(st).len() == st.current.len() + 1,
        forall|i: int| 0 <= i < st.current.len() ==> next_split(st)[i] == st.current[i],
        next_split(st).last() is Split,
        elt_number(next_split(st).last()) == st.split_counters[st.current],
        split_allocated(st).split_counters[st.current] == st.split_counters[st.current] + 1,
        other != st.current ==> split_allocated(st).split_counters[other]
            == st.split_counters[other],
        split_allocated(st).streams == st.streams,
        split_allocated(st).current == st.current,
        split_allocated(st).mode == st.mode,
{
}

/// Entering a stream sends draws there and starts it over: its cursors are at
/// the start, and what it has written stays. Where nothing is adopted its input
/// stays, and every other stream is left alone. Entering is no draw: nothing
/// overruns, no span and no sub-stream key comes of it.
pub proof fn lemma_entering(st: StateView, key: Seq<KeyElt>)
    ensures
        ({
            let next = entered(st, key);
            let (a, b) = (st.streams[key], next.streams[key]);
            &&& next.current == key
            &&& b.rpos == 0
            &&& b.wpos == 0
            &&& b.written == a.written
            &&& b.claimed
            &&& rest_kept(StateView { current: key, ..st }, next)
            &&& st.mode != TapeMode::Replaying || a.known || !is_salted(key) ==> adopted(st, key)
                is None
            &&& adopted(st, key) is None ==> {
                &&& b.input == a.input
                &&& b.known == a.known
                &&& forall|k: Seq<KeyElt>|
                    k != key ==> #[trigger] next.streams[k] == st.streams[k]
            }
        }),
{
}

/// A stream that may be adopted by `key`: the input has it, no call has entered
/// it, and its key differs from `key` in its salt only.
pub open spec fn orphan(st: StateView, key: Seq<KeyElt>, d: Seq<KeyElt>) -> bool {
    &&& st.streams[d].known
    &&& !st.streams[d].claimed
    &&& d.len() == key.len() > 0
    &&& d.last() is Salt
    &&& forall|i: int| 0 <= i < d.len() - 1 ==> d[i] == key[i]
}

proof fn lemma_orphans_are_donors(st: StateView, key: Seq<KeyElt>, d: Seq<KeyElt>)
    requires
        is_salted(key),
    ensures
        orphan(st, key, d) <==> is_donor(st, key, d),
{
    if orphan(st, key, d) {
        assert(d.drop_last() =~= key.drop_last());
    }
    if is_donor(st, key, d) {
        assert forall|i: int| 0 <= i < d.len() - 1 implies d[i] == key[i] by {
            assert(d.drop_last()[i] == key.drop_last()[i]);
        }
    }
}

/// A replay that enters the stream of a call which the input does not have
/// adopts the orphan with the lowest salt, if there is one: the call reads what
/// that stream would have read, from the start, and the orphan is spent, with
/// everything else of it, and every other stream, left alone.
pub proof fn lemma_adopting(st: StateView, key: Seq<KeyElt>, d: Seq<KeyElt>)
    requires
        st.mode == TapeMode::Replaying,
        !st.streams[key].known,
        key.len() > 0,
        key.last() is Salt,
        orphan(st, key, d),
        forall|e: Seq<KeyElt>| #[trigger]
            orphan(st, key, e) ==> elt_number(d.last()) <= elt_number(e.last()),
    ensures
        ({
            let next = entered(st, key);
            &&& next.streams[key].known
            &&& next.streams[key].input == st.streams[d].input
            &&& next.streams[key].rpos == 0
            &&& next.streams[d] == RtView { claimed: true, ..st.streams[d] }
            &&& forall|k: Seq<KeyElt>|
                k != key && k != d ==> #[trigger] next.streams[k] == st.streams[k]
        }),
{
    lemma_orphans_are_donors(st, key, d);
    lemma_first_donor_exists(st, key, d);
    lemma_adoption(st, key, d);
    let e = adopted(st, key)->0;
    assert(is_first_donor(st, key, e));
    lemma_orphans_are_donors(st, key, e);
    assert(orphan(st, key, e));
    if e != d {
        assert(is_donor(st, key, d));
        assert(key_lt(e, d));
        lemma_salted_keys(e, d);
    }
}

/// A replay that enters the stream of a call which the input does not have, and
/// finds no orphan, leaves the stream unknown: its draws are fresh.
pub proof fn lemma_no_orphan_no_input(st: StateView, key: Seq<KeyElt>)
    requires
        !st.streams[key].known,
        forall|d: Seq<KeyElt>| !#[trigger] orphan(st, key, d),
    ensures
        !entered(st, key).streams[key].known,
        forall|k: Seq<KeyElt>|
            k != key ==> #[trigger] entered(st, key).streams[k] == st.streams[k],
{
    if adopted(st, key) is Some {
        let d = choose|d: Seq<KeyElt>| is_first_donor(st, key, d);
        assert(is_first_donor(st, key, d));
        lemma_orphans_are_donors(st, key, d);
        assert(orphan(st, key, d));
    }
}

/// A run starts on the main stream with nothing written, nothing known and
/// nothing overrun, and keeps raw draws suppressed as they were.
pub proof fn lemma_run_starts_empty(mode: TapeMode, n: nat, k: Seq<KeyElt>)
    ensures
        ({
            let st = started(mode, n);
            &&& st.mode == mode
            &&& st.suppress_raw == n
            &&& st.current.len() == 0
            &&& !st.overrun
            &&& st.spans.len() == 0
            &&& st.span_stack.len() == 0
            &&& st.split_counters[k] == 0
            &&& st.streams[k].written.len() == 0
            &&& st.streams[k].wpos == 0
            &&& st.streams[k].input.len() == 0
            &&& st.streams[k].rpos == 0
            &&& !st.streams[k].known
            &&& !st.streams[k].claimed
        }),
{
}

/// A replay starts with each stream of the tape as the input of that stream,
/// the main one and each sub-stream, unread and not yet entered; no other stream
/// is known, and nothing is written.
pub proof fn lemma_replay_starts_with_tape(t: TapeView, n: nat, k: Seq<KeyElt>)
    requires
        forall|i: int, j: int|
            0 <= i < j < t.streams.len() ==> (#[trigger] t.streams[i]).key != (
            #[trigger] t.streams[j]).key,
        forall|i: int| 0 <= i < t.streams.len() ==> (#[trigger] t.streams[i]).key.len() > 0,
    ensures
        ({
            let st = replaying(t, n);
            &&& st.mode == TapeMode::Replaying
            &&& st.current.len() == 0
            &&& st.suppress_raw == n
            &&& !st.overrun
            &&& st.spans.len() == 0
            &&& st.span_stack.len() == 0
            &&& st.split_counters[k] == 0
            &&& st.streams[k].written.len() == 0
            &&& st.streams[k].wpos == 0
            &&& st.streams[k].rpos == 0
            &&& !st.streams[k].claimed
            &&& k.len() == 0 ==> st.streams[k].known && st.streams[k].input == t.choices
            &&& forall|i: int|
                0 <= i < t.streams.len() && (#[trigger] t.streams[i]).key == k
                    ==> st.streams[k].known && st.streams[k].input == t.streams[i].choices
            &&& k.len() > 0 && (forall|i: int|
                0 <= i < t.streams.len() ==> (#[trigger] t.streams[i]).key != k)
                ==> !st.streams[k].known
        }),
{
    lemma_replay_streams(t.choices, t.streams, k);
    if k.len() == 0 {
        assert forall|i: int| 0 <= i < t.streams.len() implies (#[trigger] t.streams[i]).key
            != k by {}
    }
    if exists|i: int| 0 <= i < t.streams.len() && (#[trigger] t.streams[i]).key == k {
        let i = choose|i: int| 0 <= i < t.streams.len() && (#[trigger] t.streams[i]).key == k;
        assert(t.streams[i].key == k);
    } else {
        assert forall|i: int| 0 <= i < t.streams.len() implies (#[trigger] t.streams[i]).key
            != k by {}
    }
}

/// The tape of a run has what the run wrote: the main stream and its spans, and
/// each sub-stream that was written to, once, under its key; streams that were
/// not written to are dropped. Sub-streams come in key order.
pub proof fn lemma_collected_tape_is_what_was_written(t: TapeView, st: StateView, k: Seq<KeyElt>)
    requires
        collects(t, st),
        k.len() > 0,
    ensures
        t.choices == st.streams[Seq::<KeyElt>::empty()].written,
        t.spans == st.spans,
        forall|i: int|
            0 <= i < t.streams.len() && (#[trigger] t.streams[i]).key == k ==> t.streams[i].choices
                == st.streams[k].written,
        st.streams[k].written.len() > 0 <==> exists|i: int|
            0 <= i < t.streams.len() && (#[trigger] t.streams[i]).key == k,
        forall|i: int, j: int|
            0 <= i < j < t.streams.len() ==> key_lt(
                (#[trigger] t.streams[i]).key,
                (#[trigger] t.streams[j]).key,
            ),
        forall|i: int| 0 <= i < t.streams.len() ==> (#[trigger] t.streams[i]).key.len() > 0,
{
}

} // verus!
