//! What holds of the persisted form: reading back gives what was written,
//! what is accepted is what would have been written, and cut input is
//! rejected.
use crate::choice::ChoiceView;
use crate::keys::KeyElt;
use crate::le::{
    le_bytes, lemma_le_bytes_len, lemma_le_bytes_of_value, lemma_le_round_trip, lemma_le_sizes,
    lemma_le_value_bound,
};
use crate::tape::{StreamView, TapeView};
use crate::wire::{
    choice_bytes, choice_parser, choices_bytes, elt_bytes, elt_parser, field, flag_byte, joined,
    key_bytes, lemma_joined_add, parse_choice, parse_counted, parse_elt, parse_flat, parse_n,
    parse_stream, parse_tape, stream_bytes, stream_parser, streams_bytes, tape_bytes,
    STREAMS_TAG,
};
use vstd::arithmetic::power::pow;
use vstd::prelude::*;

verus! {

/// The length of a counted section fits its four-byte count.
pub open spec fn counts(n: nat) -> bool {
    n < 0x1_0000_0000
}

/// The choice can be persisted: byte strings have a four-byte length.
pub open spec fn choice_fits(c: ChoiceView) -> bool {
    c matches ChoiceView::RawBytes { value } ==> counts(value.len())
}

/// The choices can be persisted.
pub open spec fn choices_fit(s: Seq<ChoiceView>) -> bool {
    forall|i: int| 0 <= i < s.len() ==> choice_fits(#[trigger] s[i])
}

/// The sub-stream can be persisted.
pub open spec fn stream_fits(s: StreamView) -> bool {
    counts(s.key.len()) && counts(s.choices.len()) && choices_fit(s.choices)
}

/// The tape can be persisted: everything that is counted has a four-byte
/// count.
pub open spec fn tape_fits(t: TapeView) -> bool {
    &&& choices_fit(t.choices)
    &&& t.streams.len() > 0 ==> counts(t.choices.len())
    &&& counts(t.streams.len())
    &&& forall|i: int| 0 <= i < t.streams.len() ==> stream_fits(#[trigger] t.streams[i])
}

/// The byte is the one that would be written, or stands for a set flag.
pub open spec fn alike_byte(read: u8, written: u8) -> bool {
    read == written || (read != 0 && written == 1)
}

/// The bytes are the ones that would be written, up to how a set flag is
/// spelled.
pub open spec fn alike(read: Seq<u8>, written: Seq<u8>) -> bool {
    read.len() == written.len() && forall|i: int|
        0 <= i < read.len() ==> alike_byte(#[trigger] read[i], written[i])
}

proof fn lemma_field(s: Seq<u8>, i: int, x: nat, n: nat)
    requires
        0 <= i,
        i + n <= s.len(),
        s.subrange(i, i + n) == le_bytes(x, n),
        x < pow(256, n),
    ensures
        field(s, i, i + n) == x,
{
    lemma_le_round_trip(x, n);
}

/// Reading the record of a choice gives the choice back.
pub proof fn lemma_choice_round_trip(c: ChoiceView, rest: Seq<u8>)
    requires
        choice_fits(c),
    ensures
        parse_choice(choice_bytes(c) + rest) == Some((c, rest)),
{
    let s = choice_bytes(c) + rest;
    lemma_le_sizes();
    match c {
        ChoiceView::Integer { value, min, max, shrink_to } => {
            lemma_le_bytes_len(value as nat, 16);
            lemma_le_bytes_len(min as nat, 16);
            lemma_le_bytes_len(max as nat, 16);
            lemma_le_bytes_len(shrink_to as nat, 16);
            assert(s.subrange(1, 17) =~= le_bytes(value as nat, 16));
            assert(s.subrange(17, 33) =~= le_bytes(min as nat, 16));
            assert(s.subrange(33, 49) =~= le_bytes(max as nat, 16));
            assert(s.subrange(49, 65) =~= le_bytes(shrink_to as nat, 16));
            lemma_field(s, 1, value as nat, 16);
            lemma_field(s, 17, min as nat, 16);
            lemma_field(s, 33, max as nat, 16);
            lemma_field(s, 49, shrink_to as nat, 16);
            assert(s.skip(65) =~= rest);
        },
        ChoiceView::Float { value, min, max, allow_nan } => {
            lemma_le_bytes_len(value as nat, 8);
            lemma_le_bytes_len(min as nat, 8);
            lemma_le_bytes_len(max as nat, 8);
            assert(s.subrange(1, 9) =~= le_bytes(value as nat, 8));
            assert(s.subrange(9, 17) =~= le_bytes(min as nat, 8));
            assert(s.subrange(17, 25) =~= le_bytes(max as nat, 8));
            lemma_field(s, 1, value as nat, 8);
            lemma_field(s, 9, min as nat, 8);
            lemma_field(s, 17, max as nat, 8);
            assert(s.skip(26) =~= rest);
        },
        ChoiceView::Bool { value } => {
            assert(s.skip(2) =~= rest);
        },
        ChoiceView::RawU32 { value } => {
            lemma_le_bytes_len(value as nat, 4);
            assert(s.subrange(1, 5) =~= le_bytes(value as nat, 4));
            lemma_field(s, 1, value as nat, 4);
            assert(s.skip(5) =~= rest);
        },
        ChoiceView::RawU64 { value } => {
            lemma_le_bytes_len(value as nat, 8);
            assert(s.subrange(1, 9) =~= le_bytes(value as nat, 8));
            lemma_field(s, 1, value as nat, 8);
            assert(s.skip(9) =~= rest);
        },
        ChoiceView::RawBytes { value } => {
            lemma_le_bytes_len(value.len(), 4);
            assert(s.subrange(1, 5) =~= le_bytes(value.len(), 4));
            lemma_field(s, 1, value.len(), 4);
            assert(s.subrange(5, 5 + value.len() as int) =~= value);
            assert(s.skip(5 + value.len() as int) =~= rest);
        },
    }
}

/// Reading the record of a key element gives the element back.
proof fn lemma_elt_round_trip(e: KeyElt, rest: Seq<u8>)
    ensures
        parse_elt(elt_bytes(e) + rest) == Some((e, rest)),
{
    let s = elt_bytes(e) + rest;
    lemma_le_sizes();
    match e {
        KeyElt::Split(n) => {
            lemma_le_bytes_len(n as nat, 4);
            assert(s.subrange(1, 5) =~= le_bytes(n as nat, 4));
            lemma_field(s, 1, n as nat, 4);
            assert(s.skip(5) =~= rest);
        },
        KeyElt::Salt(n) => {
            lemma_le_bytes_len(n as nat, 8);
            assert(s.subrange(1, 9) =~= le_bytes(n as nat, 8));
            lemma_field(s, 1, n as nat, 8);
            assert(s.skip(9) =~= rest);
        },
    }
}

/// `parse` reads back what `record` writes for `x`, whatever follows.
spec fn reads_back<T>(
    x: T,
    record: spec_fn(T) -> Seq<u8>,
    parse: spec_fn(Seq<u8>) -> Option<(T, Seq<u8>)>,
) -> bool {
    forall|rest: Seq<u8>| parse(#[trigger] (record(x) + rest)) == Some((x, rest))
}

proof fn lemma_joined_round_trip<T>(
    s: Seq<T>,
    record: spec_fn(T) -> Seq<u8>,
    parse: spec_fn(Seq<u8>) -> Option<(T, Seq<u8>)>,
    rest: Seq<u8>,
)
    requires
        forall|i: int| 0 <= i < s.len() ==> reads_back(#[trigger] s[i], record, parse),
    ensures
        parse_n(joined(s, record) + rest, s.len(), parse) == Some((s, rest)),
    decreases s.len(),
{
    if s.len() == 0 {
        assert(joined(s, record) + rest =~= rest);
        assert(s =~= Seq::empty());
    } else {
        let tail = s.drop_first();
        assert forall|i: int| 0 <= i < tail.len() implies reads_back(
            #[trigger] tail[i],
            record,
            parse,
        ) by {
            assert(tail[i] == s[i + 1]);
        }
        lemma_joined_round_trip(tail, record, parse, rest);
        assert(reads_back(s[0], record, parse));
        assert(joined(s, record) + rest =~= record(s[0]) + (joined(tail, record) + rest));
        assert(seq![s[0]] + tail =~= s);
    }
}

proof fn lemma_counted_round_trip<T>(
    s: Seq<T>,
    record: spec_fn(T) -> Seq<u8>,
    parse: spec_fn(Seq<u8>) -> Option<(T, Seq<u8>)>,
    rest: Seq<u8>,
)
    requires
        counts(s.len()),
        forall|i: int| 0 <= i < s.len() ==> reads_back(#[trigger] s[i], record, parse),
    ensures
        parse_counted(le_bytes(s.len(), 4) + joined(s, record) + rest, parse) == Some((s, rest)),
{
    let b = le_bytes(s.len(), 4) + joined(s, record) + rest;
    lemma_le_sizes();
    lemma_le_bytes_len(s.len(), 4);
    assert(b.subrange(0, 4) =~= le_bytes(s.len(), 4));
    lemma_field(b, 0, s.len(), 4);
    assert(b.skip(4) =~= joined(s, record) + rest);
    lemma_joined_round_trip(s, record, parse, rest);
}

proof fn lemma_choices_read_back(s: Seq<ChoiceView>)
    requires
        choices_fit(s),
    ensures
        forall|i: int|
            0 <= i < s.len() ==> reads_back(
                #[trigger] s[i],
                |c: ChoiceView| choice_bytes(c),
                choice_parser(),
            ),
{
    let record = |c: ChoiceView| choice_bytes(c);
    assert forall|i: int| 0 <= i < s.len() implies reads_back(
        #[trigger] s[i],
        record,
        choice_parser(),
    ) by {
        assert forall|rest: Seq<u8>| choice_parser()(#[trigger] (record(s[i]) + rest)) == Some(
            (s[i], rest),
        ) by {
            lemma_choice_round_trip(s[i], rest);
        }
    }
}

proof fn lemma_stream_round_trip(x: StreamView, rest: Seq<u8>)
    requires
        stream_fits(x),
    ensures
        parse_stream(stream_bytes(x) + rest) == Some((x, rest)),
{
    let elt_record = |e: KeyElt| elt_bytes(e);
    let choice_record = |c: ChoiceView| choice_bytes(c);
    let tail = le_bytes(x.choices.len(), 4) + choices_bytes(x.choices) + rest;
    assert forall|i: int| 0 <= i < x.key.len() implies reads_back(
        #[trigger] x.key[i],
        elt_record,
        elt_parser(),
    ) by {
        assert forall|r: Seq<u8>| elt_parser()(#[trigger] (elt_record(x.key[i]) + r)) == Some(
            (x.key[i], r),
        ) by {
            lemma_elt_round_trip(x.key[i], r);
        }
    }
    lemma_counted_round_trip(x.key, elt_record, elt_parser(), tail);
    lemma_choices_read_back(x.choices);
    lemma_counted_round_trip(x.choices, choice_record, choice_parser(), rest);
    assert(stream_bytes(x) + rest =~= le_bytes(x.key.len(), 4) + key_bytes(x.key) + tail);
}

proof fn lemma_flat_round_trip(s: Seq<ChoiceView>)
    requires
        choices_fit(s),
    ensures
        parse_flat(choices_bytes(s)) == Some(s),
    decreases s.len(),
{
    if s.len() == 0 {
        assert(s =~= Seq::empty());
    } else {
        let tail = s.drop_first();
        assert forall|i: int| 0 <= i < tail.len() implies choice_fits(#[trigger] tail[i]) by {
            assert(tail[i] == s[i + 1]);
        }
        lemma_flat_round_trip(tail);
        lemma_choice_round_trip(s[0], choices_bytes(tail));
        lemma_first_byte(s[0]);
        assert(seq![s[0]] + tail =~= s);
    }
}

/// A choice record starts with a tag below that of the sub-stream form, and
/// is never a lone tag.
proof fn lemma_first_byte(c: ChoiceView)
    ensures
        choice_bytes(c).len() >= 2,
        choice_bytes(c)[0] < STREAMS_TAG,
{
    match c {
        ChoiceView::Integer { value, .. } => {
            lemma_le_bytes_len(value as nat, 16);
        },
        ChoiceView::RawU32 { value } => {
            lemma_le_bytes_len(value as nat, 4);
        },
        ChoiceView::RawU64 { value } => {
            lemma_le_bytes_len(value as nat, 8);
        },
        ChoiceView::RawBytes { value } => {
            lemma_le_bytes_len(value.len(), 4);
        },
        _ => {},
    }
}

/// The two forms are told apart by their first byte: only a tape with
/// sub-streams starts with [`STREAMS_TAG`].
pub proof fn lemma_forms_told_apart(t: TapeView)
    ensures
        t.streams.len() > 0 ==> tape_bytes(t).len() > 0 && tape_bytes(t)[0] == STREAMS_TAG,
        t.streams.len() == 0 && tape_bytes(t).len() > 0 ==> tape_bytes(t)[0] < STREAMS_TAG,
{
    if t.streams.len() == 0 && t.choices.len() > 0 {
        lemma_first_byte(t.choices[0]);
    }
}

proof fn lemma_streams_read_back(s: Seq<StreamView>)
    requires
        forall|i: int| 0 <= i < s.len() ==> stream_fits(#[trigger] s[i]),
    ensures
        forall|i: int|
            0 <= i < s.len() ==> reads_back(
                #[trigger] s[i],
                |x: StreamView| stream_bytes(x),
                stream_parser(),
            ),
{
    let record = |x: StreamView| stream_bytes(x);
    assert forall|i: int| 0 <= i < s.len() implies reads_back(
        #[trigger] s[i],
        record,
        stream_parser(),
    ) by {
        assert forall|rest: Seq<u8>| stream_parser()(#[trigger] (record(s[i]) + rest)) == Some(
            (s[i], rest),
        ) by {
            lemma_stream_round_trip(s[i], rest);
        }
    }
}

/// Reading back the persisted form of a tape gives the tape, without its
/// spans.
pub proof fn lemma_tape_round_trip(t: TapeView)
    requires
        tape_fits(t),
    ensures
        parse_tape(tape_bytes(t)) == Some(
            TapeView { choices: t.choices, spans: Seq::empty(), streams: t.streams },
        ),
{
    lemma_forms_told_apart(t);
    if t.streams.len() == 0 {
        lemma_flat_round_trip(t.choices);
        assert(t.streams =~= Seq::empty());
    } else {
        let s = tape_bytes(t);
        let tail = le_bytes(t.streams.len(), 4) + streams_bytes(t.streams);
        assert(s.skip(1) =~= le_bytes(t.choices.len(), 4) + choices_bytes(t.choices) + tail);
        assert(tail =~= tail + Seq::empty());
        assert(parse_counted(s.skip(1), choice_parser()) == Some((t.choices, tail))) by {
            lemma_choices_read_back(t.choices);
            lemma_counted_round_trip(
                t.choices,
                |c: ChoiceView| choice_bytes(c),
                choice_parser(),
                tail,
            );
        }
        assert(parse_counted(tail, stream_parser()) == Some((t.streams, Seq::<u8>::empty()))) by {
            lemma_streams_read_back(t.streams);
            lemma_counted_round_trip(
                t.streams,
                |x: StreamView| stream_bytes(x),
                stream_parser(),
                Seq::empty(),
            );
        }
    }
}

proof fn lemma_alike_transitive(a: Seq<u8>, b: Seq<u8>, c: Seq<u8>)
    requires
        alike(a, b),
        alike(b, c),
    ensures
        alike(a, c),
{
    assert forall|i: int| 0 <= i < a.len() implies alike_byte(#[trigger] a[i], c[i]) by {
        assert(alike_byte(a[i], b[i]));
        assert(alike_byte(b[i], c[i]));
    }
}

proof fn lemma_alike_after(front: Seq<u8>, a: Seq<u8>, b: Seq<u8>)
    requires
        alike(a, b),
    ensures
        alike(front + a, front + b),
{
    assert forall|i: int| 0 <= i < front.len() + a.len() implies alike_byte(
        #[trigger] (front + a)[i],
        (front + b)[i],
    ) by {
        if i >= front.len() {
            assert(alike_byte(a[i - front.len()], b[i - front.len()]));
        }
    }
}

proof fn lemma_field_bytes(s: Seq<u8>, i: int, n: nat)
    requires
        0 <= i,
        i + n <= s.len(),
    ensures
        le_bytes(field(s, i, i + n), n) == s.subrange(i, i + n),
        field(s, i, i + n) < pow(256, n),
{
    lemma_le_bytes_of_value(s.subrange(i, i + n));
    lemma_le_value_bound(s.subrange(i, i + n));
}

/// What is accepted as a choice is the record of that choice.
proof fn lemma_choice_accepted(s: Seq<u8>)
    requires
        parse_choice(s) is Some,
    ensures
        ({
            let (c, rest) = parse_choice(s)->0;
            choice_fits(c) && alike(s, choice_bytes(c) + rest)
        }),
{
    let (c, rest) = parse_choice(s)->0;
    let w = choice_bytes(c) + rest;
    lemma_le_sizes();
    if s[0] == 0 {
        lemma_field_bytes(s, 1, 16);
        lemma_field_bytes(s, 17, 16);
        lemma_field_bytes(s, 33, 16);
        lemma_field_bytes(s, 49, 16);
        assert(w =~= s);
    } else if s[0] == 1 {
        lemma_field_bytes(s, 1, 8);
        lemma_field_bytes(s, 9, 8);
        lemma_field_bytes(s, 17, 8);
        assert(w =~= s.update(25, flag_byte(s[25] != 0)));
    } else if s[0] == 2 {
        assert(w =~= s.update(1, flag_byte(s[1] != 0)));
    } else if s[0] == 3 {
        lemma_field_bytes(s, 1, 4);
        assert(w =~= s);
    } else if s[0] == 4 {
        lemma_field_bytes(s, 1, 8);
        assert(w =~= s);
    } else {
        lemma_field_bytes(s, 1, 4);
        assert(w =~= s);
    }
}

proof fn lemma_elt_accepted(s: Seq<u8>)
    requires
        parse_elt(s) is Some,
    ensures
        ({
            let (e, rest) = parse_elt(s)->0;
            alike(s, elt_bytes(e) + rest)
        }),
{
    let (e, rest) = parse_elt(s)->0;
    lemma_le_sizes();
    if s[0] == 0 {
        lemma_field_bytes(s, 1, 4);
    } else {
        lemma_field_bytes(s, 1, 8);
    }
    assert(elt_bytes(e) + rest =~= s);
}

/// What `parse` accepts is what `record` writes, and satisfies `fits`.
spec fn accepts<T>(
    record: spec_fn(T) -> Seq<u8>,
    parse: spec_fn(Seq<u8>) -> Option<(T, Seq<u8>)>,
    fits: spec_fn(T) -> bool,
) -> bool {
    forall|s: Seq<u8>| #[trigger]
        parse(s) is Some ==> fits((parse(s)->0).0) && alike(
            s,
            record((parse(s)->0).0) + (parse(s)->0).1,
        )
}

proof fn lemma_joined_accepted<T>(
    s: Seq<u8>,
    n: nat,
    record: spec_fn(T) -> Seq<u8>,
    parse: spec_fn(Seq<u8>) -> Option<(T, Seq<u8>)>,
    fits: spec_fn(T) -> bool,
)
    requires
        accepts(record, parse, fits),
        parse_n(s, n, parse) is Some,
    ensures
        ({
            let (items, rest) = parse_n(s, n, parse)->0;
            &&& items.len() == n
            &&& alike(s, joined(items, record) + rest)
            &&& forall|i: int| 0 <= i < items.len() ==> fits(#[trigger] items[i])
        }),
    decreases n,
{
    let (items, rest) = parse_n(s, n, parse)->0;
    if n == 0 {
        assert(joined(items, record) + rest =~= s);
    } else {
        let (first, middle) = parse(s)->0;
        lemma_joined_accepted(middle, (n - 1) as nat, record, parse, fits);
        let tail = (parse_n(middle, (n - 1) as nat, parse)->0).0;
        assert(items.drop_first() =~= tail);
        lemma_alike_after(record(first), middle, joined(tail, record) + rest);
        lemma_alike_transitive(
            s,
            record(first) + middle,
            record(first) + (joined(tail, record) + rest),
        );
        assert(joined(items, record) + rest =~= record(first) + (joined(tail, record) + rest));
        assert forall|i: int| 0 <= i < items.len() implies fits(#[trigger] items[i]) by {
            if i > 0 {
                assert(items[i] == tail[i - 1]);
            }
        }
    }
}

proof fn lemma_counted_accepted<T>(
    s: Seq<u8>,
    record: spec_fn(T) -> Seq<u8>,
    parse: spec_fn(Seq<u8>) -> Option<(T, Seq<u8>)>,
    fits: spec_fn(T) -> bool,
)
    requires
        accepts(record, parse, fits),
        parse_counted(s, parse) is Some,
    ensures
        ({
            let (items, rest) = parse_counted(s, parse)->0;
            &&& counts(items.len())
            &&& alike(s, le_bytes(items.len(), 4) + joined(items, record) + rest)
            &&& forall|i: int| 0 <= i < items.len() ==> fits(#[trigger] items[i])
        }),
{
    let (items, rest) = parse_counted(s, parse)->0;
    lemma_le_sizes();
    lemma_field_bytes(s, 0, 4);
    lemma_joined_accepted(s.skip(4), field(s, 0, 4), record, parse, fits);
    lemma_alike_after(s.subrange(0, 4), s.skip(4), joined(items, record) + rest);
    assert(s.subrange(0, 4) + s.skip(4) =~= s);
    assert(le_bytes(items.len(), 4) + joined(items, record) + rest =~= s.subrange(0, 4) + (joined(
        items,
        record,
    ) + rest));
}

proof fn lemma_choices_accepted()
    ensures
        accepts(
            |c: ChoiceView| choice_bytes(c),
            choice_parser(),
            |c: ChoiceView| choice_fits(c),
        ),
{
    assert forall|s: Seq<u8>| #[trigger] choice_parser()(s) is Some implies choice_fits(
        (choice_parser()(s)->0).0,
    ) && alike(s, choice_bytes((choice_parser()(s)->0).0) + (choice_parser()(s)->0).1) by {
        lemma_choice_accepted(s);
    }
}

proof fn lemma_stream_accepted(s: Seq<u8>)
    requires
        parse_stream(s) is Some,
    ensures
        ({
            let (x, rest) = parse_stream(s)->0;
            stream_fits(x) && alike(s, stream_bytes(x) + rest)
        }),
{
    let (x, rest) = parse_stream(s)->0;
    let (key, middle) = parse_counted(s, elt_parser())->0;
    let elt_record = |e: KeyElt| elt_bytes(e);
    let choice_record = |c: ChoiceView| choice_bytes(c);
    let any = |e: KeyElt| true;
    assert(accepts(elt_record, elt_parser(), any)) by {
        assert forall|b: Seq<u8>| #[trigger] elt_parser()(b) is Some implies any(
            (elt_parser()(b)->0).0,
        ) && alike(b, elt_record((elt_parser()(b)->0).0) + (elt_parser()(b)->0).1) by {
            lemma_elt_accepted(b);
        }
    }
    lemma_counted_accepted(s, elt_record, elt_parser(), any);
    lemma_choices_accepted();
    let fits = |c: ChoiceView| choice_fits(c);
    lemma_counted_accepted(middle, choice_record, choice_parser(), fits);
    let tail = le_bytes(x.choices.len(), 4) + choices_bytes(x.choices) + rest;
    let front = le_bytes(key.len(), 4) + key_bytes(key);
    lemma_alike_after(front, middle, tail);
    lemma_alike_transitive(s, front + middle, front + tail);
    assert(stream_bytes(x) + rest =~= front + tail);
    assert forall|i: int| 0 <= i < x.choices.len() implies choice_fits(#[trigger] x.choices[i]) by {
        assert(fits(x.choices[i]));
    }
}

proof fn lemma_flat_accepted(s: Seq<u8>)
    requires
        parse_flat(s) is Some,
    ensures
        choices_fit(parse_flat(s)->0),
        alike(s, choices_bytes(parse_flat(s)->0)),
    decreases s.len(),
{
    let items = parse_flat(s)->0;
    if s.len() > 0 {
        let (first, middle) = parse_choice(s)->0;
        let tail = parse_flat(middle)->0;
        lemma_flat_accepted(middle);
        lemma_choice_accepted(s);
        assert(items.drop_first() =~= tail);
        lemma_alike_after(choice_bytes(first), middle, choices_bytes(tail));
        lemma_alike_transitive(
            s,
            choice_bytes(first) + middle,
            choice_bytes(first) + choices_bytes(tail),
        );
        assert forall|i: int| 0 <= i < items.len() implies choice_fits(#[trigger] items[i]) by {
            if i > 0 {
                assert(items[i] == tail[i - 1]);
            }
        }
    }
}

proof fn lemma_streams_accepted()
    ensures
        accepts(
            |x: StreamView| stream_bytes(x),
            stream_parser(),
            |x: StreamView| stream_fits(x),
        ),
{
    assert forall|s: Seq<u8>| #[trigger] stream_parser()(s) is Some implies stream_fits(
        (stream_parser()(s)->0).0,
    ) && alike(s, stream_bytes((stream_parser()(s)->0).0) + (stream_parser()(s)->0).1) by {
        lemma_stream_accepted(s);
    }
}

/// A counted run of choices.
proof fn lemma_counted_choices_accepted(s: Seq<u8>)
    requires
        parse_counted(s, choice_parser()) is Some,
    ensures
        ({
            let (choices, rest) = parse_counted(s, choice_parser())->0;
            &&& counts(choices.len())
            &&& choices_fit(choices)
            &&& alike(s, le_bytes(choices.len(), 4) + choices_bytes(choices) + rest)
        }),
{
    let (choices, rest) = parse_counted(s, choice_parser())->0;
    let fits = |c: ChoiceView| choice_fits(c);
    lemma_choices_accepted();
    lemma_counted_accepted(s, |c: ChoiceView| choice_bytes(c), choice_parser(), fits);
    assert forall|i: int| 0 <= i < choices.len() implies choice_fits(#[trigger] choices[i]) by {
        assert(fits(choices[i]));
    }
}

/// A counted list of sub-streams.
proof fn lemma_counted_streams_accepted(s: Seq<u8>)
    requires
        parse_counted(s, stream_parser()) is Some,
    ensures
        ({
            let (streams, rest) = parse_counted(s, stream_parser())->0;
            &&& counts(streams.len())
            &&& forall|i: int| 0 <= i < streams.len() ==> stream_fits(#[trigger] streams[i])
            &&& alike(s, le_bytes(streams.len(), 4) + streams_bytes(streams) + rest)
        }),
{
    let (streams, rest) = parse_counted(s, stream_parser())->0;
    let fits = |x: StreamView| stream_fits(x);
    lemma_streams_accepted();
    lemma_counted_accepted(s, |x: StreamView| stream_bytes(x), stream_parser(), fits);
    assert forall|i: int| 0 <= i < streams.len() implies stream_fits(#[trigger] streams[i]) by {
        assert(fits(streams[i]));
    }
}

/// A form with sub-streams that is accepted is the tag, then the counted main
/// section, then the counted streams.
proof fn lemma_sections_accepted(s: Seq<u8>)
    requires
        s.len() > 0,
        s[0] == STREAMS_TAG,
        parse_tape(s) is Some,
    ensures
        ({
            let t = parse_tape(s)->0;
            let front = le_bytes(t.choices.len(), 4) + choices_bytes(t.choices);
            let tail = le_bytes(t.streams.len(), 4) + streams_bytes(t.streams);
            &&& tape_fits(t)
            &&& t.spans.len() == 0
            &&& alike(s, seq![STREAMS_TAG] + (front + tail))
        }),
{
    let (choices, middle) = parse_counted(s.skip(1), choice_parser())->0;
    let (streams, rest) = parse_counted(middle, stream_parser())->0;
    lemma_counted_choices_accepted(s.skip(1));
    lemma_counted_streams_accepted(middle);
    let front = le_bytes(choices.len(), 4) + choices_bytes(choices);
    let tail = le_bytes(streams.len(), 4) + streams_bytes(streams);
    assert(tail + rest =~= tail);
    lemma_alike_after(front, middle, tail);
    lemma_alike_transitive(s.skip(1), front + middle, front + tail);
    lemma_alike_after(seq![STREAMS_TAG], s.skip(1), front + tail);
    assert(seq![STREAMS_TAG] + s.skip(1) =~= s);
}

/// Strictness: bytes that are accepted as a tape are the persisted form of
/// that tape, up to how a set flag is spelled. The one exception is a form
/// with sub-streams that counts none of them: it is written flat.
pub proof fn lemma_tape_accepted(s: Seq<u8>)
    requires
        parse_tape(s) is Some,
    ensures
        ({
            let t = parse_tape(s)->0;
            &&& tape_fits(t)
            &&& t.spans.len() == 0
            &&& t.streams.len() > 0 || s.len() == 0 || s[0] != STREAMS_TAG ==> alike(
                s,
                tape_bytes(t),
            )
            &&& parse_tape(tape_bytes(t)) == Some(t)
        }),
{
    let t = parse_tape(s)->0;
    if s.len() > 0 && s[0] == STREAMS_TAG {
        lemma_sections_accepted(s);
        if t.streams.len() > 0 {
            let front = le_bytes(t.choices.len(), 4) + choices_bytes(t.choices);
            let tail = le_bytes(t.streams.len(), 4) + streams_bytes(t.streams);
            assert(tape_bytes(t) =~= seq![STREAMS_TAG] + (front + tail));
        }
    } else {
        lemma_flat_accepted(s);
    }
    lemma_tape_round_trip(t);
}

proof fn lemma_field_extends(p: Seq<u8>, q: Seq<u8>, i: int, j: int)
    requires
        0 <= i <= j <= p.len(),
    ensures
        field(p + q, i, j) == field(p, i, j),
{
    assert((p + q).subrange(i, j) =~= p.subrange(i, j));
}

/// Bytes after a record do not change how it is read.
proof fn lemma_choice_extends(p: Seq<u8>, q: Seq<u8>)
    requires
        parse_choice(p) is Some,
    ensures
        parse_choice(p + q) == Some(((parse_choice(p)->0).0, (parse_choice(p)->0).1 + q)),
{
    let s = p + q;
    let (c, rest) = parse_choice(p)->0;
    assert(s[0] == p[0]);
    if p[0] == 0 {
        lemma_field_extends(p, q, 1, 17);
        lemma_field_extends(p, q, 17, 33);
        lemma_field_extends(p, q, 33, 49);
        lemma_field_extends(p, q, 49, 65);
        assert(s.skip(65) =~= rest + q);
    } else if p[0] == 1 {
        lemma_field_extends(p, q, 1, 9);
        lemma_field_extends(p, q, 9, 17);
        lemma_field_extends(p, q, 17, 25);
        assert(s.skip(26) =~= rest + q);
    } else if p[0] == 2 {
        assert(s.skip(2) =~= rest + q);
    } else if p[0] == 3 {
        lemma_field_extends(p, q, 1, 5);
        assert(s.skip(5) =~= rest + q);
    } else if p[0] == 4 {
        lemma_field_extends(p, q, 1, 9);
        assert(s.skip(9) =~= rest + q);
    } else {
        lemma_field_extends(p, q, 1, 5);
        let end = 5 + field(p, 1, 5) as int;
        assert(s.subrange(5, end) =~= p.subrange(5, end));
        assert(s.skip(end) =~= rest + q);
    }
}

proof fn lemma_elt_extends(p: Seq<u8>, q: Seq<u8>)
    requires
        parse_elt(p) is Some,
    ensures
        parse_elt(p + q) == Some(((parse_elt(p)->0).0, (parse_elt(p)->0).1 + q)),
{
    let s = p + q;
    let (e, rest) = parse_elt(p)->0;
    assert(s[0] == p[0]);
    if p[0] == 0 {
        lemma_field_extends(p, q, 1, 5);
        assert(s.skip(5) =~= rest + q);
    } else {
        lemma_field_extends(p, q, 1, 9);
        assert(s.skip(9) =~= rest + q);
    }
}

/// Bytes after what `parse` reads do not change how it is read.
spec fn extends<T>(parse: spec_fn(Seq<u8>) -> Option<(T, Seq<u8>)>) -> bool {
    forall|p: Seq<u8>, q: Seq<u8>|
        parse(p) is Some ==> parse(#[trigger] (p + q)) == Some(
            ((parse(p)->0).0, (parse(p)->0).1 + q),
        )
}

proof fn lemma_parse_n_extends<T>(
    p: Seq<u8>,
    q: Seq<u8>,
    n: nat,
    parse: spec_fn(Seq<u8>) -> Option<(T, Seq<u8>)>,
)
    requires
        extends(parse),
        parse_n(p, n, parse) is Some,
    ensures
        parse_n(p + q, n, parse) == Some(
            ((parse_n(p, n, parse)->0).0, (parse_n(p, n, parse)->0).1 + q),
        ),
    decreases n,
{
    if n > 0 {
        let (first, rest) = parse(p)->0;
        lemma_parse_n_extends(rest, q, (n - 1) as nat, parse);
    }
}

proof fn lemma_counted_extends<T>(
    p: Seq<u8>,
    q: Seq<u8>,
    parse: spec_fn(Seq<u8>) -> Option<(T, Seq<u8>)>,
)
    requires
        extends(parse),
        parse_counted(p, parse) is Some,
    ensures
        parse_counted(p + q, parse) == Some(
            ((parse_counted(p, parse)->0).0, (parse_counted(p, parse)->0).1 + q),
        ),
{
    lemma_field_extends(p, q, 0, 4);
    assert((p + q).skip(4) =~= p.skip(4) + q);
    lemma_parse_n_extends(p.skip(4), q, field(p, 0, 4), parse);
}

proof fn lemma_parsers_extend()
    ensures
        extends(choice_parser()),
        extends(stream_parser()),
{
    assert(extends(choice_parser())) by {
        assert forall|p: Seq<u8>, q: Seq<u8>| choice_parser()(p) is Some implies choice_parser()(
            #[trigger] (p + q),
        ) == Some(((choice_parser()(p)->0).0, (choice_parser()(p)->0).1 + q)) by {
            lemma_choice_extends(p, q);
        }
    }
    assert(extends(elt_parser())) by {
        assert forall|p: Seq<u8>, q: Seq<u8>| elt_parser()(p) is Some implies elt_parser()(
            #[trigger] (p + q),
        ) == Some(((elt_parser()(p)->0).0, (elt_parser()(p)->0).1 + q)) by {
            lemma_elt_extends(p, q);
        }
    }
    assert(extends(stream_parser())) by {
        assert forall|p: Seq<u8>, q: Seq<u8>| stream_parser()(p) is Some implies stream_parser()(
            #[trigger] (p + q),
        ) == Some(((stream_parser()(p)->0).0, (stream_parser()(p)->0).1 + q)) by {
            lemma_counted_extends(p, q, elt_parser());
            lemma_counted_extends((parse_counted(p, elt_parser())->0).1, q, choice_parser());
        }
    }
}

/// A tape with sub-streams that was cut short, but not to nothing, is
/// rejected.
pub proof fn lemma_cut_streams_rejected(t: TapeView, k: int)
    requires
        tape_fits(t),
        t.streams.len() > 0,
        0 < k < tape_bytes(t).len(),
    ensures
        parse_tape(tape_bytes(t).take(k)) is None,
{
    let s = tape_bytes(t);
    let p = s.take(k);
    let q = s.skip(k);
    assert(p[0] == STREAMS_TAG);
    assert(p + q =~= s);
    assert(p.skip(1) + q =~= s.skip(1));
    lemma_parsers_extend();
    lemma_tape_round_trip(t);
    if parse_tape(p) is Some {
        let middle = (parse_counted(p.skip(1), choice_parser())->0).1;
        lemma_counted_extends(p.skip(1), q, choice_parser());
        lemma_counted_extends(middle, q, stream_parser());
        let rest = (parse_counted(middle, stream_parser())->0).1;
        assert((rest + q).len() > 0);
        assert(false);
    }
}

/// A tape with sub-streams that is followed by anything is rejected.
pub proof fn lemma_followed_streams_rejected(t: TapeView, x: Seq<u8>)
    requires
        tape_fits(t),
        t.streams.len() > 0,
        x.len() > 0,
    ensures
        parse_tape(tape_bytes(t) + x) is None,
{
    let s = tape_bytes(t);
    assert((s + x)[0] == STREAMS_TAG);
    assert((s + x).skip(1) =~= s.skip(1) + x);
    lemma_parsers_extend();
    lemma_tape_round_trip(t);
    let middle = (parse_counted(s.skip(1), choice_parser())->0).1;
    lemma_counted_extends(s.skip(1), x, choice_parser());
    lemma_counted_extends(middle, x, stream_parser());
    assert(((parse_counted(middle, stream_parser())->0).1 + x).len() > 0);
}

/// Reading on after the records of a run that fits.
proof fn lemma_flat_continues(s: Seq<ChoiceView>, rest: Seq<u8>)
    requires
        choices_fit(s),
        parse_flat(rest) is None,
    ensures
        parse_flat(choices_bytes(s) + rest) is None,
    decreases s.len(),
{
    if s.len() == 0 {
        assert(choices_bytes(s) + rest =~= rest);
    } else {
        let tail = s.drop_first();
        assert forall|i: int| 0 <= i < tail.len() implies choice_fits(#[trigger] tail[i]) by {
            assert(tail[i] == s[i + 1]);
        }
        lemma_flat_continues(tail, rest);
        lemma_choice_round_trip(s[0], choices_bytes(tail) + rest);
        lemma_first_byte(s[0]);
        assert(choices_bytes(s) + rest =~= choice_bytes(s[0]) + (choices_bytes(tail) + rest));
    }
}

/// A flat tape that was cut inside the record of one of its choices is
/// rejected: `s` are the choices before it and `k` bytes of its record are
/// left. (A flat tape cut between records is a shorter tape.)
pub proof fn lemma_cut_record_rejected(s: Seq<ChoiceView>, c: ChoiceView, k: int)
    requires
        choices_fit(s),
        choice_fits(c),
        0 < k < choice_bytes(c).len(),
    ensures
        parse_tape(choices_bytes(s) + choice_bytes(c).take(k)) is None,
{
    let p = choice_bytes(c).take(k);
    let q = choice_bytes(c).skip(k);
    lemma_first_byte(c);
    assert(p[0] == choice_bytes(c)[0]);
    if parse_choice(p) is Some {
        lemma_choice_extends(p, q);
        assert(p + q =~= choice_bytes(c) + Seq::empty());
        lemma_choice_round_trip(c, Seq::empty());
        assert(((parse_choice(p)->0).1 + q).len() > 0);
        assert(false);
    }
    lemma_flat_continues(s, p);
    let b = choices_bytes(s) + p;
    if s.len() > 0 {
        lemma_first_byte(s[0]);
        assert(b[0] == choice_bytes(s[0])[0]);
    } else {
        assert(b =~= p);
    }
}

/// A tape, cut short by its last byte, is rejected: unless it holds nothing
/// at all, it never reads as another tape.
pub proof fn lemma_truncated_tape_rejected(t: TapeView)
    requires
        tape_fits(t),
        tape_bytes(t).len() > 0,
    ensures
        parse_tape(tape_bytes(t).drop_last()) is None,
{
    let b = tape_bytes(t);
    if t.streams.len() > 0 {
        lemma_le_bytes_len(t.choices.len(), 4);
        lemma_cut_streams_rejected(t, b.len() - 1);
        assert(b.drop_last() =~= b.take(b.len() - 1));
    } else {
        assert(t.choices.len() > 0);
        let front = t.choices.drop_last();
        let c = t.choices.last();
        let record = |c: ChoiceView| choice_bytes(c);
        assert(t.choices =~= front + seq![c]);
        lemma_joined_add(front, seq![c], record);
        assert(joined(seq![c].drop_first(), record) =~= Seq::<u8>::empty());
        assert(joined(seq![c], record) =~= choice_bytes(c));
        lemma_first_byte(c);
        let k = choice_bytes(c).len() - 1;
        assert forall|i: int| 0 <= i < front.len() implies choice_fits(#[trigger] front[i]) by {
            assert(front[i] == t.choices[i]);
        }
        assert(choice_fits(t.choices[t.choices.len() - 1]));
        lemma_cut_record_rejected(front, c, k);
        assert(b.drop_last() =~= choices_bytes(front) + choice_bytes(c).take(k));
    }
}

/// The record of a choice: a tag for its kind, then its fields as little-endian
/// numbers of 16, 8 or 4 bytes, a byte for a flag, and a byte string after its
/// length.
pub proof fn lemma_record_layout(c: ChoiceView)
    requires
        choice_fits(c),
    ensures
        ({
            let s = choice_bytes(c);
            match c {
                ChoiceView::Integer { value, min, max, shrink_to } => {
                    &&& s.len() == 65
                    &&& s[0] == 0
                    &&& s.subrange(1, 17) == le_bytes(value as nat, 16)
                    &&& s.subrange(17, 33) == le_bytes(min as nat, 16)
                    &&& s.subrange(33, 49) == le_bytes(max as nat, 16)
                    &&& s.subrange(49, 65) == le_bytes(shrink_to as nat, 16)
                },
                ChoiceView::Float { value, min, max, allow_nan } => {
                    &&& s.len() == 26
                    &&& s[0] == 1
                    &&& s.subrange(1, 9) == le_bytes(value as nat, 8)
                    &&& s.subrange(9, 17) == le_bytes(min as nat, 8)
                    &&& s.subrange(17, 25) == le_bytes(max as nat, 8)
                    &&& s[25] == (if allow_nan { 1u8 } else { 0 })
                },
                ChoiceView::Bool { value } => s.len() == 2 && s[0] == 2 && s[1] == (if value {
                    1u8
                } else {
                    0
                }),
                ChoiceView::RawU32 { value } => s.len() == 5 && s[0] == 3 && s.subrange(1, 5)
                    == le_bytes(value as nat, 4),
                ChoiceView::RawU64 { value } => s.len() == 9 && s[0] == 4 && s.subrange(1, 9)
                    == le_bytes(value as nat, 8),
                ChoiceView::RawBytes { value } => {
                    &&& s.len() == 5 + value.len()
                    &&& s[0] == 5
                    &&& s.subrange(1, 5) == le_bytes(value.len(), 4)
                    &&& s.skip(5) == value
                },
            }
        }),
{
    let s = choice_bytes(c);
    match c {
        ChoiceView::Integer { value, min, max, shrink_to } => {
            lemma_le_bytes_len(value as nat, 16);
            lemma_le_bytes_len(min as nat, 16);
            lemma_le_bytes_len(max as nat, 16);
            lemma_le_bytes_len(shrink_to as nat, 16);
            assert(s.subrange(1, 17) =~= le_bytes(value as nat, 16));
            assert(s.subrange(17, 33) =~= le_bytes(min as nat, 16));
            assert(s.subrange(33, 49) =~= le_bytes(max as nat, 16));
            assert(s.subrange(49, 65) =~= le_bytes(shrink_to as nat, 16));
        },
        ChoiceView::Float { value, min, max, allow_nan } => {
            lemma_le_bytes_len(value as nat, 8);
            lemma_le_bytes_len(min as nat, 8);
            lemma_le_bytes_len(max as nat, 8);
            assert(s.subrange(1, 9) =~= le_bytes(value as nat, 8));
            assert(s.subrange(9, 17) =~= le_bytes(min as nat, 8));
            assert(s.subrange(17, 25) =~= le_bytes(max as nat, 8));
        },
        ChoiceView::Bool { value } => {},
        ChoiceView::RawU32 { value } => {
            lemma_le_bytes_len(value as nat, 4);
            assert(s.subrange(1, 5) =~= le_bytes(value as nat, 4));
        },
        ChoiceView::RawU64 { value } => {
            lemma_le_bytes_len(value as nat, 8);
            assert(s.subrange(1, 9) =~= le_bytes(value as nat, 8));
        },
        ChoiceView::RawBytes { value } => {
            lemma_le_bytes_len(value.len(), 4);
            assert(s.subrange(1, 5) =~= le_bytes(value.len(), 4));
            assert(s.skip(5) =~= value);
        },
    }
}

/// The persisted form without sub-streams: nothing for no choice, and one more
/// choice adds its record at the end. Spans are not persisted.
pub proof fn lemma_flat_layout(t: TapeView, c: ChoiceView)
    requires
        t.streams.len() == 0,
    ensures
        t.choices.len() == 0 ==> tape_bytes(t).len() == 0,
        tape_bytes(TapeView { choices: t.choices.push(c), ..t }) == tape_bytes(t) + choice_bytes(c),
        tape_bytes(TapeView { spans: Seq::empty(), ..t }) == tape_bytes(t),
{
    let record = |c: ChoiceView| choice_bytes(c);
    assert(t.choices.push(c) =~= t.choices + seq![c]);
    lemma_joined_add(t.choices, seq![c], record);
    assert(seq![c].drop_first() =~= Seq::<ChoiceView>::empty());
    assert(joined(seq![c].drop_first(), record) =~= Seq::<u8>::empty());
    assert(joined(seq![c], record) =~= choice_bytes(c));
}

/// The persisted form with sub-streams: the tag 6, the counted records of the
/// main stream, then the counted sections of the sub-streams. A section is a
/// counted key, of a tagged ordinal or salt for each element, and counted
/// records. Spans are not persisted.
pub proof fn lemma_sectioned_layout(t: TapeView, x: StreamView, e: KeyElt)
    requires
        t.streams.len() > 0,
    ensures
        ({
            let flat = TapeView { streams: Seq::empty(), ..t };
            &&& tape_bytes(t) == seq![6u8] + le_bytes(t.choices.len(), 4) + tape_bytes(flat)
                + le_bytes(t.streams.len(), 4) + streams_bytes(t.streams)
            &&& tape_bytes(TapeView { spans: Seq::empty(), ..t }) == tape_bytes(t)
            &&& streams_bytes(t.streams.push(x)) == streams_bytes(t.streams) + stream_bytes(x)
            &&& streams_bytes(Seq::<StreamView>::empty()).len() == 0
            &&& stream_bytes(x) == le_bytes(x.key.len(), 4) + key_bytes(x.key) + le_bytes(
                x.choices.len(),
                4,
            ) + tape_bytes(TapeView { choices: x.choices, ..flat })
            &&& key_bytes(x.key.push(e)) == key_bytes(x.key) + (match e {
                KeyElt::Split(n) => seq![0u8] + le_bytes(n as nat, 4),
                KeyElt::Salt(n) => seq![1u8] + le_bytes(n as nat, 8),
            })
            &&& key_bytes(Seq::<KeyElt>::empty()).len() == 0
        }),
{
    let section = |x: StreamView| stream_bytes(x);
    let record = |e: KeyElt| elt_bytes(e);
    assert(t.streams.push(x) =~= t.streams + seq![x]);
    lemma_joined_add(t.streams, seq![x], section);
    assert(joined(seq![x].drop_first(), section) =~= Seq::<u8>::empty());
    assert(joined(seq![x], section) =~= stream_bytes(x));
    assert(x.key.push(e) =~= x.key + seq![e]);
    lemma_joined_add(x.key, seq![e], record);
    assert(joined(seq![e].drop_first(), record) =~= Seq::<u8>::empty());
    assert(joined(seq![e], record) =~= elt_bytes(e));
}

/// A record or a tape that starts with a tag of no kind is rejected, and so is
/// no record at all.
pub proof fn lemma_unknown_tags_rejected(s: Seq<u8>)
    ensures
        s.len() == 0 ==> parse_choice(s) is None,
        s.len() > 0 && s[0] > 5 ==> parse_choice(s) is None,
        s.len() > 0 && s[0] > 6 ==> parse_tape(s) is None,
        s.len() > 0 && s[0] > 1 ==> parse_elt(s) is None,
{
}

} // verus!
