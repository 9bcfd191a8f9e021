//! The persisted byte form of a tape.
//!
//! A tape without sub-streams is the flat list of its choice records. A tape
//! with sub-streams starts with a tag that no choice record has, followed by
//! a counted main section and counted keyed stream sections. Spans are not
//! persisted.
use crate::choice::{views, Choice, ChoiceView};
use crate::keys::{KeyElt, StreamKey};
use crate::le::{le_bytes, le_value, lemma_le_sizes, lemma_le_value_bound, push_le, read_le};
use crate::tape::{stream_views, StreamView, Tape, TapeView};
use vstd::arithmetic::power::pow;
use vstd::prelude::*;

verus! {

/// The first byte of a tape with sub-streams.
pub const STREAMS_TAG: u8 = 6;

/// A flag as it is written.
pub open spec fn flag_byte(b: bool) -> u8 {
    if b {
        1
    } else {
        0
    }
}

/// The record of a choice.
pub open spec fn choice_bytes(c: ChoiceView) -> Seq<u8> {
    match c {
        ChoiceView::Integer { value, min, max, shrink_to } => seq![0u8] + le_bytes(
            value as nat,
            16,
        ) + le_bytes(min as nat, 16) + le_bytes(max as nat, 16) + le_bytes(shrink_to as nat, 16),
        ChoiceView::Float { value, min, max, allow_nan } => seq![1u8] + le_bytes(value as nat, 8)
            + le_bytes(min as nat, 8) + le_bytes(max as nat, 8) + seq![flag_byte(allow_nan)],
        ChoiceView::Bool { value } => seq![2u8, flag_byte(value)],
        ChoiceView::RawU32 { value } => seq![3u8] + le_bytes(value as nat, 4),
        ChoiceView::RawU64 { value } => seq![4u8] + le_bytes(value as nat, 8),
        ChoiceView::RawBytes { value } => seq![5u8] + le_bytes(value.len(), 4) + value,
    }
}

/// The record of a key element.
pub open spec fn elt_bytes(e: KeyElt) -> Seq<u8> {
    match e {
        KeyElt::Split(n) => seq![0u8] + le_bytes(n as nat, 4),
        KeyElt::Salt(s) => seq![1u8] + le_bytes(s as nat, 8),
    }
}

/// The records of all elements, one after the other.
pub open spec fn joined<T>(s: Seq<T>, record: spec_fn(T) -> Seq<u8>) -> Seq<u8>
    decreases s.len(),
{
    if s.len() == 0 {
        Seq::empty()
    } else {
        record(s[0]) + joined(s.drop_first(), record)
    }
}

/// The records of a run of choices.
pub open spec fn choices_bytes(s: Seq<ChoiceView>) -> Seq<u8> {
    joined(s, |c: ChoiceView| choice_bytes(c))
}

/// The records of a key.
pub open spec fn key_bytes(s: Seq<KeyElt>) -> Seq<u8> {
    joined(s, |e: KeyElt| elt_bytes(e))
}

/// The section of a sub-stream: its counted key and its counted choices.
pub open spec fn stream_bytes(s: StreamView) -> Seq<u8> {
    le_bytes(s.key.len(), 4) + key_bytes(s.key) + le_bytes(s.choices.len(), 4) + choices_bytes(
        s.choices,
    )
}

/// The sections of all sub-streams.
pub open spec fn streams_bytes(s: Seq<StreamView>) -> Seq<u8> {
    joined(s, |x: StreamView| stream_bytes(x))
}

/// The persisted form of a tape.
pub open spec fn tape_bytes(t: TapeView) -> Seq<u8> {
    if t.streams.len() == 0 {
        choices_bytes(t.choices)
    } else {
        seq![STREAMS_TAG] + le_bytes(t.choices.len(), 4) + choices_bytes(t.choices) + le_bytes(
            t.streams.len(),
            4,
        ) + streams_bytes(t.streams)
    }
}

/// The number in the bytes of `s` from `i` up to `j`.
pub open spec fn field(s: Seq<u8>, i: int, j: int) -> nat {
    le_value(s.subrange(i, j))
}

/// The choice whose record `s` starts with, and what follows it.
pub open spec fn parse_choice(s: Seq<u8>) -> Option<(ChoiceView, Seq<u8>)> {
    if s.len() == 0 {
        None
    } else if s[0] == 0 {
        if s.len() < 65 {
            None
        } else {
            Some(
                (
                    ChoiceView::Integer {
                        value: field(s, 1, 17) as u128,
                        min: field(s, 17, 33) as u128,
                        max: field(s, 33, 49) as u128,
                        shrink_to: field(s, 49, 65) as u128,
                    },
                    s.skip(65),
                ),
            )
        }
    } else if s[0] == 1 {
        if s.len() < 26 {
            None
        } else {
            Some(
                (
                    ChoiceView::Float {
                        value: field(s, 1, 9) as u64,
                        min: field(s, 9, 17) as u64,
                        max: field(s, 17, 25) as u64,
                        allow_nan: s[25] != 0,
                    },
                    s.skip(26),
                ),
            )
        }
    } else if s[0] == 2 {
        if s.len() < 2 {
            None
        } else {
            Some((ChoiceView::Bool { value: s[1] != 0 }, s.skip(2)))
        }
    } else if s[0] == 3 {
        if s.len() < 5 {
            None
        } else {
            Some((ChoiceView::RawU32 { value: field(s, 1, 5) as u32 }, s.skip(5)))
        }
    } else if s[0] == 4 {
        if s.len() < 9 {
            None
        } else {
            Some((ChoiceView::RawU64 { value: field(s, 1, 9) as u64 }, s.skip(9)))
        }
    } else if s[0] == 5 {
        if s.len() < 5 || s.len() < 5 + field(s, 1, 5) {
            None
        } else {
            let end = 5 + field(s, 1, 5) as int;
            Some((ChoiceView::RawBytes { value: s.subrange(5, end) }, s.skip(end)))
        }
    } else {
        None
    }
}

/// The key element whose record `s` starts with, and what follows it.
pub open spec fn parse_elt(s: Seq<u8>) -> Option<(KeyElt, Seq<u8>)> {
    if s.len() == 0 {
        None
    } else if s[0] == 0 {
        if s.len() < 5 {
            None
        } else {
            Some((KeyElt::Split(field(s, 1, 5) as u32), s.skip(5)))
        }
    } else if s[0] == 1 {
        if s.len() < 9 {
            None
        } else {
            Some((KeyElt::Salt(field(s, 1, 9) as u64), s.skip(9)))
        }
    } else {
        None
    }
}

/// `n` records read one after the other by `parse`, and what follows them.
pub open spec fn parse_n<T>(
    s: Seq<u8>,
    n: nat,
    parse: spec_fn(Seq<u8>) -> Option<(T, Seq<u8>)>,
) -> Option<(Seq<T>, Seq<u8>)>
    decreases n,
{
    if n == 0 {
        Some((Seq::empty(), s))
    } else {
        match parse(s) {
            None => None,
            Some((first, rest)) => before(seq![first], parse_n(rest, (n - 1) as nat, parse)),
        }
    }
}

/// What was read so far, put before what is read next.
pub open spec fn before<T>(
    front: Seq<T>,
    parsed: Option<(Seq<T>, Seq<u8>)>,
) -> Option<(Seq<T>, Seq<u8>)> {
    match parsed {
        None => None,
        Some((items, rest)) => Some((front + items, rest)),
    }
}

/// A four-byte count followed by that many records.
pub open spec fn parse_counted<T>(
    s: Seq<u8>,
    parse: spec_fn(Seq<u8>) -> Option<(T, Seq<u8>)>,
) -> Option<(Seq<T>, Seq<u8>)> {
    if s.len() < 4 {
        None
    } else {
        parse_n(s.skip(4), field(s, 0, 4), parse)
    }
}

/// Reads a choice.
pub open spec fn choice_parser() -> spec_fn(Seq<u8>) -> Option<(ChoiceView, Seq<u8>)> {
    |s: Seq<u8>| parse_choice(s)
}

/// Reads a key element.
pub open spec fn elt_parser() -> spec_fn(Seq<u8>) -> Option<(KeyElt, Seq<u8>)> {
    |s: Seq<u8>| parse_elt(s)
}

/// The sub-stream whose section `s` starts with, and what follows it.
pub open spec fn parse_stream(s: Seq<u8>) -> Option<(StreamView, Seq<u8>)> {
    match parse_counted(s, elt_parser()) {
        None => None,
        Some((key, rest)) => match parse_counted(rest, choice_parser()) {
            None => None,
            Some((choices, rest)) => Some((StreamView { key, choices }, rest)),
        },
    }
}

/// Reads a sub-stream.
pub open spec fn stream_parser() -> spec_fn(Seq<u8>) -> Option<(StreamView, Seq<u8>)> {
    |s: Seq<u8>| parse_stream(s)
}

/// All of `s` read as choice records.
pub open spec fn parse_flat(s: Seq<u8>) -> Option<Seq<ChoiceView>>
    decreases s.len(),
{
    if s.len() == 0 {
        Some(Seq::empty())
    } else {
        match parse_choice(s) {
            None => None,
            Some((first, rest)) => match parse_flat(rest) {
                None => None,
                Some(choices) => Some(seq![first] + choices),
            },
        }
    }
}

/// The tape whose persisted form `s` is. A flag may be any byte but 0 to be
/// set.
pub open spec fn parse_tape(s: Seq<u8>) -> Option<TapeView> {
    if s.len() > 0 && s[0] == STREAMS_TAG {
        match parse_counted(s.skip(1), choice_parser()) {
            None => None,
            Some((choices, rest)) => match parse_counted(rest, stream_parser()) {
                None => None,
                Some((streams, rest)) => if rest.len() == 0 {
                    Some(TapeView { choices, spans: Seq::empty(), streams })
                } else {
                    None
                },
            },
        }
    } else {
        match parse_flat(s) {
            None => None,
            Some(choices) => Some(
                TapeView { choices, spans: Seq::empty(), streams: Seq::empty() },
            ),
        }
    }
}

/// Records are joined piece by piece.
pub proof fn lemma_joined_add<T>(a: Seq<T>, b: Seq<T>, record: spec_fn(T) -> Seq<u8>)
    ensures
        joined(a + b, record) == joined(a, record) + joined(b, record),
    decreases a.len(),
{
    if a.len() == 0 {
        assert(a + b =~= b);
        assert(joined(a, record) + joined(b, record) =~= joined(b, record));
    } else {
        lemma_joined_add(a.drop_first(), b, record);
        assert((a + b).drop_first() =~= a.drop_first() + b);
        assert((a + b)[0] == a[0]);
        assert(joined(a + b, record) =~= joined(a, record) + joined(b, record));
    }
}

proof fn lemma_joined_step<T>(s: Seq<T>, i: int, record: spec_fn(T) -> Seq<u8>)
    requires
        0 <= i < s.len(),
    ensures
        joined(s.take(i + 1), record) == joined(s.take(i), record) + record(s[i]),
{
    let one = seq![s[i]];
    assert(s.take(i + 1) =~= s.take(i) + one);
    lemma_joined_add(s.take(i), one, record);
    assert(joined(one.drop_first(), record) =~= Seq::<u8>::empty());
    assert(joined(one, record) =~= record(s[i]));
}

/// Appends the record of a choice.
pub fn serialize_choice(choice: &Choice, out: &mut Vec<u8>)
    ensures
        final(out)@ == old(out)@ + choice_bytes(choice@),
{
    let ghost start = out@;
    match choice {
        Choice::Integer { value, min, max, shrink_to } => {
            out.push(0);
            push_le(*value, 16, out);
            push_le(*min, 16, out);
            push_le(*max, 16, out);
            push_le(*shrink_to, 16, out);
        },
        Choice::Float { value, min, max, allow_nan } => {
            out.push(1);
            push_le(*value as u128, 8, out);
            push_le(*min as u128, 8, out);
            push_le(*max as u128, 8, out);
            out.push(
                if *allow_nan {
                    1
                } else {
                    0
                },
            );
        },
        Choice::Bool { value } => {
            out.push(2);
            out.push(
                if *value {
                    1
                } else {
                    0
                },
            );
        },
        Choice::RawU32 { value } => {
            out.push(3);
            push_le(*value as u128, 4, out);
        },
        Choice::RawU64 { value } => {
            out.push(4);
            push_le(*value as u128, 8, out);
        },
        Choice::RawBytes { value } => {
            out.push(5);
            push_le(value.len() as u128, 4, out);
            let ghost front = out@;
            out.extend_from_slice(value.as_slice());
            assert(out@ =~= front + value@);
        },
    }
    assert(out@ =~= start + choice_bytes(choice@));
}

/// Appends the records of a run of choices.
fn serialize_choices(choices: &Vec<Choice>, out: &mut Vec<u8>)
    ensures
        final(out)@ == old(out)@ + choices_bytes(views(choices@)),
{
    let ghost start = out@;
    let ghost record = |c: ChoiceView| choice_bytes(c);
    let ghost all = views(choices@);
    let mut i: usize = 0;
    assert(start + joined(all.take(0), record) =~= start);
    while i < choices.len()
        invariant
            i <= choices.len(),
            all == views(choices@),
            record == |c: ChoiceView| choice_bytes(c),
            out@ == start + joined(all.take(i as int), record),
        decreases choices.len() - i,
    {
        serialize_choice(&choices[i], out);
        proof {
            lemma_joined_step(all, i as int, record);
        }
        i += 1;
        assert(out@ =~= start + joined(all.take(i as int), record));
    }
    assert(all.take(i as int) =~= all);
}

/// Appends the records of a stream key.
fn serialize_key(key: &StreamKey, out: &mut Vec<u8>)
    ensures
        final(out)@ == old(out)@ + key_bytes(key@),
{
    let ghost start = out@;
    let ghost record = |e: KeyElt| elt_bytes(e);
    let mut i: usize = 0;
    assert(start + joined(key@.take(0), record) =~= start);
    while i < key.len()
        invariant
            i <= key.len(),
            record == |e: KeyElt| elt_bytes(e),
            out@ == start + joined(key@.take(i as int), record),
        decreases key.len() - i,
    {
        let ghost prior = out@;
        match key[i] {
            KeyElt::Split(n) => {
                out.push(0);
                push_le(n as u128, 4, out);
            },
            KeyElt::Salt(s) => {
                out.push(1);
                push_le(s as u128, 8, out);
            },
        }
        assert(out@ =~= prior + elt_bytes(key@[i as int]));
        proof {
            lemma_joined_step(key@, i as int, record);
        }
        i += 1;
        assert(out@ =~= start + joined(key@.take(i as int), record));
    }
    assert(key@.take(i as int) =~= key@);
}

/// Serialize a tape for failure persistence. Spans are shrinking metadata and
/// are not persisted; replay ignores them.
///
/// A tape without sub-streams serializes as the flat record list (choice tags
/// up to 5). A tape with sub-streams gets a leading [`STREAMS_TAG`], then a
/// counted main section and counted keyed stream sections.
pub fn serialize_tape(tape: &Tape) -> (r: Vec<u8>)
    ensures
        r@ == tape_bytes(tape@),
{
    let mut out: Vec<u8> = Vec::new();
    if tape.streams.len() == 0 {
        serialize_choices(&tape.choices, &mut out);
        assert(out@ =~= tape_bytes(tape@));
        return out;
    }
    out.push(STREAMS_TAG);
    push_le(tape.choices.len() as u128, 4, &mut out);
    serialize_choices(&tape.choices, &mut out);
    push_le(tape.streams.len() as u128, 4, &mut out);
    let ghost start = out@;
    let ghost record = |x: StreamView| stream_bytes(x);
    let ghost all = tape@.streams;
    let mut i: usize = 0;
    assert(start + joined(all.take(0), record) =~= start);
    while i < tape.streams.len()
        invariant
            i <= tape.streams.len(),
            all == tape@.streams,
            record == |x: StreamView| stream_bytes(x),
            out@ == start + joined(all.take(i as int), record),
        decreases tape.streams.len() - i,
    {
        let ghost prior = out@;
        push_le(tape.streams[i].0.len() as u128, 4, &mut out);
        serialize_key(&tape.streams[i].0, &mut out);
        push_le(tape.streams[i].1.len() as u128, 4, &mut out);
        serialize_choices(&tape.streams[i].1, &mut out);
        assert(out@ =~= prior + stream_bytes(all[i as int]));
        proof {
            lemma_joined_step(all, i as int, record);
        }
        i += 1;
        assert(out@ =~= start + joined(all.take(i as int), record));
    }
    assert(all.take(i as int) =~= all);
    assert(out@ =~= tape_bytes(tape@));
    out
}

/// Splits the first `n` bytes off.
fn take<'a>(bytes: &mut &'a [u8], n: usize) -> (r: Option<&'a [u8]>)
    ensures
        match r {
            Some(head) => n <= old(bytes)@.len() && head@ == old(bytes)@.take(n as int)
                && final(bytes)@ == old(bytes)@.skip(n as int),
            None => old(bytes)@.len() < n && final(bytes)@ == old(bytes)@,
        },
{
    if bytes.len() < n {
        return None;
    }
    let (head, tail) = bytes.split_at(n);
    assert(head@ =~= bytes@.take(n as int));
    assert(tail@ =~= bytes@.skip(n as int));
    *bytes = tail;
    Some(head)
}

/// Splits a number of `n` bytes off.
fn take_le(bytes: &mut &[u8], n: usize) -> (r: Option<u128>)
    requires
        n <= 16,
    ensures
        match r {
            Some(v) => n <= old(bytes)@.len() && v == le_value(old(bytes)@.take(n as int))
                && final(bytes)@ == old(bytes)@.skip(n as int) && v < pow(256, n as nat),
            None => old(bytes)@.len() < n && final(bytes)@ == old(bytes)@,
        },
{
    match take(bytes, n) {
        None => None,
        Some(head) => {
            proof {
                lemma_le_value_bound(head@);
            }
            Some(read_le(head))
        },
    }
}

/// Splits a `u32` off.
fn take_u32(bytes: &mut &[u8]) -> (r: Option<u32>)
    ensures
        match r {
            Some(v) => 4 <= old(bytes)@.len() && v == le_value(old(bytes)@.take(4))
                && final(bytes)@ == old(bytes)@.skip(4),
            None => old(bytes)@.len() < 4 && final(bytes)@ == old(bytes)@,
        },
{
    proof {
        lemma_le_sizes();
    }
    match take_le(bytes, 4) {
        None => None,
        Some(v) => Some(v as u32),
    }
}

/// Splits a `u64` off.
fn take_u64(bytes: &mut &[u8]) -> (r: Option<u64>)
    ensures
        match r {
            Some(v) => 8 <= old(bytes)@.len() && v == le_value(old(bytes)@.take(8))
                && final(bytes)@ == old(bytes)@.skip(8),
            None => old(bytes)@.len() < 8 && final(bytes)@ == old(bytes)@,
        },
{
    proof {
        lemma_le_sizes();
    }
    match take_le(bytes, 8) {
        None => None,
        Some(v) => Some(v as u64),
    }
}

/// Splits one byte off.
fn take_byte(bytes: &mut &[u8]) -> (r: Option<u8>)
    ensures
        match r {
            Some(v) => 1 <= old(bytes)@.len() && v == old(bytes)@[0] && final(bytes)@ == old(
                bytes,
            )@.skip(1),
            None => old(bytes)@.len() < 1 && final(bytes)@ == old(bytes)@,
        },
{
    match take(bytes, 1) {
        None => None,
        Some(head) => Some(head[0]),
    }
}

/// Reads one choice record off the front of `bytes`. Any malformed record
/// yields `None`, with some of it read.
pub fn deserialize_choice(bytes: &mut &[u8]) -> (r: Option<Choice>)
    ensures
        exists|n: int|
            0 <= n <= old(bytes)@.len() && final(bytes)@ == #[trigger] old(bytes)@.skip(n),
        match parse_choice(old(bytes)@) {
            Some((c, rest)) => r is Some && r->0@ == c && final(bytes)@ == rest,
            None => r is None,
        },
{
    let ghost s = bytes@;
    assert(s.skip(0) =~= s);
    let tag: u8 = take_byte(bytes)?;
    if tag == 0 {
        let value: u128 = take_le(bytes, 16)?;
        assert(s.skip(1).take(16) =~= s.subrange(1, 17));
        assert(bytes@ =~= s.skip(17));
        let min: u128 = take_le(bytes, 16)?;
        assert(s.skip(17).take(16) =~= s.subrange(17, 33));
        assert(bytes@ =~= s.skip(33));
        let max: u128 = take_le(bytes, 16)?;
        assert(s.skip(33).take(16) =~= s.subrange(33, 49));
        assert(bytes@ =~= s.skip(49));
        let shrink_to: u128 = take_le(bytes, 16)?;
        assert(s.skip(49).take(16) =~= s.subrange(49, 65));
        assert(bytes@ =~= s.skip(65));
        Some(Choice::Integer { value, min, max, shrink_to })
    } else if tag == 1 {
        let value: u64 = take_u64(bytes)?;
        assert(s.skip(1).take(8) =~= s.subrange(1, 9));
        assert(bytes@ =~= s.skip(9));
        let min: u64 = take_u64(bytes)?;
        assert(s.skip(9).take(8) =~= s.subrange(9, 17));
        assert(bytes@ =~= s.skip(17));
        let max: u64 = take_u64(bytes)?;
        assert(s.skip(17).take(8) =~= s.subrange(17, 25));
        assert(bytes@ =~= s.skip(25));
        let flag: u8 = take_byte(bytes)?;
        assert(bytes@ =~= s.skip(26));
        Some(Choice::Float { value, min, max, allow_nan: flag != 0 })
    } else if tag == 2 {
        let flag: u8 = take_byte(bytes)?;
        assert(bytes@ =~= s.skip(2));
        Some(Choice::Bool { value: flag != 0 })
    } else if tag == 3 {
        let value: u32 = take_u32(bytes)?;
        assert(s.skip(1).take(4) =~= s.subrange(1, 5));
        assert(bytes@ =~= s.skip(5));
        Some(Choice::RawU32 { value })
    } else if tag == 4 {
        let value: u64 = take_u64(bytes)?;
        assert(s.skip(1).take(8) =~= s.subrange(1, 9));
        assert(bytes@ =~= s.skip(9));
        Some(Choice::RawU64 { value })
    } else if tag == 5 {
        let len: u32 = take_u32(bytes)?;
        assert(s.skip(1).take(4) =~= s.subrange(1, 5));
        assert(bytes@ =~= s.skip(5));
        let head = take(bytes, len as usize)?;
        assert(head@ =~= s.subrange(5, 5 + len));
        assert(bytes@ =~= s.skip(5 + len));
        let mut value: Vec<u8> = Vec::new();
        value.extend_from_slice(head);
        assert(value@ =~= head@);
        Some(Choice::RawBytes { value })
    } else {
        None
    }
}

/// What was read in two goes was read in order.
proof fn lemma_before_add<T>(a: Seq<T>, b: Seq<T>, parsed: Option<(Seq<T>, Seq<u8>)>)
    ensures
        before(a + b, parsed) == before(a, before(b, parsed)),
{
    if let Some((items, rest)) = parsed {
        assert((a + b) + items =~= a + (b + items));
    }
}

/// Reads `n` choice records.
fn deserialize_choices(bytes: &mut &[u8], n: u32) -> (r: Option<Vec<Choice>>)
    ensures
        match parse_n(old(bytes)@, n as nat, choice_parser()) {
            Some((cs, rest)) => r is Some && views(r->0@) == cs && final(bytes)@ == rest,
            None => r is None,
        },
{
    let ghost s = bytes@;
    let ghost parse = choice_parser();
    let mut choices: Vec<Choice> = Vec::new();
    let mut i: u32 = 0;
    proof {
        assert(views(choices@) =~= Seq::empty());
        if let Some((items, rest)) = parse_n(s, n as nat, parse) {
            assert(Seq::empty() + items =~= items);
        }
    }
    while i < n
        invariant
            i <= n,
            s == old(bytes)@,
            parse == choice_parser(),
            parse_n(s, n as nat, parse) == before(
                views(choices@),
                parse_n(bytes@, (n - i) as nat, parse),
            ),
        decreases n - i,
    {
        let ghost prior = bytes@;
        let ghost front = views(choices@);
        let choice = deserialize_choice(bytes)?;
        proof {
            lemma_before_add(
                front,
                seq![choice@],
                parse_n(bytes@, (n - i - 1) as nat, parse),
            );
        }
        choices.push(choice);
        assert(views(choices@) =~= front + seq![choice@]);
        i += 1;
    }
    assert(views(choices@) + Seq::empty() =~= views(choices@));
    Some(choices)
}

/// Reads `n` key elements.
fn deserialize_key(bytes: &mut &[u8], n: u32) -> (r: Option<StreamKey>)
    ensures
        match parse_n(old(bytes)@, n as nat, elt_parser()) {
            Some((key, rest)) => r is Some && r->0@ == key && final(bytes)@ == rest,
            None => r is None,
        },
{
    let ghost s = bytes@;
    let ghost parse = elt_parser();
    let mut key: StreamKey = Vec::new();
    let mut i: u32 = 0;
    proof {
        if let Some((items, rest)) = parse_n(s, n as nat, parse) {
            assert(Seq::empty() + items =~= items);
        }
    }
    while i < n
        invariant
            i <= n,
            s == old(bytes)@,
            parse == elt_parser(),
            parse_n(s, n as nat, parse) == before(key@, parse_n(bytes@, (n - i) as nat, parse)),
        decreases n - i,
    {
        let ghost prior = bytes@;
        let ghost front = key@;
        let tag: u8 = take_byte(bytes)?;
        let elt = if tag == 0 {
            let n: u32 = take_u32(bytes)?;
            assert(prior.skip(1).take(4) =~= prior.subrange(1, 5));
            assert(bytes@ =~= prior.skip(5));
            KeyElt::Split(n)
        } else if tag == 1 {
            let n: u64 = take_u64(bytes)?;
            assert(prior.skip(1).take(8) =~= prior.subrange(1, 9));
            assert(bytes@ =~= prior.skip(9));
            KeyElt::Salt(n)
        } else {
            return None;
        };
        assert(parse_elt(prior) == Some((elt, bytes@)));
        proof {
            lemma_before_add(front, seq![elt], parse_n(bytes@, (n - i - 1) as nat, parse));
        }
        key.push(elt);
        assert(key@ =~= front + seq![elt]);
        i += 1;
    }
    assert(key@ + Seq::empty() =~= key@);
    Some(key)
}

/// Reads the section of one sub-stream.
fn deserialize_stream(bytes: &mut &[u8]) -> (r: Option<(StreamKey, Vec<Choice>)>)
    ensures
        match parse_stream(old(bytes)@) {
            Some((stream, rest)) => r matches Some((key, choices)) && key@ == stream.key && views(
                choices@,
            ) == stream.choices && final(bytes)@ == rest,
            None => r is None,
        },
{
    let ghost s = bytes@;
    let n_key: u32 = take_u32(bytes)?;
    assert(s.take(4) =~= s.subrange(0, 4));
    let key = deserialize_key(bytes, n_key)?;
    let ghost t = bytes@;
    let n_choices: u32 = take_u32(bytes)?;
    assert(t.take(4) =~= t.subrange(0, 4));
    let choices = deserialize_choices(bytes, n_choices)?;
    Some((key, choices))
}

/// Reads `n` sub-stream sections.
fn deserialize_streams(bytes: &mut &[u8], n: u32) -> (r: Option<Vec<(StreamKey, Vec<Choice>)>>)
    ensures
        match parse_n(old(bytes)@, n as nat, stream_parser()) {
            Some((streams, rest)) => r is Some && stream_views(r->0@) == streams && final(bytes)@
                == rest,
            None => r is None,
        },
{
    let ghost s = bytes@;
    let ghost parse = stream_parser();
    let mut streams: Vec<(StreamKey, Vec<Choice>)> = Vec::new();
    let mut i: u32 = 0;
    proof {
        assert(stream_views(streams@) =~= Seq::empty());
        if let Some((items, rest)) = parse_n(s, n as nat, parse) {
            assert(Seq::empty() + items =~= items);
        }
    }
    while i < n
        invariant
            i <= n,
            s == old(bytes)@,
            parse == stream_parser(),
            parse_n(s, n as nat, parse) == before(
                stream_views(streams@),
                parse_n(bytes@, (n - i) as nat, parse),
            ),
        decreases n - i,
    {
        let ghost prior = bytes@;
        let ghost front = stream_views(streams@);
        let stream = deserialize_stream(bytes)?;
        let ghost read = StreamView { key: stream.0@, choices: views(stream.1@) };
        assert(parse_stream(prior) == Some((read, bytes@)));
        proof {
            lemma_before_add(front, seq![read], parse_n(bytes@, (n - i - 1) as nat, parse));
        }
        streams.push(stream);
        assert(stream_views(streams@) =~= front + seq![read]);
        i += 1;
    }
    assert(stream_views(streams@) + Seq::empty() =~= stream_views(streams@));
    Some(streams)
}

/// Inverse of [`serialize_tape`]. Strict: any malformed input yields `None`.
pub fn deserialize_tape(bytes: &[u8]) -> (r: Option<Tape>)
    ensures
        match parse_tape(bytes@) {
            Some(t) => r is Some && r->0@ == t,
            None => r is None,
        },
{
    let ghost s = bytes@;
    let mut rest = bytes;
    if rest.len() > 0 && rest[0] == STREAMS_TAG {
        let _ = take(&mut rest, 1)?;
        let ghost t = rest@;
        let n_main: u32 = take_u32(&mut rest)?;
        assert(t.take(4) =~= t.subrange(0, 4));
        let choices = deserialize_choices(&mut rest, n_main)?;
        let ghost u = rest@;
        let n_streams: u32 = take_u32(&mut rest)?;
        assert(u.take(4) =~= u.subrange(0, 4));
        let streams = deserialize_streams(&mut rest, n_streams)?;
        if rest.len() > 0 {
            return None;
        }
        return Some(Tape { choices, spans: Vec::new(), streams });
    }
    let mut choices: Vec<Choice> = Vec::new();
    proof {
        assert(views(choices@) =~= Seq::empty());
        if let Some(items) = parse_flat(s) {
            assert(Seq::empty() + items =~= items);
        }
    }
    while rest.len() > 0
        invariant
            s == bytes@,
            s.len() > 0 ==> s[0] != STREAMS_TAG,
            match parse_flat(rest@) {
                Some(items) => parse_flat(s) == Some(views(choices@) + items),
                None => parse_flat(s) is None,
            },
        decreases rest@.len(),
    {
        let ghost front = views(choices@);
        let choice = deserialize_choice(&mut rest)?;
        let ghost first = choice@;
        choices.push(choice);
        proof {
            assert(views(choices@) =~= front + seq![first]);
            if let Some(items) = parse_flat(rest@) {
                assert((front + seq![first]) + items =~= front + (seq![first] + items));
            }
        }
    }
    assert(views(choices@) + Seq::empty() =~= views(choices@));
    let tape = Tape { choices, spans: Vec::new(), streams: Vec::new() };
    assert(tape@.streams =~= Seq::empty());
    Some(tape)
}

} // verus!
