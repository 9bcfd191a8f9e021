//! The text form of a persisted failure: the tag `ct1`, a space, and the
//! bytes of the tape that failed in hexadecimal.
use crate::base16::{from_base16, hex_of, lemma_hex_round_trip, to_base16, unhex};
use crate::tape::{Tape, TapeView};
use crate::text::{chars_of, part_of};
use crate::wire::{deserialize_tape, parse_tape, serialize_tape, tape_bytes};
use crate::wire_laws::{lemma_tape_round_trip, tape_fits};
use vstd::prelude::*;
use vstd::string::StringExecFns;

verus! {

/// A persisted failure: the bytes of a tape, which may turn out not to be
/// one.
#[derive(Clone, Debug, PartialEq, Eq)]
pub struct PersistedTape {
    pub bytes: Vec<u8>,
}

/// The tag and the space after it.
pub open spec fn tag() -> Seq<char> {
    seq!['c', 't', '1', ' ']
}

/// The text of a persisted failure.
pub open spec fn entry_text(bytes: Seq<u8>) -> Seq<char> {
    tag() + hex_of(bytes)
}

/// The bytes in a text; `None` if it does not start with the tag, or does not
/// spell bytes after it.
pub open spec fn read_entry(s: Seq<char>) -> Option<Seq<u8>> {
    if s.len() >= 4 && s.take(4) == tag() {
        unhex(s.skip(4))
    } else {
        None
    }
}

/// The text of a persisted failure reads as that failure.
pub proof fn lemma_entry_round_trip(bytes: Seq<u8>)
    ensures
        read_entry(entry_text(bytes)) == Some(bytes),
{
    lemma_hex_round_trip(bytes);
    assert(entry_text(bytes).take(4) =~= tag());
    assert(entry_text(bytes).skip(4) =~= hex_of(bytes));
}

/// The text of a persisted failure is `ct1`, a space, and two digits for each
/// byte; a text that starts otherwise is no failure.
pub proof fn lemma_entry_has_tag(bytes: Seq<u8>, s: Seq<char>)
    ensures
        entry_text(bytes).len() == 4 + 2 * bytes.len(),
        entry_text(bytes)[0] == 'c',
        entry_text(bytes)[1] == 't',
        entry_text(bytes)[2] == '1',
        entry_text(bytes)[3] == ' ',
        entry_text(bytes).skip(4) == hex_of(bytes),
        s.len() < 4 || s[0] != 'c' || s[1] != 't' || s[2] != '1' || s[3] != ' ' ==> read_entry(s)
            is None,
        s.len() >= 4 && s[0] == 'c' && s[1] == 't' && s[2] == '1' && s[3] == ' ' ==> read_entry(s)
            == unhex(s.skip(4)),
{
    if s.len() >= 4 && s[0] == 'c' && s[1] == 't' && s[2] == '1' && s[3] == ' ' {
        assert(s.take(4) =~= tag());
    }
    assert(entry_text(bytes).skip(4) =~= hex_of(bytes));
    if s.len() >= 4 && s.take(4) == tag() {
        assert(s[0] == s.take(4)[0]);
        assert(s[1] == s.take(4)[1]);
        assert(s[2] == s.take(4)[2]);
        assert(s[3] == s.take(4)[3]);
    }
}

/// A tape that is persisted and read back from its text is the tape, without
/// its spans.
pub proof fn lemma_persisted_round_trip(t: TapeView)
    requires
        tape_fits(t),
    ensures
        read_entry(entry_text(tape_bytes(t))) matches Some(bytes) && parse_tape(bytes) == Some(
            TapeView { choices: t.choices, spans: Seq::empty(), streams: t.streams },
        ),
{
    lemma_entry_round_trip(tape_bytes(t));
    lemma_tape_round_trip(t);
}

impl PersistedTape {
    /// The failure of a tape.
    pub fn of_tape(tape: &Tape) -> (r: PersistedTape)
        ensures
            r.bytes@ == tape_bytes(tape@),
    {
        PersistedTape { bytes: serialize_tape(tape) }
    }

    /// The tape to replay; `None` if the entry is corrupt, which guards
    /// nothing and must fail the run.
    pub fn tape(&self) -> (r: Option<Tape>)
        ensures
            match parse_tape(self.bytes@) {
                Some(t) => r is Some && r->0@ == t,
                None => r is None,
            },
    {
        deserialize_tape(self.bytes.as_slice())
    }

    /// The text of the failure.
    pub fn to_text(&self) -> (r: String)
        ensures
            r@ == entry_text(self.bytes@),
    {
        proof {
            reveal_strlit("ct1 ");
        }
        let mut s = String::new();
        s.append("ct1 ");
        to_base16(&mut s, &self.bytes);
        assert(s@ =~= entry_text(self.bytes@));
        s
    }

    /// The failure that a text spells.
    pub fn from_text(text: &str) -> (r: Option<PersistedTape>)
        ensures
            match read_entry(text@) {
                Some(bytes) => r is Some && r->0.bytes@ == bytes,
                None => r is None,
            },
    {
        let s = chars_of(text);
        if s.len() < 4 || s[0] != 'c' || s[1] != 't' || s[2] != '1' || s[3] != ' ' {
            assert(s@.len() >= 4 ==> s@.take(4) != tag()) by {
                if s@.len() >= 4 && s@.take(4) == tag() {
                    assert(s@[0] == s@.take(4)[0]);
                    assert(s@[1] == s@.take(4)[1]);
                    assert(s@[2] == s@.take(4)[2]);
                    assert(s@[3] == s@.take(4)[3]);
                }
            }
            return None;
        }
        assert(s@.take(4) =~= tag());
        assert(s@.skip(4) =~= s@.subrange(4, s@.len() as int));
        match from_base16(&part_of(&s, 4, s.len())) {
            Some(bytes) => Some(PersistedTape { bytes }),
            None => None,
        }
    }
}

} // verus!
