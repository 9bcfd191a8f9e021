//! What values are generated from: fresh entropy, and the tape that draws go
//! through.
use crate::choice::{Choice, ChoiceView};
use crate::keys::KeyElt;
use crate::le::{
    le_bytes, le_value, lemma_le_bytes_len, lemma_le_bytes_of_value, lemma_le_round_trip,
    lemma_le_sizes, lemma_le_value_bound, push_le,
};
use crate::state::{next_input, popped, recorded, StateView, TapeMode, TapeState};
use crate::state_laws::drawn;
use rand::{RngExt, SeedableRng};
use rand_xorshift::XorShiftRng;
use vstd::prelude::*;

verus! {

/// The state that the generator is in for a seed: a seed of zeros, from which
/// it could not move, stands for a preset one.
pub open spec fn live(seed: Seq<u8>) -> Seq<u8> {
    if seed == Seq::new(16, |i: int| 0u8) {
        Seq::new(16, |i: int| le_bytes(0x0BAD_5EED, 4)[i % 4])
    } else {
        seed
    }
}

/// One of the four words of a state.
pub open spec fn word(state: Seq<u8>, i: int) -> u32 {
    le_value(state.subrange(4 * i, 4 * i + 4)) as u32
}

/// The word that follows in the xorshift generator, from the first and the
/// last of the four before it.
pub open spec fn shifted(x: u32, w: u32) -> u32 {
    let t = x ^ (x << 11u32);
    w ^ (w >> 19u32) ^ (t ^ (t >> 8u32))
}

/// What the next draw from a seed is: two words, low one first.
pub open spec fn fresh_draw(seed: Seq<u8>) -> u64 {
    let low = shifted(word(live(seed), 0), word(live(seed), 3));
    let high = shifted(word(live(seed), 1), low);
    (low + 0x1_0000_0000 * high) as u64
}

/// The seed for what is left after a draw: the last four words.
pub open spec fn after_draw(seed: Seq<u8>) -> Seq<u8> {
    live(seed).skip(8) + le_bytes(fresh_draw(seed) as nat, 8)
}

/// Seeds `rand_xorshift::XorShiftRng` by `SeedableRng::from_seed` and draws
/// one `u64` by `rand::RngExt::random`. Claimed is that the draw is made of
/// two rounds of the generator, the low word first, where each round shifts
/// out the first word of the state; and that a seed of zeros stands for the
/// preset one.
#[verifier::external_body]
fn random_from(seed: [u8; 16]) -> (r: u64)
    ensures
        r == fresh_draw(seed@),
{
    XorShiftRng::from_seed(seed).random()
}

/// The state that the generator is in for a seed.
fn live_seed(seed: [u8; 16]) -> (r: [u8; 16])
    ensures
        r@ == live(seed@),
{
    let mut i: usize = 0;
    while i < 16
        invariant
            i <= 16,
            forall|j: int| 0 <= j < i ==> seed@[j] == 0,
        decreases 16 - i,
    {
        if seed[i] != 0 {
            assert(seed@ != Seq::new(16, |i: int| 0u8));
            return seed;
        }
        i += 1;
    }
    assert(seed@ =~= Seq::new(16, |i: int| 0u8));
    let r: [u8; 16] = [
        0xED,
        0x5E,
        0xAD,
        0x0B,
        0xED,
        0x5E,
        0xAD,
        0x0B,
        0xED,
        0x5E,
        0xAD,
        0x0B,
        0xED,
        0x5E,
        0xAD,
        0x0B,
    ];
    proof {
        reveal_with_fuel(le_bytes, 5);
        assert(le_bytes(0x0BAD_5EED, 4) =~= seq![0xEDu8, 0x5E, 0xAD, 0x0B]);
        assert(r@ =~= live(seed@));
    }
    r
}

/// What a [`Runner`] holds.
#[verifier::ext_equal]
pub struct RunnerView {
    pub seed: Seq<u8>,
    pub tape: StateView,
}

/// What values are generated from: a source of fresh entropy, and the tape
/// that draws go through.
#[derive(Debug)]
pub struct Runner {
    /// Decides the fresh draws that are to come.
    pub seed: [u8; 16],
    pub tape: TapeState,
}

impl View for Runner {
    type V = RunnerView;

    open spec fn view(&self) -> RunnerView {
        RunnerView { seed: self.seed@, tape: self.tape@ }
    }
}

/// What drawing a raw `u64` leaves on a tape and returns, where `fresh` is
/// drawn if the tape does not answer.
pub open spec fn raw_drawn(st: StateView, fresh: u64) -> (StateView, u64) {
    if st.mode == TapeMode::Off || st.suppress_raw > 0 {
        (st, fresh)
    } else {
        match popped(st, next_input(st) is Some && next_input(st)->0 is RawU64) {
            (next, Some(ChoiceView::RawU64 { value })) => (
                recorded(next, ChoiceView::RawU64 { value }),
                value,
            ),
            (next, _) => (recorded(next, ChoiceView::RawU64 { value: fresh }), fresh),
        }
    }
}

/// What drawing a raw `u64` leaves of a runner and returns.
pub open spec fn random_drawn(runner: RunnerView) -> (RunnerView, u64) {
    let (tape, value) = raw_drawn(runner.tape, fresh_draw(runner.seed));
    (RunnerView { seed: after_draw(runner.seed), tape }, value)
}

/// Whether the choice is a raw `u64`.
fn is_raw_u64(c: &Choice) -> (r: bool)
    ensures
        r == (c@ is RawU64),
{
    matches!(c, Choice::RawU64 { .. })
}

/// Draws a raw `u64`: what replay answers, and otherwise `fresh`. The draw is
/// recorded, unless raw draws bypass the tape.
pub fn draw_raw_u64(tape: &mut TapeState, fresh: u64) -> (r: u64)
    requires
        old(tape).wf(),
    ensures
        final(tape).wf(),
        (final(tape)@, r) == raw_drawn(old(tape)@, fresh),
{
    if !tape.raw_active() {
        return fresh;
    }
    let value: u64 = match tape.pop_replay(is_raw_u64) {
        Some(Choice::RawU64 { value }) => value,
        _ => fresh,
    };
    tape.record(Choice::RawU64 { value });
    value
}

impl Runner {
    pub open spec fn wf(&self) -> bool {
        self.tape.wf()
    }

    /// A runner whose fresh draws are decided by `seed`, and whose draws go
    /// through `tape`.
    pub fn from_seed(seed: [u8; 16], tape: TapeState) -> (r: Self)
        ensures
            r@ == (RunnerView { seed: seed@, tape: tape@ }),
            r.tape == tape,
    {
        Runner { seed, tape }
    }

    /// Draws a `u64`.
    pub fn random(&mut self) -> (r: u64)
        requires
            old(self).wf(),
        ensures
            final(self).wf(),
            (final(self)@, r) == random_drawn(old(self)@),
    {
        let ghost seed = self.seed@;
        let fresh: u64 = random_from(self.seed);
        let before = live_seed(self.seed);
        let mut drawn: Vec<u8> = Vec::new();
        push_le(fresh as u128, 8, &mut drawn);
        proof {
            lemma_le_bytes_len(fresh as nat, 8);
        }
        let mut i: usize = 0;
        while i < 8
            invariant
                i <= 8,
                drawn@.len() == 8,
                forall|j: int| 0 <= j < i ==> self.seed@[j] == before@[j + 8],
                forall|j: int| 0 <= j < i ==> self.seed@[j + 8] == #[trigger] drawn@[j],
                self.tape == old(self).tape,
            decreases 8 - i,
        {
            self.seed[i] = before[i + 8];
            self.seed[i + 8] = drawn[i];
            i += 1;
        }
        proof {
            assert forall|j: int| 0 <= j < 16 implies self.seed@[j] == after_draw(seed)[j] by {
                if j >= 8 {
                    assert(self.seed@[(j - 8) + 8] == drawn@[j - 8]);
                }
            }
            assert(self.seed@ =~= after_draw(seed));
        }
        draw_raw_u64(&mut self.tape, fresh)
    }
}

/// What a raw draw gives and leaves. With the tape off, or raw draws suppressed,
/// it gives the fresh number and leaves the tape alone. Otherwise it takes the
/// raw number that is next in the input, and where there is none the fresh one,
/// and the current stream has it where its write cursor was.
pub proof fn lemma_raw_draw(st: StateView, fresh: u64)
    requires
        st.streams[st.current].wpos <= st.streams[st.current].written.len(),
    ensures
        st.mode == TapeMode::Off || st.suppress_raw > 0 ==> raw_drawn(st, fresh) == (st, fresh),
        st.mode != TapeMode::Off && st.suppress_raw == 0 ==> {
            let (next, value) = raw_drawn(st, fresh);
            let (a, b) = (st.streams[st.current], next.streams[st.current]);
            &&& b.wpos == a.wpos + 1
            &&& b.written.len() > a.wpos
            &&& b.written[a.wpos as int] == (ChoiceView::RawU64 { value })
            &&& next.mode == st.mode
            &&& next.current == st.current
            &&& forall|k: Seq<KeyElt>|
                k != st.current ==> #[trigger] next.streams[k] == st.streams[k]
            &&& if st.mode == TapeMode::Replaying && a.known && a.rpos < a.input.len()
                && a.input[a.rpos as int] is RawU64 {
                value == a.input[a.rpos as int]->RawU64_value && b.rpos == a.rpos + 1
            } else {
                value == fresh && b.rpos == a.rpos
            }
        },
{
}

/// Drawing a number moves the source of fresh draws on by one, whether or not
/// the fresh number is used.
pub proof fn lemma_random_moves_on(runner: RunnerView)
    ensures
        random_drawn(runner).0.seed == after_draw(runner.seed),
        random_drawn(runner).0.tape == raw_drawn(runner.tape, fresh_draw(runner.seed)).0,
        random_drawn(runner).1 == raw_drawn(runner.tape, fresh_draw(runner.seed)).1,
{
}

/// A raw draw that goes through the tape is a draw like any other: replaying a
/// recording reproduces it.
pub proof fn lemma_raw_draw_is_a_draw(st: StateView, fresh: u64)
    requires
        st.mode != TapeMode::Off,
        st.suppress_raw == 0,
    ensures
        ({
            let (next, value) = raw_drawn(st, fresh);
            drawn(
                st,
                ChoiceView::RawU64 { value: fresh },
                |c: ChoiceView| c is RawU64,
                |c: ChoiceView| c,
            ) == (next, ChoiceView::RawU64 { value })
        }),
{
}

/// Nothing is lost of the words that a new word is made of.
proof fn lemma_shifted_injective(x: u32, y: u32, w: u32)
    requires
        shifted(x, w) == shifted(y, w),
    ensures
        x == y,
{
    let t = x ^ (x << 11u32);
    let u = y ^ (y << 11u32);
    assert(w ^ (w >> 19u32) ^ (t ^ (t >> 8u32)) == w ^ (w >> 19u32) ^ (u ^ (u >> 8u32)) ==> t == u)
        by (bit_vector);
    assert(x ^ (x << 11u32) == y ^ (y << 11u32) ==> x == y) by (bit_vector);
}

/// Two states with the same words are the same.
proof fn lemma_words(s: Seq<u8>, t: Seq<u8>)
    requires
        s.len() == 16,
        t.len() == 16,
        forall|i: int| 0 <= i < 4 ==> #[trigger] word(s, i) == word(t, i),
    ensures
        s == t,
{
    lemma_le_sizes();
    assert forall|j: int| 0 <= j < 16 implies s[j] == t[j] by {
        let i = j / 4;
        let a = s.subrange(4 * i, 4 * i + 4);
        let b = t.subrange(4 * i, 4 * i + 4);
        lemma_le_value_bound(a);
        lemma_le_value_bound(b);
        lemma_le_bytes_of_value(a);
        lemma_le_bytes_of_value(b);
        assert(word(s, i) == word(t, i));
        assert(a[j - 4 * i] == b[j - 4 * i]);
    }
    assert(s =~= t);
}

/// Runners in different states are in different states after they drew:
/// streams of fresh draws that start apart stay apart.
pub proof fn lemma_draws_stay_apart(s: Seq<u8>, t: Seq<u8>)
    requires
        s.len() == 16,
        t.len() == 16,
        after_draw(s) == after_draw(t),
    ensures
        live(s) == live(t),
{
    let (a, b) = (live(s), live(t));
    lemma_le_bytes_len(fresh_draw(s) as nat, 8);
    lemma_le_bytes_len(fresh_draw(t) as nat, 8);
    assert(after_draw(s).take(8) =~= a.skip(8));
    assert(after_draw(t).take(8) =~= b.skip(8));
    assert(after_draw(s).skip(8) =~= le_bytes(fresh_draw(s) as nat, 8));
    assert(after_draw(t).skip(8) =~= le_bytes(fresh_draw(t) as nat, 8));
    lemma_le_sizes();
    lemma_le_round_trip(fresh_draw(s) as nat, 8);
    lemma_le_round_trip(fresh_draw(t) as nat, 8);
    assert(fresh_draw(s) == fresh_draw(t));
    assert(a.skip(8) == b.skip(8));
    assert(a.skip(8).subrange(0, 4) =~= a.subrange(8, 12));
    assert(b.skip(8).subrange(0, 4) =~= b.subrange(8, 12));
    assert(a.skip(8).subrange(4, 8) =~= a.subrange(12, 16));
    assert(b.skip(8).subrange(4, 8) =~= b.subrange(12, 16));
    assert(word(a, 2) == word(b, 2));
    assert(word(a, 3) == word(b, 3));
    let low = shifted(word(a, 0), word(a, 3));
    assert(low == shifted(word(b, 0), word(b, 3)));
    lemma_shifted_injective(word(a, 0), word(b, 0), word(a, 3));
    lemma_shifted_injective(word(a, 1), word(b, 1), low);
    assert forall|i: int| 0 <= i < 4 implies #[trigger] word(a, i) == word(b, i) by {}
    lemma_words(a, b);
}

} // verus!
