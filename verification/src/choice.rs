//! One recorded decision, and how simple it is.
use crate::float_bits::{
    complexity, equal_floats, float_eq, float_key, float_shrink_target, is_nan,
    lemma_zero_is_simplest, shrink_target, signed,
};
use crate::order::{
    chained, flipped, lemma_lex_at, lemma_lex_flipped, lemma_lex_reflexive, lemma_lex_skip,
    lemma_lex_transitive, lex, nat_order, order_lengths, total_preorder,
};
use core::cmp::Ordering;
use vstd::prelude::*;

verus! {

/// One recorded decision.
///
/// `Integer` values (and their constraints) are stored in `u128` offset
/// space, see [`TapeInt`](crate::tape_int::TapeInt). `Float` values (and
/// their bounds) are stored as bit patterns, see
/// [`float_bits`](crate::float_bits).
#[derive(Debug)]
#[allow(inconsistent_fields)]
pub enum Choice {
    Integer {
        value: u128,
        min: u128,
        max: u128,
        /// The value shrinking moves toward.
        shrink_to: u128,
    },
    Float { value: u64, min: u64, max: u64, allow_nan: bool },
    Bool { value: bool },
    /// Untyped entropy.
    RawU32 { value: u32 },
    RawU64 { value: u64 },
    RawBytes { value: Vec<u8> },
}

/// What a [`Choice`] records.
#[allow(inconsistent_fields)]
pub enum ChoiceView {
    Integer { value: u128, min: u128, max: u128, shrink_to: u128 },
    Float { value: u64, min: u64, max: u64, allow_nan: bool },
    Bool { value: bool },
    RawU32 { value: u32 },
    RawU64 { value: u64 },
    RawBytes { value: Seq<u8> },
}

impl View for Choice {
    type V = ChoiceView;

    open spec fn view(&self) -> ChoiceView {
        match *self {
            Choice::Integer { value, min, max, shrink_to } => ChoiceView::Integer {
                value,
                min,
                max,
                shrink_to,
            },
            Choice::Float { value, min, max, allow_nan } => ChoiceView::Float {
                value,
                min,
                max,
                allow_nan,
            },
            Choice::Bool { value } => ChoiceView::Bool { value },
            Choice::RawU32 { value } => ChoiceView::RawU32 { value },
            Choice::RawU64 { value } => ChoiceView::RawU64 { value },
            Choice::RawBytes { value } => ChoiceView::RawBytes { value: value@ },
        }
    }
}

/// What a run of choices records.
pub open spec fn views(s: Seq<Choice>) -> Seq<ChoiceView> {
    Seq::new(s.len(), |i: int| s[i]@)
}

/// Twice a distance, saturating at the largest `u128`.
pub open spec fn doubled(d: nat) -> nat {
    if 2 * d > u128::MAX {
        u128::MAX as nat
    } else {
        2 * d
    }
}

/// Distance of `v` from `t`: 0 at `t`, then alternating between the sides
/// with the upper one first (`t` < `t+1` < `t-1` < `t+2` < ...), saturating.
pub open spec fn zigzag_key(v: nat, t: nat) -> nat {
    if v > t {
        (doubled((v - t) as nat) - 1) as nat
    } else {
        doubled((t - v) as nat)
    }
}

/// Complexity of a float within bounds: 0 at its shrink target, that of the
/// float itself elsewhere.
pub open spec fn bounded_complexity(value: u64, min: u64, max: u64) -> nat {
    if value == shrink_target(min, max) {
        0
    } else {
        complexity(value)
    }
}

/// Complexity of a choice that is a number; `None` for bytes.
pub open spec fn scalar_complexity(c: ChoiceView) -> Option<nat> {
    match c {
        ChoiceView::Integer { value, shrink_to, .. } => Some(
            zigzag_key(value as nat, shrink_to as nat),
        ),
        ChoiceView::Float { value, min, max, .. } => Some(bounded_complexity(value, min, max)),
        ChoiceView::Bool { value } => Some(
            if value {
                1
            } else {
                0
            },
        ),
        ChoiceView::RawU32 { value } => Some(value as nat),
        ChoiceView::RawU64 { value } => Some(value as nat),
        ChoiceView::RawBytes { .. } => None,
    }
}

/// The number that a byte is.
pub open spec fn byte_number(b: u8) -> nat {
    b as nat
}

/// How two bytes compare.
pub open spec fn byte_order(a: u8, b: u8) -> Ordering {
    nat_order(byte_number(a), byte_number(b))
}

/// How two byte strings compare: the shorter one first, then by contents.
pub open spec fn bytes_order(a: Seq<u8>, b: Seq<u8>) -> Ordering {
    chained(nat_order(a.len(), b.len()), lex(a, b, |x: u8, y: u8| byte_order(x, y)))
}

/// How two choices compare by complexity: numbers before bytes, numbers by
/// their key.
pub open spec fn choice_order(a: ChoiceView, b: ChoiceView) -> Ordering {
    match (scalar_complexity(a), scalar_complexity(b)) {
        (Some(x), Some(y)) => nat_order(x, y),
        (Some(_), None) => Ordering::Less,
        (None, Some(_)) => Ordering::Greater,
        (None, None) => bytes_order(a->RawBytes_value, b->RawBytes_value),
    }
}

/// The choice with its value at its shrink target.
pub open spec fn trivial_choice(c: ChoiceView) -> ChoiceView {
    match c {
        ChoiceView::Integer { min, max, shrink_to, .. } => ChoiceView::Integer {
            value: shrink_to,
            min,
            max,
            shrink_to,
        },
        ChoiceView::Float { min, max, allow_nan, .. } => ChoiceView::Float {
            value: shrink_target(min, max),
            min,
            max,
            allow_nan,
        },
        ChoiceView::Bool { .. } => ChoiceView::Bool { value: false },
        ChoiceView::RawU32 { .. } => ChoiceView::RawU32 { value: 0 },
        ChoiceView::RawU64 { .. } => ChoiceView::RawU64 { value: 0 },
        ChoiceView::RawBytes { value } => ChoiceView::RawBytes {
            value: Seq::new(value.len(), |i: int| 0u8),
        },
    }
}

/// Equality of choices: of the same kind with the same contents, floats
/// compared as numbers.
pub open spec fn same_choice(a: ChoiceView, b: ChoiceView) -> bool {
    match (a, b) {
        (
            ChoiceView::Float { value: v, min: l, max: h, allow_nan: n },
            ChoiceView::Float { value, min, max, allow_nan },
        ) => float_eq(v, value) && float_eq(l, min) && float_eq(h, max) && n == allow_nan,
        _ => a == b,
    }
}

/// Whether two byte strings are the same.
fn same_bytes(a: &Vec<u8>, b: &Vec<u8>) -> (r: bool)
    ensures
        r == (a@ == b@),
{
    if a.len() != b.len() {
        return false;
    }
    let mut i: usize = 0;
    while i < a.len()
        invariant
            i <= a.len() == b.len(),
            forall|j: int| 0 <= j < i ==> a@[j] == b@[j],
        decreases a.len() - i,
    {
        if a[i] != b[i] {
            return false;
        }
        i += 1;
    }
    assert(a@ =~= b@);
    true
}

/// How two byte strings compare: the shorter one first, then by contents.
fn compare_bytes(a: &Vec<u8>, b: &Vec<u8>) -> (r: Ordering)
    ensures
        r == bytes_order(a@, b@),
{
    let lengths = order_lengths(a.len(), b.len());
    match lengths {
        Ordering::Equal => {},
        _ => {
            return lengths;
        },
    }
    let ghost f = |x: u8, y: u8| byte_order(x, y);
    let mut i: usize = 0;
    while i < a.len()
        invariant
            i <= a.len() == b.len(),
            f == |x: u8, y: u8| byte_order(x, y),
            forall|j: int| 0 <= j < i ==> f(#[trigger] a@[j], b@[j]) == Ordering::Equal,
        decreases a.len() - i,
    {
        if a[i] != b[i] {
            proof {
                lemma_lex_at(a@, b@, f, i + 0);
            }
            return if a[i] < b[i] {
                Ordering::Less
            } else {
                Ordering::Greater
            };
        }
        i += 1;
    }
    proof {
        lemma_lex_skip(a@, b@, f, i + 0);
    }
    Ordering::Equal
}

/// How two complexity keys compare.
fn compare_keys(a: u128, b: u128) -> (r: Ordering)
    ensures
        a < b <==> r == Ordering::Less,
        a == b <==> r == Ordering::Equal,
        a > b <==> r == Ordering::Greater,
{
    if a < b {
        Ordering::Less
    } else if a == b {
        Ordering::Equal
    } else {
        Ordering::Greater
    }
}

/// A string of `n` zero bytes.
fn zero_bytes(n: usize) -> (r: Vec<u8>)
    ensures
        r@ == Seq::new(n as nat, |i: int| 0u8),
{
    let mut r: Vec<u8> = Vec::new();
    let mut i: usize = 0;
    while i < n
        invariant
            i <= n,
            r@ == Seq::new(i as nat, |i: int| 0u8),
        decreases n - i,
    {
        r.push(0);
        i += 1;
        assert(r@ =~= Seq::new(i as nat, |i: int| 0u8));
    }
    r
}

/// Distance of `v` from the shrink target `t`, zigzag-encoded so that the
/// target keys to 0 and, at equal distance, the positive direction is
/// preferred (`t` < `t+1` < `t-1` < `t+2` < ...). Saturates at the extremes
/// of `u128`.
pub fn zigzag(v: u128, t: u128) -> (r: u128)
    ensures
        r == zigzag_key(v as nat, t as nat),
{
    let distance: u128 = if v >= t { v - t } else { t - v };
    let twice: u128 = if distance > u128::MAX / 2 { u128::MAX } else { 2 * distance };
    if v > t {
        twice - 1
    } else {
        twice
    }
}

/// Complexity key for floats within bounds: 0 at the shrink target, and the
/// float's own key elsewhere.
fn bounded_float_key(value: u64, min: u64, max: u64) -> (r: u128)
    ensures
        r == bounded_complexity(value, min, max),
{
    if value == float_shrink_target(min, max) {
        0
    } else {
        float_key(value)
    }
}

impl Choice {
    /// Complexity of a scalar choice. Lower is "simpler"; the shrink
    /// target keys to 0. `None` for `RawBytes`, which order after all
    /// scalars.
    pub fn scalar_key(&self) -> (r: Option<u128>)
        ensures
            match r {
                Some(k) => scalar_complexity(self@) == Some(k as nat),
                None => scalar_complexity(self@) is None,
            },
    {
        match self {
            Choice::Integer { value, shrink_to, .. } => Some(zigzag(*value, *shrink_to)),
            Choice::Float { value, min, max, .. } => Some(bounded_float_key(*value, *min, *max)),
            Choice::Bool { value } => Some(
                if *value {
                    1
                } else {
                    0
                },
            ),
            Choice::RawU32 { value } => Some(*value as u128),
            Choice::RawU64 { value } => Some(*value as u128),
            Choice::RawBytes { .. } => None,
        }
    }

    /// Complexity comparison between two choices: all scalar keys order
    /// before byte blobs; byte blobs order by length and then by contents.
    pub fn cmp_complexity(&self, other: &Choice) -> (r: Ordering)
        ensures
            r == choice_order(self@, other@),
    {
        match (self.scalar_key(), other.scalar_key()) {
            (Some(a), Some(b)) => compare_keys(a, b),
            (Some(_), None) => Ordering::Less,
            (None, Some(_)) => Ordering::Greater,
            (None, None) => match (self, other) {
                (Choice::RawBytes { value: a }, Choice::RawBytes { value: b }) => compare_bytes(
                    a,
                    b,
                ),
                _ => Ordering::Equal,
            },
        }
    }

    /// The same choice with its value replaced by its shrink target.
    pub fn trivial(&self) -> (r: Choice)
        ensures
            r@ == trivial_choice(self@),
    {
        match self {
            Choice::Integer { min, max, shrink_to, .. } => Choice::Integer {
                value: *shrink_to,
                min: *min,
                max: *max,
                shrink_to: *shrink_to,
            },
            Choice::Float { min, max, allow_nan, .. } => Choice::Float {
                value: float_shrink_target(*min, *max),
                min: *min,
                max: *max,
                allow_nan: *allow_nan,
            },
            Choice::Bool { .. } => Choice::Bool { value: false },
            Choice::RawU32 { .. } => Choice::RawU32 { value: 0 },
            Choice::RawU64 { .. } => Choice::RawU64 { value: 0 },
            Choice::RawBytes { value } => Choice::RawBytes { value: zero_bytes(value.len()) },
        }
    }
}

impl Clone for Choice {
    fn clone(&self) -> (r: Self)
        ensures
            r@ == self@,
    {
        match self {
            Choice::Integer { value, min, max, shrink_to } => Choice::Integer {
                value: *value,
                min: *min,
                max: *max,
                shrink_to: *shrink_to,
            },
            Choice::Float { value, min, max, allow_nan } => Choice::Float {
                value: *value,
                min: *min,
                max: *max,
                allow_nan: *allow_nan,
            },
            Choice::Bool { value } => Choice::Bool { value: *value },
            Choice::RawU32 { value } => Choice::RawU32 { value: *value },
            Choice::RawU64 { value } => Choice::RawU64 { value: *value },
            Choice::RawBytes { value } => {
                let copy = value.clone();
                assert(copy@ =~= value@);
                Choice::RawBytes { value: copy }
            },
        }
    }
}

impl PartialEq for Choice {
    fn eq(&self, other: &Self) -> (r: bool) {
        match (self, other) {
            (
                Choice::Integer { value: v, min: l, max: h, shrink_to: t },
                Choice::Integer { value, min, max, shrink_to },
            ) => *v == *value && *l == *min && *h == *max && *t == *shrink_to,
            (
                Choice::Float { value: v, min: l, max: h, allow_nan: n },
                Choice::Float { value, min, max, allow_nan },
            ) => equal_floats(*v, *value) && equal_floats(*l, *min) && equal_floats(*h, *max) && *n
                == *allow_nan,
            (Choice::Bool { value: v }, Choice::Bool { value }) => *v == *value,
            (Choice::RawU32 { value: v }, Choice::RawU32 { value }) => *v == *value,
            (Choice::RawU64 { value: v }, Choice::RawU64 { value }) => *v == *value,
            (Choice::RawBytes { value: v }, Choice::RawBytes { value }) => same_bytes(v, value),
            _ => false,
        }
    }
}

impl vstd::std_specs::cmp::PartialEqSpecImpl for Choice {
    open spec fn obeys_eq_spec() -> bool {
        true
    }

    open spec fn eq_spec(&self, other: &Self) -> bool {
        same_choice(self@, other@)
    }
}

/// The shrink target keys to 0, and nothing else does.
pub proof fn lemma_zigzag_zero(v: nat, t: nat)
    ensures
        zigzag_key(v, t) == 0 <==> v == t,
{
}

/// At equal distance the upper side is preferred, and the lower side comes
/// before the next distance on the upper side.
pub proof fn lemma_zigzag_alternates(t: nat, d: nat)
    requires
        1 <= d <= t,
        2 * d + 2 <= u128::MAX,
    ensures
        zigzag_key(t + d, t) < zigzag_key((t - d) as nat, t) < zigzag_key(t + d + 1, t),
{
}

/// Moving away from the target never makes a value simpler.
pub proof fn lemma_zigzag_monotonic(v: nat, w: nat, t: nat)
    requires
        t <= v <= w || w <= v <= t,
    ensures
        zigzag_key(v, t) <= zigzag_key(w, t),
{
}

/// Bytes are totally preordered.
proof fn lemma_byte_order_preorder()
    ensures
        total_preorder(|x: u8, y: u8| byte_order(x, y)),
{
}

/// Byte strings are totally preordered.
proof fn lemma_bytes_order(a: Seq<u8>, b: Seq<u8>, c: Seq<u8>)
    ensures
        bytes_order(a, a) == Ordering::Equal,
        bytes_order(b, a) == flipped(bytes_order(a, b)),
        bytes_order(a, b) != Ordering::Greater && bytes_order(b, c) != Ordering::Greater
            ==> bytes_order(a, c) == chained(bytes_order(a, b), bytes_order(b, c)),
{
    let f = |x: u8, y: u8| byte_order(x, y);
    lemma_byte_order_preorder();
    lemma_lex_reflexive(a, f);
    lemma_lex_flipped(a, b, f);
    if lex(a, b, f) != Ordering::Greater && lex(b, c, f) != Ordering::Greater {
        lemma_lex_transitive(a, b, c, f);
    }
}

/// Complexity comparison of choices is a total preorder.
pub proof fn lemma_choice_order_preorder()
    ensures
        total_preorder(|x: ChoiceView, y: ChoiceView| choice_order(x, y)),
{
    let f = |x: ChoiceView, y: ChoiceView| choice_order(x, y);
    assert forall|a: ChoiceView| #[trigger] f(a, a) == Ordering::Equal by {
        lemma_bytes_order(a->RawBytes_value, a->RawBytes_value, a->RawBytes_value);
    }
    assert forall|a: ChoiceView, b: ChoiceView| #[trigger] f(b, a) == flipped(f(a, b)) by {
        lemma_bytes_order(a->RawBytes_value, b->RawBytes_value, b->RawBytes_value);
    }
    assert forall|a: ChoiceView, b: ChoiceView, c: ChoiceView|
        #![trigger f(a, b), f(b, c)]
        f(a, b) != Ordering::Greater && f(b, c) != Ordering::Greater implies f(a, c) == chained(
        f(a, b),
        f(b, c),
    ) by {
        lemma_bytes_order(a->RawBytes_value, b->RawBytes_value, c->RawBytes_value);
    }
}

/// A choice at its shrink target stays there.
pub proof fn lemma_trivial_choice_stays(c: ChoiceView)
    ensures
        trivial_choice(trivial_choice(c)) == trivial_choice(c),
{
    if c is RawBytes {
        assert(trivial_choice(trivial_choice(c))->RawBytes_value
            =~= trivial_choice(c)->RawBytes_value);
    }
}

/// The shrink target of a number keys to 0, the least complexity there is.
pub proof fn lemma_trivial_choice_keys_to_zero(c: ChoiceView)
    requires
        !(c is RawBytes),
    ensures
        scalar_complexity(trivial_choice(c)) == Some(0nat),
{
}

/// The shrink target of a float is the only value within the bounds that keys
/// to 0. Other floats come in the order of their complexities.
pub proof fn lemma_bounded_float_order(a: u64, b: u64, min: u64, max: u64)
    requires
        a != shrink_target(min, max),
        b != shrink_target(min, max),
    ensures
        signed(min) <= signed(a) <= signed(max) && !is_nan(min) && !is_nan(max)
            ==> bounded_complexity(a, min, max) > 0,
        complexity(a) < complexity(b) <==> bounded_complexity(a, min, max) < bounded_complexity(
            b,
            min,
            max,
        ),
{
    lemma_zero_is_simplest(a);
}

/// Going to the shrink target never makes a choice worse.
pub proof fn lemma_trivial_choice_is_simpler(c: ChoiceView)
    ensures
        choice_order(trivial_choice(c), c) != Ordering::Greater,
{
    if c is RawBytes {
        lemma_zeros_first(trivial_choice(c)->RawBytes_value, c->RawBytes_value);
    }
}

/// A string of zeros comes before every other string of its length.
proof fn lemma_zeros_first(a: Seq<u8>, b: Seq<u8>)
    requires
        a.len() == b.len(),
        forall|i: int| 0 <= i < a.len() ==> a[i] == 0,
    ensures
        lex(a, b, |x: u8, y: u8| byte_order(x, y)) != Ordering::Greater,
    decreases a.len(),
{
    if a.len() > 0 {
        lemma_zeros_first(a.drop_first(), b.drop_first());
    }
}

/// A float range that holds zero shrinks to +0.0, the simplest float.
pub proof fn lemma_trivial_float_is_zero(c: ChoiceView)
    requires
        c is Float,
        is_nan(c->Float_min) || signed(c->Float_min) <= 0,
        is_nan(c->Float_max) || signed(c->Float_max) >= 0,
    ensures
        trivial_choice(c)->Float_value == 0,
        forall|b: u64| complexity(0) <= #[trigger] complexity(b),
{
    lemma_zero_is_simplest(0);
}

} // verus!
