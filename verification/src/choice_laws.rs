//! What choices are compared, simplified and told apart by, said of their
//! contents.
use crate::choice::{
    byte_order, choice_order, same_choice, scalar_complexity, trivial_choice, ChoiceView,
};
use crate::float_bits::{
    complexity, is_nan, lemma_float_eq, lemma_shrink_target_in_range, magnitude, shrink_target,
    signed,
};
use crate::order::{lemma_lex_at, lemma_lex_skip};
use core::cmp::Ordering;
use vstd::prelude::*;

verus! {

/// Every number is simpler than every byte string.
pub proof fn lemma_numbers_before_bytes(c: ChoiceView, value: Seq<u8>)
    requires
        !(c is RawBytes),
    ensures
        choice_order(c, ChoiceView::RawBytes { value }) == Ordering::Less,
        choice_order(ChoiceView::RawBytes { value }, c) == Ordering::Greater,
{
}

/// A shorter byte string is simpler; of two with the same length the first
/// byte that differs decides, and equal ones tie.
pub proof fn lemma_byte_strings_order(a: Seq<u8>, b: Seq<u8>, i: int)
    ensures
        a.len() < b.len() ==> choice_order(
            ChoiceView::RawBytes { value: a },
            ChoiceView::RawBytes { value: b },
        ) == Ordering::Less,
        a.len() == b.len() && 0 <= i < a.len() && a[i] < b[i] && (forall|j: int|
            0 <= j < i ==> a[j] == b[j]) ==> choice_order(
            ChoiceView::RawBytes { value: a },
            ChoiceView::RawBytes { value: b },
        ) == Ordering::Less,
        a == b ==> choice_order(
            ChoiceView::RawBytes { value: a },
            ChoiceView::RawBytes { value: b },
        ) == Ordering::Equal,
{
    let f = |x: u8, y: u8| byte_order(x, y);
    if a == b {
        lemma_lex_skip(a, b, f, a.len() - 0);
    } else if a.len() == b.len() && 0 <= i < a.len() && a[i] < b[i] && (forall|j: int|
        0 <= j < i ==> a[j] == b[j]) {
        lemma_lex_at(a, b, f, i);
    }
}

/// Raw numbers and booleans are simpler the smaller they are.
pub proof fn lemma_numbers_by_value(a: u32, b: u32, c: u64, d: u64)
    ensures
        a < b <==> choice_order(ChoiceView::RawU32 { value: a }, ChoiceView::RawU32 { value: b })
            == Ordering::Less,
        c < d <==> choice_order(ChoiceView::RawU64 { value: c }, ChoiceView::RawU64 { value: d })
            == Ordering::Less,
        choice_order(ChoiceView::Bool { value: false }, ChoiceView::Bool { value: true })
            == Ordering::Less,
{
}

/// An integer is simpler the closer it is to its shrink target, and of two at
/// the same distance the one above is.
pub proof fn lemma_integers_by_distance(a: ChoiceView, b: ChoiceView)
    requires
        a is Integer,
        b is Integer,
        a->shrink_to == b->shrink_to,
        a->Integer_value <= 0x4000_0000_0000_0000_0000_0000_0000_0000,
        b->Integer_value <= 0x4000_0000_0000_0000_0000_0000_0000_0000,
        a->shrink_to <= 0x4000_0000_0000_0000_0000_0000_0000_0000,
    ensures
        ({
            let t = a->shrink_to;
            let (v, w) = (a->Integer_value, b->Integer_value);
            let x = if v >= t { v - t } else { t - v };
            let y = if w >= t { w - t } else { t - w };
            &&& x < y ==> choice_order(a, b) == Ordering::Less
            &&& x == y && v > w ==> choice_order(a, b) == Ordering::Less
            &&& v == w ==> choice_order(a, b) == Ordering::Equal
        }),
{
}

/// What numbers key to: booleans and raw numbers to their value, integers to
/// twice their distance from the target, less one above it, and floats to
/// their own complexity off their target.
pub proof fn lemma_number_keys(c: ChoiceView)
    ensures
        match c {
            ChoiceView::Integer { value, shrink_to, .. } => {
                &&& value == shrink_to ==> scalar_complexity(c) == Some(0nat)
                &&& value > shrink_to && 2 * (value - shrink_to) <= u128::MAX ==> scalar_complexity(
                    c,
                ) == Some((2 * (value - shrink_to) - 1) as nat)
                &&& value < shrink_to && 2 * (shrink_to - value) <= u128::MAX ==> scalar_complexity(
                    c,
                ) == Some((2 * (shrink_to - value)) as nat)
                &&& value > shrink_to && 2 * (value - shrink_to) > u128::MAX ==> scalar_complexity(
                    c,
                ) == Some((u128::MAX - 1) as nat)
                &&& value < shrink_to && 2 * (shrink_to - value) > u128::MAX ==> scalar_complexity(
                    c,
                ) == Some(u128::MAX as nat)
            },
            ChoiceView::Float { value, min, max, .. } => scalar_complexity(c) == Some(
                if value == shrink_target(min, max) {
                    0
                } else {
                    complexity(value)
                },
            ),
            ChoiceView::Bool { value } => scalar_complexity(c) == Some(
                if value {
                    1nat
                } else {
                    0
                },
            ),
            ChoiceView::RawU32 { value } => scalar_complexity(c) == Some(value as nat),
            ChoiceView::RawU64 { value } => scalar_complexity(c) == Some(value as nat),
            ChoiceView::RawBytes { .. } => scalar_complexity(c) is None,
        },
{
}

/// Going to the shrink target keeps the kind and the constraints. An integer
/// goes to its `shrink_to`, a float to the value in its range that is closest
/// to zero, a boolean to false, a raw number to zero, and a byte string to
/// zeros of the same length.
pub proof fn lemma_trivial_choice_goes_to_target(c: ChoiceView)
    ensures
        match (c, trivial_choice(c)) {
            (
                ChoiceView::Integer { min: l, max: h, shrink_to: t, .. },
                ChoiceView::Integer { value, min, max, shrink_to },
            ) => value == t && min == l && max == h && shrink_to == t,
            (
                ChoiceView::Float { min: l, max: h, allow_nan: n, .. },
                ChoiceView::Float { value, min, max, allow_nan },
            ) => {
                &&& min == l
                &&& max == h
                &&& allow_nan == n
                &&& !is_nan(l) && !is_nan(h) && signed(l) <= signed(h) ==> {
                    &&& !is_nan(value)
                    &&& signed(l) <= signed(value) <= signed(h)
                    &&& forall|b: u64|
                        signed(l) <= #[trigger] signed(b) <= signed(h) ==> magnitude(value)
                            <= magnitude(b)
                    &&& signed(l) <= 0 <= signed(h) ==> value == 0
                }
            },
            (ChoiceView::Bool { .. }, ChoiceView::Bool { value }) => !value,
            (ChoiceView::RawU32 { .. }, ChoiceView::RawU32 { value }) => value == 0,
            (ChoiceView::RawU64 { .. }, ChoiceView::RawU64 { value }) => value == 0,
            (ChoiceView::RawBytes { value: v }, ChoiceView::RawBytes { value }) => {
                &&& value.len() == v.len()
                &&& forall|i: int| 0 <= i < value.len() ==> value[i] == 0
            },
            _ => false,
        },
{
    if let ChoiceView::Float { min, max, .. } = c {
        if !is_nan(min) && !is_nan(max) && signed(min) <= signed(max) {
            lemma_shrink_target_in_range(min, max, 0);
            assert forall|b: u64|
                signed(min) <= #[trigger] signed(b) <= signed(max) implies magnitude(
                shrink_target(min, max),
            ) <= magnitude(b) by {
                lemma_shrink_target_in_range(min, max, b);
            }
        }
    }
}

/// Two choices are equal if they are of one kind with the same contents, where
/// a NaN equals nothing and the two zeros equal each other.
pub proof fn lemma_equal_choices(a: ChoiceView, b: ChoiceView)
    ensures
        !(a is Float && b is Float) ==> (same_choice(a, b) <==> a == b),
        a is Float && b is Float ==> (same_choice(a, b) <==> {
            &&& same_number(a->Float_value, b->Float_value)
            &&& same_number(a->Float_min, b->Float_min)
            &&& same_number(a->Float_max, b->Float_max)
            &&& a->allow_nan == b->allow_nan
        }),
{
    if a is Float && b is Float {
        lemma_float_eq(a->Float_value, b->Float_value);
        lemma_float_eq(a->Float_min, b->Float_min);
        lemma_float_eq(a->Float_max, b->Float_max);
    }
}

/// The patterns are the same number: the same pattern, or both a zero, and no
/// NaN.
pub open spec fn same_number(a: u64, b: u64) -> bool {
    &&& !is_nan(a)
    &&& !is_nan(b)
    &&& a == b || (magnitude(a) == 0 && magnitude(b) == 0)
}

} // verus!
