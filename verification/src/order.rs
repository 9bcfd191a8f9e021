//! Orderings as mathematical objects: comparison of naturals, lexicographic
//! comparison of sequences, and the lemmas that make a comparison a total
//! preorder.
use core::cmp::Ordering;
use vstd::prelude::*;

verus! {

/// The ordering seen from the other side.
pub open spec fn flipped(o: Ordering) -> Ordering {
    match o {
        Ordering::Less => Ordering::Greater,
        Ordering::Equal => Ordering::Equal,
        Ordering::Greater => Ordering::Less,
    }
}

/// The first ordering, unless it is a tie: then the second one decides.
pub open spec fn chained(first: Ordering, second: Ordering) -> Ordering {
    match first {
        Ordering::Equal => second,
        _ => first,
    }
}

/// How two natural numbers compare.
pub open spec fn nat_order(a: nat, b: nat) -> Ordering {
    if a < b {
        Ordering::Less
    } else if a == b {
        Ordering::Equal
    } else {
        Ordering::Greater
    }
}

/// Lexicographic comparison of two sequences under `f`: the first pair of
/// elements that differs decides, and a proper prefix comes first.
pub open spec fn lex<T>(a: Seq<T>, b: Seq<T>, f: spec_fn(T, T) -> Ordering) -> Ordering
    decreases a.len(),
{
    if a.len() == 0 {
        if b.len() == 0 {
            Ordering::Equal
        } else {
            Ordering::Less
        }
    } else if b.len() == 0 {
        Ordering::Greater
    } else {
        chained(f(a[0], b[0]), lex(a.drop_first(), b.drop_first(), f))
    }
}

/// `f` is a total preorder: reflexive, the same from both sides, and
/// transitive with ties and strict steps adding up.
pub open spec fn total_preorder<T>(f: spec_fn(T, T) -> Ordering) -> bool {
    &&& forall|a: T| #[trigger] f(a, a) == Ordering::Equal
    &&& forall|a: T, b: T| #[trigger] f(b, a) == flipped(f(a, b))
    &&& forall|a: T, b: T, c: T|
        #![trigger f(a, b), f(b, c)]
        f(a, b) != Ordering::Greater && f(b, c) != Ordering::Greater ==> f(a, c) == chained(
            f(a, b),
            f(b, c),
        )
}

/// Lexicographic comparison ties on equal sequences.
pub proof fn lemma_lex_reflexive<T>(a: Seq<T>, f: spec_fn(T, T) -> Ordering)
    requires
        total_preorder(f),
    ensures
        lex(a, a, f) == Ordering::Equal,
    decreases a.len(),
{
    if a.len() > 0 {
        lemma_lex_reflexive(a.drop_first(), f);
    }
}

/// Lexicographic comparison from the other side is the flipped ordering.
pub proof fn lemma_lex_flipped<T>(a: Seq<T>, b: Seq<T>, f: spec_fn(T, T) -> Ordering)
    requires
        total_preorder(f),
    ensures
        lex(b, a, f) == flipped(lex(a, b, f)),
    decreases a.len(),
{
    if a.len() > 0 && b.len() > 0 {
        lemma_lex_flipped(a.drop_first(), b.drop_first(), f);
        assert(f(b[0], a[0]) == flipped(f(a[0], b[0])));
    }
}

/// Lexicographic comparison is transitive.
pub proof fn lemma_lex_transitive<T>(
    a: Seq<T>,
    b: Seq<T>,
    c: Seq<T>,
    f: spec_fn(T, T) -> Ordering,
)
    requires
        total_preorder(f),
        lex(a, b, f) != Ordering::Greater,
        lex(b, c, f) != Ordering::Greater,
    ensures
        lex(a, c, f) == chained(lex(a, b, f), lex(b, c, f)),
    decreases a.len(),
{
    if a.len() > 0 && b.len() > 0 && c.len() > 0 {
        assert(f(a[0], b[0]) != Ordering::Greater);
        assert(f(b[0], c[0]) != Ordering::Greater);
        assert(f(a[0], c[0]) == chained(f(a[0], b[0]), f(b[0], c[0])));
        if f(a[0], b[0]) == Ordering::Equal && f(b[0], c[0]) == Ordering::Equal {
            lemma_lex_transitive(a.drop_first(), b.drop_first(), c.drop_first(), f);
        }
    }
}

/// Where sequences agree before `i`, they compare as their tails from `i` do.
pub proof fn lemma_lex_skip<T>(a: Seq<T>, b: Seq<T>, f: spec_fn(T, T) -> Ordering, i: int)
    requires
        0 <= i <= a.len(),
        i <= b.len(),
        forall|j: int|
            0 <= j < i ==> f(#[trigger] a[j], b[j]) == Ordering::Equal,
    ensures
        lex(a, b, f) == lex(a.skip(i), b.skip(i), f),
    decreases i,
{
    if i == 0 {
        assert(a.skip(0) =~= a);
        assert(b.skip(0) =~= b);
    } else {
        lemma_lex_skip(a, b, f, i - 1);
        assert(a[i - 1] == a.skip(i - 1)[0]);
        assert(b[i - 1] == b.skip(i - 1)[0]);
        assert(a.skip(i - 1).drop_first() =~= a.skip(i));
        assert(b.skip(i - 1).drop_first() =~= b.skip(i));
    }
}

/// Sequences that first differ at `i` compare as their elements there do.
pub proof fn lemma_lex_at<T>(a: Seq<T>, b: Seq<T>, f: spec_fn(T, T) -> Ordering, i: int)
    requires
        0 <= i < a.len(),
        i < b.len(),
        forall|j: int|
            0 <= j < i ==> f(#[trigger] a[j], b[j]) == Ordering::Equal,
        f(a[i], b[i]) != Ordering::Equal,
    ensures
        lex(a, b, f) == f(a[i], b[i]),
{
    lemma_lex_skip(a, b, f, i);
    assert(a.skip(i)[0] == a[i]);
    assert(b.skip(i)[0] == b[i]);
}

/// How two lengths compare.
pub fn order_lengths(a: usize, b: usize) -> (r: Ordering)
    ensures
        a < b <==> r == Ordering::Less,
        a == b <==> r == Ordering::Equal,
        a > b <==> r == Ordering::Greater,
{
    if a < b {
        Ordering::Less
    } else if a == b {
        Ordering::Equal
    } else {
        Ordering::Greater
    }
}

} // verus!
