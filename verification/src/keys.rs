//! Stream keys: the identity of a sub-stream, and the order in which
//! sub-streams are kept.
use crate::order::{
    lex, nat_order, total_preorder, lemma_lex_at, lemma_lex_flipped, lemma_lex_reflexive,
    lemma_lex_skip, lemma_lex_transitive,
};
use core::cmp::Ordering;
use vstd::prelude::*;

verus! {

/// One element of a stream key (see [`StreamKey`]).
#[derive(Clone, Copy, Debug, PartialEq, Eq, Structural)]
pub enum KeyElt {
    /// The n-th sub-stream allocated under the parent this run
    /// (a generated function's identity within its test case).
    Split(u32),
    /// A per-call salt (the hash of a generated function's argument).
    Salt(u64),
}

/// Identity of a sub-stream. The main generation stream is the empty key; a
/// generated function's stream is `[Split(n)]`, and its per-argument streams
/// are `[Split(n), Salt(hash)]`.
pub type StreamKey = Vec<KeyElt>;

/// The number a key element carries.
pub open spec fn elt_number(e: KeyElt) -> nat {
    match e {
        KeyElt::Split(n) => n as nat,
        KeyElt::Salt(s) => s as nat,
    }
}

/// Splits come before salts; among each, by number.
pub open spec fn elt_order(a: KeyElt, b: KeyElt) -> Ordering {
    match (a, b) {
        (KeyElt::Split(_), KeyElt::Salt(_)) => Ordering::Less,
        (KeyElt::Salt(_), KeyElt::Split(_)) => Ordering::Greater,
        _ => nat_order(elt_number(a), elt_number(b)),
    }
}

/// Stream keys compare lexicographically.
pub open spec fn key_order(a: Seq<KeyElt>, b: Seq<KeyElt>) -> Ordering {
    lex(a, b, |x: KeyElt, y: KeyElt| elt_order(x, y))
}

/// `a` comes strictly before `b`.
pub open spec fn key_lt(a: Seq<KeyElt>, b: Seq<KeyElt>) -> bool {
    key_order(a, b) == Ordering::Less
}

/// The leaf of the key is a salt: the stream of one call of a generated
/// function.
pub open spec fn is_salted(key: Seq<KeyElt>) -> bool {
    key.len() > 0 && key.last() is Salt
}

/// Key elements are totally preordered.
pub proof fn lemma_elt_order_preorder()
    ensures
        total_preorder(|x: KeyElt, y: KeyElt| elt_order(x, y)),
{
}

/// Only equal keys tie.
pub proof fn lemma_key_order_equal(a: Seq<KeyElt>, b: Seq<KeyElt>)
    ensures
        key_order(a, b) == Ordering::Equal <==> a == b,
    decreases a.len(),
{
    let f = |x: KeyElt, y: KeyElt| elt_order(x, y);
    lemma_elt_order_preorder();
    if a == b {
        lemma_lex_reflexive(a, f);
    } else if a.len() > 0 && b.len() > 0 {
        lemma_key_order_equal(a.drop_first(), b.drop_first());
        if a.drop_first() == b.drop_first() && a[0] == b[0] {
            assert(a =~= seq![a[0]] + a.drop_first());
            assert(b =~= seq![b[0]] + b.drop_first());
        }
    } else if a.len() == 0 && b.len() == 0 {
        assert(a =~= b);
    }
}

/// Key order, seen from the other side, is flipped: of two different keys
/// exactly one comes first.
pub proof fn lemma_key_order_flipped(a: Seq<KeyElt>, b: Seq<KeyElt>)
    ensures
        key_lt(a, b) <==> key_order(b, a) == Ordering::Greater,
        a == b || key_lt(a, b) || key_lt(b, a),
        !(key_lt(a, b) && key_lt(b, a)),
{
    lemma_elt_order_preorder();
    lemma_lex_flipped(a, b, |x: KeyElt, y: KeyElt| elt_order(x, y));
    lemma_key_order_equal(a, b);
}

/// Of two different keys exactly one comes first.
pub proof fn lemma_key_lt(a: Seq<KeyElt>, b: Seq<KeyElt>)
    ensures
        a != b <==> key_lt(a, b) || key_lt(b, a),
        !(key_lt(a, b) && key_lt(b, a)),
{
    lemma_key_order_flipped(a, b);
    lemma_key_order_equal(a, b);
    lemma_key_order_equal(b, a);
}

/// Key order is transitive.
pub proof fn lemma_key_lt_transitive(a: Seq<KeyElt>, b: Seq<KeyElt>, c: Seq<KeyElt>)
    requires
        key_lt(a, b),
        key_lt(b, c),
    ensures
        key_lt(a, c),
{
    lemma_elt_order_preorder();
    lemma_lex_transitive(a, b, c, |x: KeyElt, y: KeyElt| elt_order(x, y));
}

/// Keys that differ in a salt at their end come in the order of the salts.
pub proof fn lemma_salted_keys(a: Seq<KeyElt>, b: Seq<KeyElt>)
    requires
        is_salted(a),
        is_salted(b),
        a.len() == b.len(),
        a.drop_last() == b.drop_last(),
    ensures
        key_lt(a, b) <==> elt_number(a.last()) < elt_number(b.last()),
{
    let n = a.len() - 1;
    let f = |x: KeyElt, y: KeyElt| elt_order(x, y);
    lemma_elt_order_preorder();
    assert forall|j: int| 0 <= j < n implies f(#[trigger] a[j], b[j]) == Ordering::Equal by {
        assert(a[j] == a.drop_last()[j] && b[j] == b.drop_last()[j]);
        assert(f(a[j], a[j]) == Ordering::Equal);
    }
    if a.last() == b.last() {
        assert(a =~= a.drop_last().push(a.last()));
        assert(b =~= b.drop_last().push(b.last()));
        lemma_lex_reflexive(a, f);
    } else {
        lemma_lex_at(a, b, f, n);
    }
}

/// What decides between two keys: the first element that differs, where a
/// split comes before a salt, and each by its number; and a key comes before
/// those that go on from it.
pub proof fn lemma_keys_compare(a: Seq<KeyElt>, b: Seq<KeyElt>, i: int)
    requires
        0 <= i <= a.len(),
        i <= b.len(),
        forall|j: int| 0 <= j < i ==> a[j] == b[j],
    ensures
        i == a.len() && i < b.len() ==> key_lt(a, b),
        i < a.len() && i < b.len() ==> match (a[i], b[i]) {
            (KeyElt::Split(_), KeyElt::Salt(_)) => key_lt(a, b),
            (KeyElt::Salt(_), KeyElt::Split(_)) => key_lt(b, a),
            (KeyElt::Split(m), KeyElt::Split(n)) => m < n ==> key_lt(a, b),
            (KeyElt::Salt(m), KeyElt::Salt(n)) => m < n ==> key_lt(a, b),
        },
{
    let f = |x: KeyElt, y: KeyElt| elt_order(x, y);
    lemma_elt_order_preorder();
    assert forall|j: int| 0 <= j < i implies f(#[trigger] a[j], b[j]) == Ordering::Equal by {
        assert(f(a[j], a[j]) == Ordering::Equal);
    }
    assert forall|j: int| 0 <= j < i implies f(#[trigger] b[j], a[j]) == Ordering::Equal by {
        assert(f(a[j], a[j]) == Ordering::Equal);
    }
    if i < a.len() && i < b.len() {
        if f(a[i], b[i]) != Ordering::Equal {
            lemma_lex_at(a, b, f, i);
            lemma_lex_at(b, a, f, i);
        }
    } else if i == a.len() {
        lemma_lex_skip(a, b, f, i);
    }
}

/// How two key elements compare.
pub fn compare_elts(a: KeyElt, b: KeyElt) -> (r: Ordering)
    ensures
        r == elt_order(a, b),
{
    match (a, b) {
        (KeyElt::Split(_), KeyElt::Salt(_)) => Ordering::Less,
        (KeyElt::Salt(_), KeyElt::Split(_)) => Ordering::Greater,
        (KeyElt::Split(m), KeyElt::Split(n)) => {
            if m < n {
                Ordering::Less
            } else if m == n {
                Ordering::Equal
            } else {
                Ordering::Greater
            }
        },
        (KeyElt::Salt(m), KeyElt::Salt(n)) => {
            if m < n {
                Ordering::Less
            } else if m == n {
                Ordering::Equal
            } else {
                Ordering::Greater
            }
        },
    }
}

/// How two stream keys compare.
pub fn compare_keys(a: &StreamKey, b: &StreamKey) -> (r: Ordering)
    ensures
        r == key_order(a@, b@),
{
    let ghost f = |x: KeyElt, y: KeyElt| elt_order(x, y);
    let mut i: usize = 0;
    while i < a.len() && i < b.len()
        invariant
            i <= a.len(),
            i <= b.len(),
            f == |x: KeyElt, y: KeyElt| elt_order(x, y),
            forall|j: int| 0 <= j < i ==> f(#[trigger] a@[j], b@[j]) == Ordering::Equal,
        decreases a.len() - i,
    {
        let o = compare_elts(a[i], b[i]);
        match o {
            Ordering::Equal => {},
            _ => {
                proof {
                    assert(f(a@[i + 0], b@[i + 0]) == o);
                    lemma_lex_at(a@, b@, f, i + 0);
                }
                return o;
            },
        }
        i += 1;
    }
    proof {
        lemma_lex_skip(a@, b@, f, i + 0);
    }
    if i < a.len() {
        Ordering::Greater
    } else if i < b.len() {
        Ordering::Less
    } else {
        Ordering::Equal
    }
}

/// Whether two stream keys are the same.
pub fn same_key(a: &StreamKey, b: &StreamKey) -> (r: bool)
    ensures
        r == (a@ == b@),
{
    proof {
        lemma_key_order_equal(a@, b@);
    }
    match compare_keys(a, b) {
        Ordering::Equal => true,
        _ => false,
    }
}

/// A copy of a stream key.
pub fn copy_key(key: &StreamKey) -> (r: StreamKey)
    ensures
        r@ == key@,
{
    let r = key.clone();
    assert(r@ =~= key@);
    r
}

/// Whether the leaf of the key is a salt.
pub fn salted(key: &StreamKey) -> (r: bool)
    ensures
        r == is_salted(key@),
{
    if key.len() == 0 {
        return false;
    }
    match key[key.len() - 1] {
        KeyElt::Salt(_) => true,
        KeyElt::Split(_) => false,
    }
}

} // verus!
