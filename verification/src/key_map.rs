//! A map from stream keys, kept in key order.
use crate::keys::{
    compare_keys, key_lt, lemma_key_lt_transitive, lemma_key_order_equal,
    lemma_key_order_flipped, KeyElt, StreamKey,
};
use core::cmp::Ordering;
use vstd::prelude::*;

verus! {

/// A map from stream keys: a list of entries in strictly increasing key
/// order.
#[derive(Debug)]
pub struct KeyMap<V> {
    pub entries: Vec<(StreamKey, V)>,
}

impl<V> KeyMap<V> {
    /// The key of the entry at `i`.
    pub open spec fn key_at(&self, i: int) -> Seq<KeyElt> {
        self.entries@[i].0@
    }

    /// Keys strictly increase, so none occurs twice.
    pub open spec fn wf(&self) -> bool {
        forall|i: int, j: int|
            0 <= i < j < self.entries@.len() ==> key_lt(
                #[trigger] self.key_at(i),
                #[trigger] self.key_at(j),
            )
    }

    /// The entry at `i` is that of `k`.
    pub open spec fn is_at(&self, k: Seq<KeyElt>, i: int) -> bool {
        0 <= i < self.entries@.len() && self.key_at(i) == k
    }

    /// The value of `k`, if it has one.
    pub open spec fn value_of(&self, k: Seq<KeyElt>) -> Option<V> {
        if exists|i: int| self.is_at(k, i) {
            Some(self.entries@[choose|i: int| self.is_at(k, i)].1)
        } else {
            None
        }
    }

    /// A key occurs at one place only.
    pub proof fn lemma_at(&self, i: int)
        requires
            self.wf(),
            0 <= i < self.entries@.len(),
        ensures
            self.value_of(self.key_at(i)) == Some(self.entries@[i].1),
    {
        let k = self.key_at(i);
        assert(self.is_at(k, i));
        let j = choose|j: int| self.is_at(k, j);
        assert(self.is_at(k, j));
        lemma_key_order_equal(k, k);
        if i < j {
            assert(key_lt(self.key_at(i), self.key_at(j)));
        } else if j < i {
            assert(key_lt(self.key_at(j), self.key_at(i)));
        }
    }

    /// The empty map.
    pub fn new() -> (r: Self)
        ensures
            r.wf(),
            forall|k: Seq<KeyElt>| #[trigger] r.value_of(k) is None,
    {
        KeyMap { entries: Vec::new() }
    }

    /// Where `key` is, or where it would be inserted.
    fn search(&self, key: &StreamKey) -> (r: (usize, bool))
        requires
            self.wf(),
        ensures
            r.0 <= self.entries@.len(),
            forall|i: int| 0 <= i < r.0 ==> key_lt(#[trigger] self.key_at(i), key@),
            r.1 ==> self.is_at(key@, r.0 + 0),
            !r.1 ==> forall|i: int|
                r.0 <= i < self.entries@.len() ==> key_lt(key@, #[trigger] self.key_at(i)),
            r.1 == (self.value_of(key@) is Some),
    {
        let mut i: usize = 0;
        while i < self.entries.len()
            invariant
                self.wf(),
                i <= self.entries@.len(),
                forall|j: int| 0 <= j < i ==> key_lt(#[trigger] self.key_at(j), key@),
            decreases self.entries@.len() - i,
        {
            match compare_keys(&self.entries[i].0, key) {
                Ordering::Less => {
                    assert(key_lt(self.key_at(i + 0), key@));
                },
                Ordering::Equal => {
                    proof {
                        lemma_key_order_equal(self.key_at(i + 0), key@);
                        assert(self.is_at(key@, i + 0));
                    }
                    return (i, true);
                },
                Ordering::Greater => {
                    proof {
                        lemma_key_order_flipped(key@, self.key_at(i + 0));
                        assert forall|j: int| i <= j < self.entries@.len() implies key_lt(
                            key@,
                            #[trigger] self.key_at(j),
                        ) by {
                            if j > i {
                                lemma_key_lt_transitive(key@, self.key_at(i + 0), self.key_at(j));
                            }
                        }
                        self.lemma_absent(key@, i + 0);
                    }
                    return (i, false);
                },
            }
            i += 1;
        }
        proof {
            self.lemma_absent(key@, i + 0);
        }
        (i, false)
    }

    /// A key that all keys before `n` precede and that precedes all keys from
    /// `n` on has no value.
    proof fn lemma_absent(&self, k: Seq<KeyElt>, n: int)
        requires
            0 <= n <= self.entries@.len(),
            forall|i: int| 0 <= i < n ==> key_lt(#[trigger] self.key_at(i), k),
            forall|i: int| n <= i < self.entries@.len() ==> key_lt(k, #[trigger] self.key_at(i)),
        ensures
            self.value_of(k) is None,
    {
        lemma_key_order_equal(k, k);
        assert forall|i: int| !self.is_at(k, i) by {
            if 0 <= i < n {
                assert(key_lt(self.key_at(i), k));
            } else if n <= i < self.entries@.len() {
                assert(key_lt(k, self.key_at(i)));
            }
        }
    }

    /// Where `key` is.
    pub fn find(&self, key: &StreamKey) -> (r: Option<usize>)
        requires
            self.wf(),
        ensures
            match r {
                Some(i) => self.is_at(key@, i as int) && self.value_of(key@) == Some(
                    self.entries@[i as int].1,
                ),
                None => self.value_of(key@) is None,
            },
    {
        let (i, found) = self.search(key);
        if found {
            proof {
                self.lemma_at(i as int);
            }
            Some(i)
        } else {
            None
        }
    }

    /// Gives `key` a value, and says where it is.
    pub fn insert(&mut self, key: StreamKey, value: V) -> (r: usize)
        requires
            old(self).wf(),
        ensures
            final(self).wf(),
            final(self).value_of(key@) == Some(value),
            forall|k: Seq<KeyElt>|
                k != key@ ==> #[trigger] final(self).value_of(k) == old(self).value_of(k),
            final(self).is_at(key@, r as int),
    {
        let ghost k = key@;
        let (i, found) = self.search(&key);
        if found {
            let _ = self.entries.remove(i);
            self.entries.insert(i, (key, value));
            proof {
                assert forall|a: int, b: int| 0 <= a < b < self.entries@.len() implies key_lt(
                    #[trigger] self.key_at(a),
                    #[trigger] self.key_at(b),
                ) by {
                    assert(self.key_at(a) == old(self).key_at(a));
                    assert(self.key_at(b) == old(self).key_at(b));
                }
                self.lemma_at(i as int);
                assert forall|j: Seq<KeyElt>| j != k implies #[trigger] self.value_of(j) == old(
                    self,
                ).value_of(j) by {
                    lemma_same_elsewhere(*old(self), *self, j, i as int);
                }
            }
        } else {
            self.entries.insert(i, (key, value));
            proof {
                assert forall|a: int, b: int| 0 <= a < b < self.entries@.len() implies key_lt(
                    #[trigger] self.key_at(a),
                    #[trigger] self.key_at(b),
                ) by {
                    if a < i {
                        assert(self.key_at(a) == old(self).key_at(a));
                    } else if a > i {
                        assert(self.key_at(a) == old(self).key_at(a - 1));
                    }
                    if b < i {
                        assert(self.key_at(b) == old(self).key_at(b));
                    } else if b > i {
                        assert(self.key_at(b) == old(self).key_at(b - 1));
                    }
                }
                self.lemma_at(i as int);
                assert forall|j: Seq<KeyElt>| j != k implies #[trigger] self.value_of(j) == old(
                    self,
                ).value_of(j) by {
                    lemma_shifted(*old(self), *self, j, i as int);
                }
            }
        }
        i
    }

    /// The value at `i`, to be changed in place.
    pub fn at_mut(&mut self, i: usize) -> (r: &mut V)
        requires
            old(self).wf(),
            i < old(self).entries@.len(),
        ensures
            *r == old(self).entries@[i as int].1,
            final(self).wf(),
            final(self).value_of(old(self).key_at(i as int)) == Some(*final(r)),
            forall|k: Seq<KeyElt>|
                k != old(self).key_at(i as int) ==> #[trigger] final(self).value_of(k) == old(
                    self,
                ).value_of(k),
    {
        let ghost before = *self;
        proof {
            assert forall|after: KeyMap<V>|
                #![trigger after.entries@]
                after.entries@ == before.entries@.update(
                    i as int,
                    (before.entries@[i as int].0, after.entries@[i as int].1),
                ) implies {
                &&& after.wf()
                &&& after.value_of(before.key_at(i as int)) == Some(after.entries@[i as int].1)
                &&& forall|k: Seq<KeyElt>|
                    k != before.key_at(i as int) ==> #[trigger] after.value_of(k)
                        == before.value_of(k)
            } by {
                lemma_replaced(before, after, i as int);
            }
        }
        &mut self.entries[i].1
    }
}

/// A map with the value at one place replaced.
pub proof fn lemma_replaced<V>(a: KeyMap<V>, b: KeyMap<V>, i: int)
    requires
        a.wf(),
        0 <= i < a.entries@.len(),
        b.entries@ == a.entries@.update(i, (a.entries@[i].0, b.entries@[i].1)),
    ensures
        b.wf(),
        b.value_of(a.key_at(i)) == Some(b.entries@[i].1),
        forall|k: Seq<KeyElt>| k != a.key_at(i) ==> #[trigger] b.value_of(k) == a.value_of(k),
{
    assert forall|j: int| 0 <= j < a.entries@.len() implies #[trigger] a.key_at(j) == b.key_at(
        j,
    ) by {}
    assert forall|x: int, y: int| 0 <= x < y < b.entries@.len() implies key_lt(
        #[trigger] b.key_at(x),
        #[trigger] b.key_at(y),
    ) by {
        assert(a.key_at(x) == b.key_at(x));
        assert(a.key_at(y) == b.key_at(y));
    }
    b.lemma_at(i);
    assert forall|k: Seq<KeyElt>| k != a.key_at(i) implies #[trigger] b.value_of(k)
        == a.value_of(k) by {
        lemma_same_elsewhere(a, b, k, i);
    }
}

/// Replacing the value at one place leaves the other keys alone.
proof fn lemma_same_elsewhere<V>(a: KeyMap<V>, b: KeyMap<V>, k: Seq<KeyElt>, i: int)
    requires
        a.wf(),
        b.wf(),
        a.entries@.len() == b.entries@.len(),
        0 <= i < a.entries@.len(),
        k != a.key_at(i),
        forall|j: int| 0 <= j < a.entries@.len() ==> #[trigger] a.key_at(j) == b.key_at(j),
        forall|j: int|
            0 <= j < a.entries@.len() && j != i ==> #[trigger] a.entries@[j].1 == b.entries@[j].1,
    ensures
        a.value_of(k) == b.value_of(k),
{
    if exists|j: int| a.is_at(k, j) {
        let j = choose|j: int| a.is_at(k, j);
        assert(a.is_at(k, j));
        a.lemma_at(j);
        assert(b.key_at(j) == k);
        b.lemma_at(j);
        assert(a.entries@[j].1 == b.entries@[j].1);
    } else if exists|j: int| b.is_at(k, j) {
        let j = choose|j: int| b.is_at(k, j);
        assert(b.is_at(k, j));
        assert(a.key_at(j) == b.key_at(j));
        assert(a.is_at(k, j));
    }
}

/// Maps with the same keys have them at the same places.
pub proof fn lemma_same_keys<V, W>(a: KeyMap<V>, b: KeyMap<W>, k: Seq<KeyElt>)
    requires
        a.wf(),
        a.entries@.len() == b.entries@.len(),
        forall|i: int| 0 <= i < a.entries@.len() ==> #[trigger] b.key_at(i) == a.key_at(i),
    ensures
        b.wf(),
        b.value_of(k) is Some <==> a.value_of(k) is Some,
        forall|i: int| #[trigger]
            a.is_at(k, i) ==> a.value_of(k) == Some(a.entries@[i].1) && b.value_of(k) == Some(
                b.entries@[i].1,
            ),
{
    assert forall|x: int, y: int| 0 <= x < y < b.entries@.len() implies key_lt(
        #[trigger] b.key_at(x),
        #[trigger] b.key_at(y),
    ) by {
        assert(b.key_at(x) == a.key_at(x));
        assert(b.key_at(y) == a.key_at(y));
    }
    assert forall|i: int| #[trigger] a.is_at(k, i) implies a.value_of(k) == Some(a.entries@[i].1)
        && b.value_of(k) == Some(b.entries@[i].1) by {
        a.lemma_at(i);
        assert(b.key_at(i) == a.key_at(i));
        b.lemma_at(i);
    }
    if exists|i: int| b.is_at(k, i) {
        let i = choose|i: int| b.is_at(k, i);
        assert(b.is_at(k, i));
        assert(b.key_at(i) == a.key_at(i));
        assert(a.is_at(k, i));
    }
}

/// Inserting a new entry leaves the other keys alone.
proof fn lemma_shifted<V>(a: KeyMap<V>, b: KeyMap<V>, k: Seq<KeyElt>, i: int)
    requires
        a.wf(),
        b.wf(),
        0 <= i <= a.entries@.len(),
        b.entries@ == a.entries@.insert(i, b.entries@[i]),
        k != b.key_at(i),
    ensures
        a.value_of(k) == b.value_of(k),
{
    if exists|j: int| a.is_at(k, j) {
        let j = choose|j: int| a.is_at(k, j);
        assert(a.is_at(k, j));
        a.lemma_at(j);
        let n = if j < i { j } else { j + 1 };
        assert(b.entries@[n] == a.entries@[j]);
        assert(b.key_at(n) == k);
        b.lemma_at(n);
    } else if exists|j: int| b.is_at(k, j) {
        let j = choose|j: int| b.is_at(k, j);
        assert(b.is_at(k, j));
        let n = if j < i { j } else { j - 1 };
        assert(a.entries@[n] == b.entries@[j]);
        assert(a.is_at(k, n));
    }
}

} // verus!
