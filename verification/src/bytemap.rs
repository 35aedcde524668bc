//! A map from byte strings, kept in the order of its keys.

use vstd::prelude::*;
use crate::bytestr::{lex_less, lex_lt, lex_lt_irreflexive, lex_lt_total, lex_lt_transitive, same_bytes};

verus! {

/// The keys stand in strictly increasing order, so none occurs twice.
pub open spec fn in_order<V>(s: Seq<(Seq<u8>, V)>) -> bool {
    forall|i: int, j: int| 0 <= i < j < s.len() ==> lex_lt(#[trigger] s[i].0, #[trigger] s[j].0)
}

/// The number of leading keys that come before `key`.
pub open spec fn rank<V>(s: Seq<(Seq<u8>, V)>, key: Seq<u8>) -> nat
    decreases s.len(),
{
    if s.len() == 0 || !lex_lt(s[0].0, key) {
        0
    } else {
        1 + rank(s.drop_first(), key)
    }
}

/// Whether `key` is one of the keys.
pub open spec fn has_key<V>(s: Seq<(Seq<u8>, V)>, key: Seq<u8>) -> bool {
    rank(s, key) < s.len() && s[rank(s, key) as int].0 == key
}

/// The value at `key`.
pub open spec fn value_at<V>(s: Seq<(Seq<u8>, V)>, key: Seq<u8>) -> Option<V> {
    if has_key(s, key) {
        Some(s[rank(s, key) as int].1)
    } else {
        None
    }
}

/// The map with `value` at `key`, in place of the value that was there, if there was one.
pub open spec fn put<V>(s: Seq<(Seq<u8>, V)>, key: Seq<u8>, value: V) -> Seq<(Seq<u8>, V)> {
    if has_key(s, key) {
        s.update(rank(s, key) as int, (key, value))
    } else {
        s.insert(rank(s, key) as int, (key, value))
    }
}

/// The map with `f` of each value.
pub open spec fn map_each<V, W>(s: Seq<(Seq<u8>, V)>, f: spec_fn(V) -> W) -> Seq<(Seq<u8>, W)> {
    Seq::new(s.len(), |i: int| (s[i].0, f(s[i].1)))
}

/// What `rank` counts.
pub proof fn rank_facts<V>(s: Seq<(Seq<u8>, V)>, key: Seq<u8>)
    ensures
        rank(s, key) <= s.len(),
        forall|i: int| 0 <= i < rank(s, key) ==> lex_lt(#[trigger] s[i].0, key),
        rank(s, key) < s.len() ==> !lex_lt(s[rank(s, key) as int].0, key),
    decreases s.len(),
{
    if s.len() > 0 && lex_lt(s[0].0, key) {
        let t = s.drop_first();
        rank_facts(t, key);
        assert forall|i: int| 0 <= i < rank(s, key) implies lex_lt(#[trigger] s[i].0, key) by {
            if i > 0 {
                assert(t[i - 1] == s[i]);
            }
        }
    }
}

/// A place with smaller keys before it and none after it is the rank.
pub proof fn rank_is<V>(s: Seq<(Seq<u8>, V)>, key: Seq<u8>, n: int)
    requires
        0 <= n <= s.len(),
        forall|i: int| 0 <= i < n ==> lex_lt(#[trigger] s[i].0, key),
        n < s.len() ==> !lex_lt(s[n].0, key),
    ensures
        rank(s, key) == n,
{
    rank_facts(s, key);
    if n < rank(s, key) {
        assert(lex_lt(s[n].0, key));
    }
}

/// A key that stands in an ordered map is found where it stands.
pub proof fn rank_at<V>(s: Seq<(Seq<u8>, V)>, i: int)
    requires
        in_order(s),
        0 <= i < s.len(),
    ensures
        rank(s, s[i].0) == i,
        has_key(s, s[i].0),
        value_at(s, s[i].0) == Some(s[i].1),
{
    lex_lt_irreflexive(s[i].0);
    rank_is(s, s[i].0, i);
}

/// Storing a value keeps the order, is read back, and leaves the values of the other keys.
pub proof fn put_facts<V>(s: Seq<(Seq<u8>, V)>, key: Seq<u8>, value: V)
    requires
        in_order(s),
    ensures
        in_order(put(s, key, value)),
        value_at(put(s, key, value), key) == Some(value),
        forall|other: Seq<u8>| other != key ==> #[trigger] value_at(put(s, key, value), other) == value_at(s, other),
{
    let n = rank(s, key) as int;
    let t = put(s, key, value);
    rank_facts(s, key);
    if has_key(s, key) {
        assert forall|i: int, j: int| 0 <= i < j < t.len() implies lex_lt(#[trigger] t[i].0, #[trigger] t[j].0) by {
            assert(t[i].0 == s[i].0 && t[j].0 == s[j].0);
        }
        assert(in_order(t));
        rank_at(t, n);
    } else {
        assert forall|j: int| n <= j < s.len() implies lex_lt(key, #[trigger] s[j].0) by {
            lex_lt_total(s[n].0, key);
            if j > n {
                lex_lt_transitive(key, s[n].0, s[j].0);
            }
        }
        assert forall|i: int, j: int| 0 <= i < j < t.len() implies lex_lt(#[trigger] t[i].0, #[trigger] t[j].0) by {
            let a = if i < n { i } else { i - 1 };
            let b = if j < n { j } else { j - 1 };
            if i != n {
                assert(t[i] == s[a]);
            }
            if j != n {
                assert(t[j] == s[b]);
            }
        }
        assert(in_order(t));
        rank_at(t, n);
    }
    assert forall|other: Seq<u8>| other != key implies #[trigger] value_at(t, other) == value_at(s, other) by {
        if has_key(s, other) {
            let i = rank(s, other) as int;
            if has_key(s, key) {
                assert(i != n);
                assert(t[i] == s[i]);
                rank_at(t, i);
            } else if i < n {
                assert(t[i] == s[i]);
                rank_at(t, i);
            } else {
                assert(t[i + 1] == s[i]);
                rank_at(t, i + 1);
            }
        } else if has_key(t, other) {
            let i = rank(t, other) as int;
            assert(i != n);
            if has_key(s, key) || i < n {
                assert(t[i] == s[i]);
                rank_at(s, i);
            } else {
                assert(t[i] == s[i - 1]);
                rank_at(s, i - 1);
            }
        }
    }
}

/// A key after all others is stored at the end.
pub proof fn put_last<V>(s: Seq<(Seq<u8>, V)>, key: Seq<u8>, value: V)
    requires
        forall|i: int| 0 <= i < s.len() ==> lex_lt(#[trigger] s[i].0, key),
    ensures
        put(s, key, value) == s.push((key, value)),
{
    rank_is(s, key, s.len() as int);
    assert(put(s, key, value) =~= s.push((key, value)));
}

/// Looking up and storing go through `map_each`.
pub proof fn map_each_facts<V, W>(s: Seq<(Seq<u8>, V)>, f: spec_fn(V) -> W, key: Seq<u8>, value: V)
    ensures
        rank(map_each(s, f), key) == rank(s, key),
        has_key(map_each(s, f), key) == has_key(s, key),
        map_each(put(s, key, value), f) == put(map_each(s, f), key, f(value)),
        in_order(map_each(s, f)) == in_order(s),
{
    let m = map_each(s, f);
    rank_facts(s, key);
    rank_is(m, key, rank(s, key) as int);
    assert(map_each(put(s, key, value), f) =~= put(m, key, f(value)));
    if in_order(m) {
        assert forall|i: int, j: int| 0 <= i < j < s.len() implies lex_lt(#[trigger] s[i].0, #[trigger] s[j].0) by {
            assert(m[i].0 == s[i].0 && m[j].0 == s[j].0);
        }
    }
}

/// A map from byte strings.
pub struct ByteMap<V> {
    /// The keys with their values, in the order of the keys.
    pub entries: Vec<(Vec<u8>, V)>,
}

impl<V> ByteMap<V> {
    /// The keys with their values.
    pub open spec fn pairs(self) -> Seq<(Seq<u8>, V)> {
        Seq::new(self.entries@.len(), |i: int| (self.entries@[i].0@, self.entries@[i].1))
    }

    /// The keys are in order.
    pub open spec fn wf(self) -> bool {
        in_order(self.pairs())
    }

    /// An empty map.
    pub fn new() -> (r: Self)
        ensures
            r.wf(),
            r.pairs() == Seq::<(Seq<u8>, V)>::empty(),
    {
        let r = ByteMap { entries: Vec::new() };
        assert(r.pairs() =~= Seq::<(Seq<u8>, V)>::empty());
        r
    }

    /// The number of keys.
    pub fn len(&self) -> (r: usize)
        ensures
            r == self.pairs().len(),
    {
        self.entries.len()
    }

    /// Whether the keys are in order.
    pub fn is_in_order(&self) -> (r: bool)
        ensures
            r == self.wf(),
    {
        let ghost s = self.pairs();
        let mut i: usize = 1;
        while i < self.entries.len()
            invariant
                1 <= i,
                s == self.pairs(),
                s.len() == self.entries@.len(),
                forall|j: int, k: int|
                    0 <= j < k < i && k < s.len() ==> lex_lt(#[trigger] s[j].0, #[trigger] s[k].0),
            decreases self.entries@.len() - i,
        {
            assert(s[i - 1].0 == self.entries@[i - 1].0@ && s[i as int].0 == self.entries@[i as int].0@);
            if !lex_less(self.entries[i - 1].0.as_slice(), self.entries[i].0.as_slice()) {
                return false;
            }
            proof {
                assert forall|j: int| 0 <= j < i implies lex_lt(#[trigger] s[j].0, s[i as int].0) by {
                    if j < i - 1 {
                        lex_lt_transitive(s[j].0, s[i - 1].0, s[i as int].0);
                    }
                }
            }
            i = i + 1;
        }
        true
    }

    /// Where `key` stands, or where it would be put.
    pub fn search(&self, key: &[u8]) -> (r: Result<usize, usize>)
        requires
            self.wf(),
        ensures
            match r {
                Ok(i) => has_key(self.pairs(), key@) && i == rank(self.pairs(), key@),
                Err(i) => !has_key(self.pairs(), key@) && i == rank(self.pairs(), key@),
            },
            r matches Ok(i) ==> i < self.entries@.len() && self.entries@[i as int].0@ == key@,
            r matches Err(i) ==> i <= self.entries@.len(),
    {
        let ghost s = self.pairs();
        let mut lo: usize = 0;
        let mut hi: usize = self.entries.len();
        while lo < hi
            invariant
                s == self.pairs(),
                in_order(s),
                lo <= hi <= s.len(),
                s.len() == self.entries@.len(),
                forall|i: int| 0 <= i < lo ==> lex_lt(#[trigger] s[i].0, key@),
                forall|i: int| hi <= i < s.len() ==> lex_lt(key@, #[trigger] s[i].0),
            decreases hi - lo,
        {
            let mid: usize = lo + (hi - lo) / 2;
            assert(s[mid as int].0 == self.entries@[mid as int].0@);
            if lex_less(self.entries[mid].0.as_slice(), key) {
                proof {
                    assert forall|i: int| 0 <= i <= mid implies lex_lt(#[trigger] s[i].0, key@) by {
                        if i < mid {
                            lex_lt_transitive(s[i].0, s[mid as int].0, key@);
                        }
                    }
                }
                lo = mid + 1;
            } else if same_bytes(self.entries[mid].0.as_slice(), key) {
                proof {
                    rank_at(s, mid as int);
                }
                return Ok(mid);
            } else {
                proof {
                    lex_lt_total(s[mid as int].0, key@);
                    assert forall|i: int| mid <= i < s.len() implies lex_lt(key@, #[trigger] s[i].0) by {
                        if i > mid {
                            lex_lt_transitive(key@, s[mid as int].0, s[i].0);
                        }
                    }
                }
                hi = mid;
            }
        }
        proof {
            if lo < s.len() {
                lex_lt_irreflexive(key@);
                if lex_lt(s[lo as int].0, key@) {
                    lex_lt_transitive(key@, s[lo as int].0, key@);
                }
            }
            rank_is(s, key@, lo as int);
        }
        Err(lo)
    }

    /// The value at `key`.
    pub fn get(&self, key: &[u8]) -> (r: Option<&V>)
        requires
            self.wf(),
        ensures
            match r {
                Some(v) => value_at(self.pairs(), key@) == Some(*v),
                None => value_at(self.pairs(), key@) is None,
            },
    {
        match self.search(key) {
            Ok(i) => Some(&self.entries[i].1),
            Err(_) => None,
        }
    }

    /// Stores `value` at `key`, in place of the value that was there, if there was one.
    pub fn insert(&mut self, key: Vec<u8>, value: V)
        requires
            old(self).wf(),
        ensures
            final(self).wf(),
            final(self).pairs() == put(old(self).pairs(), key@, value),
    {
        let ghost s = self.pairs();
        proof {
            put_facts(s, key@, value);
        }
        let ghost k = key@;
        match self.search(key.as_slice()) {
            Ok(i) => {
                self.entries[i] = (key, value);
                assert(self.pairs() =~= put(s, k, value));
            },
            Err(i) => {
                self.entries.insert(i, (key, value));
                assert(self.pairs() =~= put(s, k, value));
            },
        }
    }
}

} // verus!
