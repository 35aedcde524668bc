//! Maps from byte strings.

use vstd::prelude::*;
use crate::bytemap::{has_key, in_order, put, put_facts, rank, rank_at, rank_facts, value_at, ByteMap};
use crate::bytestr::{lex_lt, lex_lt_total, lex_lt_transitive};
use crate::fsverity::FsVerityHashValue;
use crate::hash::Sha256Digest;
use crate::splitstream::DigestMap;

verus! {

/// A map is in order where each key comes before all keys after it, and only there.
pub proof fn order_of_keys<V>(s: Seq<(Seq<u8>, V)>)
    ensures
        in_order(s) <==> forall|i: int, j: int| 0 <= i < j < s.len() ==> lex_lt(#[trigger] s[i].0, #[trigger] s[j].0),
{
}

/// A value is found at a key where the two stand together in the map, and only there.
pub proof fn found_where_it_stands<V>(s: Seq<(Seq<u8>, V)>, key: Seq<u8>)
    requires
        in_order(s),
    ensures
        forall|value: V| value_at(s, key) == Some(value) <==> #[trigger] s.contains((key, value)),
        has_key(s, key) <==> exists|i: int| 0 <= i < s.len() && (#[trigger] s[i]).0 == key,
        value_at(s, key) is Some <==> has_key(s, key),
{
    rank_facts(s, key);
    let n = rank(s, key) as int;
    if has_key(s, key) {
        assert(s[n] == (key, s[n].1));
    }
    assert forall|value: V| value_at(s, key) == Some(value) <==> #[trigger] s.contains((key, value)) by {
        if s.contains((key, value)) {
            let i = choose|i: int| 0 <= i < s.len() && s[i] == (key, value);
            rank_at(s, i);
        }
        if value_at(s, key) == Some(value) {
            assert(s[n] == (key, value));
        }
    }
    if exists|i: int| 0 <= i < s.len() && (#[trigger] s[i]).0 == key {
        let i = choose|i: int| 0 <= i < s.len() && (#[trigger] s[i]).0 == key;
        rank_at(s, i);
    }
}

/// Storing a value gives a map with the value at the key, with all other keys as they were, and with
/// no others.
pub proof fn stored_at_its_key<V>(s: Seq<(Seq<u8>, V)>, key: Seq<u8>, value: V, other: Seq<u8>, old_value: V)
    requires
        in_order(s),
    ensures
        in_order(put(s, key, value)),
        put(s, key, value).contains((key, value)),
        other != key ==> (put(s, key, value).contains((other, old_value)) <==> s.contains((other, old_value))),
        put(s, key, value).contains((key, old_value)) ==> old_value == value,
{
    put_facts(s, key, value);
    found_where_it_stands(s, other);
    found_where_it_stands(put(s, key, value), other);
    found_where_it_stands(put(s, key, value), key);
    assert(put(s, key, value).contains((key, value)));
    if other != key {
        assert(value_at(put(s, key, value), other) == value_at(s, other));
    }
    if put(s, key, value).contains((key, old_value)) {
        assert(value_at(put(s, key, value), key) == Some(old_value));
    }
}

/// Looking up a key gives the value that stands with it, and nothing where it does not stand there.
pub proof fn value_looked_up<V>(map: &ByteMap<V>, key: &[u8], r: Option<&V>)
    requires
        map.wf(),
        call_ensures(ByteMap::<V>::get, (map, key), r),
    ensures
        match r {
            Some(value) => exists|i: int|
                0 <= i < map.entries@.len() && (#[trigger] map.entries@[i]).0@ == key@ && map.entries@[i].1 == *value,
            None => forall|i: int| 0 <= i < map.entries@.len() ==> (#[trigger] map.entries@[i]).0@ != key@,
        },
{
    let s = map.pairs();
    found_where_it_stands(s, key@);
    match r {
        Some(value) => {
            assert(s.contains((key@, *value)));
            let i = choose|i: int| 0 <= i < s.len() && s[i] == (key@, *value);
            assert(map.entries@[i].0@ == key@);
        },
        None => {
            assert forall|i: int| 0 <= i < map.entries@.len() implies (#[trigger] map.entries@[i]).0@ != key@ by {
                assert(s[i].0 == map.entries@[i].0@);
            }
        },
    }
}

/// Storing a value puts it at its key and leaves every other key as it was; no key is lost and no
/// other comes.
pub proof fn value_stored<V>(map: &mut ByteMap<V>, key: Vec<u8>, value: V)
    requires
        old(map).wf(),
        call_ensures(ByteMap::<V>::insert, (map, key, value), ()),
    ensures
        final(map).wf(),
        exists|i: int|
            0 <= i < final(map).entries@.len() && (#[trigger] final(map).entries@[i]).0@ == key@
                && final(map).entries@[i].1 == value,
        forall|i: int|
            0 <= i < old(map).entries@.len() && (#[trigger] old(map).entries@[i]).0@ != key@ ==> exists|j: int|
                0 <= j < final(map).entries@.len() && (#[trigger] final(map).entries@[j]).0@ == old(map).entries@[i].0@ && final(map).entries@[j].1 == old(map).entries@[i].1,
        forall|j: int|
            0 <= j < final(map).entries@.len() && (#[trigger] final(map).entries@[j]).0@ != key@ ==> exists|i: int|
                0 <= i < old(map).entries@.len() && (#[trigger] old(map).entries@[i]).0@ == final(map).entries@[j].0@ && old(map).entries@[i].1 == final(map).entries@[j].1,
{
    let s = old(map).pairs();
    let t = final(map).pairs();
    stored_at_its_key(s, key@, value, key@, value);
    let n = choose|n: int| 0 <= n < t.len() && t[n] == (key@, value);
    assert(final(map).entries@[n].0@ == key@);
    assert forall|i: int| 0 <= i < old(map).entries@.len() && (#[trigger] old(map).entries@[i]).0@
        != key@ implies exists|j: int|
        0 <= j < final(map).entries@.len() && (#[trigger] final(map).entries@[j]).0@ == old(map).entries@[i].0@
            && final(map).entries@[j].1 == old(map).entries@[i].1 by {
        let e = s[i];
        assert(s.contains(e));
        stored_at_its_key(s, key@, value, e.0, e.1);
        assert(t.contains((e.0, e.1)));
        let j = choose|j: int| 0 <= j < t.len() && t[j] == e;
        assert(final(map).entries@[j].0@ == e.0);
    }
    assert forall|j: int| 0 <= j < final(map).entries@.len() && (#[trigger] final(map).entries@[j]).0@
        != key@ implies exists|i: int|
        0 <= i < old(map).entries@.len() && (#[trigger] old(map).entries@[i]).0@ == final(map).entries@[j].0@
            && old(map).entries@[i].1 == final(map).entries@[j].1 by {
        let e = t[j];
        assert(t.contains(e));
        stored_at_its_key(s, key@, value, e.0, e.1);
        assert(s.contains((e.0, e.1)));
        let i = choose|i: int| 0 <= i < s.len() && s[i] == e;
        assert(old(map).entries@[i].0@ == e.0);
    }
}

/// Looking up a content hash in a digest map that is in order gives the identifier of the entry with
/// that hash, and nothing where there is no such entry.
pub proof fn identifier_looked_up<ObjectID: FsVerityHashValue>(
    map: &DigestMap<ObjectID>,
    body: &Sha256Digest,
    r: Option<&ObjectID>,
)
    requires
        map.wf(),
        call_ensures(DigestMap::<ObjectID>::lookup, (map, body), r),
    ensures
        match r {
            Some(id) => exists|i: int|
                0 <= i < map.map@.len() && (#[trigger] map.map@[i]).body@ == body@ && map.map@[i].verity.bytes()
                    == id.bytes(),
            None => forall|i: int| 0 <= i < map.map@.len() ==> (#[trigger] map.map@[i]).body@ != body@,
        },
{
    let s = map.entries();
    found_where_it_stands(s, body@);
    match r {
        Some(id) => {
            let i = choose|i: int| 0 <= i < s.len() && s[i] == (body@, id.bytes());
            assert(map.map@[i].body@ == body@);
        },
        None => {
            assert forall|i: int| 0 <= i < map.map@.len() implies (#[trigger] map.map@[i]).body@ != body@ by {
                assert(s[i].0 == map.map@[i].body@);
            }
        },
    }
}

/// An entry that is added to a digest map in order stands in it, all others stay, no other comes,
/// and the map is still in order.
pub proof fn entry_added<ObjectID: FsVerityHashValue>(
    map: &mut DigestMap<ObjectID>,
    body: &Sha256Digest,
    verity: &ObjectID,
)
    requires
        old(map).wf(),
        forall|i: int|
            0 <= i < old(map).entries().len() && (#[trigger] old(map).entries()[i]).0 == body@ ==> old(map).entries()[i].1 == verity.bytes(),
        call_ensures(DigestMap::<ObjectID>::insert, (map, body, verity), ()),
    ensures
        forall|i: int, j: int|
            0 <= i < j < final(map).map@.len() ==> lex_lt(
                (#[trigger] final(map).map@[i]).body@,
                (#[trigger] final(map).map@[j]).body@,
            ),
        exists|i: int|
            0 <= i < final(map).map@.len() && (#[trigger] final(map).map@[i]).body@ == body@ && final(map).map@[i].verity.bytes() == verity.bytes(),
        forall|i: int|
            0 <= i < old(map).map@.len() ==> final(map).entries().contains(
                ((#[trigger] old(map).map@[i]).body@, old(map).map@[i].verity.bytes()),
            ),
        forall|j: int|
            0 <= j < final(map).map@.len() && (#[trigger] final(map).map@[j]).body@ != body@ ==> old(map).entries().contains((final(map).map@[j].body@, final(map).map@[j].verity.bytes())),
{
    let s = old(map).entries();
    let t = final(map).entries();
    let v = verity.bytes();
    stored_at_its_key(s, body@, v, body@, v);
    let n = choose|n: int| 0 <= n < t.len() && t[n] == (body@, v);
    assert(final(map).map@[n].body@ == body@);
    assert forall|i: int, j: int| 0 <= i < j < final(map).map@.len() implies lex_lt(
        (#[trigger] final(map).map@[i]).body@,
        (#[trigger] final(map).map@[j]).body@,
    ) by {
        assert(lex_lt(t[i].0, t[j].0));
    }
    assert forall|i: int| 0 <= i < old(map).map@.len() implies final(map).entries().contains(
        ((#[trigger] old(map).map@[i]).body@, old(map).map@[i].verity.bytes()),
    ) by {
        assert(s.contains(s[i]));
        stored_at_its_key(s, body@, v, s[i].0, s[i].1);
    }
    assert forall|j: int| 0 <= j < final(map).map@.len() && (#[trigger] final(map).map@[j]).body@ != body@ implies old(map).entries().contains((final(map).map@[j].body@, final(map).map@[j].verity.bytes())) by {
        assert(t.contains(t[j]));
        stored_at_its_key(s, body@, v, t[j].0, t[j].1);
    }
}

/// A map starts with nothing in it.
pub proof fn map_starts_empty<V, ObjectID: FsVerityHashValue>(map: ByteMap<V>, digests: DigestMap<ObjectID>)
    requires
        call_ensures(ByteMap::<V>::new, (), map),
        call_ensures(DigestMap::<ObjectID>::new, (), digests),
    ensures
        map.entries@.len() == 0,
        digests.map@.len() == 0,
{
    assert(map.pairs().len() == map.entries@.len());
    assert(digests.entries().len() == digests.map@.len());
}

/// A key is searched for: it stands at the place that is given, or is to stand there, with those that
/// come before it before it and the others after.
pub proof fn key_searched<V>(map: &ByteMap<V>, key: &[u8], r: Result<usize, usize>)
    requires
        map.wf(),
        call_ensures(ByteMap::<V>::search, (map, key), r),
    ensures
        match r {
            Ok(i) => i < map.entries@.len() && map.entries@[i as int].0@ == key@,
            Err(n) => {
                &&& n <= map.entries@.len()
                &&& forall|i: int| 0 <= i < n ==> lex_lt((#[trigger] map.entries@[i]).0@, key@)
                &&& forall|i: int| n <= i < map.entries@.len() ==> lex_lt(key@, (#[trigger] map.entries@[i]).0@)
            },
        },
{
    let s = map.pairs();
    rank_facts(s, key@);
    if let Err(n) = r {
        assert forall|i: int| 0 <= i < n implies lex_lt((#[trigger] map.entries@[i]).0@, key@) by {
            assert(s[i].0 == map.entries@[i].0@);
        }
        assert forall|i: int| n <= i < map.entries@.len() implies lex_lt(key@, (#[trigger] map.entries@[i]).0@) by {
            assert(s[i].0 == map.entries@[i].0@);
            lex_lt_total(s[n as int].0, key@);
            if i > n {
                assert(lex_lt(s[n as int].0, s[i].0));
                lex_lt_transitive(key@, s[n as int].0, s[i].0);
            }
        }
    }
}

/// A map is told to be in order where it is.
pub proof fn order_is_told<V>(map: &ByteMap<V>, r: bool)
    requires
        call_ensures(ByteMap::<V>::is_in_order, (map,), r),
    ensures
        r <==> forall|i: int, j: int|
            0 <= i < j < map.entries@.len() ==> lex_lt(
                (#[trigger] map.entries@[i]).0@,
                (#[trigger] map.entries@[j]).0@,
            ),
{
    let s = map.pairs();
    if r {
        assert forall|i: int, j: int| 0 <= i < j < map.entries@.len() implies lex_lt(
            (#[trigger] map.entries@[i]).0@,
            (#[trigger] map.entries@[j]).0@,
        ) by {
            assert(lex_lt(s[i].0, s[j].0));
        }
    } else if forall|i: int, j: int|
        0 <= i < j < map.entries@.len() ==> lex_lt(
            (#[trigger] map.entries@[i]).0@,
            (#[trigger] map.entries@[j]).0@,
        ) {
        assert forall|i: int, j: int| 0 <= i < j < s.len() implies lex_lt(#[trigger] s[i].0, #[trigger] s[j].0) by {
            assert(lex_lt(map.entries@[i].0@, map.entries@[j].0@));
        }
    }
}

} // verus!
