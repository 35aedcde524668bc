//! A download gets all that its first stream leads to, and nothing else.

use vstd::prelude::*;
use crate::bytemap::{has_key, put_facts, rank_at, rank_facts, value_at};
use crate::bytestr::lex_lt_irreflexive;
use crate::download::{
    first_needed, needed_wf, note_all, note_content, note_object, note_object_wf, note_objects, note_stream,
    note_stream_wf, note_streams, Needed, ObjectQueue,
};
use crate::error::Error;
use crate::fsverity::FsVerityHashValue;
use crate::splitstream::{chunk_at, contents_from, header_at, inline_at, references, verities, Chunk, Position};

verus! {

/// What a stream refers to: other streams, by the digest of their content and their identifier,
/// and objects.
pub struct References {
    /// The streams.
    pub streams: Seq<(Seq<u8>, Seq<u8>)>,
    /// The objects.
    pub objects: Seq<Seq<u8>>,
}

/// What is needed after up to `steps` streams were looked into, where `refers` tells what each
/// stream refers to.
pub open spec fn look_into(
    n: Needed,
    refers: spec_fn(Seq<u8>) -> References,
    steps: nat,
) -> Result<Needed, Error>
    decreases steps,
{
    if steps == 0 || n.todo.len() == 0 {
        Ok(n)
    } else {
        let found = refers(n.todo.last());
        match note_all(Needed { todo: n.todo.drop_last(), ..n }, found.streams, found.objects) {
            Ok(after) => look_into(after, refers, (steps - 1) as nat),
            Err(e) => Err(e),
        }
    }
}

/// All that a stream refers to is noted.
pub open spec fn noted(n: Needed, found: References) -> bool {
    &&& forall|i: int|
        0 <= i < found.streams.len() ==> value_at(n.streams, (#[trigger] found.streams[i]).1) == Some(
            Some(found.streams[i].0),
        )
    &&& forall|i: int|
        0 <= i < found.objects.len() ==> has_key(n.streams, #[trigger] found.objects[i]) || has_key(
            n.objects,
            found.objects[i],
        )
}

/// Some stream refers to the stream `id`.
pub open spec fn referred_to(n: Needed, refers: spec_fn(Seq<u8>) -> References, id: Seq<u8>) -> bool {
    exists|from: Seq<u8>, i: int|
        has_key(n.streams, from) && 0 <= i < refers(from).streams.len() && #[trigger] refers(from).streams[i].1 == id
}

/// Some stream refers to the object `id`.
pub open spec fn object_referred_to(n: Needed, refers: spec_fn(Seq<u8>) -> References, id: Seq<u8>) -> bool {
    exists|from: Seq<u8>, i: int|
        has_key(n.streams, from) && 0 <= i < refers(from).objects.len() && #[trigger] refers(from).objects[i] == id
}

/// `after` knows all that `before` knows, and only what was not known waits in addition.
pub open spec fn grows(before: Needed, after: Needed) -> bool {
    &&& forall|id: Seq<u8>|
        has_key(before.streams, id) ==> #[trigger] value_at(after.streams, id) == value_at(before.streams, id)
    &&& forall|id: Seq<u8>| has_key(before.objects, id) ==> #[trigger] has_key(after.objects, id)
    &&& forall|id: Seq<u8>| before.todo.contains(id) ==> #[trigger] after.todo.contains(id)
    &&& forall|id: Seq<u8>|
        #[trigger] after.todo.contains(id) ==> before.todo.contains(id) || !has_key(before.streams, id)
    &&& forall|id: Seq<u8>|
        #[trigger] has_key(after.streams, id) && !has_key(before.streams, id) ==> after.todo.contains(id)
}

/// Growing goes on.
pub proof fn grows_further(a: Needed, b: Needed, c: Needed)
    requires
        grows(a, b),
        grows(b, c),
    ensures
        grows(a, c),
{
    assert forall|id: Seq<u8>| has_key(a.streams, id) implies #[trigger] value_at(c.streams, id) == value_at(
        a.streams,
        id,
    ) by {
        assert(value_at(b.streams, id) == value_at(a.streams, id));
        assert(has_key(b.streams, id));
    }
    assert forall|id: Seq<u8>| has_key(a.objects, id) implies #[trigger] has_key(c.objects, id) by {
        assert(has_key(b.objects, id));
    }
    assert forall|id: Seq<u8>| a.todo.contains(id) implies #[trigger] c.todo.contains(id) by {
        assert(b.todo.contains(id));
    }
    assert forall|id: Seq<u8>| #[trigger] c.todo.contains(id) implies a.todo.contains(id) || !has_key(
        a.streams,
        id,
    ) by {
        if has_key(a.streams, id) {
            assert(value_at(b.streams, id) == value_at(a.streams, id));
            assert(has_key(b.streams, id));
            assert(b.todo.contains(id));
        }
    }
    assert forall|id: Seq<u8>| #[trigger] has_key(c.streams, id) && !has_key(a.streams, id) implies c.todo.contains(
        id,
    ) by {
        if has_key(b.streams, id) {
            assert(b.todo.contains(id));
        }
    }
}

/// What noting a stream does.
proof fn note_stream_grows(n: Needed, entry: (Seq<u8>, Seq<u8>), first: Seq<u8>, size: nat)
    requires
        needed_wf(n, first, size),
    ensures
        note_stream(n, entry) matches Ok(after) ==> {
            &&& grows(n, after)
            &&& value_at(after.streams, entry.1) == Some(Some(entry.0))
            &&& after.objects == n.objects
            &&& forall|id: Seq<u8>| #[trigger]
                has_key(after.streams, id) ==> has_key(n.streams, id) || id == entry.1
        },
{
    if let Ok(after) = note_stream(n, entry) {
        if value_at(n.streams, entry.1) is None {
            put_facts(n.streams, entry.1, Some(entry.0));
            assert(after.todo.last() == entry.1);
            assert forall|id: Seq<u8>| n.todo.contains(id) implies #[trigger] after.todo.contains(id) by {
                let i = choose|i: int| 0 <= i < n.todo.len() && n.todo[i] == id;
                assert(after.todo[i] == id);
            }
            assert forall|id: Seq<u8>| #[trigger] after.todo.contains(id) implies n.todo.contains(id) || !has_key(
                n.streams,
                id,
            ) by {
                let i = choose|i: int| 0 <= i < after.todo.len() && after.todo[i] == id;
                if i < n.todo.len() {
                    assert(n.todo[i] == id);
                }
            }
            assert forall|id: Seq<u8>| #[trigger] has_key(after.streams, id) implies has_key(n.streams, id) || id
                == entry.1 by {
                if id != entry.1 {
                    assert(value_at(after.streams, id) == value_at(n.streams, id));
                }
            }
            assert forall|id: Seq<u8>| has_key(n.streams, id) implies #[trigger] value_at(after.streams, id)
                == value_at(n.streams, id) by {
                assert(id != entry.1);
            }
            assert(after.todo.contains(entry.1)) by {
                assert(after.todo[after.todo.len() - 1] == entry.1);
            }
        }
    }
}

/// What noting some streams does.
pub proof fn note_streams_grows(n: Needed, entries: Seq<(Seq<u8>, Seq<u8>)>, first: Seq<u8>, size: nat)
    requires
        needed_wf(n, first, size),
        forall|i: int| 0 <= i < entries.len() ==> (#[trigger] entries[i]).1.len() == size,
    ensures
        note_streams(n, entries) matches Ok(after) ==> {
            &&& needed_wf(after, first, size)
            &&& grows(n, after)
            &&& after.objects == n.objects
            &&& forall|i: int|
                0 <= i < entries.len() ==> value_at(after.streams, (#[trigger] entries[i]).1) == Some(
                    Some(entries[i].0),
                )
            &&& forall|id: Seq<u8>| #[trigger]
                has_key(after.streams, id) && !has_key(n.streams, id) ==> exists|i: int|
                    0 <= i < entries.len() && (#[trigger] entries[i]).1 == id
        },
    decreases entries.len(),
{
    if entries.len() > 0 {
        let front = entries.drop_last();
        assert forall|i: int| 0 <= i < front.len() implies (#[trigger] front[i]).1.len() == size by {
            assert(front[i] == entries[i]);
        }
        note_streams_grows(n, front, first, size);
        if let Ok(before) = note_streams(n, front) {
            let last = entries.last();
            assert(entries[entries.len() - 1] == last);
            note_stream_grows(before, last, first, size);
            note_stream_wf(before, last, first, size);
            if let Ok(after) = note_stream(before, last) {
                grows_further(n, before, after);
                assert forall|i: int| 0 <= i < entries.len() implies value_at(after.streams, (#[trigger] entries[i]).1)
                    == Some(Some(entries[i].0)) by {
                    if i < front.len() {
                        assert(front[i] == entries[i]);
                        assert(has_key(before.streams, entries[i].1));
                    }
                }
                assert forall|id: Seq<u8>| #[trigger] has_key(after.streams, id) && !has_key(
                    n.streams,
                    id,
                ) implies exists|i: int| 0 <= i < entries.len() && (#[trigger] entries[i]).1 == id by {
                    if has_key(before.streams, id) {
                        let i = choose|i: int| 0 <= i < front.len() && (#[trigger] front[i]).1 == id;
                        assert(entries[i].1 == id);
                    } else {
                        assert(entries[entries.len() - 1].1 == id);
                    }
                }
            }
        }
    }
}

/// What noting some objects does.
pub proof fn note_objects_grows(n: Needed, ids: Seq<Seq<u8>>, first: Seq<u8>, size: nat)
    requires
        needed_wf(n, first, size),
        forall|i: int| 0 <= i < ids.len() ==> (#[trigger] ids[i]).len() == size,
    ensures
        ({
            let after = note_objects(n, ids);
            &&& needed_wf(after, first, size)
            &&& grows(n, after)
            &&& after.streams == n.streams
            &&& after.todo == n.todo
            &&& forall|i: int|
                0 <= i < ids.len() ==> has_key(after.streams, #[trigger] ids[i]) || has_key(after.objects, ids[i])
            &&& forall|id: Seq<u8>| #[trigger]
                has_key(after.objects, id) && !has_key(n.objects, id) ==> ids.contains(id)
        }),
    decreases ids.len(),
{
    if ids.len() > 0 {
        let front = ids.drop_last();
        let last = ids.last();
        assert forall|i: int| 0 <= i < front.len() implies (#[trigger] front[i]).len() == size by {
            assert(front[i] == ids[i]);
        }
        note_objects_grows(n, front, first, size);
        let before = note_objects(n, front);
        let after = note_object(before, last);
        assert(ids[ids.len() - 1] == last);
        note_object_wf(before, last, first, size);
        put_facts(before.objects, last, ());
        assert forall|id: Seq<u8>| has_key(before.objects, id) implies #[trigger] has_key(after.objects, id) by {
            if !has_key(before.streams, last) {
                if id == last {
                    assert(value_at(after.objects, id) is Some);
                } else {
                    assert(value_at(after.objects, id) == value_at(before.objects, id));
                    assert(value_at(before.objects, id) is Some);
                }
            }
        }
        assert(!has_key(before.streams, last) ==> value_at(after.objects, last) is Some);
        assert forall|i: int| 0 <= i < ids.len() implies has_key(after.streams, #[trigger] ids[i]) || has_key(
            after.objects,
            ids[i],
        ) by {
            if i < front.len() {
                assert(front[i] == ids[i]);
            }
        }
        assert forall|id: Seq<u8>| #[trigger] has_key(after.objects, id) && !has_key(
            n.objects,
            id,
        ) implies ids.contains(id) by {
            if id != last {
                if !has_key(before.streams, last) {
                    assert(value_at(after.objects, id) == value_at(before.objects, id));
                    assert(value_at(after.objects, id) is Some);
                }
                assert(has_key(before.objects, id));
                let i = choose|i: int| 0 <= i < front.len() && front[i] == id;
                assert(ids[i] == id);
            }
        }
    }
}

/// All identifiers that streams refer to have `size` bytes.
pub open spec fn sized(refers: spec_fn(Seq<u8>) -> References, size: nat) -> bool {
    forall|from: Seq<u8>|
        #![trigger refers(from)]
        (forall|i: int| 0 <= i < refers(from).streams.len() ==> (#[trigger] refers(from).streams[i]).1.len() == size)
            && (forall|i: int| 0 <= i < refers(from).objects.len() ==> (#[trigger] refers(from).objects[i]).len()
            == size)
}

/// Each stream that was looked into is noted with all it refers to, and nothing is noted that no
/// stream refers to.
pub open spec fn in_progress(n: Needed, refers: spec_fn(Seq<u8>) -> References, first: Seq<u8>) -> bool {
    &&& forall|id: Seq<u8>| #[trigger]
        has_key(n.streams, id) && !n.todo.contains(id) ==> noted(n, refers(id))
    &&& forall|id: Seq<u8>| #[trigger] has_key(n.streams, id) ==> id == first || referred_to(n, refers, id)
    &&& forall|id: Seq<u8>| #[trigger] has_key(n.objects, id) ==> object_referred_to(n, refers, id)
}

/// What was noted stays noted.
proof fn noted_stays(before: Needed, after: Needed, found: References)
    requires
        grows(before, after),
        noted(before, found),
    ensures
        noted(after, found),
{
    assert forall|i: int| 0 <= i < found.streams.len() implies value_at(after.streams, (#[trigger] found.streams[i]).1)
        == Some(Some(found.streams[i].0)) by {
        assert(has_key(before.streams, found.streams[i].1));
    }
    assert forall|i: int| 0 <= i < found.objects.len() implies has_key(after.streams, #[trigger] found.objects[i])
        || has_key(after.objects, found.objects[i]) by {
        if has_key(before.streams, found.objects[i]) {
            assert(value_at(after.streams, found.objects[i]) == value_at(before.streams, found.objects[i]));
        }
    }
}

/// Looking into one stream.
proof fn look_into_one(n: Needed, refers: spec_fn(Seq<u8>) -> References, first: Seq<u8>, size: nat)
    requires
        needed_wf(n, first, size),
        in_progress(n, refers, first),
        sized(refers, size),
        n.todo.len() > 0,
    ensures
        ({
            let found = refers(n.todo.last());
            note_all(Needed { todo: n.todo.drop_last(), ..n }, found.streams, found.objects) matches Ok(after)
                ==> needed_wf(after, first, size) && in_progress(after, refers, first)
        }),
{
    let id = n.todo.last();
    let found = refers(id);
    let popped = Needed { todo: n.todo.drop_last(), ..n };
    assert(n.todo[n.todo.len() - 1] == id);
    assert(needed_wf(popped, first, size)) by {
        assert forall|i: int| 0 <= i < popped.todo.len() implies has_key(popped.streams, #[trigger] popped.todo[i]) by {
            assert(popped.todo[i] == n.todo[i]);
        }
        assert forall|i: int, j: int|
            0 <= i < popped.todo.len() && 0 <= j < popped.todo.len() && i != j implies popped.todo[i]
            != popped.todo[j] by {
            assert(popped.todo[i] == n.todo[i] && popped.todo[j] == n.todo[j]);
        }
    }
    note_streams_grows(popped, found.streams, first, size);
    if let Ok(middle) = note_streams(popped, found.streams) {
        note_objects_grows(middle, found.objects, first, size);
        let after = note_objects(middle, found.objects);
        grows_further(popped, middle, after);
        assert(has_key(n.streams, id));
        assert(value_at(after.streams, id) == value_at(popped.streams, id));
        assert(has_key(after.streams, id));
        assert(noted(after, found));
        assert forall|x: Seq<u8>| #[trigger] has_key(after.streams, x) && !after.todo.contains(x) implies noted(
            after,
            refers(x),
        ) by {
            assert(has_key(popped.streams, x));
            if x != id {
                assert(!n.todo.contains(x)) by {
                    if n.todo.contains(x) {
                        let i = choose|i: int| 0 <= i < n.todo.len() && n.todo[i] == x;
                        assert(popped.todo[i] == x);
                        assert(popped.todo.contains(x));
                    }
                }
                assert(has_key(n.streams, x));
                assert(noted(n, refers(x)));
                assert(noted(popped, refers(x)));
                noted_stays(popped, after, refers(x));
            }
        }
        assert forall|x: Seq<u8>| #[trigger] has_key(after.streams, x) implies x == first || referred_to(
            after,
            refers,
            x,
        ) by {
            if has_key(n.streams, x) {
                if x != first {
                    let (from, i) = choose|from: Seq<u8>, i: int|
                        has_key(n.streams, from) && 0 <= i < refers(from).streams.len() && #[trigger] refers(
                            from,
                        ).streams[i].1 == x;
                    assert(value_at(after.streams, from) == value_at(popped.streams, from));
                    assert(has_key(after.streams, from));
                    assert(refers(from).streams[i].1 == x);
                }
            } else {
                assert(has_key(middle.streams, x) && !has_key(popped.streams, x));
                let i = choose|i: int| 0 <= i < found.streams.len() && (#[trigger] found.streams[i]).1 == x;
                assert(refers(id).streams[i].1 == x);
            }
        }
        assert forall|x: Seq<u8>| #[trigger] has_key(after.objects, x) implies object_referred_to(
            after,
            refers,
            x,
        ) by {
            if has_key(n.objects, x) {
                let (from, i) = choose|from: Seq<u8>, i: int|
                    has_key(n.streams, from) && 0 <= i < refers(from).objects.len() && #[trigger] refers(
                        from,
                    ).objects[i] == x;
                assert(value_at(after.streams, from) == value_at(popped.streams, from));
                assert(has_key(after.streams, from));
                assert(refers(from).objects[i] == x);
            } else {
                let i = choose|i: int| 0 <= i < found.objects.len() && found.objects[i] == x;
                assert(refers(id).objects[i] == x);
            }
        }
    }
}

/// Looking into streams keeps what holds in between.
proof fn look_into_all(n: Needed, refers: spec_fn(Seq<u8>) -> References, steps: nat, first: Seq<u8>, size: nat)
    requires
        needed_wf(n, first, size),
        in_progress(n, refers, first),
        sized(refers, size),
    ensures
        look_into(n, refers, steps) matches Ok(after) ==> needed_wf(after, first, size) && in_progress(
            after,
            refers,
            first,
        ),
    decreases steps,
{
    if steps > 0 && n.todo.len() > 0 {
        look_into_one(n, refers, first, size);
        let found = refers(n.todo.last());
        if let Ok(after) = note_all(Needed { todo: n.todo.drop_last(), ..n }, found.streams, found.objects) {
            look_into_all(after, refers, (steps - 1) as nat, first, size);
        }
    }
}

/// What the content of a stream refers to, where identifiers have `size` bytes: the streams in its
/// digest map, and as objects these and all that it has references to.
pub open spec fn stream_references(stream: Seq<u8>, size: nat) -> References {
    match header_at(stream, size) {
        Ok((entries, rest)) => References {
            streams: entries,
            objects: verities(entries) + references(contents_from(Position { rest, inline: 0 }, size).0),
        },
        Err(_) => References { streams: seq![], objects: seq![] },
    }
}

/// Looking into the content of a stream, as `Downloader::next_stream` and then
/// `Downloader::visit_stream` do, is a step of `look_into`.
pub proof fn visit_is_a_step(
    n: Needed,
    stream: Seq<u8>,
    size: nat,
    after: Needed,
    refers: spec_fn(Seq<u8>) -> References,
)
    requires
        n.todo.len() > 0,
        note_content(Needed { todo: n.todo.drop_last(), ..n }, stream, size) == Ok::<Needed, Error>(after),
        refers(n.todo.last()) == stream_references(stream, size),
    ensures
        look_into(n, refers, 1) == Ok::<Needed, Error>(after),
{
    reveal_with_fuel(look_into, 2);
}

/// What is referred to from some place of a stream on has the size of an identifier.
proof fn references_sized(at: Position, size: nat)
    ensures
        forall|i: int|
            0 <= i < references(contents_from(at, size).0).len() ==> (#[trigger] references(
                contents_from(at, size).0,
            )[i]).len() == size,
    decreases at.rest.len(),
{
    let contents = contents_from(at, size).0;
    let (next, chunk) = chunk_at(at, size, true, true, 0);
    match chunk {
        Ok(Chunk::External(id)) => {
            references_sized(next, size);
            assert(contents.drop_first() =~= contents_from(next, size).0);
            let more = references(contents.drop_first());
            assert(references(contents) == seq![id] + more);
            assert(id.len() == size);
            assert forall|i: int| 0 <= i < references(contents).len() implies (#[trigger] references(contents)[i]).len()
                == size by {
                if i > 0 {
                    assert(references(contents)[i] == more[i - 1]);
                }
            }
        },
        Ok(Chunk::Inline) => {
            let (last, bytes) = inline_at(next, next.inline);
            if bytes is Ok {
                references_sized(last, size);
                assert(contents.drop_first() =~= contents_from(last, size).0);
                assert(references(contents) == references(contents.drop_first()));
            }
        },
        _ => {
            assert(references(contents).len() == 0);
        },
    }
}

/// What streams refer to has the size of an identifier, whatever their content is.
pub proof fn stream_references_sized(streams: spec_fn(Seq<u8>) -> Seq<u8>, size: nat)
    ensures
        sized(|id: Seq<u8>| stream_references(streams(id), size), size),
{
    let refers = |id: Seq<u8>| stream_references(streams(id), size);
    assert forall|id: Seq<u8>, i: int| 0 <= i < refers(id).streams.len() implies (#[trigger] refers(
        id,
    ).streams[i]).1.len() == size by {
        let stream = streams(id);
        let n = refers(id).streams.len();
        assert((i + 1) * (32 + size) <= n * (32 + size) && i * (32 + size) >= 0 && (i + 1) * (32 + size) == i * (32
            + size) + 32 + size) by (nonlinear_arith)
            requires
                0 <= i < n,
                size >= 0,
        ;
        assert(stream.len() >= 8 + n * (32 + size));
    }
    assert forall|id: Seq<u8>, i: int| 0 <= i < refers(id).objects.len() implies (#[trigger] refers(
        id,
    ).objects[i]).len() == size by {
        if let Ok((entries, rest)) = header_at(streams(id), size) {
            references_sized(Position { rest, inline: 0 }, size);
            if i < entries.len() {
                assert(refers(id).streams[i].1.len() == size);
                assert(refers(id).objects[i] == refers(id).streams[i].1);
            } else {
                let more = references(contents_from(Position { rest, inline: 0 }, size).0);
                assert(refers(id).objects[i] == more[i - entries.len()]);
            }
        }
    }
}

/// When no stream waits any more, all that is referred to is known: each stream and each object
/// that a known stream refers to, with the digest that the reference gives; and nothing else is,
/// besides the first stream.
pub proof fn download_complete(refers: spec_fn(Seq<u8>) -> References, steps: nat, first: Seq<u8>, size: nat)
    requires
        first.len() == size,
        sized(refers, size),
    ensures
        look_into(first_needed(first), refers, steps) matches Ok(n) ==> {
            &&& has_key(n.streams, first)
            &&& n.todo.len() == 0 ==> forall|id: Seq<u8>| #[trigger] has_key(n.streams, id) ==> noted(n, refers(id))
            &&& forall|id: Seq<u8>| #[trigger] has_key(n.streams, id) ==> id == first || referred_to(n, refers, id)
            &&& forall|id: Seq<u8>| #[trigger] has_key(n.objects, id) ==> object_referred_to(n, refers, id)
        },
{
    let n = first_needed(first);
    rank_at(n.streams, 0);
    assert(n.todo[0] == first);
    assert(needed_wf(n, first, size));
    assert forall|id: Seq<u8>| #[trigger] has_key(n.streams, id) implies id == first by {
        rank_facts(n.streams, id);
    }
    look_into_all(n, refers, steps, first, size);
}

/// A stream that was taken to be looked into is not asked for again, whatever is found.
pub proof fn never_asked_again(
    n: Needed,
    entries: Seq<(Seq<u8>, Seq<u8>)>,
    objects: Seq<Seq<u8>>,
    id: Seq<u8>,
    first: Seq<u8>,
    size: nat,
)
    requires
        needed_wf(n, first, size),
        forall|i: int| 0 <= i < entries.len() ==> (#[trigger] entries[i]).1.len() == size,
        forall|i: int| 0 <= i < objects.len() ==> (#[trigger] objects[i]).len() == size,
        has_key(n.streams, id),
        !n.todo.contains(id),
    ensures
        note_all(n, entries, objects) matches Ok(after) ==> has_key(after.streams, id) && !after.todo.contains(id),
{
    note_streams_grows(n, entries, first, size);
    if let Ok(middle) = note_streams(n, entries) {
        note_objects_grows(middle, objects, first, size);
        assert(value_at(middle.streams, id) == value_at(n.streams, id));
    }
}

/// Streams that give the content of a third different digests are not accepted together.
pub proof fn digests_have_to_agree(n: Needed, a: (Seq<u8>, Seq<u8>), b: (Seq<u8>, Seq<u8>), first: Seq<u8>, size: nat)
    requires
        needed_wf(n, first, size),
        a.1.len() == size,
        a.1 == b.1,
        a.0 != b.0,
    ensures
        note_streams(n, seq![a, b]) is Err,
{
    let both = seq![a, b];
    assert(both.drop_last() =~= seq![a]);
    assert(seq![a].drop_last() =~= seq![]);
    assert(note_streams(n, seq![a].drop_last()) == Ok::<Needed, Error>(n));
    note_stream_grows(n, a, first, size);
    assert(note_streams(n, seq![a]) == note_stream(n, a));
}

/// No object is asked for twice.
pub proof fn objects_are_distinct(n: Needed, first: Seq<u8>, size: nat, i: int, j: int)
    requires
        needed_wf(n, first, size),
        0 <= i < j < n.objects.len(),
    ensures
        n.objects[i].0 != n.objects[j].0,
{
    lex_lt_irreflexive(n.objects[i].0);
}

/// When nothing runs any more although as much runs as can, all objects were asked for.
pub proof fn queue_is_emptied<ObjectID: FsVerityHashValue>(queue: ObjectQueue<ObjectID>)
    requires
        queue.wf(),
        queue.busy(),
        queue.running() == 0,
    ensures
        queue.handed_out() == queue.all().len(),
{
}

} // verus!
