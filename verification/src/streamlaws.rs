//! What reading a split stream gives back of what was written to it.

use vstd::prelude::*;
use vstd::bytes::{lemma_auto_spec_u64_to_from_le_bytes, spec_u64_to_le_bytes};
use crate::compress::{decompressed, ZstdEncoder};
use crate::error::Error;
use crate::fsverity::FsVerityHashValue;
use crate::hash::Sha256Digest;
use crate::io::{le_size, ByteSink};
use crate::splitstream::{
    check_more, check_start, chunk_at, content_at, contents_from, entry_at, entry_bytes, flushed, header, header_at,
    inline_fragment, joins_to, reference_fragment, references, refs_of, size_bytes, Chunk, Content, DigestMap,
    Position, SplitStreamWriter,
};

verus! {

/// Something that is written to a split stream.
pub enum Written {
    /// Inline content.
    Inline(Seq<u8>),
    /// Content that is kept as the object with the given identifier, and padding after it.
    External(Seq<u8>, Seq<u8>),
}

/// What the sink and the buffer of a writer hold after one more thing was written: see
/// `SplitStreamWriter::write_inline` and `SplitStreamWriter::write_external`.
pub open spec fn write_one(sink: Seq<u8>, buffer: Seq<u8>, op: Written) -> (Seq<u8>, Seq<u8>) {
    match op {
        Written::Inline(data) => (sink, buffer + data),
        Written::External(id, padding) => (flushed(sink, buffer) + reference_fragment(id), padding),
    }
}

/// What the sink and the buffer hold after all of `ops` was written, in order.
pub open spec fn write_each(sink: Seq<u8>, ops: Seq<Written>) -> (Seq<u8>, Seq<u8>)
    decreases ops.len(),
{
    if ops.len() == 0 {
        (sink, seq![])
    } else {
        let (s, b) = write_each(sink, ops.drop_last());
        write_one(s, b, ops.last())
    }
}

/// The stream that comes of starting with a digest map, writing `ops`, and ending it.
pub open spec fn stream_of(entries: Seq<(Seq<u8>, Seq<u8>)>, ops: Seq<Written>) -> Seq<u8> {
    let (s, b) = write_each(header(entries), ops);
    flushed(s, b)
}

/// All bytes that were written, where `objects` tells the content of each object.
pub open spec fn data_of(ops: Seq<Written>, objects: spec_fn(Seq<u8>) -> Seq<u8>) -> Seq<u8>
    decreases ops.len(),
{
    if ops.len() == 0 {
        seq![]
    } else {
        data_of(ops.drop_last(), objects) + match ops.last() {
            Written::Inline(data) => data,
            Written::External(id, padding) => objects(id) + padding,
        }
    }
}

/// The objects that were written, in order.
pub open spec fn objects_of(ops: Seq<Written>) -> Seq<Seq<u8>>
    decreases ops.len(),
{
    if ops.len() == 0 {
        seq![]
    } else {
        objects_of(ops.drop_last()) + match ops.last() {
            Written::Inline(_) => seq![],
            Written::External(id, _) => seq![id],
        }
    }
}

/// All bytes of some content, where `objects` tells the content of each object.
pub open spec fn joined(contents: Seq<Content>, objects: spec_fn(Seq<u8>) -> Seq<u8>) -> Seq<u8>
    decreases contents.len(),
{
    if contents.len() == 0 {
        seq![]
    } else {
        joined(contents.drop_last(), objects) + match contents.last() {
            Content::Inline(data) => data,
            Content::External(id) => objects(id),
        }
    }
}

/// Each identifier has its size, and the inline content that comes together between two
/// references has a size that a machine can hold.
pub open spec fn writable(ops: Seq<Written>, size: nat) -> bool {
    &&& forall|i: int| 0 <= i < ops.len() ==> (#[trigger] ops[i] matches Written::External(id, _) ==> id.len() == size)
    &&& forall|i: int|
        0 <= i <= ops.len() ==> (#[trigger] write_each(Seq::<u8>::empty(), ops.take(i))).1.len() <= usize::MAX
}

proof fn size_read_back(n: nat)
    requires
        n <= usize::MAX,
    ensures
        size_bytes(n).len() == 8,
        le_size(size_bytes(n)) == n,
{
    lemma_auto_spec_u64_to_from_le_bytes();
    let x = n as u64;
    assert(spec_u64_to_le_bytes(x).len() == 8);
}

/// A fragment of inline content is read back.
pub proof fn inline_read_back(data: Seq<u8>, size: nat)
    requires
        0 < data.len() <= usize::MAX,
    ensures
        contents_from(Position { rest: inline_fragment(data), inline: 0 }, size) == (
            seq![Content::Inline(data)],
            Ok::<(), Error>(()),
        ),
{
    let s = inline_fragment(data);
    size_read_back(data.len());
    assert(s.take(8) =~= size_bytes(data.len()));
    assert(s.skip(8) =~= data);
    let next = Position { rest: data, inline: data.len() as usize };
    assert(chunk_at(Position { rest: s, inline: 0 }, size, true, true, 0) == (next, Ok::<Chunk, Error>(Chunk::Inline)));
    assert(data.take(data.len() as int) =~= data);
    let end = Position { rest: data.skip(data.len() as int), inline: 0 };
    assert(end.rest =~= Seq::<u8>::empty());
    assert(contents_from(end, size).0 =~= Seq::<Content>::empty());
    assert(seq![Content::Inline(data)] + Seq::<Content>::empty() =~= seq![Content::Inline(data)]);
}

/// A reference is read back.
pub proof fn reference_read_back(id: Seq<u8>)
    ensures
        contents_from(Position { rest: reference_fragment(id), inline: 0 }, id.len()) == (
            seq![Content::External(id)],
            Ok::<(), Error>(()),
        ),
{
    let s = reference_fragment(id);
    size_read_back(0);
    assert(s.take(8) =~= size_bytes(0));
    assert(s.skip(8) =~= id);
    assert(id.take(id.len() as int) =~= id);
    let end = Position { rest: id.skip(id.len() as int), inline: 0 };
    assert(end.rest =~= Seq::<u8>::empty());
    assert(contents_from(end, id.len()).0 =~= Seq::<Content>::empty());
    assert(seq![Content::External(id)] + Seq::<Content>::empty() =~= seq![Content::External(id)]);
}

/// What is added to a stream that ends well is read after what was there.
pub proof fn contents_append(a: Seq<u8>, b: Seq<u8>, size: nat)
    requires
        contents_from(Position { rest: a, inline: 0 }, size).1 is Ok,
    ensures
        contents_from(Position { rest: a + b, inline: 0 }, size) == (
            contents_from(Position { rest: a, inline: 0 }, size).0 + contents_from(
                Position { rest: b, inline: 0 },
                size,
            ).0,
            contents_from(Position { rest: b, inline: 0 }, size).1,
        ),
    decreases a.len(),
{
    let pa = Position { rest: a, inline: 0 };
    let pb = Position { rest: b, inline: 0 };
    let pab = Position { rest: a + b, inline: 0 };
    let cb = contents_from(pb, size).0;
    if a.len() == 0 {
        assert(a + b =~= b);
        assert(contents_from(pa, size).0 + cb =~= cb);
    } else {
        let n = le_size(a.take(8));
        assert((a + b).take(8) =~= a.take(8));
        let used: int = if n == 0 {
            8 + size as int
        } else {
            8 + n as int
        };
        let (next, chunk) = chunk_at(pa, size, true, true, 0);
        let rest = a.skip(used);
        assert((a + b).skip(8) =~= a.skip(8) + b);
        assert(a.len() >= used);
        assert((a + b).skip(8).skip(used - 8) =~= rest + b);
        assert(a.skip(8).skip(used - 8) =~= rest);
        assert((a + b).skip(8).take(used - 8) =~= a.skip(8).take(used - 8));
        contents_append(rest, b, size);
        let cr = contents_from(Position { rest, inline: 0 }, size).0;
        let head = if n == 0 {
            Content::External(a.skip(8).take(size as int))
        } else {
            Content::Inline(a.skip(8).take(n as int))
        };
        assert(contents_from(pa, size).0 == seq![head] + cr);
        assert(contents_from(pab, size).0 == seq![head] + (cr + cb));
        assert(seq![head] + (cr + cb) =~= (seq![head] + cr) + cb);
    }
}

/// The bytes of content in a row.
pub proof fn joined_concat(a: Seq<Content>, b: Seq<Content>, objects: spec_fn(Seq<u8>) -> Seq<u8>)
    ensures
        joined(a + b, objects) == joined(a, objects) + joined(b, objects),
    decreases b.len(),
{
    if b.len() == 0 {
        assert(a + b =~= a);
        assert(joined(a, objects) + joined(b, objects) =~= joined(a, objects));
    } else {
        joined_concat(a, b.drop_last(), objects);
        assert((a + b).drop_last() =~= a + b.drop_last());
        assert(joined(a + b, objects) =~= joined(a, objects) + joined(b, objects));
    }
}

/// The references in content in a row.
pub proof fn references_concat(a: Seq<Content>, b: Seq<Content>)
    ensures
        references(a + b) == references(a) + references(b),
    decreases a.len(),
{
    if a.len() == 0 {
        assert(a + b =~= b);
        assert(references(a) + references(b) =~= references(b));
    } else {
        references_concat(a.drop_first(), b);
        assert((a + b).drop_first() =~= a.drop_first() + b);
        assert(references(a + b) =~= references(a) + references(b));
    }
}

/// The bytes of a single piece of content, and what it refers to.
pub proof fn one_content(c: Content, objects: spec_fn(Seq<u8>) -> Seq<u8>)
    ensures
        joined(seq![c], objects) == (match c {
            Content::Inline(data) => data,
            Content::External(id) => objects(id),
        }),
        references(seq![c]) == (match c {
            Content::Inline(_) => Seq::<Seq<u8>>::empty(),
            Content::External(id) => seq![id],
        }),
{
    let one = seq![c];
    assert(one.drop_last() =~= Seq::<Content>::empty());
    assert(one.drop_first() =~= Seq::<Content>::empty());
    assert(joined(one.drop_last(), objects) =~= Seq::<u8>::empty());
    assert(references(one.drop_first()) =~= Seq::<Seq<u8>>::empty());
    assert(joined(one, objects) =~= (match c {
        Content::Inline(data) => data,
        Content::External(id) => objects(id),
    }));
    assert(references(one) =~= (match c {
        Content::Inline(_) => Seq::<Seq<u8>>::empty(),
        Content::External(id) => seq![id],
    }));
}

/// A stream of which `sink` was written and ends well, with what it holds.
spec fn holds(
    sink: Seq<u8>,
    size: nat,
    objects: spec_fn(Seq<u8>) -> Seq<u8>,
    data: Seq<u8>,
    refs: Seq<Seq<u8>>,
) -> bool {
    let (c, end) = contents_from(Position { rest: sink, inline: 0 }, size);
    end == Ok::<(), Error>(()) && joined(c, objects) == data && references(c) == refs
}

proof fn holds_more(
    sink: Seq<u8>,
    size: nat,
    objects: spec_fn(Seq<u8>) -> Seq<u8>,
    data: Seq<u8>,
    refs: Seq<Seq<u8>>,
    fragment: Seq<u8>,
    c: Content,
)
    requires
        holds(sink, size, objects, data, refs),
        contents_from(Position { rest: fragment, inline: 0 }, size) == (seq![c], Ok::<(), Error>(())),
    ensures
        holds(
            sink + fragment,
            size,
            objects,
            data + joined(seq![c], objects),
            refs + references(seq![c]),
        ),
{
    contents_append(sink, fragment, size);
    let before = contents_from(Position { rest: sink, inline: 0 }, size).0;
    joined_concat(before, seq![c], objects);
    references_concat(before, seq![c]);
}

proof fn flushed_holds(
    sink: Seq<u8>,
    buffer: Seq<u8>,
    size: nat,
    objects: spec_fn(Seq<u8>) -> Seq<u8>,
    data: Seq<u8>,
    refs: Seq<Seq<u8>>,
)
    requires
        holds(sink, size, objects, data, refs),
        buffer.len() <= usize::MAX,
    ensures
        holds(flushed(sink, buffer), size, objects, data + buffer, refs),
{
    if buffer.len() == 0 {
        assert(data + buffer =~= data);
    } else {
        inline_read_back(buffer, size);
        one_content(Content::Inline(buffer), objects);
        holds_more(sink, size, objects, data, refs, inline_fragment(buffer), Content::Inline(buffer));
        assert(refs + Seq::<Seq<u8>>::empty() =~= refs);
    }
}

proof fn written_holds(ops: Seq<Written>, size: nat, objects: spec_fn(Seq<u8>) -> Seq<u8>) -> (data: Seq<u8>)
    requires
        writable(ops, size),
    ensures
        holds(write_each(Seq::empty(), ops).0, size, objects, data, objects_of(ops)),
        data + write_each(Seq::empty(), ops).1 == data_of(ops, objects),
    decreases ops.len(),
{
    let none = Seq::<u8>::empty();
    if ops.len() == 0 {
        assert(contents_from(Position { rest: none, inline: 0 }, size).0 =~= Seq::<Content>::empty());
        assert(none + write_each(none, ops).1 =~= data_of(ops, objects));
        none
    } else {
        let front = ops.drop_last();
        assert forall|i: int| 0 <= i < front.len() implies (#[trigger] front[i] matches Written::External(id, _)
            ==> id.len() == size) by {
            assert(front[i] == ops[i]);
        }
        assert forall|i: int| 0 <= i <= front.len() implies (#[trigger] write_each(none, front.take(i))).1.len()
            <= usize::MAX by {
            assert(front.take(i) =~= ops.take(i));
        }
        let before = written_holds(front, size, objects);
        let (sink, buffer) = write_each(none, front);
        match ops.last() {
            Written::Inline(more) => {
                assert(before + (buffer + more) =~= (before + buffer) + more);
                assert(objects_of(front) + Seq::<Seq<u8>>::empty() =~= objects_of(front));
                before
            },
            Written::External(id, padding) => {
                assert(ops[ops.len() - 1] == ops.last());
                assert(front.take(front.len() as int) =~= front);
                flushed_holds(sink, buffer, size, objects, before, objects_of(front));
                reference_read_back(id);
                one_content(Content::External(id), objects);
                holds_more(
                    flushed(sink, buffer),
                    size,
                    objects,
                    before + buffer,
                    objects_of(front),
                    reference_fragment(id),
                    Content::External(id),
                );
                let data = before + buffer + objects(id);
                assert(data + padding =~= (before + buffer) + (objects(id) + padding));
                data
            },
        }
    }
}

/// What comes before the first thing that is written stays in front.
proof fn written_after(head: Seq<u8>, ops: Seq<Written>)
    ensures
        write_each(head, ops).0 == head + write_each(Seq::empty(), ops).0,
        write_each(head, ops).1 == write_each(Seq::empty(), ops).1,
    decreases ops.len(),
{
    let none = Seq::<u8>::empty();
    if ops.len() == 0 {
        assert(head + none =~= head);
    } else {
        written_after(head, ops.drop_last());
        let (s, b) = write_each(none, ops.drop_last());
        match ops.last() {
            Written::Inline(_) => {},
            Written::External(id, _) => {
                assert(flushed(head + s, b) =~= head + flushed(s, b));
                assert(flushed(head + s, b) + reference_fragment(id) =~= head + (flushed(s, b) + reference_fragment(
                    id,
                )));
            },
        }
    }
}

/// Where the entries of a digest map stand in what they are written as.
pub proof fn entries_read_back(entries: Seq<(Seq<u8>, Seq<u8>)>, size: nat, tail: Seq<u8>)
    requires
        forall|i: int| 0 <= i < entries.len() ==> (#[trigger] entries[i]).0.len() == 32 && entries[i].1.len() == size,
    ensures
        entry_bytes(entries).len() == entries.len() * (32 + size),
        forall|i: int|
            0 <= i < entries.len() ==> #[trigger] entry_at(entry_bytes(entries) + tail, size, i) == entries[i],
    decreases entries.len(),
{
    let each = (32 + size) as int;
    if entries.len() > 0 {
        let front = entries.drop_last();
        let last = entries.last();
        let own = last.0 + last.1;
        assert(entries[entries.len() - 1] == last);
        assert forall|i: int| 0 <= i < front.len() implies (#[trigger] front[i]).0.len() == 32 && front[i].1.len()
            == size by {
            assert(front[i] == entries[i]);
        }
        entries_read_back(front, size, own + tail);
        let all = entry_bytes(entries) + tail;
        assert(all =~= entry_bytes(front) + (own + tail));
        let n = front.len() as int;
        assert((n + 1) * each == n * each + each) by (nonlinear_arith);
        assert forall|i: int| 0 <= i < entries.len() implies #[trigger] entry_at(all, size, i) == entries[i] by {
            if i < n {
                assert(front[i] == entries[i]);
            } else {
                assert(all.subrange(n * each, n * each + 32) =~= last.0);
                assert(all.subrange(n * each + 32, n * each + 32 + size) =~= last.1);
            }
        }
    } else {
        assert(0 * each == 0) by (nonlinear_arith);
    }
}

/// The digest map that a stream starts with is read back, whatever follows it.
pub proof fn header_read_back(entries: Seq<(Seq<u8>, Seq<u8>)>, size: nat, tail: Seq<u8>)
    requires
        entries.len() <= usize::MAX,
        forall|i: int| 0 <= i < entries.len() ==> (#[trigger] entries[i]).0.len() == 32 && entries[i].1.len() == size,
    ensures
        header_at(header(entries) + tail, size) == Ok::<(Seq<(Seq<u8>, Seq<u8>)>, Seq<u8>), Error>((entries, tail)),
{
    let s = header(entries) + tail;
    let body = entry_bytes(entries);
    size_read_back(entries.len());
    entries_read_back(entries, size, tail);
    assert(s.take(8) =~= size_bytes(entries.len()));
    assert(s.skip(8) =~= body + tail);
    assert(entries.len() * (32 + size) == body.len());
    assert(s.skip(8 + body.len() as int) =~= tail);
    let n = le_size(s.take(8)) as nat;
    assert(n == entries.len());
    assert(Seq::new(n, |i: int| entry_at(s.skip(8), size, i)) =~= entries);
}

/// What was written to a split stream is what is read from it: the digest map, all bytes in order,
/// and the references in order.
pub proof fn stream_read_back(
    entries: Seq<(Seq<u8>, Seq<u8>)>,
    ops: Seq<Written>,
    size: nat,
    objects: spec_fn(Seq<u8>) -> Seq<u8>,
)
    requires
        entries.len() <= usize::MAX,
        forall|i: int| 0 <= i < entries.len() ==> (#[trigger] entries[i]).0.len() == 32 && entries[i].1.len() == size,
        writable(ops, size),
    ensures
        header_at(stream_of(entries, ops), size) matches Ok((map, rest)) && map == entries && {
            let (contents, end) = contents_from(Position { rest, inline: 0 }, size);
            &&& end == Ok::<(), Error>(())
            &&& joined(contents, objects) == data_of(ops, objects)
            &&& references(contents) == objects_of(ops)
        },
{
    let none = Seq::<u8>::empty();
    let data = written_holds(ops, size, objects);
    let (sink, buffer) = write_each(none, ops);
    assert(ops.take(ops.len() as int) =~= ops);
    flushed_holds(sink, buffer, size, objects, data, objects_of(ops));
    written_after(header(entries), ops);
    let rest = flushed(sink, buffer);
    assert(stream_of(entries, ops) =~= header(entries) + rest);
    header_read_back(entries, size, rest);
}

/// Joining the content of a stream, as `SplitStreamReader::cat` does it, gives all of its bytes
/// where every object can be loaded.
pub proof fn cat_gives_content<ObjectID: FsVerityHashValue, F: Fn(&ObjectID) -> Result<Vec<u8>, Error>>(
    contents: Seq<Content>,
    end: Result<(), Error>,
    load_data: F,
    objects: spec_fn(Seq<u8>) -> Seq<u8>,
    out: Seq<u8>,
    result: Result<(), Error>,
)
    requires
        joins_to(contents, end, load_data, out, result),
        forall|id: ObjectID, answer: Result<Vec<u8>, Error>| #[trigger]
            call_ensures(load_data, (&id,), answer) ==> (answer matches Ok(data) && data@ == objects(id.bytes())),
    ensures
        result == end,
        out == joined(contents, objects),
    decreases contents.len(),
{
    if contents.len() > 0 {
        let more = contents.drop_first();
        let first = contents[0];
        let data = match first {
            Content::Inline(data) => data,
            Content::External(id) => objects(id),
        };
        let tail = out.skip(data.len() as int);
        assert(joins_to(more, end, load_data, tail, result));
        cat_gives_content(more, end, load_data, objects, tail, result);
        assert(out =~= data + tail);
        one_content(first, objects);
        joined_concat(seq![first], more, objects);
        assert(seq![first] + more =~= contents);
    }
}

/// Content that was written as an object with padding is read as that object, and the padding is
/// passed over.
pub proof fn padded_object_read_back(id: Seq<u8>, padding: Seq<u8>, more: Seq<u8>, tail: Seq<u8>, actual_size: usize)
    requires
        0 < padding.len(),
        padding.len() + more.len() <= usize::MAX,
        actual_size + padding.len() <= usize::MAX,
    ensures
        content_at(
            Position { rest: reference_fragment(id) + inline_fragment(padding + more) + tail, inline: 0 },
            id.len(),
            actual_size,
            (actual_size + padding.len()) as usize,
        ) == (
            Position { rest: more + tail, inline: more.len() as usize },
            Ok::<Content, Error>(Content::External(id)),
        ),
{
    let all = padding + more;
    let rest = inline_fragment(all) + tail;
    let s = reference_fragment(id) + inline_fragment(all) + tail;
    size_read_back(0);
    size_read_back(all.len());
    assert(s.take(8) =~= size_bytes(0));
    assert(s.skip(8) =~= id + rest);
    assert((id + rest).take(id.len() as int) =~= id);
    assert((id + rest).skip(id.len() as int) =~= rest);
    assert(rest.take(8) =~= size_bytes(all.len()));
    assert(rest.skip(8) =~= all + tail);
    assert((all + tail).skip(padding.len() as int) =~= more + tail);
}

/// The SHA-256 computation of a writer after all of `ops` was written, where `objects` tells the
/// content of each object: see `SplitStreamWriter::write_inline` and
/// `SplitStreamWriter::write_external`.
pub open spec fn check_each(
    check: Option<(Seq<u8>, Seq<u8>)>,
    ops: Seq<Written>,
    objects: spec_fn(Seq<u8>) -> Seq<u8>,
) -> Option<(Seq<u8>, Seq<u8>)>
    decreases ops.len(),
{
    if ops.len() == 0 {
        check
    } else {
        let before = check_each(check, ops.drop_last(), objects);
        match ops.last() {
            Written::Inline(data) => check_more(before, data),
            Written::External(id, padding) => check_more(check_more(before, objects(id)), padding),
        }
    }
}

/// The digest of a stream is checked over all bytes that are read back from it.
pub proof fn check_covers_content(
    check: Option<(Seq<u8>, Seq<u8>)>,
    ops: Seq<Written>,
    objects: spec_fn(Seq<u8>) -> Seq<u8>,
)
    ensures
        check_each(check, ops, objects) == check_more(check, data_of(ops, objects)),
    decreases ops.len(),
{
    if let Some((given, expected)) = check {
        if ops.len() == 0 {
            assert(given + data_of(ops, objects) =~= given);
        } else {
            check_covers_content(check, ops.drop_last(), objects);
            let before = data_of(ops.drop_last(), objects);
            match ops.last() {
                Written::Inline(data) => {
                    assert(given + before + data =~= given + data_of(ops, objects));
                },
                Written::External(id, padding) => {
                    assert(given + before + objects(id) + padding =~= given + data_of(ops, objects));
                },
            }
        }
    } else if ops.len() > 0 {
        check_covers_content(check, ops.drop_last(), objects);
    }
}

/// Two writers are in the same state: they wrote the same, hold the same inline content, and
/// compute the same digest.
pub open spec fn same_state<W: ByteSink, ObjectID: FsVerityHashValue>(
    a: SplitStreamWriter<W, ObjectID>,
    b: SplitStreamWriter<W, ObjectID>,
) -> bool {
    a.written() == b.written() && a.buffered() == b.buffered() && a.check() == b.check()
}

/// Storing `data` gives one answer.
pub open spec fn one_answer<ObjectID: FsVerityHashValue, S: Fn(&[u8]) -> Result<ObjectID, Error>>(
    store: S,
    data: &[u8],
) -> bool {
    forall|a: Result<ObjectID, Error>, b: Result<ObjectID, Error>|
        #![trigger call_ensures(store, (data,), a), call_ensures(store, (data,), b)]
        call_ensures(store, (data,), a) && call_ensures(store, (data,), b) ==> match a {
            Ok(x) => b matches Ok(y) && x.bytes() == y.bytes(),
            Err(e) => b == Err::<ObjectID, Error>(e),
        }
}

/// Storing content first and then writing what came of it, as `SplitStreamWriter::write_stored`
/// does, is the same as `SplitStreamWriter::write_external`: from the same state both come to the
/// same result and the same state. They succeed where the content is stored.
pub proof fn stored_before_is_external<
    W: ByteSink,
    ObjectID: FsVerityHashValue,
    S: Fn(&[u8]) -> Result<ObjectID, Error>,
>(
    w1: SplitStreamWriter<W, ObjectID>,
    w2: SplitStreamWriter<W, ObjectID>,
    data: &[u8],
    padding: Seq<u8>,
    store: S,
    stored: Result<ObjectID, Error>,
    after1: SplitStreamWriter<W, ObjectID>,
    r1: Result<(), Error>,
    after2: SplitStreamWriter<W, ObjectID>,
    r2: Result<(), Error>,
)
    requires
        same_state(w1, w2),
        w1.reliable(),
        w2.reliable(),
        one_answer(store, data),
        exists|answer: Result<ObjectID, Error>| #[trigger]
            call_ensures(store, (data,), answer) && w1.writes_external(data@, padding, answer, after1, r1),
        call_ensures(store, (data,), stored),
        w2.writes_external(data@, padding, stored, after2, r2),
    ensures
        same_state(after1, after2),
        r1 == r2,
        stored is Ok <==> r1 is Ok,
{
    let answer = choose|answer: Result<ObjectID, Error>| #[trigger]
        call_ensures(store, (data,), answer) && w1.writes_external(data@, padding, answer, after1, r1);
    if let (Ok(a), Ok(b)) = (r1, r2) {
        assert(a == b);
    }
}

/// `op` brought a writer from `w` to `after`: see `SplitStreamWriter::write_inline` and
/// `SplitStreamWriter::write_external`. `objects` tells the content of each object.
pub open spec fn writes<W: ByteSink, ObjectID: FsVerityHashValue>(
    w: SplitStreamWriter<W, ObjectID>,
    op: Written,
    objects: spec_fn(Seq<u8>) -> Seq<u8>,
    after: SplitStreamWriter<W, ObjectID>,
) -> bool {
    match op {
        Written::Inline(data) => {
            &&& after.written() == w.written()
            &&& after.buffered() == w.buffered() + data
            &&& after.check() == check_more(w.check(), data)
        },
        Written::External(id, padding) => exists|object: ObjectID|
            #![trigger object.bytes()]
            object.bytes() == id && w.writes_external(
                objects(id),
                padding,
                Ok::<ObjectID, Error>(object),
                after,
                Ok::<(), Error>(()),
            ),
    }
}

/// The states of a writer while `ops` are written, from the state that it starts in.
pub open spec fn writes_all<W: ByteSink, ObjectID: FsVerityHashValue>(
    states: Seq<SplitStreamWriter<W, ObjectID>>,
    ops: Seq<Written>,
    objects: spec_fn(Seq<u8>) -> Seq<u8>,
) -> bool {
    &&& states.len() == ops.len() + 1
    &&& states[0].buffered() == Seq::<u8>::empty()
    &&& forall|i: int| 0 <= i < ops.len() ==> writes(states[i], #[trigger] ops[i], objects, states[i + 1])
}

/// What a writer holds after some of `ops`.
pub proof fn written_so_far<W: ByteSink, ObjectID: FsVerityHashValue>(
    states: Seq<SplitStreamWriter<W, ObjectID>>,
    ops: Seq<Written>,
    objects: spec_fn(Seq<u8>) -> Seq<u8>,
    i: int,
)
    requires
        writes_all(states, ops, objects),
        0 <= i <= ops.len(),
    ensures
        (states[i].written(), states[i].buffered()) == write_each(states[0].written(), ops.take(i)),
        states[i].check() == check_each(states[0].check(), ops.take(i), objects),
    decreases i,
{
    if i > 0 {
        written_so_far(states, ops, objects, i - 1);
        assert(ops.take(i).drop_last() =~= ops.take(i - 1));
        assert(ops.take(i).last() == ops[i - 1]);
        assert(writes(states[i - 1], ops[i - 1], objects, states[i]));
    } else {
        assert(ops.take(0) =~= seq![]);
    }
}

/// A stream that was written, ended and compressed is opened and joined again: see
/// `SplitStreamWriter::new`, `SplitStreamWriter::done`, `SplitStreamReader::new` and
/// `SplitStreamReader::cat`. Opening it gives the digest map that it was started with. Joining it
/// succeeds and gives all bytes in the order in which they were written, which are the bytes that
/// the writer computed the digest of.
pub proof fn compressed_stream_read_back<ObjectID: FsVerityHashValue, F: Fn(&ObjectID) -> Result<Vec<u8>, Error>>(
    refs: Option<DigestMap<ObjectID>>,
    expected: Option<Sha256Digest>,
    states: Seq<SplitStreamWriter<ZstdEncoder, ObjectID>>,
    ops: Seq<Written>,
    objects: spec_fn(Seq<u8>) -> Seq<u8>,
    z: Seq<u8>,
    load_data: F,
)
    requires
        refs_of(refs).len() <= usize::MAX,
        writable(ops, ObjectID::size()),
        writes_all(states, ops, objects),
        states[0].written() == header(refs_of(refs)),
        states[0].check() == check_start(expected),
        decompressed(z) == Some(flushed(states.last().written(), states.last().buffered())),
        forall|id: ObjectID, answer: Result<Vec<u8>, Error>| #[trigger]
            call_ensures(load_data, (&id,), answer) ==> (answer matches Ok(data) && data@ == objects(id.bytes())),
    ensures
        states.last().check() == check_more(check_start(expected), data_of(ops, objects)),
        decompressed(z) matches Some(stream) && header_at(stream, ObjectID::size()) matches Ok((entries, rest))
            && entries == refs_of(refs) && {
            let (contents, end) = contents_from(Position { rest, inline: 0 }, ObjectID::size());
            &&& references(contents) == objects_of(ops)
            &&& forall|out: Seq<u8>, r: Result<(), Error>| #[trigger]
                joins_to(contents, end, load_data, out, r) ==> r is Ok && out == data_of(ops, objects)
        },
{
    let size = ObjectID::size();
    let entries = refs_of(refs);
    written_so_far(states, ops, objects, ops.len() as int);
    assert(ops.take(ops.len() as int) =~= ops);
    check_covers_content(check_start(expected), ops, objects);
    assert forall|i: int| 0 <= i < entries.len() implies (#[trigger] entries[i]).0.len() == 32 && entries[i].1.len()
        == size by {
        refs->Some_0.map@[i].verity.bytes_size();
    }
    stream_read_back(entries, ops, size, objects);
    let stream = stream_of(entries, ops);
    let (_, rest) = header_at(stream, size)->Ok_0;
    let (contents, end) = contents_from(Position { rest, inline: 0 }, size);
    assert forall|out: Seq<u8>, r: Result<(), Error>| #[trigger]
        joins_to(contents, end, load_data, out, r) implies r is Ok && out == data_of(ops, objects) by {
        cat_gives_content(contents, end, load_data, objects, out, r);
    }
}

} // verus!
