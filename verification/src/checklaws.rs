//! What a writer of a split stream puts out, and what the digest of the content is held against.

use vstd::prelude::*;
use vstd::bytes::{lemma_auto_spec_u64_to_from_le_bytes, spec_u64_to_le_bytes};
use crate::compress::{decompressed, ZstdEncoder};
use crate::error::Error;
use crate::fsverity::FsVerityHashValue;
use crate::hash::{absorbed, sha256, Sha256Digest};
use crate::io::ByteSink;
use crate::splitstream::{entry_at, entry_bytes, header, size_bytes, DigestMap, SplitStreamWriter};
use crate::streamlaws::{
    check_covers_content, data_of, entries_read_back, writes, writes_all, written_so_far, Written,
};

verus! {

/// Bytes with their number before them, as eight bytes with the lowest first; nothing where there
/// are none.
pub open spec fn with_length(data: Seq<u8>) -> Seq<u8> {
    if data.len() == 0 {
        seq![]
    } else {
        spec_u64_to_le_bytes(data.len() as u64) + data
    }
}

/// A new writer computes a digest where one is expected, has taken in nothing, and has written the
/// number of map entries and nothing else where there are none.
pub proof fn new_writer<ObjectID: FsVerityHashValue>(
    refs: Option<DigestMap<ObjectID>>,
    sha256: Option<Sha256Digest>,
    w: SplitStreamWriter<ZstdEncoder, ObjectID>,
)
    requires
        call_ensures(SplitStreamWriter::<ZstdEncoder, ObjectID>::new, (refs, sha256), w),
    ensures
        w.inline_content@.len() == 0,
        match sha256 {
            Some(expected) => w.sha256 matches Some((hasher, digest)) && digest@ == expected@ && absorbed(hasher).len()
                == 0,
            None => w.sha256 is None,
        },
        refs is None ==> w.writer.written() == spec_u64_to_le_bytes(0),
        refs matches Some(map) ==> w.writer.written().len() == 8 + map.map@.len() * (32 + ObjectID::size()),
        refs matches Some(map) ==> w.writer.written().take(8) == spec_u64_to_le_bytes(map.map@.len() as u64),
        refs matches Some(map) ==> forall|i: int|
            0 <= i < map.map@.len() ==> {
                let start = 8 + i * (32 + ObjectID::size());
                &&& w.writer.written().subrange(start, start + 32) == (#[trigger] map.map@[i]).body@
                &&& w.writer.written().subrange(start + 32, start + 32 + ObjectID::size()) == map.map@[i].verity.bytes()
            },
{
    if let Some(map) = refs {
        let entries = map.entries();
        assert forall|i: int| 0 <= i < entries.len() implies (#[trigger] entries[i]).0.len() == 32 && entries[i].1.len()
            == ObjectID::size() by {
            map.map@[i].verity.bytes_size();
        }
        header_layout(entries, ObjectID::size());
        assert forall|i: int| 0 <= i < map.map@.len() implies {
            let start = 8 + i * (32 + ObjectID::size());
            &&& w.writer.written().subrange(start, start + 32) == (#[trigger] map.map@[i]).body@
            &&& w.writer.written().subrange(start + 32, start + 32 + ObjectID::size()) == map.map@[i].verity.bytes()
        } by {
            assert(entries[i] == (map.map@[i].body@, map.map@[i].verity.bytes()));
        }
    }
}

/// Inline content goes to the buffer and to the digest, all of it and nothing else.
pub proof fn inline_is_taken_in<W: ByteSink, ObjectID: FsVerityHashValue>(
    w: &mut SplitStreamWriter<W, ObjectID>,
    data: &[u8],
)
    requires
        call_ensures(SplitStreamWriter::<W, ObjectID>::write_inline, (w, data), ()),
    ensures
        final(w).inline_content@ == old(w).inline_content@ + data@,
        final(w).writer.written() == old(w).writer.written(),
        match old(w).sha256 {
            Some((before, expected)) => final(w).sha256 matches Some((after, same)) && same@ == expected@
                && absorbed(after) == absorbed(before) + data@,
            None => final(w).sha256 is None,
        },
{
}

/// Content that was stored goes to the digest, with its padding. What was buffered is written with
/// its length, then a length of zero and the identifier, and the padding is buffered. Where it could
/// not be stored nothing is written.
pub proof fn stored_is_referred_to<W: ByteSink, ObjectID: FsVerityHashValue>(
    w: &mut SplitStreamWriter<W, ObjectID>,
    data: &[u8],
    padding: Vec<u8>,
    stored: Result<ObjectID, Error>,
    r: Result<(), Error>,
)
    requires
        old(w).writer.reliable(),
        call_ensures(SplitStreamWriter::<W, ObjectID>::write_stored, (w, data, padding, stored), r),
    ensures
        match old(w).sha256 {
            Some((before, expected)) => final(w).sha256 matches Some((after, same)) && same@ == expected@
                && absorbed(after) == absorbed(before) + data@ + padding@,
            None => final(w).sha256 is None,
        },
        match stored {
            Ok(id) => {
                &&& r is Ok
                &&& final(w).inline_content@ == padding@
                &&& final(w).writer.written() == old(w).writer.written() + with_length(old(w).inline_content@)
                    + spec_u64_to_le_bytes(0) + id.bytes()
            },
            Err(e) => {
                &&& r == Err::<(), Error>(e)
                &&& final(w).inline_content@ == old(w).inline_content@
                &&& final(w).writer.written() == old(w).writer.written()
            },
        },
{
    let before = old(w).writer.written();
    let buffer = old(w).inline_content@;
    if let Ok(id) = stored {
        assert(before + with_length(buffer) + spec_u64_to_le_bytes(0) + id.bytes() =~= before + with_length(buffer) + (
        spec_u64_to_le_bytes(0) + id.bytes()));
        assert(buffer.len() == 0 ==> before + with_length(buffer) =~= before);
    }
}

/// Content that is stored while it is written is stored as it is, and then written as content that
/// was stored before.
pub proof fn external_is_stored<
    W: ByteSink,
    ObjectID: FsVerityHashValue,
    S: Fn(&[u8]) -> Result<ObjectID, Error>,
>(
    w: &mut SplitStreamWriter<W, ObjectID>,
    data: &[u8],
    padding: Vec<u8>,
    store: S,
    r: Result<(), Error>,
)
    requires
        old(w).writer.reliable(),
        call_ensures(SplitStreamWriter::<W, ObjectID>::write_external::<S>, (w, data, padding, store), r),
    ensures
        exists|stored: Result<ObjectID, Error>| #[trigger]
            call_ensures(store, (data,), stored) && match stored {
                Ok(id) => {
                    &&& r is Ok
                    &&& final(w).inline_content@ == padding@
                    &&& final(w).writer.written() == old(w).writer.written() + with_length(old(w).inline_content@) + (
                    spec_u64_to_le_bytes(0) + id.bytes())
                },
                Err(e) => {
                    &&& r == Err::<(), Error>(e)
                    &&& final(w).inline_content@ == old(w).inline_content@
                    &&& final(w).writer.written() == old(w).writer.written()
                },
            },
        match old(w).sha256 {
            Some((before, expected)) => final(w).sha256 matches Some((after, same)) && same@ == expected@
                && absorbed(after) == absorbed(before) + data@ + padding@,
            None => final(w).sha256 is None,
        },
{
    let before = old(w).writer.written();
    let buffer = old(w).inline_content@;
    assert(buffer.len() == 0 ==> before + with_length(buffer) =~= before);
}

/// Ending a stream succeeds only where the content has the expected digest, in full, and always
/// where none is expected. What was buffered is written with its length.
pub proof fn ended_with_expected_digest<W: ByteSink, ObjectID: FsVerityHashValue>(
    w: SplitStreamWriter<W, ObjectID>,
    r: Result<W, Error>,
)
    requires
        w.writer.reliable(),
        call_ensures(SplitStreamWriter::<W, ObjectID>::into_writer, (w,), r),
    ensures
        match w.sha256 {
            Some((hasher, expected)) => r is Ok <==> sha256(absorbed(hasher)) == expected@,
            None => r is Ok,
        },
        match r {
            Ok(sink) => sink.written() == w.writer.written() + with_length(w.inline_content@),
            Err(e) => e == Error::ContentMismatch,
        },
{
    assert(w.inline_content@.len() == 0 ==> w.writer.written() + with_length(w.inline_content@)
        =~= w.writer.written());
}

/// The same of a compressed stream, which decompresses to all that was written.
pub proof fn compressed_with_expected_digest<ObjectID: FsVerityHashValue>(
    w: SplitStreamWriter<ZstdEncoder, ObjectID>,
    r: Result<Vec<u8>, Error>,
)
    requires
        call_ensures(SplitStreamWriter::<ZstdEncoder, ObjectID>::into_compressed, (w,), r),
    ensures
        match w.sha256 {
            Some((hasher, expected)) => r is Ok <==> sha256(absorbed(hasher)) == expected@,
            None => r is Ok,
        },
        match r {
            Ok(z) => decompressed(z@) == Some(w.writer.written() + with_length(w.inline_content@)),
            Err(e) => e == Error::ContentMismatch,
        },
{
    assert(w.inline_content@.len() == 0 ==> w.writer.written() + with_length(w.inline_content@)
        =~= w.writer.written());
}

/// A stream is stored only where the content has the expected digest, in full: all of it is handed
/// to the store, and what comes of that is the result.
pub proof fn stored_with_expected_digest<ObjectID: FsVerityHashValue, S: Fn(&[u8]) -> Result<ObjectID, Error>>(
    w: SplitStreamWriter<ZstdEncoder, ObjectID>,
    store: S,
    r: Result<ObjectID, Error>,
)
    requires
        call_ensures(SplitStreamWriter::<ZstdEncoder, ObjectID>::done::<S>, (w, store), r),
    ensures
        (w.sha256 matches Some((hasher, expected)) && sha256(absorbed(hasher)) != expected@) ==> r == Err::<
            ObjectID,
            Error,
        >(Error::ContentMismatch),
        (w.sha256 matches Some((hasher, expected)) ==> sha256(absorbed(hasher)) == expected@) ==> exists|z: &[u8]|
            #[trigger] call_ensures(store, (z,), r) && decompressed(z@) == Some(
                w.writer.written() + with_length(w.inline_content@),
            ),
{
    assert(w.inline_content@.len() == 0 ==> w.writer.written() + with_length(w.inline_content@)
        =~= w.writer.written());
}

/// `SplitStreamWriter::write_inline` is a write of inline content.
pub proof fn inline_is_written<W: ByteSink, ObjectID: FsVerityHashValue>(
    w: &mut SplitStreamWriter<W, ObjectID>,
    data: &[u8],
    objects: spec_fn(Seq<u8>) -> Seq<u8>,
)
    requires
        call_ensures(SplitStreamWriter::<W, ObjectID>::write_inline, (w, data), ()),
    ensures
        writes(*old(w), Written::Inline(data@), objects, *final(w)),
{
}

/// `SplitStreamWriter::write_external` is, where it succeeds, a write of the object that the content
/// was stored as.
pub proof fn external_is_written<
    W: ByteSink,
    ObjectID: FsVerityHashValue,
    S: Fn(&[u8]) -> Result<ObjectID, Error>,
>(
    w: &mut SplitStreamWriter<W, ObjectID>,
    data: &[u8],
    padding: Vec<u8>,
    store: S,
    objects: spec_fn(Seq<u8>) -> Seq<u8>,
)
    requires
        forall|id: ObjectID| #[trigger]
            call_ensures(store, (data,), Ok::<ObjectID, Error>(id)) ==> objects(id.bytes()) == data@,
        call_ensures(
            SplitStreamWriter::<W, ObjectID>::write_external::<S>,
            (w, data, padding, store),
            Ok::<(), Error>(()),
        ),
    ensures
        exists|id: Seq<u8>| #[trigger] writes(*old(w), Written::External(id, padding@), objects, *final(w)),
{
    let stored = choose|stored: Result<ObjectID, Error>| #[trigger]
        call_ensures(store, (data,), stored) && old(w).writes_external(
            data@,
            padding@,
            stored,
            *final(w),
            Ok::<(), Error>(()),
        );
    let id = stored->Ok_0;
    assert(call_ensures(store, (data,), Ok::<ObjectID, Error>(id)));
    assert(writes(*old(w), Written::External(id.bytes(), padding@), objects, *final(w)));
}

/// The digest that a stream is held against is that of all bytes that were written to it, in the
/// order in which they were written: padding and the content of objects too, of any number and any
/// length.
pub proof fn digest_is_of_all_content<W: ByteSink, ObjectID: FsVerityHashValue>(
    states: Seq<SplitStreamWriter<W, ObjectID>>,
    ops: Seq<Written>,
    objects: spec_fn(Seq<u8>) -> Seq<u8>,
    r: Result<W, Error>,
)
    requires
        writes_all(states, ops, objects),
        states[0].sha256 matches Some((hasher, _)) ==> absorbed(hasher).len() == 0,
        states.last().writer.reliable(),
        call_ensures(SplitStreamWriter::<W, ObjectID>::into_writer, (states.last(),), r),
    ensures
        match states[0].sha256 {
            Some((_, expected)) => r is Ok <==> sha256(data_of(ops, objects)) == expected@,
            None => r is Ok,
        },
        r matches Err(e) ==> e == Error::ContentMismatch,
{
    written_so_far(states, ops, objects, ops.len() as int);
    assert(ops.take(ops.len() as int) =~= ops);
    check_covers_content(states[0].check(), ops, objects);
    if let Some((hasher, _)) = states[0].sha256 {
        assert(absorbed(hasher) + data_of(ops, objects) =~= data_of(ops, objects));
    }
}

/// The same of a stream that is compressed.
pub proof fn compressed_digest_is_of_all_content<ObjectID: FsVerityHashValue>(
    refs: Option<DigestMap<ObjectID>>,
    expected: Option<Sha256Digest>,
    states: Seq<SplitStreamWriter<ZstdEncoder, ObjectID>>,
    ops: Seq<Written>,
    objects: spec_fn(Seq<u8>) -> Seq<u8>,
    r: Result<Vec<u8>, Error>,
)
    requires
        call_ensures(SplitStreamWriter::<ZstdEncoder, ObjectID>::new, (refs, expected), states[0]),
        writes_all(states, ops, objects),
        call_ensures(SplitStreamWriter::<ZstdEncoder, ObjectID>::into_compressed, (states.last(),), r),
    ensures
        match expected {
            Some(digest) => r is Ok <==> sha256(data_of(ops, objects)) == digest@,
            None => r is Ok,
        },
{
    written_so_far(states, ops, objects, ops.len() as int);
    assert(ops.take(ops.len() as int) =~= ops);
    check_covers_content(states[0].check(), ops, objects);
    assert(Seq::<u8>::empty() + data_of(ops, objects) =~= data_of(ops, objects));
}

/// Where the entries of a digest map stand in what a stream starts with.
proof fn header_layout(entries: Seq<(Seq<u8>, Seq<u8>)>, size: nat)
    requires
        forall|i: int| 0 <= i < entries.len() ==> (#[trigger] entries[i]).0.len() == 32 && entries[i].1.len() == size,
    ensures
        header(entries).len() == 8 + entries.len() * (32 + size),
        header(entries).take(8) == spec_u64_to_le_bytes(entries.len() as u64),
        forall|i: int|
            0 <= i < entries.len() ==> {
                let start = 8 + i * (32 + size);
                &&& header(entries).subrange(start, start + 32) == (#[trigger] entries[i]).0
                &&& header(entries).subrange(start + 32, start + 32 + size) == entries[i].1
            },
{
    lemma_auto_spec_u64_to_from_le_bytes();
    let head = size_bytes(entries.len());
    let body = entry_bytes(entries);
    let none = Seq::<u8>::empty();
    assert(head.len() == 8);
    entries_read_back(entries, size, none);
    assert(body + none =~= body);
    assert(header(entries) =~= head + body);
    assert(header(entries).take(8) =~= head);
    assert forall|i: int| 0 <= i < entries.len() implies {
        let start = 8 + i * (32 + size);
        &&& header(entries).subrange(start, start + 32) == (#[trigger] entries[i]).0
        &&& header(entries).subrange(start + 32, start + 32 + size) == entries[i].1
    } by {
        let at = i * (32 + size);
        assert(0 <= at && at + 32 + size <= entries.len() * (32 + size)) by (nonlinear_arith)
            requires
                0 <= i < entries.len(),
                at == i * (32 + size),
        ;
        assert(entry_at(body, size, i) == entries[i]);
        assert(header(entries).subrange(8 + at, 8 + at + 32) =~= body.subrange(at, at + 32));
        assert(header(entries).subrange(8 + at + 32, 8 + at + 32 + size) =~= body.subrange(at + 32, at + 32 + size));
    }
}

/// A writer on a sink adds the number of map entries, and the entries, to what the sink holds.
pub proof fn writer_on_sink<W: ByteSink, ObjectID: FsVerityHashValue>(
    sink: W,
    refs: Option<DigestMap<ObjectID>>,
    sha256: Option<Sha256Digest>,
    r: Result<SplitStreamWriter<W, ObjectID>, Error>,
)
    requires
        sink.reliable(),
        call_ensures(SplitStreamWriter::<W, ObjectID>::with_writer, (sink, refs, sha256), r),
    ensures
        r matches Ok(w) && {
            &&& w.inline_content@.len() == 0
            &&& w.writer.written() == sink.written() + match refs {
                Some(map) => header(map.entries()),
                None => spec_u64_to_le_bytes(0),
            }
            &&& match sha256 {
                Some(expected) => w.sha256 matches Some((hasher, digest)) && digest@ == expected@
                    && absorbed(hasher).len() == 0,
                None => w.sha256 is None,
            }
        },
{
    assert(header(Seq::empty()) =~= spec_u64_to_le_bytes(0));
}

} // verus!
