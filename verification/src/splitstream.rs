//! The Split Stream format.
//!
//! A stream starts with its digest map: the number of entries, and for each of them a content hash
//! and an object identifier. Then come fragments: a size and as many bytes of inline content, or a
//! size of zero and the identifier of an object whose content stands there. Sizes have eight
//! bytes, the lowest first. The whole is compressed with zstd.

use vstd::prelude::*;
use vstd::bytes::{spec_u64_to_le_bytes, u64_from_le_bytes, u64_to_le_bytes};
use crate::bytemap::{in_order, value_at};
use crate::bytestr::{append, same_bytes};
use crate::compress::{decompressed, ZstdDecoder, ZstdEncoder};
use crate::error::Error;
use crate::fsverity::FsVerityHashValue;
use crate::hash::{absorbed, sha256, sha256_finalize, sha256_new, sha256_update, Sha256Digest};
use crate::io::{le_size, read_exact, read_in_steps, read_u64_le, ByteSink, ByteSource};
pub use crate::digestmap::{DigestMap, DigestMapEntry};

verus! {

/// A size as it is written.
pub open spec fn size_bytes(n: nat) -> Seq<u8> {
    spec_u64_to_le_bytes(n as u64)
}

/// A fragment of inline content.
pub open spec fn inline_fragment(data: Seq<u8>) -> Seq<u8> {
    size_bytes(data.len()) + data
}

/// A reference to an object.
pub open spec fn reference_fragment(id: Seq<u8>) -> Seq<u8> {
    size_bytes(0) + id
}

/// The entries of a digest map as they are written.
pub open spec fn entry_bytes(entries: Seq<(Seq<u8>, Seq<u8>)>) -> Seq<u8>
    decreases entries.len(),
{
    if entries.len() == 0 {
        seq![]
    } else {
        entry_bytes(entries.drop_last()) + (entries.last().0 + entries.last().1)
    }
}

/// What a stream starts with.
pub open spec fn header(entries: Seq<(Seq<u8>, Seq<u8>)>) -> Seq<u8> {
    size_bytes(entries.len()) + entry_bytes(entries)
}

/// `written`, and after it the buffered inline content as a fragment, if there is any.
pub open spec fn flushed(written: Seq<u8>, inline: Seq<u8>) -> Seq<u8> {
    if inline.len() == 0 {
        written
    } else {
        written + inline_fragment(inline)
    }
}

/// A SHA-256 computation, as the bytes it was given and the digest that it should come to.
pub open spec fn check_of(sha256: Option<(sha2::Sha256, Sha256Digest)>) -> Option<(Seq<u8>, Seq<u8>)> {
    match sha256 {
        Some((hasher, expected)) => Some((absorbed(hasher), expected@)),
        None => None,
    }
}

/// The computation after it was given `data` too.
pub open spec fn check_more(check: Option<(Seq<u8>, Seq<u8>)>, data: Seq<u8>) -> Option<(Seq<u8>, Seq<u8>)> {
    match check {
        Some((given, expected)) => Some((given + data, expected)),
        None => None,
    }
}

/// The content is what it should be, as far as that is known.
pub open spec fn check_passes(check: Option<(Seq<u8>, Seq<u8>)>) -> bool {
    check matches Some((given, expected)) ==> sha256(given) == expected
}

/// Writes a split stream: inline content, and references to objects.
pub struct SplitStreamWriter<W: ByteSink, ObjectID: FsVerityHashValue> {
    /// Inline content that was not written to the sink yet.
    pub inline_content: Vec<u8>,
    /// The sink.
    pub writer: W,
    /// The kind of identifiers that are referred to.
    pub object: core::marker::PhantomData<ObjectID>,
    /// A SHA-256 computation over the content, and the digest it should come to.
    pub sha256: Option<(sha2::Sha256, Sha256Digest)>,
}

impl<ObjectID: FsVerityHashValue> SplitStreamWriter<ZstdEncoder, ObjectID> {
    /// Starts a compressed stream, with the given digest map, whose content should have the given
    /// SHA-256 digest.
    pub fn new(refs: Option<DigestMap<ObjectID>>, sha256: Option<Sha256Digest>) -> (r: Self)
        ensures
            r.reliable(),
            r.written() == header(refs_of(refs)),
            r.buffered() == Seq::<u8>::empty(),
            r.check() == check_start(sha256),
    {
        let writer: ZstdEncoder = ZstdEncoder::new();
        assert(writer.written() + header(refs_of(refs)) =~= header(refs_of(refs)));
        Self::with_writer(writer, refs, sha256).unwrap()
    }

    /// Ends the stream, and gives its compressed bytes, which are to be stored as an object.
    pub fn into_compressed(self) -> (r: Result<Vec<u8>, Error>)
        ensures
            match r {
                Ok(z) => check_passes(self.check()) && decompressed(z@) == Some(
                    flushed(self.written(), self.buffered()),
                ),
                Err(e) => e == Error::ContentMismatch && !check_passes(self.check()),
            },
    {
        match self.into_writer() {
            Ok(writer) => Ok(writer.finish()),
            Err(e) => Err(e),
        }
    }

    /// Ends the stream, and gives the identifier of the object that it is stored as.
    ///
    /// Flushes any remaining inline content, and makes sure of the SHA-256 digest where one was
    /// given. `store` stores the compressed stream, and what comes of that is handed on.
    pub fn done<S: Fn(&[u8]) -> Result<ObjectID, Error>>(self, store: S) -> (r: Result<ObjectID, Error>)
        requires
            forall|data: &[u8]| call_requires(store, (data,)),
        ensures
            if check_passes(self.check()) {
                exists|z: Seq<u8>| #[trigger]
                    stored_as(store, z, r) && decompressed(z) == Some(flushed(self.written(), self.buffered()))
            } else {
                r == Err::<ObjectID, Error>(Error::ContentMismatch)
            },
    {
        match self.into_compressed() {
            Ok(z) => {
                let r: Result<ObjectID, Error> = store(z.as_slice());
                assert(stored_as(store, z@, r));
                r
            },
            Err(e) => Err(e),
        }
    }
}

/// Storing `data` can come to `stored`.
pub open spec fn stored_as<ObjectID: FsVerityHashValue, S: Fn(&[u8]) -> Result<ObjectID, Error>>(
    store: S,
    data: Seq<u8>,
    stored: Result<ObjectID, Error>,
) -> bool {
    exists|bytes: &[u8]| #[trigger] call_ensures(store, (bytes,), stored) && bytes@ == data
}

/// The entries of a digest map that may be left out.
pub open spec fn refs_of<ObjectID: FsVerityHashValue>(refs: Option<DigestMap<ObjectID>>) -> Seq<(Seq<u8>, Seq<u8>)> {
    match refs {
        Some(map) => map.entries(),
        None => seq![],
    }
}

/// A SHA-256 computation that was given nothing.
pub open spec fn check_start(expected: Option<Sha256Digest>) -> Option<(Seq<u8>, Seq<u8>)> {
    match expected {
        Some(d) => Some((Seq::<u8>::empty(), d@)),
        None => None,
    }
}

impl<W: ByteSink, ObjectID: FsVerityHashValue> SplitStreamWriter<W, ObjectID> {
    /// What was written to the sink.
    pub open spec fn written(&self) -> Seq<u8> {
        self.writer.written()
    }

    /// Inline content that was not written to the sink yet.
    pub open spec fn buffered(&self) -> Seq<u8> {
        self.inline_content@
    }

    /// The sink does not fail.
    pub open spec fn reliable(&self) -> bool {
        self.writer.reliable()
    }

    /// The SHA-256 computation over the content.
    pub open spec fn check(&self) -> Option<(Seq<u8>, Seq<u8>)> {
        check_of(self.sha256)
    }

    /// Starts a stream on a sink.
    pub fn with_writer(writer: W, refs: Option<DigestMap<ObjectID>>, sha256: Option<Sha256Digest>) -> (r: Result<
        Self,
        Error,
    >)
        ensures
            match r {
                Ok(w) => {
                    &&& w.written() == writer.written() + header(refs_of(refs))
                    &&& w.buffered() == Seq::<u8>::empty()
                    &&& w.check() == check_start(sha256)
                },
                Err(e) => e == Error::Io,
            },
            writer.reliable() ==> (r matches Ok(w) && w.reliable()),
    {
        let mut writer = writer;
        let ghost before = writer.written();
        let ghost entries = refs_of(refs);
        let mut head: Vec<u8>;
        match refs {
            Some(map) => {
                head = u64_to_le_bytes(map.map.len() as u64);
                let mut i: usize = 0;
                let ghost start = head@;
                assert(head@ =~= start + entry_bytes(entries.take(0)));
                while i < map.map.len()
                    invariant
                        i <= map.map@.len(),
                        entries == map.entries(),
                        head@ == start + entry_bytes(entries.take(i as int)),
                    decreases map.map@.len() - i,
                {
                    let ghost prev = head@;
                    append(&mut head, map.map[i].body.as_slice());
                    append(&mut head, map.map[i].verity.as_bytes());
                    proof {
                        let p = entries.take(i + 1);
                        assert(p.drop_last() =~= entries.take(i as int));
                        assert(p.last() == entries[i as int]);
                        assert(head@ =~= start + entry_bytes(p));
                    }
                    i = i + 1;
                }
                assert(entries.take(i as int) =~= entries);
            },
            None => {
                head = u64_to_le_bytes(0);
                assert(head@ =~= header(entries));
            },
        }
        match writer.write_all(head.as_slice()) {
            Ok(_) => {},
            Err(e) => {
                return Err(e);
            },
        }
        Ok(
            SplitStreamWriter {
                inline_content: Vec::new(),
                writer,
                object: core::marker::PhantomData,
                sha256: match sha256 {
                    Some(expected) => Some((sha256_new(), expected)),
                    None => None,
                },
            },
        )
    }

    /// Writes a fragment: the size and the bytes.
    fn write_fragment(writer: &mut W, size: usize, data: &[u8]) -> (r: Result<(), Error>)
        ensures
            match r {
                Ok(_) => final(writer).written() == old(writer).written() + size_bytes(size as nat) + data@,
                Err(e) => e == Error::Io,
            },
            old(writer).reliable() ==> r is Ok && final(writer).reliable(),
    {
        match writer.write_all(u64_to_le_bytes(size as u64).as_slice()) {
            Ok(_) => writer.write_all(data),
            Err(e) => Err(e),
        }
    }

    /// Flushes any buffered inline content, taking `new_value` as the new value of the buffer.
    fn flush_inline(&mut self, new_value: Vec<u8>) -> (r: Result<(), Error>)
        ensures
            final(self).check() == old(self).check(),
            match r {
                Ok(_) => {
                    &&& final(self).written() == flushed(old(self).written(), old(self).buffered())
                    &&& final(self).buffered() == new_value@
                },
                Err(e) => e == Error::Io,
            },
            old(self).reliable() ==> r is Ok && final(self).reliable(),
    {
        if self.inline_content.len() != 0 {
            let ghost w = self.writer.written();
            match Self::write_fragment(&mut self.writer, self.inline_content.len(), self.inline_content.as_slice()) {
                Ok(_) => {},
                Err(e) => {
                    return Err(e);
                },
            }
            assert(self.writer.written() =~= w + inline_fragment(self.inline_content@));
        }
        self.inline_content = new_value;
        Ok(())
    }

    /// Adds inline content to the buffer.
    pub fn write_inline(&mut self, data: &[u8])
        ensures
            final(self).written() == old(self).written(),
            final(self).buffered() == old(self).buffered() + data@,
            final(self).check() == check_more(old(self).check(), data@),
            final(self).reliable() == old(self).reliable(),
    {
        self.absorb(data);
        append(&mut self.inline_content, data);
    }

    /// Gives the SHA-256 computation, if there is one, more of the content.
    fn absorb(&mut self, data: &[u8])
        ensures
            final(self).written() == old(self).written(),
            final(self).buffered() == old(self).buffered(),
            final(self).check() == check_more(old(self).check(), data@),
            final(self).reliable() == old(self).reliable(),
    {
        match &mut self.sha256 {
            Some(pair) => {
                sha256_update(&mut pair.0, data);
            },
            None => {},
        }
    }

    /// Writes a reference to an object. Padding that follows the object in the stream, and is not
    /// stored in it, becomes the start of new inline content.
    fn write_reference(&mut self, reference: &ObjectID, padding: Vec<u8>) -> (r: Result<(), Error>)
        ensures
            final(self).check() == old(self).check(),
            match r {
                Ok(_) => {
                    &&& final(self).written() == flushed(old(self).written(), old(self).buffered())
                        + reference_fragment(reference.bytes())
                    &&& final(self).buffered() == padding@
                },
                Err(e) => e == Error::Io,
            },
            old(self).reliable() ==> r is Ok && final(self).reliable(),
    {
        match self.flush_inline(padding) {
            Ok(_) => {},
            Err(e) => {
                return Err(e);
            },
        }
        let ghost w = self.writer.written();
        let r = Self::write_fragment(&mut self.writer, 0, reference.as_bytes());
        assert(w + size_bytes(0) + reference.bytes() =~= w + reference_fragment(reference.bytes()));
        r
    }

    /// Writes content as a reference to an object, with padding after it.
    ///
    /// `store` stores the object. The padding is stored inline after the reference.
    pub fn write_external<S: Fn(&[u8]) -> Result<ObjectID, Error>>(
        &mut self,
        data: &[u8],
        padding: Vec<u8>,
        store: S,
    ) -> (r: Result<(), Error>)
        requires
            call_requires(store, (data,)),
        ensures
            exists|stored: Result<ObjectID, Error>| #[trigger]
                call_ensures(store, (data,), stored) && old(self).writes_external(
                    data@,
                    padding@,
                    stored,
                    *final(self),
                    r,
                ),
    {
        let stored: Result<ObjectID, Error> = store(data);
        self.write_stored(data, padding, stored)
    }

    /// What writing content as a reference to an object comes to: `stored` is what came of storing
    /// `data`, the identifier of the object, or an error, which is handed on.
    pub open spec fn writes_external(
        self,
        data: Seq<u8>,
        padding: Seq<u8>,
        stored: Result<ObjectID, Error>,
        after: Self,
        r: Result<(), Error>,
    ) -> bool {
        &&& after.check() == check_more(check_more(self.check(), data), padding)
        &&& match stored {
            Ok(id) => match r {
                Ok(_) => {
                    &&& after.written() == flushed(self.written(), self.buffered()) + reference_fragment(id.bytes())
                    &&& after.buffered() == padding
                },
                Err(e) => e == Error::Io,
            },
            Err(e) => {
                &&& r == Err::<(), Error>(e)
                &&& after.written() == self.written()
                &&& after.buffered() == self.buffered()
            },
        }
        &&& self.reliable() ==> after.reliable() && (r is Ok <==> stored is Ok)
    }

    /// Writes content as a reference to the object that it was stored as, with padding after it.
    /// `stored` is what came of storing `data`: the identifier of the object, or an error, which is
    /// handed on.
    pub fn write_stored(&mut self, data: &[u8], padding: Vec<u8>, stored: Result<ObjectID, Error>) -> (r: Result<
        (),
        Error,
    >)
        ensures
            old(self).writes_external(data@, padding@, stored, *final(self), r),
    {
        self.absorb(data);
        self.absorb(padding.as_slice());
        match stored {
            Ok(id) => self.write_reference(&id, padding),
            Err(e) => Err(e),
        }
    }

    /// Ends the stream, and gives the sink with all of it.
    pub fn into_writer(self) -> (r: Result<W, Error>)
        ensures
            match r {
                Ok(w) => check_passes(self.check()) && w.written() == flushed(self.written(), self.buffered()),
                Err(e) => (e == Error::Io && !self.reliable()) || (e == Error::ContentMismatch && !check_passes(
                    self.check(),
                )),
            },
            self.reliable() ==> match r {
                Ok(w) => w.reliable(),
                Err(e) => e == Error::ContentMismatch,
            },
    {
        let mut this = self;
        match this.flush_inline(Vec::new()) {
            Ok(_) => {},
            Err(e) => {
                return Err(e);
            },
        }
        match this.sha256 {
            Some((context, expected)) => {
                let found: Sha256Digest = sha256_finalize(context);
                if !same_bytes(found.as_slice(), expected.as_slice()) {
                    return Err(Error::ContentMismatch);
                }
            },
            None => {},
        }
        Ok(this.writer)
    }
}

/// What stands at the start of some chunk of a stream.
pub enum Chunk {
    /// The end of the stream.
    Eof,
    /// Inline content.
    Inline,
    /// A reference to an object.
    External(Seq<u8>),
}

/// Where a reader stands: the bytes to come, and how many of the next ones belong to the inline
/// content that it is in.
pub struct Position {
    /// The bytes to come.
    pub rest: Seq<u8>,
    /// How many of them are inline content.
    pub inline: usize,
}

/// What a reader finds, and where it stands then, when it makes sure that it is in a chunk: the
/// end of the stream and a reference are errors unless they are allowed, and so is less inline
/// content than expected. `size` is the number of bytes of an object identifier.
pub open spec fn chunk_at(at: Position, size: nat, eof_ok: bool, ext_ok: bool, expected: usize) -> (
    Position,
    Result<Chunk, Error>,
) {
    let end = Position { rest: Seq::empty(), inline: at.inline };
    if at.inline != 0 {
        (
            at,
            if at.inline < expected {
                Err(Error::SmallInline)
            } else {
                Ok(Chunk::Inline)
            },
        )
    } else if at.rest.len() == 0 && eof_ok {
        (end, Ok(Chunk::Eof))
    } else if at.rest.len() < 8 {
        (end, Err(Error::UnexpectedEof))
    } else {
        let n = le_size(at.rest.take(8));
        let next = Position { rest: at.rest.skip(8), inline: n };
        if n != 0 {
            (
                next,
                if n < expected {
                    Err(Error::SmallInline)
                } else {
                    Ok(Chunk::Inline)
                },
            )
        } else if !ext_ok {
            (next, Err(Error::UnexpectedReference))
        } else if next.rest.len() < size {
            (end, Err(Error::UnexpectedEof))
        } else {
            (
                Position { rest: next.rest.skip(size as int), inline: 0 },
                Ok(Chunk::External(next.rest.take(size as int))),
            )
        }
    }
}

/// The next `n` bytes of the inline content that a reader is in, and where it stands then.
pub open spec fn inline_at(at: Position, n: usize) -> (Position, Result<Seq<u8>, Error>) {
    if at.rest.len() < n {
        (Position { rest: Seq::empty(), inline: at.inline }, Err(Error::UnexpectedEof))
    } else {
        (Position { rest: at.rest.skip(n as int), inline: (at.inline - n) as usize }, Ok(at.rest.take(n as int)))
    }
}

/// Content of a split stream.
pub enum Content {
    /// Inline content.
    Inline(Seq<u8>),
    /// A reference to an object.
    External(Seq<u8>),
}

/// Content that is stored with `stored_size` bytes, padding among them, and has `actual_size`
/// without it.
pub open spec fn content_at(at: Position, size: nat, actual_size: usize, stored_size: usize) -> (
    Position,
    Result<Content, Error>,
) {
    let (next, chunk) = chunk_at(at, size, false, true, stored_size);
    match chunk {
        Err(e) => (next, Err(e)),
        Ok(Chunk::External(id)) => if actual_size < stored_size {
            let padding = (stored_size - actual_size) as usize;
            let (third, chunk) = chunk_at(next, size, false, false, padding);
            match chunk {
                Err(e) => (third, Err(e)),
                Ok(_) => {
                    let (last, bytes) = inline_at(third, padding);
                    match bytes {
                        Err(e) => (last, Err(e)),
                        Ok(_) => (last, Ok(Content::External(id))),
                    }
                },
            }
        } else {
            (next, Ok(Content::External(id)))
        },
        Ok(_) => {
            let (last, bytes) = inline_at(next, stored_size);
            match bytes {
                Err(e) => (last, Err(e)),
                Ok(data) => (
                    last,
                    Ok(
                        Content::Inline(
                            if actual_size <= stored_size {
                                data.take(actual_size as int)
                            } else {
                                data
                            },
                        ),
                    ),
                ),
            }
        },
    }
}

/// All content from some place of a stream on, in order, and how the stream ends: well, or with an
/// error after that content.
pub open spec fn contents_from(at: Position, size: nat) -> (Seq<Content>, Result<(), Error>)
    decreases at.rest.len(),
{
    let (next, chunk) = chunk_at(at, size, true, true, 0);
    match chunk {
        Err(e) => (seq![], Err(e)),
        Ok(Chunk::Eof) => (seq![], Ok(())),
        Ok(Chunk::External(id)) => {
            let (more, end) = contents_from(next, size);
            (seq![Content::External(id)] + more, end)
        },
        Ok(Chunk::Inline) => {
            let (last, bytes) = inline_at(next, next.inline);
            match bytes {
                Err(e) => (seq![], Err(e)),
                Ok(data) => {
                    let (more, end) = contents_from(last, size);
                    (seq![Content::Inline(data)] + more, end)
                },
            }
        },
    }
}

/// The objects that are referred to, in order.
pub open spec fn references(contents: Seq<Content>) -> Seq<Seq<u8>>
    decreases contents.len(),
{
    if contents.len() == 0 {
        seq![]
    } else {
        match contents[0] {
            Content::Inline(_) => references(contents.drop_first()),
            Content::External(id) => seq![id] + references(contents.drop_first()),
        }
    }
}

/// The digest map that a stream starts with, and what comes after it.
pub open spec fn header_at(rest: Seq<u8>, size: nat) -> Result<(Seq<(Seq<u8>, Seq<u8>)>, Seq<u8>), Error> {
    let n = le_size(rest.take(8)) as nat;
    let each = 32 + size;
    if rest.len() < 8 || rest.len() < 8 + n * each {
        Err(Error::UnexpectedEof)
    } else {
        Ok(
            (
                Seq::new(n, |i: int| entry_at(rest.skip(8), size, i)),
                rest.skip(8 + (n * each) as int),
            ),
        )
    }
}

/// The digest map entry at index `i` of the entries that `data` starts with.
pub open spec fn entry_at(data: Seq<u8>, size: nat, i: int) -> (Seq<u8>, Seq<u8>) {
    let start = i * (32 + size);
    (data.subrange(start, start + 32), data.subrange(start + 32, start + 32 + size))
}

/// The bytes of the identifiers.
pub open spec fn ids_of<ObjectID: FsVerityHashValue>(ids: Seq<ObjectID>) -> Seq<Seq<u8>> {
    Seq::new(ids.len(), |i: int| ids[i].bytes())
}

/// What a map refers to, in order.
pub open spec fn verities(entries: Seq<(Seq<u8>, Seq<u8>)>) -> Seq<Seq<u8>> {
    Seq::new(entries.len(), |i: int| entries[i].1)
}

/// What joining the content can come to, where a reference stands for what `load_data` gives for
/// it: the bytes that are put out, and the result, which is the end of the stream or the first
/// error of `load_data`.
pub open spec fn joins_to<ObjectID: FsVerityHashValue, F: Fn(&ObjectID) -> Result<Vec<u8>, Error>>(
    contents: Seq<Content>,
    end: Result<(), Error>,
    load_data: F,
    out: Seq<u8>,
    result: Result<(), Error>,
) -> bool
    decreases contents.len(),
{
    if contents.len() == 0 {
        out.len() == 0 && result == end
    } else {
        let more = contents.drop_first();
        match contents[0] {
            Content::Inline(data) => data.is_prefix_of(out) && joins_to(
                more,
                end,
                load_data,
                out.skip(data.len() as int),
                result,
            ),
            Content::External(id) => exists|object: ObjectID, answer: Result<Vec<u8>, Error>| #[trigger]
                call_ensures(load_data, (&object,), answer) && object.bytes() == id && (match answer {
                    Ok(data) => data@.is_prefix_of(out) && joins_to(
                        more,
                        end,
                        load_data,
                        out.skip(data@.len() as int),
                        result,
                    ),
                    Err(e) => out.len() == 0 && result == Err::<(), Error>(e),
                }),
        }
    }
}

/// Data from a split stream.
#[derive(Debug)]
pub enum SplitStreamData<ObjectID: FsVerityHashValue> {
    /// Inline content.
    Inline(Vec<u8>),
    /// A reference to an object.
    External(ObjectID),
}

impl<ObjectID: FsVerityHashValue> SplitStreamData<ObjectID> {
    /// The bytes of the content, or of the identifier.
    pub open spec fn view(self) -> Content {
        match self {
            SplitStreamData::Inline(data) => Content::Inline(data@),
            SplitStreamData::External(id) => Content::External(id.bytes()),
        }
    }
}

/// What a reader is in.
enum ChunkType<ObjectID: FsVerityHashValue> {
    Eof,
    Inline,
    External(ObjectID),
}

impl<ObjectID: FsVerityHashValue> ChunkType<ObjectID> {
    spec fn view(self) -> Chunk {
        match self {
            ChunkType::Eof => Chunk::Eof,
            ChunkType::Inline => Chunk::Inline,
            ChunkType::External(id) => Chunk::External(id.bytes()),
        }
    }
}

/// The errors that reading a stream can give.
pub open spec fn is_read_error(e: Error) -> bool {
    e == Error::UnexpectedEof || e == Error::Io || e == Error::UnexpectedReference || e == Error::SmallInline
}

/// Reads a split stream.
pub struct SplitStreamReader<R: ByteSource, ObjectID: FsVerityHashValue> {
    /// Where the stream is read from.
    pub decoder: R,
    /// How many of the next bytes belong to the inline content that the reader is in.
    pub inline_bytes: usize,
    /// The digest map of the stream.
    pub refs: DigestMap<ObjectID>,
}

impl<ObjectID: FsVerityHashValue> SplitStreamReader<ZstdDecoder, ObjectID> {
    /// A reader of a compressed stream. It reads the digest map at once.
    pub fn new(data: Vec<u8>) -> (r: Result<Self, Error>)
        ensures
            r matches Ok(reader) ==> !reader.failed(),
            match decompressed(data@) {
                Some(stream) => match r {
                    Ok(reader) => {
                        &&& header_at(stream, ObjectID::size()) matches Ok((entries, rest))
                        &&& reader.map_entries() == entries
                        &&& reader.position() == Some(Position { rest, inline: 0 })
                    },
                    Err(e) => header_at(stream, ObjectID::size()) == Err::<
                        (Seq<(Seq<u8>, Seq<u8>)>, Seq<u8>),
                        Error,
                    >(e),
                },
                None => match r {
                    Ok(reader) => reader.position() is None,
                    Err(e) => e == Error::Io,
                },
            },
    {
        Self::from_decoder(ZstdDecoder::new(data))
    }
}

/// Reads an object identifier.
fn read_id<R: ByteSource, ObjectID: FsVerityHashValue>(decoder: &mut R) -> (r: Result<ObjectID, Error>)
    ensures
        r matches Err(e) ==> e == Error::UnexpectedEof || e == Error::Io,
        r is Ok ==> final(decoder).bound() <= old(decoder).bound(),
        final(decoder).failed() == (old(decoder).failed() || r == Err::<ObjectID, Error>(Error::Io)),
        r == Err::<ObjectID, Error>(Error::UnexpectedEof) ==> old(decoder).rest() is Some,
        r is Ok && final(decoder).rest() is Some ==> old(decoder).rest() is Some,
        old(decoder).rest() matches Some(rest) ==> if ObjectID::size() <= rest.len() {
            &&& r matches Ok(id)
            &&& id.bytes() == rest.take(ObjectID::size() as int)
            &&& final(decoder).rest() == Some(rest.skip(ObjectID::size() as int))
        } else {
            &&& r matches Err(e)
            &&& e == Error::UnexpectedEof
            &&& final(decoder).rest() == Some(Seq::<u8>::empty())
        },
{
    let mut buf: Vec<u8> = Vec::new();
    buf.resize(ObjectID::byte_len(), 0u8);
    match read_exact(decoder, &mut buf) {
        Ok(_) => Ok(ObjectID::from_bytes(buf.as_slice())),
        Err(e) => Err(e),
    }
}

/// Reads a digest.
fn read_digest<R: ByteSource>(decoder: &mut R) -> (r: Result<Sha256Digest, Error>)
    ensures
        r matches Err(e) ==> e == Error::UnexpectedEof || e == Error::Io,
        final(decoder).failed() == (old(decoder).failed() || r == Err::<Sha256Digest, Error>(Error::Io)),
        r == Err::<Sha256Digest, Error>(Error::UnexpectedEof) ==> old(decoder).rest() is Some,
        r is Ok && final(decoder).rest() is Some ==> old(decoder).rest() is Some,
        old(decoder).rest() matches Some(rest) ==> if 32 <= rest.len() {
            &&& r matches Ok(d)
            &&& d@ == rest.take(32)
            &&& final(decoder).rest() == Some(rest.skip(32))
        } else {
            &&& r matches Err(e)
            &&& e == Error::UnexpectedEof
            &&& final(decoder).rest() == Some(Seq::<u8>::empty())
        },
{
    let mut buf: Vec<u8> = Vec::new();
    buf.resize(32, 0u8);
    match read_exact(decoder, &mut buf) {
        Ok(_) => {
            let mut digest: Sha256Digest = [0u8; 32];
            let mut i: usize = 0;
            while i < 32
                invariant
                    i <= 32,
                    buf@.len() == 32,
                    forall|j: int| 0 <= j < i ==> digest@[j] == buf@[j],
                decreases 32 - i,
            {
                digest[i] = buf[i];
                i = i + 1;
            }
            assert(digest@ =~= buf@);
            Ok(digest)
        },
        Err(e) => Err(e),
    }
}

impl<R: ByteSource, ObjectID: FsVerityHashValue> SplitStreamReader<R, ObjectID> {
    /// Where the reader stands, where that is known: see `ByteSource::rest`.
    pub open spec fn position(&self) -> Option<Position> {
        match self.decoder.rest() {
            Some(rest) => Some(Position { rest, inline: self.inline_bytes }),
            None => None,
        }
    }

    /// A read from the source has failed.
    pub open spec fn failed(&self) -> bool {
        self.decoder.failed()
    }

    /// The entries of the digest map.
    pub open spec fn map_entries(&self) -> Seq<(Seq<u8>, Seq<u8>)> {
        self.refs.entries()
    }

    /// The number of entries of the digest map.
    pub fn entry_count(&self) -> (r: usize)
        ensures
            r == self.map_entries().len(),
    {
        self.refs.map.len()
    }

    /// An entry of the digest map.
    pub fn entry(&self, i: usize) -> (r: &DigestMapEntry<ObjectID>)
        requires
            i < self.map_entries().len(),
        ensures
            self.map_entries()[i as int] == (r.body@, r.verity.bytes()),
    {
        &self.refs.map[i]
    }

    /// The reader stands at a reference, or that is not known.
    pub open spec fn may_find_reference(&self) -> bool {
        match self.position() {
            Some(at) => at.inline == 0 && at.rest.len() >= 8 + ObjectID::size() && le_size(at.rest.take(8)) == 0,
            None => true,
        }
    }

    /// A reader of what a source gives. It reads the digest map at once.
    pub fn from_decoder(decoder: R) -> (r: Result<Self, Error>)
        ensures
            match r {
                Ok(reader) => reader.failed() == decoder.failed() && (reader.position() is Some ==> decoder.rest()
                    is Some),
                Err(e) => e == Error::Io || (e == Error::UnexpectedEof && decoder.rest() is Some),
            },
            decoder.rest() matches Some(stream) ==> match r {
                Ok(reader) => {
                    &&& header_at(stream, ObjectID::size()) matches Ok((entries, rest))
                    &&& reader.map_entries() == entries
                    &&& reader.position() == Some(Position { rest, inline: 0 })
                },
                Err(e) => header_at(stream, ObjectID::size()) == Err::<(Seq<(Seq<u8>, Seq<u8>)>, Seq<u8>), Error>(
                    e,
                ),
            },
    {
        let mut source = decoder;
        let ghost from = decoder.rest();
        let mut buf: Vec<u8> = Vec::new();
        buf.resize(8, 0u8);
        match read_exact(&mut source, &mut buf) {
            Ok(_) => {},
            Err(e) => {
                return Err(e);
            },
        }
        let n_map_entries: usize = u64_from_le_bytes(buf.as_slice()) as usize;
        let ghost each = 32 + ObjectID::size();
        let mut map: Vec<DigestMapEntry<ObjectID>> = Vec::new();
        let mut i: usize = 0;
        proof {
            assert(0 * each == 0);
            if let Some(stream) = from {
                assert(stream.skip(8).skip(0) =~= stream.skip(8));
            }
        }
        while i < n_map_entries
            invariant
                from == decoder.rest(),
                i <= n_map_entries,
                map@.len() == i,
                source.failed() == decoder.failed(),
                source.rest() is Some ==> from is Some,
                each == 32 + ObjectID::size(),
                from matches Some(stream) ==> {
                    &&& stream.len() >= 8
                    &&& n_map_entries == le_size(stream.take(8))
                    &&& i * each <= stream.len() - 8
                    &&& source.rest() == Some(stream.skip(8).skip((i * each) as int))
                    &&& forall|j: int|
                        0 <= j < i ==> (#[trigger] map@[j]).body@ == entry_at(stream.skip(8), ObjectID::size(), j).0
                            && map@[j].verity.bytes() == entry_at(stream.skip(8), ObjectID::size(), j).1
                },
            decreases n_map_entries - i,
        {
            proof {
                assert((i + 1) * each == i * each + each && (i + 1) * each <= n_map_entries * each && i * each >= 0)
                    by (nonlinear_arith)
                    requires
                        i + 1 <= n_map_entries,
                        each >= 0,
                ;
            }
            let ghost before = source.rest();
            match read_digest(&mut source) {
                Ok(body) => {
                    let ghost middle = source.rest();
                    match read_id::<R, ObjectID>(&mut source) {
                        Ok(verity) => {
                            proof {
                                if let Some(stream) = from {
                                    let data = stream.skip(8);
                                    let start = (i * each) as int;
                                    let size = ObjectID::size() as int;
                                    assert(data.skip(start).take(32) =~= data.subrange(start, start + 32));
                                    assert(data.skip(start).skip(32).take(size) =~= data.subrange(
                                        start + 32,
                                        start + 32 + size,
                                    ));
                                    assert(data.skip(start).skip(32).skip(size) =~= data.skip(
                                        ((i + 1) * each) as int,
                                    ));
                                }
                            }
                            map.push(DigestMapEntry { body, verity });
                        },
                        Err(e) => {
                            return Err(e);
                        },
                    }
                },
                Err(e) => {
                    return Err(e);
                },
            }
            i = i + 1;
        }
        let refs = DigestMap { map };
        proof {
            if let Some(stream) = from {
                assert(stream.skip(8).skip((i * each) as int) =~= stream.skip(8 + (i * each) as int));
                assert(refs.entries() =~= header_at(stream, ObjectID::size())->Ok_0.0);
            }
        }
        Ok(SplitStreamReader { decoder: source, refs, inline_bytes: 0 })
    }

    /// Makes sure that the reader is in a chunk.
    fn ensure_chunk(&mut self, eof_ok: bool, ext_ok: bool, expected_bytes: usize) -> (r: Result<
        ChunkType<ObjectID>,
        Error,
    >)
        ensures
            final(self).refs == old(self).refs,
            match r {
                Ok(ChunkType::Inline) => {
                    &&& final(self).inline_bytes >= expected_bytes
                    &&& final(self).inline_bytes != 0
                    &&& final(self).decoder.bound() <= old(self).decoder.bound()
                },
                Ok(ChunkType::External(_)) => {
                    &&& ext_ok
                    &&& final(self).inline_bytes == 0
                    &&& final(self).decoder.bound() < old(self).decoder.bound()
                },
                Ok(ChunkType::Eof) => eof_ok && old(self).position() is Some,
                Err(e) => is_read_error(e),
            },
            final(self).failed() == (old(self).failed() || r == Err::<ChunkType<ObjectID>, Error>(Error::Io)),
            r == Err::<ChunkType<ObjectID>, Error>(Error::UnexpectedEof) ==> old(self).position() is Some,
            r is Ok && final(self).position() is Some ==> old(self).position() is Some,
            old(self).position() matches Some(at) ==> {
                let (next, found) = chunk_at(at, ObjectID::size(), eof_ok, ext_ok, expected_bytes);
                &&& final(self).position() == Some(next)
                &&& match r {
                    Ok(c) => found == Ok::<Chunk, Error>(c.view()),
                    Err(e) => found == Err::<Chunk, Error>(e),
                }
            },
    {
        if self.inline_bytes == 0 {
            match read_u64_le(&mut self.decoder) {
                Err(e) => {
                    return Err(e);
                },
                Ok(None) => {
                    if !eof_ok {
                        return Err(Error::UnexpectedEof);
                    }
                    return Ok(ChunkType::Eof);
                },
                Ok(Some(size)) => {
                    if size == 0 {
                        if !ext_ok {
                            return Err(Error::UnexpectedReference);
                        }
                        return match read_id::<R, ObjectID>(&mut self.decoder) {
                            Ok(id) => Ok(ChunkType::External(id)),
                            Err(e) => Err(e),
                        };
                    }
                    self.inline_bytes = size;
                },
            }
        }
        if self.inline_bytes < expected_bytes {
            return Err(Error::SmallInline);
        }
        Ok(ChunkType::Inline)
    }

    /// Fills `buffer` with inline content, unless the stream ends here. The content may not be
    /// split across chunks.
    pub fn read_inline_exact(&mut self, buffer: &mut Vec<u8>) -> (r: Result<bool, Error>)
        ensures
            final(self).map_entries() == old(self).map_entries(),
            final(buffer)@.len() == old(buffer)@.len(),
            r matches Err(e) ==> is_read_error(e),
            final(self).failed() == (old(self).failed() || r == Err::<bool, Error>(Error::Io)),
            r == Ok::<bool, Error>(false) ==> final(buffer)@ == old(buffer)@ && old(self).position() is Some,
            r == Err::<bool, Error>(Error::UnexpectedEof) ==> old(self).position() is Some,
            r is Ok && final(self).position() is Some ==> old(self).position() is Some,
            old(self).position() matches Some(at) ==> {
                let len = old(buffer).len();
                let (next, found) = chunk_at(at, ObjectID::size(), true, false, len);
                match found {
                    Err(e) => {
                        &&& r == Err::<bool, Error>(e)
                        &&& final(buffer)@ == old(buffer)@
                        &&& final(self).position() == Some(next)
                    },
                    Ok(Chunk::Inline) => {
                        let (last, bytes) = inline_at(next, len);
                        &&& final(self).position() == Some(last)
                        &&& match bytes {
                            Err(e) => r == Err::<bool, Error>(e),
                            Ok(data) => r == Ok::<bool, Error>(true) && final(buffer)@ == data,
                        }
                    },
                    Ok(_) => r == Ok::<bool, Error>(false) && final(self).position() == Some(next),
                }
            },
    {
        match self.ensure_chunk(true, false, buffer.len()) {
            Err(e) => Err(e),
            Ok(ChunkType::Inline) => {
                match read_exact(&mut self.decoder, buffer) {
                    Ok(_) => {
                        self.inline_bytes = self.inline_bytes - buffer.len();
                        Ok(true)
                    },
                    Err(e) => Err(e),
                }
            },
            Ok(_) => Ok(false),
        }
    }

    /// Passes over padding.
    fn discard_padding(&mut self, size: usize) -> (r: Result<(), Error>)
        requires
            size <= 512,
        ensures
            final(self).refs == old(self).refs,
            r matches Err(e) ==> is_read_error(e),
            final(self).failed() == (old(self).failed() || r == Err::<(), Error>(Error::Io)),
            r == Err::<(), Error>(Error::UnexpectedEof) ==> old(self).position() is Some,
            r is Ok && final(self).position() is Some ==> old(self).position() is Some,
            old(self).position() matches Some(at) ==> {
                let (next, found) = chunk_at(at, ObjectID::size(), false, false, size);
                match found {
                    Err(e) => r == Err::<(), Error>(e) && final(self).position() == Some(next),
                    Ok(_) => {
                        let (last, bytes) = inline_at(next, size);
                        &&& final(self).position() == Some(last)
                        &&& match bytes {
                            Err(e) => r == Err::<(), Error>(e),
                            Ok(_) => r is Ok,
                        }
                    },
                }
            },
    {
        match self.ensure_chunk(false, false, size) {
            Err(e) => Err(e),
            Ok(_) => {
                let mut buf: Vec<u8> = Vec::new();
                buf.resize(size, 0u8);
                match read_exact(&mut self.decoder, &mut buf) {
                    Ok(_) => {
                        self.inline_bytes = self.inline_bytes - size;
                        Ok(())
                    },
                    Err(e) => Err(e),
                }
            },
        }
    }

    /// Reads content, inline or as a reference. `stored_size` is its size in the stream, padding
    /// included; `actual_size` is its size without the padding, of which there may be up to 512
    /// bytes after a reference.
    pub fn read_exact(&mut self, actual_size: usize, stored_size: usize) -> (r: Result<
        SplitStreamData<ObjectID>,
        Error,
    >)
        requires
            old(self).may_find_reference() ==> stored_size <= actual_size + 512,
        ensures
            final(self).map_entries() == old(self).map_entries(),
            r matches Err(e) ==> is_read_error(e),
            final(self).failed() == (old(self).failed() || r == Err::<SplitStreamData<ObjectID>, Error>(Error::Io)),
            r == Err::<SplitStreamData<ObjectID>, Error>(Error::UnexpectedEof) ==> old(self).position() is Some,
            r is Ok && final(self).position() is Some ==> old(self).position() is Some,
            old(self).position() matches Some(at) ==> {
                let (last, content) = content_at(at, ObjectID::size(), actual_size, stored_size);
                &&& final(self).position() == Some(last)
                &&& match r {
                    Ok(data) => content == Ok::<Content, Error>(data.view()),
                    Err(e) => content == Err::<Content, Error>(e),
                }
            },
    {
        match self.ensure_chunk(false, true, stored_size) {
            Err(e) => Err(e),
            Ok(ChunkType::External(id)) => {
                if actual_size < stored_size {
                    match self.discard_padding(stored_size - actual_size) {
                        Ok(_) => {},
                        Err(e) => {
                            return Err(e);
                        },
                    }
                }
                Ok(SplitStreamData::External(id))
            },
            Ok(_) => {
                let mut content: Vec<u8> = Vec::new();
                match read_in_steps(&mut self.decoder, &mut content, stored_size) {
                    Ok(_) => {},
                    Err(e) => {
                        return Err(e);
                    },
                }
                let ghost data = content@;
                content.truncate(actual_size);
                assert(actual_size <= stored_size ==> data.subrange(0, actual_size as int) =~= data.take(
                    actual_size as int,
                ));
                self.inline_bytes = self.inline_bytes - stored_size;
                Ok(SplitStreamData::Inline(content))
            },
        }
    }

    /// Puts out the whole content of the stream, from where the reader stands. A reference stands
    /// for what `load_data` gives for it.
    pub fn cat<O: ByteSink, F: Fn(&ObjectID) -> Result<Vec<u8>, Error>>(&mut self, output: &mut O, load_data: F) -> (r:
        Result<(), Error>)
        requires
            forall|id: &ObjectID| call_requires(load_data, (id,)),
        ensures
            final(self).map_entries() == old(self).map_entries(),
            old(output).reliable() ==> final(output).reliable(),
            old(output).reliable() || r != Err::<(), Error>(Error::Io) ==> old(output).written().is_prefix_of(
                final(output).written(),
            ),
            final(self).failed() ==> old(self).failed() || r == Err::<(), Error>(Error::Io),
            r is Ok ==> {
                &&& old(self).position() is Some
                &&& final(self).position() == Some(Position { rest: Seq::empty(), inline: 0 })
                &&& final(self).failed() == old(self).failed()
            },
            old(self).position() matches Some(at) ==> {
                let (contents, end) = contents_from(at, ObjectID::size());
                old(output).reliable() || r != Err::<(), Error>(Error::Io) ==> exists|out: Seq<u8>|
                    final(output).written() == old(output).written() + out && #[trigger] joins_to(
                        contents,
                        end,
                        load_data,
                        out,
                        r,
                    )
            },
    {
        let mut buffer: Vec<u8> = Vec::new();
        let ghost size = ObjectID::size();
        let ghost from = self.position();
        let ghost start = output.written();
        let ghost mut done: Seq<u8> = seq![];
        assert(output.written() =~= start + done);
        proof {
            if let Some(at) = from {
                let (contents, end) = contents_from(at, size);
                assert forall|out: Seq<u8>, result: Result<(), Error>|
                    #[trigger] joins_to(contents, end, load_data, out, result) implies joins_to(
                    contents,
                    end,
                    load_data,
                    done + out,
                    result,
                ) by {
                    assert(done + out =~= out);
                }
            }
        }
        loop
            invariant
                size == ObjectID::size(),
                from == old(self).position(),
                start == old(output).written(),
                self.map_entries() == old(self).map_entries(),
                old(output).reliable() ==> output.reliable(),
                output.written() == start + done,
                self.failed() == old(self).failed(),
                self.position() is Some ==> from is Some,
                forall|id: &ObjectID| call_requires(load_data, (id,)),
                from matches Some(at) ==> {
                    let (contents, end) = contents_from(at, size);
                    &&& self.position() matches Some(now)
                    &&& {
                        let (more, last) = contents_from(now, size);
                        &&& last == end
                        &&& forall|out: Seq<u8>, result: Result<(), Error>|
                            #[trigger] joins_to(more, last, load_data, out, result) ==> joins_to(
                                contents,
                                end,
                                load_data,
                                done + out,
                                result,
                            )
                    }
                },
            decreases self.decoder.bound(),
        {
            let ghost before = self.position();
            let ghost nothing = Seq::<u8>::empty();
            assert(done + nothing =~= done);
            match self.ensure_chunk(true, true, 0) {
                Err(e) => {
                    proof {
                        if from is Some {
                            let (more, last) = contents_from(before->0, size);
                            assert(joins_to(more, last, load_data, nothing, Err::<(), Error>(e)));
                        }
                    }
                    return Err(e);
                },
                Ok(ChunkType::Eof) => {
                    proof {
                        if from is Some {
                            let (more, last) = contents_from(before->0, size);
                            assert(joins_to(more, last, load_data, nothing, Ok::<(), Error>(())));
                        }
                    }
                    return Ok(());
                },
                Ok(ChunkType::Inline) => {
                    match read_in_steps(&mut self.decoder, &mut buffer, self.inline_bytes) {
                        Ok(_) => {},
                        Err(e) => {
                            proof {
                                if from is Some {
                                    let (more, last) = contents_from(before->0, size);
                                    assert(joins_to(more, last, load_data, nothing, Err::<(), Error>(e)));
                                }
                            }
                            return Err(e);
                        },
                    }
                    self.inline_bytes = 0;
                    match output.write_all(buffer.as_slice()) {
                        Ok(_) => {},
                        Err(e) => {
                            return Err(e);
                        },
                    }
                    proof {
                        let data = buffer@;
                        let next = done + data;
                        assert(start + done + data =~= start + next);
                        if from is Some {
                            let (contents, end) = contents_from(from->0, size);
                            let (more, last) = contents_from(before->0, size);
                            let (rest, _) = contents_from(self.position()->0, size);
                            assert(more.drop_first() =~= rest);
                            assert forall|out: Seq<u8>, result: Result<(), Error>|
                                #[trigger] joins_to(rest, last, load_data, out, result) implies joins_to(
                                contents,
                                end,
                                load_data,
                                next + out,
                                result,
                            ) by {
                                assert((data + out).skip(data.len() as int) =~= out);
                                assert(joins_to(more, last, load_data, data + out, result));
                                assert(done + (data + out) =~= next + out);
                            }
                        }
                        done = next;
                    }
                },
                Ok(ChunkType::External(id)) => {
                    match load_data(&id) {
                        Ok(data) => {
                            match output.write_all(data.as_slice()) {
                                Ok(_) => {},
                                Err(e) => {
                                    return Err(e);
                                },
                            }
                            proof {
                                let answer = Ok::<Vec<u8>, Error>(data);
                                let next = done + data@;
                                assert(start + done + data@ =~= start + next);
                                if from is Some {
                                    let (contents, end) = contents_from(from->0, size);
                                    let (more, last) = contents_from(before->0, size);
                                    let (rest, _) = contents_from(self.position()->0, size);
                                    assert(more.drop_first() =~= rest);
                                    assert forall|out: Seq<u8>, result: Result<(), Error>|
                                        #[trigger] joins_to(rest, last, load_data, out, result) implies joins_to(
                                        contents,
                                        end,
                                        load_data,
                                        next + out,
                                        result,
                                    ) by {
                                        assert(call_ensures(load_data, (&id,), answer));
                                        assert((data@ + out).skip(data@.len() as int) =~= out);
                                        assert(joins_to(more, last, load_data, data@ + out, result));
                                        assert(done + (data@ + out) =~= next + out);
                                    }
                                }
                                done = next;
                            }
                        },
                        Err(e) => {
                            proof {
                                let answer = Err::<Vec<u8>, Error>(e);
                                assert(call_ensures(load_data, (&id,), answer));
                                if from is Some {
                                    let (more, last) = contents_from(before->0, size);
                                    assert(joins_to(more, last, load_data, nothing, Err::<(), Error>(e)));
                                }
                            }
                            return Err(e);
                        },
                    }
                },
            }
        }
    }

    /// Adds every object that the stream refers to at the end of `objects`: those in the digest map,
    /// and those in the stream from where the reader stands. Where the stream ends with an error,
    /// those before it are added.
    pub fn get_object_refs(&mut self, objects: &mut Vec<ObjectID>) -> (r: Result<(), Error>)
        ensures
            final(self).map_entries() == old(self).map_entries(),
            r matches Err(e) ==> is_read_error(e),
            final(self).failed() == (old(self).failed() || r == Err::<(), Error>(Error::Io)),
            r is Ok ==> {
                &&& old(self).position() is Some
                &&& final(self).position() == Some(Position { rest: Seq::empty(), inline: 0 })
            },
            r == Err::<(), Error>(Error::UnexpectedEof) ==> old(self).position() is Some,
            (ids_of(old(objects)@) + verities(old(self).map_entries())).is_prefix_of(ids_of(final(objects)@)),
            old(self).position() matches Some(at) ==> {
                let (contents, end) = contents_from(at, ObjectID::size());
                &&& r == end
                &&& ids_of(final(objects)@) == ids_of(old(objects)@) + verities(old(self).map_entries()) + references(
                    contents,
                )
            },
    {
        let ghost size = ObjectID::size();
        let ghost from = self.position();
        let ghost entries = self.map_entries();
        let ghost start = ids_of(objects@);
        let mut i: usize = 0;
        assert(start + verities(entries.take(0)) =~= start);
        while i < self.refs.map.len()
            invariant
                i <= self.refs.map@.len(),
                entries == self.refs.entries(),
                self.position() == from,
                self.failed() == old(self).failed(),
                self.map_entries() == entries,
                ids_of(objects@) == start + verities(entries.take(i as int)),
            decreases self.refs.map@.len() - i,
        {
            let ghost before = objects@;
            objects.push(self.refs.map[i].verity.duplicate());
            assert(ids_of(objects@) =~= ids_of(before).push(entries[i as int].1));
            assert(start + verities(entries.take(i + 1)) =~= (start + verities(entries.take(i as int))).push(
                entries[i as int].1,
            ));
            i = i + 1;
        }
        assert(entries.take(i as int) =~= entries);
        let ghost listed = start + verities(entries);
        let mut buffer: Vec<u8> = Vec::new();
        let ghost mut found: Seq<Seq<u8>> = seq![];
        proof {
            assert(listed + found =~= listed);
            if let Some(at) = from {
                let (contents, end) = contents_from(at, size);
                assert(found + references(contents) =~= references(contents));
            }
        }
        loop
            invariant
                size == ObjectID::size(),
                from == old(self).position(),
                entries == old(self).map_entries(),
                self.map_entries() == entries,
                self.failed() == old(self).failed(),
                self.position() is Some ==> from is Some,
                listed == ids_of(old(objects)@) + verities(entries),
                ids_of(objects@) == listed + found,
                from matches Some(at) ==> {
                    let (contents, end) = contents_from(at, size);
                    &&& self.position() matches Some(now)
                    &&& {
                        let (more, last) = contents_from(now, size);
                        &&& last == end
                        &&& references(contents) == found + references(more)
                    }
                },
            decreases self.decoder.bound(),
        {
            let ghost before = self.position();
            let ghost nothing = Seq::<Seq<u8>>::empty();
            assert(found + nothing =~= found);
            match self.ensure_chunk(true, true, 0) {
                Err(e) => {
                    return Err(e);
                },
                Ok(ChunkType::Eof) => {
                    return Ok(());
                },
                Ok(ChunkType::Inline) => {
                    match read_in_steps(&mut self.decoder, &mut buffer, self.inline_bytes) {
                        Ok(_) => {},
                        Err(e) => {
                            return Err(e);
                        },
                    }
                    self.inline_bytes = 0;
                    proof {
                        if from is Some {
                            let (more, last) = contents_from(before->0, size);
                            let (rest, _) = contents_from(self.position()->0, size);
                            assert(more.drop_first() =~= rest);
                        }
                    }
                },
                Ok(ChunkType::External(id)) => {
                    let ghost prev = objects@;
                    let ghost b = id.bytes();
                    objects.push(id);
                    proof {
                        assert(ids_of(objects@) =~= ids_of(prev).push(b));
                        assert(listed + found.push(b) =~= (listed + found).push(b));
                        if from is Some {
                            let (more, last) = contents_from(before->0, size);
                            let (rest, _) = contents_from(self.position()->0, size);
                            assert(more.drop_first() =~= rest);
                            assert(found + (seq![b] + references(rest)) =~= found.push(b) + references(rest));
                        }
                        found = found.push(b);
                    }
                },
            }
        }
    }

    /// The content hashes in the digest map.
    pub fn get_stream_refs(&self) -> (r: Vec<Sha256Digest>)
        ensures
            r@.len() == self.map_entries().len(),
            forall|i: int| 0 <= i < r@.len() ==> (#[trigger] r@[i])@ == self.map_entries()[i].0,
    {
        let mut r: Vec<Sha256Digest> = Vec::new();
        let mut i: usize = 0;
        while i < self.refs.map.len()
            invariant
                i <= self.refs.map@.len(),
                r@.len() == i,
                forall|j: int| 0 <= j < i ==> (#[trigger] r@[j])@ == self.map_entries()[j].0,
            decreases self.refs.map@.len() - i,
        {
            r.push(self.refs.map[i].body);
            i = i + 1;
        }
        r
    }

    /// Looks up an object identifier by content hash in the digest map.
    pub fn lookup(&self, body: &Sha256Digest) -> (r: Result<&ObjectID, Error>)
        ensures
            in_order(self.map_entries()) ==> match r {
                Ok(id) => value_at(self.map_entries(), body@) == Some(id.bytes()),
                Err(e) => e == Error::ReferenceNotFound && value_at(self.map_entries(), body@) is None,
            },
            match r {
                Ok(id) => self.map_entries().contains((body@, id.bytes())),
                Err(e) => e == Error::ReferenceNotFound,
            },
    {
        match self.refs.lookup(body) {
            Some(id) => Ok(id),
            None => Err(Error::ReferenceNotFound),
        }
    }

    /// Reads some inline content into `data`, and says how much: as much as there is room for, but
    /// no more than there is in a row. None is read at the end of the stream.
    pub fn read(&mut self, data: &mut Vec<u8>) -> (r: Result<usize, Error>)
        ensures
            final(self).map_entries() == old(self).map_entries(),
            final(data)@.len() == old(data)@.len(),
            match r {
                Ok(n) => n <= old(data)@.len(),
                Err(e) => is_read_error(e),
            },
            final(self).failed() == (old(self).failed() || r == Err::<usize, Error>(Error::Io)),
            r == Ok::<usize, Error>(0) && old(data)@.len() > 0 ==> old(self).position() is Some,
            r == Err::<usize, Error>(Error::UnexpectedEof) ==> old(self).position() is Some,
            r is Ok && final(self).position() is Some ==> old(self).position() is Some,
            old(self).position() matches Some(at) ==> {
                let (next, found) = chunk_at(at, ObjectID::size(), true, false, 1);
                match found {
                    Err(e) => r == Err::<usize, Error>(e) && final(self).position() == Some(next),
                    Ok(Chunk::Inline) => {
                        let n = if old(data).len() < next.inline {
                            old(data).len()
                        } else {
                            next.inline
                        };
                        let (last, bytes) = inline_at(next, n);
                        &&& final(self).position() == Some(last)
                        &&& match bytes {
                            Err(e) => r == Err::<usize, Error>(e),
                            Ok(read) => {
                                &&& r == Ok::<usize, Error>(n)
                                &&& final(data)@ == read + old(data)@.skip(n as int)
                            },
                        }
                    },
                    Ok(_) => {
                        &&& r == Ok::<usize, Error>(0)
                        &&& final(data)@ == old(data)@
                        &&& final(self).position() == Some(next)
                    },
                }
            },
    {
        match self.ensure_chunk(true, false, 1) {
            Err(e) => Err(e),
            Ok(ChunkType::Inline) => {
                let n: usize = if data.len() < self.inline_bytes {
                    data.len()
                } else {
                    self.inline_bytes
                };
                let mut part: Vec<u8> = Vec::new();
                match read_in_steps(&mut self.decoder, &mut part, n) {
                    Ok(_) => {},
                    Err(e) => {
                        return Err(e);
                    },
                }
                self.inline_bytes = self.inline_bytes - n;
                let ghost before = data@;
                let mut i: usize = 0;
                assert(part@.take(0) + before.skip(0) =~= before);
                while i < n
                    invariant
                        i <= n,
                        n == part.len(),
                        n <= before.len(),
                        before.len() == data@.len(),
                        data@ == part@.take(i as int) + before.skip(i as int),
                    decreases n - i,
                {
                    data[i] = part[i];
                    assert(data@ =~= part@.take(i + 1) + before.skip(i + 1));
                    i = i + 1;
                }
                assert(part@.take(n as int) =~= part@);
                Ok(n)
            },
            Ok(_) => Ok(0),
        }
    }
}

} // verus!
