//! What a reader makes of the fragments of a split stream.

use vstd::prelude::*;
use vstd::bytes::{lemma_auto_spec_u64_to_from_le_bytes, spec_u64_from_le_bytes, spec_u64_to_le_bytes};
use crate::compress::{decompressed, ZstdDecoder};
use crate::error::Error;
use crate::fsverity::FsVerityHashValue;
use crate::hash::Sha256Digest;
use crate::io::ByteSource;
use crate::maplaws::found_where_it_stands;
use crate::splitstream::{header_at, DigestMapEntry, SplitStreamData, SplitStreamReader};

verus! {

/// The reader stands where `rest` is to come, with `inline` bytes of it in the inline content that it
/// is in.
pub open spec fn stands_at<R: ByteSource, ObjectID: FsVerityHashValue>(
    reader: SplitStreamReader<R, ObjectID>,
    rest: Seq<u8>,
    inline: int,
) -> bool {
    reader.decoder.rest() == Some(rest) && reader.inline_bytes == inline
}

/// The lesser of two numbers.
pub open spec fn least(a: int, b: int) -> int {
    if a < b {
        a
    } else {
        b
    }
}

/// A size is read back.
proof fn size_comes_back(n: nat, rest: Seq<u8>)
    requires
        n <= usize::MAX,
    ensures
        spec_u64_to_le_bytes(n as u64).len() == 8,
        (spec_u64_to_le_bytes(n as u64) + rest).take(8) == spec_u64_to_le_bytes(n as u64),
        (spec_u64_to_le_bytes(n as u64) + rest).skip(8) == rest,
        spec_u64_from_le_bytes(spec_u64_to_le_bytes(n as u64)) == n as u64,
{
    lemma_auto_spec_u64_to_from_le_bytes();
    let s = spec_u64_to_le_bytes(n as u64);
    assert(s.len() == 8);
    assert((s + rest).take(8) =~= s);
    assert((s + rest).skip(8) =~= rest);
}

/// Inside inline content, reading content with its padding gives the content without it, whatever the
/// length of either, and passes over both.
pub proof fn content_read_inside<R: ByteSource, ObjectID: FsVerityHashValue>(
    reader: &mut SplitStreamReader<R, ObjectID>,
    actual_size: usize,
    stored_size: usize,
    rest: Seq<u8>,
    inline: usize,
    r: Result<SplitStreamData<ObjectID>, Error>,
)
    requires
        inline > 0,
        stands_at(*old(reader), rest, inline as int),
        call_ensures(SplitStreamReader::<R, ObjectID>::read_exact, (reader, actual_size, stored_size), r),
    ensures
        stored_size > inline ==> r == Err::<SplitStreamData<ObjectID>, Error>(Error::SmallInline) && stands_at(
            *final(reader),
            rest,
            inline as int,
        ),
        stored_size <= inline && stored_size > rest.len() ==> r == Err::<SplitStreamData<ObjectID>, Error>(
            Error::UnexpectedEof,
        ),
        stored_size <= inline && stored_size <= rest.len() ==> {
            &&& r matches Ok(SplitStreamData::Inline(data)) && data@ == rest.take(
                least(actual_size as int, stored_size as int),
            )
            &&& stands_at(*final(reader), rest.skip(stored_size as int), inline - stored_size)
        },
{
    let data = rest.take(stored_size as int);
    if stored_size <= rest.len() {
        assert(data.take(least(actual_size as int, stored_size as int)) =~= rest.take(
            least(actual_size as int, stored_size as int),
        ));
        assert(data =~= data.take(stored_size as int));
    }
}

/// At the start of an inline fragment, reading content with its padding gives the content without it,
/// whatever the length of either, and passes over both.
pub proof fn content_read_from_fragment<R: ByteSource, ObjectID: FsVerityHashValue>(
    reader: &mut SplitStreamReader<R, ObjectID>,
    actual_size: usize,
    stored_size: usize,
    rest: Seq<u8>,
    inline: usize,
    r: Result<SplitStreamData<ObjectID>, Error>,
)
    requires
        inline > 0,
        stands_at(*old(reader), spec_u64_to_le_bytes(inline as u64) + rest, 0),
        call_ensures(SplitStreamReader::<R, ObjectID>::read_exact, (reader, actual_size, stored_size), r),
    ensures
        stored_size > inline ==> r == Err::<SplitStreamData<ObjectID>, Error>(Error::SmallInline) && stands_at(
            *final(reader),
            rest,
            inline as int,
        ),
        stored_size <= inline && stored_size > rest.len() ==> r == Err::<SplitStreamData<ObjectID>, Error>(
            Error::UnexpectedEof,
        ),
        stored_size <= inline && stored_size <= rest.len() ==> {
            &&& r matches Ok(SplitStreamData::Inline(data)) && data@ == rest.take(
                least(actual_size as int, stored_size as int),
            )
            &&& stands_at(*final(reader), rest.skip(stored_size as int), inline - stored_size)
        },
{
    size_comes_back(inline as nat, rest);
    let data = rest.take(stored_size as int);
    if stored_size <= rest.len() {
        assert(data.take(least(actual_size as int, stored_size as int)) =~= rest.take(
            least(actual_size as int, stored_size as int),
        ));
        assert(data =~= data.take(stored_size as int));
    }
}

/// At a reference, reading content that is stored without padding gives the object, and passes over
/// the reference alone.
pub proof fn object_read<R: ByteSource, ObjectID: FsVerityHashValue>(
    reader: &mut SplitStreamReader<R, ObjectID>,
    actual_size: usize,
    stored_size: usize,
    id: Seq<u8>,
    rest: Seq<u8>,
    r: Result<SplitStreamData<ObjectID>, Error>,
)
    requires
        id.len() == ObjectID::size(),
        stored_size <= actual_size,
        stands_at(*old(reader), spec_u64_to_le_bytes(0) + (id + rest), 0),
        call_ensures(SplitStreamReader::<R, ObjectID>::read_exact, (reader, actual_size, stored_size), r),
    ensures
        r matches Ok(SplitStreamData::External(object)) && object.bytes() == id,
        stands_at(*final(reader), rest, 0),
{
    size_comes_back(0, id + rest);
    assert((id + rest).take(id.len() as int) =~= id);
    assert((id + rest).skip(id.len() as int) =~= rest);
}

/// At a reference, reading content that is stored with padding gives the object, and passes over the
/// reference and as much of the inline fragment after it as there is padding.
pub proof fn padded_object_read<R: ByteSource, ObjectID: FsVerityHashValue>(
    reader: &mut SplitStreamReader<R, ObjectID>,
    actual_size: usize,
    stored_size: usize,
    id: Seq<u8>,
    inline: usize,
    rest: Seq<u8>,
    r: Result<SplitStreamData<ObjectID>, Error>,
)
    requires
        id.len() == ObjectID::size(),
        actual_size < stored_size <= actual_size + 512,
        inline > 0,
        stands_at(*old(reader), spec_u64_to_le_bytes(0) + (id + (spec_u64_to_le_bytes(inline as u64) + rest)), 0),
        call_ensures(SplitStreamReader::<R, ObjectID>::read_exact, (reader, actual_size, stored_size), r),
    ensures
        stored_size - actual_size > inline ==> r == Err::<SplitStreamData<ObjectID>, Error>(Error::SmallInline),
        stored_size - actual_size <= inline && stored_size - actual_size > rest.len() ==> r == Err::<
            SplitStreamData<ObjectID>,
            Error,
        >(Error::UnexpectedEof),
        stored_size - actual_size <= inline && stored_size - actual_size <= rest.len() ==> {
            &&& r matches Ok(SplitStreamData::External(object)) && object.bytes() == id
            &&& stands_at(*final(reader), rest.skip(stored_size - actual_size), inline - (stored_size - actual_size))
        },
{
    let next = spec_u64_to_le_bytes(inline as u64) + rest;
    size_comes_back(0, id + next);
    size_comes_back(inline as nat, rest);
    assert((id + next).take(id.len() as int) =~= id);
    assert((id + next).skip(id.len() as int) =~= next);
}

/// Where the stream ends, in front of a chunk or inside its start, no content can be read.
pub proof fn no_content_at_end<R: ByteSource, ObjectID: FsVerityHashValue>(
    reader: &mut SplitStreamReader<R, ObjectID>,
    actual_size: usize,
    stored_size: usize,
    rest: Seq<u8>,
    r: Result<SplitStreamData<ObjectID>, Error>,
)
    requires
        rest.len() < 8 || (rest.len() < 8 + ObjectID::size() && rest.take(8) == spec_u64_to_le_bytes(0)),
        stands_at(*old(reader), rest, 0),
        call_ensures(SplitStreamReader::<R, ObjectID>::read_exact, (reader, actual_size, stored_size), r),
    ensures
        r == Err::<SplitStreamData<ObjectID>, Error>(Error::UnexpectedEof),
{
    if rest.len() >= 8 {
        size_comes_back(0, rest.skip(8));
    }
}

/// Filling a buffer with inline content from inside a chunk: the next bytes, as many as the buffer
/// holds; fewer than those are an error that loses nothing.
pub proof fn buffer_filled_inside<R: ByteSource, ObjectID: FsVerityHashValue>(
    reader: &mut SplitStreamReader<R, ObjectID>,
    buffer: &mut Vec<u8>,
    rest: Seq<u8>,
    inline: usize,
    r: Result<bool, Error>,
)
    requires
        inline > 0,
        stands_at(*old(reader), rest, inline as int),
        call_ensures(SplitStreamReader::<R, ObjectID>::read_inline_exact, (reader, buffer), r),
    ensures
        old(buffer)@.len() > inline ==> {
            &&& r == Err::<bool, Error>(Error::SmallInline)
            &&& final(buffer)@ == old(buffer)@
            &&& stands_at(*final(reader), rest, inline as int)
        },
        old(buffer)@.len() <= inline && old(buffer)@.len() > rest.len() ==> r == Err::<bool, Error>(
            Error::UnexpectedEof,
        ),
        old(buffer)@.len() <= inline && old(buffer)@.len() <= rest.len() ==> {
            &&& r == Ok::<bool, Error>(true)
            &&& final(buffer)@ == rest.take(old(buffer)@.len() as int)
            &&& stands_at(*final(reader), rest.skip(old(buffer)@.len() as int), inline - old(buffer)@.len())
        },
{
}

/// Filling a buffer with inline content at the start of an inline fragment.
pub proof fn buffer_filled_from_fragment<R: ByteSource, ObjectID: FsVerityHashValue>(
    reader: &mut SplitStreamReader<R, ObjectID>,
    buffer: &mut Vec<u8>,
    rest: Seq<u8>,
    inline: usize,
    r: Result<bool, Error>,
)
    requires
        inline > 0,
        stands_at(*old(reader), spec_u64_to_le_bytes(inline as u64) + rest, 0),
        call_ensures(SplitStreamReader::<R, ObjectID>::read_inline_exact, (reader, buffer), r),
    ensures
        old(buffer)@.len() > inline ==> {
            &&& r == Err::<bool, Error>(Error::SmallInline)
            &&& final(buffer)@ == old(buffer)@
            &&& stands_at(*final(reader), rest, inline as int)
        },
        old(buffer)@.len() <= inline && old(buffer)@.len() > rest.len() ==> r == Err::<bool, Error>(
            Error::UnexpectedEof,
        ),
        old(buffer)@.len() <= inline && old(buffer)@.len() <= rest.len() ==> {
            &&& r == Ok::<bool, Error>(true)
            &&& final(buffer)@ == rest.take(old(buffer)@.len() as int)
            &&& stands_at(*final(reader), rest.skip(old(buffer)@.len() as int), inline - old(buffer)@.len())
        },
{
    size_comes_back(inline as nat, rest);
}

/// Where there is no inline content a buffer is left as it is: at the end, which is no error, at a
/// reference, and where the stream ends inside a size.
pub proof fn buffer_not_filled<R: ByteSource, ObjectID: FsVerityHashValue>(
    reader: &mut SplitStreamReader<R, ObjectID>,
    buffer: &mut Vec<u8>,
    rest: Seq<u8>,
    r: Result<bool, Error>,
)
    requires
        rest.len() < 8 || rest.take(8) == spec_u64_to_le_bytes(0),
        stands_at(*old(reader), rest, 0),
        call_ensures(SplitStreamReader::<R, ObjectID>::read_inline_exact, (reader, buffer), r),
    ensures
        final(buffer)@ == old(buffer)@,
        rest.len() == 0 ==> r == Ok::<bool, Error>(false) && stands_at(*final(reader), rest, 0),
        0 < rest.len() < 8 ==> r == Err::<bool, Error>(Error::UnexpectedEof),
        rest.len() >= 8 ==> r == Err::<bool, Error>(Error::UnexpectedReference) && stands_at(
            *final(reader),
            rest.skip(8),
            0,
        ),
{
    if rest.len() >= 8 {
        size_comes_back(0, rest.skip(8));
    } else if rest.len() == 0 {
        assert(rest =~= Seq::<u8>::empty());
    }
}

/// Reading some inline content from inside a chunk: as much as there is room for, but no more than
/// is left of the chunk, and the room that is left over stays as it is.
pub proof fn some_read_inside<R: ByteSource, ObjectID: FsVerityHashValue>(
    reader: &mut SplitStreamReader<R, ObjectID>,
    data: &mut Vec<u8>,
    rest: Seq<u8>,
    inline: usize,
    r: Result<usize, Error>,
)
    requires
        inline > 0,
        stands_at(*old(reader), rest, inline as int),
        call_ensures(SplitStreamReader::<R, ObjectID>::read, (reader, data), r),
    ensures
        ({
            let n = least(old(data)@.len() as int, inline as int);
            if n > rest.len() {
                r == Err::<usize, Error>(Error::UnexpectedEof)
            } else {
                &&& r == Ok::<usize, Error>(n as usize)
                &&& final(data)@ == rest.take(n) + old(data)@.skip(n)
                &&& stands_at(*final(reader), rest.skip(n), inline - n)
            }
        }),
{
}

/// Reading some inline content at the start of an inline fragment.
pub proof fn some_read_from_fragment<R: ByteSource, ObjectID: FsVerityHashValue>(
    reader: &mut SplitStreamReader<R, ObjectID>,
    data: &mut Vec<u8>,
    rest: Seq<u8>,
    inline: usize,
    r: Result<usize, Error>,
)
    requires
        inline > 0,
        stands_at(*old(reader), spec_u64_to_le_bytes(inline as u64) + rest, 0),
        call_ensures(SplitStreamReader::<R, ObjectID>::read, (reader, data), r),
    ensures
        ({
            let n = least(old(data)@.len() as int, inline as int);
            if n > rest.len() {
                r == Err::<usize, Error>(Error::UnexpectedEof)
            } else {
                &&& r == Ok::<usize, Error>(n as usize)
                &&& final(data)@ == rest.take(n) + old(data)@.skip(n)
                &&& stands_at(*final(reader), rest.skip(n), inline - n)
            }
        }),
{
    size_comes_back(inline as nat, rest);
}

/// Where there is no inline content none is read: at the end, at a reference, and where the stream
/// ends inside a size.
pub proof fn none_read<R: ByteSource, ObjectID: FsVerityHashValue>(
    reader: &mut SplitStreamReader<R, ObjectID>,
    data: &mut Vec<u8>,
    rest: Seq<u8>,
    r: Result<usize, Error>,
)
    requires
        rest.len() < 8 || rest.take(8) == spec_u64_to_le_bytes(0),
        stands_at(*old(reader), rest, 0),
        call_ensures(SplitStreamReader::<R, ObjectID>::read, (reader, data), r),
    ensures
        rest.len() == 0 ==> r == Ok::<usize, Error>(0) && final(data)@ == old(data)@,
        0 < rest.len() < 8 ==> r == Err::<usize, Error>(Error::UnexpectedEof),
        rest.len() >= 8 ==> r == Err::<usize, Error>(Error::UnexpectedReference),
{
    if rest.len() >= 8 {
        size_comes_back(0, rest.skip(8));
    }
}

/// Opening a stream takes the number of map entries and the entries from its start, each a digest of
/// 32 bytes and an identifier, and nothing else. It fails only where the stream is too short for
/// them.
pub proof fn stream_opened<ObjectID: FsVerityHashValue>(
    data: Vec<u8>,
    stream: Seq<u8>,
    r: Result<SplitStreamReader<ZstdDecoder, ObjectID>, Error>,
)
    requires
        decompressed(data@) == Some(stream),
        call_ensures(SplitStreamReader::<ZstdDecoder, ObjectID>::new, (data,), r),
    ensures
        ({
            let n = spec_u64_from_le_bytes(stream.take(8)) as usize;
            let each = 32 + ObjectID::size();
            if stream.len() < 8 || stream.len() < 8 + n * each {
                r matches Err(e) && e == Error::UnexpectedEof
            } else {
                &&& r matches Ok(reader)
                &&& stands_at(reader, stream.skip(8 + n * each), 0)
                &&& reader.refs.map@.len() == n
                &&& forall|i: int|
                    0 <= i < n ==> (#[trigger] reader.refs.map@[i]).body@ == stream.subrange(
                        8 + i * each,
                        8 + i * each + 32,
                    ) && reader.refs.map@[i].verity.bytes() == stream.subrange(8 + i * each + 32, 8 + i * each + each)
            }
        }),
{
    let n = spec_u64_from_le_bytes(stream.take(8)) as usize;
    let each = (32 + ObjectID::size()) as int;
    if let Ok(reader) = r {
        let entries = reader.map_entries();
        assert(header_at(stream, ObjectID::size()) is Ok);
        assert(entries.len() == n);
        assert(reader.refs.map@.len() == n);
        assert forall|i: int| 0 <= i < n implies (#[trigger] reader.refs.map@[i]).body@ == stream.subrange(
            8 + i * each,
            8 + i * each + 32,
        ) && reader.refs.map@[i].verity.bytes() == stream.subrange(8 + i * each + 32, 8 + i * each + each) by {
            assert(entries[i] == (reader.refs.map@[i].body@, reader.refs.map@[i].verity.bytes()));
            assert(0 <= i * each && i * each + each <= n * each) by (nonlinear_arith)
                requires
                    0 <= i < n,
                    each >= 0,
            ;
            assert(stream.skip(8).subrange(i * each, i * each + 32) =~= stream.subrange(
                8 + i * each,
                8 + i * each + 32,
            ));
            assert(stream.skip(8).subrange(i * each + 32, i * each + each) =~= stream.subrange(
                8 + i * each + 32,
                8 + i * each + each,
            ));
        }
    }
}

/// A content hash is looked up in the digest map of a stream, where that is in order, as the identifier
/// of the entry with it; it is an error where there is none.
pub proof fn reference_looked_up<R: ByteSource, ObjectID: FsVerityHashValue>(
    reader: &SplitStreamReader<R, ObjectID>,
    body: &Sha256Digest,
    r: Result<&ObjectID, Error>,
)
    requires
        reader.refs.wf(),
        call_ensures(SplitStreamReader::<R, ObjectID>::lookup, (reader, body), r),
    ensures
        match r {
            Ok(id) => exists|i: int|
                0 <= i < reader.refs.map@.len() && (#[trigger] reader.refs.map@[i]).body@ == body@
                    && reader.refs.map@[i].verity.bytes() == id.bytes(),
            Err(e) => e == Error::ReferenceNotFound && forall|i: int|
                0 <= i < reader.refs.map@.len() ==> (#[trigger] reader.refs.map@[i]).body@ != body@,
        },
{
    let s = reader.refs.entries();
    found_where_it_stands(s, body@);
    match r {
        Ok(id) => {
            let i = choose|i: int| 0 <= i < s.len() && s[i] == (body@, id.bytes());
            assert(reader.refs.map@[i].body@ == body@);
        },
        Err(_) => {
            assert forall|i: int| 0 <= i < reader.refs.map@.len() implies (#[trigger] reader.refs.map@[i]).body@
                != body@ by {
                assert(s[i].0 == reader.refs.map@[i].body@);
            }
        },
    }
}

/// The content hashes of the digest map are given in order, all of them.
pub proof fn hashes_are_given<R: ByteSource, ObjectID: FsVerityHashValue>(
    reader: &SplitStreamReader<R, ObjectID>,
    r: Vec<Sha256Digest>,
)
    requires
        call_ensures(SplitStreamReader::<R, ObjectID>::get_stream_refs, (reader,), r),
    ensures
        r@.len() == reader.refs.map@.len(),
        forall|i: int| 0 <= i < r@.len() ==> (#[trigger] r@[i])@ == reader.refs.map@[i].body@,
{
    assert forall|i: int| 0 <= i < r@.len() implies (#[trigger] r@[i])@ == reader.refs.map@[i].body@ by {
        assert(reader.map_entries()[i].0 == reader.refs.map@[i].body@);
    }
}

/// The entries of the digest map are given by their index, and counted.
pub proof fn entries_are_given<R: ByteSource, ObjectID: FsVerityHashValue>(
    reader: &SplitStreamReader<R, ObjectID>,
    i: usize,
    count: usize,
    r: &DigestMapEntry<ObjectID>,
)
    requires
        i < reader.refs.map@.len(),
        call_ensures(SplitStreamReader::<R, ObjectID>::entry_count, (reader,), count),
        call_ensures(SplitStreamReader::<R, ObjectID>::entry, (reader, i), r),
    ensures
        count == reader.refs.map@.len(),
        r.body@ == reader.refs.map@[i as int].body@,
        r.verity.bytes() == reader.refs.map@[i as int].verity.bytes(),
{
    assert(reader.map_entries()[i as int] == (
        reader.refs.map@[i as int].body@,
        reader.refs.map@[i as int].verity.bytes(),
    ));
}

/// The same of a stream from any source.
pub proof fn source_opened<R: ByteSource, ObjectID: FsVerityHashValue>(
    source: R,
    stream: Seq<u8>,
    r: Result<SplitStreamReader<R, ObjectID>, Error>,
)
    requires
        source.rest() == Some(stream),
        call_ensures(SplitStreamReader::<R, ObjectID>::from_decoder, (source,), r),
    ensures
        match header_at(stream, ObjectID::size()) {
            Ok((entries, rest)) => r matches Ok(reader) && stands_at(reader, rest, 0) && reader.refs.map@.len()
                == entries.len() && forall|i: int|
                0 <= i < entries.len() ==> (#[trigger] entries[i]) == (
                    reader.refs.map@[i].body@,
                    reader.refs.map@[i].verity.bytes(),
                ),
            Err(_) => r matches Err(e) && e == Error::UnexpectedEof,
        },
{
    if let Ok(reader) = r {
        assert(reader.map_entries().len() == reader.refs.map@.len());
        assert forall|i: int| 0 <= i < reader.map_entries().len() implies #[trigger] reader.map_entries()[i] == (
            reader.refs.map@[i].body@,
            reader.refs.map@[i].verity.bytes(),
        ) by {}
    }
}

/// At a reference, reading content that is stored with padding fails where no padding follows: at the
/// end, and at another reference.
pub proof fn unpadded_object_refused<R: ByteSource, ObjectID: FsVerityHashValue>(
    reader: &mut SplitStreamReader<R, ObjectID>,
    actual_size: usize,
    stored_size: usize,
    id: Seq<u8>,
    rest: Seq<u8>,
    r: Result<SplitStreamData<ObjectID>, Error>,
)
    requires
        id.len() == ObjectID::size(),
        actual_size < stored_size <= actual_size + 512,
        rest.len() < 8 || rest.take(8) == spec_u64_to_le_bytes(0),
        stands_at(*old(reader), spec_u64_to_le_bytes(0) + (id + rest), 0),
        call_ensures(SplitStreamReader::<R, ObjectID>::read_exact, (reader, actual_size, stored_size), r),
    ensures
        r == Err::<SplitStreamData<ObjectID>, Error>(
            if rest.len() < 8 {
                Error::UnexpectedEof
            } else {
                Error::UnexpectedReference
            },
        ),
{
    size_comes_back(0, id + rest);
    assert((id + rest).take(id.len() as int) =~= id);
    assert((id + rest).skip(id.len() as int) =~= rest);
    if rest.len() >= 8 {
        size_comes_back(0, rest.skip(8));
    }
}

} // verus!
