//! Reading from sources, and what zstd gives back.

use vstd::prelude::*;
use vstd::bytes::spec_u64_from_le_bytes;
use crate::compress::{decompressed, ZstdDecoder, ZstdEncoder};
use crate::error::Error;
use crate::hash::absorbed;
use crate::io::{read_exact, read_exactish, read_into_vec, read_u64_le, ByteSink, ByteSource, Cursor};

verus! {

/// Filling a buffer takes the next bytes, as many as it holds, and no more of the source; it fails
/// where there are fewer.
pub proof fn buffer_filled<R: ByteSource>(reader: &mut R, buf: &mut Vec<u8>, rest: Seq<u8>, r: Result<(), Error>)
    requires
        old(reader).rest() == Some(rest),
        call_ensures(read_exact::<R>, (reader, buf), r),
    ensures
        r is Ok <==> old(buf)@.len() <= rest.len(),
        r matches Err(e) ==> e == Error::UnexpectedEof,
        r is Ok ==> final(buf)@ == rest.take(old(buf)@.len() as int) && final(reader).rest() == Some(
            rest.skip(old(buf)@.len() as int),
        ),
{
}

/// The same, but that it is no error where nothing at all is left.
pub proof fn buffer_filled_or_end<R: ByteSource>(
    reader: &mut R,
    buf: &mut Vec<u8>,
    rest: Seq<u8>,
    r: Result<bool, Error>,
)
    requires
        old(reader).rest() == Some(rest),
        call_ensures(read_exactish::<R>, (reader, buf), r),
    ensures
        r == Ok::<bool, Error>(true) <==> old(buf)@.len() <= rest.len(),
        r == Ok::<bool, Error>(false) <==> rest.len() == 0 && old(buf)@.len() > 0,
        r matches Err(e) ==> e == Error::UnexpectedEof,
        r == Ok::<bool, Error>(true) ==> final(buf)@ == rest.take(old(buf)@.len() as int) && final(reader).rest()
            == Some(rest.skip(old(buf)@.len() as int)),
{
}

/// Reading so many bytes gives them in place of what the vector held, and takes no more of the source;
/// where there are fewer it fails, and zeros stand in their place.
pub proof fn vector_filled<R: ByteSource>(
    reader: &mut R,
    vec: &mut Vec<u8>,
    size: usize,
    rest: Seq<u8>,
    r: Result<(), Error>,
)
    requires
        old(reader).rest() == Some(rest),
        call_ensures(read_into_vec::<R>, (reader, vec, size), r),
    ensures
        final(vec)@.len() == size,
        r is Ok <==> size <= rest.len(),
        r matches Err(e) ==> e == Error::UnexpectedEof,
        r is Ok ==> final(vec)@ == rest.take(size as int) && final(reader).rest() == Some(rest.skip(size as int)),
        r is Err ==> final(vec)@.take(rest.len() as int) == rest && forall|i: int|
            rest.len() <= i < size ==> #[trigger] final(vec)@[i] == 0,
{
    if r is Err {
        assert(final(vec)@.take(rest.len() as int) =~= rest);
    }
}

/// A size is eight bytes, the lowest first. At the end there is none.
pub proof fn size_is_read<R: ByteSource>(reader: &mut R, rest: Seq<u8>, r: Result<Option<usize>, Error>)
    requires
        old(reader).rest() == Some(rest),
        call_ensures(read_u64_le::<R>, (reader,), r),
    ensures
        rest.len() >= 8 ==> r == Ok::<Option<usize>, Error>(Some(spec_u64_from_le_bytes(rest.take(8)) as usize))
            && final(reader).rest() == Some(rest.skip(8)),
        0 < rest.len() < 8 ==> r == Err::<Option<usize>, Error>(Error::UnexpectedEof),
        rest.len() == 0 ==> r == Ok::<Option<usize>, Error>(None),
{
}

/// Bytes in memory are read from the first to the last.
pub proof fn memory_is_read(data: Vec<u8>, cursor: Cursor)
    requires
        call_ensures(Cursor::new, (data,), cursor),
    ensures
        cursor.rest() == Some(data@),
{
}

/// What is compressed decompresses to what was written, all of it.
pub proof fn compressed_and_back(encoder: ZstdEncoder, z: Vec<u8>, decoder: ZstdDecoder)
    requires
        call_ensures(ZstdEncoder::finish, (encoder,), z),
        call_ensures(ZstdDecoder::new, (z,), decoder),
    ensures
        decoder.rest() == Some(encoder.written()),
        decompressed(z@) == Some(encoder.written()),
{
}

/// Nothing was written to a new stream.
pub proof fn nothing_written(encoder: ZstdEncoder)
    requires
        call_ensures(ZstdEncoder::new, (), encoder),
    ensures
        encoder.written().len() == 0,
{
}

/// Writing to a compressed stream, a vector or a digest adds all of the data to what was written.
pub proof fn all_is_written<W: ByteSink>(sink: &mut W, data: &[u8], r: Result<(), Error>)
    requires
        old(sink).reliable(),
        call_ensures(W::write_all, (sink, data), r),
    ensures
        r is Ok,
        final(sink).written() == old(sink).written() + data@,
{
}

/// What was written to a vector is what it holds, and to a digest what it was given.
pub proof fn sinks_hold_what_was_written(vec: Vec<u8>, hasher: sha2::Sha256)
    ensures
        vec.written() == vec@,
        vec.reliable(),
        hasher.written() == absorbed(hasher),
        hasher.reliable(),
{
}

} // verus!
