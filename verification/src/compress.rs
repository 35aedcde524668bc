//! The zstd compression that split streams are stored under.

use vstd::prelude::*;
use std::io::{BufReader, Read, Write};
use zstd::stream::raw;
use zstd::stream::read::Decoder;
use zstd::stream::zio;
use crate::error::Error;
use crate::io::{ByteSink, ByteSource, Cursor};

verus! {

/// An error of the standard library's input and output.
#[verifier::external_type_specification]
#[verifier::external_body]
pub struct ExIoError(std::io::Error);

/// The writer of a zstd stream.
#[verifier::external_type_specification]
#[verifier::external_body]
#[verifier::reject_recursive_types(W)]
#[verifier::reject_recursive_types(D)]
pub struct ExWriter<W, D>(zio::Writer<W, D>);

/// The compression that a zstd stream is written by.
#[verifier::external_type_specification]
#[verifier::external_body]
pub struct ExRawEncoder<'a>(raw::Encoder<'a>);

/// The reader of a zstd stream.
#[verifier::external_type_specification]
#[verifier::external_body]
#[verifier::reject_recursive_types(R)]
pub struct ExDecoder<'a, R>(Decoder<'a, R>);

/// A buffered reader.
#[verifier::external_type_specification]
#[verifier::external_body]
#[verifier::reject_recursive_types(R)]
pub struct ExBufReader<R: ?Sized>(BufReader<R>);

/// Bytes in memory as a reader.
#[verifier::external_type_specification]
#[verifier::external_body]
#[verifier::reject_recursive_types(T)]
pub struct ExStdCursor<T>(std::io::Cursor<T>);

/// How many bytes are asked of a zstd stream at a time. A frame that the room for a read can hold is
/// decompressed at once, whatever window it asks for, where a longer one is held to a limit: what a
/// stream gives rests on the room too, so there is one size of it. It is that of the number which a
/// split stream starts with: a frame that holds more than that is always held to the limit.
pub const READ_SIZE: usize = 8;

/// What reading the zstd frames in `data` gives, one after the other, `READ_SIZE` bytes at a time:
/// all bytes up to the first read that gives nothing, or, as an error, those up to the first read
/// that fails because the data is damaged or cut off.
pub uninterp spec fn zstd_decoded(data: Seq<u8>) -> Result<Seq<u8>, Seq<u8>>;

/// What `data` decompresses to, where it is neither damaged nor cut off.
pub open spec fn decompressed(data: Seq<u8>) -> Option<Seq<u8>> {
    match zstd_decoded(data) {
        Ok(all) => Some(all),
        Err(_) => None,
    }
}

/// The bytes that were written to a zstd stream so far; `None` once it was finished, or has failed,
/// and takes no more.
pub uninterp spec fn encoder_input(encoder: zio::Writer<Vec<u8>, raw::Encoder<'static>>) -> Option<Seq<u8>>;

/// What a zstd stream has still to give, `READ_SIZE` bytes at a time: all bytes up to the first read
/// that gives nothing, or, as an error, those up to the first read that fails.
pub uninterp spec fn decoder_rest(decoder: Decoder<'static, BufReader<std::io::Cursor<Vec<u8>>>>) -> Result<
    Seq<u8>,
    Seq<u8>,
>;

/// The bytes that are given, whether reading ends well or not.
pub open spec fn given(rest: Result<Seq<u8>, Seq<u8>>) -> Seq<u8> {
    match rest {
        Ok(all) => all,
        Err(part) => part,
    }
}

/// What is left after the first `n` bytes. Reading ends as before.
pub open spec fn given_after(rest: Result<Seq<u8>, Seq<u8>>, n: int) -> Result<Seq<u8>, Seq<u8>> {
    match rest {
        Ok(all) => Ok(all.skip(n)),
        Err(part) => Err(part.skip(n)),
    }
}

/// Calls `zstd::stream::zio::Writer::new` around `zstd::stream::raw::Encoder::new` with the
/// default level: what `zstd::stream::write::Encoder::new` consists of. Nothing was written to a
/// new stream. It fails only for lack of memory, and memory is supposed to be there, as with every
/// allocation.
#[verifier::external_body]
fn encoder_new() -> (r: Result<zio::Writer<Vec<u8>, raw::Encoder<'static>>, std::io::Error>)
    ensures
        r is Ok,
        r matches Ok(e) ==> encoder_input(e) == Some(Seq::<u8>::empty()),
{
    Ok(zio::Writer::new(Vec::new(), raw::Encoder::new(0)?))
}

/// Calls `std::io::Write::write_all` on a zstd stream, which takes all of `data` after what was
/// written before. A stream that was finished is left out. What the stream writes to is a vector, so
/// it fails only for lack of memory, which is supposed to be there. It does not panic.
#[verifier::external_body]
fn encoder_write(encoder: &mut zio::Writer<Vec<u8>, raw::Encoder<'static>>, data: &[u8]) -> (r: Result<
    (),
    std::io::Error,
>)
    requires
        encoder_input(*old(encoder)) is Some,
    ensures
        r is Ok,
        encoder_input(*final(encoder)) == Some(encoder_input(*old(encoder))->0 + data@),
    no_unwind
{
    encoder.write_all(data)
}

/// Calls `zstd::stream::zio::Writer::finish`, which ends the frame: the compressed bytes then
/// decompress to what was written. It fails only for lack of memory, which is supposed to be there.
#[verifier::external_body]
fn encoder_finish(mut encoder: zio::Writer<Vec<u8>, raw::Encoder<'static>>) -> (r: Result<Vec<u8>, std::io::Error>)
    requires
        encoder_input(encoder) is Some,
    ensures
        r is Ok,
        r matches Ok(z) ==> decompressed(z@) == encoder_input(encoder),
{
    encoder.finish()?;
    Ok(encoder.into_inner().0)
}

/// Calls `zstd::stream::read::Decoder::new`, which starts at the beginning of `data` and reads
/// nothing yet. It fails only for lack of memory, which is supposed to be there.
#[verifier::external_body]
fn decoder_new(data: Vec<u8>) -> (r: Result<Decoder<'static, BufReader<std::io::Cursor<Vec<u8>>>>, std::io::Error>)
    ensures
        r is Ok,
        r matches Ok(d) ==> decoder_rest(d) == zstd_decoded(data@),
{
    Decoder::new(std::io::Cursor::new(data))
}

/// Calls `std::io::Read::read` on a zstd stream with a buffer of `READ_SIZE` bytes, which puts the
/// next bytes of the stream at the start of `buf`. It gives none only where none is left, and fails
/// only where none is left either and the data is damaged or cut off there. What the buffer holds
/// after the bytes that were read, and what the stream gives after a failure, is not said. As with
/// every allocation, the memory that decompressing takes is supposed to be there.
#[verifier::external_body]
fn decoder_read(
    decoder: &mut Decoder<'static, BufReader<std::io::Cursor<Vec<u8>>>>,
    buf: &mut Vec<u8>,
) -> (r: Result<usize, std::io::Error>)
    requires
        old(buf)@.len() == READ_SIZE,
    ensures
        final(buf)@.len() == old(buf)@.len(),
        match r {
            Ok(n) => {
                let bytes = given(decoder_rest(*old(decoder)));
                &&& n <= READ_SIZE
                &&& n <= bytes.len()
                &&& (n == 0 ==> decoder_rest(*old(decoder)) == Ok::<Seq<u8>, Seq<u8>>(Seq::empty()))
                &&& final(buf)@.take(n as int) == bytes.take(n as int)
                &&& decoder_rest(*final(decoder)) == given_after(decoder_rest(*old(decoder)), n as int)
            },
            Err(_) => decoder_rest(*old(decoder)) == Err::<Seq<u8>, Seq<u8>>(Seq::empty()),
        },
{
    decoder.read(buf)
}

/// A sink that compresses what is written to it.
pub struct ZstdEncoder {
    encoder: zio::Writer<Vec<u8>, raw::Encoder<'static>>,
}

impl ZstdEncoder {
    /// The stream was not finished.
    #[verifier::type_invariant]
    closed spec fn open(self) -> bool {
        encoder_input(self.encoder) is Some
    }

    /// A sink that nothing was written to.
    pub fn new() -> (r: Self)
        ensures
            r.written() == Seq::<u8>::empty(),
            r.reliable(),
    {
        ZstdEncoder { encoder: encoder_new().unwrap() }
    }

    /// The compressed bytes of all that was written.
    pub fn finish(self) -> (r: Vec<u8>)
        ensures
            decompressed(r@) == Some(self.written()),
    {
        proof {
            use_type_invariant(&self);
        }
        encoder_finish(self.encoder).unwrap()
    }
}

impl ByteSink for ZstdEncoder {
    closed spec fn written(&self) -> Seq<u8> {
        encoder_input(self.encoder)->0
    }

    open spec fn reliable(&self) -> bool {
        true
    }

    fn write_all(&mut self, data: &[u8]) -> (r: Result<(), Error>) {
        proof {
            use_type_invariant(&*self);
        }
        match encoder_write(&mut self.encoder, data) {
            Ok(_) => Ok(()),
            Err(_) => Err(Error::Io),
        }
    }
}

/// A source that decompresses bytes in memory.
pub struct ZstdDecoder {
    decoder: Decoder<'static, BufReader<std::io::Cursor<Vec<u8>>>>,
    ready: Cursor,
    failed: Ghost<bool>,
}

impl ZstdDecoder {
    /// A source at the beginning of what `data` decompresses to.
    pub fn new(data: Vec<u8>) -> (r: Self)
        ensures
            r.rest() == decompressed(data@),
            !r.failed(),
    {
        let r = ZstdDecoder {
            decoder: decoder_new(data).unwrap(),
            ready: Cursor::new(Vec::new()),
            failed: Ghost(false),
        };
        assert(r.left() =~= given(decoder_rest(r.decoder)));
        r
    }

    /// The bytes that it hands out, whether that ends well or not: those that were decompressed
    /// before, and those that are not yet.
    closed spec fn left(&self) -> Seq<u8> {
        self.ready.rest()->0 + given(decoder_rest(self.decoder))
    }

    /// Makes sure that bytes are ready to be handed out, and says whether there are any.
    fn refill(&mut self) -> (r: Result<bool, Error>)
        ensures
            match r {
                Ok(more) => {
                    &&& final(self).left() == old(self).left()
                    &&& final(self).rest() is Some == old(self).rest() is Some
                    &&& final(self).failed() == old(self).failed()
                    &&& if more {
                        final(self).ready.rest()->0.len() > 0
                    } else {
                        old(self).rest() is Some && old(self).left().len() == 0
                    }
                },
                Err(e) => e == Error::Io && final(self).failed() && old(self).rest() is None,
            },
    {
        if self.ready.pos < self.ready.data.len() {
            return Ok(true);
        }
        let ghost before = decoder_rest(self.decoder);
        let ghost bytes = given(before);
        assert(self.left() =~= bytes);
        self.ready.data.resize(READ_SIZE, 0u8);
        self.ready.pos = 0;
        match decoder_read(&mut self.decoder, &mut self.ready.data) {
            Ok(n) => {
                self.ready.data.truncate(n);
                assert(self.ready.rest()->0 =~= bytes.take(n as int));
                assert(given(decoder_rest(self.decoder)) =~= bytes.skip(n as int));
                assert(self.left() =~= bytes);
                Ok(n > 0)
            },
            Err(_) => {
                self.ready.data.clear();
                proof {
                    self.failed@ = true;
                }
                Err(Error::Io)
            },
        }
    }
}

/// Bytes of `from` that were put into a buffer from `start` on, and the next ones after them.
proof fn next_copied(prev: Seq<u8>, next: Seq<u8>, start: int, done: int, n: int, from: Seq<u8>)
    requires
        0 <= start,
        0 <= done,
        0 <= n,
        start + done + n <= next.len(),
        prev.len() == next.len(),
        done + n <= from.len(),
        next.take(start + done) == prev.take(start + done),
        prev.subrange(start, start + done) == from.take(done),
        next.subrange(start + done, start + done + n) == from.skip(done).take(n),
    ensures
        next.take(start) == prev.take(start),
        next.subrange(start, start + done + n) == from.take(done + n),
        from.skip(done).skip(n) == from.skip(done + n),
{
    let at = start + done;
    assert(next.take(start) =~= next.take(at).take(start));
    assert(prev.take(start) =~= prev.take(at).take(start));
    assert(next.subrange(start, at) =~= next.take(at).skip(start));
    assert(prev.subrange(start, at) =~= prev.take(at).skip(start));
    assert(next.subrange(start, at + n) =~= next.subrange(start, at) + next.subrange(at, at + n));
    assert(from.take(done + n) =~= from.take(done) + from.skip(done).take(n));
    assert(from.skip(done).skip(n) =~= from.skip(done + n));
}

impl ByteSource for ZstdDecoder {
    closed spec fn rest(&self) -> Option<Seq<u8>> {
        match decoder_rest(self.decoder) {
            Ok(_) => Some(self.left()),
            Err(_) => None,
        }
    }

    closed spec fn bound(&self) -> nat {
        self.left().len()
    }

    closed spec fn failed(&self) -> bool {
        self.failed@
    }

    fn read_some(&mut self, buf: &mut Vec<u8>, start: usize) -> (r: Result<usize, Error>) {
        let ghost from = self.left();
        let room: usize = buf.len() - start;
        let mut done: usize = 0;
        assert(from.skip(0) =~= from);
        assert(buf@.subrange(start as int, start as int) =~= from.take(0));
        while done < room
            invariant
                buf@.len() == old(buf)@.len(),
                start + room == buf@.len() <= usize::MAX,
                done <= room,
                buf@.take(start as int) == old(buf)@.take(start as int),
                self.failed() == old(self).failed(),
                self.rest() is Some == old(self).rest() is Some,
                from == old(self).left(),
                done <= from.len(),
                self.left() == from.skip(done as int),
                buf@.subrange(start as int, start + done) == from.take(done as int),
            decreases room - done,
        {
            match self.refill() {
                Ok(more) => {
                    if !more {
                        return Ok(done);
                    }
                },
                Err(e) => {
                    return Err(e);
                },
            }
            let ghost ready = self.ready.rest()->0;
            let ghost later = given(decoder_rest(self.decoder));
            let ghost prev = buf@;
            match self.ready.read_some(buf, start + done) {
                Ok(n) => {
                    proof {
                        assert(ready.take(n as int) =~= (ready + later).take(n as int));
                        assert(ready.skip(n as int) + later =~= (ready + later).skip(n as int));
                        next_copied(prev, buf@, start as int, done as int, n as int, from);
                    }
                    done = done + n;
                },
                Err(e) => {
                    return Err(e);
                },
            }
        }
        Ok(done)
    }
}

} // verus!
