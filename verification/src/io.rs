//! Where bytes are read from and written to.

use vstd::prelude::*;
use vstd::bytes::{spec_u64_from_le_bytes, u64_from_le_bytes};
use crate::bytestr::append;
use crate::error::Error;

verus! {

/// Something that bytes are read from, in order.
pub trait ByteSource: Sized {
    /// The bytes that are still to come. `None` where that is not known: what a source reads
    /// from may be damaged, and nothing is said of what it hands out then.
    spec fn rest(&self) -> Option<Seq<u8>>;

    /// A number of bytes that it hands out no more than.
    spec fn bound(&self) -> nat;

    /// A read from it has failed.
    spec fn failed(&self) -> bool;

    /// Reads some bytes into `buf`, from `start` on, and says how many: none only where there is
    /// no room or nothing is left. A source that comes to its end without a failure was known all
    /// along.
    fn read_some(&mut self, buf: &mut Vec<u8>, start: usize) -> (r: Result<usize, Error>)
        requires
            start <= old(buf)@.len(),
        ensures
            final(buf)@.len() == old(buf)@.len(),
            final(buf)@.take(start as int) == old(buf)@.take(start as int),
            match r {
                Ok(n) => start + n <= old(buf)@.len() && final(self).bound() + n <= old(self).bound(),
                Err(e) => e == Error::Io,
            },
            final(self).failed() == (old(self).failed() || r is Err),
            r matches Ok(n) ==> ((n == 0 && start < old(buf)@.len()) || final(self).rest() is Some ==> old(
                self,
            ).rest() is Some),
            old(self).rest() matches Some(rest) ==> {
                &&& r matches Ok(n)
                &&& n <= rest.len()
                &&& (n == 0 ==> rest.len() == 0 || start == old(buf)@.len())
                &&& final(buf)@.subrange(start as int, start + n) == rest.take(n as int)
                &&& final(self).rest() == Some(rest.skip(n as int))
            },
    ;
}

/// Something that bytes are written to, in order.
pub trait ByteSink: Sized {
    /// The bytes that were written so far.
    spec fn written(&self) -> Seq<u8>;

    /// Writing to it does not fail.
    spec fn reliable(&self) -> bool;

    /// Writes all of `data`.
    fn write_all(&mut self, data: &[u8]) -> (r: Result<(), Error>)
        ensures
            match r {
                Ok(_) => final(self).written() == old(self).written() + data@,
                Err(e) => e == Error::Io,
            },
            old(self).reliable() ==> r is Ok && final(self).reliable(),
    ;
}

/// Bytes in memory that are read from the start.
pub struct Cursor {
    /// The bytes.
    pub data: Vec<u8>,
    /// How many of them were read.
    pub pos: usize,
}

impl Cursor {
    /// A cursor at the start of `data`.
    pub fn new(data: Vec<u8>) -> (r: Self)
        ensures
            r.rest() == Some(data@),
            !r.failed(),
    {
        let r = Cursor { data, pos: 0 };
        assert(r.data@.skip(0) =~= data@);
        r
    }
}

impl ByteSource for Cursor {
    open spec fn rest(&self) -> Option<Seq<u8>> {
        if self.pos <= self.data@.len() {
            Some(self.data@.skip(self.pos as int))
        } else {
            Some(Seq::empty())
        }
    }

    open spec fn bound(&self) -> nat {
        self.rest()->0.len()
    }

    open spec fn failed(&self) -> bool {
        false
    }

    fn read_some(&mut self, buf: &mut Vec<u8>, start: usize) -> (r: Result<usize, Error>) {
        let ghost rest = self.rest()->0;
        let ghost before = buf@;
        if self.pos >= self.data.len() {
            assert(rest =~= Seq::<u8>::empty());
            assert(rest.skip(0) =~= rest);
            assert(buf@.subrange(start as int, start as int) =~= rest.take(0));
            return Ok(0);
        }
        let left: usize = self.data.len() - self.pos;
        let room: usize = buf.len() - start;
        let n: usize = if left < room {
            left
        } else {
            room
        };
        let mut i: usize = 0;
        while i < n
            invariant
                i <= n,
                self.pos + n <= self.data.len(),
                start + n <= buf.len(),
                buf@.len() == before.len(),
                rest == self.data@.skip(self.pos as int),
                buf@.take(start as int) == before.take(start as int),
                buf@.subrange(start as int, start + i) == rest.take(i as int),
            decreases n - i,
        {
            let ghost prev = buf@;
            buf[start + i] = self.data[self.pos + i];
            assert(buf@.take(start as int) =~= prev.take(start as int));
            assert(buf@.subrange(start as int, start + i + 1) =~= prev.subrange(start as int, start + i).push(
                rest[i as int],
            ));
            assert(rest.take(i as int).push(rest[i as int]) =~= rest.take(i + 1));
            i = i + 1;
        }
        self.pos = self.pos + n;
        assert(self.data@.skip(self.pos as int) =~= rest.skip(n as int));
        Ok(n)
    }
}

impl ByteSink for Vec<u8> {
    open spec fn written(&self) -> Seq<u8> {
        self@
    }

    open spec fn reliable(&self) -> bool {
        true
    }

    fn write_all(&mut self, data: &[u8]) -> (r: Result<(), Error>) {
        append(self, data);
        Ok(())
    }
}

/// Fills `buf` from the source.
pub fn read_exact<R: ByteSource>(reader: &mut R, buf: &mut Vec<u8>) -> (r: Result<(), Error>)
    ensures
        final(buf)@.len() == old(buf)@.len(),
        r matches Err(e) ==> e == Error::UnexpectedEof || e == Error::Io,
        r is Ok ==> final(reader).bound() + old(buf)@.len() <= old(reader).bound(),
        final(reader).failed() == (old(reader).failed() || r == Err::<(), Error>(Error::Io)),
        r == Err::<(), Error>(Error::UnexpectedEof) ==> old(reader).rest() is Some,
        r is Ok && final(reader).rest() is Some ==> old(reader).rest() is Some,
        old(reader).rest() matches Some(rest) ==> if old(buf)@.len() <= rest.len() {
            &&& r is Ok
            &&& final(buf)@ == rest.take(old(buf)@.len() as int)
            &&& final(reader).rest() == Some(rest.skip(old(buf)@.len() as int))
        } else {
            &&& r == Err::<(), Error>(Error::UnexpectedEof)
            &&& final(reader).rest() == Some(Seq::<u8>::empty())
        },
{
    match read_exactish(reader, buf) {
        Ok(true) => Ok(()),
        Ok(false) => Err(Error::UnexpectedEof),
        Err(e) => Err(e),
    }
}

/// Fills `buf` from the source, unless there is nothing left at all.
pub fn read_exactish<R: ByteSource>(reader: &mut R, buf: &mut Vec<u8>) -> (r: Result<bool, Error>)
    ensures
        final(buf)@.len() == old(buf)@.len(),
        r matches Err(e) ==> e == Error::UnexpectedEof || e == Error::Io,
        r matches Ok(false) ==> old(buf)@.len() > 0,
        r matches Ok(true) ==> final(reader).bound() + old(buf)@.len() <= old(reader).bound(),
        final(reader).failed() == (old(reader).failed() || r == Err::<bool, Error>(Error::Io)),
        r == Err::<bool, Error>(Error::UnexpectedEof) || r == Ok::<bool, Error>(false) ==> old(reader).rest() is Some,
        r is Ok && final(reader).rest() is Some ==> old(reader).rest() is Some,
        old(reader).rest() matches Some(rest) ==> if old(buf)@.len() <= rest.len() {
            &&& r == Ok::<bool, Error>(true)
            &&& final(buf)@ == rest.take(old(buf)@.len() as int)
            &&& final(reader).rest() == Some(rest.skip(old(buf)@.len() as int))
        } else if rest.len() == 0 {
            &&& r == Ok::<bool, Error>(false)
            &&& final(reader).rest() == Some(Seq::<u8>::empty())
        } else {
            &&& r == Err::<bool, Error>(Error::UnexpectedEof)
            &&& final(reader).rest() == Some(Seq::<u8>::empty())
        },
{
    let ghost from = reader.rest();
    let ghost size = buf@.len();
    let mut done: usize = 0;
    proof {
        if let Some(rest) = from {
            assert(rest.skip(0) =~= rest);
            assert(buf@.take(0) =~= rest.take(0));
        }
    }
    while done < buf.len()
        invariant
            from == old(reader).rest(),
            size == old(buf)@.len(),
            buf@.len() == size,
            done <= size,
            reader.bound() + done <= old(reader).bound(),
            reader.failed() == old(reader).failed(),
            reader.rest() is Some ==> from is Some,
            from matches Some(rest) ==> {
                &&& done <= rest.len()
                &&& buf@.take(done as int) == rest.take(done as int)
                &&& reader.rest() == Some(rest.skip(done as int))
            },
        decreases size - done,
    {
        let ghost prev = buf@;
        match reader.read_some(buf, done) {
            Ok(n) => {
                if n == 0 {
                    proof {
                        if let Some(rest) = from {
                            assert(rest.skip(done as int).len() == 0);
                            assert(rest.len() == done);
                            assert(rest.skip(done as int).skip(0) =~= Seq::<u8>::empty());
                        }
                    }
                    if done == 0 {
                        return Ok(false);
                    }
                    return Err(Error::UnexpectedEof);
                }
                proof {
                    if let Some(rest) = from {
                        let left = rest.skip(done as int);
                        assert(buf@.take(done + n) =~= buf@.take(done as int) + buf@.subrange(
                            done as int,
                            done + n,
                        ));
                        assert(rest.take(done + n) =~= rest.take(done as int) + left.take(n as int));
                        assert(left.skip(n as int) =~= rest.skip(done + n));
                    }
                }
                done = done + n;
            },
            Err(e) => {
                return Err(e);
            },
        }
    }
    assert(buf@.take(done as int) =~= buf@);
    Ok(true)
}

/// Using `vec` as a buffer, reads exactly `size` bytes into it. What it held is discarded, and
/// its capacity is used again. It has the size in any case; what it holds where the source ends
/// before that is what there was, and zeros.
pub fn read_into_vec<R: ByteSource>(reader: &mut R, vec: &mut Vec<u8>, size: usize) -> (r: Result<(), Error>)
    ensures
        final(vec)@.len() == size,
        r is Ok ==> final(reader).bound() + size <= old(reader).bound(),
        r matches Err(e) ==> e == Error::UnexpectedEof || e == Error::Io,
        final(reader).failed() == (old(reader).failed() || r == Err::<(), Error>(Error::Io)),
        r == Err::<(), Error>(Error::UnexpectedEof) ==> old(reader).rest() is Some,
        r is Ok && final(reader).rest() is Some ==> old(reader).rest() is Some,
        old(reader).rest() matches Some(rest) ==> if size <= rest.len() {
            &&& r is Ok
            &&& final(vec)@ == rest.take(size as int)
            &&& final(reader).rest() == Some(rest.skip(size as int))
        } else {
            &&& r == Err::<(), Error>(Error::UnexpectedEof)
            &&& final(vec)@ == rest + Seq::new((size - rest.len()) as nat, |i: int| 0u8)
            &&& final(reader).rest() == Some(Seq::<u8>::empty())
        },
{
    let r: Result<(), Error> = read_in_steps(reader, vec, size);
    if r.is_err() {
        let ghost before = vec@;
        vec.resize(size, 0u8);
        assert(vec@ =~= before + Seq::new((size - before.len()) as nat, |i: int| 0u8));
    }
    r
}

/// Reads exactly `size` bytes into `vec`, in place of what it held. A size that the source does not
/// live up to takes no more memory than the source has bytes for.
pub(crate) fn read_in_steps<R: ByteSource>(reader: &mut R, vec: &mut Vec<u8>, size: usize) -> (r: Result<(), Error>)
    ensures
        final(vec)@.len() <= size,
        r is Ok ==> final(vec)@.len() == size && final(reader).bound() + size <= old(reader).bound(),
        r matches Err(e) ==> e == Error::UnexpectedEof || e == Error::Io,
        final(reader).failed() == (old(reader).failed() || r == Err::<(), Error>(Error::Io)),
        r == Err::<(), Error>(Error::UnexpectedEof) ==> old(reader).rest() is Some,
        r is Ok && final(reader).rest() is Some ==> old(reader).rest() is Some,
        old(reader).rest() matches Some(rest) ==> if size <= rest.len() {
            &&& r is Ok
            &&& final(vec)@ == rest.take(size as int)
            &&& final(reader).rest() == Some(rest.skip(size as int))
        } else {
            &&& r == Err::<(), Error>(Error::UnexpectedEof)
            &&& final(vec)@ == rest
            &&& final(reader).rest() == Some(Seq::<u8>::empty())
        },
{
    let ghost from = reader.rest();
    vec.clear();
    proof {
        if let Some(rest) = from {
            assert(rest.skip(0) =~= rest);
            assert(vec@ =~= rest.take(0));
        }
    }
    while vec.len() < size
        invariant
            from == old(reader).rest(),
            vec@.len() <= size,
            reader.bound() + vec@.len() <= old(reader).bound(),
            reader.failed() == old(reader).failed(),
            reader.rest() is Some ==> from is Some,
            from matches Some(rest) ==> {
                &&& vec@.len() <= rest.len()
                &&& vec@ == rest.take(vec@.len() as int)
                &&& reader.rest() == Some(rest.skip(vec@.len() as int))
            },
        decreases size - vec@.len(),
    {
        let start: usize = vec.len();
        let missing: usize = size - start;
        let step: usize = if missing < 65536 {
            missing
        } else {
            65536
        };
        let ghost prev = vec@;
        vec.resize(start + step, 0u8);
        assert(vec@.take(start as int) =~= prev);
        match reader.read_some(vec, start) {
            Ok(n) => {
                assert(vec@.take(start as int) =~= prev);
                vec.truncate(start + n);
                assert(vec@.take(start as int) =~= prev);
                proof {
                    if let Some(rest) = from {
                        let left = rest.skip(start as int);
                        assert(vec@ =~= prev + vec@.subrange(start as int, start + n));
                        assert(rest.take(start + n) =~= rest.take(start as int) + left.take(n as int));
                        assert(left.skip(n as int) =~= rest.skip(start + n));
                        assert(vec@.subrange(start as int, start + n) =~= left.take(n as int));
                    }
                }
                if n == 0 {
                    proof {
                        if let Some(rest) = from {
                            assert(rest.skip(start as int).len() == 0);
                            assert(vec@ =~= rest);
                            assert(rest.skip(start as int) =~= Seq::<u8>::empty());
                        }
                    }
                    return Err(Error::UnexpectedEof);
                }
            },
            Err(e) => {
                return Err(e);
            },
        }
    }
    Ok(())
}

/// A number of eight bytes, the lowest first, as a size.
pub open spec fn le_size(s: Seq<u8>) -> usize {
    spec_u64_from_le_bytes(s) as usize
}

/// Reads a size, unless there is nothing left at all.
pub fn read_u64_le<R: ByteSource>(reader: &mut R) -> (r: Result<Option<usize>, Error>)
    ensures
        r matches Err(e) ==> e == Error::UnexpectedEof || e == Error::Io,
        r matches Ok(Some(_)) ==> final(reader).bound() + 8 <= old(reader).bound(),
        final(reader).failed() == (old(reader).failed() || r == Err::<Option<usize>, Error>(Error::Io)),
        r == Err::<Option<usize>, Error>(Error::UnexpectedEof) || r == Ok::<Option<usize>, Error>(None) ==> old(
            reader,
        ).rest() is Some,
        r is Ok && final(reader).rest() is Some ==> old(reader).rest() is Some,
        old(reader).rest() matches Some(rest) ==> if rest.len() >= 8 {
            &&& r == Ok::<Option<usize>, Error>(Some(le_size(rest.take(8))))
            &&& final(reader).rest() == Some(rest.skip(8))
        } else if rest.len() == 0 {
            &&& r == Ok::<Option<usize>, Error>(None)
            &&& final(reader).rest() == Some(Seq::<u8>::empty())
        } else {
            &&& r == Err::<Option<usize>, Error>(Error::UnexpectedEof)
            &&& final(reader).rest() == Some(Seq::<u8>::empty())
        },
{
    let mut buf: Vec<u8> = Vec::new();
    buf.resize(8, 0u8);
    match read_exactish(reader, &mut buf) {
        Ok(true) => Ok(Some(u64_from_le_bytes(buf.as_slice()) as usize)),
        Ok(false) => Ok(None),
        Err(e) => Err(e),
    }
}

} // verus!
