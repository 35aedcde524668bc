//! What the whole content of a split stream is, and what is made of it.

use vstd::prelude::*;
use vstd::bytes::{lemma_auto_spec_u64_to_from_le_bytes, spec_u64_from_le_bytes, spec_u64_to_le_bytes};
use crate::compress::{decompressed, ZstdEncoder};
use crate::download::{measure, object_measures};
use crate::error::Error;
use crate::fragmentlaws::stands_at;
use crate::fsverity::FsVerityHashValue;
use crate::hash::{sha256, Sha256Digest};
use crate::io::{ByteSink, ByteSource};
use crate::splitstream::{
    contents_from, header_at, ids_of, joins_to, references, verities, Content, DigestMap, Position,
    SplitStreamReader, SplitStreamWriter,
};
use crate::streamlaws::{
    cat_gives_content, compressed_stream_read_back, contents_append, data_of, inline_read_back, joined, joined_concat,
    one_content, reference_read_back, references_concat, writable, writes_all, Written,
};

verus! {

/// A piece of content as it stands in a stream: inline content after its length, or an identifier
/// after a length of zero. Lengths have eight bytes, the lowest first.
pub open spec fn piece_bytes(piece: Content) -> Seq<u8> {
    match piece {
        Content::Inline(data) => spec_u64_to_le_bytes(data.len() as u64) + data,
        Content::External(id) => spec_u64_to_le_bytes(0) + id,
    }
}

/// Pieces of content as they stand in a stream.
pub open spec fn laid_out(pieces: Seq<Content>) -> Seq<u8>
    decreases pieces.len(),
{
    if pieces.len() == 0 {
        seq![]
    } else {
        laid_out(pieces.drop_last()) + piece_bytes(pieces.last())
    }
}

/// Pieces that can stand in a stream: inline content is not empty, and identifiers have `size` bytes.
pub open spec fn pieces_fit(pieces: Seq<Content>, size: nat) -> bool {
    forall|i: int|
        0 <= i < pieces.len() ==> match #[trigger] pieces[i] {
            Content::Inline(data) => 0 < data.len() <= usize::MAX,
            Content::External(id) => id.len() == size,
        }
}

/// The identifiers among some pieces, in order.
pub open spec fn identifiers(pieces: Seq<Content>) -> Seq<Seq<u8>>
    decreases pieces.len(),
{
    if pieces.len() == 0 {
        seq![]
    } else {
        match pieces.last() {
            Content::Inline(_) => identifiers(pieces.drop_last()),
            Content::External(id) => identifiers(pieces.drop_last()).push(id),
        }
    }
}

/// The start of a piece that is cut off.
pub open spec fn is_cut(cut: Seq<u8>, size: nat) -> bool {
    ||| 0 < cut.len() < 8
    ||| cut.len() >= 8 && cut.take(8) == spec_u64_to_le_bytes(0) && cut.len() < 8 + size
    ||| cut.len() >= 8 && cut.len() - 8 < spec_u64_from_le_bytes(cut.take(8)) <= usize::MAX
}

/// The references in some pieces are the identifiers, in order, repeats and all.
proof fn references_are_identifiers(pieces: Seq<Content>)
    ensures
        references(pieces) == identifiers(pieces),
    decreases pieces.len(),
{
    if pieces.len() > 0 {
        let front = pieces.drop_last();
        references_are_identifiers(front);
        references_concat(front, seq![pieces.last()]);
        one_content(pieces.last(), |id: Seq<u8>| id);
        assert(front + seq![pieces.last()] =~= pieces);
        assert(references(pieces) =~= identifiers(pieces));
    }
}

/// The pieces that a stream is made of are what is read from it, all of them and nothing else.
pub proof fn pieces_are_read(pieces: Seq<Content>, size: nat)
    requires
        pieces_fit(pieces, size),
    ensures
        contents_from(Position { rest: laid_out(pieces), inline: 0 }, size) == (pieces, Ok::<(), Error>(())),
        references(pieces) == identifiers(pieces),
    decreases pieces.len(),
{
    references_are_identifiers(pieces);
    if pieces.len() == 0 {
        assert(contents_from(Position { rest: laid_out(pieces), inline: 0 }, size).0 =~= pieces);
    } else {
        let front = pieces.drop_last();
        let last = pieces.last();
        assert(pieces[pieces.len() - 1] == last);
        assert forall|i: int| 0 <= i < front.len() implies match #[trigger] front[i] {
            Content::Inline(data) => 0 < data.len() <= usize::MAX,
            Content::External(id) => id.len() == size,
        } by {
            assert(front[i] == pieces[i]);
        }
        pieces_are_read(front, size);
        match last {
            Content::Inline(data) => {
                inline_read_back(data, size);
            },
            Content::External(id) => {
                reference_read_back(id);
            },
        }
        contents_append(laid_out(front), piece_bytes(last), size);
        assert(front + seq![last] =~= pieces);
    }
}

/// A stream that is cut off inside a piece ends with an error, after all pieces before it.
pub proof fn cut_is_noticed(pieces: Seq<Content>, cut: Seq<u8>, size: nat)
    requires
        pieces_fit(pieces, size),
        is_cut(cut, size),
    ensures
        contents_from(Position { rest: laid_out(pieces) + cut, inline: 0 }, size) == (
            pieces,
            Err::<(), Error>(Error::UnexpectedEof),
        ),
{
    pieces_are_read(pieces, size);
    contents_append(laid_out(pieces), cut, size);
    lemma_auto_spec_u64_to_from_le_bytes();
    let at = Position { rest: cut, inline: 0 };
    if cut.len() >= 8 && cut.take(8) == spec_u64_to_le_bytes(0) {
        assert(spec_u64_from_le_bytes(spec_u64_to_le_bytes(0)) == 0);
    }
    assert(contents_from(at, size).1 == Err::<(), Error>(Error::UnexpectedEof));
    assert(contents_from(at, size).0 =~= seq![]);
    assert(pieces + Seq::<Content>::empty() =~= pieces);
}

/// Inside inline content, what is left of it is read first, and then all that follows.
pub proof fn pieces_are_read_inside(data: Seq<u8>, pieces: Seq<Content>, size: nat)
    requires
        0 < data.len() <= usize::MAX,
        pieces_fit(pieces, size),
    ensures
        contents_from(Position { rest: data + laid_out(pieces), inline: data.len() as usize }, size) == (
            seq![Content::Inline(data)] + pieces,
            Ok::<(), Error>(()),
        ),
{
    pieces_are_read(pieces, size);
    assert((data + laid_out(pieces)).take(data.len() as int) =~= data);
    assert((data + laid_out(pieces)).skip(data.len() as int) =~= laid_out(pieces));
}

/// Reading the references of a stream gives those in its digest map and then those in its pieces, in
/// order, after what was there, and nothing else.
pub proof fn references_are_read<R: ByteSource, ObjectID: FsVerityHashValue>(
    reader: &mut SplitStreamReader<R, ObjectID>,
    objects: &mut Vec<ObjectID>,
    pieces: Seq<Content>,
    r: Result<(), Error>,
)
    requires
        pieces_fit(pieces, ObjectID::size()),
        stands_at(*old(reader), laid_out(pieces), 0),
        call_ensures(SplitStreamReader::<R, ObjectID>::get_object_refs, (reader, objects), r),
    ensures
        r is Ok,
        stands_at(*final(reader), seq![], 0),
        ({
            let known = old(objects)@.len();
            let mapped = old(reader).refs.map@.len();
            let ids = identifiers(pieces);
            &&& final(objects)@.len() == known + mapped + ids.len()
            &&& forall|i: int| 0 <= i < known ==> (#[trigger] final(objects)@[i]).bytes() == old(objects)@[i].bytes()
            &&& forall|i: int|
                0 <= i < mapped ==> (#[trigger] old(reader).refs.map@[i]).verity.bytes() == final(objects)@[known
                    + i].bytes()
            &&& forall|i: int| 0 <= i < ids.len() ==> #[trigger] ids[i] == final(objects)@[known + mapped + i].bytes()
        }),
{
    pieces_are_read(pieces, ObjectID::size());
    let before = ids_of(old(objects)@);
    let after = ids_of(final(objects)@);
    let map = verities(old(reader).map_entries());
    let ids = identifiers(pieces);
    let known = old(objects)@.len();
    let mapped = old(reader).refs.map@.len();
    assert(after == before + map + ids);
    assert forall|i: int| 0 <= i < known implies (#[trigger] final(objects)@[i]).bytes() == old(objects)@[i].bytes() by {
        assert(after[i] == before[i]);
    }
    assert forall|i: int| 0 <= i < mapped implies (#[trigger] old(reader).refs.map@[i]).verity.bytes()
        == final(objects)@[known + i].bytes() by {
        assert(after[known + i] == map[i]);
    }
    assert forall|i: int| 0 <= i < ids.len() implies #[trigger] ids[i] == final(objects)@[known + mapped + i].bytes() by {
        assert(after[known + mapped + i] == ids[i]);
    }
}

/// Every answer of `load_data` is the content of the object that was asked for.
pub open spec fn loads<ObjectID: FsVerityHashValue, F: Fn(&ObjectID) -> Result<Vec<u8>, Error>>(
    load_data: F,
    objects: spec_fn(Seq<u8>) -> Seq<u8>,
) -> bool {
    forall|id: ObjectID, answer: Result<Vec<u8>, Error>| #[trigger]
        call_ensures(load_data, (&id,), answer) ==> (answer matches Ok(data) && data@ == objects(id.bytes()))
}

/// The same, but for the object `missing`, for which the answer is an error.
pub open spec fn loads_but<ObjectID: FsVerityHashValue, F: Fn(&ObjectID) -> Result<Vec<u8>, Error>>(
    load_data: F,
    objects: spec_fn(Seq<u8>) -> Seq<u8>,
    missing: Seq<u8>,
    e: Error,
) -> bool {
    forall|id: ObjectID, answer: Result<Vec<u8>, Error>| #[trigger]
        call_ensures(load_data, (&id,), answer) ==> if id.bytes() == missing {
            answer == Err::<Vec<u8>, Error>(e)
        } else {
            answer matches Ok(data) && data@ == objects(id.bytes())
        }
}

/// Joining the content of a stream puts out the bytes of all pieces in order, with the content of
/// each object in the place of its identifier, however many and however long they are.
pub proof fn all_pieces_are_joined<
    R: ByteSource,
    ObjectID: FsVerityHashValue,
    O: ByteSink,
    F: Fn(&ObjectID) -> Result<Vec<u8>, Error>,
>(
    reader: &mut SplitStreamReader<R, ObjectID>,
    output: &mut O,
    load_data: F,
    pieces: Seq<Content>,
    objects: spec_fn(Seq<u8>) -> Seq<u8>,
    r: Result<(), Error>,
)
    requires
        pieces_fit(pieces, ObjectID::size()),
        stands_at(*old(reader), laid_out(pieces), 0),
        loads(load_data, objects),
        old(output).reliable(),
        call_ensures(SplitStreamReader::<R, ObjectID>::cat::<O, F>, (reader, output, load_data), r),
    ensures
        r is Ok,
        final(output).written() == old(output).written() + joined(pieces, objects),
        stands_at(*final(reader), seq![], 0),
{
    pieces_are_read(pieces, ObjectID::size());
    let out = choose|out: Seq<u8>|
        final(output).written() == old(output).written() + out && #[trigger] joins_to(
            pieces,
            Ok::<(), Error>(()),
            load_data,
            out,
            r,
        );
    cat_gives_content(pieces, Ok::<(), Error>(()), load_data, objects, out, r);
}

/// Joining a stream that is cut off inside a piece puts out all pieces before that, and fails.
pub proof fn cut_stream_is_not_joined<
    R: ByteSource,
    ObjectID: FsVerityHashValue,
    O: ByteSink,
    F: Fn(&ObjectID) -> Result<Vec<u8>, Error>,
>(
    reader: &mut SplitStreamReader<R, ObjectID>,
    output: &mut O,
    load_data: F,
    pieces: Seq<Content>,
    cut: Seq<u8>,
    objects: spec_fn(Seq<u8>) -> Seq<u8>,
    r: Result<(), Error>,
)
    requires
        pieces_fit(pieces, ObjectID::size()),
        is_cut(cut, ObjectID::size()),
        stands_at(*old(reader), laid_out(pieces) + cut, 0),
        loads(load_data, objects),
        old(output).reliable(),
        call_ensures(SplitStreamReader::<R, ObjectID>::cat::<O, F>, (reader, output, load_data), r),
    ensures
        r == Err::<(), Error>(Error::UnexpectedEof),
        final(output).written() == old(output).written() + joined(pieces, objects),
{
    cut_is_noticed(pieces, cut, ObjectID::size());
    let end = Err::<(), Error>(Error::UnexpectedEof);
    let out = choose|out: Seq<u8>|
        final(output).written() == old(output).written() + out && #[trigger] joins_to(
            pieces,
            end,
            load_data,
            out,
            r,
        );
    cat_gives_content(pieces, end, load_data, objects, out, r);
}

/// Where an object is missing, joining ends with the error for it, after the content before it.
pub proof fn joined_up_to_missing<ObjectID: FsVerityHashValue, F: Fn(&ObjectID) -> Result<Vec<u8>, Error>>(
    before: Seq<Content>,
    missing: Seq<u8>,
    after: Seq<Content>,
    end: Result<(), Error>,
    load_data: F,
    objects: spec_fn(Seq<u8>) -> Seq<u8>,
    e: Error,
    out: Seq<u8>,
    r: Result<(), Error>,
)
    requires
        !before.contains(Content::External(missing)),
        loads_but(load_data, objects, missing, e),
        joins_to(before + seq![Content::External(missing)] + after, end, load_data, out, r),
    ensures
        r == Err::<(), Error>(e),
        out == joined(before, objects),
    decreases before.len(),
{
    let all = before + seq![Content::External(missing)] + after;
    if before.len() > 0 {
        let first = before[0];
        let more = before.drop_first();
        assert(all[0] == first);
        assert(all.drop_first() =~= more + seq![Content::External(missing)] + after);
        assert(before.contains(first));
        assert forall|c: Content| more.contains(c) implies before.contains(c) by {
            let i = choose|i: int| 0 <= i < more.len() && more[i] == c;
            assert(before[i + 1] == c);
        }
        let data = match first {
            Content::Inline(data) => data,
            Content::External(id) => objects(id),
        };
        let rest = out.skip(data.len() as int);
        joined_up_to_missing(more, missing, after, end, load_data, objects, e, rest, r);
        joined_concat(seq![first], more, objects);
        one_content(first, objects);
        assert(seq![first] + more =~= before);
        assert(out =~= data + rest);
    } else {
        assert(all[0] == Content::External(missing));
        assert(out =~= joined(before, objects));
    }
}

/// Joining a stream in which an object is missing puts out all content before that, and fails.
pub proof fn missing_object_is_reported<
    R: ByteSource,
    ObjectID: FsVerityHashValue,
    O: ByteSink,
    F: Fn(&ObjectID) -> Result<Vec<u8>, Error>,
>(
    reader: &mut SplitStreamReader<R, ObjectID>,
    output: &mut O,
    load_data: F,
    before: Seq<Content>,
    missing: Seq<u8>,
    after: Seq<Content>,
    objects: spec_fn(Seq<u8>) -> Seq<u8>,
    e: Error,
    r: Result<(), Error>,
)
    requires
        pieces_fit(before + seq![Content::External(missing)] + after, ObjectID::size()),
        !before.contains(Content::External(missing)),
        stands_at(*old(reader), laid_out(before + seq![Content::External(missing)] + after), 0),
        loads_but(load_data, objects, missing, e),
        old(output).reliable(),
        call_ensures(SplitStreamReader::<R, ObjectID>::cat::<O, F>, (reader, output, load_data), r),
    ensures
        r == Err::<(), Error>(e),
        final(output).written() == old(output).written() + joined(before, objects),
{
    let pieces = before + seq![Content::External(missing)] + after;
    pieces_are_read(pieces, ObjectID::size());
    let end = Ok::<(), Error>(());
    let out = choose|out: Seq<u8>|
        final(output).written() == old(output).written() + out && #[trigger] joins_to(
            pieces,
            end,
            load_data,
            out,
            r,
        );
    joined_up_to_missing(before, missing, after, end, load_data, objects, e, out, r);
}

/// The stream has a digest map of whatever entries, and `tail` after it.
pub open spec fn goes_on_with(stream: Seq<u8>, size: nat, tail: Seq<u8>) -> bool {
    let map = (spec_u64_from_le_bytes(stream.take(8)) as usize) * (32 + size);
    8 + map <= stream.len() && stream.skip(8 + map) == tail
}

/// Measuring the object of a stream can come to nothing but the digest of the bytes of all its pieces.
pub proof fn only_all_pieces_measured<ObjectID: FsVerityHashValue, F: Fn(&ObjectID) -> Result<Vec<u8>, Error>>(
    data: Seq<u8>,
    stream: Seq<u8>,
    pieces: Seq<Content>,
    load_data: F,
    objects: spec_fn(Seq<u8>) -> Seq<u8>,
    result: Result<Seq<u8>, Error>,
)
    requires
        decompressed(data) == Some(stream),
        pieces_fit(pieces, ObjectID::size()),
        goes_on_with(stream, ObjectID::size(), laid_out(pieces)),
        loads(load_data, objects),
        object_measures(data, load_data, result),
    ensures
        result == Ok::<Seq<u8>, Error>(sha256(joined(pieces, objects))),
{
    pieces_are_read(pieces, ObjectID::size());
    assert forall|out: Seq<u8>, end: Result<(), Error>| #[trigger]
        joins_to(pieces, Ok::<(), Error>(()), load_data, out, end) implies end is Ok && out == joined(
        pieces,
        objects,
    ) by {
        cat_gives_content(pieces, Ok::<(), Error>(()), load_data, objects, out, end);
    }
    assert(header_at(stream, ObjectID::size()) is Ok);
}

/// The digest that is measured of a stream is that of the bytes of all its pieces in order, however
/// many and however long they are.
pub proof fn measured_is_of_all_pieces<ObjectID: FsVerityHashValue, F: Fn(&ObjectID) -> Result<Vec<u8>, Error>>(
    data: Vec<u8>,
    stream: Seq<u8>,
    pieces: Seq<Content>,
    load_data: F,
    objects: spec_fn(Seq<u8>) -> Seq<u8>,
    r: Result<Sha256Digest, Error>,
)
    requires
        decompressed(data@) == Some(stream),
        pieces_fit(pieces, ObjectID::size()),
        goes_on_with(stream, ObjectID::size(), laid_out(pieces)),
        loads(load_data, objects),
        call_ensures(measure::<ObjectID, F>, (data, load_data), r),
    ensures
        r matches Ok(digest) && digest@ == sha256(joined(pieces, objects)),
{
    pieces_are_read(pieces, ObjectID::size());
    assert forall|out: Seq<u8>, result: Result<(), Error>| #[trigger]
        joins_to(pieces, Ok::<(), Error>(()), load_data, out, result) implies result is Ok && out == joined(
        pieces,
        objects,
    ) by {
        cat_gives_content(pieces, Ok::<(), Error>(()), load_data, objects, out, result);
    }
    assert(header_at(stream, ObjectID::size()) is Ok);
}

/// No digest is measured of a stream that is cut off, nor of an object that does not decompress.
pub proof fn damaged_is_not_measured<ObjectID: FsVerityHashValue, F: Fn(&ObjectID) -> Result<Vec<u8>, Error>>(
    data: Vec<u8>,
    pieces: Seq<Content>,
    cut: Seq<u8>,
    load_data: F,
    objects: spec_fn(Seq<u8>) -> Seq<u8>,
    r: Result<Sha256Digest, Error>,
)
    requires
        pieces_fit(pieces, ObjectID::size()),
        is_cut(cut, ObjectID::size()),
        decompressed(data@) matches Some(stream) ==> goes_on_with(stream, ObjectID::size(), laid_out(pieces) + cut),
        loads(load_data, objects),
        call_ensures(measure::<ObjectID, F>, (data, load_data), r),
    ensures
        r is Err,
        decompressed(data@) is Some ==> r == Err::<Sha256Digest, Error>(Error::UnexpectedEof),
{
    let end = Err::<(), Error>(Error::UnexpectedEof);
    cut_is_noticed(pieces, cut, ObjectID::size());
    assert forall|out: Seq<u8>, result: Result<(), Error>| #[trigger]
        joins_to(pieces, end, load_data, out, result) implies result == end by {
        cat_gives_content(pieces, end, load_data, objects, out, result);
    }
    if let Some(stream) = decompressed(data@) {
        assert(header_at(stream, ObjectID::size()) is Ok);
    }
}

/// No digest is measured of a stream that lacks an object: the error is the one for that object.
pub proof fn incomplete_is_not_measured<ObjectID: FsVerityHashValue, F: Fn(&ObjectID) -> Result<Vec<u8>, Error>>(
    data: Vec<u8>,
    stream: Seq<u8>,
    before: Seq<Content>,
    missing: Seq<u8>,
    after: Seq<Content>,
    load_data: F,
    objects: spec_fn(Seq<u8>) -> Seq<u8>,
    e: Error,
    r: Result<Sha256Digest, Error>,
)
    requires
        decompressed(data@) == Some(stream),
        pieces_fit(before + seq![Content::External(missing)] + after, ObjectID::size()),
        !before.contains(Content::External(missing)),
        goes_on_with(stream, ObjectID::size(), laid_out(before + seq![Content::External(missing)] + after)),
        loads_but(load_data, objects, missing, e),
        call_ensures(measure::<ObjectID, F>, (data, load_data), r),
    ensures
        r == Err::<Sha256Digest, Error>(e),
{
    let pieces = before + seq![Content::External(missing)] + after;
    let end = Ok::<(), Error>(());
    pieces_are_read(pieces, ObjectID::size());
    assert forall|out: Seq<u8>, result: Result<(), Error>| #[trigger]
        joins_to(pieces, end, load_data, out, result) implies result == Err::<(), Error>(e) by {
        joined_up_to_missing(before, missing, after, end, load_data, objects, e, out, result);
    }
    assert(header_at(stream, ObjectID::size()) is Ok);
}

/// The digest that is measured of a stream that was written, ended and compressed is that of all
/// bytes that were written to it.
pub proof fn measured_is_of_all_written<ObjectID: FsVerityHashValue, F: Fn(&ObjectID) -> Result<Vec<u8>, Error>>(
    refs: Option<DigestMap<ObjectID>>,
    expected: Option<Sha256Digest>,
    states: Seq<SplitStreamWriter<ZstdEncoder, ObjectID>>,
    ops: Seq<Written>,
    objects: spec_fn(Seq<u8>) -> Seq<u8>,
    z: Vec<u8>,
    load_data: F,
    r: Result<Sha256Digest, Error>,
)
    requires
        refs_fit(refs),
        writable(ops, ObjectID::size()),
        call_ensures(SplitStreamWriter::<ZstdEncoder, ObjectID>::new, (refs, expected), states[0]),
        writes_all(states, ops, objects),
        call_ensures(
            SplitStreamWriter::<ZstdEncoder, ObjectID>::into_compressed,
            (states.last(),),
            Ok::<Vec<u8>, Error>(z),
        ),
        loads(load_data, objects),
        call_ensures(measure::<ObjectID, F>, (z, load_data), r),
    ensures
        r matches Ok(digest) && digest@ == sha256(data_of(ops, objects)),
{
    compressed_stream_read_back(refs, expected, states, ops, objects, z@, load_data);
}

/// The digest map has a size that a machine can hold.
pub open spec fn refs_fit<ObjectID: FsVerityHashValue>(refs: Option<DigestMap<ObjectID>>) -> bool {
    refs matches Some(map) ==> map.map@.len() <= usize::MAX
}

/// Reading the references of a stream that is cut off gives all before that, and fails.
pub proof fn references_are_read_up_to_cut<R: ByteSource, ObjectID: FsVerityHashValue>(
    reader: &mut SplitStreamReader<R, ObjectID>,
    objects: &mut Vec<ObjectID>,
    pieces: Seq<Content>,
    cut: Seq<u8>,
    r: Result<(), Error>,
)
    requires
        pieces_fit(pieces, ObjectID::size()),
        is_cut(cut, ObjectID::size()),
        stands_at(*old(reader), laid_out(pieces) + cut, 0),
        call_ensures(SplitStreamReader::<R, ObjectID>::get_object_refs, (reader, objects), r),
    ensures
        r == Err::<(), Error>(Error::UnexpectedEof),
        final(objects)@.len() == old(objects)@.len() + old(reader).refs.map@.len() + identifiers(pieces).len(),
        forall|i: int|
            0 <= i < identifiers(pieces).len() ==> #[trigger] identifiers(pieces)[i] == final(objects)@[old(objects)@.len() + old(reader).refs.map@.len() + i].bytes(),
{
    pieces_are_read(pieces, ObjectID::size());
    cut_is_noticed(pieces, cut, ObjectID::size());
    let before = ids_of(old(objects)@);
    let after = ids_of(final(objects)@);
    let map = verities(old(reader).map_entries());
    let ids = identifiers(pieces);
    assert(after == before + map + ids);
    assert(after.len() == final(objects)@.len());
    assert forall|i: int| 0 <= i < ids.len() implies #[trigger] ids[i] == final(objects)@[before.len() + map.len()
        + i].bytes() by {
        assert(after[before.len() + map.len() + i] == ids[i]);
    }
}

/// A stream of which it is not known what it holds, because it is damaged or cut off, is neither joined
/// as a whole nor taken to have told all references.
pub proof fn damage_is_noticed<
    R: ByteSource,
    ObjectID: FsVerityHashValue,
    O: ByteSink,
    F: Fn(&ObjectID) -> Result<Vec<u8>, Error>,
>(
    joined_from: &mut SplitStreamReader<R, ObjectID>,
    output: &mut O,
    load_data: F,
    told_from: &mut SplitStreamReader<R, ObjectID>,
    objects: &mut Vec<ObjectID>,
    joining: Result<(), Error>,
    telling: Result<(), Error>,
)
    requires
        old(joined_from).decoder.rest() is None,
        old(told_from).decoder.rest() is None,
        call_ensures(SplitStreamReader::<R, ObjectID>::cat::<O, F>, (joined_from, output, load_data), joining),
        call_ensures(SplitStreamReader::<R, ObjectID>::get_object_refs, (told_from, objects), telling),
    ensures
        joining is Err,
        telling is Err,
{
}

} // verus!
