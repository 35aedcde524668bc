//! What a download asks for, what it takes in, and what it accepts.

use vstd::prelude::*;
use crate::bytemap::{has_key, put_facts, rank, rank_at, rank_facts, value_at};
use crate::compress::decompressed;
use crate::contentlaws::{
    goes_on_with, identifiers, laid_out, loads, only_all_pieces_measured, pieces_are_read, pieces_fit,
};
use crate::download::{
    ascii_text, check_digest, check_object, is_symlink, joined_url, maybe_digest, named_object, needed_wf,
    note_objects, note_streams, object_measures, object_url, request_url, stream_refused,
    stream_url, stream_verified, streams_verified, symlink_type, Downloader, Needed, ObjectQueue, Refusal,
    MAX_REQUESTS,
};
use crate::downloadlaws::{grows, grows_further, note_objects_grows, note_streams_grows};
use crate::error::Error;
use crate::fsverity::{hex_bytes, object_pathname, FsVerityHashValue};
use crate::fragmentlaws::stands_at;
use crate::hash::{sha256, Sha256Digest};
use crate::io::ByteSource;
use crate::splitstream::{header_at, verities, Content, SplitStreamReader};
use crate::streamlaws::joined;

verus! {

/// An answer names an object where its content type is that of the target of a symbolic link, to the
/// letter.
pub proof fn answer_names_object(content_type: Option<&[u8]>, r: bool)
    requires
        call_ensures(is_symlink, (content_type,), r),
    ensures
        r <==> (content_type matches Some(t) && t@.len() == "text/x-symlink-target"@.len() && forall|i: int|
            0 <= i < t@.len() ==> (#[trigger] t@[i]) as char == "text/x-symlink-target"@[i]),
{
    reveal_strlit("text/x-symlink-target");
    if let Some(t) = content_type {
        let lit = "text/x-symlink-target"@;
        let expected = symlink_type();
        assert(lit.len() == 21);
        assert(expected.len() == 21);
        assert forall|i: int| 0 <= i < 21 implies (#[trigger] expected[i]) as char == lit[i] by {
            assert(i == 0 || i == 1 || i == 2 || i == 3 || i == 4 || i == 5 || i == 6 || i == 7 || i == 8 || i == 9 || i
                == 10 || i == 11 || i == 12 || i == 13 || i == 14 || i == 15 || i == 16 || i == 17 || i == 18 || i == 19
                || i == 20);
        }
        if t@.len() == 21 && forall|i: int| 0 <= i < t@.len() ==> (#[trigger] t@[i]) as char == lit[i] {
            assert forall|i: int| 0 <= i < 21 implies t@[i] == expected[i] by {
                assert(t@[i] as char == expected[i] as char);
            }
            assert(t@ =~= expected);
        }
    }
}

/// An answer that names an object names the one whose identifier its path ends in, with a slash behind
/// the first two digits; any other answer is itself the object.
pub proof fn object_named<ObjectID: FsVerityHashValue>(data: &[u8], names: bool, r: Result<Option<ObjectID>, Error>)
    requires
        call_ensures(named_object::<ObjectID>, (data, names), r),
    ensures
        !names ==> r matches Ok(None),
        names ==> {
            let n = 2 * ObjectID::size() + 1;
            let t = data@.skip(data@.len() - n);
            match r {
                Ok(Some(id)) => data@.len() >= n && t[2] == 47 && hex_bytes(t.take(2) + t.skip(3)) == Some(id.bytes()),
                Ok(None) => false,
                Err(e) => e == Error::InvalidDigest && (data@.len() < n || t[2] != 47 || hex_bytes(
                    t.take(2) + t.skip(3),
                ) is None),
            }
        },
{
}

/// An object is accepted where it has the identifier that was asked for, in full, and only there.
pub proof fn object_accepted<ObjectID: FsVerityHashValue>(id: &ObjectID, actual_id: &ObjectID, r: Result<(), Error>)
    requires
        call_ensures(check_object::<ObjectID>, (id, actual_id), r),
    ensures
        r is Ok <==> id.bytes() == actual_id.bytes(),
        r matches Err(e) ==> e == Error::ObjectMismatch,
{
}

/// Content is accepted where no digest is expected, or where it has the expected one, in full.
pub proof fn content_accepted(measured: &Sha256Digest, expected: &Option<Sha256Digest>, r: Result<(), Error>)
    requires
        call_ensures(check_digest, (measured, expected), r),
    ensures
        r is Ok <==> (expected matches Some(digest) ==> digest@ == measured@),
        r matches Err(e) ==> e == Error::ChecksumMismatch,
{
}

/// A URL leads to a name in a directory: from the base to the directory, and from there to the name.
pub proof fn request_leads_to(base: &str, dir: &str, name: &str, r: Result<String, Error>)
    requires
        call_ensures(request_url, (base, dir, name), r),
    ensures
        match joined_url(base@, dir@) {
            Some(there) => match joined_url(there, name@) {
                Some(url) => r matches Ok(text) && text@ == url,
                None => r matches Err(e) && e == Error::InvalidUrl,
            },
            None => r matches Err(e) && e == Error::InvalidUrl,
        },
{
}

/// A stream is asked for by its name in the directory of streams.
pub proof fn stream_asked_for(base: &str, name: &str, r: Result<String, Error>)
    requires
        call_ensures(stream_url, (base, name), r),
    ensures
        match joined_url(base@, "streams/"@) {
            Some(there) => match joined_url(there, name@) {
                Some(url) => r matches Ok(text) && text@ == url,
                None => r matches Err(e) && e == Error::InvalidUrl,
            },
            None => r matches Err(e) && e == Error::InvalidUrl,
        },
{
}

/// An object is asked for by its place in the directory of objects.
pub proof fn object_asked_for<ObjectID: FsVerityHashValue>(
    base: &str,
    id: &ObjectID,
    name: Seq<char>,
    r: Result<String, Error>,
)
    requires
        name.len() == object_pathname(id.bytes()).len(),
        forall|i: int| 0 <= i < name.len() ==> #[trigger] name[i] == object_pathname(id.bytes())[i] as char,
        call_ensures(object_url::<ObjectID>, (base, id), r),
    ensures
        match joined_url(base@, "objects/"@) {
            Some(there) => match joined_url(there, name) {
                Some(url) => r matches Ok(text) && text@ == url,
                None => r matches Err(e) && e == Error::InvalidUrl,
            },
            None => r matches Err(e) && e == Error::InvalidUrl,
        },
{
    assert(name =~= ascii_text(object_pathname(id.bytes())));
}

/// A stream that is noted is known with its digest from then on, and waits where it was not known
/// before. It is refused where it is known with another digest, and where it is the first.
pub proof fn stream_is_noted<ObjectID: FsVerityHashValue>(
    d: &mut Downloader<ObjectID>,
    body: &Sha256Digest,
    verity: &ObjectID,
    other: Seq<u8>,
    r: Result<(), Refusal<ObjectID>>,
)
    requires
        old(d).wf(),
        call_ensures(Downloader::<ObjectID>::note_stream, (d, body, verity), r),
    ensures
        final(d).first() == old(d).first(),
        final(d).needed().objects == old(d).needed().objects,
        other != verity.bytes() ==> value_at(final(d).needed().streams, other) == value_at(
            old(d).needed().streams,
            other,
        ),
        match value_at(old(d).needed().streams, verity.bytes()) {
            None => {
                &&& r is Ok
                &&& value_at(final(d).needed().streams, verity.bytes()) == Some(Some(body@))
                &&& final(d).needed().todo == old(d).needed().todo.push(verity.bytes())
            },
            Some(Some(known)) => {
                &&& final(d).needed() == old(d).needed()
                &&& r is Ok <==> known == body@
                &&& r matches Err(e) ==> e.error == Error::BodyHashMismatch
            },
            Some(None) => {
                &&& final(d).needed() == old(d).needed()
                &&& r matches Err(e) && e.error == Error::RecursiveStream
            },
        },
{
    put_facts(old(d).needed().streams, verity.bytes(), Some(body@));
}

/// An object that is noted is known from then on, unless it is a stream. Nothing else changes.
pub proof fn object_is_noted<ObjectID: FsVerityHashValue>(
    d: &mut Downloader<ObjectID>,
    id: &ObjectID,
    other: Seq<u8>,
)
    requires
        old(d).wf(),
        call_ensures(Downloader::<ObjectID>::note_object, (d, id), ()),
    ensures
        final(d).first() == old(d).first(),
        final(d).needed().streams == old(d).needed().streams,
        final(d).needed().todo == old(d).needed().todo,
        has_key(old(d).needed().streams, id.bytes()) ==> final(d).needed() == old(d).needed(),
        !has_key(old(d).needed().streams, id.bytes()) ==> has_key(final(d).needed().objects, id.bytes()),
        other != id.bytes() ==> (has_key(final(d).needed().objects, other) <==> has_key(
            old(d).needed().objects,
            other,
        )),
{
    let before = old(d).needed();
    put_facts(before.objects, id.bytes(), ());
    if !has_key(before.streams, id.bytes()) {
        assert(value_at(final(d).needed().objects, id.bytes()) is Some);
        if other != id.bytes() {
            assert(value_at(final(d).needed().objects, other) == value_at(before.objects, other));
            assert(value_at(before.objects, other) is Some <==> has_key(before.objects, other));
        }
    }
}

/// What is noted of streams is refused only where two of them, or one and what was known, tell of one
/// stream with different digests, or one is the first.
proof fn refused_for_conflict(n: Needed, entries: Seq<(Seq<u8>, Seq<u8>)>, first: Seq<u8>, size: nat)
    requires
        needed_wf(n, first, size),
        forall|i: int| 0 <= i < entries.len() ==> (#[trigger] entries[i]).1.len() == size,
        note_streams(n, entries) is Err,
    ensures
        conflicting(n, entries),
    decreases entries.len(),
{
    let front = entries.drop_last();
    let last = entries.last();
    let k = entries.len() - 1;
    assert(entries[k] == last);
    assert forall|i: int| 0 <= i < front.len() implies (#[trigger] front[i]).1.len() == size by {
        assert(front[i] == entries[i]);
    }
    match note_streams(n, front) {
        Err(_) => {
            refused_for_conflict(n, front, first, size);
            if exists|i: int|
                0 <= i < front.len() && known_otherwise(n, #[trigger] front[i]) {
                let i = choose|i: int|
                    0 <= i < front.len() && known_otherwise(n, #[trigger] front[i]);
                assert(entries[i] == front[i]);
            } else {
                let (i, j) = choose|i: int, j: int|
                    0 <= i < j < front.len() && (#[trigger] front[i]).1 == (#[trigger] front[j]).1 && front[i].0
                        != front[j].0;
                assert(entries[i] == front[i] && entries[j] == front[j]);
            }
        },
        Ok(before) => {
            note_streams_grows(n, front, first, size);
            if has_key(n.streams, last.1) {
                assert(value_at(before.streams, last.1) == value_at(n.streams, last.1));
                assert(known_otherwise(n, entries[k]));
            } else {
                assert(has_key(before.streams, last.1));
                let j = choose|j: int| 0 <= j < front.len() && (#[trigger] front[j]).1 == last.1;
                assert(value_at(before.streams, front[j].1) == Some(Some(front[j].0)));
                assert(entries[j] == front[j]);
                assert(entries[j].1 == entries[k].1 && entries[j].0 != entries[k].0);
            }
        },
    }
}

/// The stream is known with another digest, or without one.
pub open spec fn known_otherwise(n: Needed, entry: (Seq<u8>, Seq<u8>)) -> bool {
    value_at(n.streams, entry.1) matches Some(known) && known != Some(entry.0)
}

/// Some streams tell of one stream with different digests, or of one that is known otherwise.
pub open spec fn conflicting(n: Needed, entries: Seq<(Seq<u8>, Seq<u8>)>) -> bool {
    ||| exists|i: int|
        0 <= i < entries.len() && known_otherwise(n, #[trigger] entries[i])
    ||| exists|i: int, j: int|
        0 <= i < j < entries.len() && (#[trigger] entries[i]).1 == (#[trigger] entries[j]).1 && entries[i].0
            != entries[j].0
}

/// Objects that come to be known are not streams.
proof fn objects_are_no_streams(n: Needed, ids: Seq<Seq<u8>>, first: Seq<u8>, size: nat)
    requires
        needed_wf(n, first, size),
        forall|i: int| 0 <= i < ids.len() ==> (#[trigger] ids[i]).len() == size,
    ensures
        forall|id: Seq<u8>| #[trigger]
            has_key(note_objects(n, ids).objects, id) && !has_key(n.objects, id) ==> !has_key(n.streams, id),
    decreases ids.len(),
{
    if ids.len() > 0 {
        let front = ids.drop_last();
        assert forall|i: int| 0 <= i < front.len() implies (#[trigger] front[i]).len() == size by {
            assert(front[i] == ids[i]);
        }
        objects_are_no_streams(n, front, first, size);
        note_objects_grows(n, front, first, size);
        let before = note_objects(n, front);
        let last = ids.last();
        put_facts(before.objects, last, ());
        assert forall|id: Seq<u8>| #[trigger] has_key(note_objects(n, ids).objects, id) && !has_key(
            n.objects,
            id,
        ) implies !has_key(n.streams, id) by {
            if !has_key(before.streams, last) && id != last {
                assert(value_at(note_objects(n, ids).objects, id) == value_at(before.objects, id));
                assert(value_at(note_objects(n, ids).objects, id) is Some);
            }
        }
    }
}

/// Looking into a stream takes in all that it refers to and nothing else: each stream in its digest
/// map with its digest, and each object in its pieces that is not a stream. Streams that were not known
/// wait, and no others come to. It fails only where what it tells of streams conflicts.
pub proof fn stream_looked_into<ObjectID: FsVerityHashValue>(
    d: &mut Downloader<ObjectID>,
    data: Vec<u8>,
    stream: Seq<u8>,
    entries: Seq<(Seq<u8>, Seq<u8>)>,
    pieces: Seq<Content>,
    r: Result<(), Refusal<ObjectID>>,
)
    requires
        old(d).wf(),
        decompressed(data@) == Some(stream),
        header_at(stream, ObjectID::size()) == Ok::<(Seq<(Seq<u8>, Seq<u8>)>, Seq<u8>), Error>(
            (entries, laid_out(pieces)),
        ),
        forall|i: int| 0 <= i < entries.len() ==> (#[trigger] entries[i]).1.len() == ObjectID::size(),
        pieces_fit(pieces, ObjectID::size()),
        call_ensures(Downloader::<ObjectID>::visit_stream, (d, data), r),
    ensures
        final(d).first() == old(d).first(),
        r is Err <==> conflicting(old(d).needed(), entries),
        r is Ok ==> {
            let before = old(d).needed();
            let after = final(d).needed();
            &&& grows(before, after)
            &&& forall|i: int|
                0 <= i < entries.len() ==> value_at(after.streams, (#[trigger] entries[i]).1) == Some(
                    Some(entries[i].0),
                )
            &&& forall|i: int|
                0 <= i < identifiers(pieces).len() ==> has_key(after.streams, #[trigger] identifiers(pieces)[i])
                    || has_key(after.objects, identifiers(pieces)[i])
            &&& forall|id: Seq<u8>| #[trigger]
                has_key(after.streams, id) && !has_key(before.streams, id) ==> exists|i: int|
                    0 <= i < entries.len() && (#[trigger] entries[i]).1 == id
            &&& forall|id: Seq<u8>| #[trigger]
                has_key(after.objects, id) && !has_key(before.objects, id) ==> !has_key(after.streams, id)
                    && identifiers(pieces).contains(id)
        },
{
    pieces_are_read(pieces, ObjectID::size());
    all_taken_in(old(d).needed(), entries, pieces, old(d).first(), ObjectID::size());
}

/// What noting all that a stream refers to comes to.
proof fn all_taken_in(
    before: Needed,
    entries: Seq<(Seq<u8>, Seq<u8>)>,
    pieces: Seq<Content>,
    first: Seq<u8>,
    size: nat,
)
    requires
        needed_wf(before, first, size),
        forall|i: int| 0 <= i < entries.len() ==> (#[trigger] entries[i]).1.len() == size,
        pieces_fit(pieces, size),
    ensures
        note_streams(before, entries) is Err <==> conflicting(before, entries),
        note_streams(before, entries) matches Ok(middle) ==> {
            let after = note_objects(middle, verities(entries) + identifiers(pieces));
            &&& grows(before, after)
            &&& forall|i: int|
                0 <= i < entries.len() ==> value_at(after.streams, (#[trigger] entries[i]).1) == Some(
                    Some(entries[i].0),
                )
            &&& forall|i: int|
                0 <= i < identifiers(pieces).len() ==> has_key(after.streams, #[trigger] identifiers(pieces)[i])
                    || has_key(after.objects, identifiers(pieces)[i])
            &&& forall|id: Seq<u8>| #[trigger]
                has_key(after.streams, id) && !has_key(before.streams, id) ==> exists|i: int|
                    0 <= i < entries.len() && (#[trigger] entries[i]).1 == id
            &&& forall|id: Seq<u8>| #[trigger]
                has_key(after.objects, id) && !has_key(before.objects, id) ==> !has_key(after.streams, id)
                    && identifiers(pieces).contains(id)
        },
{
    let map = verities(entries);
    let ids = map + identifiers(pieces);
    note_streams_grows(before, entries, first, size);
    if note_streams(before, entries) is Err {
        refused_for_conflict(before, entries, first, size);
    }
    if let Ok(middle) = note_streams(before, entries) {
        if conflicting(before, entries) {
            if exists|i: int|
                0 <= i < entries.len() && known_otherwise(before, #[trigger] entries[i]) {
                let i = choose|i: int|
                    0 <= i < entries.len() && known_otherwise(before, #[trigger] entries[i]);
                assert(has_key(before.streams, entries[i].1));
                assert(value_at(middle.streams, entries[i].1) == Some(Some(entries[i].0)));
            } else {
                let (i, j) = choose|i: int, j: int|
                    0 <= i < j < entries.len() && (#[trigger] entries[i]).1 == (#[trigger] entries[j]).1 && entries[i].0
                        != entries[j].0;
                assert(value_at(middle.streams, entries[i].1) == Some(Some(entries[i].0)));
                assert(value_at(middle.streams, entries[j].1) == Some(Some(entries[j].0)));
            }
        }
        assert forall|i: int| 0 <= i < ids.len() implies (#[trigger] ids[i]).len() == size by {
            if i < map.len() {
                assert(ids[i] == entries[i].1);
            } else {
                identifiers_sized(pieces, size, i - map.len());
                assert(ids[i] == identifiers(pieces)[i - map.len()]);
            }
        }
        note_objects_grows(middle, ids, first, size);
        objects_are_no_streams(middle, ids, first, size);
        let after = note_objects(middle, ids);
        grows_further(before, middle, after);
        assert forall|i: int| 0 <= i < identifiers(pieces).len() implies has_key(
            after.streams,
            #[trigger] identifiers(pieces)[i],
        ) || has_key(after.objects, identifiers(pieces)[i]) by {
            assert(ids[map.len() + i] == identifiers(pieces)[i]);
        }
        assert forall|id: Seq<u8>| #[trigger] has_key(after.objects, id) && !has_key(
            before.objects,
            id,
        ) implies !has_key(after.streams, id) && identifiers(pieces).contains(id) by {
            assert(ids.contains(id));
            let i = choose|i: int| 0 <= i < ids.len() && ids[i] == id;
            if i < map.len() {
                assert(value_at(middle.streams, entries[i].1) == Some(Some(entries[i].0)));
                assert(has_key(middle.streams, id));
            } else {
                assert(identifiers(pieces)[i - map.len()] == id);
            }
        }
    }
}

proof fn identifiers_sized(pieces: Seq<Content>, size: nat, i: int)
    requires
        pieces_fit(pieces, size),
        0 <= i < identifiers(pieces).len(),
    ensures
        identifiers(pieces)[i].len() == size,
    decreases pieces.len(),
{
    let front = pieces.drop_last();
    assert(pieces[pieces.len() - 1] == pieces.last());
    assert forall|k: int| 0 <= k < front.len() implies match #[trigger] front[k] {
        Content::Inline(data) => 0 < data.len() <= usize::MAX,
        Content::External(id) => id.len() == size,
    } by {
        assert(front[k] == pieces[k]);
    }
    if i < identifiers(front).len() {
        identifiers_sized(front, size, i);
    }
}

/// An object holds a stream of these pieces.
pub open spec fn object_holds(data: Seq<u8>, size: nat, pieces: Seq<Content>) -> bool {
    &&& decompressed(data) matches Some(stream) && goes_on_with(stream, size, laid_out(pieces))
    &&& pieces_fit(pieces, size)
}

/// Every answer of `open_object` is an object that holds the pieces of the stream that was asked for.
pub open spec fn opens<ObjectID: FsVerityHashValue, O: Fn(&ObjectID) -> Result<Vec<u8>, Error>>(
    open_object: O,
    pieces: spec_fn(Seq<u8>) -> Seq<Content>,
) -> bool {
    forall|id: ObjectID, answer: Result<Vec<u8>, Error>| #[trigger]
        call_ensures(open_object, (&id,), answer) ==> (answer matches Ok(data) && object_holds(
            data@,
            ObjectID::size(),
            pieces(id.bytes()),
        ))
}

/// Streams are verified where the content of each has the digest that it has to have, all of it, and
/// only there; then the digest that comes out is that of all content of the first stream. Otherwise one
/// that has another digest is named, with both digests.
pub proof fn streams_are_verified<
    ObjectID: FsVerityHashValue,
    O: Fn(&ObjectID) -> Result<Vec<u8>, Error>,
    F: Fn(&ObjectID) -> Result<Vec<u8>, Error> + Copy,
>(
    d: &Downloader<ObjectID>,
    open_object: O,
    load_data: F,
    pieces: spec_fn(Seq<u8>) -> Seq<Content>,
    objects: spec_fn(Seq<u8>) -> Seq<u8>,
    r: Result<(Sha256Digest, ObjectID), Refusal<ObjectID>>,
)
    requires
        d.wf(),
        opens(open_object, pieces),
        loads(load_data, objects),
        call_ensures(Downloader::<ObjectID>::verify_streams::<O, F>, (d, open_object, load_data), r),
    ensures
        match r {
            Ok((digest, id)) => {
                &&& id.bytes() == d.first()
                &&& digest@ == sha256(joined(pieces(d.first()), objects))
                &&& forall|i: int|
                    0 <= i < d.needed().streams.len() ==> ((#[trigger] d.needed().streams[i]).1 matches Some(expected)
                        ==> expected == sha256(joined(pieces(d.needed().streams[i].0), objects)))
            },
            Err(e) => {
                &&& e.error == Error::ChecksumMismatch
                &&& exists|i: int|
                    0 <= i < d.needed().streams.len() && {
                        let (stream, expected) = #[trigger] d.needed().streams[i];
                        let found = sha256(joined(pieces(stream), objects));
                        &&& expected is Some && expected != Some(found)
                        &&& e.stream matches Some(id) && id.bytes() == stream
                        &&& maybe_digest(e.expected) == expected
                        &&& maybe_digest(e.found) == Some(found)
                    }
            },
        },
{
    let streams = d.needed().streams;
    assert forall|id: ObjectID, data: Vec<u8>, result: Result<Seq<u8>, Error>|
        #[trigger] call_ensures(open_object, (&id,), Ok::<Vec<u8>, Error>(data)) && #[trigger] object_measures(
            data@,
            load_data,
            result,
        ) implies result == Ok::<Seq<u8>, Error>(sha256(joined(pieces(id.bytes()), objects))) by {
        only_all_pieces_measured(
            data@,
            decompressed(data@)->0,
            pieces(id.bytes()),
            load_data,
            objects,
            result,
        );
    }
    match r {
        Ok((digest, id)) => {
            let digests = choose|digests: Seq<Seq<u8>>| #[trigger]
                streams_verified(streams, open_object, load_data, digests) && digests[rank(streams, d.first()) as int]
                    == digest@;
            assert forall|i: int| 0 <= i < streams.len() implies digests[i] == sha256(
                joined(pieces((#[trigger] streams[i]).0), objects),
            ) by {
                assert(stream_verified(streams[i], open_object, load_data, digests[i]));
            }
            rank_facts(streams, d.first());
            assert(streams[rank(streams, d.first()) as int].0 == d.first());
        },
        Err(e) => {
            let i = choose|i: int|
                0 <= i < streams.len() && stream_refused(
                    #[trigger] streams[i],
                    open_object,
                    load_data,
                    e.error,
                    maybe_digest(e.found),
                ) && e.subject() == (Some(streams[i].0), streams[i].1, maybe_digest(e.found));
            assert(streams[i] == (streams[i].0, streams[i].1));
        },
    }
}

/// Streams are not verified where one of them cannot be opened.
pub proof fn unopened_is_not_verified<
    ObjectID: FsVerityHashValue,
    O: Fn(&ObjectID) -> Result<Vec<u8>, Error>,
    F: Fn(&ObjectID) -> Result<Vec<u8>, Error> + Copy,
>(
    d: &Downloader<ObjectID>,
    open_object: O,
    load_data: F,
    i: int,
    r: Result<(Sha256Digest, ObjectID), Refusal<ObjectID>>,
)
    requires
        d.wf(),
        0 <= i < d.needed().streams.len(),
        forall|id: ObjectID, answer: Result<Vec<u8>, Error>|
            id.bytes() == d.needed().streams[i].0 && #[trigger] call_ensures(open_object, (&id,), answer) ==> answer
                is Err,
        call_ensures(Downloader::<ObjectID>::verify_streams::<O, F>, (d, open_object, load_data), r),
    ensures
        r is Err,
{
    let streams = d.needed().streams;
    if let Ok((digest, _)) = r {
        let digests = choose|digests: Seq<Seq<u8>>| #[trigger]
            streams_verified(streams, open_object, load_data, digests) && digests[rank(streams, d.first()) as int]
                == digest@;
        assert(stream_verified(streams[i], open_object, load_data, digests[i]));
    }
}

/// A download starts with one stream, which waits, and knows nothing else.
pub proof fn download_started<ObjectID: FsVerityHashValue>(id: ObjectID, d: Downloader<ObjectID>)
    requires
        call_ensures(Downloader::<ObjectID>::new, (id,), d),
    ensures
        d.wf(),
        d.first() == id.bytes(),
        d.needed().streams == seq![(id.bytes(), None::<Seq<u8>>)],
        d.needed().todo == seq![id.bytes()],
        d.needed().objects.len() == 0,
{
}

/// The objects that are asked for are those that are known, each once, and no more than the limit of
/// a hundred at a time.
pub proof fn objects_asked_for<ObjectID: FsVerityHashValue>(d: &Downloader<ObjectID>, queue: ObjectQueue<ObjectID>)
    requires
        d.wf(),
        call_ensures(Downloader::<ObjectID>::objects, (d,), queue),
    ensures
        queue.wf(),
        queue.handed_out() == 0,
        queue.running() == 0,
        forall|id: Seq<u8>| queue.all().contains(id) <==> #[trigger] has_key(d.needed().objects, id),
        queue.all().no_duplicates(),
        MAX_REQUESTS == 100,
        queue.wf() ==> queue.running() <= 100,
{
    let known = d.needed().objects;
    assert forall|id: Seq<u8>| queue.all().contains(id) <==> #[trigger] has_key(known, id) by {
        rank_facts(known, id);
        if queue.all().contains(id) {
            let i = choose|i: int| 0 <= i < queue.all().len() && queue.all()[i] == id;
            assert(queue.all()[i] == known[i].0);
            rank_at(known, i);
        }
        if has_key(known, id) {
            assert(queue.all()[rank(known, id) as int] == known[rank(known, id) as int].0);
        }
    }
    assert forall|i: int, j: int| 0 <= i < queue.all().len() && 0 <= j < queue.all().len() && i != j implies queue.all()[i]
        != queue.all()[j] by {
        assert(queue.all()[i] == known[i].0 && queue.all()[j] == known[j].0);
        rank_at(known, i);
        rank_at(known, j);
    }
}

/// The stream that waits longest comes last: the next one is the one that was noted last, and it does
/// not wait any more.
pub proof fn next_stream_taken<ObjectID: FsVerityHashValue>(d: &mut Downloader<ObjectID>, r: Option<ObjectID>)
    requires
        old(d).wf(),
        call_ensures(Downloader::<ObjectID>::next_stream, (d,), r),
    ensures
        final(d).first() == old(d).first(),
        final(d).needed().streams == old(d).needed().streams,
        final(d).needed().objects == old(d).needed().objects,
        match r {
            Some(id) => old(d).needed().todo == final(d).needed().todo.push(id.bytes()),
            None => old(d).needed().todo.len() == 0 && final(d).needed().todo.len() == 0,
        },
{
    if let Some(id) = r {
        assert(old(d).needed().todo =~= final(d).needed().todo.push(id.bytes()));
    }
}

/// Streams and objects are counted, and each stream is given with its digest.
pub proof fn known_are_given<ObjectID: FsVerityHashValue>(
    d: &Downloader<ObjectID>,
    streams: usize,
    objects: usize,
    i: usize,
    r: (ObjectID, Option<Sha256Digest>),
)
    requires
        d.wf(),
        i < d.needed().streams.len(),
        call_ensures(Downloader::<ObjectID>::stream_count, (d,), streams),
        call_ensures(Downloader::<ObjectID>::object_count, (d,), objects),
        call_ensures(Downloader::<ObjectID>::stream_at, (d, i), r),
    ensures
        streams == d.needed().streams.len(),
        objects == d.needed().objects.len(),
        r.0.bytes() == d.needed().streams[i as int].0,
        match d.needed().streams[i as int].1 {
            Some(digest) => r.1 matches Some(found) && found@ == digest,
            None => r.1 is None,
        },
{
}

/// Objects are handed out one after the other, while fewer than a hundred run and some are left. One
/// more runs then.
pub proof fn object_handed_out<ObjectID: FsVerityHashValue>(queue: &mut ObjectQueue<ObjectID>, r: Option<ObjectID>)
    requires
        old(queue).wf(),
        call_ensures(ObjectQueue::<ObjectID>::start, (queue,), r),
    ensures
        final(queue).all() == old(queue).all(),
        r is Some <==> old(queue).running() < 100 && old(queue).handed_out() < old(queue).all().len(),
        match r {
            Some(id) => {
                &&& id.bytes() == old(queue).all()[old(queue).handed_out() as int]
                &&& final(queue).handed_out() == old(queue).handed_out() + 1
                &&& final(queue).running() == old(queue).running() + 1
            },
            None => final(queue).handed_out() == old(queue).handed_out() && final(queue).running() == old(queue).running(),
        },
{
}

/// An object that is there makes room for one more.
pub proof fn object_finished<ObjectID: FsVerityHashValue>(queue: &mut ObjectQueue<ObjectID>)
    requires
        old(queue).wf(),
        old(queue).running() > 0,
        call_ensures(ObjectQueue::<ObjectID>::finished, (queue,), ()),
    ensures
        final(queue).wf(),
        final(queue).all() == old(queue).all(),
        final(queue).handed_out() == old(queue).handed_out(),
        final(queue).running() + 1 == old(queue).running(),
{
}

/// Looking into an object that does not decompress fails.
pub proof fn damaged_is_not_looked_into<ObjectID: FsVerityHashValue>(
    d: &mut Downloader<ObjectID>,
    data: Vec<u8>,
    r: Result<(), Refusal<ObjectID>>,
)
    requires
        old(d).wf(),
        decompressed(data@) is None,
        call_ensures(Downloader::<ObjectID>::visit_stream, (d, data), r),
    ensures
        r is Err,
{
}

/// Streams are not verified where the object of one of them does not decompress.
pub proof fn damaged_is_not_verified<
    ObjectID: FsVerityHashValue,
    O: Fn(&ObjectID) -> Result<Vec<u8>, Error>,
    F: Fn(&ObjectID) -> Result<Vec<u8>, Error> + Copy,
>(
    d: &Downloader<ObjectID>,
    open_object: O,
    load_data: F,
    i: int,
    r: Result<(Sha256Digest, ObjectID), Refusal<ObjectID>>,
)
    requires
        d.wf(),
        0 <= i < d.needed().streams.len(),
        forall|id: ObjectID, data: Vec<u8>|
            id.bytes() == d.needed().streams[i].0 && #[trigger] call_ensures(
                open_object,
                (&id,),
                Ok::<Vec<u8>, Error>(data),
            ) ==> decompressed(data@) is None,
        call_ensures(Downloader::<ObjectID>::verify_streams::<O, F>, (d, open_object, load_data), r),
    ensures
        r is Err,
{
    let streams = d.needed().streams;
    if let Ok((digest, _)) = r {
        let digests = choose|digests: Seq<Seq<u8>>| #[trigger]
            streams_verified(streams, open_object, load_data, digests) && digests[rank(streams, d.first()) as int]
                == digest@;
        assert(stream_verified(streams[i], open_object, load_data, digests[i]));
    }
}

/// Looking into a stream that was opened, from any source, takes in all that it refers to and nothing
/// else: see `stream_looked_into`.
pub proof fn opened_stream_looked_into<R: ByteSource, ObjectID: FsVerityHashValue>(
    d: &mut Downloader<ObjectID>,
    reader: &mut SplitStreamReader<R, ObjectID>,
    pieces: Seq<Content>,
    r: Result<(), Refusal<ObjectID>>,
)
    requires
        old(d).wf(),
        pieces_fit(pieces, ObjectID::size()),
        stands_at(*old(reader), laid_out(pieces), 0),
        call_ensures(Downloader::<ObjectID>::visit::<R>, (d, reader), r),
    ensures
        final(d).first() == old(d).first(),
        r is Err <==> conflicting(old(d).needed(), old(reader).refs.entries()),
        r is Ok ==> {
            let before = old(d).needed();
            let after = final(d).needed();
            let entries = old(reader).refs.entries();
            &&& grows(before, after)
            &&& forall|i: int|
                0 <= i < entries.len() ==> value_at(after.streams, (#[trigger] entries[i]).1) == Some(
                    Some(entries[i].0),
                )
            &&& forall|i: int|
                0 <= i < identifiers(pieces).len() ==> has_key(after.streams, #[trigger] identifiers(pieces)[i])
                    || has_key(after.objects, identifiers(pieces)[i])
            &&& forall|id: Seq<u8>| #[trigger]
                has_key(after.streams, id) && !has_key(before.streams, id) ==> exists|i: int|
                    0 <= i < entries.len() && (#[trigger] entries[i]).1 == id
            &&& forall|id: Seq<u8>| #[trigger]
                has_key(after.objects, id) && !has_key(before.objects, id) ==> !has_key(after.streams, id)
                    && identifiers(pieces).contains(id)
        },
{
    let size = ObjectID::size();
    let entries = old(reader).refs.entries();
    assert forall|i: int| 0 <= i < entries.len() implies (#[trigger] entries[i]).1.len() == size by {
        old(reader).refs.map@[i].verity.bytes_size();
    }
    pieces_are_read(pieces, size);
    all_taken_in(old(d).needed(), entries, pieces, old(d).first(), size);
}

} // verus!
