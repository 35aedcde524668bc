//! Downloading a split stream with all that it refers to: what to ask for, and what to accept.
//!
//! A `Downloader` knows the split streams and objects that are needed. Whoever does the
//! transfers takes from it what to get next, and hands it each stream that was got.

use vstd::prelude::*;
use crate::bytemap::{
    has_key, in_order, map_each, map_each_facts, put, put_facts, rank, rank_at, rank_facts, value_at, ByteMap,
};
use crate::bytestr::{copy, same_bytes};
use crate::compress::{decompressed, ZstdDecoder};
use crate::error::Error;
use crate::fsverity::{object_pathname, pathname_object, FsVerityHashValue};
use crate::hash::{sha256, sha256_finalize, sha256_new, Sha256Digest};
use crate::io::{ByteSink, ByteSource};
use crate::splitstream::{
    contents_from, header_at, ids_of, is_read_error, joins_to, references, verities, DigestMapEntry, Position,
    SplitStreamReader,
};

verus! {

/// The most objects that are asked for at a time.
pub const MAX_REQUESTS: usize = 100;

/// What is known to be needed.
pub struct Needed {
    /// The split streams, and the SHA-256 digest that the content of each has to have. Only the
    /// stream that the download starts with has none.
    pub streams: Seq<(Seq<u8>, Option<Seq<u8>>)>,
    /// The streams that were not looked into yet.
    pub todo: Seq<Seq<u8>>,
    /// The other objects.
    pub objects: Seq<(Seq<u8>, ())>,
}

/// What is known at the start: a single stream.
pub open spec fn first_needed(id: Seq<u8>) -> Needed {
    Needed { streams: seq![(id, None)], todo: seq![id], objects: seq![] }
}

/// Takes note of a stream, by the digest of its content and its identifier.
pub open spec fn note_stream(n: Needed, entry: (Seq<u8>, Seq<u8>)) -> Result<Needed, Error> {
    match value_at(n.streams, entry.1) {
        None => Ok(
            Needed {
                streams: put(n.streams, entry.1, Some(entry.0)),
                todo: n.todo.push(entry.1),
                ..n
            },
        ),
        Some(Some(previous)) => if previous == entry.0 {
            Ok(n)
        } else {
            Err(Error::BodyHashMismatch)
        },
        Some(None) => Err(Error::RecursiveStream),
    }
}

/// Takes note of some streams, up to the first that is refused.
pub open spec fn note_streams(n: Needed, entries: Seq<(Seq<u8>, Seq<u8>)>) -> Result<Needed, Error>
    decreases entries.len(),
{
    if entries.len() == 0 {
        Ok(n)
    } else {
        match note_streams(n, entries.drop_last()) {
            Ok(before) => note_stream(before, entries.last()),
            Err(e) => Err(e),
        }
    }
}

/// Takes note of an object, where it is not a stream.
pub open spec fn note_object(n: Needed, id: Seq<u8>) -> Needed {
    if has_key(n.streams, id) {
        n
    } else {
        Needed { objects: put(n.objects, id, ()), ..n }
    }
}

/// Takes note of some objects.
pub open spec fn note_objects(n: Needed, ids: Seq<Seq<u8>>) -> Needed
    decreases ids.len(),
{
    if ids.len() == 0 {
        n
    } else {
        note_object(note_objects(n, ids.drop_last()), ids.last())
    }
}

/// Takes note of all that a stream refers to.
pub open spec fn note_all(n: Needed, entries: Seq<(Seq<u8>, Seq<u8>)>, ids: Seq<Seq<u8>>) -> Result<Needed, Error> {
    match note_streams(n, entries) {
        Ok(before) => Ok(note_objects(before, ids)),
        Err(e) => Err(e),
    }
}

/// What is known after some streams were noted, up to the first that is refused.
pub open spec fn noted_streams(n: Needed, entries: Seq<(Seq<u8>, Seq<u8>)>) -> Needed
    decreases entries.len(),
{
    if entries.len() == 0 {
        n
    } else {
        match note_streams(n, entries.drop_last()) {
            Ok(before) => match note_stream(before, entries.last()) {
                Ok(after) => after,
                Err(_) => before,
            },
            Err(_) => noted_streams(n, entries.drop_last()),
        }
    }
}

/// What is known after all that a stream refers to was noted: the streams, and the objects where no
/// stream is refused.
pub open spec fn noted_all(n: Needed, entries: Seq<(Seq<u8>, Seq<u8>)>, ids: Seq<Seq<u8>>) -> Needed {
    match note_streams(n, entries) {
        Ok(before) => note_objects(before, ids),
        Err(_) => noted_streams(n, entries),
    }
}

/// What is known to be needed makes sense, where identifiers have `size` bytes: streams and
/// objects are in order, each stream that is still to be looked into is one of the streams and
/// waits once, and the first stream alone has no digest.
pub open spec fn needed_wf(n: Needed, first: Seq<u8>, size: nat) -> bool {
    &&& in_order(n.streams)
    &&& in_order(n.objects)
    &&& forall|i: int|
        0 <= i < n.streams.len() ==> (#[trigger] n.streams[i]).0.len() == size && (n.streams[i].1 is None
            <==> n.streams[i].0 == first)
    &&& forall|i: int| 0 <= i < n.objects.len() ==> (#[trigger] n.objects[i]).0.len() == size
    &&& forall|i: int| 0 <= i < n.todo.len() ==> has_key(n.streams, #[trigger] n.todo[i])
    &&& n.todo.no_duplicates()
    &&& has_key(n.streams, first)
}

/// Taking note of a stream keeps things in order.
pub proof fn note_stream_wf(n: Needed, entry: (Seq<u8>, Seq<u8>), first: Seq<u8>, size: nat)
    requires
        needed_wf(n, first, size),
        entry.1.len() == size,
    ensures
        note_stream(n, entry) matches Ok(after) ==> needed_wf(after, first, size),
{
    if value_at(n.streams, entry.1) is None {
        let after = note_stream(n, entry)->Ok_0;
        put_facts(n.streams, entry.1, Some(entry.0));
        rank_facts(n.streams, entry.1);
        let at = rank(n.streams, entry.1) as int;
        assert forall|i: int| 0 <= i < after.streams.len() implies (#[trigger] after.streams[i]).0.len() == size && (
        after.streams[i].1 is None <==> after.streams[i].0 == first) by {
            if i != at {
                let j = if i < at {
                    i
                } else {
                    i - 1
                };
                assert(after.streams[i] == n.streams[j]);
            }
        }
        assert forall|i: int| 0 <= i < after.todo.len() implies has_key(after.streams, #[trigger] after.todo[i]) by {
            if i < n.todo.len() {
                assert(after.todo[i] == n.todo[i]);
                assert(has_key(n.streams, n.todo[i]));
                assert(value_at(n.streams, n.todo[i]) is Some);
                assert(value_at(after.streams, n.todo[i]) is Some);
            }
        }
        assert(value_at(after.streams, first) is Some) by {
            assert(value_at(n.streams, first) is Some);
        }
    }
}

/// Taking note of an object keeps things in order.
pub proof fn note_object_wf(n: Needed, id: Seq<u8>, first: Seq<u8>, size: nat)
    requires
        needed_wf(n, first, size),
        id.len() == size,
    ensures
        needed_wf(note_object(n, id), first, size),
{
    if !has_key(n.streams, id) {
        let after = note_object(n, id);
        put_facts(n.objects, id, ());
        rank_facts(n.objects, id);
        let at = rank(n.objects, id) as int;
        assert forall|i: int| 0 <= i < after.objects.len() implies (#[trigger] after.objects[i]).0.len() == size by {
            if i != at {
                let j = if has_key(n.objects, id) || i < at {
                    i
                } else {
                    i - 1
                };
                assert(after.objects[i] == n.objects[j]);
            }
        }
    }
}

/// The bytes of a digest that may be missing.
pub open spec fn maybe_digest(d: Option<Sha256Digest>) -> Option<Seq<u8>> {
    match d {
        Some(d) => Some(d@),
        None => None,
    }
}

/// What an error is about: a stream, the digest that its content should have, and the digest that it
/// has or is said to have.
pub type Subject = (Option<Seq<u8>>, Option<Seq<u8>>, Option<Seq<u8>>);

/// Why a download is given up.
#[derive(Debug, PartialEq, Eq)]
pub struct Refusal<ObjectID: FsVerityHashValue> {
    /// What went wrong.
    pub error: Error,
    /// The stream that it went wrong with, where that is known.
    pub stream: Option<ObjectID>,
    /// The digest that the content of the stream should have, as far as that matters.
    pub expected: Option<Sha256Digest>,
    /// The digest that the content has, or that it has for the stream which refers to it, as far as
    /// that matters.
    pub found: Option<Sha256Digest>,
}

impl<ObjectID: FsVerityHashValue> Refusal<ObjectID> {
    /// What the error is about.
    pub open spec fn subject(self) -> Subject {
        (
            match self.stream {
                Some(id) => Some(id.bytes()),
                None => None,
            },
            maybe_digest(self.expected),
            maybe_digest(self.found),
        )
    }

    /// An error that is about no stream in particular.
    fn plain(error: Error) -> (r: Self)
        ensures
            r.error == error,
            r.subject() == nothing(),
    {
        Refusal { error, stream: None, expected: None, found: None }
    }
}

/// No stream in particular.
pub open spec fn nothing() -> Subject {
    (None, None, None)
}

/// What the error is about where a stream is refused.
pub open spec fn entry_subject(n: Needed, entry: (Seq<u8>, Seq<u8>)) -> Subject {
    (Some(entry.1), value_at(n.streams, entry.1)->0, Some(entry.0))
}

/// What the error is about where one of some streams is refused: the first such.
pub open spec fn entries_subject(n: Needed, entries: Seq<(Seq<u8>, Seq<u8>)>) -> Subject
    decreases entries.len(),
{
    if entries.len() == 0 {
        nothing()
    } else {
        match note_streams(n, entries.drop_last()) {
            Ok(before) => entry_subject(before, entries.last()),
            Err(_) => entries_subject(n, entries.drop_last()),
        }
    }
}

/// Keeps track of what a download needs.
pub struct Downloader<ObjectID: FsVerityHashValue> {
    my_id: ObjectID,
    splitstreams: ByteMap<Option<Sha256Digest>>,
    splitstreams_todo: Vec<ObjectID>,
    objects_todo: ByteMap<()>,
}

impl<ObjectID: FsVerityHashValue> Downloader<ObjectID> {
    /// The stream that the download starts with.
    pub closed spec fn first(&self) -> Seq<u8> {
        self.my_id.bytes()
    }

    /// What is known to be needed.
    pub closed spec fn needed(&self) -> Needed {
        Needed {
            streams: map_each(self.splitstreams.pairs(), |d: Option<Sha256Digest>| maybe_digest(d)),
            todo: ids_of(self.splitstreams_todo@),
            objects: self.objects_todo.pairs(),
        }
    }

    /// What is known makes sense.
    pub open spec fn wf(&self) -> bool {
        needed_wf(self.needed(), self.first(), ObjectID::size())
    }

    /// A download that starts with the stream `my_id`.
    pub fn new(my_id: ObjectID) -> (r: Self)
        ensures
            r.wf(),
            r.first() == my_id.bytes(),
            r.needed() == first_needed(my_id.bytes()),
    {
        let ghost f = |d: Option<Sha256Digest>| maybe_digest(d);
        let mut splitstreams: ByteMap<Option<Sha256Digest>> = ByteMap::new();
        let ghost none = splitstreams.pairs();
        splitstreams.insert(copy(my_id.as_bytes()), None);
        let mut splitstreams_todo: Vec<ObjectID> = Vec::new();
        splitstreams_todo.push(my_id.duplicate());
        let r = Downloader { my_id, splitstreams, splitstreams_todo, objects_todo: ByteMap::new() };
        proof {
            my_id.bytes_size();
            let id = my_id.bytes();
            assert(none =~= seq![]);
            assert(r.needed().streams =~= seq![(id, None)]);
            assert(r.needed().todo =~= seq![id]);
            rank_at(r.needed().streams, 0);
        }
        r
    }

    /// The next stream to look into.
    pub fn next_stream(&mut self) -> (r: Option<ObjectID>)
        requires
            old(self).wf(),
        ensures
            final(self).wf(),
            final(self).first() == old(self).first(),
            match r {
                Some(id) => {
                    &&& old(self).needed().todo.len() > 0
                    &&& id.bytes() == old(self).needed().todo.last()
                    &&& final(self).needed() == Needed {
                        todo: old(self).needed().todo.drop_last(),
                        ..old(self).needed()
                    }
                },
                None => old(self).needed().todo.len() == 0 && final(self).needed() == old(self).needed(),
            },
    {
        let ghost before = self.splitstreams_todo@;
        let ghost needed = self.needed();
        let r: Option<ObjectID> = self.splitstreams_todo.pop();
        proof {
            if before.len() > 0 {
                assert(ids_of(self.splitstreams_todo@) =~= ids_of(before).drop_last());
                assert forall|i: int| 0 <= i < self.needed().todo.len() implies has_key(
                    self.needed().streams,
                    #[trigger] self.needed().todo[i],
                ) by {
                    assert(self.needed().todo[i] == needed.todo[i]);
                }
                assert forall|i: int, j: int|
                    0 <= i < self.needed().todo.len() && 0 <= j < self.needed().todo.len() && i
                        != j implies self.needed().todo[i] != self.needed().todo[j] by {
                    assert(self.needed().todo[i] == needed.todo[i] && self.needed().todo[j] == needed.todo[j]);
                }
            }
        }
        r
    }

    /// Takes note of a stream that another one refers to.
    ///
    /// All that refer to a stream have to agree on the digest of its content, and none may refer
    /// to the first stream.
    pub fn note_stream(&mut self, body: &Sha256Digest, verity: &ObjectID) -> (r: Result<(), Refusal<ObjectID>>)
        requires
            old(self).wf(),
        ensures
            final(self).wf(),
            final(self).first() == old(self).first(),
            match r {
                Ok(_) => note_stream(old(self).needed(), (body@, verity.bytes())) == Ok::<Needed, Error>(
                    final(self).needed(),
                ),
                Err(e) => {
                    &&& note_stream(old(self).needed(), (body@, verity.bytes())) == Err::<Needed, Error>(e.error)
                    &&& e.subject() == entry_subject(old(self).needed(), (body@, verity.bytes()))
                    &&& final(self).needed() == old(self).needed()
                },
            },
    {
        let ghost f = |d: Option<Sha256Digest>| maybe_digest(d);
        let ghost before = self.needed();
        let ghost todo = self.splitstreams_todo@;
        proof {
            verity.bytes_size();
            note_stream_wf(before, (body@, verity.bytes()), self.first(), ObjectID::size());
            map_each_facts(self.splitstreams.pairs(), f, verity.bytes(), Some(*body));
            rank_facts(self.splitstreams.pairs(), verity.bytes());
        }
        match self.splitstreams.get(verity.as_bytes()) {
            None => {
                self.splitstreams.insert(copy(verity.as_bytes()), Some(*body));
                self.splitstreams_todo.push(verity.duplicate());
                assert(ids_of(self.splitstreams_todo@) =~= ids_of(todo).push(verity.bytes()));
                Ok(())
            },
            Some(Some(previous)) => {
                if same_bytes(previous.as_slice(), body.as_slice()) {
                    Ok(())
                } else {
                    Err(
                        Refusal {
                            error: Error::BodyHashMismatch,
                            stream: Some(verity.duplicate()),
                            expected: Some(*previous),
                            found: Some(*body),
                        },
                    )
                }
            },
            Some(None) => Err(
                Refusal {
                    error: Error::RecursiveStream,
                    stream: Some(verity.duplicate()),
                    expected: None,
                    found: Some(*body),
                },
            ),
        }
    }

    /// Takes note of an object that a stream refers to, where it is not a stream.
    pub fn note_object(&mut self, id: &ObjectID)
        requires
            old(self).wf(),
        ensures
            final(self).wf(),
            final(self).first() == old(self).first(),
            final(self).needed() == note_object(old(self).needed(), id.bytes()),
    {
        let ghost f = |d: Option<Sha256Digest>| maybe_digest(d);
        proof {
            id.bytes_size();
            note_object_wf(self.needed(), id.bytes(), self.first(), ObjectID::size());
            map_each_facts(self.splitstreams.pairs(), f, id.bytes(), None);
            rank_facts(self.splitstreams.pairs(), id.bytes());
        }
        if self.splitstreams.get(id.as_bytes()).is_none() {
            self.objects_todo.insert(copy(id.as_bytes()), ());
        }
    }

    /// Takes note of all that a stream refers to.
    pub fn visit<R: ByteSource>(&mut self, reader: &mut SplitStreamReader<R, ObjectID>) -> (r: Result<
        (),
        Refusal<ObjectID>,
    >)
        requires
            old(self).wf(),
        ensures
            final(self).wf(),
            final(self).first() == old(self).first(),
            final(reader).failed() == (old(reader).failed() || outcome(r) == Err::<(), Error>(Error::Io)),
            r matches Err(e) ==> e.subject() == match note_streams(old(self).needed(), old(reader).map_entries()) {
                Ok(_) => nothing(),
                Err(_) => entries_subject(old(self).needed(), old(reader).map_entries()),
            },
            ({
                let entries = old(reader).map_entries();
                match old(reader).position() {
                    Some(at) => {
                        let (contents, end) = contents_from(at, ObjectID::size());
                        &&& outcome(r) == match note_streams(old(self).needed(), entries) {
                            Ok(_) => end,
                            Err(e) => Err::<(), Error>(e),
                        }
                        &&& final(self).needed() == noted_all(
                            old(self).needed(),
                            entries,
                            verities(entries) + references(contents),
                        )
                    },
                    None => {
                        &&& match note_streams(old(self).needed(), entries) {
                            Ok(_) => outcome(r) matches Err(e) && is_read_error(e),
                            Err(e) => outcome(r) == Err::<(), Error>(e),
                        }
                        &&& exists|ids: Seq<Seq<u8>>|
                            final(self).needed() == #[trigger] noted_all(old(self).needed(), entries, ids)
                    },
                }
            }),
    {
        let ghost entries = reader.map_entries();
        let ghost before = self.needed();
        let mut i: usize = 0;
        assert(entries.take(0) =~= seq![]);
        while i < reader.entry_count()
            invariant
                i <= entries.len(),
                entries == reader.map_entries(),
                entries == old(reader).map_entries(),
                reader.position() == old(reader).position(),
                reader.failed() == old(reader).failed(),
                before == old(self).needed(),
                self.wf(),
                self.first() == old(self).first(),
                note_streams(before, entries.take(i as int)) == Ok::<Needed, Error>(self.needed()),
            decreases entries.len() - i,
        {
            assert(entries.take(i + 1).drop_last() =~= entries.take(i as int));
            let entry: &DigestMapEntry<ObjectID> = reader.entry(i);
            if let Err(e) = self.note_stream(&entry.body, &entry.verity) {
                proof {
                    streams_prefix(before, entries, i + 1);
                    assert(self.needed() == noted_all(before, entries, seq![]));
                }
                return Err(e);
            }
            i = i + 1;
        }
        assert(entries.take(i as int) =~= entries);
        let ghost middle = self.needed();
        let mut ids: Vec<ObjectID> = Vec::new();
        let ghost none = ids@;
        let result: Result<(), Error> = reader.get_object_refs(&mut ids);
        let ghost all = ids_of(ids@);
        i = 0;
        assert(all.take(0) =~= seq![]);
        while i < ids.len()
            invariant
                i <= ids@.len(),
                all == ids_of(ids@),
                self.wf(),
                self.first() == old(self).first(),
                self.needed() == note_objects(middle, all.take(i as int)),
            decreases ids@.len() - i,
        {
            assert(all.take(i + 1).drop_last() =~= all.take(i as int));
            self.note_object(&ids[i]);
            i = i + 1;
        }
        proof {
            assert(all.take(i as int) =~= all);
            if let Some(at) = old(reader).position() {
                let (contents, end) = contents_from(at, ObjectID::size());
                assert(ids_of(none) + verities(entries) + references(contents) =~= verities(entries) + references(
                    contents,
                ));
            }
            assert(self.needed() == noted_all(before, entries, all));
        }
        match result {
            Ok(done) => Ok(done),
            Err(e) => Err(Refusal::plain(e)),
        }
    }

    /// Takes note of all that a stream refers to. `data` is the object that the stream is kept as.
    pub fn visit_stream(&mut self, data: Vec<u8>) -> (r: Result<(), Refusal<ObjectID>>)
        requires
            old(self).wf(),
        ensures
            final(self).wf(),
            final(self).first() == old(self).first(),
            match decompressed(data@) {
                Some(stream) => {
                    let noted = note_content(old(self).needed(), stream, ObjectID::size());
                    &&& match r {
                        Ok(_) => noted == Ok::<Needed, Error>(final(self).needed()),
                        Err(e) => {
                            &&& noted == Err::<Needed, Error>(e.error)
                            &&& e.subject() == content_subject(old(self).needed(), stream, ObjectID::size())
                        },
                    }
                    &&& final(self).needed() == noted_content(old(self).needed(), stream, ObjectID::size())
                },
                None => r is Err && exists|entries: Seq<(Seq<u8>, Seq<u8>)>, ids: Seq<Seq<u8>>|
                    final(self).needed() == #[trigger] noted_all(old(self).needed(), entries, ids),
            },
    {
        match SplitStreamReader::<ZstdDecoder, ObjectID>::new(data) {
            Ok(reader) => {
                let mut reader = reader;
                self.visit(&mut reader)
            },
            Err(e) => {
                assert(self.needed() == noted_all(self.needed(), seq![], seq![]));
                Err(Refusal::plain(e))
            },
        }
    }

    /// The number of streams.
    pub fn stream_count(&self) -> (r: usize)
        ensures
            r == self.needed().streams.len(),
    {
        self.splitstreams.len()
    }

    /// A stream, and the digest that its content has to have.
    pub fn stream_at(&self, i: usize) -> (r: (ObjectID, Option<Sha256Digest>))
        requires
            self.wf(),
            i < self.needed().streams.len(),
        ensures
            self.needed().streams[i as int] == (r.0.bytes(), maybe_digest(r.1)),
    {
        let entry: &(Vec<u8>, Option<Sha256Digest>) = &self.splitstreams.entries[i];
        assert(self.needed().streams[i as int].0.len() == ObjectID::size());
        (ObjectID::from_bytes(entry.0.as_slice()), entry.1)
    }

    /// The number of objects that are needed besides the streams.
    pub fn object_count(&self) -> (r: usize)
        ensures
            r == self.needed().objects.len(),
    {
        self.objects_todo.len()
    }

    /// The objects that are needed besides the streams.
    pub fn objects(&self) -> (r: ObjectQueue<ObjectID>)
        requires
            self.wf(),
        ensures
            r.wf(),
            r.handed_out() == 0,
            r.running() == 0,
            r.all().len() == self.needed().objects.len(),
            forall|i: int| 0 <= i < r.all().len() ==> #[trigger] r.all()[i] == self.needed().objects[i].0,
    {
        let mut ids: Vec<ObjectID> = Vec::new();
        let mut i: usize = 0;
        while i < self.objects_todo.len()
            invariant
                self.wf(),
                i <= self.objects_todo.entries@.len(),
                ids@.len() == i,
                forall|j: int| 0 <= j < i ==> (#[trigger] ids@[j]).bytes() == self.needed().objects[j].0,
            decreases self.objects_todo.entries@.len() - i,
        {
            assert(self.needed().objects[i as int].0.len() == ObjectID::size());
            ids.push(ObjectID::from_bytes(self.objects_todo.entries[i].0.as_slice()));
            i = i + 1;
        }
        ObjectQueue { ids, next: 0, running: 0 }
    }
}

/// Streams are refused where some of them, from the first on, are.
proof fn streams_prefix(n: Needed, entries: Seq<(Seq<u8>, Seq<u8>)>, count: int)
    requires
        0 <= count <= entries.len(),
        note_streams(n, entries.take(count)) is Err,
    ensures
        note_streams(n, entries) == note_streams(n, entries.take(count)),
        noted_streams(n, entries) == noted_streams(n, entries.take(count)),
        entries_subject(n, entries) == entries_subject(n, entries.take(count)),
    decreases entries.len(),
{
    if count < entries.len() {
        assert(entries.drop_last().take(count) =~= entries.take(count));
        streams_prefix(n, entries.drop_last(), count);
    } else {
        assert(entries.take(count) =~= entries);
    }
}

/// Takes note of all that the content of a stream refers to, where identifiers have `size` bytes.
pub open spec fn note_content(n: Needed, stream: Seq<u8>, size: nat) -> Result<Needed, Error> {
    match header_at(stream, size) {
        Err(e) => Err(e),
        Ok((entries, rest)) => match note_streams(n, entries) {
            Err(e) => Err(e),
            Ok(before) => {
                let (contents, end) = contents_from(Position { rest, inline: 0 }, size);
                match end {
                    Err(e) => Err(e),
                    Ok(_) => Ok(note_objects(before, verities(entries) + references(contents))),
                }
            },
        },
    }
}

/// What the error is about where the content of a stream is refused.
pub open spec fn content_subject(n: Needed, stream: Seq<u8>, size: nat) -> Subject {
    match header_at(stream, size) {
        Err(_) => nothing(),
        Ok((entries, _)) => match note_streams(n, entries) {
            Ok(_) => nothing(),
            Err(_) => entries_subject(n, entries),
        },
    }
}

/// How a step of a download ended.
pub open spec fn outcome<ObjectID: FsVerityHashValue>(r: Result<(), Refusal<ObjectID>>) -> Result<(), Error> {
    match r {
        Ok(done) => Ok(done),
        Err(e) => Err(e.error),
    }
}

/// What is known after all that the content of a stream refers to was noted, up to the first stream
/// that is refused or the place where the content is damaged.
pub open spec fn noted_content(n: Needed, stream: Seq<u8>, size: nat) -> Needed {
    match header_at(stream, size) {
        Err(_) => n,
        Ok((entries, rest)) => noted_all(
            n,
            entries,
            verities(entries) + references(contents_from(Position { rest, inline: 0 }, size).0),
        ),
    }
}

/// Objects that are asked for side by side, no more than a number of them at a time.
pub struct ObjectQueue<ObjectID: FsVerityHashValue> {
    ids: Vec<ObjectID>,
    next: usize,
    running: usize,
}

impl<ObjectID: FsVerityHashValue> ObjectQueue<ObjectID> {
    /// All objects.
    pub closed spec fn all(&self) -> Seq<Seq<u8>> {
        ids_of(self.ids@)
    }

    /// How many of them were handed out, from the first on.
    pub closed spec fn handed_out(&self) -> nat {
        self.next as nat
    }

    /// How many of those are not finished.
    pub closed spec fn running(&self) -> nat {
        self.running as nat
    }

    /// No more than the limit is asked for at a time, and no more than there are.
    pub open spec fn wf(&self) -> bool {
        self.running() <= self.handed_out() <= self.all().len() && self.running() <= MAX_REQUESTS
    }

    /// As many run as can: the limit is reached, or all were handed out.
    pub open spec fn busy(&self) -> bool {
        self.running() == MAX_REQUESTS || self.handed_out() == self.all().len()
    }

    /// The next object to ask for, where there is one and there is room for one more.
    pub fn start(&mut self) -> (r: Option<ObjectID>)
        requires
            old(self).wf(),
        ensures
            final(self).wf(),
            final(self).all() == old(self).all(),
            match r {
                Some(id) => {
                    &&& !old(self).busy()
                    &&& id.bytes() == old(self).all()[old(self).handed_out() as int]
                    &&& final(self).handed_out() == old(self).handed_out() + 1
                    &&& final(self).running() == old(self).running() + 1
                },
                None => {
                    &&& old(self).busy()
                    &&& final(self).handed_out() == old(self).handed_out()
                    &&& final(self).running() == old(self).running()
                },
            },
    {
        if self.running >= MAX_REQUESTS || self.next >= self.ids.len() {
            return None;
        }
        let id: ObjectID = self.ids[self.next].duplicate();
        self.next = self.next + 1;
        self.running = self.running + 1;
        Some(id)
    }

    /// An object that was asked for is there.
    pub fn finished(&mut self)
        requires
            old(self).wf(),
            old(self).running() > 0,
        ensures
            final(self).wf(),
            final(self).all() == old(self).all(),
            final(self).handed_out() == old(self).handed_out(),
            final(self).running() == old(self).running() - 1,
    {
        self.running = self.running - 1;
    }
}

/// The content type of an answer that names an object in place of being one.
pub open spec fn symlink_type() -> Seq<u8> {
    seq![
        116u8, 101u8, 120u8, 116u8, 47u8, 120u8, 45u8, 115u8, 121u8, 109u8, 108u8, 105u8, 110u8, 107u8, 45u8, 116u8,
        97u8, 114u8, 103u8, 101u8, 116u8,
    ]
}

/// Whether an answer names an object, by its content type.
pub fn is_symlink(content_type: Option<&[u8]>) -> (r: bool)
    ensures
        r == (content_type matches Some(t) && t@ == symlink_type()),
{
    let expected: [u8; 21] = [
        116u8, 101u8, 120u8, 116u8, 47u8, 120u8, 45u8, 115u8, 121u8, 109u8, 108u8, 105u8, 110u8, 107u8, 45u8, 116u8,
        97u8, 114u8, 103u8, 101u8, 116u8,
    ];
    assert(expected@ =~= symlink_type());
    match content_type {
        Some(t) => same_bytes(t, expected.as_slice()),
        None => false,
    }
}

/// The object that an answer names, or nothing where the answer is itself the object.
pub fn named_object<ObjectID: FsVerityHashValue>(data: &[u8], is_symlink: bool) -> (r: Result<Option<ObjectID>, Error>)
    ensures
        match r {
            Ok(Some(id)) => is_symlink && pathname_object(data@, ObjectID::size()) == Some(id.bytes()),
            Ok(None) => !is_symlink,
            Err(e) => is_symlink && pathname_object(data@, ObjectID::size()) is None && e == Error::InvalidDigest,
        },
{
    if is_symlink {
        match ObjectID::from_object_pathname(data) {
            Ok(id) => Ok(Some(id)),
            Err(e) => Err(e),
        }
    } else {
        Ok(None)
    }
}

/// Accepts an object only where it is the one that was asked for.
pub fn check_object<ObjectID: FsVerityHashValue>(id: &ObjectID, actual_id: &ObjectID) -> (r: Result<(), Error>)
    ensures
        r == (if actual_id.bytes() == id.bytes() {
            Ok::<(), Error>(())
        } else {
            Err(Error::ObjectMismatch)
        }),
{
    if actual_id.same(id) {
        Ok(())
    } else {
        Err(Error::ObjectMismatch)
    }
}

/// What a reference leads to from a base URL.
pub uninterp spec fn joined_url(base: Seq<char>, input: Seq<char>) -> Option<Seq<char>>;

/// Calls `reqwest::Url::join` on the URL that `base` is read as, and gives the text of the URL
/// that comes out. What the text is for a base and an input is not said, only that it is the same
/// each time. There is none where the base is not a URL or the input cannot be followed from it.
#[verifier::external_body]
fn url_join(base: &str, input: &str) -> (r: Option<String>)
    ensures
        match r {
            Some(url) => joined_url(base@, input@) == Some(url@),
            None => joined_url(base@, input@) is None,
        },
{
    match reqwest::Url::parse(base) {
        Ok(url) => match url.join(input) {
            Ok(joined) => Some(joined.as_str().to_string()),
            Err(_) => None,
        },
        Err(_) => None,
    }
}

/// What a name leads to from a directory below a base URL.
pub open spec fn request_target(base: Seq<char>, dir: Seq<char>, name: Seq<char>) -> Option<Seq<char>> {
    match joined_url(base, dir) {
        Some(url) => joined_url(url, name),
        None => None,
    }
}

/// The URL of what is kept under a name in a directory below a base URL.
pub fn request_url(base: &str, dir: &str, name: &str) -> (r: Result<String, Error>)
    ensures
        match r {
            Ok(url) => request_target(base@, dir@, name@) == Some(url@),
            Err(e) => e == Error::InvalidUrl && request_target(base@, dir@, name@) is None,
        },
{
    match url_join(base, dir) {
        Some(url) => match url_join(url.as_str(), name) {
            Some(url) => Ok(url),
            None => Err(Error::InvalidUrl),
        },
        None => Err(Error::InvalidUrl),
    }
}

/// Calls `String::push`, which puts the character at the end of the string.
pub assume_specification[ String::push ](s: &mut String, c: char)
    ensures
        final(s)@ == old(s)@.push(c),
;

/// ASCII text as characters.
pub open spec fn ascii_text(s: Seq<u8>) -> Seq<char> {
    Seq::new(s.len(), |i: int| s[i] as char)
}

/// ASCII text as a string.
fn ascii_string(s: &[u8]) -> (r: String)
    ensures
        r@ == ascii_text(s@),
{
    let mut r: String = String::new();
    let mut i: usize = 0;
    assert(r@ =~= ascii_text(s@.take(0)));
    while i < s.len()
        invariant
            i <= s@.len(),
            r@ == ascii_text(s@.take(i as int)),
        decreases s@.len() - i,
    {
        r.push(s[i] as char);
        assert(r@ =~= ascii_text(s@.take(i + 1)));
        i = i + 1;
    }
    assert(s@.take(i as int) =~= s@);
    r
}

/// The URL of a stream that is kept under a name below a base URL.
pub fn stream_url(base: &str, name: &str) -> (r: Result<String, Error>)
    ensures
        match r {
            Ok(url) => request_target(base@, "streams/"@, name@) == Some(url@),
            Err(e) => e == Error::InvalidUrl && request_target(base@, "streams/"@, name@) is None,
        },
{
    request_url(base, "streams/", name)
}

/// The URL of an object below a base URL.
pub fn object_url<ObjectID: FsVerityHashValue>(base: &str, id: &ObjectID) -> (r: Result<String, Error>)
    ensures
        ({
            let target = request_target(base@, "objects/"@, ascii_text(object_pathname(id.bytes())));
            match r {
                Ok(url) => target == Some(url@),
                Err(e) => e == Error::InvalidUrl && target is None,
            }
        }),
{
    let name: String = ascii_string(id.to_object_pathname().as_slice());
    request_url(base, "objects/", name.as_str())
}

/// What measuring the content of a stream can come to: the SHA-256 digest of all content, where a
/// reference stands for what `load_data` gives for it, or an error.
pub open spec fn measures<ObjectID: FsVerityHashValue, F: Fn(&ObjectID) -> Result<Vec<u8>, Error>>(
    stream: Seq<u8>,
    load_data: F,
    result: Result<Seq<u8>, Error>,
) -> bool {
    match header_at(stream, ObjectID::size()) {
        Err(e) => result == Err::<Seq<u8>, Error>(e),
        Ok((_, rest)) => {
            let (contents, end) = contents_from(Position { rest, inline: 0 }, ObjectID::size());
            exists|out: Seq<u8>, joined: Result<(), Error>| #[trigger]
                joins_to(contents, end, load_data, out, joined) && result == match joined {
                    Ok(_) => Ok::<Seq<u8>, Error>(sha256(out)),
                    Err(e) => Err(e),
                }
        },
    }
}

/// What measuring the object that a stream is kept as can come to: an error where the object cannot
/// be decompressed.
pub open spec fn object_measures<ObjectID: FsVerityHashValue, F: Fn(&ObjectID) -> Result<Vec<u8>, Error>>(
    data: Seq<u8>,
    load_data: F,
    result: Result<Seq<u8>, Error>,
) -> bool {
    match decompressed(data) {
        Some(stream) => measures(stream, load_data, result),
        None => result is Err,
    }
}

/// The SHA-256 digest of the content of a stream. `data` is the object that the stream is kept as.
pub fn measure<ObjectID: FsVerityHashValue, F: Fn(&ObjectID) -> Result<Vec<u8>, Error>>(
    data: Vec<u8>,
    load_data: F,
) -> (r: Result<Sha256Digest, Error>)
    requires
        forall|id: &ObjectID| call_requires(load_data, (id,)),
    ensures
        match r {
            Ok(digest) => object_measures(data@, load_data, Ok(digest@)),
            Err(e) => object_measures(data@, load_data, Err(e)),
        },
{
    match SplitStreamReader::<ZstdDecoder, ObjectID>::new(data) {
        Ok(reader) => {
            let mut reader = reader;
            let mut context: sha2::Sha256 = sha256_new();
            let ghost start = context;
            let joined: Result<(), Error> = reader.cat(&mut context, load_data);
            proof {
                if let Some(stream) = decompressed(data@) {
                    let (_, rest) = header_at(stream, ObjectID::size())->Ok_0;
                    let (contents, end) = contents_from(Position { rest, inline: 0 }, ObjectID::size());
                    let out = choose|out: Seq<u8>|
                        context.written() == start.written() + out && #[trigger] joins_to(
                            contents,
                            end,
                            load_data,
                            out,
                            joined,
                        );
                    assert(context.written() =~= out);
                }
            }
            match joined {
                Ok(_) => Ok(sha256_finalize(context)),
                Err(e) => Err(e),
            }
        },
        Err(e) => Err(e),
    }
}

/// Accepts content only where it has the digest that it has to have, if any.
pub fn check_digest(measured: &Sha256Digest, expected: &Option<Sha256Digest>) -> (r: Result<(), Error>)
    ensures
        r == (match expected {
            Some(e) if e@ != measured@ => Err::<(), Error>(Error::ChecksumMismatch),
            _ => Ok(()),
        }),
{
    match expected {
        Some(e) => if same_bytes(e.as_slice(), measured.as_slice()) {
            Ok(())
        } else {
            Err(Error::ChecksumMismatch)
        },
        None => Ok(()),
    }
}

/// A stream was opened, measured and accepted.
pub open spec fn stream_verified<
    ObjectID: FsVerityHashValue,
    O: Fn(&ObjectID) -> Result<Vec<u8>, Error>,
    F: Fn(&ObjectID) -> Result<Vec<u8>, Error>,
>(stream: (Seq<u8>, Option<Seq<u8>>), open_object: O, load_data: F, digest: Seq<u8>) -> bool {
    &&& stream.1 matches Some(expected) ==> expected == digest
    &&& exists|id: ObjectID, data: Vec<u8>| #[trigger]
        call_ensures(open_object, (&id,), Ok::<Vec<u8>, Error>(data)) && id.bytes() == stream.0
            && object_measures(data@, load_data, Ok(digest))
}

/// A stream was not opened, not measured, or not accepted: then it has the digest `found`.
pub open spec fn stream_refused<
    ObjectID: FsVerityHashValue,
    O: Fn(&ObjectID) -> Result<Vec<u8>, Error>,
    F: Fn(&ObjectID) -> Result<Vec<u8>, Error>,
>(stream: (Seq<u8>, Option<Seq<u8>>), open_object: O, load_data: F, e: Error, found: Option<Seq<u8>>) -> bool {
    exists|id: ObjectID, answer: Result<Vec<u8>, Error>| #[trigger]
        call_ensures(open_object, (&id,), answer) && id.bytes() == stream.0 && match answer {
            Err(failure) => e == failure && found is None,
            Ok(data) => match found {
                None => object_measures(data@, load_data, Err(e)),
                Some(digest) => {
                    &&& e == Error::ChecksumMismatch
                    &&& object_measures(data@, load_data, Ok(digest))
                    &&& stream.1 is Some
                    &&& stream.1 != found
                },
            },
        }
}

/// Each of some streams was accepted, with its digest.
pub open spec fn streams_verified<
    ObjectID: FsVerityHashValue,
    O: Fn(&ObjectID) -> Result<Vec<u8>, Error>,
    F: Fn(&ObjectID) -> Result<Vec<u8>, Error>,
>(streams: Seq<(Seq<u8>, Option<Seq<u8>>)>, open_object: O, load_data: F, digests: Seq<Seq<u8>>) -> bool {
    &&& digests.len() == streams.len()
    &&& forall|i: int|
        0 <= i < streams.len() ==> stream_verified(#[trigger] streams[i], open_object, load_data, digests[i])
}

impl<ObjectID: FsVerityHashValue> Downloader<ObjectID> {
    /// Makes sure that the content of each stream has the digest that it has to have, and gives
    /// the digest of the first stream and its identifier. `open_object` gives the object that a
    /// stream is kept as, and `load_data` the one that a stream refers to.
    pub fn verify_streams<
        O: Fn(&ObjectID) -> Result<Vec<u8>, Error>,
        F: Fn(&ObjectID) -> Result<Vec<u8>, Error> + Copy,
    >(&self, open_object: O, load_data: F) -> (r: Result<(Sha256Digest, ObjectID), Refusal<ObjectID>>)
        requires
            self.wf(),
            forall|id: &ObjectID| call_requires(open_object, (id,)),
            forall|id: &ObjectID| call_requires(load_data, (id,)),
        ensures
            match r {
                Ok((digest, id)) => id.bytes() == self.first() && exists|digests: Seq<Seq<u8>>| #[trigger]
                    streams_verified(self.needed().streams, open_object, load_data, digests) && digests[rank(
                        self.needed().streams,
                        self.first(),
                    ) as int] == digest@,
                Err(e) => exists|i: int|
                    0 <= i < self.needed().streams.len() && stream_refused(
                        #[trigger] self.needed().streams[i],
                        open_object,
                        load_data,
                        e.error,
                        maybe_digest(e.found),
                    ) && e.subject() == (
                        Some(self.needed().streams[i].0),
                        self.needed().streams[i].1,
                        maybe_digest(e.found),
                    ),
            },
    {
        let ghost streams = self.needed().streams;
        let ghost mut digests: Seq<Seq<u8>> = seq![];
        let mut my_sha256: Sha256Digest = [0u8; 32];
        let mut i: usize = 0;
        while i < self.stream_count()
            invariant
                self.wf(),
                streams == self.needed().streams,
                forall|id: &ObjectID| call_requires(open_object, (id,)),
                forall|id: &ObjectID| call_requires(load_data, (id,)),
                i <= streams.len(),
                digests.len() == i,
                forall|j: int|
                    0 <= j < i ==> stream_verified(#[trigger] streams[j], open_object, load_data, digests[j]),
                i > rank(streams, self.first()) ==> digests[rank(streams, self.first()) as int] == my_sha256@,
            decreases streams.len() - i,
        {
            let (id, expected) = self.stream_at(i);
            let ghost stream = streams[i as int];
            let answer: Result<Vec<u8>, Error> = open_object(&id);
            let data: Vec<u8> = match answer {
                Ok(data) => data,
                Err(e) => {
                    assert(stream_refused(stream, open_object, load_data, e, None));
                    return Err(Refusal { error: e, stream: Some(id), expected, found: None });
                },
            };
            let ghost object = data;
            let measured: Sha256Digest = match measure::<ObjectID, F>(data, load_data) {
                Ok(measured) => measured,
                Err(e) => {
                    assert(stream_refused(stream, open_object, load_data, e, None));
                    return Err(Refusal { error: e, stream: Some(id), expected, found: None });
                },
            };
            if let Err(e) = check_digest(&measured, &expected) {
                assert(stream_refused(stream, open_object, load_data, e, Some(measured@)));
                return Err(Refusal { error: e, stream: Some(id), expected, found: Some(measured) });
            }
            proof {
                assert(stream_verified(stream, open_object, load_data, measured@));
                digests = digests.push(measured@);
                if i == rank(streams, self.first()) {
                    assert(stream.0 == self.first());
                } else if stream.0 == self.first() {
                    rank_at(streams, i as int);
                }
            }
            if id.same(&self.my_id) {
                my_sha256 = measured;
            }
            i = i + 1;
        }
        assert(streams_verified(streams, open_object, load_data, digests));
        Ok((my_sha256, self.my_id.duplicate()))
    }
}

} // verus!
