use std::collections::HashMap;

use sha2::Digest;

use composefs::download::{
    check_digest, check_object, is_symlink, measure, named_object, object_url, request_url, stream_url, Downloader,
    Refusal, MAX_REQUESTS,
};
use composefs::error::Error;
use composefs::fsverity::{FsVerityHashValue, Sha256HashValue};
use composefs::splitstream::{DigestMap, SplitStreamWriter};

type Id = Sha256HashValue;

fn digest(data: &[u8]) -> [u8; 32] {
    sha2::Sha256::digest(data).into()
}

/// Objects by their identifiers, as a server would have them.
struct Server {
    objects: HashMap<[u8; 32], Vec<u8>>,
}

impl Server {
    fn new() -> Server {
        Server { objects: HashMap::new() }
    }

    fn add(&mut self, data: &[u8]) -> Id {
        let id = digest(data);
        self.objects.insert(id, data.to_vec());
        Sha256HashValue(id)
    }

    /// A stream that refers to other streams, by content and identifier, and has an object in it.
    fn add_stream(&mut self, refs: &[([u8; 32], Id)], head: &[u8], object: &[u8]) -> Id {
        let mut map = DigestMap::new();
        for (body, verity) in refs {
            map.insert(body, verity);
        }
        let mut writer = SplitStreamWriter::<_, Id>::new(Some(map), None);
        writer.write_inline(head);
        let id = self.add(object);
        writer.write_stored(object, vec![], Ok(id)).unwrap();
        let data = writer.into_compressed().unwrap();
        self.add(&data)
    }

    fn get(&self, id: &Id) -> Result<Vec<u8>, Error> {
        self.objects.get(&id.0).cloned().ok_or(Error::Io)
    }

    /// Gets all streams from `id` on.
    fn streams(&self, id: Id) -> Result<Downloader<Id>, Refusal<Id>> {
        let mut downloader = Downloader::new(id);
        while let Some(id) = downloader.next_stream() {
            downloader.visit_stream(self.get(&id).unwrap())?;
        }
        Ok(downloader)
    }
}

fn all_objects(downloader: &Downloader<Id>) -> Vec<Id> {
    let mut queue = downloader.objects();
    let mut all = vec![];
    while let Some(id) = queue.start() {
        all.push(id);
        queue.finished();
    }
    all
}

#[test]
fn everything_is_found_once() {
    let mut server = Server::new();
    let leaf = server.add_stream(&[], b"leaf ", b"shared");
    let left = server.add_stream(&[(digest(b"leaf shared"), leaf)], b"left ", b"left object");
    let right = server.add_stream(&[(digest(b"leaf shared"), leaf)], b"right ", b"shared");
    let top = server.add_stream(
        &[(digest(b"left left object"), left), (digest(b"right shared"), right)],
        b"top ",
        b"top object",
    );

    let downloader = server.streams(top).ok().unwrap();
    assert_eq!(downloader.stream_count(), 4);
    let mut expected = vec![(top, None), (left, Some(digest(b"left left object")))];
    expected.push((right, Some(digest(b"right shared"))));
    expected.push((leaf, Some(digest(b"leaf shared"))));
    expected.sort_by_key(|s| s.0 .0);
    let found: Vec<(Id, Option<[u8; 32]>)> = (0..4).map(|i| downloader.stream_at(i)).collect();
    assert_eq!(found, expected);

    let mut objects: Vec<[u8; 32]> = all_objects(&downloader).iter().map(|id| id.0).collect();
    objects.sort();
    let mut expected = vec![digest(b"shared"), digest(b"left object"), digest(b"top object")];
    expected.sort();
    assert_eq!(objects, expected);

    let get = |id: &Id| server.get(id);
    let r = downloader.verify_streams(get, get);
    assert_eq!(r, Ok((digest(b"top top object"), top)));
}

#[test]
fn wrong_checksum_is_refused() {
    let mut server = Server::new();
    let leaf = server.add_stream(&[], b"leaf ", b"object");
    let top = server.add_stream(&[(digest(b"other content"), leaf)], b"top ", b"object");
    let downloader = server.streams(top).ok().unwrap();
    let get = |id: &Id| server.get(id);
    let refused = Refusal {
        error: Error::ChecksumMismatch,
        stream: Some(leaf),
        expected: Some(digest(b"other content")),
        found: Some(digest(b"leaf object")),
    };
    assert_eq!(downloader.verify_streams(get, get), Err(refused));
}

#[test]
fn missing_objects_are_reported() {
    let mut server = Server::new();
    let top = server.add_stream(&[], b"top ", b"object");
    let downloader = server.streams(top).ok().unwrap();
    let get = |id: &Id| server.get(id);
    let none = |_: &Id| Err(Error::NotFound);
    let refused = || Refusal { error: Error::NotFound, stream: Some(top), expected: None, found: None };
    assert_eq!(downloader.verify_streams(get, none), Err(refused()));
    assert_eq!(downloader.verify_streams(none, get), Err(refused()));
}

#[test]
fn digests_have_to_agree() {
    let mut server = Server::new();
    let leaf = server.add_stream(&[], b"leaf ", b"object");
    let other = server.add_stream(&[(digest(b"one"), leaf)], b"other ", b"object");
    let top = server.add_stream(&[(digest(b"two"), leaf), (digest(b"other object"), other)], b"top ", b"object");
    let refused = |expected: &[u8], found: &[u8]| Refusal {
        error: Error::BodyHashMismatch,
        stream: Some(leaf),
        expected: Some(digest(expected)),
        found: Some(digest(found)),
    };
    assert_eq!(server.streams(top).err(), Some(refused(b"two", b"one")));

    let mut downloader = Downloader::new(top);
    assert_eq!(downloader.note_stream(&digest(b"one"), &leaf), Ok(()));
    assert_eq!(downloader.note_stream(&digest(b"one"), &leaf), Ok(()));
    assert_eq!(downloader.note_stream(&digest(b"two"), &leaf), Err(refused(b"one", b"two")));
    assert_eq!(downloader.stream_count(), 2);
}

#[test]
fn the_first_stream_may_not_be_referred_to() {
    let first = Sha256HashValue([1u8; 32]);
    let mut downloader = Downloader::new(first);
    let refused =
        Refusal { error: Error::RecursiveStream, stream: Some(first), expected: None, found: Some([0u8; 32]) };
    assert_eq!(downloader.note_stream(&[0u8; 32], &first), Err(refused));
}

#[test]
fn streams_are_no_objects() {
    let first = Sha256HashValue([1u8; 32]);
    let mut downloader = Downloader::new(first);
    downloader.note_object(&first);
    downloader.note_object(&Sha256HashValue([3u8; 32]));
    downloader.note_object(&Sha256HashValue([2u8; 32]));
    downloader.note_object(&Sha256HashValue([3u8; 32]));
    assert_eq!(all_objects(&downloader), vec![Sha256HashValue([2u8; 32]), Sha256HashValue([3u8; 32])]);
}

#[test]
fn streams_wait_once() {
    let mut downloader = Downloader::new(Sha256HashValue([1u8; 32]));
    downloader.note_stream(&[0u8; 32], &Sha256HashValue([2u8; 32])).unwrap();
    assert_eq!(downloader.next_stream(), Some(Sha256HashValue([2u8; 32])));
    downloader.note_stream(&[0u8; 32], &Sha256HashValue([2u8; 32])).unwrap();
    assert_eq!(downloader.next_stream(), Some(Sha256HashValue([1u8; 32])));
    assert_eq!(downloader.next_stream(), None);
}

#[test]
fn damaged_stream_is_refused() {
    let mut downloader = Downloader::new(Sha256HashValue([1u8; 32]));
    let refused = Refusal { error: Error::Io, stream: None, expected: None, found: None };
    assert_eq!(downloader.visit_stream(b"not a stream".to_vec()), Err(refused));
}

#[test]
fn no_more_than_the_limit_at_a_time() {
    assert_eq!(MAX_REQUESTS, 100);
    let mut downloader = Downloader::new(Sha256HashValue([255u8; 32]));
    for i in 0..150u8 {
        downloader.note_object(&Sha256HashValue([i; 32]));
    }
    let mut queue = downloader.objects();
    let mut handed_out = 0;
    while queue.start().is_some() {
        handed_out += 1;
    }
    assert_eq!(handed_out, 100);
    for i in 0..150 {
        queue.finished();
        assert_eq!(queue.start().is_some(), i < 50);
    }
}

#[test]
fn content_types() {
    assert!(is_symlink(Some(b"text/x-symlink-target")));
    assert!(!is_symlink(Some(b"text/x-symlink-target; charset=utf-8")));
    assert!(!is_symlink(Some(b"application/octet-stream")));
    assert!(!is_symlink(None));
}

#[test]
fn answers() {
    let id = Sha256HashValue([0x1fu8; 32]);
    let target = format!("../objects/1f/{}", "1f".repeat(31));
    assert_eq!(named_object::<Id>(target.as_bytes(), true), Ok(Some(id)));
    assert_eq!(named_object::<Id>(target.as_bytes(), false), Ok(None));
    assert_eq!(named_object::<Id>(b"../objects/1f", true), Err(Error::InvalidDigest));
    assert_eq!(check_object(&id, &id.duplicate()), Ok(()));
    assert_eq!(check_object(&id, &Sha256HashValue([0u8; 32])), Err(Error::ObjectMismatch));
}

#[test]
fn urls() {
    assert_eq!(
        request_url("http://example.com/repo/", "objects/", "1f/2e"),
        Ok("http://example.com/repo/objects/1f/2e".to_string())
    );
    assert_eq!(
        request_url("http://example.com/repo", "streams/", "a b"),
        Ok("http://example.com/streams/a%20b".to_string())
    );
    assert_eq!(
        stream_url("http://example.com/repo/", "name"),
        Ok("http://example.com/repo/streams/name".to_string())
    );
    assert_eq!(
        object_url("http://example.com/repo/", &Sha256HashValue([0xa5u8; 32])),
        Ok(format!("http://example.com/repo/objects/a5/{}", "a5".repeat(31)))
    );
    assert_eq!(object_url("nowhere", &Sha256HashValue([0xa5u8; 32])), Err(Error::InvalidUrl));
    assert_eq!(stream_url("http://example.com/", "http://["), Err(Error::InvalidUrl));
    assert_eq!(request_url("not a url", "streams/", "x"), Err(Error::InvalidUrl));
    assert_eq!(request_url("http://example.com/", "streams/", "http://["), Err(Error::InvalidUrl));
}

#[test]
fn measuring() {
    let mut server = Server::new();
    let id = server.add_stream(&[], b"head ", b"object");
    let data = server.get(&id).unwrap();
    let measured = measure(data, |id: &Id| server.get(id)).unwrap();
    assert_eq!(measured, digest(b"head object"));
    assert_eq!(check_digest(&measured, &None), Ok(()));
    assert_eq!(check_digest(&measured, &Some(measured)), Ok(()));
    assert_eq!(check_digest(&measured, &Some([0u8; 32])), Err(Error::ChecksumMismatch));
}

#[test]
fn stream_that_is_cut_off_is_refused() {
    let mut server = Server::new();
    let id = server.add_stream(&[], b"head ", b"object");
    let mut data = server.get(&id).unwrap();
    data.pop();
    assert_eq!(measure(data.clone(), |id: &Id| server.get(id)), Err(Error::Io));
    let mut downloader = Downloader::new(id);
    assert_eq!(downloader.visit_stream(data).err().map(|e| e.error), Some(Error::Io));
}

#[test]
fn what_came_before_a_refused_stream_is_kept() {
    let mut server = Server::new();
    let first = Sha256HashValue([1u8; 32]);
    let second = Sha256HashValue([2u8; 32]);
    let top = Sha256HashValue([9u8; 32]);
    // the map is in the order of the digests
    let id = server.add_stream(&[([1u8; 32], first), ([2u8; 32], top), ([3u8; 32], second)], b"", b"object");
    let mut downloader = Downloader::new(top);
    let refused =
        Refusal { error: Error::RecursiveStream, stream: Some(top), expected: None, found: Some([2u8; 32]) };
    assert_eq!(downloader.visit_stream(server.get(&id).unwrap()), Err(refused));
    assert_eq!(downloader.stream_count(), 2);
    assert_eq!(downloader.stream_at(0), (first, Some([1u8; 32])));
    assert_eq!(downloader.object_count(), 0);
}
