use std::cell::RefCell;
use std::collections::HashMap;

use sha2::Digest;

use composefs::error::Error;
use composefs::fsverity::Sha256HashValue;
use composefs::io::{read_into_vec, read_u64_le, Cursor};
use composefs::splitstream::{DigestMap, SplitStreamData, SplitStreamReader, SplitStreamWriter};

#[test]
fn test_read_into_vec() {
    // Test with an empty reader
    let mut reader = Cursor::new(vec![]);
    let mut vec = Vec::new();
    let result = read_into_vec(&mut reader, &mut vec, 0);
    assert!(result.is_ok());
    assert_eq!(vec.len(), 0);

    // Test with a reader that has some data
    let mut reader = Cursor::new(vec![1, 2, 3, 4, 5]);
    let mut vec = Vec::new();
    let result = read_into_vec(&mut reader, &mut vec, 3);
    assert!(result.is_ok());
    assert_eq!(vec.len(), 3);
    assert_eq!(vec, vec![1, 2, 3]);

    // Test reading more than the reader has
    let mut reader = Cursor::new(vec![1, 2, 3]);
    let mut vec = Vec::new();
    let result = read_into_vec(&mut reader, &mut vec, 5);
    assert!(result.is_err());

    // Test reading exactly what the reader has
    let mut reader = Cursor::new(vec![1, 2, 3]);
    let mut vec = Vec::new();
    let result = read_into_vec(&mut reader, &mut vec, 3);
    assert!(result.is_ok());
    assert_eq!(vec.len(), 3);
    assert_eq!(vec, vec![1, 2, 3]);

    // Test reading into a vector with existing capacity
    let mut reader = Cursor::new(vec![1, 2, 3, 4, 5]);
    let mut vec = Vec::with_capacity(10);
    let result = read_into_vec(&mut reader, &mut vec, 4);
    assert!(result.is_ok());
    assert_eq!(vec.len(), 4);
    assert_eq!(vec, vec![1, 2, 3, 4]);
    assert_eq!(vec.capacity(), 10);

    // Test reading into a vector with existing data
    let mut reader = Cursor::new(vec![1, 2, 3]);
    let mut vec = vec![9, 9, 9];
    let result = read_into_vec(&mut reader, &mut vec, 2);
    assert!(result.is_ok());
    assert_eq!(vec.len(), 2);
    assert_eq!(vec, vec![1, 2]);
}

type StreamWriter<W> = SplitStreamWriter<W, Sha256HashValue>;
type StreamReader<R> = SplitStreamReader<R, Sha256HashValue>;

fn digest(data: &[u8]) -> [u8; 32] {
    sha2::Sha256::digest(data).into()
}

/// Keeps objects in memory, under the SHA-256 digest of their content.
struct Store {
    objects: RefCell<HashMap<[u8; 32], Vec<u8>>>,
}

impl Store {
    fn new() -> Store {
        Store { objects: RefCell::new(HashMap::new()) }
    }

    fn put(&self, data: &[u8]) -> Result<Sha256HashValue, Error> {
        let id = digest(data);
        self.objects.borrow_mut().insert(id, data.to_vec());
        Ok(Sha256HashValue(id))
    }

    fn get(&self, id: &Sha256HashValue) -> Result<Vec<u8>, Error> {
        self.objects.borrow().get(&id.0).cloned().ok_or(Error::Io)
    }
}

fn plain_writer() -> StreamWriter<Vec<u8>> {
    SplitStreamWriter::with_writer(Vec::new(), None, None).unwrap()
}

fn plain_reader(stream: Vec<u8>) -> StreamReader<Cursor> {
    SplitStreamReader::from_decoder(Cursor::new(stream)).unwrap()
}

#[test]
fn stream_bytes() {
    let mut writer = plain_writer();
    writer.write_inline(b"ab");
    writer.write_inline(b"c");
    let id = Sha256HashValue([7u8; 32]);
    writer.write_stored(b"object", vec![0, 0], Ok(id)).unwrap();
    let stream = writer.into_writer().unwrap();

    let mut expected = vec![0u8; 8];
    expected.extend([3, 0, 0, 0, 0, 0, 0, 0]);
    expected.extend(b"abc");
    expected.extend([0u8; 8]);
    expected.extend([7u8; 32]);
    expected.extend([2, 0, 0, 0, 0, 0, 0, 0]);
    expected.extend([0, 0]);
    assert_eq!(stream, expected);
}

#[test]
fn padding_is_kept_where_nothing_is_buffered() {
    let mut writer = plain_writer();
    writer.write_stored(b"object", vec![1, 2, 3], Ok(Sha256HashValue([7u8; 32]))).unwrap();
    let stream = writer.into_writer().unwrap();
    assert_eq!(stream.len(), 8 + 8 + 32 + 8 + 3);
    assert_eq!(stream[stream.len() - 3..], [1, 2, 3]);
}

#[test]
fn header_holds_digest_map() {
    let mut refs = DigestMap::new();
    refs.insert(&[2u8; 32], &Sha256HashValue([20u8; 32]));
    refs.insert(&[1u8; 32], &Sha256HashValue([10u8; 32]));
    refs.insert(&[2u8; 32], &Sha256HashValue([20u8; 32]));
    assert_eq!(refs.map.len(), 2);
    assert_eq!(refs.lookup(&[1u8; 32]), Some(&Sha256HashValue([10u8; 32])));
    assert_eq!(refs.lookup(&[3u8; 32]), None);

    let writer: StreamWriter<Vec<u8>> = SplitStreamWriter::with_writer(Vec::new(), Some(refs), None).unwrap();
    let stream = writer.into_writer().unwrap();
    let mut expected = vec![2, 0, 0, 0, 0, 0, 0, 0];
    expected.extend([1u8; 32]);
    expected.extend([10u8; 32]);
    expected.extend([2u8; 32]);
    expected.extend([20u8; 32]);
    assert_eq!(stream, expected);

    let reader = plain_reader(stream);
    assert_eq!(reader.get_stream_refs(), vec![[1u8; 32], [2u8; 32]]);
    assert_eq!(reader.lookup(&[2u8; 32]), Ok(&Sha256HashValue([20u8; 32])));
    assert_eq!(reader.lookup(&[9u8; 32]), Err(Error::ReferenceNotFound));
    assert_eq!(reader.entry_count(), 2);
    assert_eq!(reader.entry(0).verity, Sha256HashValue([10u8; 32]));
}

#[test]
fn empty_digest_map() {
    let map: DigestMap<Sha256HashValue> = DigestMap::default();
    assert_eq!(map.map.len(), 0);
    assert_eq!(map.lookup(&[0u8; 32]), None);
}

#[test]
fn compressed_stream_is_read_back() {
    let store = Store::new();
    let content = b"header-object--trailer";
    let mut writer: StreamWriter<_> = SplitStreamWriter::new(None, Some(digest(content)));
    writer.write_inline(b"header-");
    writer.write_external(b"object", b"--".to_vec(), |data: &[u8]| store.put(data)).unwrap();
    writer.write_inline(b"trailer");
    let id = writer.done(|data: &[u8]| store.put(data)).unwrap();

    let data = store.get(&id).unwrap();
    // the magic number of a zstd frame
    assert_eq!(data[..4], [0x28, 0xb5, 0x2f, 0xfd]);

    let mut reader: StreamReader<_> = SplitStreamReader::new(data.clone()).unwrap();
    let mut out: Vec<u8> = Vec::new();
    reader.cat(&mut out, |id: &Sha256HashValue| store.get(id)).unwrap();
    assert_eq!(out, content);

    let mut reader: StreamReader<_> = SplitStreamReader::new(data).unwrap();
    let mut refs = Vec::new();
    reader.get_object_refs(&mut refs).unwrap();
    assert_eq!(refs, vec![Sha256HashValue(digest(b"object"))]);
}

#[test]
fn large_content_is_read_back() {
    let store = Store::new();
    let content: Vec<u8> = (0..300_000u32).map(|i| (i * i / 7) as u8).collect();
    let mut writer: StreamWriter<_> = SplitStreamWriter::new(None, None);
    writer.write_inline(&content);
    let id = writer.done(|data: &[u8]| store.put(data)).unwrap();
    let mut reader: StreamReader<_> = SplitStreamReader::new(store.get(&id).unwrap()).unwrap();
    let mut out: Vec<u8> = Vec::new();
    reader.cat(&mut out, |id: &Sha256HashValue| store.get(id)).unwrap();
    assert!(out == content);
}

#[test]
fn wrong_digest_is_refused() {
    let store = Store::new();
    let mut writer: StreamWriter<_> = SplitStreamWriter::new(None, Some(digest(b"abc")));
    writer.write_inline(b"abd");
    assert_eq!(writer.done(|data: &[u8]| store.put(data)), Err(Error::ContentMismatch));

    let mut expected = [0u8; 32];
    let hex = "ba7816bf8f01cfea414140de5dae2223b00361a396177a9cb410ff61f20015ad";
    for i in 0..32 {
        expected[i] = u8::from_str_radix(&hex[2 * i..2 * i + 2], 16).unwrap();
    }
    let mut writer: StreamWriter<_> = SplitStreamWriter::new(None, Some(expected));
    writer.write_inline(b"ab");
    writer.write_inline(b"c");
    assert!(writer.done(|data: &[u8]| store.put(data)).is_ok());
}

#[test]
fn digest_covers_object_and_padding() {
    let store = Store::new();
    let mut writer: StreamWriter<_> = SplitStreamWriter::new(None, Some(digest(b"xobjecty")));
    writer.write_inline(b"x");
    writer.write_external(b"object", b"y".to_vec(), |data: &[u8]| store.put(data)).unwrap();
    assert!(writer.done(|data: &[u8]| store.put(data)).is_ok());
}

#[test]
fn failure_to_store_is_handed_on() {
    let mut writer = plain_writer();
    writer.write_inline(b"abc");
    let r = writer.write_external(b"object", vec![9], |_: &[u8]| Err(Error::Io));
    assert_eq!(r, Err(Error::Io));
    assert_eq!(writer.into_writer().unwrap().len(), 8 + 8 + 3);

    let writer: StreamWriter<_> = SplitStreamWriter::new(None, None);
    assert_eq!(writer.done(|_: &[u8]| Err(Error::NotFound)), Err(Error::NotFound));
}

fn sample() -> Vec<u8> {
    let mut writer = plain_writer();
    writer.write_inline(&[1u8; 512]);
    writer.write_stored(&[5u8; 700], vec![0u8; 324], Ok(Sha256HashValue([7u8; 32]))).unwrap();
    writer.write_inline(b"rest");
    writer.into_writer().unwrap()
}

#[test]
fn exact_reads() {
    let mut reader = plain_reader(sample());
    let mut buffer = vec![0u8; 512];
    assert_eq!(reader.read_inline_exact(&mut buffer), Ok(true));
    assert_eq!(buffer, vec![1u8; 512]);
    match reader.read_exact(700, 1024).unwrap() {
        SplitStreamData::External(id) => assert_eq!(id, Sha256HashValue([7u8; 32])),
        SplitStreamData::Inline(_) => panic!("Expected a reference"),
    }
    match reader.read_exact(4, 4).unwrap() {
        SplitStreamData::Inline(data) => assert_eq!(data, b"rest"),
        SplitStreamData::External(_) => panic!("Expected inline content"),
    }
    let mut buffer = vec![0u8; 512];
    assert_eq!(reader.read_inline_exact(&mut buffer), Ok(false));
}

#[test]
fn inline_content_with_padding() {
    let mut writer = plain_writer();
    writer.write_inline(b"hello\0\0\0next");
    let mut reader = plain_reader(writer.into_writer().unwrap());
    match reader.read_exact(5, 8).unwrap() {
        SplitStreamData::Inline(data) => assert_eq!(data, b"hello"),
        SplitStreamData::External(_) => panic!("Expected inline content"),
    }
    let mut buffer = vec![0u8; 4];
    assert_eq!(reader.read_inline_exact(&mut buffer), Ok(true));
    assert_eq!(buffer, b"next");
}

#[test]
fn read_errors() {
    // a reference where inline content has to stand
    let mut writer = plain_writer();
    writer.write_stored(b"object", vec![], Ok(Sha256HashValue([7u8; 32]))).unwrap();
    let stream = writer.into_writer().unwrap();
    let mut buffer = vec![0u8; 4];
    assert_eq!(plain_reader(stream).read_inline_exact(&mut buffer), Err(Error::UnexpectedReference));

    // less inline content than is asked for
    let mut writer = plain_writer();
    writer.write_inline(b"abc");
    let stream = writer.into_writer().unwrap();
    assert_eq!(plain_reader(stream.clone()).read_inline_exact(&mut buffer), Err(Error::SmallInline));

    // the end in the middle of a size, of content and of a map
    let mut reader = plain_reader(stream[..12].to_vec());
    assert_eq!(reader.read_inline_exact(&mut buffer), Err(Error::UnexpectedEof));
    let mut reader = plain_reader(stream[..18].to_vec());
    let mut small = vec![0u8; 3];
    assert_eq!(reader.read_inline_exact(&mut small), Err(Error::UnexpectedEof));
    let cut: Result<StreamReader<Cursor>, Error> = SplitStreamReader::from_decoder(Cursor::new(vec![1, 0, 0, 0, 0, 0, 0, 0, 5]));
    assert_eq!(cut.err(), Some(Error::UnexpectedEof));

    // something that is not a zstd stream
    let damaged: Result<StreamReader<_>, Error> = SplitStreamReader::new(vec![1, 2, 3, 4, 5, 6, 7, 8, 9]);
    assert_eq!(damaged.err(), Some(Error::Io));
}

#[test]
fn cat_hands_on_the_error_of_an_object() {
    let mut reader = plain_reader(sample());
    let mut out: Vec<u8> = Vec::new();
    assert_eq!(reader.cat(&mut out, |_: &Sha256HashValue| Err(Error::NotFound)), Err(Error::NotFound));
    assert_eq!(out, vec![1u8; 512]);
}

#[test]
fn object_refs_name_the_map_first() {
    let mut refs = DigestMap::new();
    refs.insert(&[1u8; 32], &Sha256HashValue([10u8; 32]));
    let mut writer: StreamWriter<Vec<u8>> = SplitStreamWriter::with_writer(Vec::new(), Some(refs), None).unwrap();
    writer.write_inline(b"x");
    writer.write_stored(b"object", vec![], Ok(Sha256HashValue([7u8; 32]))).unwrap();
    let mut reader = plain_reader(writer.into_writer().unwrap());
    let mut found = vec![];
    reader.get_object_refs(&mut found).unwrap();
    assert_eq!(found, vec![Sha256HashValue([10u8; 32]), Sha256HashValue([7u8; 32])]);
}

#[test]
fn reading_inline_content_piece_by_piece() {
    let mut writer = plain_writer();
    writer.write_inline(b"hello world");
    let mut reader = plain_reader(writer.into_writer().unwrap());
    let mut piece = vec![0u8; 7];
    assert_eq!(reader.read(&mut piece), Ok(7));
    assert_eq!(piece, b"hello w");
    assert_eq!(reader.read(&mut piece), Ok(4));
    assert_eq!(piece[..4], *b"orld");
    assert_eq!(reader.read(&mut piece), Ok(0));
}

#[test]
fn sizes_are_little_endian() {
    let mut reader = Cursor::new(vec![1, 2, 0, 0, 0, 0, 0, 0]);
    assert_eq!(read_u64_le(&mut reader), Ok(Some(513)));
    assert_eq!(read_u64_le(&mut reader), Ok(None));
    let mut reader = Cursor::new(vec![1, 2]);
    assert_eq!(read_u64_le(&mut reader), Err(Error::UnexpectedEof));
}

#[test]
fn short_content_leaves_zeros() {
    let mut reader = Cursor::new(vec![1, 2, 3]);
    let mut vec = vec![9u8; 8];
    assert_eq!(read_into_vec(&mut reader, &mut vec, 5), Err(Error::UnexpectedEof));
    assert_eq!(vec, vec![1, 2, 3, 0, 0]);
}

#[test]
fn inline_reads_up_to_the_end() {
    let mut writer = plain_writer();
    writer.write_inline(b"abc");
    let mut reader = plain_reader(writer.into_writer().unwrap());
    let mut buffer = vec![9u8; 2];
    assert_eq!(reader.read_inline_exact(&mut buffer), Ok(true));
    assert_eq!(buffer, b"ab");
    let mut buffer = vec![9u8; 2];
    assert_eq!(reader.read_inline_exact(&mut buffer), Err(Error::SmallInline));
    assert_eq!(buffer, vec![9, 9]);
    let mut buffer = vec![9u8];
    assert_eq!(reader.read_inline_exact(&mut buffer), Ok(true));
    assert_eq!(buffer, b"c");
    let mut buffer = vec![9u8];
    assert_eq!(reader.read_inline_exact(&mut buffer), Ok(false));
    assert_eq!(buffer, vec![9]);
}

#[test]
fn reference_that_is_cut_off() {
    // an empty map, the mark of a reference, and less than an identifier
    let mut stream = vec![0u8; 16];
    stream.extend([7u8; 31]);
    let mut reader = plain_reader(stream.clone());
    assert_eq!(reader.read_exact(700, 1024).err(), Some(Error::UnexpectedEof));
    let mut reader = plain_reader(stream);
    let mut found = vec![];
    assert_eq!(reader.get_object_refs(&mut found), Err(Error::UnexpectedEof));
    assert_eq!(found, vec![]);
}

#[test]
fn object_refs_are_read_once() {
    let mut refs = DigestMap::new();
    refs.insert(&[1u8; 32], &Sha256HashValue([10u8; 32]));
    let mut writer: StreamWriter<Vec<u8>> = SplitStreamWriter::with_writer(Vec::new(), Some(refs), None).unwrap();
    writer.write_stored(b"object", vec![], Ok(Sha256HashValue([7u8; 32]))).unwrap();
    let mut reader = plain_reader(writer.into_writer().unwrap());
    let mut found = vec![];
    reader.get_object_refs(&mut found).unwrap();
    assert_eq!(found, vec![Sha256HashValue([10u8; 32]), Sha256HashValue([7u8; 32])]);
    // the stream is used up: only the map is left to tell of
    let mut found = vec![];
    reader.get_object_refs(&mut found).unwrap();
    assert_eq!(found, vec![Sha256HashValue([10u8; 32])]);
    let mut out: Vec<u8> = Vec::new();
    assert_eq!(reader.cat(&mut out, |_: &Sha256HashValue| Err(Error::NotFound)), Ok(()));
    assert!(out.is_empty());
}

#[test]
fn stream_that_is_cut_off_is_not_taken_for_a_whole_one() {
    let content: Vec<u8> = (0..300_000u32).map(|i| (i * i / 7) as u8).collect();
    let mut writer: StreamWriter<_> = SplitStreamWriter::new(None, None);
    writer.write_inline(&content);
    let data = writer.into_compressed().unwrap();
    for cut in [1, 5, data.len() / 2] {
        let part = data[..data.len() - cut].to_vec();
        // the damage shows at the latest when the content is read
        let opened: Result<StreamReader<_>, Error> = SplitStreamReader::new(part.clone());
        let mut out: Vec<u8> = Vec::new();
        let read = opened.and_then(|mut r| r.cat(&mut out, |_: &Sha256HashValue| Err(Error::NotFound)));
        assert_eq!(read, Err(Error::Io));
        let opened: Result<StreamReader<_>, Error> = SplitStreamReader::new(part);
        let mut found = vec![];
        assert_eq!(opened.and_then(|mut r| r.get_object_refs(&mut found)), Err(Error::Io));
    }
}

#[test]
fn stored_before_or_now() {
    let store = Store::new();
    let mut now = plain_writer();
    now.write_inline(b"head");
    now.write_external(b"object", b"pad".to_vec(), |data: &[u8]| store.put(data)).unwrap();
    let mut before = plain_writer();
    before.write_inline(b"head");
    before.write_stored(b"object", b"pad".to_vec(), store.put(b"object")).unwrap();
    assert_eq!(now.into_writer(), before.into_writer());

    let mut now = plain_writer();
    let mut before = plain_writer();
    assert_eq!(now.write_external(b"object", vec![1], |_: &[u8]| Err(Error::NotFound)), Err(Error::NotFound));
    assert_eq!(before.write_stored(b"object", vec![1], Err(Error::NotFound)), Err(Error::NotFound));
    assert_eq!(now.into_writer(), before.into_writer());
}

/// A zstd frame with the given content that asks for a window of 256 MiB.
fn wide_frame(content: &[u8]) -> Vec<u8> {
    let mut frame = vec![0x28, 0xb5, 0x2f, 0xfd, 0x80, 0x90];
    frame.extend((content.len() as u32).to_le_bytes());
    // one last block of plain bytes
    frame.extend(&((content.len() as u32) << 3 | 1).to_le_bytes()[..3]);
    frame.extend(content);
    frame
}

#[test]
fn what_is_read_does_not_rest_on_the_buffer() {
    let mut stream = vec![0u8; 8];
    stream.extend([8, 0, 0, 0, 0, 0, 0, 0]);
    let mut data = zstd::encode_all(&stream[..], 0).unwrap();
    data.extend(wide_frame(b"abcdefgh"));

    for size in [1, 2, 4, 8] {
        let mut reader: StreamReader<_> = SplitStreamReader::new(data.clone()).unwrap();
        let mut content = vec![];
        for _ in 0..8 / size {
            let mut buffer = vec![0u8; size];
            assert_eq!(reader.read_inline_exact(&mut buffer), Ok(true));
            content.extend(buffer);
        }
        assert_eq!(content, b"abcdefgh");
        let mut buffer = vec![0u8; size];
        assert_eq!(reader.read_inline_exact(&mut buffer), Ok(false));
    }
    let mut reader: StreamReader<_> = SplitStreamReader::new(data).unwrap();
    let mut out: Vec<u8> = Vec::new();
    reader.cat(&mut out, |_: &Sha256HashValue| Err(Error::NotFound)).unwrap();
    assert_eq!(out, b"abcdefgh");
}

#[test]
fn too_wide_a_window_is_refused() {
    let mut stream = vec![0u8; 8];
    stream.extend([3, 0, 0, 0, 0, 0, 0, 0]);
    stream.extend(b"abc");
    let opened: Result<StreamReader<_>, Error> = SplitStreamReader::new(wide_frame(&stream));
    assert_eq!(opened.err(), Some(Error::Io));
}
