use composefs::bytemap::ByteMap;
use composefs::error::Error;
use composefs::fsverity::{FsVerityHashValue, Sha256HashValue};
use composefs::path::{components, is_valid_name};
use composefs::text::{read_escaped, read_number, write_escaped, write_number, write_signed};
use composefs::tree::{Directory, FileSystem, Inode, Leaf, LeafContent, Stat};

type Fs = FileSystem<Sha256HashValue>;

fn stat(mtime: i64) -> Stat {
    Stat { st_mode: 0o644, st_uid: 0, st_gid: 0, st_mtim_sec: mtime, xattrs: ByteMap::new() }
}

/// A tree with two names of one leaf, in two directories.
fn sample() -> Fs {
    let mut fs: Fs = FileSystem::default();
    fs.leaves.push(Leaf { stat: stat(50), content: LeafContent::Fifo });
    let mut inner = Directory::new(stat(70));
    inner.insert(b"b".to_vec(), Inode::Leaf(0));
    let mut outer = Directory::new(stat(60));
    outer.insert(b"inner".to_vec(), Inode::Directory(Box::new(inner)));
    fs.root.insert(b"outer".to_vec(), Inode::Directory(Box::new(outer)));
    fs.root.insert(b"a".to_vec(), Inode::Leaf(0));
    fs
}

#[test]
fn lookups() {
    let fs = sample();
    assert!(fs.root.lookup(b"a").is_some());
    assert!(fs.root.lookup(b"b").is_none());
    assert_eq!(fs.root.get_directory(b"/").ok().unwrap().entries.len(), 2);
    assert_eq!(fs.root.get_directory(b"outer/inner").ok().unwrap().stat.st_mtim_sec, 70);
    assert_eq!(fs.root.get_directory(b"outer/other").err(), Some(Error::NotFound));
    assert_eq!(fs.root.get_directory(b"a").err(), Some(Error::NotADirectory));
    assert_eq!(fs.root.get_directory(b"outer/..").err(), Some(Error::InvalidFilename));
    assert_eq!(fs.root.get_directory(b"./outer").err(), Some(Error::InvalidFilename));
    assert_eq!(fs.get_file(b"x").err(), Some(Error::NotFound));
    assert_eq!(fs.get_file(b"a").err(), Some(Error::NotAFile));
    assert_eq!(fs.get_file(b"outer").err(), Some(Error::NotAFile));
    assert_eq!(fs.link_counts(), vec![2]);
}

#[test]
fn directories_are_changed_in_place() {
    let mut fs = sample();
    match fs.root.get_directory_mut(b"outer/inner") {
        Ok(dir) => dir.insert(b"c".to_vec(), Inode::Leaf(0)),
        Err(_) => panic!("Expected a directory"),
    }
    assert_eq!(fs.link_counts(), vec![3]);
    assert_eq!(fs.root.get_directory(b"outer/inner").ok().unwrap().entries.len(), 2);
    assert!(fs.root.get_directory_mut(b"outer/none").is_err());
    assert!(fs.root.get_directory_mut(b"a").is_err());
    assert!(fs.root.get_directory_mut(b".").is_err());
}

#[test]
fn root_metadata() {
    let mut fs = sample();
    assert!(!fs.have_root_stat);
    fs.ensure_root_stat();
    assert!(fs.have_root_stat);
    assert_eq!(fs.root.stat.st_mode, 0o555);
    assert_eq!(fs.root.stat.st_mtim_sec, 70);

    // once it is set it stays
    fs.set_root_stat(stat(3));
    fs.ensure_root_stat();
    assert_eq!(fs.root.stat.st_mode, 0o644);
    assert_eq!(fs.root.stat.st_mtim_sec, 3);
}

#[test]
fn images() {
    let make = |fs: &Fs| -> Vec<u8> { vec![fs.root.stat.st_mtim_sec as u8] };
    let mut fs = sample();
    let id = fs.compute_image_id(make, |image: &Vec<u8>| Sha256HashValue([image[0]; 32]));
    assert_eq!(id, Sha256HashValue([70u8; 32]));
    assert!(fs.have_root_stat);

    let mut fs = sample();
    let r = fs.commit_image(Some("name"), make, |name: Option<&str>, image: &Vec<u8>| {
        assert_eq!(name, Some("name"));
        Ok(Sha256HashValue([image[0] + 1; 32]))
    });
    assert_eq!(r, Ok(Sha256HashValue([71u8; 32])));
    let r = fs.commit_image(None, make, |_: Option<&str>, _: &Vec<u8>| Err(Error::Io));
    assert_eq!(r, Err(Error::Io));
}

#[test]
fn printed_dumpfile_has_root_metadata() {
    let mut fs = sample();
    let mut out: Vec<u8> = Vec::new();
    fs.print_dumpfile(&mut out).unwrap();
    assert_eq!(
        String::from_utf8(out).unwrap(),
        "/ 0 40555 3 0 0 0 70.0 - - -\n\
         /a 0 10644 2 0 0 0 50.0 - - -\n\
         /outer 0 40644 3 0 0 0 60.0 - - -\n\
         /outer/inner 0 40644 2 0 0 0 70.0 - - -\n\
         /outer/inner/b 0 @120000 - - - - 0.0 /a - -\n"
    );
}

#[test]
fn path_parts() {
    let text = |path: &[u8]| components(path).text();
    assert_eq!(text(b"//a/./b/"), b"/a/b");
    assert_eq!(text(b"/"), b"/");
    assert_eq!(text(b"./a//b"), b"./a/b");
    assert_eq!(text(b"a/../b"), b"a/../b");
    assert_eq!(text(b""), b"");
    assert_eq!(text(b"."), b".");
    assert!(components(b"/a/..").goes_up());
    assert!(!components(b"/a/...").goes_up());
}

#[test]
fn maps_keep_their_keys_in_order() {
    let mut map: ByteMap<u32> = ByteMap::new();
    map.insert(b"b".to_vec(), 1);
    map.insert(b"a\0".to_vec(), 2);
    map.insert(b"a".to_vec(), 3);
    map.insert(b"b".to_vec(), 4);
    let keys: Vec<&[u8]> = map.entries.iter().map(|e| e.0.as_slice()).collect();
    assert_eq!(keys, vec![&b"a"[..], b"a\0", b"b"]);
    assert_eq!(map.get(b"b"), Some(&4));
    assert_eq!(map.get(b"c"), None);
    assert_eq!(map.search(b"aa"), Err(2));
}

#[test]
fn numbers() {
    let write = |n: u64, radix: u64| {
        let mut out: Vec<u8> = Vec::new();
        write_number(&mut out, n, radix);
        String::from_utf8(out).unwrap()
    };
    assert_eq!(write(0, 10), "0");
    assert_eq!(write(u64::MAX, 10), "18446744073709551615");
    assert_eq!(write(0o40755, 8), "40755");
    let signed = |n: i64| {
        let mut out: Vec<u8> = Vec::new();
        write_signed(&mut out, n);
        String::from_utf8(out).unwrap()
    };
    assert_eq!(signed(-5), "-5");
    assert_eq!(signed(i64::MIN), "-9223372036854775808");
    assert_eq!(signed(i64::MAX), "9223372036854775807");

    assert_eq!(read_number(b"18446744073709551615", 10, u64::MAX), Some(u64::MAX));
    assert_eq!(read_number(b"18446744073709551616", 10, u64::MAX), None);
    assert_eq!(read_number(b"0042", 10, 42), Some(42));
    assert_eq!(read_number(b"43", 10, 42), None);
    assert_eq!(read_number(b"", 10, u64::MAX), None);
    assert_eq!(read_number(b"8", 8, u64::MAX), None);
    assert_eq!(read_number(b"-1", 10, u64::MAX), None);
}

#[test]
fn escapes() {
    let all: Vec<u8> = (0..=255u8).collect();
    let mut out: Vec<u8> = Vec::new();
    write_escaped(&mut out, &all);
    assert!(out.iter().all(|c| (33..=126).contains(c) && *c != b'='));
    assert_eq!(read_escaped(&out), Some(all));

    let mut out: Vec<u8> = Vec::new();
    write_escaped(&mut out, b"a b=\\\n~\x7f");
    assert_eq!(out, b"a\\x20b\\x3d\\x5c\\x0a~\\x7f");
    let mut out: Vec<u8> = Vec::new();
    write_escaped(&mut out, b"");
    assert_eq!(out, b"-");

    assert_eq!(read_escaped(b"\\n\\r\\t\\\\\\x41\\x4F"), Some(b"\n\r\t\\AO".to_vec()));
    assert_eq!(read_escaped(b"\\"), None);
    assert_eq!(read_escaped(b"\\x4"), None);
    assert_eq!(read_escaped(b"\\q"), None);
}

#[test]
fn object_identifiers() {
    let id = Sha256HashValue([0xa5u8; 32]);
    assert_eq!(id.to_hex(), "a5".repeat(32).into_bytes());
    assert_eq!(id.to_object_pathname(), format!("a5/{}", "a5".repeat(31)).into_bytes());
    assert_eq!(Sha256HashValue::from_hex(&id.to_hex()), Ok(id));
    assert_eq!(Sha256HashValue::from_hex("A5".repeat(32).as_bytes()), Ok(id));
    assert_eq!(Sha256HashValue::from_hex(b"a5"), Err(Error::InvalidDigest));
    assert_eq!(Sha256HashValue::from_hex("g5".repeat(32).as_bytes()), Err(Error::InvalidDigest));
    let path = format!("../../objects/a5/{}", "a5".repeat(31));
    assert_eq!(Sha256HashValue::from_object_pathname(path.as_bytes()), Ok(id));
    assert_eq!(Sha256HashValue::from_object_pathname(b"a5"), Err(Error::InvalidDigest));
    assert_eq!(Sha256HashValue::from_object_pathname("a5".repeat(40).as_bytes()), Err(Error::InvalidDigest));
}

#[test]
fn errors_in_words() {
    assert_eq!(Error::ContentMismatch.message(), "Content doesn't have expected SHA256 hash value!");
    assert_eq!(Error::ReferenceNotFound.message(), "Reference is not found in splitstream");
    assert_eq!(Error::MissingDigest.message(), "External file missing fsverity digest");
}

#[test]
fn committed_and_computed_identifiers_agree() {
    let make = |fs: &Fs| -> Vec<u8> { vec![fs.root.stat.st_mtim_sec as u8, fs.leaves.len() as u8] };
    let verity = |image: &Vec<u8>| Sha256HashValue([image[0] ^ image[1]; 32]);
    let write = |_: Option<&str>, image: &Vec<u8>| Ok(verity(image));

    let computed = sample().compute_image_id(make, verity);
    assert_eq!(sample().commit_image(Some("name"), make, write), Ok(computed));
    assert_eq!(sample().commit_image(None, make, write), Ok(computed));

    let mut fs = sample();
    assert_eq!(fs.compute_image_id(make, verity), computed);
    assert_eq!(fs.root.stat.st_mtim_sec, 70);
    assert_eq!(fs.compute_image_id(make, verity), computed);
    assert_eq!(fs.root.stat.st_mtim_sec, 70);
}

#[test]
fn well_formed_trees() {
    assert!(sample().is_well_formed());
    assert!(Fs::default().is_well_formed());

    // names out of order, and one name twice
    let mut fs = sample();
    fs.root.entries.entries.swap(0, 1);
    assert!(!fs.is_well_formed());
    let mut fs = sample();
    fs.root.entries.entries.push((b"outer".to_vec(), Inode::Leaf(0)));
    assert!(!fs.is_well_formed());

    // a name that cannot stand in a path, below the root
    for name in [&b""[..], b".", b"..", b"b/c"] {
        let mut fs = sample();
        match fs.root.get_directory_mut(b"outer/inner") {
            Ok(dir) => dir.insert(name.to_vec(), Inode::Leaf(0)),
            Err(_) => panic!("Expected a directory"),
        }
        assert!(!fs.is_well_formed());
    }

    // a leaf that is not there
    let mut fs = sample();
    fs.root.insert(b"z".to_vec(), Inode::Leaf(1));
    assert!(!fs.is_well_formed());

    // attributes out of order, of a directory and of a leaf
    let mut fs = sample();
    fs.root.stat.xattrs.entries = vec![(b"user.b".to_vec(), vec![]), (b"user.a".to_vec(), vec![])];
    assert!(!fs.is_well_formed());
    let mut fs = sample();
    fs.leaves[0].stat.xattrs.entries = vec![(b"user.a".to_vec(), vec![]), (b"user.a".to_vec(), vec![])];
    assert!(!fs.is_well_formed());
}

#[test]
fn names_in_directories() {
    assert!(is_valid_name(b"a"));
    assert!(is_valid_name(b"..."));
    assert!(is_valid_name(b"\xff\n"));
    assert!(!is_valid_name(b""));
    assert!(!is_valid_name(b"."));
    assert!(!is_valid_name(b".."));
    assert!(!is_valid_name(b"a/b"));
}
