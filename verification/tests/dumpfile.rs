use composefs::bytemap::ByteMap;
use composefs::dumpfile::{
    add_entry_to_filesystem, dumpfile_to_filesystem, write_directory, write_dumpfile, write_hardlink, write_leaf,
    LineError,
};
use composefs::dumpfile_parse::{Entry, Item};
use composefs::error::Error;
use composefs::fsverity::{Sha256HashValue, Sha512HashValue};
use composefs::tree::{FileSystem, Inode, LeafContent, RegularFile, Stat};

const SIMPLE_DUMP: &str = r#"/ 4096 40755 2 0 0 0 1000.0 - - -
/empty_file 0 100644 1 0 0 0 1000.0 - - -
/small_file 5 100644 1 0 0 0 1000.0 - hello -
/symlink 7 120777 1 0 0 0 1000.0 /target - -
"#;

type Fs = FileSystem<Sha256HashValue>;

fn parse(text: &str) -> Result<Fs, LineError> {
    dumpfile_to_filesystem::<Sha256HashValue>(text)
}

fn error_of(text: &str) -> Option<Error> {
    parse(text).err().map(|e| e.error)
}

fn dump(fs: &Fs) -> String {
    let mut out: Vec<u8> = Vec::new();
    write_dumpfile(&mut out, fs).unwrap();
    String::from_utf8(out).unwrap()
}

fn stat(mode: u32) -> Stat {
    Stat { st_mode: mode, st_uid: 1, st_gid: 2, st_mtim_sec: 3, xattrs: ByteMap::new() }
}

#[test]
fn test_simple_dumpfile_conversion() {
    let fs = dumpfile_to_filesystem::<Sha256HashValue>(SIMPLE_DUMP).unwrap();

    // Check root exists
    assert!(fs.have_root_stat);

    // Check files exist
    assert!(fs.root.lookup(b"empty_file").is_some());
    assert!(fs.root.lookup(b"small_file").is_some());
    assert!(fs.root.lookup(b"symlink").is_some());

    // Check inline file content
    let small_file = fs.get_file(b"small_file").ok().unwrap();
    if let RegularFile::Inline(data) = small_file {
        assert_eq!(&**data, b"hello");
    } else {
        panic!("Expected inline file");
    }
}

#[test]
fn test_hardlinks() {
    let dumpfile = r#"/ 4096 40755 2 0 0 0 1000.0 - - -
/original 11 100644 2 0 0 0 1000.0 - hello_world -
/hardlink1 0 @120000 2 0 0 0 0.0 /original - -
/dir1 4096 40755 2 0 0 0 1000.0 - - -
/dir1/hardlink2 0 @120000 2 0 0 0 0.0 /original - -
"#;

    let fs = dumpfile_to_filesystem::<Sha256HashValue>(dumpfile).unwrap();

    // Get the original file
    let original = fs.root.lookup(b"original").unwrap();
    let hardlink1 = fs.root.lookup(b"hardlink1").unwrap();

    // Get hardlink2 from dir1
    let dir1 = fs.root.get_directory(b"dir1").ok().unwrap();
    let hardlink2 = dir1.lookup(b"hardlink2").unwrap();

    // All three should be Leaf inodes
    let original_leaf = match original {
        Inode::Leaf(l) => *l,
        _ => panic!("Expected Leaf inode"),
    };
    let hardlink1_leaf = match hardlink1 {
        Inode::Leaf(l) => *l,
        _ => panic!("Expected Leaf inode"),
    };
    let hardlink2_leaf = match hardlink2 {
        Inode::Leaf(l) => *l,
        _ => panic!("Expected Leaf inode"),
    };

    // They should all lead to the same leaf
    assert!(original_leaf == hardlink1_leaf);
    assert!(original_leaf == hardlink2_leaf);

    // Verify the link count is 3 (original + 2 hardlinks)
    assert_eq!(fs.link_counts()[original_leaf], 3);

    // Verify content
    if let LeafContent::Regular(RegularFile::Inline(data)) = &fs.leaves[original_leaf].content {
        assert_eq!(&**data, b"hello_world");
    } else {
        panic!("Expected inline regular file");
    }
}

const ID: &str = "000102030405060708090a0b0c0d0e0f101112131415161718191a1b1c1d1e1f";

fn all_kinds() -> String {
    format!(
        "/ 0 40755 4 0 0 0 1000.0 - - -\n\
         /bin 0 40555 3 1 2 0 1001.0 - - - user.key=\\x00value\n\
         /bin/sub 0 41777 2 0 0 0 5.0 - - -\n\
         /block 0 60600 1 0 0 2049 6.0 - - -\n\
         /char 0 20666 1 0 0 259 7.0 - - -\n\
         /empty 0 100644 1 0 0 0 8.0 - - -\n\
         /etc 0 40755 2 0 0 0 9.0 - - -\n\
         /etc/again 0 @120000 - - - - 0.0 /file\\x20name - -\n\
         /external 4294967296 100755 1 0 0 0 10.0 00/{} - {}\n\
         /fifo 0 10600 1 0 0 0 11.0 - - -\n\
         /file\\x20name 11 100644 2 0 0 0 12.0 - a\\x3db\\x5cc\\x0ad\\xffe.\\x00 -\n\
         /link 6 120777 1 0 0 0 13.0 target - - a=1 b=2\n",
        &ID[2..],
        ID
    )
}

#[test]
fn all_kinds_are_read_back() {
    // the hard link comes before the file it leads to: what is written swaps the two
    let text = all_kinds().replace(
        "/etc/again 0 @120000 - - - - 0.0 /file\\x20name - -\n",
        "/etc/again 11 100644 2 0 0 0 12.0 - a\\x3db\\x5cc\\x0ad\\xffe.\\x00 -\n",
    );
    let text = text.replace(
        "/file\\x20name 11 100644 2 0 0 0 12.0 - a\\x3db\\x5cc\\x0ad\\xffe.\\x00 -\n",
        "/file\\x20name 0 @120000 - - - - 0.0 /etc/again - -\n",
    );
    let fs = parse(&text).ok().unwrap();
    assert_eq!(dump(&fs), text);
    assert_eq!(fs.leaves.len(), 7);

    // reading and writing once more changes nothing
    let again = parse(&dump(&fs)).ok().unwrap();
    assert_eq!(dump(&again), text);
    assert_eq!(again.leaves.len(), 7);

    match &fs.leaves[0].content {
        LeafContent::BlockDevice(rdev) => assert_eq!(*rdev, 2049),
        _ => panic!("Expected a block device"),
    }
    if let Some(Inode::Leaf(id)) = fs.root.lookup(b"file name") {
        match &fs.leaves[*id].content {
            LeafContent::Regular(RegularFile::Inline(data)) => assert_eq!(data, b"a=b\\c\nd\xffe.\0"),
            _ => panic!("Expected inline content"),
        }
    } else {
        panic!("Expected a leaf");
    }
    match fs.get_file(b"external") {
        Ok(RegularFile::External(id, size)) => {
            assert_eq!(id.0[31], 0x1f);
            assert_eq!(*size, 1 << 32);
        }
        _ => panic!("Expected an external file"),
    }
    let bin = fs.root.get_directory(b"/bin").ok().unwrap();
    assert_eq!(bin.stat.st_mode, 0o555);
    assert_eq!(bin.stat.st_uid, 1);
    assert_eq!(bin.stat.st_gid, 2);
    assert_eq!(bin.stat.st_mtim_sec, 1001);
    assert_eq!(bin.stat.xattrs.get(b"user.key").unwrap(), b"\0value");
    let sub = fs.root.get_directory(b"bin//./sub/").ok().unwrap();
    assert_eq!(sub.stat.st_mode, 0o1777);
}

#[test]
fn hardlink_before_its_target() {
    assert_eq!(error_of(&all_kinds()), Some(Error::HardlinkTargetNotFound));
}

#[test]
fn lines() {
    let mut line: Vec<u8> = Vec::new();
    write_directory(&mut line, b"/d", &stat(0o755), 5);
    assert_eq!(line, b"/d 0 40755 5 1 2 0 3.0 - - -");

    let id = Sha256HashValue([0xabu8; 32]);
    let cases: Vec<(LeafContent<Sha256HashValue>, String)> = vec![
        (LeafContent::Regular(RegularFile::Inline(b"x y".to_vec())), "3 100644 1 1 2 0 3.0 - x\\x20y -".to_string()),
        (
            LeafContent::Regular(RegularFile::External(id, 9)),
            format!("9 100644 1 1 2 0 3.0 ab/{} - {}", "ab".repeat(31), "ab".repeat(32)),
        ),
        (LeafContent::BlockDevice(8), "0 60644 1 1 2 8 3.0 - - -".to_string()),
        (LeafContent::CharacterDevice(9), "0 20644 1 1 2 9 3.0 - - -".to_string()),
        (LeafContent::Fifo, "0 10644 1 1 2 0 3.0 - - -".to_string()),
        (LeafContent::Socket, "0 140644 1 1 2 0 3.0 - - -".to_string()),
        (LeafContent::Symlink(b"/t".to_vec()), "2 120644 1 1 2 0 3.0 /t - -".to_string()),
    ];
    for (content, expected) in cases {
        let mut line: Vec<u8> = Vec::new();
        write_leaf(&mut line, b"/f", &stat(0o644), &content, 1);
        assert_eq!(String::from_utf8(line).unwrap(), format!("/f {}", expected));
    }

    let mut line: Vec<u8> = Vec::new();
    write_hardlink(&mut line, b"/a b", b"/c");
    assert_eq!(line, b"/a\\x20b 0 @120000 - - - - 0.0 /c - -");
}

#[test]
fn extended_attributes_are_in_order() {
    let mut s = stat(0o600);
    s.st_mtim_sec = -7;
    s.xattrs.insert(b"user.b".to_vec(), b"=".to_vec());
    s.xattrs.insert(b"user.a".to_vec(), b"".to_vec());
    s.xattrs.insert(b"user.b".to_vec(), b"2".to_vec());
    let content: LeafContent<Sha256HashValue> = LeafContent::Fifo;
    let mut line: Vec<u8> = Vec::new();
    write_leaf(&mut line, b"/p", &s, &content, 12);
    assert_eq!(line, b"/p 0 10600 12 1 2 0 -7.0 - - - user.a=- user.b=2");
}

#[test]
fn names_are_written_in_order() {
    let fs = parse(
        "/b 0 100644 1 0 0 0 0.0 - 1 -\n/a 0 100644 1 0 0 0 0.0 - 2 -\n/ 0 40700 2 0 0 0 0.0 - - -\n/a 0 100600 1 0 0 0 0.0 - 3 -\n",
    )
    .ok()
    .unwrap();
    assert_eq!(dump(&fs), "/ 0 40700 2 0 0 0 0.0 - - -\n/a 1 100600 1 0 0 0 0.0 - 3 -\n/b 1 100644 1 0 0 0 0.0 - 1 -\n");
}

#[test]
fn blank_lines_and_line_ends() {
    let text = "\n \t\n\u{2003}\u{a0}\r\n/ 0 40755 2 0 0 0 1.0 - - -\r\n/f 0 10644 1 0 0 0 2.0 - - -";
    let fs = parse(text).ok().unwrap();
    assert_eq!(dump(&fs), "/ 0 40755 2 0 0 0 1.0 - - -\n/f 0 10644 1 0 0 0 2.0 - - -\n");
    assert_eq!(error_of("/ 0 40755 2 0 0 0 1.0 - - -\r"), Some(Error::InvalidLine));
}

#[test]
fn root_without_a_line() {
    let fs = parse("/f 0 100644 1 0 0 0 20.0 - - -\n/g 0 100644 1 0 0 0 10.0 - - -\n").ok().unwrap();
    assert!(fs.have_root_stat);
    assert_eq!(dump(&fs).lines().next(), Some("/ 0 40555 2 0 0 0 20.0 - - -"));
}

#[test]
fn errors_of_lines() {
    for line in [
        "x",
        "/",
        "/ 0 40755",
        "relative 0 100644 1 0 0 0 0.0 - - -",
        "/a/../b 0 100644 1 0 0 0 0.0 - - -",
        "/f\\q 0 100644 1 0 0 0 0.0 - - -",
        "/f x 100644 1 0 0 0 0.0 - - -",
        "/f 0 100849 1 0 0 0 0.0 - - -",
        "/f 0 100644 - 0 0 0 0.0 - - -",
        "/f 0 100644 1 4294967296 0 0 0.0 - - -",
        "/f 0 100644 1 0 0 1 0.0 - - -",
        "/f 0 100644 1 0 0 0 0 - - -",
        "/f 0 100644 1 0 0 0 0.x - - -",
        "/f 0 100644 1 0 0 0 0.0 - abc 00",
        "/f 0 100644 1 0 0 0 0.0 - - - noequals",
        "/f 0 120777 1 0 0 0 0.0 - - -",
        "/f 0 120777 1 0 0 0 0.0 t c -",
        "/f 0 140777 1 0 0 0 0.0 - - -",
        "/f 0 170777 1 0 0 0 0.0 - - -",
        "/f 0 10644 1 0 0 5 0.0 - - -",
        "/f 0 40755 2 0 0 0 0.0 - c -",
        "/f 0 @40755 - - - - 0.0 /t - -",
        "/f 0 @120000 - - - - 0.0 - - -",
        "/f 0 @120000 - - - - 0.0 t - -",
    ] {
        assert_eq!(error_of(line), Some(Error::InvalidLine), "{}", line);
    }
}

#[test]
fn errors_of_entries() {
    assert_eq!(error_of("/d/f 0 100644 1 0 0 0 0.0 - - -\n"), Some(Error::ParentNotFound));
    assert_eq!(
        error_of("/f 0 100644 1 0 0 0 0.0 - - -\n/f/g 0 100644 1 0 0 0 0.0 - - -\n"),
        Some(Error::ParentNotFound)
    );
    assert_eq!(error_of("/f 0 @120000 - - - - 0.0 /missing - -\n"), Some(Error::HardlinkTargetNotFound));
    assert_eq!(error_of("/f 5 100644 1 0 0 0 0.0 ab/cd - -\n"), Some(Error::MissingDigest));
    assert_eq!(error_of("/f 5 100644 1 0 0 0 0.0 ab/cd - abcd\n"), Some(Error::InvalidDigest));
    assert_eq!(error_of(&format!("/f 5 100644 1 0 0 0 0.0 ab/cd - {}g\n", &ID[1..])), Some(Error::InvalidDigest));

    let twice = format!("/f 5 100644 1 0 0 0 0.0 x - {}{}\n", ID, ID);
    assert!(dumpfile_to_filesystem::<Sha512HashValue>(&twice).is_ok());
    assert_eq!(error_of(&twice), Some(Error::InvalidDigest));
}

fn entry(path: &[u8], item: Item) -> Entry {
    let mut entry = Entry::parse(b"/f 0 100644 1 0 0 0 0.0 - - -").ok().unwrap();
    entry.path = path.to_vec();
    entry.item = item;
    entry
}

#[test]
fn paths_that_are_not_canonical() {
    let mut fs: Fs = FileSystem::default();
    let mut links = ByteMap::new();
    let fifo = || Item::Fifo { nlink: 1 };
    for path in [&b""[..], b".", b"/..", b"/a/.."] {
        let refused = LineError { error: Error::NoFilename, subject: path.to_vec(), cause: None };
        assert_eq!(add_entry_to_filesystem(&mut fs, entry(path, fifo()), &mut links), Err(refused));
    }
    for (path, parent) in [(&b"./a"[..], &b"."[..]), (b"/../a", b"/..")] {
        let cause = Some(Error::InvalidFilename);
        let refused = LineError { error: Error::ParentNotFound, subject: parent.to_vec(), cause };
        assert_eq!(add_entry_to_filesystem(&mut fs, entry(path, fifo()), &mut links), Err(refused));
    }
    assert_eq!(fs.leaves.len(), 0);
    assert_eq!(links.len(), 0);

    assert_eq!(add_entry_to_filesystem(&mut fs, entry(b"//x/.", fifo()), &mut links), Ok(()));
    assert!(fs.root.lookup(b"x").is_some());
    let link = Item::Hardlink { target: b"/./x".to_vec() };
    assert_eq!(add_entry_to_filesystem(&mut fs, entry(b"y", link), &mut links), Ok(()));
    assert_eq!(fs.link_counts(), vec![2]);
}

#[test]
fn later_extended_attributes_count() {
    let fs = parse("/f 0 10644 1 0 0 0 0.0 - - - k=1 j=2 k=3\n").ok().unwrap();
    assert_eq!(dump(&fs).lines().nth(1), Some("/f 0 10644 1 0 0 0 0.0 - - - j=2 k=3"));
}

#[test]
fn what_a_dash_stands_for() {
    // a lone dash stands for nothing, so it is not read back
    let mut fs: Fs = FileSystem::default();
    let mut links = ByteMap::new();
    let content = Item::RegularInline { nlink: 1, content: b"-".to_vec() };
    add_entry_to_filesystem(&mut fs, entry(b"/f", content), &mut links).unwrap();
    let text = dump(&fs);
    assert_eq!(text.lines().nth(1), Some("/f 1 100644 1 0 0 0 0.0 - - -"));
    match parse(&text).ok().unwrap().get_file(b"f") {
        Ok(RegularFile::Inline(data)) => assert_eq!(data.len(), 0),
        _ => panic!("Expected inline content"),
    };
}

#[test]
fn dumpfile_is_printable() {
    let mut fs: Fs = FileSystem::default();
    let mut links = ByteMap::new();
    let everything: Vec<u8> = (0..=255u8).collect();
    let name: Vec<u8> = (1..=255u8).filter(|c| *c != b'/').collect();
    let mut path = b"/".to_vec();
    path.extend(&name);
    let content = Item::RegularInline { nlink: 1, content: everything.clone() };
    add_entry_to_filesystem(&mut fs, entry(&path, content), &mut links).unwrap();
    let text = dump(&fs);
    assert!(text.bytes().all(|c| c == b'\n' || (32..=126).contains(&c)));
    assert_eq!(text.lines().count(), 2);
    match parse(&text).ok().unwrap().get_file(&name) {
        Ok(RegularFile::Inline(data)) => assert_eq!(*data, everything),
        _ => panic!("Expected inline content"),
    };
}

#[test]
fn errors_name_their_subject() {
    let refused = |text: &str| parse(text).err().map(|e| (e.error, String::from_utf8(e.subject).unwrap(), e.cause));
    assert_eq!(
        refused("/ 0 40755 2 0 0 0 1.0 - - -\nnot a line\n/x\n"),
        Some((Error::InvalidLine, "not a line".to_string(), None))
    );
    assert_eq!(
        refused("/d//e/f 0 100644 1 0 0 0 0.0 - - -\n"),
        Some((Error::ParentNotFound, "/d/e".to_string(), Some(Error::NotFound)))
    );
    assert_eq!(
        refused("/f 0 100644 1 0 0 0 0.0 - - -\n/f/g 0 100644 1 0 0 0 0.0 - - -\n"),
        Some((Error::ParentNotFound, "/f".to_string(), Some(Error::NotADirectory)))
    );
    assert_eq!(
        refused("/f 0 @120000 - - - - 0.0 /missing - -\n"),
        Some((Error::HardlinkTargetNotFound, "/missing".to_string(), None))
    );
    assert_eq!(
        refused("/f 5 100644 1 0 0 0 0.0 ab/cd - -\n"),
        Some((Error::MissingDigest, String::new(), None))
    );
}
