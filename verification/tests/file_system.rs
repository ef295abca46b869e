//! The file system on top of its layers, kept in memory.

use std::collections::VecDeque;
use stream_fs::file_layer::MemoryFile;
use stream_fs::{
    hello, BlockLayer, BlocksInFile, EntryType, OpenMode, Sfs, SfsError, StreamHandle, StreamLayer,
    StreamsFromBlocks,
};

type Blocks = BlocksInFile<MemoryFile, 2097152>;
type Streams = StreamsFromBlocks<Blocks>;
type Fs = Sfs<Streams>;

fn close_to_bytes(sfs: Fs) -> Vec<u8> {
    let (layer3, r) = sfs.into_layer();
    r.unwrap();
    layer3.into_layer().into_file().into_bytes()
}

fn reopen(bytes: Vec<u8>, mode: OpenMode) -> Fs {
    let file = MemoryFile::from_bytes(bytes).unwrap();
    let blocks = Blocks::open_on(file).unwrap();
    let streams = Streams::open_on(blocks).unwrap();
    Fs::open_on(streams, mode).unwrap()
}

fn names(sfs: &mut Fs, dir: &str) -> Vec<(String, EntryType)> {
    sfs.list(dir).unwrap().into_iter().map(|e| (e.name, e.entry_type)).collect()
}

#[test]
fn test_hello() {
    assert_eq!(hello(), "Hello from Stream File System!");
}

#[test]
fn test_reopen() {
    let bytes;
    {
        let mut sfs = Fs::create("sfs_test_reopen.sfs", 4, 12).unwrap();
        let sh = sfs.create_stream("hello.txt").unwrap();
        sfs.write(&sh, b"Hello, World!").unwrap();
        sfs.close_stream(sh).unwrap();
        bytes = close_to_bytes(sfs);
    }
    {
        let mut sfs = reopen(bytes, OpenMode::Write);
        let sh = sfs.open_stream("hello.txt", OpenMode::Read).unwrap();
        let mut buf = vec![0u8; 13];
        let n = sfs.read(&sh, &mut buf).unwrap();
        assert_eq!(n, 13);
        assert_eq!(&buf, b"Hello, World!");
        sfs.close_stream(sh).unwrap();
        sfs.close().unwrap();
    }
}

#[test]
fn test_stream_enumeration() {
    let mut l3 = Streams::create("sfs_test_stream_enum.sfs", 4, 12, 0, VecDeque::new()).unwrap();
    assert_eq!(l3.stream_count().unwrap(), 0);
    assert!(l3.stream_ids().unwrap().is_empty());

    let id0 = l3.create_stream(false).unwrap();
    let id1 = l3.create_stream(false).unwrap();
    let id2 = l3.create_stream(false).unwrap();
    assert_eq!(l3.stream_count().unwrap(), 3);
    let mut ids = l3.stream_ids().unwrap();
    ids.sort();
    assert_eq!(ids, vec![id0, id1, id2]);

    l3.delete_stream(id1).unwrap();
    assert_eq!(l3.stream_count().unwrap(), 2);
    let mut ids = l3.stream_ids().unwrap();
    ids.sort();
    assert_eq!(ids, vec![id0, id2]);

    let id3 = l3.create_stream(false).unwrap();
    assert_eq!(id3, id1);
    assert_eq!(l3.stream_count().unwrap(), 3);
    let mut ids = l3.stream_ids().unwrap();
    ids.sort();
    assert_eq!(ids, vec![id0, id1, id2]);
}

#[test]
fn test_depth2_write() {
    let mut sfs = Fs::create("sfs_test_depth2.sfs", 4, 6).unwrap();
    let sh = sfs.create_stream("big.bin").unwrap();
    let len = 100025usize;
    let data: Vec<u8> = (0..len).map(|i| (i & 0xFF) as u8).collect();
    sfs.write(&sh, &data).unwrap();

    assert_eq!(sfs.stream_length(&sh).unwrap(), len as u64);
    sfs.seek(&sh, 0).unwrap();
    let mut buf = vec![0u8; len];
    let n = sfs.read(&sh, &mut buf).unwrap();
    assert_eq!(n, len);
    assert_eq!(buf, data);

    sfs.close_stream(sh).unwrap();
    sfs.close().unwrap();
}

#[test]
fn test_verify_clean() {
    let bytes;
    {
        let mut sfs = Fs::create("sfs_test_verify.sfs", 4, 12).unwrap();
        sfs.mkdir("docs").unwrap();

        let sh = sfs.create_stream("hello.txt").unwrap();
        sfs.write(&sh, b"Hello, World!").unwrap();
        sfs.close_stream(sh).unwrap();

        let sh = sfs.create_stream("docs/readme.txt").unwrap();
        sfs.write(&sh, b"A readme").unwrap();
        sfs.close_stream(sh).unwrap();

        let issues = sfs.verify().unwrap();
        assert!(issues.is_empty(), "Issues found: {:?}", issues);
        bytes = close_to_bytes(sfs);
    }
    {
        let mut sfs = reopen(bytes, OpenMode::Read);
        let issues = sfs.verify().unwrap();
        assert!(issues.is_empty(), "Issues found: {:?}", issues);
        sfs.close().unwrap();
    }
}

#[test]
fn test_reserve() {
    let bytes;
    {
        let mut sfs = Fs::create("sfs_test_reserve.sfs", 4, 12).unwrap();
        let sh = sfs.create_stream("data.bin").unwrap();
        assert_eq!(sfs.stream_reserved(&sh).unwrap(), 0);

        sfs.reserve(&sh, 8192).unwrap();
        assert_eq!(sfs.stream_reserved(&sh).unwrap(), 8192);
        assert_eq!(sfs.stream_length(&sh).unwrap(), 0);

        let data = vec![0xABu8; 5000];
        sfs.write(&sh, &data).unwrap();
        assert_eq!(sfs.stream_length(&sh).unwrap(), 5000);
        assert_eq!(sfs.stream_reserved(&sh).unwrap(), 8192);

        sfs.seek(&sh, 0).unwrap();
        let mut buf = vec![0u8; 5000];
        sfs.read(&sh, &mut buf).unwrap();
        assert_eq!(buf, data);

        sfs.close_stream(sh).unwrap();
        let issues = sfs.verify().unwrap();
        assert!(issues.is_empty(), "Issues: {:?}", issues);
        bytes = close_to_bytes(sfs);
    }
    {
        let mut sfs = reopen(bytes, OpenMode::Write);
        let sh = sfs.open_stream("data.bin", OpenMode::Write).unwrap();
        assert_eq!(sfs.stream_reserved(&sh).unwrap(), 8192);
        assert_eq!(sfs.stream_length(&sh).unwrap(), 5000);

        sfs.truncate(&sh, 0).unwrap();
        assert_eq!(sfs.stream_reserved(&sh).unwrap(), 0);
        assert_eq!(sfs.stream_length(&sh).unwrap(), 0);

        sfs.close_stream(sh).unwrap();
        let issues = sfs.verify().unwrap();
        assert!(issues.is_empty(), "Issues: {:?}", issues);
        sfs.close().unwrap();
    }
}

#[test]
fn directories_are_listed_in_order_of_their_names() {
    let mut sfs = Fs::create("", 4, 9).unwrap();
    sfs.mkdir("b").unwrap();
    sfs.mkdir("a").unwrap();
    let sh = sfs.create_stream("ab.txt").unwrap();
    sfs.close_stream(sh).unwrap();
    sfs.mkdir("b/c").unwrap();
    assert_eq!(
        names(&mut sfs, ""),
        vec![
            ("a".to_string(), EntryType::Directory),
            ("ab.txt".to_string(), EntryType::Stream),
            ("b".to_string(), EntryType::Directory),
        ]
    );
    assert_eq!(names(&mut sfs, "b"), vec![("c".to_string(), EntryType::Directory)]);
    assert!(names(&mut sfs, "b/c").is_empty());
}

#[test]
fn a_directory_that_was_made_and_removed_is_gone() {
    let mut sfs = Fs::create("", 4, 9).unwrap();
    sfs.mkdir("one").unwrap();
    sfs.mkdir("one/two").unwrap();
    assert!(matches!(sfs.rmdir("one"), Err(SfsError::NotEmpty(_))));
    sfs.rmdir("one/two").unwrap();
    sfs.rmdir("one").unwrap();
    assert!(names(&mut sfs, "").is_empty());
    assert!(matches!(sfs.rmdir("one"), Err(SfsError::NotFound(_))));
    assert!(sfs.verify().unwrap().is_empty());
}

#[test]
fn renaming_moves_a_stream_with_what_it_holds() {
    let mut sfs = Fs::create("", 4, 9).unwrap();
    sfs.mkdir("from").unwrap();
    sfs.mkdir("to").unwrap();
    let sh = sfs.create_stream("from/a").unwrap();
    sfs.write(&sh, b"abc").unwrap();
    sfs.close_stream(sh).unwrap();
    sfs.rename_stream("from/a", "to/b").unwrap();
    assert!(names(&mut sfs, "from").is_empty());
    let sh = sfs.open_stream("to/b", OpenMode::Read).unwrap();
    let mut buf = [0u8; 8];
    assert_eq!(sfs.read(&sh, &mut buf).unwrap(), 3);
    assert_eq!(&buf[..3], b"abc");
    sfs.close_stream(sh).unwrap();
    sfs.rename_dir("to", "there").unwrap();
    assert_eq!(names(&mut sfs, "there"), vec![("b".to_string(), EntryType::Stream)]);
    assert!(sfs.verify().unwrap().is_empty());
}

#[test]
fn every_error_has_its_kind() {
    let mut sfs = Fs::create("", 4, 9).unwrap();
    assert!(matches!(sfs.open_stream("none", OpenMode::Read), Err(SfsError::NotFound(_))));
    assert!(matches!(sfs.mkdir(""), Err(SfsError::InvalidPath(_))));
    assert!(matches!(sfs.mkdir("a//b"), Err(SfsError::InvalidPath(_))));
    assert!(matches!(sfs.mkdir("a/.."), Err(SfsError::NotFound(_))));
    assert!(matches!(sfs.mkdir("none/b"), Err(SfsError::NotFound(_))));
    sfs.mkdir("d").unwrap();
    assert!(matches!(sfs.mkdir("d"), Err(SfsError::AlreadyExists(_))));
    assert!(matches!(sfs.create_stream("d"), Err(SfsError::AlreadyExists(_))));
    let sh = sfs.create_stream("s").unwrap();
    assert!(matches!(sfs.open_stream("s", OpenMode::Read), Err(SfsError::LockConflict(_))));
    assert!(matches!(sfs.delete_stream("s"), Err(SfsError::LockConflict(_))));
    assert!(matches!(sfs.seek(&sh, 1), Err(SfsError::SeekOutOfBounds(_))));
    sfs.close_stream(sh).unwrap();
    assert!(matches!(sfs.close_stream(sh), Err(SfsError::NotFound(_))));
    assert!(matches!(sfs.create_stream_as("packed", true), Err(SfsError::IoError(_))));
    let mut sfs = reopen(close_to_bytes(sfs), OpenMode::Read);
    assert!(matches!(sfs.mkdir("e"), Err(SfsError::ReadOnly(_))));
    assert!(matches!(Fs::create("", 4, 5), Err(SfsError::IoError(_))));
    assert!(matches!(Fs::create("", 3, 9), Err(SfsError::IoError(_))));
    assert!(matches!(Fs::create_with_vbss("", 4, 9, 31), Err(SfsError::IoError(_))));
    assert!(matches!(Fs::open("anything", OpenMode::Read), Err(SfsError::NotFound(_))));
}

#[test]
fn an_error_tells_its_kind_in_words() {
    let text = |e: SfsError| e.text();
    assert_eq!(text(SfsError::NotFound("x".to_string())), "not found: x");
    assert_eq!(text(SfsError::AlreadyExists("x".to_string())), "already exists: x");
    assert_eq!(text(SfsError::NotEmpty("x".to_string())), "not empty: x");
    assert_eq!(text(SfsError::InvalidPath("x".to_string())), "invalid path: x");
    assert_eq!(text(SfsError::LockConflict("x".to_string())), "lock conflict: x");
    assert_eq!(text(SfsError::SeekOutOfBounds("x".to_string())), "seek out of bounds: x");
    assert_eq!(text(SfsError::IoError("x".to_string())), "I/O error: x");
    assert_eq!(text(SfsError::ReadOnly("x".to_string())), "read-only: x");
}

#[test]
fn many_may_read_but_one_writes_alone() {
    let mut sfs = Fs::create("", 4, 9).unwrap();
    let sh = sfs.create_stream("s").unwrap();
    sfs.write(&sh, &[1, 2, 3, 4]).unwrap();
    sfs.close_stream(sh).unwrap();
    let a = sfs.open_stream("s", OpenMode::Read).unwrap();
    let b = sfs.open_stream("s", OpenMode::Read).unwrap();
    assert_ne!(a.id(), b.id());
    assert!(matches!(sfs.open_stream("s", OpenMode::Write), Err(SfsError::LockConflict(_))));
    assert!(matches!(sfs.write(&a, &[9]), Err(SfsError::LockConflict(_))));
    sfs.seek(&a, 2).unwrap();
    assert_eq!(sfs.tell(&a).unwrap(), 2);
    assert_eq!(sfs.tell(&b).unwrap(), 0);
    let mut buf = [0u8; 4];
    assert_eq!(sfs.read(&a, &mut buf).unwrap(), 2);
    assert_eq!(buf, [3, 4, 0, 0]);
    sfs.close_stream(a).unwrap();
    sfs.close_stream(b).unwrap();
    let w = sfs.open_stream("s", OpenMode::Write).unwrap();
    sfs.seek(&w, 1).unwrap();
    sfs.write(&w, &[9]).unwrap();
    sfs.seek(&w, 0).unwrap();
    assert_eq!(sfs.read(&w, &mut buf).unwrap(), 4);
    assert_eq!(buf, [1, 9, 3, 4]);
    sfs.close_stream(w).unwrap();
    assert_eq!(StreamHandle::from_id(7).id(), 7);
}

#[test]
fn a_compressed_stream_gives_back_what_was_written() {
    let mut sfs = Fs::create_with_vbss("", 4, 9, 13).unwrap();
    let sh = sfs.create_stream_as("packed", true).unwrap();
    assert!(sfs.is_stream_compressed(&sh).unwrap());
    let data: Vec<u8> = (0..50000usize).map(|i| (i / 700) as u8).collect();
    sfs.write(&sh, &data).unwrap();
    assert_eq!(sfs.stream_length(&sh).unwrap(), 50000);
    assert_eq!(sfs.stream_reserved(&sh).unwrap(), 57344);
    sfs.seek(&sh, 20000).unwrap();
    sfs.write(&sh, &[7u8; 100]).unwrap();
    sfs.truncate(&sh, 30000).unwrap();
    sfs.close_stream(sh).unwrap();
    assert!(sfs.verify().unwrap().is_empty());
    let bytes = close_to_bytes(sfs);
    assert!(bytes.len() < 30000);

    let mut sfs = reopen(bytes, OpenMode::Read);
    let sh = sfs.open_stream("packed", OpenMode::Read).unwrap();
    let mut want = data;
    want.truncate(30000);
    for b in want[20000..20100].iter_mut() {
        *b = 7;
    }
    let mut buf = vec![0u8; 40000];
    assert_eq!(sfs.read(&sh, &mut buf).unwrap(), 30000);
    assert_eq!(&buf[..30000], &want[..]);
    sfs.close_stream(sh).unwrap();
    assert!(sfs.verify().unwrap().is_empty());
}

#[test]
fn streams_without_order_are_compressed_too() {
    let mut sfs = Fs::create_with_vbss("", 4, 9, 11).unwrap();
    let sh = sfs.create_stream_as("noise", true).unwrap();
    let mut x: u32 = 12345;
    let data: Vec<u8> = (0..9000)
        .map(|_| {
            x = x.wrapping_mul(1664525).wrapping_add(1013904223);
            (x >> 24) as u8
        })
        .collect();
    sfs.write(&sh, &data).unwrap();
    sfs.seek(&sh, 0).unwrap();
    let mut buf = vec![0u8; 9000];
    assert_eq!(sfs.read(&sh, &mut buf).unwrap(), 9000);
    assert_eq!(buf, data);
    sfs.close_stream(sh).unwrap();
    assert!(sfs.verify().unwrap().is_empty());
}

#[test]
fn blocks_are_used_again() {
    let mut sfs = Fs::create("", 4, 9).unwrap();
    let data = vec![5u8; 40000];
    let mut len = 0;
    for round in 0..4 {
        for name in ["a", "b", "c"] {
            let sh = sfs.create_stream(name).unwrap();
            sfs.write(&sh, &data).unwrap();
            sfs.close_stream(sh).unwrap();
        }
        for name in ["b", "a", "c"] {
            sfs.delete_stream(name).unwrap();
        }
        assert!(sfs.verify().unwrap().is_empty());
        let bytes = close_to_bytes(sfs);
        if round == 0 {
            len = bytes.len();
        }
        assert_eq!(bytes.len(), len);
        sfs = reopen(bytes, OpenMode::Write);
    }
}

#[test]
fn damage_is_reported() {
    let mut sfs = Fs::create("", 4, 9).unwrap();
    sfs.mkdir("d").unwrap();
    let sh = sfs.create_stream("d/s").unwrap();
    sfs.write(&sh, &[1u8; 600]).unwrap();
    sfs.close_stream(sh).unwrap();
    let bytes = close_to_bytes(sfs);
    // Two bytes of a name of the root directory: no longer a list of entries.
    let at = bytes.windows(2).position(|w| w == b"d/").unwrap();
    let mut broken = bytes.clone();
    broken[at] = 0xFF;
    let mut sfs = reopen(broken, OpenMode::Read);
    assert!(!sfs.verify().unwrap().is_empty());
    let mut sfs = reopen(bytes, OpenMode::Read);
    assert!(sfs.verify().unwrap().is_empty());
}

#[test]
fn no_file_system_is_found_where_there_is_none() {
    assert!(matches!(MemoryFile::from_bytes(vec![0u8; 100]), Err(SfsError::IoError(_))));
    let sfs = Fs::create("", 4, 9).unwrap();
    let mut bytes = close_to_bytes(sfs);
    assert_eq!(&bytes[..9], b"yakyakyak");
    assert_eq!(bytes[12], 9);
    bytes[12] = 200;
    let file = MemoryFile::from_bytes(bytes).unwrap();
    assert!(matches!(Blocks::open_on(file), Err(SfsError::IoError(_))));
}

#[test]
fn a_closed_stream_layer_has_the_blocks_of_its_streams() {
    let mut l3 = Streams::create("", 4, 9, 0, VecDeque::new()).unwrap();
    let id = l3.create_stream(false).unwrap();
    let h = l3.open_stream(id, OpenMode::Write).unwrap();
    l3.write(&h, 0, &[3u8; 2000]).unwrap();
    l3.close_stream(h).unwrap();
    let mut l2 = l3.into_layer();
    assert_eq!(l2.block_size(), 512);
    assert_eq!(l2.block_index_width(), 4);
    let b = l2.allocate_block().unwrap();
    l2.deallocate_block(b).unwrap();
    let mut l3 = Streams::open_on(l2).unwrap();
    assert!(l3.verify(&[id]).unwrap().is_empty());
    assert!(!l3.verify(&[]).unwrap().is_empty());
}

#[test]
fn an_examined_file_can_be_worked_on() {
    let mut sfs = Fs::create_with_vbss("", 4, 9, 11).unwrap();
    sfs.mkdir("d").unwrap();
    for (path, packed) in [("d/plain", false), ("d/packed", true)] {
        let sh = sfs.create_stream_as(path, packed).unwrap();
        sfs.write(&sh, &[6u8; 70000]).unwrap();
        assert!(!sfs.examine().unwrap());
        sfs.close_stream(sh).unwrap();
    }
    assert!(sfs.examine().unwrap());
    let mut sfs = reopen(close_to_bytes(sfs), OpenMode::Write);
    assert!(sfs.examine().unwrap());
    sfs.rename_stream("d/packed", "moved").unwrap();
    let sh = sfs.open_stream("moved", OpenMode::Write).unwrap();
    assert_eq!(sfs.stream_length(&sh).unwrap(), 70000);
    sfs.seek(&sh, 69999).unwrap();
    sfs.write(&sh, b"end").unwrap();
    sfs.close_stream(sh).unwrap();
    assert!(sfs.examine().unwrap());
    assert!(sfs.verify().unwrap().is_empty());
}

#[test]
fn what_cannot_be_unpacked_is_found_by_examining() {
    let mut sfs = Fs::create_with_vbss("", 4, 9, 11).unwrap();
    let sh = sfs.create_stream_as("s", true).unwrap();
    sfs.write(&sh, &[6u8; 2048]).unwrap();
    sfs.close_stream(sh).unwrap();
    let bytes = close_to_bytes(sfs);
    // The packed piece starts with its length, 2048, at the start of a block.
    let at = (0..(bytes.len() - 14) / 512)
        .map(|k| 14 + 512 * k)
        .find(|at| bytes[*at..*at + 4] == [0, 8, 0, 0])
        .unwrap();
    let mut broken = bytes.clone();
    broken[at + 1] = 7;
    let mut sfs = reopen(broken, OpenMode::Read);
    assert!(sfs.verify().unwrap().is_empty());
    assert!(!sfs.examine().unwrap());
    let mut longer = bytes.clone();
    longer[at + 1] = 9;
    assert!(!reopen(longer, OpenMode::Read).examine().unwrap());
    assert!(reopen(bytes, OpenMode::Read).examine().unwrap());
}

#[test]
fn the_stream_layer_is_examined_for_the_streams_that_are_claimed() {
    let mut l3 = Streams::create("", 4, 9, 0, VecDeque::new()).unwrap();
    let id = l3.create_stream(false).unwrap();
    let h = l3.open_stream(id, OpenMode::Write).unwrap();
    l3.write(&h, 0, &[3u8; 2000]).unwrap();
    assert!(!l3.examine(&[id]).unwrap());
    l3.close_stream(h).unwrap();
    assert!(l3.examine(&[id]).unwrap());
    assert!(!l3.examine(&[]).unwrap());
    assert!(!l3.examine(&[id, id + 1]).unwrap());
}
