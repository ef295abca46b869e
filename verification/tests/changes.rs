//! What a change leaves as it was, what is refused, and what comes back.

use std::collections::VecDeque;
use stream_fs::file_layer::{FileLayer, MemoryFile};
use stream_fs::{
    BlockLayer, BlocksInFile, CacheMode, OpenMode, Sfs, SfsError, StreamHandle, StreamLayer,
    StreamsFromBlocks,
};

type Blocks = BlocksInFile<MemoryFile, 4096>;
type Streams = StreamsFromBlocks<Blocks>;
type Fs = Sfs<Streams>;

fn new_fs() -> Fs {
    Fs::create("", 4, 9).unwrap()
}

fn names(fs: &mut Fs, dir: &str) -> Vec<String> {
    fs.list(dir).unwrap().into_iter().map(|e| e.name).collect()
}

fn with_stream(fs: &mut Fs, path: &str, data: &[u8]) {
    let h = fs.create_stream(path).unwrap();
    fs.write(&h, data).unwrap();
    fs.close_stream(h).unwrap();
}

fn content(fs: &mut Fs, path: &str) -> Vec<u8> {
    let h = fs.open_stream(path, OpenMode::Read).unwrap();
    let mut buf = vec![0u8; fs.stream_length(&h).unwrap() as usize];
    fs.read(&h, &mut buf).unwrap();
    fs.close_stream(h).unwrap();
    buf
}

fn image(fs: Fs) -> Vec<u8> {
    let (layer3, r) = fs.into_layer();
    r.unwrap();
    layer3.into_layer().into_file().into_bytes()
}

/// A file that takes as many writes as its path says.
struct Brittle {
    file: MemoryFile,
    left: usize,
}

impl FileLayer for Brittle {
    fn create(path: &str, data_offset: u64) -> Result<Self, SfsError> {
        Ok(Brittle { file: MemoryFile::create("", data_offset)?, left: path.parse().unwrap() })
    }

    fn open(path: &str, mode: OpenMode) -> Result<Self, SfsError> {
        Ok(Brittle { file: MemoryFile::open(path, mode)?, left: 0 })
    }

    fn data_offset(&self) -> u64 {
        self.file.data_offset()
    }

    fn read(&mut self, offset: u64, buf: &mut [u8]) -> Result<usize, SfsError> {
        self.file.read(offset, buf)
    }

    fn write(&mut self, offset: u64, data: &[u8]) -> Result<(), SfsError> {
        if self.left == 0 {
            return Err(SfsError::IoError("broken".to_string()));
        }
        self.left -= 1;
        self.file.write(offset, data)
    }

    fn len(&mut self) -> Result<u64, SfsError> {
        self.file.len()
    }

    fn set_len(&mut self, len: u64) -> Result<(), SfsError> {
        self.file.set_len(len)
    }
}

type Weak = Sfs<StreamsFromBlocks<BlocksInFile<Brittle, 4096>>>;

/// A file system with two streams that are open for writing, where so many writes
/// suffice for it.
fn two_open(writes: usize) -> Result<Weak, SfsError> {
    let mut fs = Weak::create(&writes.to_string(), 4, 9)?;
    let a = fs.create_stream("a")?;
    fs.write(&a, b"one")?;
    let b = fs.create_stream("b")?;
    fs.write(&b, b"two")?;
    Ok(fs)
}

#[test]
fn closing_on_broken_storage_gives_the_error() {
    let mut failed = 0;
    let mut writes = 0;
    loop {
        if let Ok(fs) = two_open(writes) {
            match fs.close() {
                Ok(()) => break,
                Err(SfsError::IoError(said)) => assert!(said.contains("broken")),
                Err(other) => panic!("{:?}", other),
            }
            failed += 1;
        }
        writes += 1;
    }
    // Each of the two has to be written when it is closed.
    assert!(failed >= 2);
}

#[test]
fn streams_can_be_closed_after_the_storage_has_failed() {
    type Weak3 = StreamsFromBlocks<BlocksInFile<Brittle, 4096>>;
    let set_up = |writes: usize| -> Result<_, SfsError> {
        let mut l3 = Weak3::create(&writes.to_string(), 4, 9, 0, VecDeque::new())?;
        let ids = [l3.create_stream(false)?, l3.create_stream(false)?, l3.create_stream(false)?];
        let a = l3.open_stream(ids[0], OpenMode::Write)?;
        let b = l3.open_stream(ids[1], OpenMode::Write)?;
        let c = l3.open_stream(ids[2], OpenMode::Read)?;
        l3.write(&a, 0, b"lost")?;
        Ok((l3, a, b, c))
    };
    let mut seen = false;
    for writes in 0..200 {
        if let Ok((mut l3, a, b, c)) = set_up(writes) {
            if l3.close_stream(a).is_err() {
                assert!(matches!(l3.close_stream(b), Err(SfsError::IoError(_))));
                assert!(l3.close_stream(c).is_ok());
                assert!(matches!(l3.close_stream(a), Err(SfsError::NotFound(_))));
                assert!(matches!(l3.close_stream(b), Err(SfsError::NotFound(_))));
                seen = true;
            }
        }
    }
    assert!(seen);
}

#[test]
fn headers_of_another_version_are_refused() {
    let bytes = image(new_fs());
    let at = bytes.windows(6).position(|w| w == b"filing").unwrap();
    assert_eq!(bytes[at + 6], 0);
    let open = |bytes: Vec<u8>| {
        let blocks = Blocks::open_on(MemoryFile::from_bytes(bytes).unwrap()).unwrap();
        Fs::open_on(Streams::open_on(blocks).unwrap(), OpenMode::Read)
    };
    assert!(open(bytes.clone()).is_ok());
    let mut newer = bytes;
    newer[at + 6] = 1;
    assert!(matches!(open(newer), Err(SfsError::IoError(_))));
}

#[test]
fn truncating_gives_back_what_was_reserved() {
    let mut fs = Fs::create("", 4, 12).unwrap();
    let h = fs.create_stream("d").unwrap();
    fs.reserve(&h, 8192).unwrap();
    assert_eq!(fs.stream_reserved(&h).unwrap(), 8192);
    fs.truncate(&h, 0).unwrap();
    assert_eq!(fs.stream_reserved(&h).unwrap(), 0);
    fs.write(&h, &[1u8; 5000]).unwrap();
    fs.reserve(&h, 40960).unwrap();
    fs.truncate(&h, 4096).unwrap();
    assert_eq!(fs.stream_length(&h).unwrap(), 4096);
    assert_eq!(fs.stream_reserved(&h).unwrap(), 4096);
    fs.close_stream(h).unwrap();
    assert!(fs.verify().unwrap().is_empty());
}

#[test]
fn truncating_a_compressed_stream_gives_back_what_was_reserved() {
    let mut fs = Fs::create_with_vbss("", 4, 9, 12).unwrap();
    let h = fs.create_stream_as("d", true).unwrap();
    fs.write(&h, &[1u8; 9000]).unwrap();
    assert_eq!(fs.stream_reserved(&h).unwrap(), 12288);
    fs.truncate(&h, 4000).unwrap();
    assert_eq!(fs.stream_reserved(&h).unwrap(), 4096);
    fs.truncate(&h, 0).unwrap();
    assert_eq!(fs.stream_reserved(&h).unwrap(), 0);
    fs.close_stream(h).unwrap();
    assert!(fs.verify().unwrap().is_empty());
}

#[test]
fn a_rename_onto_a_taken_name_changes_nothing() {
    let mut fs = new_fs();
    fs.mkdir("a").unwrap();
    fs.mkdir("b").unwrap();
    fs.mkdir("b/a").unwrap();
    with_stream(&mut fs, "s", b"first");
    with_stream(&mut fs, "b/s", b"second");
    assert!(matches!(fs.rename_dir("a", "b/a"), Err(SfsError::AlreadyExists(_))));
    assert!(matches!(fs.rename_dir("a", "b/s"), Err(SfsError::AlreadyExists(_))));
    assert!(matches!(fs.rename_stream("s", "b/s"), Err(SfsError::AlreadyExists(_))));
    assert!(matches!(fs.rename_stream("s", "b/a"), Err(SfsError::AlreadyExists(_))));
    assert_eq!(names(&mut fs, ""), ["a", "b", "s"]);
    assert_eq!(names(&mut fs, "b"), ["a", "s"]);
    assert_eq!(content(&mut fs, "s"), b"first");
    assert_eq!(content(&mut fs, "b/s"), b"second");
    assert!(fs.verify().unwrap().is_empty());
}

#[test]
fn a_directory_is_not_moved_below_itself() {
    let mut fs = new_fs();
    fs.mkdir("a").unwrap();
    fs.mkdir("a/b").unwrap();
    assert!(matches!(fs.rename_dir("a", "a/c"), Err(SfsError::InvalidPath(_))));
    assert!(matches!(fs.rename_dir("a", "a/b/c"), Err(SfsError::InvalidPath(_))));
    assert_eq!(names(&mut fs, "a"), ["b"]);
    assert!(fs.verify().unwrap().is_empty());
}

#[test]
fn a_renamed_directory_takes_along_what_it_holds() {
    let mut fs = new_fs();
    fs.mkdir("a").unwrap();
    fs.mkdir("a/b").unwrap();
    fs.mkdir("other").unwrap();
    with_stream(&mut fs, "a/b/s", b"deep");
    with_stream(&mut fs, "t", b"aside");
    fs.rename_dir("a", "other/c").unwrap();
    assert_eq!(names(&mut fs, ""), ["other", "t"]);
    assert_eq!(names(&mut fs, "other"), ["c"]);
    assert_eq!(names(&mut fs, "other/c/b"), ["s"]);
    assert_eq!(content(&mut fs, "other/c/b/s"), b"deep");
    assert_eq!(content(&mut fs, "t"), b"aside");
    assert!(fs.verify().unwrap().is_empty());
}

#[test]
fn making_and_removing_a_directory_restores_the_listings() {
    let mut fs = new_fs();
    fs.mkdir("a").unwrap();
    with_stream(&mut fs, "a/s", b"x");
    let before = (names(&mut fs, ""), names(&mut fs, "a"));
    fs.mkdir("a/new").unwrap();
    assert_eq!(names(&mut fs, "a"), ["new", "s"]);
    assert_eq!(names(&mut fs, ""), before.0);
    fs.rmdir("a/new").unwrap();
    assert_eq!((names(&mut fs, ""), names(&mut fs, "a")), before);
}

#[test]
fn names_may_be_dots_but_not_too_long() {
    let mut fs = new_fs();
    fs.mkdir(".").unwrap();
    fs.mkdir("./..").unwrap();
    with_stream(&mut fs, "..", b"dots");
    with_stream(&mut fs, "./../...", b"more dots");
    assert_eq!(names(&mut fs, ""), [".", ".."]);
    assert_eq!(content(&mut fs, ".."), b"dots");
    assert_eq!(content(&mut fs, "./../..."), b"more dots");
    let long = "x".repeat(65522);
    with_stream(&mut fs, &long, b"long");
    assert_eq!(content(&mut fs, &long), b"long");
    let longer = "x".repeat(65523);
    assert!(matches!(fs.create_stream(&longer), Err(SfsError::InvalidPath(_))));
    assert!(matches!(fs.mkdir(&longer), Err(SfsError::InvalidPath(_))));
    assert!(matches!(fs.rename_stream("..", &longer), Err(SfsError::InvalidPath(_))));
    assert_eq!(content(&mut fs, ".."), b"dots");
    assert!(fs.verify().unwrap().is_empty());
}

#[test]
fn a_refused_compressed_stream_leaves_its_directory_free() {
    let mut fs = new_fs();
    assert!(matches!(fs.create_stream_as("s", true), Err(SfsError::IoError(_))));
    with_stream(&mut fs, "s", b"plain");
    assert_eq!(content(&mut fs, "s"), b"plain");
}

#[test]
fn free_blocks_are_used_before_the_file_grows() {
    let mut store = Blocks::create("", 9, 4, VecDeque::new()).unwrap();
    let taken = store.allocate_blocks(20).unwrap();
    assert!(taken.windows(2).all(|w| w[0] < w[1]));
    let mut back: Vec<u64> = taken.iter().rev().copied().collect();
    store.deallocate_blocks(&mut back).unwrap();
    assert_eq!(back, taken);
    let size = |store: Blocks| {
        let bytes = store.into_file().into_bytes();
        let n = bytes.len();
        (Blocks::open_on(MemoryFile::from_bytes(bytes).unwrap()).unwrap(), n)
    };
    let (mut store, full) = size(store);
    let again = store.allocate_blocks(20).unwrap();
    assert_eq!(again, taken);
    for &b in &again {
        let mut buf = [7u8; 512];
        store.read_block(b, 0, &mut buf, CacheMode::ThreadLocal).unwrap();
        assert_eq!(buf, [0u8; 512]);
    }
    let (mut store, same) = size(store);
    assert_eq!(same, full);
    let mut some = again[3..6].to_vec();
    store.deallocate_blocks(&mut some).unwrap();
    let five = store.allocate_blocks(5).unwrap();
    assert!(some.iter().all(|b| five.contains(b)));
    let (mut store, grown) = size(store);
    assert_eq!(grown, full + 2 * 512);
    let mut with_first = vec![five[0], 0];
    assert!(matches!(store.deallocate_blocks(&mut with_first), Err(SfsError::IoError(_))));
    assert_eq!(with_first, [five[0], 0]);
}

#[test]
fn the_check_names_blocks_that_are_claimed_wrongly() {
    let mut store = Blocks::create("", 9, 4, VecDeque::new()).unwrap();
    let mut taken = store.allocate_blocks(4).unwrap();
    let mut back = vec![taken.pop().unwrap()];
    store.deallocate_blocks(&mut back).unwrap();
    assert_eq!(taken, [1, 2, 3]);
    assert_eq!(back, [4]);
    assert!(store.verify(&[3, 1, 2]).unwrap().is_empty());
    assert_eq!(
        store.verify(&[1, 3, 3, 4, 9]).unwrap(),
        [
            "L2: block 3 claimed by multiple streams",
            "L2: block 4 is both claimed by a stream and on the free list",
            "L2: claimed block 9 is >= total_blocks (5)",
            "L2: block 2 is orphaned (not claimed by any stream, not on free list)",
        ]
    );
}

#[test]
fn refusals_say_why() {
    let said = |r: Result<(), SfsError>| r.err().unwrap().text();
    let mut fs = new_fs();
    assert_eq!(said(fs.mkdir("")), "invalid path: cannot create root directory");
    assert_eq!(said(fs.rmdir("")), "invalid path: cannot remove root directory");
    assert_eq!(said(fs.rename_dir("", "a")), "invalid path: cannot rename root directory");
    assert_eq!(said(fs.delete_stream("")), "invalid path: stream path cannot be empty");
    assert_eq!(said(fs.mkdir("/a")), "invalid path: path must not start or end with /");
    assert_eq!(said(fs.mkdir("a/")), "invalid path: path must not start or end with /");
    assert_eq!(said(fs.mkdir("a//b")), "invalid path: path contains empty component");
    let h = fs.create_stream("s").unwrap();
    fs.write(&h, &[0u8; 100]).unwrap();
    assert_eq!(
        said(fs.seek(&h, 1234567890)),
        "seek out of bounds: position 1234567890 exceeds stream length 100"
    );
    assert_eq!(
        said(fs.reserve(&h, 99)),
        "I/O error: cannot reserve 99 bytes: stream size is already 100"
    );
    let mut store = Blocks::create("", 9, 4, VecDeque::new()).unwrap();
    let b = store.allocate_block().unwrap();
    let mut buf = [0u8; 10];
    assert_eq!(
        store.read_block(b, 503, &mut buf, CacheMode::Bypass).err().unwrap().text(),
        "I/O error: read_block: offset 503 + len 10 exceeds block_size 512"
    );
}

#[test]
fn the_check_names_streams_that_are_missing_or_not_claimed() {
    let mut l3 = Streams::create("", 4, 9, 0, VecDeque::new()).unwrap();
    let a = l3.create_stream(false).unwrap();
    let b = l3.create_stream(false).unwrap();
    assert!(l3.verify(&[b, a]).unwrap().is_empty());
    let issues = l3.verify(&[a, 77]).unwrap();
    assert_eq!(
        issues,
        [
            "L3: stream 77 claimed by L4 but not found in stream descriptors".to_string(),
            format!(
                "L3: stream {} exists in stream descriptors but is not claimed by L4 (orphaned stream)",
                b
            ),
        ]
    );
}

#[test]
fn a_write_to_a_compressed_stream_goes_through() {
    let mut fs = Fs::create_with_vbss("", 4, 9, 12).unwrap();
    let h = fs.create_stream_as("p", true).unwrap();
    let data: Vec<u8> = (0..20000u32).map(|i| (i.wrapping_mul(2654435761) >> 24) as u8).collect();
    assert_eq!(fs.write(&h, &data).unwrap(), 20000);
    fs.seek(&h, 5000).unwrap();
    assert_eq!(fs.write(&h, &[9u8; 3000]).unwrap(), 3000);
    assert_eq!(fs.tell(&h).unwrap(), 8000);
    assert_eq!(fs.stream_length(&h).unwrap(), 20000);
    fs.close_stream(h).unwrap();
    let mut expected = data;
    expected[5000..8000].fill(9);
    assert_eq!(content(&mut fs, "p"), expected);
    // A redirector of 64 bytes has no room for pieces of this size.
    let mut small = Fs::create_with_vbss("", 4, 6, 12).unwrap();
    let h = small.create_stream_as("p", true).unwrap();
    assert!(matches!(small.write(&h, &expected), Err(SfsError::IoError(_))));
}

#[test]
fn a_file_opened_for_reading_refuses_every_change() {
    let mut fs = new_fs();
    fs.mkdir("d").unwrap();
    with_stream(&mut fs, "s", b"x");
    let blocks = Blocks::open_on(MemoryFile::from_bytes(image(fs)).unwrap()).unwrap();
    let mut fs = Fs::open_on(Streams::open_on(blocks).unwrap(), OpenMode::Read).unwrap();
    assert!(matches!(fs.mkdir("e"), Err(SfsError::ReadOnly(_))));
    assert!(matches!(fs.rmdir("d"), Err(SfsError::ReadOnly(_))));
    assert!(matches!(fs.rename_dir("d", "e"), Err(SfsError::ReadOnly(_))));
    assert!(matches!(fs.create_stream("t"), Err(SfsError::ReadOnly(_))));
    assert!(matches!(fs.delete_stream("s"), Err(SfsError::ReadOnly(_))));
    assert!(matches!(fs.rename_stream("s", "t"), Err(SfsError::ReadOnly(_))));
    assert!(matches!(fs.open_stream("s", OpenMode::Write), Err(SfsError::ReadOnly(_))));
    assert_eq!(names(&mut fs, ""), ["d", "s"]);
}

#[test]
fn a_handle_comes_back_from_its_number() {
    let mut fs = new_fs();
    let a = fs.create_stream("a").unwrap();
    let b = fs.create_stream("b").unwrap();
    assert_eq!(StreamHandle::from_id(a.id()), a);
    assert_ne!(a.id(), b.id());
    assert_ne!(a, b);
    assert_eq!(StreamHandle::from_id(17).id(), 17);
}

#[test]
fn an_error_carries_the_path() {
    let said = |r: Result<(), SfsError>| r.unwrap_err().text();
    let mut fs = new_fs();
    fs.mkdir("a").unwrap();
    fs.mkdir("b").unwrap();
    fs.mkdir("b/a").unwrap();
    with_stream(&mut fs, "s", b"1");
    assert_eq!(said(fs.mkdir("b/a")), "already exists: b/a");
    assert_eq!(said(fs.rename_dir("a", "b/a")), "already exists: b/a");
    assert_eq!(said(fs.rename_dir("b/x", "y")), "not found: b/x");
    assert_eq!(said(fs.rename_stream("b/x", "y")), "not found: b/x");
    assert_eq!(said(fs.rmdir("b")), "not empty: b");
    assert_eq!(said(fs.rmdir("b/x")), "not found: b/x");
    assert_eq!(said(fs.delete_stream("b/x")), "not found: b/x");
    assert_eq!(said(fs.open_stream("b/x", OpenMode::Read).map(|_| ())), "not found: b/x");
    assert_eq!(said(fs.create_stream("s").map(|_| ())), "already exists: s");
    let no_parent = "not found: parent directory does not exist";
    assert_eq!(said(fs.mkdir("x/y")), no_parent);
    assert_eq!(said(fs.delete_stream("x/y")), no_parent);
    assert_eq!(said(fs.rename_dir("a", "x/y")), no_parent);
}

#[test]
fn a_directory_is_its_entries_one_behind_the_other() {
    let root_bytes = |fs: Fs| {
        let (mut layer3, r) = fs.into_layer();
        r.unwrap();
        let bytes = layer3.peek_stream(0).unwrap();
        (Fs::open_on(layer3, OpenMode::Write).unwrap(), bytes)
    };
    let one = [10u8, 0, 1, 0, 0, 0, b'o', b'n', b'e', b'/'];
    let b = [7u8, 0, 2, 0, 0, 0, b'b'];
    let (mut fs, bytes) = root_bytes(new_fs());
    assert!(bytes.is_empty());
    fs.mkdir("one").unwrap();
    let (mut fs, bytes) = root_bytes(fs);
    assert_eq!(bytes, one);
    with_stream(&mut fs, "b", b"2");
    let (mut fs, bytes) = root_bytes(fs);
    assert_eq!(bytes, [&one[..], &b[..]].concat());
    fs.rmdir("one").unwrap();
    let (mut fs, bytes) = root_bytes(fs);
    assert_eq!(bytes, b);
    assert_eq!(names(&mut fs, ""), ["b"]);
}
