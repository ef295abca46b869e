//! What the file system promises, one promise at a time.

use stream_fs::{EntryType, MemoryFile, OpenMode, SfsDefault, SfsError, StreamHandle};

type Fs = SfsDefault<MemoryFile>;

fn new_fs() -> Fs {
    Fs::create("", 4, 9).unwrap()
}

fn names(fs: &mut Fs, dir: &str) -> Vec<String> {
    fs.list(dir).unwrap().into_iter().map(|e| e.name).collect()
}

fn with_stream(fs: &mut Fs, path: &str, data: &[u8]) {
    let h = fs.create_stream(path).unwrap();
    fs.write(&h, data).unwrap();
    fs.close_stream(h).unwrap();
}

fn read_up_to(fs: &mut Fs, h: &StreamHandle, n: usize) -> Vec<u8> {
    let mut buf = vec![0u8; n];
    let got = fs.read(h, &mut buf).unwrap();
    buf.truncate(got);
    buf
}

#[test]
fn test_mkdir_root() {
    let mut fs = new_fs();
    fs.mkdir("a").unwrap();
    assert_eq!(names(&mut fs, ""), ["a"]);
}

#[test]
fn test_mkdir_nested() {
    let mut fs = new_fs();
    fs.mkdir("a").unwrap();
    fs.mkdir("a/b").unwrap();
    assert_eq!(names(&mut fs, "a"), ["b"]);
}

#[test]
fn test_mkdir_parent_missing() {
    assert!(matches!(new_fs().mkdir("a/b"), Err(SfsError::NotFound(_))));
}

#[test]
fn test_mkdir_already_exists() {
    let mut fs = new_fs();
    fs.mkdir("a").unwrap();
    assert!(matches!(fs.mkdir("a"), Err(SfsError::AlreadyExists(_))));
}

#[test]
fn test_rmdir_empty() {
    let mut fs = new_fs();
    fs.mkdir("a").unwrap();
    fs.rmdir("a").unwrap();
    assert!(names(&mut fs, "").is_empty());
}

#[test]
fn test_rmdir_not_empty() {
    let mut fs = new_fs();
    fs.mkdir("a").unwrap();
    with_stream(&mut fs, "a/s", b"");
    assert!(matches!(fs.rmdir("a"), Err(SfsError::NotEmpty(_))));
}

#[test]
fn test_rmdir_nonexistent() {
    assert!(matches!(new_fs().rmdir("a"), Err(SfsError::NotFound(_))));
}

#[test]
fn test_list_root_empty() {
    assert!(names(&mut new_fs(), "").is_empty());
}

#[test]
fn test_list_root_with_entries() {
    let mut fs = new_fs();
    fs.mkdir("d").unwrap();
    with_stream(&mut fs, "s", b"");
    let found: Vec<EntryType> = fs.list("").unwrap().into_iter().map(|e| e.entry_type).collect();
    assert_eq!(found, [EntryType::Directory, EntryType::Stream]);
}

#[test]
fn test_list_subdirectory() {
    let mut fs = new_fs();
    fs.mkdir("d").unwrap();
    with_stream(&mut fs, "d/s", b"");
    assert_eq!(names(&mut fs, "d"), ["s"]);
}

#[test]
fn test_list_nonexistent() {
    assert!(matches!(new_fs().list("d"), Err(SfsError::NotFound(_))));
}

#[test]
fn test_rename_dir() {
    let mut fs = new_fs();
    fs.mkdir("a").unwrap();
    with_stream(&mut fs, "a/s", b"x");
    fs.rename_dir("a", "b").unwrap();
    assert_eq!(names(&mut fs, ""), ["b"]);
    assert_eq!(names(&mut fs, "b"), ["s"]);
}

#[test]
fn test_create_stream_in_subdir() {
    let mut fs = new_fs();
    fs.mkdir("textures").unwrap();
    with_stream(&mut fs, "textures/img.png", b"");
    assert_eq!(names(&mut fs, "textures"), ["img.png"]);
}

#[test]
fn test_create_stream_dup() {
    let mut fs = new_fs();
    with_stream(&mut fs, "s", b"");
    assert!(matches!(fs.create_stream("s"), Err(SfsError::AlreadyExists(_))));
}

#[test]
fn test_delete_stream() {
    let mut fs = new_fs();
    with_stream(&mut fs, "s", b"abc");
    fs.delete_stream("s").unwrap();
    assert!(names(&mut fs, "").is_empty());
}

#[test]
fn test_delete_stream_while_open() {
    let mut fs = new_fs();
    let h = fs.create_stream("s").unwrap();
    assert!(matches!(fs.delete_stream("s"), Err(SfsError::LockConflict(_))));
    fs.close_stream(h).unwrap();
    fs.delete_stream("s").unwrap();
}

#[test]
fn test_rename_stream() {
    let mut fs = new_fs();
    with_stream(&mut fs, "a", b"abc");
    fs.rename_stream("a", "b").unwrap();
    assert_eq!(names(&mut fs, ""), ["b"]);
    with_stream(&mut fs, "c", b"");
    assert!(matches!(fs.rename_stream("c", "b"), Err(SfsError::AlreadyExists(_))));
    assert!(matches!(fs.rename_stream("d", "e"), Err(SfsError::NotFound(_))));
}

#[test]
fn test_write_and_read() {
    let mut fs = new_fs();
    let h = fs.create_stream("s").unwrap();
    fs.write(&h, b"bytes").unwrap();
    fs.seek(&h, 0).unwrap();
    assert_eq!(read_up_to(&mut fs, &h, 5), b"bytes");
}

#[test]
fn test_write_extends_stream() {
    let mut fs = new_fs();
    let h = fs.create_stream("s").unwrap();
    fs.write(&h, b"bytes").unwrap();
    fs.seek(&h, 3).unwrap();
    fs.write(&h, b"more").unwrap();
    assert_eq!(fs.stream_length(&h).unwrap(), 7);
    fs.seek(&h, 0).unwrap();
    assert_eq!(read_up_to(&mut fs, &h, 10), b"bytmore");
}

#[test]
fn test_read_at_end() {
    let mut fs = new_fs();
    let h = fs.create_stream("s").unwrap();
    fs.write(&h, b"bytes").unwrap();
    assert!(read_up_to(&mut fs, &h, 10).is_empty());
}

#[test]
fn test_seek_and_tell() {
    let mut fs = new_fs();
    let h = fs.create_stream("s").unwrap();
    fs.write(&h, b"bytes").unwrap();
    assert_eq!(fs.tell(&h).unwrap(), 5);
    fs.seek(&h, 2).unwrap();
    assert_eq!(fs.tell(&h).unwrap(), 2);
    assert!(matches!(fs.seek(&h, 6), Err(SfsError::SeekOutOfBounds(_))));
}

#[test]
fn test_sequential_reads() {
    let mut fs = new_fs();
    let h = fs.create_stream("s").unwrap();
    fs.write(&h, b"one").unwrap();
    fs.write(&h, b"two").unwrap();
    fs.seek(&h, 0).unwrap();
    assert_eq!(read_up_to(&mut fs, &h, 2), b"on");
    assert_eq!(read_up_to(&mut fs, &h, 2), b"et");
    assert_eq!(read_up_to(&mut fs, &h, 9), b"wo");
}

#[test]
fn test_truncate_moves_position() {
    let mut fs = new_fs();
    let h = fs.create_stream("s").unwrap();
    fs.write(&h, &[1u8; 2000]).unwrap();
    fs.truncate(&h, 700).unwrap();
    assert_eq!(fs.stream_length(&h).unwrap(), 700);
    assert_eq!(fs.tell(&h).unwrap(), 700);
    fs.seek(&h, 10).unwrap();
    fs.truncate(&h, 600).unwrap();
    assert_eq!(fs.tell(&h).unwrap(), 10);
    assert_eq!(read_up_to(&mut fs, &h, 1000), vec![1u8; 590]);
}

#[test]
fn test_close_writer_then_read() {
    let mut fs = new_fs();
    let w = fs.create_stream("s").unwrap();
    assert!(matches!(fs.open_stream("s", OpenMode::Write), Err(SfsError::LockConflict(_))));
    fs.close_stream(w).unwrap();
    let r = fs.open_stream("s", OpenMode::Read).unwrap();
    assert!(matches!(fs.open_stream("s", OpenMode::Write), Err(SfsError::LockConflict(_))));
    fs.close_stream(r).unwrap();
    fs.open_stream("s", OpenMode::Write).unwrap();
}

#[test]
fn test_write_empty_buffer() {
    let mut fs = new_fs();
    let h = fs.create_stream("s").unwrap();
    assert_eq!(fs.write(&h, b"").unwrap(), 0);
    assert_eq!(fs.stream_length(&h).unwrap(), 0);
    assert_eq!(fs.stream_reserved(&h).unwrap(), 0);
}

#[test]
fn test_deeply_nested() {
    let mut fs = new_fs();
    for dir in ["a", "a/b", "a/b/c", "a/b/c/d", "a/b/c/d/e"] {
        fs.mkdir(dir).unwrap();
    }
    with_stream(&mut fs, "a/b/c/d/e/f.dat", b"deep");
    let h = fs.open_stream("a/b/c/d/e/f.dat", OpenMode::Read).unwrap();
    assert_eq!(read_up_to(&mut fs, &h, 9), b"deep");
}

#[test]
fn test_stream_names_with_spaces() {
    let mut fs = new_fs();
    with_stream(&mut fs, "my file.txt", b"x");
    with_stream(&mut fs, "größe", b"y");
    assert_eq!(names(&mut fs, ""), ["größe", "my file.txt"]);
}

#[test]
fn test_paths_out_of_order() {
    let mut fs = new_fs();
    for path in ["/a", "a/", "a//b", "/", ""] {
        assert!(matches!(fs.mkdir(path), Err(SfsError::InvalidPath(_))), "{:?}", path);
        assert!(matches!(fs.create_stream(path), Err(SfsError::InvalidPath(_))), "{:?}", path);
        assert!(matches!(fs.delete_stream(path), Err(SfsError::InvalidPath(_))), "{:?}", path);
    }
    assert!(matches!(fs.list("a/"), Err(SfsError::InvalidPath(_))));
}

#[test]
fn test_closing_keeps_what_is_open() {
    let mut fs = new_fs();
    let h = fs.create_stream("s").unwrap();
    fs.write(&h, b"kept").unwrap();
    let (layer3, closed) = fs.into_layer();
    closed.unwrap();
    let mut fs = Fs::open_on(layer3, OpenMode::Read).unwrap();
    let h = fs.open_stream("s", OpenMode::Read).unwrap();
    assert_eq!(read_up_to(&mut fs, &h, 9), b"kept");
    assert_eq!(fs.block_index_width(), 4);
    assert_eq!(fs.block_size_shift(), 9);
}

#[test]
fn an_error_of_a_layer_below_is_passed_on() {
    for mode in [OpenMode::Read, OpenMode::Write] {
        assert!(matches!(Fs::open("nowhere", mode), Err(SfsError::NotFound(_))));
    }
    assert!(matches!(Fs::create("", 4, 5), Err(SfsError::IoError(_))));
    assert!(matches!(Fs::create("", 3, 12), Err(SfsError::IoError(_))));
    assert!(matches!(Fs::create_with_vbss("", 4, 12, 31), Err(SfsError::IoError(_))));
    assert!(Fs::create("", 4, 12).is_ok());
}
