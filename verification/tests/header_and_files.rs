//! Headers with sections, and the stores that keep every block or stream in a file
//! of its own.

use stream_fs::header_sections::{HeaderSections, SlotInfo, HEADER_REACH};
use stream_fs::{BlocksFromFiles, HeaderSlotId, OpenMode, SfsError, StreamsFromFiles};

fn slot(index: u8) -> HeaderSlotId {
    HeaderSlotId::new(index)
}

#[test]
fn a_new_header_reads_back() {
    let (header, bytes) = HeaderSections::create(&[2, 0, 5]);
    assert_eq!(header.data_offset(), 34);
    assert_eq!(&bytes[..12], b"stream_fs\x00\x22\x00");
    assert_eq!(&bytes[12..21], b"\x09\x00ondisk\x00");
    assert_eq!(&bytes[21..], &[4, 0, 0, 0, 2, 0, 7, 0, 0, 0, 0, 0, 0]);
    let again = HeaderSections::parse_header(&bytes).unwrap();
    assert_eq!(again.data_offset(), 34);
    assert_eq!(again.read_header_slot(slot(0)).unwrap(), (23, 2));
    assert_eq!(again.read_header_slot(slot(1)).unwrap(), (27, 0));
    assert_eq!(again.read_header_slot(slot(2)).unwrap(), (29, 5));
    assert!(matches!(again.read_header_slot(slot(3)), Err(SfsError::IoError(_))));
    assert_eq!(again.header_slot_for_upper(2), slot(2));
    assert_eq!(SlotInfo { offset: 1, payload_len: 2 }.payload_len, 2);
}

#[test]
fn a_slot_takes_what_fits_exactly() {
    let (header, _) = HeaderSections::create(&[3]);
    let (offset, bytes) = header.write_header_slot(slot(0), b"abc").unwrap();
    assert_eq!(offset, 21);
    assert_eq!(bytes, b"\x05\x00abc");
    assert!(matches!(header.write_header_slot(slot(0), b"ab"), Err(SfsError::IoError(_))));
    assert!(matches!(header.write_header_slot(slot(1), b"abc"), Err(SfsError::IoError(_))));
}

#[test]
fn headers_out_of_order_are_refused() {
    let (_, good) = HeaderSections::create(&[3]);
    let refused = |bytes: &[u8]| {
        matches!(HeaderSections::parse_header(bytes), Err(SfsError::IoError(_)))
    };
    assert!(!refused(&good));
    assert!(refused(&good[..13]));
    for (at, byte) in [(0, b'x'), (9, 1), (12, 8), (14, b'x'), (20, 1), (21, 1)] {
        let mut bad = good.clone();
        bad[at] = byte;
        assert!(refused(&bad), "byte {}", at);
    }
    // The payload of the last section may be missing, its length may not.
    assert!(!refused(&good[..23]));
    assert!(refused(&good[..22]));
}

#[test]
fn what_stands_behind_a_header_does_not_matter() {
    let (_, mut bytes) = HeaderSections::create(&[3, 4]);
    let short = HeaderSections::parse_header(&bytes).unwrap();
    bytes.resize(HEADER_REACH + 1000, 0xEE);
    let long = HeaderSections::parse_header(&bytes).unwrap();
    assert_eq!(short.data_offset(), long.data_offset());
    assert_eq!(short.read_header_slot(slot(1)).unwrap(), long.read_header_slot(slot(1)).unwrap());
}

#[test]
fn a_header_is_checked_against_its_file() {
    let (header, bytes) = HeaderSections::create(&[3]);
    assert!(header.verify(26, &bytes[..12]).is_empty());
    assert_eq!(header.verify(25, &bytes[..12]).len(), 1);
    let mut bad = bytes[..12].to_vec();
    bad[0] = 0;
    bad[9] = 9;
    bad[10] = 27;
    assert_eq!(header.verify(0, &bad).len(), 4);
}

#[test]
fn blocks_in_files_have_numbers() {
    let mut store = BlocksFromFiles::create(9, 1);
    assert_eq!(store.block_size(), 512);
    assert_eq!(store.sentinel(), 255);
    assert_eq!(store.block_path(17), "17.block");
    assert_eq!(store.allocate_block().unwrap(), 0);
    assert_eq!(store.block_created(), [1, 0, 0, 0, 0, 0, 0, 0]);
    for i in 1..255 {
        assert_eq!(store.allocate_block().unwrap(), i);
        store.block_created();
    }
    assert!(matches!(store.allocate_block(), Err(SfsError::IoError(_))));
    assert!(store.deallocate_block(3, true).is_ok());
    assert!(matches!(store.deallocate_block(3, false), Err(SfsError::NotFound(_))));
    assert!(store.read_block(254, 500, 12).is_ok());
    assert!(matches!(store.read_block(255, 0, 1), Err(SfsError::IoError(_))));
    assert!(matches!(store.read_block(1, 500, 13), Err(SfsError::IoError(_))));
    assert!(store.write_block(0, 512).is_ok());
    assert!(matches!(store.write_block(1, 512), Err(SfsError::IoError(_))));
    assert_eq!(BlocksFromFiles::create(9, 8).sentinel(), u64::MAX);
    assert_eq!(BlocksFromFiles::create(9, 2).sentinel(), 65535);
}

#[test]
fn a_store_of_blocks_opens_as_it_was() {
    let mut store = BlocksFromFiles::create(12, 4);
    store.block_created();
    let header = store.store_header(b"upper");
    assert_eq!(&header[..10], b"stream_fs\x00");
    assert_eq!(&header[10..21], b"\x0b\x00blkfil\x00\x0c\x04");
    let again = BlocksFromFiles::open(&header, &store.meta()).unwrap();
    assert_eq!(again.block_size_shift(), 12);
    assert_eq!(again.block_index_width(), 4);
    assert_eq!(again.allocate_block().unwrap(), 1);
    assert_eq!(again.load_header(&header).unwrap(), b"upper");
    assert_eq!(&header[10..21], &again.build_l2_section()[..]);
    let refused = |h: &[u8], m: &[u8]| {
        matches!(BlocksFromFiles::open(h, m), Err(SfsError::IoError(_)))
    };
    assert!(refused(&header[..20], &store.meta()));
    assert!(refused(&header, &store.meta()[..7]));
    let mut bad = header.clone();
    bad[18] = 1;
    assert!(refused(&bad, &store.meta()));
    bad[12] = b'x';
    assert!(refused(&bad, &store.meta()));
    bad[0] = b'x';
    assert!(refused(&bad, &store.meta()));
    assert!(matches!(again.load_header(&bad), Err(SfsError::IoError(_))));
    assert!(matches!(again.load_header(&header[..11]), Err(SfsError::IoError(_))));
    assert!(matches!(again.load_header(&header[..15]), Err(SfsError::IoError(_))));
}

#[test]
fn streams_in_files_are_locked() {
    let mut store = StreamsFromFiles::create(4, 12);
    assert_eq!(store.create_stream(), 0);
    let meta = store.stream_created();
    assert_eq!(meta, [4, 12, 1, 0, 0, 0, 0, 0, 0, 0]);
    assert_eq!(store.stream_path(0), "0.stream");
    assert!(matches!(store.open_stream(5, OpenMode::Read, false), Err(SfsError::NotFound(_))));
    let a = store.open_stream(0, OpenMode::Read, true).unwrap();
    let b = store.open_stream(0, OpenMode::Read, true).unwrap();
    assert_ne!(a, b);
    assert!(matches!(store.open_stream(0, OpenMode::Write, true), Err(SfsError::LockConflict(_))));
    assert!(matches!(store.delete_stream(0, true), Err(SfsError::LockConflict(_))));
    assert_eq!(store.read(&a).unwrap(), 0);
    assert!(matches!(store.write(&a), Err(SfsError::LockConflict(_))));
    store.close_stream(a).unwrap();
    assert!(matches!(store.close_stream(a), Err(SfsError::NotFound(_))));
    assert!(matches!(store.read(&a), Err(SfsError::NotFound(_))));
    store.close_stream(b).unwrap();
    let w = store.open_stream(0, OpenMode::Write, true).unwrap();
    assert_eq!(store.write(&w).unwrap(), 0);
    assert!(matches!(store.open_stream(0, OpenMode::Read, true), Err(SfsError::LockConflict(_))));
    store.close_stream(w).unwrap();
    assert!(store.delete_stream(0, true).is_ok());
    assert!(matches!(store.delete_stream(0, false), Err(SfsError::NotFound(_))));

    let again = StreamsFromFiles::open(&meta).unwrap();
    assert_eq!(again.block_index_width(), 4);
    assert_eq!(again.block_size_shift(), 12);
    assert_eq!(again.create_stream(), 1);
    assert!(matches!(StreamsFromFiles::open(&meta[..9]), Err(SfsError::IoError(_))));
}
