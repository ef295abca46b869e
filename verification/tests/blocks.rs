//! The block store in a file in memory.

use std::collections::VecDeque;
use stream_fs::file_layer::{deserialize_magic, serialize_magic, FileLayer};
use stream_fs::free_list::{coalesce_extents, TrunkExtent};
use stream_fs::{BlockLayer, BlocksInFile, CacheMode, HeaderSlotId, MemoryFile, SfsError};

type Blocks = BlocksInFile<MemoryFile, 4096>;
type Uncached = BlocksInFile<MemoryFile, 0>;

fn slots(sizes: &[u16]) -> VecDeque<u16> {
    sizes.iter().copied().collect()
}

fn whole<B: BlockLayer>(store: &mut B, block: u64) -> Vec<u8> {
    let mut buf = vec![0xEEu8; store.block_size()];
    store.read_block(block, 0, &mut buf, CacheMode::ThreadLocal).unwrap();
    buf
}

#[test]
fn a_file_begins_with_its_letters() {
    let header = serialize_magic(14);
    assert_eq!(header, b"yakyakyak\x01\x0e\x00");
    assert_eq!(deserialize_magic(&header).unwrap(), 14);
    assert!(matches!(deserialize_magic(&header[..11]), Err(SfsError::IoError(_))));
    let mut file = MemoryFile::create("", 20).unwrap();
    assert_eq!(file.len().unwrap(), 20);
    assert_eq!(file.data_offset(), 20);
    assert!(!file.is_empty().unwrap());
    file.write(25, b"xyz").unwrap();
    let mut buf = [9u8; 6];
    assert_eq!(file.read(24, &mut buf).unwrap(), 4);
    assert_eq!(&buf, b"\x00xyz\x09\x09");
    assert!(file.verify().unwrap().is_empty());
    file.set_len(15).unwrap();
    assert!(!file.verify().unwrap().is_empty());
}

#[test]
fn new_blocks_are_zero_and_hold_what_is_written() {
    let mut store = Blocks::create("", 9, 4, slots(&[])).unwrap();
    let a = store.allocate_block().unwrap();
    let b = store.allocate_block().unwrap();
    assert_ne!(a, b);
    assert_eq!(whole(&mut store, a), vec![0u8; 512]);
    store.write_block(a, 100, b"hello", CacheMode::ThreadLocal).unwrap();
    let mut buf = [0u8; 7];
    store.read_block(a, 99, &mut buf, CacheMode::Shared).unwrap();
    assert_eq!(&buf, b"\x00hello\x00");
    store.invalidate_block_cache();
    assert_eq!(&whole(&mut store, a)[100..105], b"hello");
    assert_eq!(whole(&mut store, b), vec![0u8; 512]);
    assert!(store.verify(&[a, b]).unwrap().is_empty());
    assert!(!store.verify(&[a]).unwrap().is_empty());
    assert!(!store.verify(&[a, b, b]).unwrap().is_empty());
    assert!(!store.verify(&[0, a, b]).unwrap().is_empty());
}

#[test]
fn blocks_given_back_are_given_out_again() {
    let mut store = Blocks::create("", 9, 4, slots(&[])).unwrap();
    let taken = store.allocate_blocks(200).unwrap();
    assert_eq!(taken.len(), 200);
    for &b in &taken {
        store.write_block(b, 0, &[1u8; 512], CacheMode::ThreadLocal).unwrap();
    }
    let mut odd: Vec<u64> = taken.iter().copied().filter(|b| b % 2 == 1).collect();
    let mut even: Vec<u64> = taken.iter().copied().filter(|b| b % 2 == 0).collect();
    store.deallocate_blocks(&mut odd).unwrap();
    assert!(store.verify(&even).unwrap().is_empty());
    let mut again = store.allocate_blocks(odd.len() as u64).unwrap();
    for &b in &again {
        assert_eq!(whole(&mut store, b), vec![0u8; 512]);
    }
    let all: Vec<u64> = even.iter().chain(again.iter()).copied().collect();
    assert!(store.verify(&all).unwrap().is_empty());
    store.deallocate_blocks(&mut even).unwrap();
    let last = again.pop().unwrap();
    store.deallocate_block(last).unwrap();
    assert!(store.verify(&again).unwrap().is_empty());
    // What is opened from the file is the same store.
    let mut store = Blocks::open_on(store.into_file()).unwrap();
    assert!(store.verify(&again).unwrap().is_empty());
    let file = store.into_file();
    let length = file.into_bytes().len();
    assert!(length <= 14 + 201 * 512);
}

#[test]
fn runs_of_blocks_are_read_and_written_at_once() {
    let mut cached = Blocks::create("", 9, 4, slots(&[])).unwrap();
    let mut plain = Uncached::create("", 9, 4, slots(&[])).unwrap();
    let data: Vec<u8> = (0..2000usize).map(|i| (i % 251) as u8).collect();
    let mut images = Vec::new();
    {
        let run = cached.allocate_blocks(5).unwrap();
        assert!(whole(&mut cached, run[1]).iter().all(|&b| b == 0));
        cached.write_contiguous_blocks(run[0], 300, &data).unwrap();
        let mut buf = vec![0u8; 2000];
        cached.read_contiguous_blocks(run[0], 300, &mut buf).unwrap();
        assert_eq!(buf, data);
        assert_eq!(whole(&mut cached, run[1]), &data[212..724]);
        images.push(cached.into_file().into_bytes());
    }
    {
        let run = plain.allocate_blocks(5).unwrap();
        plain.write_contiguous_blocks(run[0], 300, &data).unwrap();
        assert_eq!(whole(&mut plain, run[1]), &data[212..724]);
        images.push(plain.into_file().into_bytes());
    }
    assert_eq!(images[0], images[1]);
}

#[test]
fn header_slots_are_kept_in_block_zero() {
    let mut store = Blocks::create("", 9, 4, slots(&[3, 5])).unwrap();
    let first = store.header_slot_for_upper(0);
    let second = store.header_slot_for_upper(1);
    assert_eq!(second, HeaderSlotId::new(1));
    assert_eq!(store.read_header_slot(first).unwrap(), [0, 0, 0]);
    store.write_header_slot(second, b"12345").unwrap();
    store.write_header_slot(first, b"abc").unwrap();
    assert!(matches!(store.write_header_slot(first, b"ab"), Err(SfsError::IoError(_))));
    assert!(matches!(store.read_header_slot(HeaderSlotId::new(2)), Err(SfsError::IoError(_))));
    let store = Blocks::open_on(store.into_file()).unwrap();
    assert_eq!(store.read_header_slot(first).unwrap(), b"abc");
    assert_eq!(store.read_header_slot(second).unwrap(), b"12345");
    assert!(matches!(Blocks::create("", 9, 4, slots(&[600])), Err(SfsError::IoError(_))));
}

#[test]
fn a_damaged_file_is_told_from_a_good_one() {
    let mut store = Blocks::create("", 9, 4, slots(&[])).unwrap();
    let taken = store.allocate_blocks(10).unwrap();
    let mut some = taken[2..7].to_vec();
    store.deallocate_blocks(&mut some).unwrap();
    let kept: Vec<u64> = taken.iter().copied().filter(|b| !some.contains(b)).collect();
    let bytes = store.into_file().into_bytes();
    let open = |bytes: Vec<u8>| Blocks::open_on(MemoryFile::from_bytes(bytes).unwrap());
    assert!(open(bytes.clone()).unwrap().verify(&kept).unwrap().is_empty());
    // A byte too many at the end.
    let mut longer = bytes.clone();
    longer.push(0);
    assert!(!open(longer).unwrap().verify(&kept).unwrap().is_empty());
    // Whatever byte of the first block is changed, the checks come to an end.
    for at in 14..14 + 512 {
        let mut changed = bytes.clone();
        changed[at] ^= 0x40;
        if let Ok(mut store) = open(changed) {
            assert!(store.verify(&kept).is_ok());
        }
    }
    // A header that is cut short.
    let mut lost = bytes.clone();
    lost.truncate(14 + 100);
    assert!(matches!(open(lost), Err(SfsError::IoError(_))));
}

#[test]
fn neighbouring_blocks_become_one_extent() {
    let found = coalesce_extents(&vec![3, 4, 5, 9, 11, 12]);
    let pairs: Vec<(u32, u32)> = found.iter().map(|e| (e.start, e.length)).collect();
    assert_eq!(pairs, [(3, 3), (9, 1), (11, 2)]);
    assert_eq!(TrunkExtent { start: 1, length: 2 }.length, 2);
}
