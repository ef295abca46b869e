//! Layer 1: one file of bytes with a short header.

use crate::block_layer::zero_bytes;
use crate::bytes::{
    after_read, copy_into, copy_range, get_le, law_le_round_trip, le_bytes, le_value,
    lemma_le_bytes_len, lemma_pow256_values, push_le, read_count, same_bytes, zeros,
};
use crate::types::{text_num, OpenMode, SfsError};
use vstd::prelude::*;

verus! {

/// The version of the layout of the file.
pub const HEADER_FORMAT_VERSION: u8 = 1;

/// The size of the header in bytes: nine letters, the version and the offset of
/// the data.
pub const MAGIC_SIZE: u64 = 12;

/// The letters that a file starts with: "yakyakyak".
pub open spec fn magic() -> Seq<u8> {
    seq![121u8, 97u8, 107u8, 121u8, 97u8, 107u8, 121u8, 97u8, 107u8]
}

/// The bytes of the header.
pub open spec fn magic_bytes(data_offset: nat) -> Seq<u8> {
    magic() + seq![HEADER_FORMAT_VERSION] + le_bytes(data_offset, 2)
}

/// The bytes begin with a header.
pub open spec fn is_magic(data: Seq<u8>) -> bool {
    &&& data.len() >= MAGIC_SIZE
    &&& data.subrange(0, 9) == magic()
    &&& data[9] == HEADER_FORMAT_VERSION
}

/// The offset of the data that a header tells.
pub open spec fn magic_offset(data: Seq<u8>) -> nat {
    le_value(data.subrange(10, 12))
}

/// A new file: the header, and zeros up to where the data is to begin.
pub open spec fn new_file(data_offset: nat) -> Seq<u8> {
    magic_bytes(data_offset) + zero_bytes((data_offset - MAGIC_SIZE) as nat)
}

/// The header of a file is in order and tells this offset.
pub open spec fn header_ok(data: Seq<u8>, data_offset: nat) -> bool {
    &&& is_magic(data)
    &&& magic_offset(data) == data_offset
    &&& data_offset <= data.len()
}

/// A file after `data` was written to it at `offset`. Where that lies behind
/// the end, zeros stand between.
pub open spec fn file_written(file: Seq<u8>, offset: int, data: Seq<u8>) -> Seq<u8> {
    if data.len() == 0 {
        file
    } else {
        let len = if offset + data.len() > file.len() {
            (offset + data.len()) as nat
        } else {
            file.len()
        };
        Seq::new(
            len,
            |i: int|
                if offset <= i < offset + data.len() {
                    data[i - offset]
                } else if i < file.len() {
                    file[i]
                } else {
                    0u8
                },
        )
    }
}

/// A file of another length: cut off, or with zeros at its end.
pub open spec fn resized(file: Seq<u8>, len: nat) -> Seq<u8> {
    Seq::new(
        len,
        |i: int|
            if i < file.len() {
                file[i]
            } else {
                0u8
            },
    )
}

/// Writes the header down.
pub fn serialize_magic(data_offset: u16) -> (buf: Vec<u8>)
    ensures
        buf@ == magic_bytes(data_offset as nat),
        buf@.len() == MAGIC_SIZE,
{
    let mut buf: Vec<u8> = vec![121u8, 97u8, 107u8, 121u8, 97u8, 107u8, 121u8, 97u8, 107u8];
    buf.push(HEADER_FORMAT_VERSION);
    push_le(&mut buf, data_offset as u64, 2);
    proof {
        lemma_le_bytes_len(data_offset as nat, 2);
        assert(buf@ =~= magic_bytes(data_offset as nat));
    }
    buf
}

/// Reads a header: the offset of the data.
pub fn deserialize_magic(data: &[u8]) -> (r: Result<u64, SfsError>)
    ensures
        r is Ok <==> is_magic(data@),
        r matches Ok(offset) ==> offset == magic_offset(data@),
        r matches Err(e) ==> e is IoError,
{
    if data.len() < 12 {
        return Err(SfsError::IoError("failed to read Yak header magic".to_owned()));
    }
    let name: Vec<u8> = vec![121u8, 97u8, 107u8, 121u8, 97u8, 107u8, 121u8, 97u8, 107u8];
    let found: Vec<u8> = copy_range(data, 0, 9);
    proof {
        assert(name@ =~= magic());
        lemma_pow256_values();
    }
    if !same_bytes(found.as_slice(), name.as_slice()) {
        return Err(SfsError::IoError("not a Yak file (bad magic)".to_owned()));
    }
    if data[9] != HEADER_FORMAT_VERSION {
        return Err(
            SfsError::IoError(text_num("unsupported header format version: ", data[9] as u64, "")),
        );
    }
    Ok(get_le(data, 10, 2))
}

/// Checks the header of a file of `len` bytes that begins with `data`. There is
/// something to report unless the header is in order.
pub fn check_header(data: &[u8], len: u64, data_offset: u64) -> (issues: Vec<String>)
    requires
        len < MAGIC_SIZE ==> data@.len() == len,
        len >= MAGIC_SIZE ==> MAGIC_SIZE <= data@.len() <= len,
    ensures
        issues@.len() == 0 <==> is_magic(data@) && magic_offset(data@) == data_offset
            && data_offset <= len,
{
    let mut issues: Vec<String> = Vec::new();
    if len < data_offset {
        issues.push(text_num("L1: file size is less than data_offset: ", len, ""));
    }
    match deserialize_magic(data) {
        Ok(stored) => {
            if stored != data_offset {
                issues.push(
                    text_num("L1: data_offset in magic does not match: ", stored, ""),
                );
            }
        },
        Err(_) => {
            issues.push("L1: file magic is corrupted".to_owned());
        },
    }
    issues
}

/// A header read back from its own bytes gives what was written.
pub proof fn law_magic_round_trip(data_offset: u16)
    ensures
        magic_bytes(data_offset as nat).len() == MAGIC_SIZE,
        is_magic(magic_bytes(data_offset as nat)),
        magic_offset(magic_bytes(data_offset as nat)) == data_offset,
{
    let h = magic_bytes(data_offset as nat);
    lemma_pow256_values();
    lemma_le_bytes_len(data_offset as nat, 2);
    law_le_round_trip(data_offset as nat, 2);
    assert(h.subrange(0, 9) =~= magic());
    assert(h.subrange(10, 12) =~= le_bytes(data_offset as nat, 2));
}

/// A file that can be read and written anywhere.
///
/// A file is known by its bytes and by the offset at which the data begins,
/// which stands in its header. `faults` counts the calls that the medium
/// failed. What a kind of file promises of its medium, `reads_always` and `room`
/// say. A type of another crate may leave these out.
pub trait FileLayer: Sized {
    /// The bytes of the file.
    open spec fn bytes(&self) -> Seq<u8> {
        Seq::empty()
    }

    /// The offset at which the data begins.
    open spec fn offset(&self) -> nat {
        0
    }

    /// The number of calls that failed.
    open spec fn faults(&self) -> nat {
        0
    }

    /// The medium fails no call that only reads.
    open spec fn reads_always() -> bool {
        false
    }

    /// The medium fails no write and no change of length within this many bytes.
    open spec fn room() -> nat {
        0
    }

    /// Creates a new file at `path`.
    fn create(path: &str, data_offset: u64) -> (r: Result<Self, SfsError>)
        requires
            MAGIC_SIZE <= data_offset <= 65535,
        ensures
            r matches Ok(file) ==> file.bytes() == new_file(data_offset as nat) && file.offset()
                == data_offset,
    ;

    /// Opens the file at `path`.
    fn open(path: &str, mode: OpenMode) -> (r: Result<Self, SfsError>)
        ensures
            r matches Ok(file) ==> is_magic(file.bytes()) && file.offset() == magic_offset(
                file.bytes(),
            ),
    ;

    /// The offset at which the data begins.
    fn data_offset(&self) -> (offset: u64)
        ensures
            offset == self.offset(),
            offset <= 65535,
    ;

    /// Reads from the file, from `offset` on, as far as the file and `buf`
    /// reach.
    fn read(&mut self, offset: u64, buf: &mut [u8]) -> (r: Result<usize, SfsError>)
        ensures
            final(self).bytes() == old(self).bytes(),
            final(self).offset() == old(self).offset(),
            final(self).faults() >= old(self).faults(),
            (r is Ok) == (final(self).faults() == old(self).faults()),
            Self::reads_always() ==> r is Ok,
            final(buf)@.len() == old(buf)@.len(),
            r matches Ok(n) ==> {
                &&& n == read_count(
                    old(self).bytes().len() as int,
                    offset as int,
                    old(buf)@.len() as int,
                )
                &&& final(buf)@ == after_read(old(self).bytes(), offset as int, old(buf)@)
            },
    ;

    /// Writes to the file at `offset`.
    fn write(&mut self, offset: u64, data: &[u8]) -> (r: Result<(), SfsError>)
        requires
            offset + data@.len() <= u64::MAX,
        ensures
            final(self).offset() == old(self).offset(),
            final(self).faults() >= old(self).faults(),
            (r is Ok) == (final(self).faults() == old(self).faults()),
            offset + data@.len() <= Self::room() ==> r is Ok,
            r is Ok ==> final(self).bytes() == file_written(
                old(self).bytes(),
                offset as int,
                data@,
            ),
    ;

    /// The length of the file in bytes.
    fn len(&mut self) -> (r: Result<u64, SfsError>)
        ensures
            final(self).bytes() == old(self).bytes(),
            final(self).offset() == old(self).offset(),
            final(self).faults() >= old(self).faults(),
            (r is Ok) == (final(self).faults() == old(self).faults()),
            Self::reads_always() ==> r is Ok,
            r matches Ok(len) ==> len == old(self).bytes().len(),
    ;

    /// Whether the file has no bytes.
    fn is_empty(&mut self) -> (r: Result<bool, SfsError>)
        ensures
            final(self).bytes() == old(self).bytes(),
            final(self).offset() == old(self).offset(),
            final(self).faults() >= old(self).faults(),
            (r is Ok) == (final(self).faults() == old(self).faults()),
            Self::reads_always() ==> r is Ok,
            r matches Ok(empty) ==> empty == (old(self).bytes().len() == 0),
    {
        match self.len() {
            Ok(len) => Ok(len == 0),
            Err(e) => Err(e),
        }
    }

    /// Cuts the file off, or puts zeros at its end.
    fn set_len(&mut self, len: u64) -> (r: Result<(), SfsError>)
        ensures
            final(self).offset() == old(self).offset(),
            final(self).faults() >= old(self).faults(),
            (r is Ok) == (final(self).faults() == old(self).faults()),
            len <= Self::room() ==> r is Ok,
            r is Ok ==> final(self).bytes() == resized(old(self).bytes(), len as nat),
    ;

    /// Checks the header. There is something to report unless it is in order.
    fn verify(&mut self) -> (r: Result<Vec<String>, SfsError>)
        ensures
            final(self).bytes() == old(self).bytes(),
            final(self).offset() == old(self).offset(),
            final(self).faults() >= old(self).faults(),
            (r is Ok) == (final(self).faults() == old(self).faults()),
            Self::reads_always() ==> r is Ok,
            r matches Ok(issues) ==> (issues@.len() == 0 <==> header_ok(
                old(self).bytes(),
                old(self).offset(),
            )),
    {
        let data_offset: u64 = self.data_offset();
        let len: u64 = match self.len() {
            Ok(len) => len,
            Err(e) => {
                return Err(e);
            },
        };
        let size: usize = if len < MAGIC_SIZE {
            len as usize
        } else {
            12
        };
        let mut buf: Vec<u8> = zeros(size);
        match self.read(0, buf.as_mut_slice()) {
            Ok(_) => {},
            Err(e) => {
                return Err(e);
            },
        }
        proof {
            let file = old(self).bytes();
            assert(buf@ =~= file.take(size as int));
            if file.len() >= MAGIC_SIZE {
                assert(buf@.subrange(0, 9) =~= file.subrange(0, 9));
                assert(buf@.subrange(10, 12) =~= file.subrange(10, 12));
            }
        }
        Ok(check_header(buf.as_slice(), len, data_offset))
    }
}

/// A file that is kept in memory.
pub struct MemoryFile {
    data: Vec<u8>,
    data_offset: u16,
    failed: Ghost<nat>,
}

impl MemoryFile {
    /// Opens the file that `data` are the bytes of.
    pub fn from_bytes(data: Vec<u8>) -> (r: Result<MemoryFile, SfsError>)
        ensures
            r is Ok <==> is_magic(data@),
            r matches Err(e) ==> e is IoError,
            r matches Ok(file) ==> file.bytes() == data@ && file.offset() == magic_offset(data@),
    {
        match deserialize_magic(data.as_slice()) {
            Ok(data_offset) => {
                proof {
                    lemma_pow256_values();
                    crate::bytes::law_le_bytes_of_value(data@.subrange(10, 12));
                }
                Ok(MemoryFile { data, data_offset: data_offset as u16, failed: Ghost(0) })
            },
            Err(e) => Err(e),
        }
    }

    /// The bytes of the file.
    pub fn into_bytes(self) -> (data: Vec<u8>)
        ensures
            data@ == self.bytes(),
    {
        self.data
    }
}

impl FileLayer for MemoryFile {
    closed spec fn bytes(&self) -> Seq<u8> {
        self.data@
    }

    closed spec fn offset(&self) -> nat {
        self.data_offset as nat
    }

    closed spec fn faults(&self) -> nat {
        self.failed@
    }

    open spec fn reads_always() -> bool {
        true
    }

    open spec fn room() -> nat {
        usize::MAX as nat
    }

    fn create(path: &str, data_offset: u64) -> (r: Result<Self, SfsError>)
        ensures
            r is Ok,
    {
        let mut data: Vec<u8> = serialize_magic(data_offset as u16);
        let mut rest: Vec<u8> = zeros((data_offset - MAGIC_SIZE) as usize);
        data.append(&mut rest);
        proof {
            assert(data@ =~= new_file(data_offset as nat));
        }
        Ok(MemoryFile { data, data_offset: data_offset as u16, failed: Ghost(0) })
    }

    /// There is nothing in memory that a path could name.
    fn open(path: &str, mode: OpenMode) -> (r: Result<Self, SfsError>)
        ensures
            r matches Err(e) && e is NotFound,
    {
        Err(SfsError::NotFound(path.to_owned()))
    }

    fn data_offset(&self) -> (offset: u64) {
        self.data_offset as u64
    }

    fn read(&mut self, offset: u64, buf: &mut [u8]) -> (r: Result<usize, SfsError>) {
        let len: usize = self.data.len();
        let want: usize = buf.len();
        if offset >= len as u64 {
            proof {
                assert(buf@ =~= after_read(self.data@, offset as int, buf@));
            }
            return Ok(0);
        }
        let start: usize = offset as usize;
        let n: usize = if len - start < want {
            len - start
        } else {
            want
        };
        let part: Vec<u8> = copy_range(self.data.as_slice(), start, start + n);
        copy_into(buf, 0, part.as_slice());
        proof {
            assert(buf@ =~= after_read(self.data@, offset as int, old(buf)@));
        }
        Ok(n)
    }

    fn write(&mut self, offset: u64, data: &[u8]) -> (r: Result<(), SfsError>) {
        let count: usize = data.len();
        if count == 0 {
            return Ok(());
        }
        let end: u64 = offset + count as u64;
        if end > usize::MAX as u64 {
            self.failed = Ghost(self.failed@ + 1);
            return Err(SfsError::IoError("file is too long".to_owned()));
        }
        let ghost file = self.data@;
        if end > self.data.len() as u64 {
            let mut more: Vec<u8> = zeros(end as usize - self.data.len());
            let mut bytes: Vec<u8> = copy_range(self.data.as_slice(), 0, self.data.len());
            bytes.append(&mut more);
            copy_into(bytes.as_mut_slice(), offset as usize, data);
            self.data = bytes;
        } else {
            copy_into(self.data.as_mut_slice(), offset as usize, data);
        }
        proof {
            assert(self.data@ =~= file_written(file, offset as int, data@));
        }
        Ok(())
    }

    fn len(&mut self) -> (r: Result<u64, SfsError>) {
        Ok(self.data.len() as u64)
    }

    fn set_len(&mut self, len: u64) -> (r: Result<(), SfsError>) {
        if len > usize::MAX as u64 {
            self.failed = Ghost(self.failed@ + 1);
            return Err(SfsError::IoError("file is too long".to_owned()));
        }
        let ghost file = self.data@;
        self.data.resize(len as usize, 0);
        proof {
            assert(self.data@ =~= resized(file, len as nat));
        }
        Ok(())
    }
}

} // verus!
