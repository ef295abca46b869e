//! A block store that keeps every block in a file of its own: which file that is,
//! what the files beside the blocks hold, and which requests are refused. The
//! files themselves are read and written by the caller.

use crate::block_layer::sentinel;
use crate::bytes::{
    copy_range, get_le, law_le_round_trip, le_bytes, le_value, lemma_le_bytes_len,
    lemma_pow256_values, push_le, same_bytes,
};
use crate::header_sections::{magic_letters, sections_magic, short_at};
use crate::pyramid_io::block_sentinel;
use crate::types::{beyond_block, decimal, text_num, SfsError};
use vstd::arithmetic::power2::pow2;
use vstd::prelude::*;

verus! {

/// The size of a header without the sections of the layers above.
pub const OWN_HEADER_SIZE: usize = 21;

/// A store with a file for each block.
#[derive(Debug)]
pub struct BlocksFromFiles {
    block_size_shift: u8,
    block_index_width: u8,
    next_block_id: u64,
}

/// The letters of the section of the store: "blkfil".
pub open spec fn l2_identifier() -> Seq<u8> {
    seq![98u8, 108u8, 107u8, 102u8, 105u8, 108u8]
}

/// The section of the store: its length, its letters, its version, and the size
/// and the width of the blocks.
pub open spec fn l2_section(shift: u8, width: u8) -> Seq<u8> {
    le_bytes(11, 2) + l2_identifier() + seq![0u8, shift, width]
}

/// The header, with the sections of the layers above behind that of the store.
pub open spec fn stored_header(shift: u8, width: u8, upper: Seq<u8>) -> Seq<u8> {
    sections_magic() + seq![0u8] + l2_section(shift, width) + upper
}

/// The bytes begin as a header does.
pub open spec fn starts_header(data: Seq<u8>) -> bool {
    data.len() >= 10 && data.subrange(0, 9) == sections_magic() && data[9] == 0
}

/// A store can be opened from this header.
pub open spec fn opens(data: Seq<u8>) -> bool {
    &&& starts_header(data)
    &&& data.len() >= OWN_HEADER_SIZE
    &&& data.subrange(12, 18) == l2_identifier()
    &&& data[18] == 0
}

/// The section of the store stands whole in this header.
pub open spec fn whole_section(data: Seq<u8>) -> bool {
    &&& starts_header(data)
    &&& data.len() >= 12
    &&& data.len() >= 10 + short_at(data, 10)
}

/// What a header holds for the layers above is read back as it was stored.
pub proof fn law_upper_round_trip(shift: u8, width: u8, upper: Seq<u8>)
    ensures
        ({
            let data = stored_header(shift, width, upper);
            &&& opens(data)
            &&& whole_section(data)
            &&& data[19] == shift
            &&& data[20] == width
            &&& data.skip(10 + short_at(data, 10) as int) == upper
        }),
{
    let data = stored_header(shift, width, upper);
    lemma_le_bytes_len(11, 2);
    lemma_pow256_values();
    law_le_round_trip(11, 2);
    assert(data.subrange(0, 9) =~= sections_magic());
    assert(data.subrange(10, 12) =~= le_bytes(11, 2));
    assert(data.subrange(12, 18) =~= l2_identifier());
    assert(data.skip(21) =~= upper);
}

impl BlocksFromFiles {
    pub closed spec fn shift(&self) -> u8 {
        self.block_size_shift
    }

    pub closed spec fn width(&self) -> u8 {
        self.block_index_width
    }

    /// The number of the block that is made next.
    pub closed spec fn next(&self) -> u64 {
        self.next_block_id
    }

    /// The index that stands for no block: the largest number of the width.
    pub open spec fn limit(&self) -> nat {
        if self.width() <= 8 {
            sentinel(self.width() as nat)
        } else {
            u64::MAX as nat
        }
    }

    /// An empty store.
    pub fn create(block_size_shift: u8, block_index_width: u8) -> (store: BlocksFromFiles)
        ensures
            store.shift() == block_size_shift,
            store.width() == block_index_width,
            store.next() == 0,
    {
        BlocksFromFiles { block_size_shift, block_index_width, next_block_id: 0 }
    }

    /// The store that its header and its meta file tell of.
    pub fn open(header: &[u8], meta: &[u8]) -> (r: Result<BlocksFromFiles, SfsError>)
        ensures
            r is Ok <==> opens(header@) && meta@.len() >= 8,
            r matches Ok(store) ==> {
                &&& store.shift() == header@[19]
                &&& store.width() == header@[20]
                &&& store.next() == le_value(meta@.subrange(0, 8))
            },
            r matches Err(e) ==> e is IoError,
    {
        if !has_magic(header) {
            return Err(SfsError::IoError("invalid SFS header magic".to_owned()));
        }
        if header.len() < OWN_HEADER_SIZE {
            return Err(SfsError::IoError("header too short for L2 section".to_owned()));
        }
        let letters: Vec<u8> = l2_letters();
        let found: Vec<u8> = copy_range(header, 12, 18);
        if !same_bytes(found.as_slice(), letters.as_slice()) {
            return Err(SfsError::IoError("expected L2 identifier 'blkfil'".to_owned()));
        }
        if header[18] != 0 {
            return Err(
                SfsError::IoError(text_num("unsupported L2 version: ", header[18] as u64, "")),
            );
        }
        let next_block_id: u64 = match read_meta(meta) {
            Ok(next) => next,
            Err(e) => {
                return Err(e);
            },
        };
        Ok(
            BlocksFromFiles {
                block_size_shift: header[19],
                block_index_width: header[20],
                next_block_id,
            },
        )
    }

    /// The name of the file of block `index`.
    pub fn block_path(&self, index: u64) -> (name: String)
        ensures
            name@ == decimal(index as nat) + ".block"@,
    {
        let name: String = text_num("", index, ".block");
        proof {
            reveal_strlit("");
            assert(""@ + decimal(index as nat) =~= decimal(index as nat));
        }
        name
    }

    /// What the meta file holds: the number of the block that is made next.
    pub fn meta(&self) -> (bytes: Vec<u8>)
        ensures
            bytes@ == le_bytes(self.next() as nat, 8),
    {
        let mut bytes: Vec<u8> = Vec::new();
        push_le(&mut bytes, self.next_block_id, 8);
        proof {
            assert(bytes@ =~= le_bytes(self.next() as nat, 8));
        }
        bytes
    }

    /// The index that stands for no block.
    pub fn sentinel(&self) -> (index: u64)
        ensures
            index == self.limit(),
    {
        block_sentinel(self.block_index_width)
    }

    /// The section of the store.
    pub fn build_l2_section(&self) -> (bytes: Vec<u8>)
        ensures
            bytes@ == l2_section(self.shift(), self.width()),
    {
        let mut bytes: Vec<u8> = Vec::new();
        push_le(&mut bytes, 11, 2);
        let mut letters: Vec<u8> = l2_letters();
        bytes.append(&mut letters);
        bytes.push(0);
        bytes.push(self.block_size_shift);
        bytes.push(self.block_index_width);
        proof {
            assert(bytes@ =~= l2_section(self.shift(), self.width()));
        }
        bytes
    }

    /// The size of a block in bytes.
    pub fn block_size(&self) -> (size: usize)
        requires
            self.shift() < usize::BITS,
        ensures
            size == pow2(self.shift() as nat),
    {
        let shift: usize = self.block_size_shift as usize;
        proof {
            vstd::bits::lemma_usize_pow2_no_overflow(shift as nat);
            vstd::bits::lemma_usize_shl_is_mul(1, shift);
        }
        1usize << shift
    }

    pub fn block_size_shift(&self) -> (shift: u8)
        ensures
            shift == self.shift(),
    {
        self.block_size_shift
    }

    pub fn block_index_width(&self) -> (width: u8)
        ensures
            width == self.width(),
    {
        self.block_index_width
    }

    /// The number of the block to make: its file is to be filled with zeros.
    /// Where no number is left, there is none.
    pub fn allocate_block(&self) -> (r: Result<u64, SfsError>)
        ensures
            r is Ok <==> self.next() < self.limit(),
            r matches Ok(id) ==> id == self.next(),
            r matches Err(e) ==> e is IoError,
    {
        if self.next_block_id >= self.sentinel() {
            return Err(
                SfsError::IoError(
                    text_num(
                        text_num(
                            text_num(
                                "block index overflow: next block ",
                                self.next_block_id,
                                " >= sentinel ",
                            ).as_str(),
                            self.sentinel(),
                            " for block_index_width=",
                        ).as_str(),
                        self.block_index_width as u64,
                        "",
                    ),
                ),
            );
        }
        Ok(self.next_block_id)
    }

    /// The block to make was made. Its number is not given out again. The result
    /// is what the meta file is to hold.
    pub fn block_created(&mut self) -> (meta: Vec<u8>)
        requires
            old(self).next() < u64::MAX,
        ensures
            final(self).next() == old(self).next() + 1,
            final(self).shift() == old(self).shift(),
            final(self).width() == old(self).width(),
            meta@ == le_bytes(final(self).next() as nat, 8),
    {
        self.next_block_id = self.next_block_id + 1;
        self.meta()
    }

    /// Whether block `index` can be given back: its file must be there.
    pub fn deallocate_block(&self, index: u64, exists: bool) -> (r: Result<(), SfsError>)
        ensures
            r is Ok <==> exists,
            r matches Err(e) ==> e is NotFound,
    {
        if !exists {
            return Err(SfsError::NotFound(text_num("block ", index, "")));
        }
        Ok(())
    }

    /// Whether `len` bytes at `offset` of block `index` can be asked for.
    pub fn read_block(&self, index: u64, offset: usize, len: usize) -> (r: Result<(), SfsError>)
        requires
            self.shift() < usize::BITS,
        ensures
            r is Ok <==> index < self.limit() && offset + len <= pow2(
                self.shift() as nat,
            ),
            r matches Err(e) ==> e is IoError,
    {
        if index >= self.sentinel() {
            return Err(
                SfsError::IoError(
                    text_num(
                        text_num(
                            text_num("read_block: block index ", index, " is >= sentinel ").as_str(),
                            self.sentinel(),
                            " (block_index_width=",
                        ).as_str(),
                        self.block_index_width as u64,
                        ")",
                    ),
                ),
            );
        }
        let size: usize = self.block_size();
        if offset > size || len > size - offset {
            return Err(
                SfsError::IoError(beyond_block("read_block: offset ", offset, len, size)),
            );
        }
        Ok(())
    }

    /// Whether `len` bytes can be written at `offset` of a block.
    pub fn write_block(&self, offset: usize, len: usize) -> (r: Result<(), SfsError>)
        requires
            self.shift() < usize::BITS,
        ensures
            r is Ok <==> offset + len <= pow2(self.shift() as nat),
            r matches Err(e) ==> e is IoError,
    {
        let size: usize = self.block_size();
        if offset > size || len > size - offset {
            return Err(
                SfsError::IoError(beyond_block("write_block: offset ", offset, len, size)),
            );
        }
        Ok(())
    }

    /// What the header file is to hold.
    pub fn store_header(&self, upper_layers: &[u8]) -> (bytes: Vec<u8>)
        ensures
            bytes@ == stored_header(self.shift(), self.width(), upper_layers@),
    {
        let mut bytes: Vec<u8> = magic_letters();
        bytes.push(0);
        let mut section: Vec<u8> = self.build_l2_section();
        bytes.append(&mut section);
        bytes.extend_from_slice(upper_layers);
        proof {
            assert(bytes@ =~= stored_header(self.shift(), self.width(), upper_layers@));
        }
        bytes
    }

    /// What the header file holds for the layers above.
    pub fn load_header(&self, data: &[u8]) -> (r: Result<Vec<u8>, SfsError>)
        ensures
            r is Ok <==> whole_section(data@),
            r matches Ok(upper) ==> upper@ == data@.skip(10 + short_at(data@, 10) as int),
            r matches Err(e) ==> e is IoError,
    {
        if !has_magic(data) {
            return Err(SfsError::IoError("invalid SFS header magic".to_owned()));
        }
        if data.len() < 12 {
            return Err(SfsError::IoError("header too short for L2 section".to_owned()));
        }
        proof {
            lemma_pow256_values();
        }
        let l2_len: usize = get_le(data, 10, 2) as usize;
        if data.len() < 10 + l2_len {
            return Err(SfsError::IoError("header too short for L2 data".to_owned()));
        }
        Ok(copy_range(data, 10 + l2_len, data.len()))
    }
}

fn l2_letters() -> (letters: Vec<u8>)
    ensures
        letters@ == l2_identifier(),
{
    let letters: Vec<u8> = vec![98u8, 108u8, 107u8, 102u8, 105u8, 108u8];
    proof {
        assert(letters@ =~= l2_identifier());
    }
    letters
}

fn has_magic(data: &[u8]) -> (yes: bool)
    ensures
        yes == starts_header(data@),
{
    if data.len() < 10 {
        return false;
    }
    let magic: Vec<u8> = magic_letters();
    let found: Vec<u8> = copy_range(data, 0, 9);
    same_bytes(found.as_slice(), magic.as_slice()) && data[9] == 0
}

/// The number of the block that is made next, as the meta file tells it.
fn read_meta(bytes: &[u8]) -> (r: Result<u64, SfsError>)
    ensures
        r is Ok <==> bytes@.len() >= 8,
        r matches Ok(next) ==> next == le_value(bytes@.subrange(0, 8)),
        r matches Err(e) ==> e is IoError,
{
    if bytes.len() < 8 {
        return Err(SfsError::IoError("meta file too short".to_owned()));
    }
    Ok(get_le(bytes, 0, 8))
}

} // verus!
