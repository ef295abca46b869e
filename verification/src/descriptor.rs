//! Stream descriptors: the fixed-size records that say where a stream lies.

use crate::bytes::{
    get_le, law_le_round_trip, le_bytes, le_value, lemma_le_bytes_len, lemma_pow256_values, push_le,
};
use vstd::prelude::*;

verus! {

/// A descriptor with this top block is free.
pub const FREE_DESCRIPTOR_MARKER: u64 = 0xFFFF_FFFF_FFFF_FFFF;

/// The size of a descriptor in bytes.
pub const DESCRIPTOR_SIZE: u64 = 25;

/// Flag bit: the stream is compressed.
pub const STREAM_FLAG_COMPRESSED: u8 = 1;

/// Where a stream lies and how long it is.
#[derive(Debug, Clone, Copy, PartialEq, Eq, Structural)]
pub struct StreamDescriptor {
    pub size: u64,
    pub top_block: u64,
    /// The allocated capacity in bytes, never less than `size`.
    pub reserved: u64,
    pub flags: u8,
}

impl StreamDescriptor {
    /// The bytes of a descriptor.
    pub open spec fn encoding(self) -> Seq<u8> {
        le_bytes(self.size as nat, 8) + le_bytes(self.top_block as nat, 8) + le_bytes(
            self.reserved as nat,
            8,
        ) + seq![self.flags]
    }

    /// The descriptor that stands in 25 bytes.
    pub open spec fn decoding(data: Seq<u8>) -> StreamDescriptor {
        StreamDescriptor {
            size: le_value(data.subrange(0, 8)) as u64,
            top_block: le_value(data.subrange(8, 16)) as u64,
            reserved: le_value(data.subrange(16, 24)) as u64,
            flags: data[24],
        }
    }

    /// The descriptor belongs to no stream.
    pub open spec fn free(self) -> bool {
        self.top_block == FREE_DESCRIPTOR_MARKER
    }

    /// The stream is compressed.
    pub open spec fn compressed(self) -> bool {
        self.flags % 2 == 1
    }

    /// The descriptor of an empty stream.
    pub open spec fn empty(flags: u8) -> StreamDescriptor {
        StreamDescriptor { size: 0, top_block: 0, reserved: 0, flags }
    }

    pub fn is_free(&self) -> (free: bool)
        ensures
            free == self.free(),
    {
        self.top_block == FREE_DESCRIPTOR_MARKER
    }

    pub fn is_compressed(&self) -> (compressed: bool)
        ensures
            compressed == self.compressed(),
    {
        let flags: u8 = self.flags;
        assert((flags & 1u8 != 0) == (flags % 2 == 1)) by (bit_vector);
        flags & STREAM_FLAG_COMPRESSED != 0
    }

    pub fn to_bytes(&self) -> (buf: Vec<u8>)
        ensures
            buf@ == self.encoding(),
            buf@.len() == DESCRIPTOR_SIZE,
    {
        let mut buf: Vec<u8> = Vec::new();
        push_le(&mut buf, self.size, 8);
        push_le(&mut buf, self.top_block, 8);
        push_le(&mut buf, self.reserved, 8);
        buf.push(self.flags);
        proof {
            lemma_le_bytes_len(self.size as nat, 8);
            lemma_le_bytes_len(self.top_block as nat, 8);
            lemma_le_bytes_len(self.reserved as nat, 8);
            assert(buf@ =~= self.encoding());
        }
        buf
    }

    pub fn from_bytes(data: &[u8]) -> (descriptor: StreamDescriptor)
        requires
            data@.len() == DESCRIPTOR_SIZE,
        ensures
            descriptor == StreamDescriptor::decoding(data@),
    {
        StreamDescriptor {
            size: get_le(data, 0, 8),
            top_block: get_le(data, 8, 8),
            reserved: get_le(data, 16, 8),
            flags: data[24],
        }
    }
}

/// A descriptor read back from its own bytes is the same descriptor.
pub proof fn law_descriptor_round_trip(d: StreamDescriptor)
    ensures
        d.encoding().len() == DESCRIPTOR_SIZE,
        StreamDescriptor::decoding(d.encoding()) == d,
{
    lemma_pow256_values();
    lemma_le_bytes_len(d.size as nat, 8);
    lemma_le_bytes_len(d.top_block as nat, 8);
    lemma_le_bytes_len(d.reserved as nat, 8);
    law_le_round_trip(d.size as nat, 8);
    law_le_round_trip(d.top_block as nat, 8);
    law_le_round_trip(d.reserved as nat, 8);
    let e = d.encoding();
    assert(e.subrange(0, 8) =~= le_bytes(d.size as nat, 8));
    assert(e.subrange(8, 16) =~= le_bytes(d.top_block as nat, 8));
    assert(e.subrange(16, 24) =~= le_bytes(d.reserved as nat, 8));
}

} // verus!
