//! Compression of single blocks, by the `lz4_flex` crate.

use crate::bytes::le_value;
use vstd::prelude::*;

verus! {

/// The error of the `lz4_flex` crate for bytes that are no packed data.
#[verifier::external_type_specification]
#[verifier::external_body]
pub struct ExDecompressError(lz4_flex::block::DecompressError);

/// What `lz4_flex::decompress_size_prepended` makes of `packed`: the unpacked
/// bytes, or nothing where it reports an error.
pub uninterp spec fn lz4_unpacked(packed: Seq<u8>) -> Option<Seq<u8>>;

/// The length that packed bytes begin with.
pub open spec fn told_length(packed: Seq<u8>) -> nat {
    le_value(packed.subrange(0, 4))
}

/// The packed bytes unpack to `data`, and begin with its length.
pub open spec fn unpacks_to(packed: Seq<u8>, data: Seq<u8>) -> bool {
    &&& packed.len() >= 4
    &&& told_length(packed) == data.len()
    &&& lz4_unpacked(packed) == Some(data)
}

/// The most bytes that `len` bytes are packed to: what
/// `lz4_flex::block::get_maximum_output_size` gives, and four bytes for the length.
pub open spec fn packed_bound(len: nat) -> nat {
    24 + len * 110 / 100
}

/// Packs bytes with `lz4_flex::compress_prepend_size`. The outcome begins with
/// the length of the bytes that were packed, in four bytes, it unpacks to those
/// bytes, and it is no longer than the buffer that the crate makes for it. What
/// stands behind the length is left open: it depends on the machine.
#[verifier::external_body]
pub(crate) fn lz4_pack(data: &[u8]) -> (packed: Vec<u8>)
    requires
        data@.len() <= 0x4000_0000,
    ensures
        unpacks_to(packed@, data@),
        packed@.len() <= packed_bound(data@.len()),
{
    lz4_flex::compress_prepend_size(data)
}

/// Unpacks bytes with `lz4_flex::decompress_size_prepended`, whose outcome
/// depends on the packed bytes alone. It takes as much memory as the length tells
/// that they begin with.
#[verifier::external_body]
pub(crate) fn lz4_unpack(packed: &[u8]) -> (r: Result<Vec<u8>, lz4_flex::block::DecompressError>)
    requires
        packed@.len() >= 4 ==> told_length(packed@) <= 0x4000_0000,
    ensures
        r is Ok <==> lz4_unpacked(packed@) is Some,
        r matches Ok(data) ==> lz4_unpacked(packed@) == Some(data@),
{
    lz4_flex::decompress_size_prepended(packed)
}

} // verus!
