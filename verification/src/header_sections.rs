//! The header of a file whose layers keep their own sections in it: letters, a
//! version and the length of the whole header, the section of the file layer,
//! then one section for each layer above. A section begins with its length, which
//! counts the two bytes of the length too.

use crate::block_layer::zero_bytes;
use crate::bytes::{
    copy_range, get_le, law_le_round_trip, le_bytes, le_value, lemma_le_bytes_len,
    lemma_pow256_values, push_le, same_bytes, zeros,
};
use crate::types::{text_num, HeaderSlotId, SfsError};
use vstd::prelude::*;

verus! {

/// The version of the layout of the header.
pub const SECTIONS_VERSION: u8 = 0;

/// The size of what stands before the sections: nine letters, the version and
/// the length of the header.
pub const PREFIX_SIZE: usize = 12;

/// The smallest size of the section of the file layer: its length, six letters
/// and its version.
pub const L1_SECTION_SIZE: usize = 9;

/// The version of the section of the file layer.
pub const L1_VERSION: u8 = 0;

/// No byte behind these matters for a header.
pub const HEADER_REACH: usize = 65547;

/// Where a section stands, and how many bytes it holds behind its length.
#[derive(Debug, Clone, Copy, PartialEq, Eq, Structural)]
pub struct SlotInfo {
    pub offset: u64,
    pub payload_len: u16,
}

/// What a header tells: where the data begins, and the sections of the layers
/// above.
#[derive(Debug)]
pub struct HeaderSections {
    data_offset: u64,
    slots: Vec<SlotInfo>,
}

/// A header as a value.
pub ghost struct HeaderView {
    pub data_offset: nat,
    pub slots: Seq<SlotInfo>,
}

/// The letters that the file starts with: "stream_fs".
pub open spec fn sections_magic() -> Seq<u8> {
    seq![115u8, 116u8, 114u8, 101u8, 97u8, 109u8, 95u8, 102u8, 115u8]
}

/// The letters of the section of the file layer: "ondisk".
pub open spec fn l1_identifier() -> Seq<u8> {
    seq![111u8, 110u8, 100u8, 105u8, 115u8, 107u8]
}

/// The two bytes at `at` as a number.
pub open spec fn short_at(bytes: Seq<u8>, at: int) -> nat {
    le_value(bytes.subrange(at, at + 2))
}

/// The sections from `at` up to `end`, or nothing where one is cut off or too
/// short to hold its own length.
pub open spec fn sections(bytes: Seq<u8>, at: int, end: int) -> Option<Seq<SlotInfo>>
    decreases
            if at < end {
                end - at
            } else {
                0
            },
{
    if at >= end {
        Some(Seq::empty())
    } else if at + 2 > bytes.len() {
        None
    } else if short_at(bytes, at) < 2 {
        None
    } else {
        let len = short_at(bytes, at);
        match sections(bytes, at + len, end) {
            Some(rest) => Some(
                seq![SlotInfo { offset: at as u64, payload_len: (len - 2) as u16 }] + rest,
            ),
            None => None,
        }
    }
}

/// The header at the start of a file, if there is one.
pub open spec fn parsed_header(bytes: Seq<u8>) -> Option<HeaderView> {
    if bytes.len() < PREFIX_SIZE + 2 {
        None
    } else if bytes.subrange(0, 9) != sections_magic() || bytes[9] != SECTIONS_VERSION {
        None
    } else {
        let end = short_at(bytes, 10);
        let l1 = short_at(bytes, 12);
        if l1 < L1_SECTION_SIZE || bytes.len() < PREFIX_SIZE + l1 {
            None
        } else if bytes.subrange(14, 20) != l1_identifier() || bytes[20] != L1_VERSION {
            None
        } else {
            match sections(bytes, PREFIX_SIZE + l1, end as int) {
                Some(slots) => Some(HeaderView { data_offset: end, slots }),
                None => None,
            }
        }
    }
}

/// The bytes that sections for payloads of these sizes take.
pub open spec fn sections_size(sizes: Seq<u16>) -> nat
    decreases sizes.len(),
{
    if sizes.len() == 0 {
        0
    } else {
        2 + sizes[0] as nat + sections_size(sizes.skip(1))
    }
}

/// Sections for payloads of these sizes, with zeros in them.
pub open spec fn blank_sections(sizes: Seq<u16>) -> Seq<u8>
    decreases sizes.len(),
{
    if sizes.len() == 0 {
        Seq::empty()
    } else {
        le_bytes(sizes[0] as nat + 2, 2) + zero_bytes(sizes[0] as nat) + blank_sections(
            sizes.skip(1),
        )
    }
}

/// Where sections for payloads of these sizes stand when the first is at `at`.
pub open spec fn placed(sizes: Seq<u16>, at: int) -> Seq<SlotInfo>
    decreases sizes.len(),
{
    if sizes.len() == 0 {
        Seq::empty()
    } else {
        seq![SlotInfo { offset: at as u64, payload_len: sizes[0] }] + placed(
            sizes.skip(1),
            at + 2 + sizes[0],
        )
    }
}

/// The size of a header with sections for payloads of these sizes.
pub open spec fn header_size(sizes: Seq<u16>) -> nat {
    (PREFIX_SIZE + L1_SECTION_SIZE) as nat + sections_size(sizes)
}

/// What stands before the sections. Two bytes hold the length, so a longer one
/// loses what they cannot hold.
pub open spec fn prefix_bytes(header_len: nat) -> Seq<u8> {
    sections_magic() + seq![SECTIONS_VERSION] + le_bytes(header_len, 2)
}

/// The section of the file layer.
pub open spec fn l1_section() -> Seq<u8> {
    le_bytes(L1_SECTION_SIZE as nat, 2) + l1_identifier() + seq![L1_VERSION]
}

/// The bytes of a new header.
pub open spec fn new_header(sizes: Seq<u16>) -> Seq<u8> {
    prefix_bytes(header_size(sizes)) + l1_section() + blank_sections(sizes)
}

/// The sections end within reach of the offsets, and their lengths fit.
pub open spec fn all_fit(slots: Seq<SlotInfo>) -> bool {
    forall|i: int|
        0 <= i < slots.len() ==> (#[trigger] slots[i]).payload_len <= 65533 && slots[i].offset
            + slots[i].payload_len + 2 <= u64::MAX
}

/// Every payload leaves room for the length of its section.
pub open spec fn sizes_fit(sizes: Seq<u16>) -> bool {
    forall|i: int| 0 <= i < sizes.len() ==> #[trigger] sizes[i] <= 65533
}

proof fn lemma_short(bytes: Seq<u8>, at: int)
    requires
        0 <= at,
        at + 2 <= bytes.len(),
    ensures
        short_at(bytes, at) <= 65535,
{
    crate::bytes::law_le_bytes_of_value(bytes.subrange(at, at + 2));
    lemma_pow256_values();
}

/// What stands behind the reach of a header does not change what the header
/// tells.
pub proof fn law_header_reach(bytes: Seq<u8>)
    requires
        bytes.len() > HEADER_REACH,
    ensures
        parsed_header(bytes) == parsed_header(bytes.take(HEADER_REACH as int)),
{
    let start = bytes.take(HEADER_REACH as int);
    assert(start.subrange(0, 9) =~= bytes.subrange(0, 9));
    assert(start.subrange(10, 12) =~= bytes.subrange(10, 12));
    assert(start.subrange(12, 14) =~= bytes.subrange(12, 14));
    assert(start.subrange(14, 20) =~= bytes.subrange(14, 20));
    lemma_short(bytes, 10);
    lemma_short(bytes, 12);
    lemma_sections_reach(
        bytes,
        PREFIX_SIZE + short_at(bytes, 12),
        short_at(bytes, 10) as int,
    );
}

proof fn lemma_sections_reach(bytes: Seq<u8>, at: int, end: int)
    requires
        bytes.len() > HEADER_REACH,
        0 <= at,
        end <= 65535,
    ensures
        sections(bytes, at, end) == sections(bytes.take(HEADER_REACH as int), at, end),
    decreases
            if at < end {
                end - at
            } else {
                0
            },
{
    let start = bytes.take(HEADER_REACH as int);
    if at < end {
        assert(start.subrange(at, at + 2) =~= bytes.subrange(at, at + 2));
        if short_at(bytes, at) >= 2 {
            lemma_sections_reach(bytes, at + short_at(bytes, at), end);
        }
    }
}

/// The header that was made for some sizes reads back as having sections of
/// these sizes, one behind the other, where two bytes hold its length.
pub proof fn law_header_round_trip(sizes: Seq<u16>, data: Seq<u8>)
    requires
        header_size(sizes) <= 65535,
    ensures
        parsed_header(new_header(sizes) + data) == Some(
            HeaderView {
                data_offset: header_size(sizes),
                slots: placed(sizes, PREFIX_SIZE + L1_SECTION_SIZE),
            },
        ),
{
    let len = header_size(sizes);
    let bytes = new_header(sizes) + data;
    lemma_le_bytes_len(len, 2);
    lemma_le_bytes_len(9, 2);
    lemma_blank_len(sizes);
    lemma_pow256_values();
    law_le_round_trip(len, 2);
    law_le_round_trip(9, 2);
    assert(bytes.subrange(0, 9) =~= sections_magic());
    assert(bytes.subrange(10, 12) =~= le_bytes(len, 2));
    assert(bytes.subrange(12, 14) =~= le_bytes(9, 2));
    assert(bytes.subrange(14, 20) =~= l1_identifier());
    assert(bytes.subrange(21, bytes.len() as int) =~= blank_sections(sizes) + data);
    lemma_blank_read(bytes, 21, sizes, data);
}

proof fn lemma_blank_len(sizes: Seq<u16>)
    ensures
        blank_sections(sizes).len() == sections_size(sizes),
    decreases sizes.len(),
{
    if sizes.len() > 0 {
        lemma_le_bytes_len(sizes[0] as nat + 2, 2);
        lemma_blank_len(sizes.skip(1));
    }
}

/// A new header is as long as it tells.
pub proof fn lemma_new_header_len(sizes: Seq<u16>)
    ensures
        new_header(sizes).len() == header_size(sizes),
{
    lemma_le_bytes_len(header_size(sizes), 2);
    lemma_le_bytes_len(L1_SECTION_SIZE as nat, 2);
    lemma_blank_len(sizes);
}

proof fn lemma_blank_read(bytes: Seq<u8>, at: int, sizes: Seq<u16>, data: Seq<u8>)
    requires
        0 <= at <= bytes.len(),
        bytes.subrange(at, bytes.len() as int) == blank_sections(sizes) + data,
        sections_size(sizes) <= 65535,
    ensures
        sections(bytes, at, at + sections_size(sizes)) == Some(placed(sizes, at)),
    decreases sizes.len(),
{
    if sizes.len() > 0 {
        let n = sizes[0] as nat;
        let rest = bytes.subrange(at, bytes.len() as int);
        let next = at + 2 + n;
        lemma_le_bytes_len(n + 2, 2);
        lemma_blank_len(sizes);
        lemma_blank_len(sizes.skip(1));
        assert(rest.len() == sections_size(sizes) + data.len());
        lemma_pow256_values();
        law_le_round_trip(n + 2, 2);
        assert(bytes.subrange(at, at + 2) =~= rest.subrange(0, 2));
        assert(rest.subrange(0, 2) =~= le_bytes(n + 2, 2));
        assert(bytes.subrange(next, bytes.len() as int) =~= rest.subrange(
            2 + n as int,
            rest.len() as int,
        ));
        assert(rest.subrange(2 + n as int, rest.len() as int) =~= blank_sections(sizes.skip(1))
            + data);
        lemma_blank_read(bytes, next, sizes.skip(1), data);
    }
}

pub(crate) fn magic_letters() -> (letters: Vec<u8>)
    ensures
        letters@ == sections_magic(),
{
    let letters: Vec<u8> = vec![115u8, 116u8, 114u8, 101u8, 97u8, 109u8, 95u8, 102u8, 115u8];
    proof {
        assert(letters@ =~= sections_magic());
    }
    letters
}

fn l1_letters() -> (letters: Vec<u8>)
    ensures
        letters@ == l1_identifier(),
{
    let letters: Vec<u8> = vec![111u8, 110u8, 100u8, 105u8, 115u8, 107u8];
    proof {
        assert(letters@ =~= l1_identifier());
    }
    letters
}

impl View for HeaderSections {
    type V = HeaderView;

    closed spec fn view(&self) -> HeaderView {
        HeaderView { data_offset: self.data_offset as nat, slots: self.slots@ }
    }
}

impl HeaderSections {
    pub open spec fn wf(&self) -> bool {
        all_fit(self@.slots)
    }

    /// Reads the header at the start of a file.
    pub fn parse_header(bytes: &[u8]) -> (r: Result<HeaderSections, SfsError>)
        ensures
            match r {
                Ok(header) => header.wf() && parsed_header(bytes@) == Some(header@),
                Err(e) => parsed_header(bytes@) is None && e is IoError,
            },
    {
        if bytes.len() < 12 {
            return Err(SfsError::IoError("failed to read SFS header magic".to_owned()));
        }
        let magic: Vec<u8> = magic_letters();
        let found: Vec<u8> = copy_range(bytes, 0, 9);
        if !same_bytes(found.as_slice(), magic.as_slice()) {
            return Err(SfsError::IoError("not an SFS file (bad magic)".to_owned()));
        }
        if bytes[9] != SECTIONS_VERSION {
            return Err(
                SfsError::IoError(
                    text_num("unsupported header format version: ", bytes[9] as u64, ""),
                ),
            );
        }
        if bytes.len() < 14 {
            return Err(SfsError::IoError("failed to read L1 section length".to_owned()));
        }
        proof {
            lemma_short(bytes@, 10);
            lemma_short(bytes@, 12);
        }
        let data_offset: u64 = get_le(bytes, 10, 2);
        let l1_len: usize = get_le(bytes, 12, 2) as usize;
        if l1_len < L1_SECTION_SIZE {
            return Err(
                SfsError::IoError(
                    text_num(
                        text_num("L1 section too short: ", l1_len as u64, " < ").as_str(),
                        L1_SECTION_SIZE as u64,
                        "",
                    ),
                ),
            );
        }
        if bytes.len() < PREFIX_SIZE + l1_len {
            return Err(SfsError::IoError("failed to read L1 section body".to_owned()));
        }
        let letters: Vec<u8> = l1_letters();
        let l1_found: Vec<u8> = copy_range(bytes, 14, 20);
        if !same_bytes(l1_found.as_slice(), letters.as_slice()) {
            return Err(SfsError::IoError("expected L1 identifier 'ondisk'".to_owned()));
        }
        if bytes[20] != L1_VERSION {
            return Err(
                SfsError::IoError(text_num("unsupported L1 version: ", bytes[20] as u64, "")),
            );
        }
        let mut slots: Vec<SlotInfo> = Vec::new();
        let mut at: u64 = (PREFIX_SIZE + l1_len) as u64;
        let ghost all = sections(bytes@, PREFIX_SIZE + l1_len, data_offset as int);
        proof {
            let rest = sections(bytes@, at as int, data_offset as int);
            if rest is Some {
                assert(slots@ + rest->Some_0 =~= rest->Some_0);
            }
        }
        while at < data_offset
            invariant
                data_offset <= 65535,
                at <= 200000,
                bytes@.len() >= PREFIX_SIZE,
                parsed_header(bytes@) is None <==> all is None,
                all is None <==> sections(bytes@, at as int, data_offset as int) is None,
                all matches Some(a) ==> a == slots@ + sections(
                    bytes@,
                    at as int,
                    data_offset as int,
                )->Some_0,
                all_fit(slots@),
            decreases
                    if at < data_offset {
                        data_offset - at
                    } else {
                        0
                    },
        {
            if bytes.len() < at as usize + 2 {
                return Err(
                    SfsError::IoError(
                        text_num("failed to read section length at offset ", at, ""),
                    ),
                );
            }
            proof {
                lemma_short(bytes@, at as int);
            }
            let section_len: u64 = get_le(bytes, at as usize, 2);
            if section_len < 2 {
                return Err(
                    SfsError::IoError(
                        text_num(
                            text_num("invalid section length ", section_len, " at offset ").as_str(),
                            at,
                            "",
                        ),
                    ),
                );
            }
            let slot = SlotInfo { offset: at, payload_len: (section_len - 2) as u16 };
            let ghost before = slots@;
            let ghost rest = sections(bytes@, at + section_len, data_offset as int);
            slots.push(slot);
            proof {
                if rest is Some {
                    assert(before + (seq![slot] + rest->Some_0) =~= slots@ + rest->Some_0);
                }
            }
            at = at + section_len;
        }
        proof {
            assert(slots@ + Seq::<SlotInfo>::empty() =~= slots@);
        }
        Ok(HeaderSections { data_offset, slots })
    }

    /// A new header with sections for payloads of these sizes, and its bytes.
    pub fn create(slot_sizes: &[u16]) -> (r: (HeaderSections, Vec<u8>))
        requires
            sizes_fit(slot_sizes@),
            header_size(slot_sizes@) <= usize::MAX,
        ensures
            r.0@ == (HeaderView {
                data_offset: header_size(slot_sizes@),
                slots: placed(slot_sizes@, PREFIX_SIZE + L1_SECTION_SIZE),
            }),
            r.1@ == new_header(slot_sizes@),
            r.0.wf(),
    {
        let mut slots: Vec<SlotInfo> = Vec::new();
        let mut blank: Vec<u8> = Vec::new();
        let n: usize = slot_sizes.len();
        let mut at: u64 = 21;
        let mut i: usize = 0;
        let ghost sizes = slot_sizes@;
        proof {
            assert(sizes.skip(0) =~= sizes);
            assert(blank@ + blank_sections(sizes) =~= blank_sections(sizes));
            assert(slots@ + placed(sizes, 21) =~= placed(sizes, 21));
        }
        while i < n
            invariant
                i <= n == slot_sizes@.len(),
                sizes == slot_sizes@,
                sizes_fit(sizes),
                header_size(sizes) <= usize::MAX,
                at + sections_size(sizes.skip(i as int)) == header_size(sizes),
                blank@ + blank_sections(sizes.skip(i as int)) == blank_sections(sizes),
                slots@ + placed(sizes.skip(i as int), at as int) == placed(sizes, 21),
                all_fit(slots@),
            decreases n - i,
        {
            let payload_len: u16 = slot_sizes[i];
            let slot = SlotInfo { offset: at, payload_len };
            let ghost left = sizes.skip(i as int);
            let ghost blank0 = blank@;
            let ghost slots0 = slots@;
            proof {
                assert(left[0] == payload_len);
                assert(left.skip(1) =~= sizes.skip(i + 1));
            }
            slots.push(slot);
            push_le(&mut blank, payload_len as u64 + 2, 2);
            let mut nothing: Vec<u8> = zeros(payload_len as usize);
            blank.append(&mut nothing);
            proof {
                assert(zero_bytes(payload_len as nat) =~= Seq::new(
                    payload_len as nat,
                    |i: int| 0u8,
                ));
                assert(blank@ + blank_sections(left.skip(1)) =~= blank0 + blank_sections(left));
                assert(slots@ + placed(left.skip(1), at + 2 + payload_len) =~= slots0 + placed(
                    left,
                    at as int,
                ));
            }
            at = at + (payload_len as u64 + 2);
            i = i + 1;
        }
        let mut bytes: Vec<u8> = magic_letters();
        bytes.push(SECTIONS_VERSION);
        push_le(&mut bytes, at, 2);
        push_le(&mut bytes, L1_SECTION_SIZE as u64, 2);
        let mut letters: Vec<u8> = l1_letters();
        bytes.append(&mut letters);
        bytes.push(L1_VERSION);
        bytes.append(&mut blank);
        proof {
            assert(slots@ + placed(sizes.skip(n as int), at as int) =~= slots@);
            assert(bytes@ =~= new_header(sizes));
        }
        (HeaderSections { data_offset: at, slots }, bytes)
    }

    /// Where the data begins.
    pub fn data_offset(&self) -> (offset: u64)
        ensures
            offset == self@.data_offset,
    {
        self.data_offset
    }

    /// The slot of a layer above.
    pub fn header_slot_for_upper(&self, index: u8) -> (slot: HeaderSlotId)
        ensures
            slot.pos() == index,
    {
        HeaderSlotId::new(index)
    }

    /// What to write, and where, to put `data` into a slot.
    pub fn write_header_slot(&self, slot: HeaderSlotId, data: &[u8]) -> (r: Result<
        (u64, Vec<u8>),
        SfsError,
    >)
        requires
            self.wf(),
        ensures
            r is Ok <==> slot.pos() < self@.slots.len() && data@.len()
                == self@.slots[slot.pos() as int].payload_len,
            r matches Ok(out) ==> out.0 == self@.slots[slot.pos() as int].offset && out.1@
                == le_bytes(data@.len() + 2, 2) + data@,
            r matches Err(e) ==> e is IoError,
    {
        let idx: usize = slot.index() as usize;
        if idx >= self.slots.len() {
            return Err(
                SfsError::IoError(
                    text_num(
                        text_num("header slot index ", idx as u64, " out of range (have ").as_str(),
                        self.slots.len() as u64,
                        " slots)",
                    ),
                ),
            );
        }
        let info: SlotInfo = self.slots[idx];
        if data.len() != info.payload_len as usize {
            return Err(
                SfsError::IoError(
                    text_num(
                        text_num(
                            text_num("header slot ", idx as u64, ": expected ").as_str(),
                            info.payload_len as u64,
                            " bytes, got ",
                        ).as_str(),
                        data.len() as u64,
                        "",
                    ),
                ),
            );
        }
        let mut buf: Vec<u8> = Vec::new();
        push_le(&mut buf, info.payload_len as u64 + 2, 2);
        buf.extend_from_slice(data);
        proof {
            assert(buf@ =~= le_bytes(data@.len() + 2, 2) + data@);
        }
        Ok((info.offset, buf))
    }

    /// Where the payload of a slot stands, and how long it is.
    pub fn read_header_slot(&self, slot: HeaderSlotId) -> (r: Result<(u64, usize), SfsError>)
        requires
            self.wf(),
        ensures
            r is Ok <==> slot.pos() < self@.slots.len(),
            r matches Ok(place) ==> place.0 == self@.slots[slot.pos() as int].offset + 2
                && place.1 == self@.slots[slot.pos() as int].payload_len,
            r matches Err(e) ==> e is IoError,
    {
        let idx: usize = slot.index() as usize;
        if idx >= self.slots.len() {
            return Err(
                SfsError::IoError(
                    text_num(
                        text_num("header slot index ", idx as u64, " out of range (have ").as_str(),
                        self.slots.len() as u64,
                        " slots)",
                    ),
                ),
            );
        }
        let info: SlotInfo = self.slots[idx];
        Ok((info.offset + 2, info.payload_len as usize))
    }

    /// Checks the start of a file of `file_len` bytes against the header: one
    /// issue each for a file that ends within its header, other letters, another
    /// version and another length. `prefix` is what stands before the sections.
    pub fn verify(&self, file_len: u64, prefix: &[u8]) -> (issues: Vec<String>)
        requires
            prefix@.len() == PREFIX_SIZE,
        ensures
            issues@.len() == (if file_len < self@.data_offset { 1int } else { 0 }) + (if prefix@.subrange(
                0,
                9,
            ) != sections_magic() { 1int } else { 0 }) + (if prefix@[9] != SECTIONS_VERSION { 1int } else {
                0
            }) + (if short_at(prefix@, 10) != self@.data_offset { 1int } else { 0 }),
    {
        let mut issues: Vec<String> = Vec::new();
        if file_len < self.data_offset {
            issues.push(text_num("L1: file size is less than data_offset: ", file_len, ""));
        }
        let magic: Vec<u8> = magic_letters();
        let found: Vec<u8> = copy_range(prefix, 0, 9);
        if !same_bytes(found.as_slice(), magic.as_slice()) {
            issues.push("L1: file magic 'stream_fs' is corrupted".to_owned());
        }
        if prefix[9] != SECTIONS_VERSION {
            issues.push(text_num("L1: unexpected header format version ", prefix[9] as u64, ""));
        }
        let stored: u64 = get_le(prefix, 10, 2);
        if stored != self.data_offset {
            issues.push(
                text_num("L1: total_header_length does not match data_offset: ", stored, ""),
            );
        }
        issues
    }
}

} // verus!
