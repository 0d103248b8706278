//! The fixed segment header stored at offset 0 of each segment file.

use vstd::prelude::*;

use crate::codec::read_range;
use crate::error::WalError;
use crate::frame::{LOG_HEADER_SIZE, MAX_SEGMENT_FRAMES};

verus! {

/// The segment header: 36 bytes, all fields little-endian.
///
/// `index_offset == 0` means the segment is unsealed: its index has not
/// been written and, if the segment has content, must be rebuilt by
/// scanning the frames.
#[derive(Clone, Copy, Debug, PartialEq, Eq, Structural)]
pub struct LogHeader {
    /// First frame number this segment may own; never zero.
    pub start_frame_no: u64,
    /// Last committed frame number; zero while the segment is empty.
    pub last_committed_frame_no: u64,
    /// Database size in pages as of the last commit.
    pub db_size: u32,
    /// Byte offset of the index blob; zero while unsealed.
    pub index_offset: u64,
    /// Byte size of the index blob.
    pub index_size: u64,
}

impl LogHeader {
    /// Well-formedness of the header fields: the start frame number is
    /// positive, a nonempty segment's frame range is ordered and bounded,
    /// and the frame numbers leave room to advance.
    pub open spec fn wf(self) -> bool {
        &&& self.start_frame_no >= 1
        &&& self.start_frame_no < 0x7fff_ffff_fff0_0000u64
        &&& self.last_committed_frame_no < 0x7fff_ffff_ffff_ffffu64
        &&& (self.last_committed_frame_no == 0 || (self.start_frame_no
            <= self.last_committed_frame_no && self.last_committed_frame_no + 1
            - self.start_frame_no <= MAX_SEGMENT_FRAMES))
    }

    /// Number of committed frames held by this segment.
    pub open spec fn spec_count_committed(self) -> u64 {
        if self.last_committed_frame_no + 1 >= self.start_frame_no && self.last_committed_frame_no
            != 0 {
            (self.last_committed_frame_no + 1 - self.start_frame_no) as u64
        } else {
            0
        }
    }

    /// The last committed frame number visible through this segment: the
    /// segment's own last commit, or the frame before its start while it
    /// is still empty.
    pub open spec fn spec_last_committed(self) -> u64 {
        if self.last_committed_frame_no == 0 {
            (self.start_frame_no - 1) as u64
        } else {
            self.last_committed_frame_no
        }
    }

    /// The number the next appended frame will take.
    pub open spec fn spec_next_frame_no(self) -> u64 {
        (self.spec_last_committed() + 1) as u64
    }

    /// The serialized 36-byte header.
    pub open spec fn spec_encode(self) -> Seq<u8> {
        vstd::bytes::spec_u64_to_le_bytes(self.start_frame_no) + vstd::bytes::spec_u64_to_le_bytes(
            self.last_committed_frame_no,
        ) + vstd::bytes::spec_u32_to_le_bytes(self.db_size) + vstd::bytes::spec_u64_to_le_bytes(
            self.index_offset,
        ) + vstd::bytes::spec_u64_to_le_bytes(self.index_size)
    }

    /// True iff no frame has been committed to this segment.
    pub fn is_empty(&self) -> (r: bool)
        ensures
            r == (self.last_committed_frame_no == 0),
    {
        self.last_committed_frame_no == 0
    }

    /// Number of committed frames held by this segment.
    pub fn count_committed(&self) -> (r: u64)
        requires
            self.wf(),
        ensures
            r == self.spec_count_committed(),
    {
        if self.last_committed_frame_no == 0 {
            0
        } else if self.last_committed_frame_no >= self.start_frame_no {
            self.last_committed_frame_no - self.start_frame_no + 1
        } else {
            0
        }
    }

    /// The last committed frame number visible through this segment.
    pub fn last_committed(&self) -> (r: u64)
        requires
            self.wf(),
        ensures
            r == self.spec_last_committed(),
    {
        if self.last_committed_frame_no == 0 {
            self.start_frame_no - 1
        } else {
            self.last_committed_frame_no
        }
    }

    /// The number the next appended frame will take; never zero.
    pub fn next_frame_no(&self) -> (r: u64)
        requires
            self.wf(),
        ensures
            r == self.spec_next_frame_no(),
            r >= 1,
    {
        if self.last_committed_frame_no == 0 {
            self.start_frame_no
        } else {
            self.last_committed_frame_no + 1
        }
    }

    /// Serializes the header to its 36-byte form.
    pub fn to_bytes(&self) -> (r: Vec<u8>)
        ensures
            r@ == self.spec_encode(),
            r@.len() == LOG_HEADER_SIZE,
    {
        let mut r = vstd::bytes::u64_to_le_bytes(self.start_frame_no);
        let mut b = vstd::bytes::u64_to_le_bytes(self.last_committed_frame_no);
        r.append(&mut b);
        let mut b = vstd::bytes::u32_to_le_bytes(self.db_size);
        r.append(&mut b);
        let mut b = vstd::bytes::u64_to_le_bytes(self.index_offset);
        r.append(&mut b);
        let mut b = vstd::bytes::u64_to_le_bytes(self.index_size);
        r.append(&mut b);
        proof {
            vstd::bytes::lemma_auto_spec_u64_to_from_le_bytes();
            vstd::bytes::lemma_auto_spec_u32_to_from_le_bytes();
        }
        r
    }

    /// The header whose encoding is the first 36 bytes of `data`.
    pub open spec fn spec_decode(data: Seq<u8>) -> LogHeader {
        LogHeader {
            start_frame_no: vstd::bytes::spec_u64_from_le_bytes(data.subrange(0, 8)),
            last_committed_frame_no: vstd::bytes::spec_u64_from_le_bytes(data.subrange(8, 16)),
            db_size: vstd::bytes::spec_u32_from_le_bytes(data.subrange(16, 20)),
            index_offset: vstd::bytes::spec_u64_from_le_bytes(data.subrange(20, 28)),
            index_size: vstd::bytes::spec_u64_from_le_bytes(data.subrange(28, 36)),
        }
    }

    /// Parses the header from the start of a segment image.
    pub fn from_bytes(data: &Vec<u8>) -> (r: Result<LogHeader, WalError>)
        ensures
            data@.len() >= LOG_HEADER_SIZE ==> r == Result::<LogHeader, WalError>::Ok(
                LogHeader::spec_decode(data@),
            ),
            data@.len() < LOG_HEADER_SIZE ==> r == Result::<LogHeader, WalError>::Err(
                WalError::Corruption,
            ),
    {
        if data.len() < LOG_HEADER_SIZE {
            return Err(WalError::Corruption);
        }
        let start = read_range(data, 0, 8);
        let last = read_range(data, 8, 8);
        let size = read_range(data, 16, 4);
        let idx_off = read_range(data, 20, 8);
        let idx_size = read_range(data, 28, 8);
        Ok(
            LogHeader {
                start_frame_no: vstd::bytes::u64_from_le_bytes(start.as_slice()),
                last_committed_frame_no: vstd::bytes::u64_from_le_bytes(last.as_slice()),
                db_size: vstd::bytes::u32_from_le_bytes(size.as_slice()),
                index_offset: vstd::bytes::u64_from_le_bytes(idx_off.as_slice()),
                index_size: vstd::bytes::u64_from_le_bytes(idx_size.as_slice()),
            },
        )
    }
}

/// Decoding inverts encoding: a header written at the front of an image
/// is read back field for field.
pub proof fn lemma_header_roundtrip(h: LogHeader, data: Seq<u8>)
    requires
        data.len() >= LOG_HEADER_SIZE,
        data.subrange(0, LOG_HEADER_SIZE as int) == h.spec_encode(),
    ensures
        LogHeader::spec_decode(data) == h,
{
    vstd::bytes::lemma_auto_spec_u64_to_from_le_bytes();
    vstd::bytes::lemma_auto_spec_u32_to_from_le_bytes();
    let e = h.spec_encode();
    assert(data.subrange(0, 8) =~= e.subrange(0, 8));
    assert(data.subrange(8, 16) =~= e.subrange(8, 16));
    assert(data.subrange(16, 20) =~= e.subrange(16, 20));
    assert(data.subrange(20, 28) =~= e.subrange(20, 28));
    assert(data.subrange(28, 36) =~= e.subrange(28, 36));
    assert(e.subrange(0, 8) =~= vstd::bytes::spec_u64_to_le_bytes(h.start_frame_no));
    assert(e.subrange(8, 16) =~= vstd::bytes::spec_u64_to_le_bytes(h.last_committed_frame_no));
    assert(e.subrange(16, 20) =~= vstd::bytes::spec_u32_to_le_bytes(h.db_size));
    assert(e.subrange(20, 28) =~= vstd::bytes::spec_u64_to_le_bytes(h.index_offset));
    assert(e.subrange(28, 36) =~= vstd::bytes::spec_u64_to_le_bytes(h.index_size));
}

} // verus!
