//! The on-disk frame layout of a segment file.
//!
//! A segment file is a fixed 36-byte header followed by frames of 4104
//! bytes each: an 8-byte frame header (`page_no`, `size_after`, both
//! little-endian u32) and a 4096-byte page image whose trailing eight bytes
//! are overlaid with the frame number, big-endian, per the SQLite WAL
//! convention.  Once sealed, an index blob follows the last frame.

use vstd::prelude::*;

use crate::codec::{spec_u64_from_be_bytes, spec_u64_to_be_bytes, u64_to_be_bytes};

verus! {

/// Size in bytes of a database page image.
pub const PAGE_SIZE: usize = 4096;

/// Size in bytes of the per-frame header (`page_no`, `size_after`).
pub const FRAME_HEADER_SIZE: usize = 8;

/// Size in bytes of one frame on disk.
pub const FRAME_SIZE: usize = 4104;

/// Size in bytes of the segment header at offset 0.
pub const LOG_HEADER_SIZE: usize = 36;

/// Largest number of frames a single segment may hold; keeps every byte
/// offset inside a segment below 2^31.
pub const MAX_SEGMENT_FRAMES: u64 = 262143;

/// Largest serialized index a segment may carry; keeps the sealed image
/// addressable.
pub const MAX_INDEX_BYTES: usize = 0x4000_0000;

/// Byte position of the frame stored in slot `offset`.
pub open spec fn spec_byte_offset(offset: u32) -> u64 {
    (LOG_HEADER_SIZE as u64 + (offset as u64) * (FRAME_SIZE as u64)) as u64
}

/// Byte position of the frame stored in slot `offset`.
pub fn byte_offset(offset: u32) -> (r: u64)
    ensures
        r == spec_byte_offset(offset),
{
    proof {
        assert((offset as u64) * (FRAME_SIZE as u64) <= 0xffff_ffffu64 * (FRAME_SIZE as u64))
            by (nonlinear_arith)
            requires
                offset <= 0xffff_ffffu64,
        ;
    }
    LOG_HEADER_SIZE as u64 + (offset as u64) * (FRAME_SIZE as u64)
}

/// Byte position of the page image inside the frame stored in slot `offset`.
pub open spec fn spec_page_offset(offset: u32) -> u64 {
    (spec_byte_offset(offset) + FRAME_HEADER_SIZE as u64) as u64
}

/// Byte position of the page image inside the frame stored in slot `offset`.
pub fn page_offset(offset: u32) -> (r: u64)
    ensures
        r == spec_page_offset(offset),
{
    proof {
        assert((offset as u64) * (FRAME_SIZE as u64) <= 0xffff_ffffu64 * (FRAME_SIZE as u64))
            by (nonlinear_arith)
            requires
                offset <= 0xffff_ffffu64,
        ;
    }
    byte_offset(offset) + FRAME_HEADER_SIZE as u64
}

/// Frame slots are laid out in order and do not overlap, and every slot
/// lies past the segment header.
pub proof fn lemma_byte_offset_mono(a: u32, b: u32)
    requires
        a <= b,
    ensures
        spec_byte_offset(a) <= spec_byte_offset(b),
        a < b ==> spec_byte_offset(a) + FRAME_SIZE <= spec_byte_offset(b),
        spec_byte_offset(a) >= LOG_HEADER_SIZE,
{
    assert((a as u64) * (FRAME_SIZE as u64) <= (b as u64) * (FRAME_SIZE as u64) && (b as u64) * (
    FRAME_SIZE as u64) <= 0xffff_ffffu64 * (FRAME_SIZE as u64) && (a < b ==> (a as u64) * (
    FRAME_SIZE as u64) + (FRAME_SIZE as u64) <= (b as u64) * (FRAME_SIZE as u64)))
        by (nonlinear_arith)
        requires
            a <= b,
            b <= 0xffff_ffffu64,
    ;
}

/// The slot after `a` begins exactly one frame later.
pub proof fn lemma_byte_offset_succ(a: u32)
    requires
        a < 0xffff_ffffu32,
    ensures
        spec_byte_offset((a + 1) as u32) == spec_byte_offset(a) + FRAME_SIZE,
{
    assert(((a + 1) as u32 as u64) * (FRAME_SIZE as u64) == (a as u64) * (FRAME_SIZE as u64) + (
    FRAME_SIZE as u64) && (a as u64) * (FRAME_SIZE as u64) <= 0xffff_ffffu64 * (FRAME_SIZE as u64))
        by (nonlinear_arith)
        requires
            a < 0xffff_ffffu32,
    ;
}

/// A slot whose bytes did not change decodes to the same frame.
pub proof fn lemma_frame_unchanged(d1: Seq<u8>, d2: Seq<u8>, offset: u32)
    requires
        spec_byte_offset(offset) + FRAME_SIZE <= d1.len(),
        spec_byte_offset(offset) + FRAME_SIZE <= d2.len(),
        forall|i: int|
            spec_byte_offset(offset) <= i < spec_byte_offset(offset) + FRAME_SIZE ==> d2[i]
                == d1[i],
    ensures
        spec_frame_page_no(d2, offset) == spec_frame_page_no(d1, offset),
        spec_frame_size_after(d2, offset) == spec_frame_size_after(d1, offset),
        spec_frame_payload(d2, offset) == spec_frame_payload(d1, offset),
        spec_frame_trailer_no(d2, offset) == spec_frame_trailer_no(d1, offset),
{
    let at = spec_byte_offset(offset) as int;
    assert(d2.subrange(at, at + 4) =~= d1.subrange(at, at + 4));
    assert(d2.subrange(at + 4, at + 8) =~= d1.subrange(at + 4, at + 8));
    assert(d2.subrange(at + 8, at + 8 + PAGE_SIZE as int) =~= d1.subrange(
        at + 8,
        at + 8 + PAGE_SIZE as int,
    ));
    assert(d2.subrange(at + 8 + PAGE_SIZE - 8, at + 8 + PAGE_SIZE as int) =~= d1.subrange(
        at + 8 + PAGE_SIZE - 8,
        at + 8 + PAGE_SIZE as int,
    ));
}

/// The 4104 bytes of one encoded frame: the little-endian frame header,
/// the first 4088 bytes of the page image, and the frame number written
/// big-endian over the image's trailing eight bytes.
pub open spec fn spec_frame_bytes(
    page_no: u32,
    size_after: u32,
    page: Seq<u8>,
    frame_no: u64,
) -> Seq<u8> {
    vstd::bytes::spec_u32_to_le_bytes(page_no) + vstd::bytes::spec_u32_to_le_bytes(size_after)
        + page.take(PAGE_SIZE - FRAME_HEADER_SIZE) + spec_u64_to_be_bytes(frame_no)
}

/// The 4096-byte page image stored by an encoded frame: the given image
/// with the frame number overlaid on its trailing eight bytes.
pub open spec fn spec_stored_page(page: Seq<u8>, frame_no: u64) -> Seq<u8> {
    page.take(PAGE_SIZE - FRAME_HEADER_SIZE) + spec_u64_to_be_bytes(frame_no)
}

/// Encodes one frame.
pub fn build_frame(page_no: u32, size_after: u32, page: &Vec<u8>, frame_no: u64) -> (r: Vec<u8>)
    requires
        page@.len() == PAGE_SIZE,
    ensures
        r@ == spec_frame_bytes(page_no, size_after, page@, frame_no),
        r@.len() == FRAME_SIZE,
{
    let mut r = vstd::bytes::u32_to_le_bytes(page_no);
    let mut size_bytes = vstd::bytes::u32_to_le_bytes(size_after);
    r.append(&mut size_bytes);
    let mut i: usize = 0;
    while i < PAGE_SIZE - FRAME_HEADER_SIZE
        invariant
            i <= PAGE_SIZE - FRAME_HEADER_SIZE,
            page@.len() == PAGE_SIZE,
            r@.len() == 8 + i,
            r@.take(8) == vstd::bytes::spec_u32_to_le_bytes(page_no)
                + vstd::bytes::spec_u32_to_le_bytes(size_after),
            forall|j: int| 0 <= j < i ==> r@[8 + j] == page@[j],
        decreases PAGE_SIZE - FRAME_HEADER_SIZE - i,
    {
        proof {
            assert(r@.take(8) =~= (r@ + seq![page@[i as int]]).take(8));
        }
        r.push(page[i]);
        i = i + 1;
    }
    let mut trailer = u64_to_be_bytes(frame_no);
    proof {
        assert(r@.take(8) =~= (r@ + trailer@).take(8));
    }
    r.append(&mut trailer);
    proof {
        vstd::bytes::lemma_auto_spec_u32_to_from_le_bytes();
        assert(r@ =~= spec_frame_bytes(page_no, size_after, page@, frame_no));
    }
    r
}

/// The encoded frame bytes in slot `offset` of a segment image.
pub open spec fn spec_frame_region(data: Seq<u8>, offset: u32) -> Seq<u8> {
    data.subrange(
        spec_byte_offset(offset) as int,
        spec_byte_offset(offset) + FRAME_SIZE as int,
    )
}

/// The page number recorded by the frame in slot `offset`.
pub open spec fn spec_frame_page_no(data: Seq<u8>, offset: u32) -> u32 {
    vstd::bytes::spec_u32_from_le_bytes(
        data.subrange(spec_byte_offset(offset) as int, spec_byte_offset(offset) + 4),
    )
}

/// The `size_after` field recorded by the frame in slot `offset`.
pub open spec fn spec_frame_size_after(data: Seq<u8>, offset: u32) -> u32 {
    vstd::bytes::spec_u32_from_le_bytes(
        data.subrange(spec_byte_offset(offset) + 4, spec_byte_offset(offset) + 8),
    )
}

/// The 4096-byte stored page image of the frame in slot `offset`.
pub open spec fn spec_frame_payload(data: Seq<u8>, offset: u32) -> Seq<u8> {
    data.subrange(
        spec_page_offset(offset) as int,
        spec_page_offset(offset) + PAGE_SIZE as int,
    )
}

/// The frame number stored big-endian in the trailer of slot `offset`.
pub open spec fn spec_frame_trailer_no(data: Seq<u8>, offset: u32) -> u64 {
    spec_u64_from_be_bytes(
        data.subrange(
            spec_page_offset(offset) + PAGE_SIZE - 8,
            spec_page_offset(offset) + PAGE_SIZE as int,
        ),
    )
}

/// Writing an encoded frame into slot `offset` makes that slot decode to
/// the frame's parts and leaves all bytes outside the slot unchanged.
pub proof fn lemma_frame_write(
    data: Seq<u8>,
    offset: u32,
    page_no: u32,
    size_after: u32,
    page: Seq<u8>,
    frame_no: u64,
)
    requires
        page.len() == PAGE_SIZE,
        spec_byte_offset(offset) <= data.len(),
    ensures
        ({
            let w = crate::codec::spec_write_at(
                data,
                spec_byte_offset(offset) as int,
                spec_frame_bytes(page_no, size_after, page, frame_no),
            );
            &&& w.len() >= spec_byte_offset(offset) + FRAME_SIZE
            &&& spec_frame_page_no(w, offset) == page_no
            &&& spec_frame_size_after(w, offset) == size_after
            &&& spec_frame_payload(w, offset) == spec_stored_page(page, frame_no)
            &&& spec_frame_trailer_no(w, offset) == frame_no
            &&& forall|i: int|
                0 <= i < data.len() && !(spec_byte_offset(offset) <= i < spec_byte_offset(offset)
                    + FRAME_SIZE) ==> w[i] == data[i]
            &&& w.len() == if data.len() >= spec_byte_offset(offset) + FRAME_SIZE {
                data.len() as int
            } else {
                spec_byte_offset(offset) + FRAME_SIZE
            }
        }),
{
    let fb = spec_frame_bytes(page_no, size_after, page, frame_no);
    vstd::bytes::lemma_auto_spec_u32_to_from_le_bytes();
    crate::codec::lemma_u64_be_bytes_roundtrip();
    assert(fb.len() == FRAME_SIZE);
    let at = spec_byte_offset(offset) as int;
    let w = crate::codec::spec_write_at(data, at, fb);
    assert(w.subrange(at, at + 4) =~= vstd::bytes::spec_u32_to_le_bytes(page_no));
    assert(w.subrange(at + 4, at + 8) =~= vstd::bytes::spec_u32_to_le_bytes(size_after));
    assert(w.subrange(at + 8, at + 8 + PAGE_SIZE as int) =~= spec_stored_page(page, frame_no));
    assert(w.subrange(
        at + 8 + PAGE_SIZE - 8,
        at + 8 + PAGE_SIZE as int,
    ) =~= spec_u64_to_be_bytes(frame_no));
}

} // verus!
