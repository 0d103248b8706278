//! Byte-level helpers shared by the segment file format.
//!
//! Frame numbers are stored big-endian (they overlay the trailing eight
//! bytes of each page image, per the SQLite WAL convention); header fields
//! are little-endian and use the vstd byte conversions.  Writes into a file
//! image go through [`write_at`], which models a positioned write that
//! zero-extends the file when writing past its end.

use vstd::prelude::*;

verus! {

/// Big-endian encoding of a 64-bit frame number.
pub open spec fn spec_u64_to_be_bytes(x: u64) -> Seq<u8> {
    seq![
        (x >> 56) as u8,
        (x >> 48) as u8,
        (x >> 40) as u8,
        (x >> 32) as u8,
        (x >> 24) as u8,
        (x >> 16) as u8,
        (x >> 8) as u8,
        x as u8,
    ]
}

/// The 64-bit value read big-endian from an 8-byte sequence.
pub open spec fn spec_u64_from_be_bytes(s: Seq<u8>) -> u64
    recommends
        s.len() == 8,
{
    (((s[0] as u64) << 56) | ((s[1] as u64) << 48) | ((s[2] as u64) << 40) | ((s[3] as u64) << 32)
        | ((s[4] as u64) << 24) | ((s[5] as u64) << 16) | ((s[6] as u64) << 8) | (s[7] as u64)) as u64
}

/// Big-endian decoding inverts big-endian encoding, and encoding inverts
/// decoding on any 8-byte sequence.
pub proof fn lemma_u64_be_bytes_roundtrip()
    ensures
        forall|x: u64| (#[trigger] spec_u64_to_be_bytes(x)).len() == 8,
        forall|x: u64| spec_u64_from_be_bytes(#[trigger] spec_u64_to_be_bytes(x)) == x,
        forall|s: Seq<u8>|
            s.len() == 8 ==> #[trigger] spec_u64_to_be_bytes(spec_u64_from_be_bytes(s)) == s,
{
    assert forall|x: u64| spec_u64_from_be_bytes(#[trigger] spec_u64_to_be_bytes(x)) == x by {
        let b0 = (x >> 56) as u8;
        let b1 = (x >> 48) as u8;
        let b2 = (x >> 40) as u8;
        let b3 = (x >> 32) as u8;
        let b4 = (x >> 24) as u8;
        let b5 = (x >> 16) as u8;
        let b6 = (x >> 8) as u8;
        let b7 = x as u8;
        assert((((b0 as u64) << 56) | ((b1 as u64) << 48) | ((b2 as u64) << 40) | ((b3 as u64)
            << 32) | ((b4 as u64) << 24) | ((b5 as u64) << 16) | ((b6 as u64) << 8) | (b7 as u64))
            == x) by (bit_vector)
            requires
                b0 == (x >> 56) as u8,
                b1 == (x >> 48) as u8,
                b2 == (x >> 40) as u8,
                b3 == (x >> 32) as u8,
                b4 == (x >> 24) as u8,
                b5 == (x >> 16) as u8,
                b6 == (x >> 8) as u8,
                b7 == x as u8,
        ;
    }
    assert forall|s: Seq<u8>| s.len() == 8 implies #[trigger] spec_u64_to_be_bytes(
        spec_u64_from_be_bytes(s),
    ) == s by {
        let x = spec_u64_from_be_bytes(s);
        let b0 = s[0];
        let b1 = s[1];
        let b2 = s[2];
        let b3 = s[3];
        let b4 = s[4];
        let b5 = s[5];
        let b6 = s[6];
        let b7 = s[7];
        let y = (((b0 as u64) << 56) | ((b1 as u64) << 48) | ((b2 as u64) << 40) | ((b3 as u64)
            << 32) | ((b4 as u64) << 24) | ((b5 as u64) << 16) | ((b6 as u64) << 8) | (
        b7 as u64)) as u64;
        assert((y >> 56) as u8 == b0 && (y >> 48) as u8 == b1 && (y >> 40) as u8 == b2 && (y >> 32)
            as u8 == b3 && (y >> 24) as u8 == b4 && (y >> 16) as u8 == b5 && (y >> 8) as u8 == b6
            && y as u8 == b7) by (bit_vector)
            requires
                y == (((b0 as u64) << 56) | ((b1 as u64) << 48) | ((b2 as u64) << 40) | ((b3
                    as u64) << 32) | ((b4 as u64) << 24) | ((b5 as u64) << 16) | ((b6 as u64) << 8)
                    | (b7 as u64)) as u64,
        ;
        assert(spec_u64_to_be_bytes(x) =~= s);
    }
}

/// Writes the eight big-endian bytes of `x`.
pub fn u64_to_be_bytes(x: u64) -> (r: Vec<u8>)
    ensures
        r@ == spec_u64_to_be_bytes(x),
{
    let mut r: Vec<u8> = Vec::new();
    r.push(#[verifier::truncate] ((x >> 56) as u8));
    r.push(#[verifier::truncate] ((x >> 48) as u8));
    r.push(#[verifier::truncate] ((x >> 40) as u8));
    r.push(#[verifier::truncate] ((x >> 32) as u8));
    r.push(#[verifier::truncate] ((x >> 24) as u8));
    r.push(#[verifier::truncate] ((x >> 16) as u8));
    r.push(#[verifier::truncate] ((x >> 8) as u8));
    r.push(#[verifier::truncate] (x as u8));
    proof {
        assert(r@ =~= spec_u64_to_be_bytes(x));
    }
    r
}

/// Reads a 64-bit big-endian value from `buf` at position `at`.
pub fn u64_from_be_at(buf: &Vec<u8>, at: usize) -> (r: u64)
    requires
        at + 8 <= buf@.len(),
    ensures
        r == spec_u64_from_be_bytes(buf@.subrange(at as int, at + 8)),
{
    let n = buf.len();
    proof {
        assert(at + 8 <= n);
    }
    let r = ((buf[at] as u64) << 56) | ((buf[at + 1] as u64) << 48) | ((buf[at + 2] as u64) << 40)
        | ((buf[at + 3] as u64) << 32) | ((buf[at + 4] as u64) << 24) | ((buf[at + 5] as u64) << 16)
        | ((buf[at + 6] as u64) << 8) | (buf[at + 7] as u64);
    proof {
        let s = buf@.subrange(at as int, at + 8);
        assert(s[0] == buf@[at as int]);
        assert(s[1] == buf@[at + 1]);
        assert(s[2] == buf@[at + 2]);
        assert(s[3] == buf@[at + 3]);
        assert(s[4] == buf@[at + 4]);
        assert(s[5] == buf@[at + 5]);
        assert(s[6] == buf@[at + 6]);
        assert(s[7] == buf@[at + 7]);
    }
    r
}

/// The packed form of a segment-index entry: the high half carries the
/// frame-number delta, the low half the slot offset.
pub open spec fn spec_index_entry_pack(frame_no_delta: u32, offset: u32) -> u64 {
    (((frame_no_delta as u64) << 32) | (offset as u64)) as u64
}

/// Packs a `(frame_no_delta, offset)` pair into an index value.
pub fn index_entry_pack(frame_no_delta: u32, offset: u32) -> (r: u64)
    ensures
        r == spec_index_entry_pack(frame_no_delta, offset),
{
    ((frame_no_delta as u64) << 32) | (offset as u64)
}

/// Splits an index entry value into its components: `(frame_no_delta, offset)`.
pub fn index_entry_split(k: u64) -> (r: (u32, u32))
    ensures
        r.0 == k >> 32,
        r.1 == (k & 0xffff_ffffu64) as u32,
        k == spec_index_entry_pack(r.0, r.1),
{
    let offset = #[verifier::truncate] ((k & (u32::MAX as u64)) as u32);
    let frame_no = #[verifier::truncate] ((k >> 32) as u32);
    proof {
        assert((k >> 32) as u32 == k >> 32 && ((k & 0xffff_ffffu64) as u32) as u64 == (k
            & 0xffff_ffffu64) && ((((k >> 32) as u32 as u64) << 32) | ((k & 0xffff_ffffu64) as u32
            as u64)) == k) by (bit_vector);
    }
    (frame_no, offset)
}

/// Packing then splitting returns the original pair.
pub proof fn lemma_index_entry_pack_split(frame_no_delta: u32, offset: u32)
    ensures
        spec_index_entry_pack(frame_no_delta, offset) >> 32 == frame_no_delta,
        (spec_index_entry_pack(frame_no_delta, offset) & 0xffff_ffffu64) as u32 == offset,
{
    let d = frame_no_delta;
    let o = offset;
    assert(((((d as u64) << 32) | (o as u64)) as u64) >> 32 == d && (((((d as u64) << 32) | (
    o as u64)) as u64) & 0xffff_ffffu64) as u32 == o) by (bit_vector);
}

/// The file image after writing `src` at byte position `at`: bytes the
/// write covers come from `src`, bytes before and after keep their old
/// value, and any gap opened past the old end reads as zero.
pub open spec fn spec_write_at(data: Seq<u8>, at: int, src: Seq<u8>) -> Seq<u8> {
    let end = if at + src.len() > data.len() {
        at + src.len()
    } else {
        data.len() as int
    };
    Seq::new(
        end as nat,
        |i: int|
            if at <= i < at + src.len() {
                src[i - at]
            } else if i < data.len() {
                data[i]
            } else {
                0u8
            },
    )
}

/// Returns a copy of `data` with `src` written at byte position `at`,
/// zero-extending the image if the write lands past its current end.
pub fn write_at(data: &Vec<u8>, at: usize, src: &Vec<u8>) -> (r: Vec<u8>)
    requires
        at + src@.len() <= usize::MAX,
    ensures
        r@ == spec_write_at(data@, at as int, src@),
{
    let end = if at + src.len() > data.len() {
        at + src.len()
    } else {
        data.len()
    };
    let mut r: Vec<u8> = Vec::new();
    let mut i: usize = 0;
    while i < end
        invariant
            i <= end,
            end == spec_write_at(data@, at as int, src@).len(),
            r@.len() == i,
            forall|j: int| 0 <= j < i ==> r@[j] == spec_write_at(data@, at as int, src@)[j],
        decreases end - i,
    {
        if at <= i && i < at + src.len() {
            r.push(src[i - at]);
        } else if i < data.len() {
            r.push(data[i]);
        } else {
            r.push(0u8);
        }
        i = i + 1;
    }
    proof {
        assert(r@ =~= spec_write_at(data@, at as int, src@));
    }
    r
}

/// Returns the `len` bytes of `data` starting at `at`.
pub fn read_range(data: &Vec<u8>, at: usize, len: usize) -> (r: Vec<u8>)
    requires
        at + len <= data@.len(),
    ensures
        r@ == data@.subrange(at as int, at + len),
{
    let n = data.len();
    let mut r: Vec<u8> = Vec::new();
    let mut i: usize = 0;
    while i < len
        invariant
            i <= len,
            at + len <= n == data@.len(),
            r@.len() == i,
            forall|j: int| 0 <= j < i ==> r@[j] == data@[at + j],
        decreases len - i,
    {
        r.push(data[at + i]);
        i = i + 1;
    }
    proof {
        assert(r@ =~= data@.subrange(at as int, at + len));
    }
    r
}

} // verus!
