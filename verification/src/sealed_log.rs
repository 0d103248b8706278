//! The sealed segment: an immutable frame file with its serialized index.
//!
//! Sealing appends the segment's page index as an fst blob after the last
//! committed frame and records its position in the header.  A sealed
//! segment answers page reads for any snapshot that covers it, carries a
//! read-lock count handed over from its live form, and is deleted by the
//! caller once checkpointed.

use vstd::prelude::*;

use crate::codec::{read_range, spec_index_entry_pack};
use crate::frame::{
    spec_byte_offset, spec_frame_page_no, spec_frame_payload, spec_page_offset, PAGE_SIZE,
};
use crate::header::LogHeader;
use crate::index::{
    lemma_locate_all_within, lemma_map_get_found, lemma_map_get_graph, spec_get_last,
    spec_keys_sorted, spec_locate, spec_map_get, PageIndex,
};
use crate::log::{boundaries_wf, frames_wf, index_wf};
use crate::sealed_index::{fst_contents, fst_map_bytes, map_get, pairs_as_map};

verus! {

/// An immutable, sealed segment.
pub struct SealedLog {
    /// The header, with `index_offset` and `index_size` filled in.
    pub header: LogHeader,
    /// The sealed file image: header, frames, index blob.
    pub data: Vec<u8>,
    /// The live form's page index, kept for readers whose snapshot falls
    /// inside this segment.
    pub index: PageIndex,
    /// The serialized index, reopened for lookups.
    pub fst_index: fst::Map<Vec<u8>>,
    /// The `(page_no, packed value)` pairs the serialized index holds,
    /// ascending by page number.
    pub entries: Vec<(u32, u64)>,
    /// Number of read transactions still pinned to this segment.
    pub read_locks: u64,
    /// Set once the segment's pages have been folded into the base file.
    pub checkpointed: bool,
    /// Commit boundaries inherited from the live form.
    pub boundaries: Ghost<Seq<u64>>,
}

/// `packed` mirrors `plain` with each offset packed into an index value.
pub open spec fn entries_packed(plain: Seq<(u32, u32)>, packed: Seq<(u32, u64)>) -> bool {
    &&& packed.len() == plain.len()
    &&& forall|j: int|
        0 <= j < plain.len() ==> #[trigger] packed[j] == (
            plain[j].0,
            spec_index_entry_pack(plain[j].1, plain[j].1),
        )
}

/// Looking a page up in the packed pairs returns its packed newest offset.
pub proof fn lemma_map_get_packed(plain: Seq<(u32, u32)>, packed: Seq<(u32, u64)>, p: u32)
    requires
        entries_packed(plain, packed),
    ensures
        spec_map_get(packed, p) == match spec_map_get(plain, p) {
            Some(o) => Some(spec_index_entry_pack(o, o)),
            None => None::<u64>,
        },
    decreases plain.len(),
{
    if plain.len() > 0 {
        assert(packed[0] == (plain[0].0, spec_index_entry_pack(plain[0].1, plain[0].1)));
        assert forall|j: int|
            0 <= j < plain.drop_first().len() implies #[trigger] packed.drop_first()[j] == (
            plain.drop_first()[j].0,
            spec_index_entry_pack(plain.drop_first()[j].1, plain.drop_first()[j].1),
        ) by {
            assert(packed.drop_first()[j] == packed[j + 1]);
            assert(plain.drop_first()[j] == plain[j + 1]);
        }
        lemma_map_get_packed(plain.drop_first(), packed.drop_first(), p);
    }
}

impl SealedLog {
    /// Internal consistency of the sealed segment: the live-form
    /// invariants still hold, the header points at the index blob, the
    /// blob serializes `fst_index`, and `fst_index` holds exactly the
    /// newest offset of every page the segment writes.
    pub open spec fn wf(self) -> bool {
        &&& self.header.wf()
        &&& frames_wf(self.header, self.data@)
        &&& index_wf(self.header, self.data@, self.index)
        &&& boundaries_wf(self.header, self.data@, self.index, self.boundaries@)
        &&& self.header.index_offset == spec_byte_offset(
            self.header.spec_count_committed() as u32,
        )
        &&& self.data@.len() >= self.header.index_offset + self.header.index_size
        &&& self.data@.subrange(
            self.header.index_offset as int,
            self.header.index_offset + self.header.index_size,
        ) == fst_map_bytes(self.fst_index)
        &&& spec_keys_sorted(self.entries@)
        &&& fst_contents(self.fst_index) == pairs_as_map(self.entries@)
        &&& forall|p: u32|
            #[trigger] spec_map_get(self.entries@, p) == match spec_get_last(
                self.index.entries@,
                p,
            ) {
                Some(o) => Some(spec_index_entry_pack(o, o)),
                None => None::<u64>,
            }
    }

    /// The header of the sealed segment.
    pub fn header(&self) -> (r: &LogHeader)
        ensures
            r == self.header,
    {
        &self.header
    }

    /// The last committed frame number visible through this segment.
    pub fn last_committed(&self) -> (r: u64)
        requires
            self.wf(),
        ensures
            r == self.header.spec_last_committed(),
    {
        self.header.last_committed()
    }

    /// The sealed file image, as the caller should persist it.
    pub fn image(&self) -> (r: &Vec<u8>)
        ensures
            r == self.data,
    {
        &self.data
    }

    /// Reads the page image stored in slot `offset`.
    pub fn read_offset(&self, offset: u32) -> (r: Vec<u8>)
        requires
            spec_page_offset(offset) + PAGE_SIZE <= self.data@.len(),
            self.data@.len() <= 0xffff_ffff,
        ensures
            r@ == spec_frame_payload(self.data@, offset),
            r@.len() == PAGE_SIZE,
    {
        let at = crate::log::page_offset_usize(offset);
        read_range(&self.data, at, PAGE_SIZE)
    }

    /// What `read_page` returns: nothing if the segment post-dates the
    /// snapshot, otherwise the newest image of the page within the
    /// snapshot, if the segment writes the page at all.
    pub open spec fn spec_read_page(self, page_no: u32, max_frame_no: u64) -> Option<Seq<u8>> {
        if self.header.last_committed_frame_no > max_frame_no {
            None
        } else {
            match spec_locate(
                self.index.entries@,
                page_no,
                self.header.start_frame_no,
                max_frame_no,
            ) {
                Some(o) => Some(spec_frame_payload(self.data@, o)),
                None => None,
            }
        }
    }

    /// Reads the newest image of `page_no` visible at `max_frame_no`.
    /// Skips the whole segment when it post-dates the snapshot; otherwise
    /// the serialized index holds each page's newest frame.
    pub fn read_page(&self, page_no: u32, max_frame_no: u64) -> (r: Option<Vec<u8>>)
        requires
            self.wf(),
        ensures
            r is Some <==> self.spec_read_page(page_no, max_frame_no) is Some,
            r matches Some(pg) ==> self.spec_read_page(page_no, max_frame_no) == Some(pg@),
    {
        if self.header.last_committed_frame_no > max_frame_no {
            return None;
        }
        proof {
            // within this segment the snapshot covers every frame, so the
            // unbounded newest offset is the bounded one
            assert forall|i: int|
                0 <= i < self.index.entries@.len() implies self.header.start_frame_no + (
            #[trigger] self.index.entries@[i]).1 <= max_frame_no by {
                assert(self.index.entries@[i].1 < self.header.spec_count_committed());
            }
            lemma_locate_all_within(
                self.index.entries@,
                page_no,
                self.header.start_frame_no,
                max_frame_no,
            );
        }
        match map_get(&self.fst_index, page_no) {
            Some(v) => {
                proof {
                    crate::sealed_index::lemma_pairs_as_map_sorted(self.entries@);
                    let j = choose|j: int|
                        0 <= j < self.entries@.len() && (#[trigger] self.entries@[j]).0 == page_no;
                    lemma_map_get_found(self.entries@, j);
                    assert(spec_map_get(self.entries@, page_no) == Some(self.entries@[j].1));
                    assert(v == self.entries@[j].1);
                    assert(spec_get_last(self.index.entries@, page_no) is Some);
                    let o = spec_get_last(self.index.entries@, page_no).unwrap();
                    crate::codec::lemma_index_entry_pack_split(o, o);
                    crate::index::lemma_get_last_in(self.index.entries@, page_no);
                    let i = choose|i: int|
                        0 <= i < self.index.entries@.len() && #[trigger] self.index.entries@[i]
                            == (page_no, o);
                    assert(self.index.entries@[i].1 < self.header.spec_count_committed());
                    crate::frame::lemma_byte_offset_succ(o);
                    crate::frame::lemma_byte_offset_mono(
                        (o + 1) as u32,
                        self.header.spec_count_committed() as u32,
                    );
                }
                let (_delta, offset) = crate::codec::index_entry_split(v);
                Some(self.read_offset(offset))
            },
            None => {
                proof {
                    crate::sealed_index::lemma_pairs_as_map_sorted(self.entries@);
                    if spec_get_last(self.index.entries@, page_no) is Some {
                        assert(spec_map_get(self.entries@, page_no) is Some);
                        lemma_map_get_graph(self.entries@, page_no);
                        let v = spec_map_get(self.entries@, page_no).unwrap();
                        let j = choose|j: int|
                            0 <= j < self.entries@.len() && #[trigger] self.entries@[j] == (
                                page_no,
                                v,
                            );
                        assert(pairs_as_map(self.entries@).dom().contains(page_no));
                    }
                }
                None
            },
        }
    }

    /// Marks the segment as folded into the base file; the caller may then
    /// delete its file once the segment is dropped.
    pub fn mark_checkpointed(&mut self)
        ensures
            *final(self) == (SealedLog { checkpointed: true, ..*old(self) }),
    {
        self.checkpointed = true;
    }

    /// Whether the segment has been checkpointed.
    pub fn is_checkpointed(&self) -> (r: bool)
        ensures
            r == self.checkpointed,
    {
        self.checkpointed
    }
}

} // verus!
