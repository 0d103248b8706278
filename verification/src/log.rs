//! The live segment: an appendable frame file with its in-memory index.
//!
//! A writer appends frames past the committed tail and records them in its
//! savepoints; committing publishes a new header whose
//! `last_committed_frame_no` makes those frames visible, merges the
//! savepoint records into the segment's index, and never touches anything
//! a concurrent reader could already see.  The in-memory state is updated
//! only after the image holds the new header, so the public header is
//! always the last thing to change.

use vstd::prelude::*;

use crate::codec::{read_range, spec_write_at, write_at};
use crate::error::WalError;
use crate::frame::{
    build_frame, byte_offset, lemma_byte_offset_mono, lemma_frame_write, spec_byte_offset,
    spec_frame_page_no, spec_frame_payload, spec_frame_size_after, spec_frame_trailer_no,
    spec_page_offset, spec_stored_page, FRAME_SIZE, LOG_HEADER_SIZE, MAX_INDEX_BYTES,
    MAX_SEGMENT_FRAMES, PAGE_SIZE,
};
use crate::header::{lemma_header_roundtrip, LogHeader};
use crate::index::{spec_get_last, spec_locate, PageIndex};
use crate::transaction::{spec_concat_savepoints, Transaction, WriteTransaction};

verus! {

/// The committed frame region of the image decodes consistently: the
/// image starts with the encoded header, covers every committed frame,
/// and each committed frame's trailer carries its own frame number.
pub open spec fn frames_wf(h: LogHeader, data: Seq<u8>) -> bool {
    &&& data.len() >= spec_byte_offset(h.spec_count_committed() as u32)
    &&& data.len() <= 0xffff_ffff
    &&& data.subrange(0, LOG_HEADER_SIZE as int) == h.spec_encode()
    &&& forall|o: u32|
        o < h.spec_count_committed() ==> #[trigger] spec_frame_trailer_no(data, o)
            == h.start_frame_no + o
}

/// The index records only committed frames and records them truthfully.
pub open spec fn index_wf(h: LogHeader, data: Seq<u8>, index: PageIndex) -> bool {
    &&& index.wf()
    &&& index.all_below(h.spec_count_committed() as int)
    &&& forall|i: int|
        0 <= i < index.entries@.len() ==> #[trigger] spec_frame_page_no(
            data,
            index.entries@[i].1,
        ) == index.entries@[i].0
}

/// The index holds a record for page `p` that is at least as new as slot
/// `o` and whose frame number does not exceed `b`.
pub open spec fn found_within(h: LogHeader, index: PageIndex, p: u32, o: u32, b: u64) -> bool {
    exists|i: int|
        0 <= i < index.entries@.len() && (#[trigger] index.entries@[i]).0 == p
            && index.entries@[i].1 >= o && h.start_frame_no + index.entries@[i].1 <= b
}

/// Every frame committed no later than `b` is found, at `b`, through some
/// index record at least as new.
pub open spec fn complete_at(h: LogHeader, data: Seq<u8>, index: PageIndex, b: u64) -> bool {
    forall|o: u32|
        o < h.spec_count_committed() && h.start_frame_no + o <= b ==> #[trigger] found_within(
            h,
            index,
            spec_frame_page_no(data, o),
            o,
            b,
        )
}

/// A record found within `b` is still found with more records appended,
/// the same segment start, and a bound at least `b`.
proof fn lemma_found_extend(
    h1: LogHeader,
    h2: LogHeader,
    idx1: PageIndex,
    idx2: PageIndex,
    p: u32,
    o: u32,
    b1: u64,
    b2: u64,
)
    requires
        found_within(h1, idx1, p, o, b1),
        h2.start_frame_no == h1.start_frame_no,
        idx2.entries@.len() >= idx1.entries@.len(),
        forall|i: int|
            0 <= i < idx1.entries@.len() ==> #[trigger] idx2.entries@[i] == idx1.entries@[i],
        b2 >= b1,
    ensures
        found_within(h2, idx2, p, o, b2),
{
    let i = choose|i: int|
        0 <= i < idx1.entries@.len() && (#[trigger] idx1.entries@[i]).0 == p
            && idx1.entries@[i].1 >= o && h1.start_frame_no + idx1.entries@[i].1 <= b1;
    assert(0 <= i < idx2.entries@.len() && idx2.entries@[i].0 == p && idx2.entries@[i].1 >= o
        && h2.start_frame_no + idx2.entries@[i].1 <= b2);
}

/// The commit boundaries recorded for a segment: each lies in the
/// segment's frame range, the newest one is the segment's last commit,
/// and the index is complete at every one of them.
pub open spec fn boundaries_wf(
    h: LogHeader,
    data: Seq<u8>,
    index: PageIndex,
    boundaries: Seq<u64>,
) -> bool {
    &&& forall|k: int|
        0 <= k < boundaries.len() ==> h.start_frame_no - 1 <= #[trigger] boundaries[k]
            <= h.spec_last_committed()
    &&& (h.spec_count_committed() > 0 ==> boundaries.len() > 0 && boundaries.last()
        == h.last_committed_frame_no)
    &&& forall|k: int| 0 <= k < boundaries.len() ==> complete_at(h, data, index, #[trigger] boundaries[k])
}

/// The records a batch starting at slot `base` makes, one per page.
pub open spec fn spec_batch_records(base: u32, pages: Seq<(u32, Vec<u8>)>) -> Seq<(u32, u32)> {
    Seq::new(pages.len(), |k: int| (pages[k].0, (base + k) as u32))
}

/// The frames of a batch stand in the image at consecutive slots from
/// `base`: each holds its page number, its page image with the frame
/// number overlaid, and a zero `size_after` except for the final frame of
/// a committing batch.
pub open spec fn spec_batch_ok_upto(
    data: Seq<u8>,
    start: u64,
    base: u32,
    pages: Seq<(u32, Vec<u8>)>,
    size_after: Option<u32>,
    upto: int,
) -> bool {
    forall|k: int|
        #![trigger pages[k]]
        0 <= k < upto ==> {
            let o = (base + k) as u32;
            &&& spec_frame_page_no(data, o) == pages[k].0
            &&& spec_frame_payload(data, o) == spec_stored_page(pages[k].1@, (start + o) as u64)
            &&& spec_frame_trailer_no(data, o) == start + o
            &&& spec_frame_size_after(data, o) == if size_after is Some && k == pages.len() - 1 {
                size_after.unwrap()
            } else {
                0u32
            }
        }
}

pub open spec fn spec_batch_ok(
    data: Seq<u8>,
    start: u64,
    base: u32,
    pages: Seq<(u32, Vec<u8>)>,
    size_after: Option<u32>,
) -> bool {
    spec_batch_ok_upto(data, start, base, pages, size_after, pages.len() as int)
}

/// `es` is the serialized form of the page index: ascending page numbers,
/// each mapped to its newest slot offset, packed.
pub open spec fn spec_packed_index(index: Seq<(u32, u32)>, es: Seq<(u32, u64)>) -> bool {
    &&& crate::index::spec_keys_sorted(es)
    &&& forall|p: u32|
        #[trigger] crate::index::spec_map_get(es, p) == match spec_get_last(index, p) {
            Some(o) => Some(crate::codec::spec_index_entry_pack(o, o)),
            None => None::<u64>,
        }
}

/// Some record in `pend` names slot `o`.
pub open spec fn spec_covered(pend: Seq<(u32, u32)>, o: u32) -> bool {
    exists|k: int| 0 <= k < pend.len() && (#[trigger] pend[k]).1 == o
}

/// The uncommitted writes of `tx` stand correctly in `log`'s image: the
/// transaction continues the committed tail, its recorded frames are
/// written and truthful, and every slot between the committed tail and
/// the write position is recorded.
pub open spec fn wf_pending(log: Log, tx: WriteTransaction) -> bool {
    let pend = spec_concat_savepoints(tx.savepoints@);
    &&& tx.read_tx.log_start == log.header.start_frame_no
    &&& tx.savepoints@[0].next_offset == log.spec_count()
    &&& log.data@.len() >= spec_byte_offset(tx.next_offset)
    &&& forall|k: int|
        #![trigger pend[k]]
        0 <= k < pend.len() ==> {
            &&& spec_frame_page_no(log.data@, pend[k].1) == pend[k].0
            &&& spec_frame_trailer_no(log.data@, pend[k].1) == log.header.start_frame_no
                + pend[k].1
        }
    &&& forall|o: u32|
        log.spec_count() <= o < tx.next_offset ==> #[trigger] spec_covered(pend, o)
}

/// Index completeness at a boundary depends on the image only through
/// the committed frames' page numbers, and on the header only through the
/// segment start and the committed count.
proof fn lemma_complete_preserved(
    h0: LogHeader,
    h: LogHeader,
    index: PageIndex,
    b: u64,
    d1: Seq<u8>,
    d2: Seq<u8>,
)
    requires
        complete_at(h0, d1, index, b),
        h.start_frame_no == h0.start_frame_no,
        h.spec_count_committed() == h0.spec_count_committed(),
        forall|o: u32|
            #![trigger spec_frame_page_no(d2, o)]
            o < h.spec_count_committed() ==> spec_frame_page_no(d2, o) == spec_frame_page_no(
                d1,
                o,
            ),
    ensures
        complete_at(h, d2, index, b),
{
    assert forall|o: u32|
        o < h.spec_count_committed() && h.start_frame_no + o <= b implies #[trigger] found_within(
        h,
        index,
        spec_frame_page_no(d2, o),
        o,
        b,
    ) by {
        assert(found_within(h0, index, spec_frame_page_no(d1, o), o, b));
        assert(spec_frame_page_no(d2, o) == spec_frame_page_no(d1, o));
        lemma_found_extend(h0, h, index, index, spec_frame_page_no(d2, o), o, b, b);
    }
}

/// If the header and every committed frame keep their bytes, every
/// consistency property of the segment carries over to the new image.
proof fn lemma_seg_preserved(
    h: LogHeader,
    index: PageIndex,
    boundaries: Seq<u64>,
    d1: Seq<u8>,
    d2: Seq<u8>,
)
    requires
        h.wf(),
        frames_wf(h, d1),
        index_wf(h, d1, index),
        boundaries_wf(h, d1, index, boundaries),
        d2.len() >= d1.len(),
        d2.len() <= 0xffff_ffff,
        forall|i: int|
            0 <= i < spec_byte_offset(h.spec_count_committed() as u32) ==> d2[i] == d1[i],
    ensures
        frames_wf(h, d2),
        index_wf(h, d2, index),
        boundaries_wf(h, d2, index, boundaries),
        forall|o: u32|
            #![trigger spec_frame_page_no(d2, o)]
            #![trigger spec_frame_payload(d2, o)]
            #![trigger spec_frame_trailer_no(d2, o)]
            #![trigger spec_frame_size_after(d2, o)]
            o < h.spec_count_committed() ==> spec_frame_payload(d2, o) == spec_frame_payload(
                d1,
                o,
            ) && spec_frame_page_no(d2, o) == spec_frame_page_no(d1, o) && spec_frame_trailer_no(
                d2,
                o,
            ) == spec_frame_trailer_no(d1, o) && spec_frame_size_after(d2, o)
                == spec_frame_size_after(d1, o),
{
    let count = h.spec_count_committed() as u32;
    lemma_byte_offset_mono(0, count);
    assert(d2.subrange(0, LOG_HEADER_SIZE as int) =~= d1.subrange(0, LOG_HEADER_SIZE as int));
    assert forall|o: u32|
        #![trigger spec_frame_page_no(d2, o)]
        #![trigger spec_frame_payload(d2, o)]
        #![trigger spec_frame_trailer_no(d2, o)]
        #![trigger spec_frame_size_after(d2, o)]
        o < h.spec_count_committed() implies spec_frame_payload(d2, o) == spec_frame_payload(
        d1,
        o,
    ) && spec_frame_page_no(d2, o) == spec_frame_page_no(d1, o) && spec_frame_trailer_no(d2, o)
        == spec_frame_trailer_no(d1, o) && spec_frame_size_after(d2, o) == spec_frame_size_after(
        d1,
        o,
    ) by {
        lemma_byte_offset_mono(o, count);
        crate::frame::lemma_frame_unchanged(d1, d2, o);
    }
    assert forall|i: int|
        0 <= i < index.entries@.len() implies #[trigger] spec_frame_page_no(
        d2,
        index.entries@[i].1,
    ) == index.entries@[i].0 by {
        let o = index.entries@[i].1;
        assert(o < h.spec_count_committed());
        assert(spec_frame_page_no(d2, o) == spec_frame_page_no(d1, o));
    }
    assert forall|k: int| 0 <= k < boundaries.len() implies complete_at(
        h,
        d2,
        index,
        #[trigger] boundaries[k],
    ) by {
        assert(complete_at(h, d1, index, boundaries[k]));
        lemma_complete_preserved(h, h, index, boundaries[k], d1, d2);
    }
}

/// A live segment held as its file image plus in-memory state.
pub struct Log {
    /// The segment header, mirrored at offset 0 of `data`.
    pub header: LogHeader,
    /// The segment file image.
    pub data: Vec<u8>,
    /// In-memory page index over committed frames.
    pub index: PageIndex,
    /// Number of read transactions pinned to this segment.
    pub read_locks: u64,
    /// Set once the segment has been sealed; a sealed segment refuses
    /// writes.
    pub sealed: bool,
    /// Frame numbers at which commits were published.
    pub boundaries: Ghost<Seq<u64>>,
}

impl Log {
    /// Internal consistency of the live segment.
    pub open spec fn wf(self) -> bool {
        &&& self.header.wf()
        &&& self.header.index_offset == 0
        &&& frames_wf(self.header, self.data@)
        &&& index_wf(self.header, self.data@, self.index)
        &&& boundaries_wf(self.header, self.data@, self.index, self.boundaries@)
    }

    /// Number of committed frames.
    pub open spec fn spec_count(self) -> u64 {
        self.header.spec_count_committed()
    }

    /// Creates a fresh, empty segment whose first frame will be
    /// `start_frame_no`.
    pub fn create(start_frame_no: u64, db_size: u32) -> (r: Log)
        requires
            1 <= start_frame_no < 0x7fff_ffff_fff0_0000u64,
        ensures
            r.wf(),
            r.header == (LogHeader {
                start_frame_no,
                last_committed_frame_no: 0,
                db_size,
                index_offset: 0,
                index_size: 0,
            }),
            r.spec_count() == 0,
            r.index.entries@.len() == 0,
            r.read_locks == 0,
            !r.sealed,
            r.boundaries@ =~= Seq::<u64>::empty(),
    {
        let header = LogHeader {
            start_frame_no,
            last_committed_frame_no: 0,
            db_size,
            index_offset: 0,
            index_size: 0,
        };
        let data = header.to_bytes();
        let r = Log {
            header,
            data,
            index: PageIndex::new(),
            read_locks: 0,
            sealed: false,
            boundaries: Ghost(Seq::empty()),
        };
        proof {
            assert(r.data@.subrange(0, LOG_HEADER_SIZE as int) =~= header.spec_encode());
            assert((0u32 as u64) * (FRAME_SIZE as u64) == 0) by (nonlinear_arith);
            assert(spec_byte_offset(0) == LOG_HEADER_SIZE);
        }
        r
    }

    /// True iff no frame has been committed.
    pub fn is_empty(&self) -> (r: bool)
        requires
            self.wf(),
        ensures
            r == (self.spec_count() == 0),
    {
        self.header.count_committed() == 0
    }

    /// The snapshot a new reader takes: the last committed frame number
    /// and the committed database size.
    pub fn begin_read_infos(&self) -> (r: (u64, u32))
        requires
            self.wf(),
        ensures
            r.0 == self.header.spec_last_committed(),
            r.1 == self.header.db_size,
    {
        (self.header.last_committed(), self.header.db_size)
    }

    /// The last committed frame number visible through this segment.
    pub fn last_committed(&self) -> (r: u64)
        requires
            self.wf(),
        ensures
            r == self.header.spec_last_committed(),
    {
        self.header.last_committed()
    }

    /// The number the next appended frame will take.
    pub fn next_frame_no(&self) -> (r: u64)
        requires
            self.wf(),
        ensures
            r == self.header.spec_next_frame_no(),
    {
        self.header.next_frame_no()
    }

    /// Number of committed frames.
    pub fn count_committed(&self) -> (r: u64)
        requires
            self.wf(),
        ensures
            r == self.spec_count(),
    {
        self.header.count_committed()
    }

    /// The committed database size in pages.
    pub fn db_size(&self) -> (r: u32)
        requires
            self.wf(),
        ensures
            r == self.header.db_size,
    {
        self.header.db_size
    }

    /// The slot holding the newest view of `page_no` that `tx` may
    /// observe: a write transaction sees its own uncommitted writes first,
    /// then both modes see the newest committed frame within the
    /// transaction's snapshot.
    pub fn find_frame(&self, page_no: u32, tx: &Transaction) -> (r: Option<u32>)
        requires
            self.wf(),
        ensures
            r == self.spec_find_frame(page_no, *tx),
    {
        if let Transaction::Write(ref wtx) = tx {
            if let Some(offset) = wtx.find_frame(page_no) {
                return Some(offset);
            }
        }
        self.index.locate(page_no, self.header.start_frame_no, tx.read_ref().max_frame_no)
    }

    /// What `find_frame` returns.
    pub open spec fn spec_find_frame(self, page_no: u32, tx: Transaction) -> Option<u32> {
        let committed = spec_locate(
            self.index.entries@,
            page_no,
            self.header.start_frame_no,
            tx.spec_read().max_frame_no,
        );
        match tx {
            Transaction::Write(wtx) => {
                if crate::transaction::spec_tx_find(wtx.savepoints@, page_no) is Some {
                    crate::transaction::spec_tx_find(wtx.savepoints@, page_no)
                } else {
                    committed
                }
            },
            Transaction::Read(_) => committed,
        }
    }

    /// Appends an ordered batch of pages as frames at the transaction's
    /// write position.  `size_after` is present iff this batch completes a
    /// commit: it is stamped into the last frame's header, and the commit
    /// publishes a new segment header — the last state to change — then
    /// merges the transaction's records into the segment index.  Without
    /// `size_after`, nothing a reader can observe changes.
    #[verifier::rlimit(100)]
    #[verifier::spinoff_prover]
    pub fn insert_pages(
        &mut self,
        pages: &Vec<(u32, Vec<u8>)>,
        size_after: Option<u32>,
        tx: &mut WriteTransaction,
    ) -> (r: Result<(), WalError>)
        requires
            old(self).wf(),
            old(tx).wf(),
            !old(tx).is_commited,
            wf_pending(*old(self), *old(tx)),
            forall|k: int| 0 <= k < pages@.len() ==> (#[trigger] pages@[k]).1@.len() == PAGE_SIZE,
            old(tx).next_offset + pages@.len() <= MAX_SEGMENT_FRAMES,
        ensures
            old(self).sealed ==> r == Err::<(), WalError>(WalError::ReadOnly) && *final(self)
                == *old(self) && *final(tx) == *old(tx),
            !old(self).sealed ==> ({
                let base = old(tx).next_offset;
                let n = pages@.len() as int;
                let start = old(self).header.start_frame_no;
                let records = spec_batch_records(base, pages@);
                &&& r is Ok
                &&& final(self).wf()
                &&& final(tx).wf()
                &&& !final(self).sealed
                &&& final(self).read_locks == old(self).read_locks
                &&& final(self).header.start_frame_no == start
                &&& final(tx).id == old(tx).id
                &&& final(tx).read_tx == old(tx).read_tx
                &&& final(tx).next_offset == base + n
                &&& final(tx).next_frame_no == start + base + n
                &&& final(tx).is_commited == (size_after is Some)
                &&& final(tx).savepoints@.len() == old(tx).savepoints@.len()
                &&& spec_concat_savepoints(final(tx).savepoints@) == spec_concat_savepoints(
                    old(tx).savepoints@,
                ) + records
                &&& spec_batch_ok(final(self).data@, start, base, pages@, size_after)
                &&& final(self).data@.len() >= old(self).data@.len()
                &&& forall|i: int|
                    LOG_HEADER_SIZE <= i < spec_byte_offset(base) ==> final(self).data@[i] == old(
                        self,
                    ).data@[i]
                &&& (if size_after is None {
                    &&& final(self).header == old(self).header
                    &&& final(self).index == old(self).index
                    &&& final(self).boundaries == old(self).boundaries
                    &&& wf_pending(*final(self), *final(tx))
                } else if n == 0 && spec_concat_savepoints(old(tx).savepoints@).len() == 0 {
                    &&& final(self).header == old(self).header
                    &&& final(self).index == old(self).index
                    &&& final(self).boundaries == old(self).boundaries
                } else {
                    &&& final(self).header == (LogHeader {
                        last_committed_frame_no: (start + base + n - 1) as u64,
                        db_size: size_after.unwrap(),
                        ..old(self).header
                    })
                    &&& final(self).index.entries@ == old(self).index.entries@
                        + spec_concat_savepoints(final(tx).savepoints@)
                    &&& final(self).boundaries@ == old(self).boundaries@.push(
                        (start + base + n - 1) as u64,
                    )
                })
            }),
    {
        if self.sealed {
            return Err(WalError::ReadOnly);
        }
        let ghost base = tx.next_offset;
        let ghost start = self.header.start_frame_no;
        let n = pages.len();
        proof {
            lemma_byte_offset_mono(base, (base + pages@.len()) as u32);
            lemma_byte_offset_mono((base + pages@.len()) as u32, MAX_SEGMENT_FRAMES as u32);
            assert(spec_concat_savepoints(tx.savepoints@) =~= spec_concat_savepoints(
                tx.savepoints@,
            ) + spec_batch_records(base, pages@.take(0)));
        }
        let mut k: usize = 0;
        assert(spec_batch_ok_upto(self.data@, start, base, pages@, size_after, 0));
        while k < n
            invariant
                old(self).wf(),
                old(tx).wf(),
                !old(self).sealed,
                wf_pending(*old(self), *old(tx)),
                forall|j: int|
                    0 <= j < pages@.len() ==> (#[trigger] pages@[j]).1@.len() == PAGE_SIZE,
                base == old(tx).next_offset,
                start == old(self).header.start_frame_no,
                n == pages@.len(),
                base + n <= MAX_SEGMENT_FRAMES,
                k <= n,
                // unchanged segment state
                self.header == old(self).header,
                self.index == old(self).index,
                self.boundaries == old(self).boundaries,
                self.sealed == old(self).sealed,
                self.read_locks == old(self).read_locks,
                // transaction advance
                tx.wf(),
                !tx.is_commited,
                tx.id == old(tx).id,
                tx.read_tx == old(tx).read_tx,
                tx.next_offset == base + k,
                tx.next_frame_no == start + base + k,
                tx.savepoints@.len() == old(tx).savepoints@.len(),
                spec_concat_savepoints(tx.savepoints@) == spec_concat_savepoints(
                    old(tx).savepoints@,
                ) + spec_batch_records(base, pages@.take(k as int)),
                // image evolution
                self.wf(),
                wf_pending(*self, *tx),
                self.data@.len() >= old(self).data@.len(),
                forall|i: int|
                    0 <= i < spec_byte_offset(base) && i < old(self).data@.len() ==> self.data@[i]
                        == old(self).data@[i],
                spec_batch_ok_upto(self.data@, start, base, pages@, size_after, k as int),
            decreases n - k,
        {
            let ghost pre_self = *self;
            let ghost pre_tx = *tx;
            let page_no = pages[k].0;
            let sa: u32 = match size_after {
                Some(s) => if k == n - 1 {
                    s
                } else {
                    0
                },
                None => 0,
            };
            let fno = tx.next_frame_no;
            let offset = tx.next_offset;
            let ghost pre = self.data@;
            let ghost count = self.header.spec_count_committed() as u32;
            let fb = build_frame(page_no, sa, &pages[k].1, fno);
            proof {
                lemma_byte_offset_mono(count, base);
                lemma_byte_offset_mono(base, offset);
                crate::frame::lemma_byte_offset_succ(offset);
                lemma_byte_offset_mono((offset + 1) as u32, MAX_SEGMENT_FRAMES as u32);
                lemma_frame_write(pre, offset, page_no, sa, pages@[k as int].1@, fno);
            }
            let at = byte_offset_usize(offset);
            self.data = write_at(&self.data, at, &fb);
            proof {
                assert(self.data@ == spec_write_at(
                    pre,
                    spec_byte_offset(offset) as int,
                    crate::frame::spec_frame_bytes(page_no, sa, pages@[k as int].1@, fno),
                ));
                // nothing below this frame's slot moved
                lemma_seg_preserved(self.header, self.index, self.boundaries@, pre, self.data@);
                // the batch frames written so far, and every pending
                // record, keep their bytes
                assert forall|o: u32|
                    #![trigger spec_frame_page_no(self.data@, o)]
                    base <= o < base + k implies {
                    &&& spec_frame_page_no(self.data@, o) == spec_frame_page_no(pre, o)
                    &&& spec_frame_payload(self.data@, o) == spec_frame_payload(pre, o)
                    &&& spec_frame_trailer_no(self.data@, o) == spec_frame_trailer_no(pre, o)
                    &&& spec_frame_size_after(self.data@, o) == spec_frame_size_after(pre, o)
                } by {
                    lemma_byte_offset_mono((o + 1) as u32, offset);
                    crate::frame::lemma_byte_offset_succ(o);
                    crate::frame::lemma_frame_unchanged(pre, self.data@, o);
                }
                let pend = spec_concat_savepoints(pre_tx.savepoints@);
                assert forall|j: int|
                    #![trigger pend[j]]
                    0 <= j < pend.len() implies {
                    &&& spec_frame_page_no(self.data@, pend[j].1) == spec_frame_page_no(
                        pre,
                        pend[j].1,
                    )
                    &&& spec_frame_trailer_no(self.data@, pend[j].1) == spec_frame_trailer_no(
                        pre,
                        pend[j].1,
                    )
                } by {
                    crate::transaction::lemma_pend_below(pre_tx, j);
                    lemma_byte_offset_mono((pend[j].1 + 1) as u32, offset);
                    crate::frame::lemma_byte_offset_succ(pend[j].1);
                    crate::frame::lemma_frame_unchanged(pre, self.data@, pend[j].1);
                }
            }
            let spi = tx.savepoints.len() - 1;
            let ghost old_sp = tx.savepoints@;
            let sp = vstd::std_specs::vec::vec_index_mut(&mut tx.savepoints, spi);
            proof {
                assert(old_sp[spi as int] == old_sp.last());
            }
            sp.index.push(page_no, offset);
            tx.next_offset = offset + 1;
            tx.next_frame_no = fno + 1;
            proof {
                let new_sp = tx.savepoints@;
                assert(new_sp.last().index.entries@ == old_sp.last().index.entries@.push(
                    (page_no, offset),
                ));
                crate::transaction::lemma_concat_push_last(old_sp, new_sp, (page_no, offset));
                assert(spec_batch_records(base, pages@.take(k + 1)) =~= spec_batch_records(
                    base,
                    pages@.take(k as int),
                ).push((pages@[k as int].0, (base + k) as u32)));
                assert(spec_concat_savepoints(new_sp) =~= spec_concat_savepoints(
                    old(tx).savepoints@,
                ) + spec_batch_records(base, pages@.take(k + 1)));
                // the transaction's stack stays well-formed
                assert forall|i: int| 0 <= i < new_sp.len() implies (
                #[trigger] new_sp[i]).index.wf() && new_sp[i].index.all_at_least(
                    new_sp[i].next_offset as int,
                ) by {
                    if i < new_sp.len() - 1 {
                        assert(new_sp[i] == old_sp[i]);
                    }
                }
                assert(new_sp.last().next_offset == old_sp.last().next_offset);
                assert(new_sp.last().index.all_below(tx.next_offset as int));
                assert forall|i: int, j2: int|
                    0 <= i < j2 < new_sp.len() implies (#[trigger] new_sp[i]).next_offset <= (
                #[trigger] new_sp[j2]).next_offset by {
                    assert(old_sp[i].next_offset <= old_sp[j2].next_offset);
                    assert(new_sp[i].next_offset == old_sp[i].next_offset);
                    assert(new_sp[j2].next_offset == old_sp[j2].next_offset);
                }
                assert forall|i: int|
                    0 <= i < new_sp.len() - 1 implies (#[trigger] new_sp[i]).index.all_below(
                    new_sp[i + 1].next_offset as int,
                ) by {
                    assert(new_sp[i] == old_sp[i]);
                    assert(new_sp[i + 1].next_offset == old_sp[i + 1].next_offset);
                }
                assert(tx.wf());
                // the batch so far stands in the image
                assert forall|j: int| #![trigger pages@[j]] 0 <= j < k + 1 implies {
                    let o = (base + j) as u32;
                    &&& spec_frame_page_no(self.data@, o) == pages@[j].0
                    &&& spec_frame_payload(self.data@, o) == spec_stored_page(
                        pages@[j].1@,
                        (start + o) as u64,
                    )
                    &&& spec_frame_trailer_no(self.data@, o) == start + o
                    &&& spec_frame_size_after(self.data@, o) == if size_after is Some && j == n - 1 {
                        size_after.unwrap()
                    } else {
                        0u32
                    }
                } by {
                    if j < k {
                        assert(spec_frame_page_no(self.data@, ((base + j) as u32))
                            == spec_frame_page_no(pre, ((base + j) as u32)));
                    } else {
                        assert((base + j) as u32 == offset);
                    }
                }
                assert(spec_batch_ok_upto(self.data@, start, base, pages@, size_after, k + 1));
                // pending writes remain recorded and truthful
                let pend2 = spec_concat_savepoints(new_sp);
                assert forall|j: int|
                    #![trigger pend2[j]]
                    0 <= j < pend2.len() implies {
                    &&& spec_frame_page_no(self.data@, pend2[j].1) == pend2[j].0
                    &&& spec_frame_trailer_no(self.data@, pend2[j].1)
                        == self.header.start_frame_no + pend2[j].1
                } by {
                    let pend = spec_concat_savepoints(pre_tx.savepoints@);
                    if j < pend.len() {
                        assert(pend2[j] == pend[j]);
                    } else {
                        assert(pend2[j] == (page_no, offset));
                    }
                }
                assert forall|o: u32|
                    self.spec_count() <= o < tx.next_offset implies #[trigger] spec_covered(
                    pend2,
                    o,
                ) by {
                    let pend = spec_concat_savepoints(pre_tx.savepoints@);
                    assert(pend2 == pend.push((page_no, offset)));
                    if o < offset {
                        assert(wf_pending(pre_self, pre_tx));
                        assert(spec_covered(pend, o));
                        let j = choose|j: int| 0 <= j < pend.len() && (#[trigger] pend[j]).1 == o;
                        assert(pend2[j].1 == o);
                    } else {
                        assert(pend2[pend2.len() - 1].1 == o);
                    }
                }
                assert(wf_pending(*self, *tx));
            }
            k = k + 1;
        }
        proof {
            assert(pages@.take(n as int) =~= pages@);
        }
        if let Some(s) = size_after {
            let merged = tx.merged_index();
            if merged.is_empty() {
                proof {
                    assert(spec_concat_savepoints(old(tx).savepoints@).len() == 0);
                    assert(spec_batch_records(base, pages@).len() == 0);
                }
                tx.is_commited = true;
                return Ok(());
            }
            let mut h = self.header;
            proof {
                assert(spec_concat_savepoints(tx.savepoints@).len() > 0);
                crate::transaction::lemma_pend_below(*tx, 0);
                assert(base + n >= 1);
            }
            h.last_committed_frame_no = tx.next_frame_no - 1;
            h.db_size = s;
            let hb = h.to_bytes();
            let ghost d1 = self.data@;
            let ghost h0 = self.header;
            let ghost idx0 = self.index;
            let ghost bd0 = self.boundaries@;
            let ghost count0 = h0.spec_count_committed() as u32;
            let ghost count2 = (base + n) as u32;
            self.data = write_at(&self.data, 0, &hb);
            let ghost d2 = self.data@;
            proof {
                assert(d2.len() == d1.len());
                assert(d2.subrange(0, LOG_HEADER_SIZE as int) =~= hb@);
                assert forall|o: u32|
                    #![trigger spec_frame_page_no(d2, o)]
                    #![trigger spec_frame_payload(d2, o)]
                    #![trigger spec_frame_trailer_no(d2, o)]
                    #![trigger spec_frame_size_after(d2, o)]
                    o < count2 implies {
                    &&& spec_frame_page_no(d2, o) == spec_frame_page_no(d1, o)
                    &&& spec_frame_payload(d2, o) == spec_frame_payload(d1, o)
                    &&& spec_frame_trailer_no(d2, o) == spec_frame_trailer_no(d1, o)
                    &&& spec_frame_size_after(d2, o) == spec_frame_size_after(d1, o)
                } by {
                    lemma_byte_offset_mono(o, o);
                    crate::frame::lemma_byte_offset_succ(o);
                    lemma_byte_offset_mono((o + 1) as u32, count2);
                    crate::frame::lemma_frame_unchanged(d1, d2, o);
                }
                assert forall|i: int, j: int|
                    0 <= i < idx0.entries@.len() && 0 <= j < merged.entries@.len() implies (
                #[trigger] idx0.entries@[i]).1 < (#[trigger] merged.entries@[j]).1 by {
                    assert(idx0.entries@[i].1 < count0);
                    assert(merged.entries@[j].1 >= count0);
                }
            }
            self.index.append_all(&merged);
            self.header = h;
            self.boundaries = Ghost(self.boundaries@.push(h.last_committed_frame_no));
            tx.is_commited = true;
            proof {
                let idx2 = self.index;
                let pend = spec_concat_savepoints(tx.savepoints@);
                assert(merged.entries@ == pend);
                lemma_header_roundtrip(h, d2);
                // every newly committed frame carries its own number
                assert forall|o: u32|
                    count0 <= o < count2 implies #[trigger] spec_frame_trailer_no(d1, o)
                    == start + o by {
                    assert(spec_covered(pend, o));
                    let j = choose|j: int| 0 <= j < pend.len() && (#[trigger] pend[j]).1 == o;
                    assert(spec_frame_trailer_no(d1, pend[j].1) == start + pend[j].1);
                }
                assert(frames_wf(h, d2));
                // the merged records are truthful on the new image
                assert forall|i: int|
                    0 <= i < idx2.entries@.len() implies #[trigger] spec_frame_page_no(
                    d2,
                    idx2.entries@[i].1,
                ) == idx2.entries@[i].0 by {
                    if i < idx0.entries@.len() {
                        assert(idx2.entries@[i] == idx0.entries@[i]);
                        assert(idx0.entries@[i].1 < count0);
                    } else {
                        assert(idx2.entries@[i] == pend[i - idx0.entries@.len()]);
                        crate::transaction::lemma_pend_below(*tx, i - idx0.entries@.len());
                    }
                }
                assert(index_wf(h, d2, idx2));
                // the index stays complete at every old boundary ...
                assert forall|bi: int| 0 <= bi < bd0.len() implies complete_at(
                    h,
                    d2,
                    idx2,
                    #[trigger] bd0[bi],
                ) by {
                    let b = bd0[bi];
                    assert(complete_at(h0, d1, idx0, b));
                    assert forall|o: u32|
                        o < h.spec_count_committed() && h.start_frame_no + o <= b implies
                        #[trigger] found_within(h, idx2, spec_frame_page_no(d2, o), o, b) by {
                        assert(o < count0);
                        assert(found_within(h0, idx0, spec_frame_page_no(d1, o), o, b));
                        assert(spec_frame_page_no(d1, o) == spec_frame_page_no(d2, o));
                        lemma_found_extend(
                            h0,
                            h,
                            idx0,
                            idx2,
                            spec_frame_page_no(d2, o),
                            o,
                            b,
                            b,
                        );
                    }
                }
                // ... and at the newly published one
                assert forall|o: u32|
                    o < h.spec_count_committed() && h.start_frame_no + o
                        <= h.last_committed_frame_no implies #[trigger] found_within(
                    h,
                    idx2,
                    spec_frame_page_no(d2, o),
                    o,
                    h.last_committed_frame_no,
                ) by {
                    assert(spec_frame_page_no(d1, o) == spec_frame_page_no(d2, o));
                    if o < count0 {
                        assert(bd0.len() > 0 && bd0.last() == h0.last_committed_frame_no);
                        assert(complete_at(h0, d1, idx0, h0.last_committed_frame_no));
                        assert(h0.start_frame_no + o <= h0.last_committed_frame_no);
                        assert(found_within(
                            h0,
                            idx0,
                            spec_frame_page_no(d1, o),
                            o,
                            h0.last_committed_frame_no,
                        ));
                        lemma_found_extend(
                            h0,
                            h,
                            idx0,
                            idx2,
                            spec_frame_page_no(d2, o),
                            o,
                            h0.last_committed_frame_no,
                            h.last_committed_frame_no,
                        );
                    } else {
                        assert(spec_covered(pend, o));
                        let j = choose|j: int| 0 <= j < pend.len() && (#[trigger] pend[j]).1 == o;
                        let i = idx0.entries@.len() + j;
                        assert(idx2.entries@[i] == pend[j]);
                        assert(spec_frame_page_no(d1, pend[j].1) == pend[j].0);
                        assert(0 <= i < idx2.entries@.len() && idx2.entries@[i].0
                            == spec_frame_page_no(d2, o) && idx2.entries@[i].1 >= o
                            && h.start_frame_no + idx2.entries@[i].1
                            <= h.last_committed_frame_no);
                    }
                }
                assert(boundaries_wf(h, d2, idx2, self.boundaries@));
                // the batch is still in place after the header write
                assert forall|k2: int| #![trigger pages@[k2]] 0 <= k2 < pages@.len() implies {
                    let o = (base + k2) as u32;
                    &&& spec_frame_page_no(d2, o) == pages@[k2].0
                    &&& spec_frame_payload(d2, o) == spec_stored_page(
                        pages@[k2].1@,
                        (start + o) as u64,
                    )
                    &&& spec_frame_trailer_no(d2, o) == start + o
                    &&& spec_frame_size_after(d2, o) == if size_after is Some && k2
                        == pages@.len() - 1 {
                        size_after.unwrap()
                    } else {
                        0u32
                    }
                } by {
                    assert(spec_frame_page_no(d1, (base + k2) as u32) == pages@[k2].0);
                    assert(spec_frame_page_no(d2, (base + k2) as u32) == spec_frame_page_no(
                        d1,
                        (base + k2) as u32,
                    ));
                }
                assert(spec_batch_ok_upto(d2, start, base, pages@, size_after, n as int));
            }
        }
        Ok(())
    }

    /// The index a frame scan of the image rebuilds: slot after slot, each
    /// committed frame's page number.
    pub open spec fn spec_scan_index(data: Seq<u8>) -> Seq<(u32, u32)> {
        Seq::new(
            LogHeader::spec_decode(data).spec_count_committed() as nat,
            |o: int| (spec_frame_page_no(data, o as u32), o as u32),
        )
    }

    /// A file image a live segment can be rebuilt from: long enough for
    /// its header and committed frames, header fields in range, and every
    /// committed frame's stored frame number equal to its slot's.
    pub open spec fn spec_recoverable(data: Seq<u8>) -> bool {
        let h = LogHeader::spec_decode(data);
        &&& data.len() >= LOG_HEADER_SIZE
        &&& data.len() <= 0xffff_ffff
        &&& 1 <= h.start_frame_no < 0x7fff_ffff_fff0_0000u64
        &&& h.last_committed_frame_no < 0x7fff_ffff_ffff_ffffu64
        &&& (h.last_committed_frame_no == 0 || (h.start_frame_no <= h.last_committed_frame_no
            && h.last_committed_frame_no - h.start_frame_no + 1 <= MAX_SEGMENT_FRAMES))
        &&& spec_byte_offset(h.spec_count_committed() as u32) <= data.len()
        &&& forall|o: u32|
            o < h.spec_count_committed() ==> #[trigger] spec_frame_trailer_no(data, o)
                == h.start_frame_no + o
    }

    /// Rebuilds a live segment from a file image by scanning its frames:
    /// the header is decoded and its index fields cleared, and each
    /// committed frame's stored frame number is validated against its slot
    /// before the slot is indexed.  This is how a segment whose index was
    /// never published — or whose index should not be trusted — comes
    /// back.
    pub fn recover(data: Vec<u8>) -> (r: Result<Log, WalError>)
        ensures
            r is Ok <==> Log::spec_recoverable(data@),
            r is Err ==> r == Err::<Log, WalError>(WalError::Corruption),
            r matches Ok(log) ==> {
                let h0 = LogHeader::spec_decode(data@);
                &&& log.wf()
                &&& !log.sealed
                &&& log.read_locks == 0
                &&& log.header.start_frame_no == h0.start_frame_no
                &&& log.header.last_committed_frame_no == h0.last_committed_frame_no
                &&& log.header.db_size == h0.db_size
                &&& log.header.index_offset == 0
                &&& log.header.index_size == 0
                &&& forall|o: u32|
                    o < log.spec_count() ==> #[trigger] spec_frame_payload(log.data@, o)
                        == spec_frame_payload(data@, o)
                &&& log.index.entries@ == Log::spec_scan_index(data@)
            },
    {
        let h0 = match LogHeader::from_bytes(&data) {
            Ok(h) => h,
            Err(e) => {
                return Err(e);
            },
        };
        if h0.start_frame_no < 1 || h0.start_frame_no >= 0x7fff_ffff_fff0_0000u64
            || h0.last_committed_frame_no >= 0x7fff_ffff_ffff_ffffu64 {
            return Err(WalError::Corruption);
        }
        if h0.last_committed_frame_no != 0 && (h0.last_committed_frame_no < h0.start_frame_no
            || h0.last_committed_frame_no - h0.start_frame_no + 1 > MAX_SEGMENT_FRAMES) {
            return Err(WalError::Corruption);
        }
        let mut h = h0;
        h.index_offset = 0;
        h.index_size = 0;
        let count64 = h.count_committed();
        let count = count64 as u32;
        proof {
            assert(count <= MAX_SEGMENT_FRAMES as u32);
            lemma_byte_offset_mono(count, MAX_SEGMENT_FRAMES as u32);
            assert((MAX_SEGMENT_FRAMES as u32 as u64) * (FRAME_SIZE as u64) <= 0xffff_0000u64)
                by (nonlinear_arith)
                requires
                    MAX_SEGMENT_FRAMES == 262143u64,
                    FRAME_SIZE == 4104usize,
            ;
            assert(spec_byte_offset(MAX_SEGMENT_FRAMES as u32) <= 0xffff_ffffu64);
        }
        if data.len() > 0xffff_ffff {
            return Err(WalError::Corruption);
        }
        let frames_end = byte_offset_usize(count);
        if frames_end > data.len() {
            return Err(WalError::Corruption);
        }
        let hb = h.to_bytes();
        let d2 = write_at(&data, 0, &hb);
        proof {
            assert(d2@.subrange(0, LOG_HEADER_SIZE as int) =~= hb@);
            lemma_header_roundtrip(h, d2@);
            assert forall|o: u32|
                #![trigger spec_frame_page_no(d2@, o)]
                #![trigger spec_frame_payload(d2@, o)]
                #![trigger spec_frame_trailer_no(d2@, o)]
                o < count implies spec_frame_page_no(d2@, o) == spec_frame_page_no(data@, o)
                && spec_frame_payload(d2@, o) == spec_frame_payload(data@, o)
                && spec_frame_trailer_no(d2@, o) == spec_frame_trailer_no(data@, o) by {
                lemma_byte_offset_mono(o, count);
                crate::frame::lemma_byte_offset_succ(o);
                lemma_byte_offset_mono((o + 1) as u32, count);
                assert(spec_byte_offset(count) <= data@.len());
                assert(spec_byte_offset(o) + FRAME_SIZE <= data@.len());
                assert(d2@.len() == data@.len());
                crate::frame::lemma_frame_unchanged(data@, d2@, o);
            }
        }
        proof {
            assert(LogHeader::spec_decode(data@) == h0);
        }
        let mut index = PageIndex::new();
        let mut o: u32 = 0;
        while o < count
            invariant
                o <= count,
                count == h.spec_count_committed(),
                h.wf(),
                h.index_offset == 0,
                h.index_size == 0,
                spec_byte_offset(count) <= d2@.len() <= 0xffff_ffff,
                d2@.subrange(0, LOG_HEADER_SIZE as int) == h.spec_encode(),
                // ties back to the raw image, for the success condition
                LogHeader::spec_decode(data@) == h0,
                h.start_frame_no == h0.start_frame_no,
                h.last_committed_frame_no == h0.last_committed_frame_no,
                h.db_size == h0.db_size,
                data@.len() >= LOG_HEADER_SIZE,
                data@.len() <= 0xffff_ffff,
                spec_byte_offset(count) <= data@.len(),
                1 <= h.start_frame_no < 0x7fff_ffff_fff0_0000u64,
                forall|o2: u32|
                    o2 < count ==> #[trigger] spec_frame_trailer_no(d2@, o2)
                        == spec_frame_trailer_no(data@, o2),
                index.entries@.len() == o,
                forall|j: int|
                    0 <= j < o ==> #[trigger] index.entries@[j] == (
                        spec_frame_page_no(d2@, j as u32),
                        j as u32,
                    ),
                index.wf(),
                index.all_below(o as int),
                forall|j: u32|
                    j < o ==> #[trigger] spec_frame_trailer_no(d2@, j) == h.start_frame_no + j,
            decreases count - o,
        {
            proof {
                lemma_byte_offset_mono(o, count);
                crate::frame::lemma_byte_offset_succ(o);
                lemma_byte_offset_mono((o + 1) as u32, count);
            }
            let fb = read_range(&d2, byte_offset_usize(o), 4);
            let page_no = vstd::bytes::u32_from_le_bytes(fb.as_slice());
            let trailer = crate::codec::u64_from_be_at(
                &d2,
                page_offset_usize(o) + (PAGE_SIZE - 8),
            );
            proof {
                assert(fb@ =~= d2@.subrange(
                    spec_byte_offset(o) as int,
                    spec_byte_offset(o) + 4,
                ));
                assert(d2@.subrange(
                    spec_page_offset(o) + PAGE_SIZE - 8,
                    spec_page_offset(o) + PAGE_SIZE as int,
                ) =~= d2@.subrange(
                    (spec_page_offset(o) + (PAGE_SIZE - 8)) as int,
                    (spec_page_offset(o) + (PAGE_SIZE - 8)) + 8,
                ));
            }
            if trailer != h.start_frame_no + (o as u64) {
                proof {
                    assert(trailer == spec_frame_trailer_no(d2@, o));
                    assert(spec_frame_trailer_no(d2@, o) == spec_frame_trailer_no(data@, o));
                    assert(spec_frame_trailer_no(data@, o) != h0.start_frame_no + o);
                    assert(!Log::spec_recoverable(data@));
                }
                return Err(WalError::Corruption);
            }
            index.push(page_no, o);
            o = o + 1;
        }
        proof {
            assert forall|o2: u32|
                o2 < h0.spec_count_committed() implies #[trigger] spec_frame_trailer_no(
                data@,
                o2,
            ) == h0.start_frame_no + o2 by {
                assert(spec_frame_trailer_no(d2@, o2) == h.start_frame_no + o2);
                assert(spec_frame_trailer_no(d2@, o2) == spec_frame_trailer_no(data@, o2));
            }
            assert(Log::spec_recoverable(data@));
        }
        let log = Log {
            header: h,
            data: d2,
            index,
            read_locks: 0,
            sealed: false,
            boundaries: Ghost(
                if h.last_committed_frame_no != 0 {
                    seq![h.last_committed_frame_no]
                } else {
                    Seq::empty()
                },
            ),
        };
        proof {
            assert(frames_wf(log.header, log.data@));
            assert forall|i: int|
                0 <= i < log.index.entries@.len() implies #[trigger] spec_frame_page_no(
                log.data@,
                log.index.entries@[i].1,
            ) == log.index.entries@[i].0 by {
                assert(log.index.entries@[i] == (spec_frame_page_no(log.data@, i as u32), i as u32));
            }
            assert(index_wf(log.header, log.data@, log.index));
            if h.last_committed_frame_no != 0 {
                assert(log.boundaries@.last() == h.last_committed_frame_no);
                assert forall|o2: u32|
                    o2 < h.spec_count_committed() && h.start_frame_no + o2
                        <= h.last_committed_frame_no implies #[trigger] found_within(
                    h,
                    log.index,
                    spec_frame_page_no(log.data@, o2),
                    o2,
                    h.last_committed_frame_no,
                ) by {
                    assert(log.index.entries@[o2 as int] == (
                        spec_frame_page_no(log.data@, o2),
                        o2,
                    ));
                }
                assert(complete_at(h, log.data@, log.index, h.last_committed_frame_no));
            }
            assert(boundaries_wf(log.header, log.data@, log.index, log.boundaries@));
        }
        Ok(log)
    }

    /// Seals the segment: the sealed flag flips first, the page index is
    /// serialized as an fst blob after the last committed frame, and a
    /// header carrying the blob's position finishes the sealed image.  The
    /// live segment itself only gains the flag; the sealed form is
    /// returned for the caller to enqueue.
    #[verifier::rlimit(50)]
    pub fn seal(&mut self) -> (r: Result<crate::sealed_log::SealedLog, WalError>)
        requires
            old(self).wf(),
            !old(self).sealed,
        ensures
            *final(self) == (Log { sealed: true, ..*old(self) }),
            // sealing fails only when the serialized index would not fit
            // the sealed image, a function of the page index alone
            r is Err <==> exists|es: Seq<(u32, u64)>|
                spec_packed_index(old(self).index.entries@, es) && crate::sealed_index::fst_encoded_len(es)
                    > MAX_INDEX_BYTES,
            r is Err ==> r == Err::<crate::sealed_log::SealedLog, WalError>(WalError::Io),
            r matches Ok(sl) ==> {
                &&& sl.wf()
                &&& sl.header.start_frame_no == old(self).header.start_frame_no
                &&& sl.header.last_committed_frame_no == old(self).header.last_committed_frame_no
                &&& sl.header.db_size == old(self).header.db_size
                &&& sl.header.index_offset == spec_byte_offset(
                    old(self).header.spec_count_committed() as u32,
                )
                &&& sl.index.entries@ == old(self).index.entries@
                &&& sl.boundaries@ == old(self).boundaries@
                &&& sl.read_locks == old(self).read_locks
                &&& !sl.checkpointed
                &&& forall|o: u32|
                    o < old(self).header.spec_count_committed()
                        ==> #[trigger] spec_frame_payload(sl.data@, o) == spec_frame_payload(
                        old(self).data@,
                        o,
                    )
            },
    {
        self.sealed = true;
        let count64 = self.header.count_committed();
        let count = count64 as u32;
        let pm = self.index.to_page_map();
        let mut b = crate::sealed_index::builder_new();
        let mut entries: Vec<(u32, u64)> = Vec::new();
        let mut i: usize = 0;
        while i < pm.entries.len()
            invariant
                i <= pm.entries@.len(),
                pm.wf(),
                entries@.len() == i,
                forall|j: int|
                    0 <= j < i ==> #[trigger] entries@[j] == (
                        pm.entries@[j].0,
                        crate::codec::spec_index_entry_pack(pm.entries@[j].1, pm.entries@[j].1),
                    ),
                crate::sealed_index::builder_entries(b) == entries@,
            decreases pm.entries@.len() - i,
        {
            let (p, o) = pm.entries[i];
            let v = crate::codec::index_entry_pack(o, o);
            proof {
                assert forall|j: int|
                    0 <= j < crate::sealed_index::builder_entries(b).len() implies (
                #[trigger] crate::sealed_index::builder_entries(b)[j]).0 < p by {
                    assert(crate::sealed_index::builder_entries(b)[j] == entries@[j]);
                    assert(pm.entries@[j].0 < pm.entries@[i as int].0);
                }
            }
            match crate::sealed_index::builder_insert(&mut b, p, v) {
                Ok(()) => {},
                Err(e) => {
                    return Err(e);
                },
            }
            entries.push((p, v));
            i = i + 1;
        }
        let m = crate::sealed_index::builder_into_map(b);
        let blob = crate::sealed_index::map_bytes(&m);
        proof {
            assert forall|a: int, b2: int|
                0 <= a < b2 < entries@.len() implies entries@[a].0 < entries@[b2].0 by {
                assert(pm.entries@[a].0 < pm.entries@[b2].0);
            }
            assert forall|p: u32|
                #[trigger] crate::index::spec_map_get(entries@, p) == match spec_get_last(
                    self.index.entries@,
                    p,
                ) {
                    Some(o) => Some(crate::codec::spec_index_entry_pack(o, o)),
                    None => None::<u64>,
                } by {
                crate::sealed_log::lemma_map_get_packed(pm.entries@, entries@, p);
            }
            assert(spec_packed_index(self.index.entries@, entries@));
            assert(blob@.len() == crate::sealed_index::fst_encoded_len(entries@));
        }
        if blob.len() > MAX_INDEX_BYTES {
            return Err(WalError::Io);
        }
        proof {
            // any sequence in the serialized form is this one, so no other
            // witness can exceed the cap either
            assert forall|es: Seq<(u32, u64)>|
                spec_packed_index(self.index.entries@, es) implies crate::sealed_index::fst_encoded_len(es)
                <= MAX_INDEX_BYTES by {
                assert forall|p: u32|
                    #[trigger] crate::index::spec_map_get(es, p) == crate::index::spec_map_get(
                    entries@,
                    p,
                ) by {}
                crate::index::lemma_sorted_graph_unique(es, entries@);
            }
            lemma_byte_offset_mono(0, count);
            lemma_byte_offset_mono(count, MAX_SEGMENT_FRAMES as u32);
        }
        let index_offset = byte_offset_usize(count);
        let with_blob = write_at(&self.data, index_offset, &blob);
        let mut h = self.header;
        h.index_offset = index_offset as u64;
        h.index_size = blob.len() as u64;
        let hb = h.to_bytes();
        let sealed_data = write_at(&with_blob, 0, &hb);
        let ghost d0 = self.data@;
        let ghost d1 = with_blob@;
        let ghost d2 = sealed_data@;
        proof {
            lemma_seg_preserved(self.header, self.index, self.boundaries@, d0, d1);
            assert(d2.len() == d1.len());
            assert(d2.subrange(0, LOG_HEADER_SIZE as int) =~= hb@);
            assert forall|o: u32|
                #![trigger spec_frame_page_no(d2, o)]
                #![trigger spec_frame_payload(d2, o)]
                #![trigger spec_frame_trailer_no(d2, o)]
                o < self.header.spec_count_committed() implies spec_frame_page_no(d2, o)
                == spec_frame_page_no(d1, o) && spec_frame_payload(d2, o) == spec_frame_payload(
                d1,
                o,
            ) && spec_frame_trailer_no(d2, o) == spec_frame_trailer_no(d1, o) by {
                crate::frame::lemma_byte_offset_succ(o);
                lemma_byte_offset_mono((o + 1) as u32, count);
                crate::frame::lemma_frame_unchanged(d1, d2, o);
            }
            assert(frames_wf(h, d2));
            assert forall|i2: int|
                0 <= i2 < self.index.entries@.len() implies #[trigger] spec_frame_page_no(
                d2,
                self.index.entries@[i2].1,
            ) == self.index.entries@[i2].0 by {
                let o = self.index.entries@[i2].1;
                assert(o < self.header.spec_count_committed());
                assert(spec_frame_page_no(d2, o) == spec_frame_page_no(d1, o));
            }
            assert(index_wf(h, d2, self.index));
            assert forall|bi: int| 0 <= bi < self.boundaries@.len() implies complete_at(
                h,
                d2,
                self.index,
                #[trigger] self.boundaries@[bi],
            ) by {
                assert(complete_at(self.header, d1, self.index, self.boundaries@[bi]));
                lemma_complete_preserved(
                    self.header,
                    h,
                    self.index,
                    self.boundaries@[bi],
                    d1,
                    d2,
                );
            }
            assert(boundaries_wf(h, d2, self.index, self.boundaries@));
            assert(d2.subrange(
                h.index_offset as int,
                h.index_offset + h.index_size,
            ) =~= crate::sealed_index::fst_map_bytes(m));
            assert forall|p: u32|
                #[trigger] crate::index::spec_map_get(entries@, p) == match spec_get_last(
                    self.index.entries@,
                    p,
                ) {
                    Some(o) => Some(crate::codec::spec_index_entry_pack(o, o)),
                    None => None::<u64>,
                } by {
                crate::sealed_log::lemma_map_get_packed(pm.entries@, entries@, p);
            }
            assert forall|a: int, b2: int|
                0 <= a < b2 < entries@.len() implies entries@[a].0 < entries@[b2].0 by {
                assert(pm.entries@[a].0 < pm.entries@[b2].0);
            }
        }
        let index_copy = copy_page_index(&self.index);
        proof {
            assert forall|i2: int|
                0 <= i2 < index_copy.entries@.len() implies #[trigger] spec_frame_page_no(
                d2,
                index_copy.entries@[i2].1,
            ) == index_copy.entries@[i2].0 by {
                assert(index_copy.entries@[i2] == self.index.entries@[i2]);
            }
            assert(index_wf(h, d2, index_copy));
            assert forall|bi: int| 0 <= bi < self.boundaries@.len() implies complete_at(
                h,
                d2,
                index_copy,
                #[trigger] self.boundaries@[bi],
            ) by {
                let b = self.boundaries@[bi];
                assert(complete_at(h, d2, self.index, b));
                assert forall|o: u32|
                    o < h.spec_count_committed() && h.start_frame_no + o <= b implies
                    #[trigger] found_within(
                    h,
                    index_copy,
                    spec_frame_page_no(d2, o),
                    o,
                    b,
                ) by {
                    assert(found_within(h, self.index, spec_frame_page_no(d2, o), o, b));
                    lemma_found_extend(
                        h,
                        h,
                        self.index,
                        index_copy,
                        spec_frame_page_no(d2, o),
                        o,
                        b,
                        b,
                    );
                }
            }
        }
        let sl = crate::sealed_log::SealedLog {
            header: h,
            data: sealed_data,
            index: index_copy,
            fst_index: m,
            entries,
            read_locks: self.read_locks,
            checkpointed: false,
            boundaries: Ghost(self.boundaries@),
        };
        proof {
            assert(sl.wf());
        }
        Ok(sl)
    }

    /// Reads the page image stored in slot `offset`.
    pub fn read_page_offset(&self, offset: u32) -> (r: Vec<u8>)
        requires
            spec_page_offset(offset) + PAGE_SIZE <= self.data@.len(),
            self.data@.len() <= 0xffff_ffff,
        ensures
            r@ == spec_frame_payload(self.data@, offset),
            r@.len() == PAGE_SIZE,
    {
        let at = page_offset_usize(offset);
        read_range(&self.data, at, PAGE_SIZE)
    }
}

/// In a consistent segment, the bounded index search finds exactly the
/// newest committed frame for the page within the snapshot.  `bc` is a
/// bound at which the index is known complete: the snapshot itself when it
/// is one of the segment's commit boundaries, or the segment's last commit
/// when the snapshot covers the whole segment.
pub proof fn lemma_locate_is_newest(
    h: LogHeader,
    data: Seq<u8>,
    index: PageIndex,
    p: u32,
    max: u64,
    bc: u64,
)
    requires
        h.wf(),
        frames_wf(h, data),
        index_wf(h, data, index),
        complete_at(h, data, index, bc),
        bc <= max,
        bc == max || h.start_frame_no + h.spec_count_committed() <= bc + 1,
    ensures
        spec_locate(index.entries@, p, h.start_frame_no, max) matches Some(o) ==> {
            &&& o < h.spec_count_committed()
            &&& spec_frame_page_no(data, o) == p
            &&& h.start_frame_no + o <= max
            &&& forall|o2: u32|
                o2 < h.spec_count_committed() && #[trigger] spec_frame_page_no(data, o2) == p
                    && h.start_frame_no + o2 <= max ==> o2 <= o
        },
        spec_locate(index.entries@, p, h.start_frame_no, max) is None ==> forall|o2: u32|
            o2 < h.spec_count_committed() && #[trigger] spec_frame_page_no(data, o2) == p
                ==> h.start_frame_no + o2 > max,
{
    crate::index::lemma_locate_props(index.entries@, p, h.start_frame_no, max);
    let r = spec_locate(index.entries@, p, h.start_frame_no, max);
    assert forall|o2: u32|
        o2 < h.spec_count_committed() && #[trigger] spec_frame_page_no(data, o2) == p
            && h.start_frame_no + o2 <= max implies r is Some && o2 <= r.unwrap() by {
        // the index holds a record at least as new as this frame, still
        // within the snapshot
        assert(h.start_frame_no + o2 <= bc);
        assert(found_within(h, index, spec_frame_page_no(data, o2), o2, bc));
        let i = choose|i: int|
            0 <= i < index.entries@.len() && (#[trigger] index.entries@[i]).0
                == spec_frame_page_no(data, o2) && index.entries@[i].1 >= o2 && h.start_frame_no
                + index.entries@[i].1 <= bc;
        assert(index.entries@[i].0 == p && h.start_frame_no + index.entries@[i].1 <= max);
        assert(r is Some && index.entries@[i].1 <= r.unwrap());
    }
    if r is Some {
        let o = r.unwrap();
        let i = choose|i: int|
            0 <= i < index.entries@.len() && #[trigger] index.entries@[i] == (p, o);
        assert(index.entries@[i].1 < h.spec_count_committed());
    }
}

/// Returns a record-for-record copy of a page index.
pub fn copy_page_index(src: &PageIndex) -> (r: PageIndex)
    ensures
        r.entries@ == src.entries@,
{
    let mut entries: Vec<(u32, u32)> = Vec::new();
    let mut i: usize = 0;
    while i < src.entries.len()
        invariant
            i <= src.entries@.len(),
            entries@ == src.entries@.take(i as int),
        decreases src.entries@.len() - i,
    {
        entries.push(src.entries[i]);
        proof {
            assert(entries@ =~= src.entries@.take(i + 1));
        }
        i = i + 1;
    }
    proof {
        assert(src.entries@.take(src.entries@.len() as int) =~= src.entries@);
    }
    PageIndex { entries }
}

/// The byte position of the page image in slot `offset`, as a vector
/// index.
pub fn page_offset_usize(offset: u32) -> (r: usize)
    requires
        spec_page_offset(offset) <= 0xffff_ffffu64,
    ensures
        r == spec_page_offset(offset),
{
    let o = crate::frame::page_offset(offset);
    o as usize
}

/// The byte position of slot `offset`, as a vector index.
pub fn byte_offset_usize(offset: u32) -> (r: usize)
    requires
        spec_byte_offset(offset) <= 0xffff_ffffu64,
    ensures
        r == spec_byte_offset(offset),
{
    let o = byte_offset(offset);
    o as usize
}

} // verus!
