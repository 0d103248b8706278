//! Read and write transactions.
//!
//! A read transaction is a snapshot: the largest frame number it may
//! observe, the database size as of that frame, and the identity of the
//! segment it pinned when it was created.  A write transaction extends a
//! read transaction with a savepoint stack recording its uncommitted
//! writes.

use vstd::prelude::*;

use crate::index::{spec_get_last, PageIndex};

verus! {

/// A read snapshot on one namespace's log.
pub struct ReadTransaction {
    /// Largest frame number this transaction may observe.
    pub max_frame_no: u64,
    /// Committed database size in pages at creation.
    pub db_size: u32,
    /// `start_frame_no` of the segment pinned at creation; the pinned
    /// segment's read-lock count includes this transaction.
    pub log_start: u64,
    /// Logical creation timestamp.
    pub created_at: u64,
    /// Identifier of the owning connection.
    pub conn_id: u64,
    /// Number of pages this transaction has read.
    pub pages_read: usize,
}

/// A rollback point inside a write transaction; it owns the writes made
/// after it was taken (and before the next savepoint).
pub struct Savepoint {
    /// Slot offset the next frame would take when the savepoint was taken.
    pub next_offset: u32,
    /// Frame number the next frame would take when the savepoint was taken.
    pub next_frame_no: u64,
    /// Pages written while this savepoint was current.
    pub index: PageIndex,
}

/// A write transaction: a read snapshot that holds the writer lock.
pub struct WriteTransaction {
    /// Writer-lock ticket; matches the coordinator's `tx_id` while the
    /// lock is held.
    pub id: u64,
    /// Rollback points, oldest first; never empty.
    pub savepoints: Vec<Savepoint>,
    /// Frame number the next appended frame will take.
    pub next_frame_no: u64,
    /// Slot offset the next appended frame will take.
    pub next_offset: u32,
    /// Whether the transaction has committed.
    pub is_commited: bool,
    /// The read snapshot this transaction was upgraded from.
    pub read_tx: ReadTransaction,
}

/// A transaction in either mode.
pub enum Transaction {
    Write(WriteTransaction),
    Read(ReadTransaction),
}

/// The newest offset recorded for `p` across a savepoint stack, newest
/// savepoint first.
pub open spec fn spec_tx_find(savepoints: Seq<Savepoint>, p: u32) -> Option<u32>
    decreases savepoints.len(),
{
    if savepoints.len() == 0 {
        None
    } else if spec_get_last(savepoints.last().index.entries@, p) is Some {
        spec_get_last(savepoints.last().index.entries@, p)
    } else {
        spec_tx_find(savepoints.drop_last(), p)
    }
}

impl WriteTransaction {
    /// Internal consistency of the savepoint stack: the stack is nonempty,
    /// snapshots grow with the stack, frame numbers stay aligned with slot
    /// offsets relative to the pinned segment's start, and each
    /// savepoint's records lie between its snapshot and the next one.
    pub open spec fn wf(self) -> bool {
        let sp = self.savepoints@;
        &&& sp.len() >= 1
        &&& self.read_tx.log_start >= 1
        &&& self.read_tx.log_start < 0x7fff_ffff_ffff_ffffu64
        &&& self.next_frame_no == self.read_tx.log_start + self.next_offset
        &&& self.next_offset <= crate::frame::MAX_SEGMENT_FRAMES
        &&& forall|i: int|
            0 <= i < sp.len() ==> (#[trigger] sp[i]).next_frame_no == self.read_tx.log_start
                + sp[i].next_offset
        &&& forall|i: int, j: int|
            0 <= i < j < sp.len() ==> (#[trigger] sp[i]).next_offset <= (
            #[trigger] sp[j]).next_offset
        &&& forall|i: int| 0 <= i < sp.len() ==> (#[trigger] sp[i]).next_offset <= self.next_offset
        &&& forall|i: int| 0 <= i < sp.len() ==> (#[trigger] sp[i]).index.wf()
        &&& forall|i: int|
            0 <= i < sp.len() ==> (#[trigger] sp[i]).index.all_at_least(sp[i].next_offset as int)
        &&& forall|i: int|
            0 <= i < sp.len() - 1 ==> (#[trigger] sp[i]).index.all_below(
                sp[i + 1].next_offset as int,
            )
        &&& sp.last().index.all_below(self.next_offset as int)
    }

    /// Every offset any savepoint records lies below the transaction's
    /// next offset.
    pub proof fn lemma_records_below_next(self, i: int)
        requires
            self.wf(),
            0 <= i < self.savepoints@.len(),
        ensures
            self.savepoints@[i].index.all_below(self.next_offset as int),
    {
        let sp = self.savepoints@;
        if i < sp.len() - 1 {
            assert forall|k: int|
                0 <= k < sp[i].index.entries@.len() implies (#[trigger] sp[i].index.entries@[k]).1
                < self.next_offset as int by {
                assert(sp[i].index.entries@[k].1 < sp[i + 1].next_offset as int);
                assert(sp[i + 1].next_offset <= self.next_offset);
            }
        } else {
            assert(sp[i] == sp.last());
        }
    }

    /// Takes a savepoint and returns its identifier.
    pub fn savepoint(&mut self) -> (r: usize)
        requires
            old(self).wf(),
        ensures
            r == old(self).savepoints@.len(),
            final(self).savepoints@ == old(self).savepoints@.push(
                Savepoint {
                    next_offset: old(self).next_offset,
                    next_frame_no: old(self).next_frame_no,
                    index: final(self).savepoints@.last().index,
                },
            ),
            final(self).savepoints@.last().index.entries@.len() == 0,
            final(self).wf(),
            final(self).next_offset == old(self).next_offset,
            final(self).next_frame_no == old(self).next_frame_no,
            final(self).is_commited == old(self).is_commited,
            final(self).id == old(self).id,
            final(self).read_tx == old(self).read_tx,
    {
        let savepoint_id = self.savepoints.len();
        self.savepoints.push(
            Savepoint {
                next_offset: self.next_offset,
                next_frame_no: self.next_frame_no,
                index: PageIndex::new(),
            },
        );
        savepoint_id
    }

    /// Rolls the transaction back to the state in which savepoint
    /// `savepoint_id` was taken: later savepoints are dropped, the
    /// savepoint's own writes are discarded, and the write position is
    /// restored.
    pub fn reset(&mut self, savepoint_id: usize)
        requires
            old(self).wf(),
            savepoint_id < old(self).savepoints@.len(),
        ensures
            final(self).wf(),
            final(self).savepoints@.len() == savepoint_id + 1,
            forall|i: int|
                0 <= i < savepoint_id ==> #[trigger] final(self).savepoints@[i] == old(
                    self,
                ).savepoints@[i],
            final(self).savepoints@.last().index.entries@.len() == 0,
            final(self).savepoints@.last().next_offset == old(
                self,
            ).savepoints@[savepoint_id as int].next_offset,
            final(self).next_offset == old(self).savepoints@[savepoint_id as int].next_offset,
            final(self).next_frame_no == old(self).savepoints@[savepoint_id as int].next_frame_no,
            final(self).is_commited == old(self).is_commited,
            final(self).id == old(self).id,
            final(self).read_tx == old(self).read_tx,
    {
        let n = self.savepoints.len();
        proof {
            assert(savepoint_id < n);
        }
        self.savepoints.truncate(savepoint_id + 1);
        let r = vstd::std_specs::vec::vec_index_mut(&mut self.savepoints, savepoint_id);
        let next_offset = r.next_offset;
        let next_frame_no = r.next_frame_no;
        r.index.clear();
        self.next_offset = next_offset;
        self.next_frame_no = next_frame_no;
        proof {
            let sp = final(self).savepoints@;
            assert(sp.last() == sp[savepoint_id as int]);
            assert forall|i: int, j: int|
                0 <= i < j < sp.len() implies (#[trigger] sp[i]).next_offset <= (
            #[trigger] sp[j]).next_offset by {
                assert(old(self).savepoints@[i].next_offset <= old(
                    self,
                ).savepoints@[j].next_offset);
            }
        }
    }

    /// The newest uncommitted write this transaction made to `page_no`,
    /// newest savepoint first.
    pub fn find_frame(&self, page_no: u32) -> (r: Option<u32>)
        ensures
            r == spec_tx_find(self.savepoints@, page_no),
    {
        let mut i: usize = self.savepoints.len();
        proof {
            assert(self.savepoints@.take(i as int) =~= self.savepoints@);
        }
        while i > 0
            invariant
                i <= self.savepoints@.len(),
                spec_tx_find(self.savepoints@, page_no) == spec_tx_find(
                    self.savepoints@.take(i as int),
                    page_no,
                ),
            decreases i,
        {
            proof {
                assert(self.savepoints@.take(i as int).last() == self.savepoints@[i - 1]);
                assert(self.savepoints@.take(i as int).drop_last() =~= self.savepoints@.take(
                    i - 1,
                ));
            }
            match self.savepoints[i - 1].index.get_last(page_no) {
                Some(off) => {
                    return Some(off);
                },
                None => {},
            }
            i = i - 1;
        }
        None
    }

    /// Whether the transaction has committed.
    pub fn is_commited(&self) -> (r: bool)
        ensures
            r == self.is_commited,
    {
        self.is_commited
    }

    /// The merged uncommitted index of the transaction: for each page the
    /// newest offset across all savepoints, ordered by page number.
    pub fn index_iter(&self) -> (r: Vec<(u32, u32)>)
        requires
            self.wf(),
        ensures
            crate::index::spec_keys_sorted(r@),
            forall|p: u32|
                crate::index::spec_map_get(#[trigger] r@, p) == spec_tx_find(self.savepoints@, p),
    {
        let merged = self.merged_index();
        let m = merged.to_page_map();
        proof {
            lemma_tx_find_is_concat(self.savepoints@);
        }
        m.entries
    }

    /// Concatenates the savepoint records, oldest savepoint first.
    pub fn merged_index(&self) -> (r: PageIndex)
        requires
            self.wf(),
        ensures
            r.wf(),
            r.entries@ == spec_concat_savepoints(self.savepoints@),
            r.all_below(self.next_offset as int),
            r.all_at_least(self.savepoints@[0].next_offset as int),
            forall|p: u32|
                spec_get_last(r.entries@, p) == spec_tx_find(self.savepoints@, p),
    {
        let mut r = PageIndex::new();
        let mut i: usize = 0;
        while i < self.savepoints.len()
            invariant
                i <= self.savepoints@.len(),
                self.wf(),
                r.wf(),
                r.entries@ == spec_concat_savepoints(self.savepoints@.take(i as int)),
                i < self.savepoints@.len() ==> r.all_below(
                    self.savepoints@[i as int].next_offset as int,
                ),
                i == self.savepoints@.len() ==> r.all_below(self.next_offset as int),
                r.all_at_least(self.savepoints@[0].next_offset as int),
            decreases self.savepoints@.len() - i,
        {
            proof {
                assert(self.savepoints@.take(i + 1).drop_last() =~= self.savepoints@.take(
                    i as int,
                ));
                assert(self.savepoints@.take(i + 1).last() == self.savepoints@[i as int]);
            }
            r.append_all(&self.savepoints[i].index);
            proof {
                let sp = self.savepoints@;
                if i + 1 < sp.len() {
                    assert forall|k: int|
                        0 <= k < r.entries@.len() implies (#[trigger] r.entries@[k]).1 < sp[i
                        + 1].next_offset as int by {}
                } else {
                    self.lemma_records_below_next(i as int);
                }
            }
            i = i + 1;
        }
        proof {
            assert(self.savepoints@.take(self.savepoints@.len() as int) =~= self.savepoints@);
            lemma_tx_find_is_concat(self.savepoints@);
        }
        r
    }
}

/// All savepoint records laid end to end, oldest savepoint first.
pub open spec fn spec_concat_savepoints(savepoints: Seq<Savepoint>) -> Seq<(u32, u32)>
    decreases savepoints.len(),
{
    if savepoints.len() == 0 {
        Seq::empty()
    } else {
        spec_concat_savepoints(savepoints.drop_last()) + savepoints.last().index.entries@
    }
}

/// Searching the concatenated savepoint records newest-first agrees with
/// searching the savepoints newest-first.
pub proof fn lemma_tx_find_is_concat(savepoints: Seq<Savepoint>)
    ensures
        forall|p: u32|
            spec_get_last(spec_concat_savepoints(savepoints), p) == spec_tx_find(savepoints, p),
    decreases savepoints.len(),
{
    if savepoints.len() > 0 {
        lemma_tx_find_is_concat(savepoints.drop_last());
        assert forall|p: u32|
            spec_get_last(spec_concat_savepoints(savepoints), p) == spec_tx_find(
                savepoints,
                p,
            ) by {
            assert(spec_get_last(spec_concat_savepoints(savepoints.drop_last()), p)
                == spec_tx_find(savepoints.drop_last(), p));
            crate::index::lemma_get_last_concat(
                spec_concat_savepoints(savepoints.drop_last()),
                savepoints.last().index.entries@,
                p,
            );
        }
    }
}

proof fn lemma_concat_entry_bounds(sp: Seq<Savepoint>, lo: u32, hi: u32, j: int)
    requires
        forall|i: int| 0 <= i < sp.len() ==> (#[trigger] sp[i]).index.wf(),
        forall|i: int|
            0 <= i < sp.len() ==> (#[trigger] sp[i]).index.all_at_least(sp[i].next_offset as int),
        forall|i: int|
            0 <= i < sp.len() - 1 ==> (#[trigger] sp[i]).index.all_below(
                sp[i + 1].next_offset as int,
            ),
        sp.len() > 0 ==> sp.last().index.all_below(hi as int),
        forall|i: int| 0 <= i < sp.len() ==> lo <= (#[trigger] sp[i]).next_offset,
        forall|i: int, j2: int|
            0 <= i < j2 < sp.len() ==> (#[trigger] sp[i]).next_offset <= (
            #[trigger] sp[j2]).next_offset,
        sp.len() > 0 ==> sp.last().next_offset <= hi,
        0 <= j < spec_concat_savepoints(sp).len(),
    ensures
        lo <= spec_concat_savepoints(sp)[j].1 < hi,
    decreases sp.len(),
{
    let pre = spec_concat_savepoints(sp.drop_last());
    if j < pre.len() {
        if sp.len() >= 2 {
            assert(sp.drop_last().last() == sp[sp.len() - 2]);
            assert(sp[sp.len() - 2].index.all_below(sp[sp.len() - 1].next_offset as int));
            lemma_concat_entry_bounds(sp.drop_last(), lo, sp.last().next_offset, j);
        } else {
            assert(pre.len() == 0);
        }
    } else {
        let e = sp.last().index.entries@[j - pre.len()];
        assert(e.1 >= sp.last().next_offset >= lo);
        assert(e.1 < hi);
    }
}

/// Every record in the savepoint stack lies between the transaction's
/// base slot and its write position.
pub proof fn lemma_pend_below(tx: WriteTransaction, j: int)
    requires
        tx.wf(),
        0 <= j < spec_concat_savepoints(tx.savepoints@).len(),
    ensures
        tx.savepoints@[0].next_offset <= spec_concat_savepoints(tx.savepoints@)[j].1
            < tx.next_offset,
{
    lemma_concat_entry_bounds(tx.savepoints@, tx.savepoints@[0].next_offset, tx.next_offset, j);
}

/// Recording one more write in the last savepoint appends one record to
/// the concatenation.
pub proof fn lemma_concat_push_last(s1: Seq<Savepoint>, s2: Seq<Savepoint>, rec: (u32, u32))
    requires
        s1.len() >= 1,
        s2.len() == s1.len(),
        forall|i: int| 0 <= i < s1.len() - 1 ==> s2[i] == s1[i],
        s2.last().index.entries@ == s1.last().index.entries@.push(rec),
    ensures
        spec_concat_savepoints(s2) == spec_concat_savepoints(s1).push(rec),
{
    assert(s2.drop_last() =~= s1.drop_last());
    assert(spec_concat_savepoints(s2) =~= spec_concat_savepoints(s1).push(rec));
}

impl Transaction {
    /// The read snapshot of the transaction, in either mode.
    pub open spec fn spec_read(self) -> ReadTransaction {
        match self {
            Transaction::Write(w) => w.read_tx,
            Transaction::Read(r) => r,
        }
    }

    /// A reference to the read snapshot of the transaction.
    pub fn read_ref(&self) -> (r: &ReadTransaction)
        ensures
            *r == self.spec_read(),
    {
        match self {
            Transaction::Write(w) => &w.read_tx,
            Transaction::Read(r) => r,
        }
    }

    /// A mutable reference to the write form, when the transaction is one.
    /// Whatever the caller leaves behind the returned reference is what
    /// the transaction becomes.
    pub fn as_write_mut(&mut self) -> (r: Option<&mut WriteTransaction>)
        ensures
            *old(self) matches Transaction::Write(_) ==> {
                &&& r is Some
                &&& *final(self) == Transaction::Write(*final(r.unwrap()))
            },
            *old(self) matches Transaction::Read(_) ==> r is None && *final(self) == *old(self),
    {
        if let Transaction::Write(ref mut v) = self {
            Some(v)
        } else {
            None
        }
    }

    /// Marks a write transaction committed; reads are untouched.
    pub fn commit(&mut self)
        ensures
            *final(self) == match *old(self) {
                Transaction::Write(w) => Transaction::Write(
                    WriteTransaction { is_commited: true, ..w },
                ),
                Transaction::Read(r) => Transaction::Read(r),
            },
    {
        match self {
            Transaction::Write(tx) => {
                tx.is_commited = true;
            },
            Transaction::Read(_) => (),
        }
    }
}

} // verus!
