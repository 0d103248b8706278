//! The per-namespace coordinator.
//!
//! It owns the current segment, the queue of sealed segments (oldest
//! first), the base database file image, and the writer lock with its fair
//! wake-up queue.  At most one write transaction exists at a time: the
//! lock carries the transaction id, and on release the oldest waiter is
//! reserved the lock so that no late arrival can barge past it.  The
//! caller parks a queued connection and calls `upgrade` again once woken.

use vstd::prelude::*;

use crate::error::WalError;
use crate::frame::{spec_byte_offset, MAX_INDEX_BYTES, MAX_SEGMENT_FRAMES, PAGE_SIZE};
use crate::index::PageIndex;
use crate::log::{wf_pending, Log};
use crate::sealed_log::SealedLog;
use crate::stats::saturating_add;
use crate::transaction::{ReadTransaction, Savepoint, Transaction, WriteTransaction};

verus! {

/// The writer lock: the id of the transaction holding it, the connection
/// the lock is reserved for after a handoff, the queue of waiting
/// connections (oldest first), and the next transaction id.
pub struct WalLock {
    /// Id of the write transaction currently holding the lock.
    pub tx_id: Option<u64>,
    /// Connection a released lock is being held for; blocks barging until
    /// the woken waiter claims it.
    pub reserved: Option<u64>,
    /// Waiting connections, oldest first.
    pub waiters: Vec<u64>,
    /// Monotonically increasing write-transaction id.
    pub next_tx_id: u64,
}

impl WalLock {
    /// A free lock with no history.
    pub fn new() -> (r: WalLock)
        ensures
            r.tx_id is None,
            r.reserved is None,
            r.waiters@.len() == 0,
            r.next_tx_id == 0,
    {
        WalLock { tx_id: None, reserved: None, waiters: Vec::new(), next_tx_id: 0 }
    }

    /// Whether `conn_id` may claim the free lock: nobody holds it and it
    /// is not being held open for another connection.
    pub open spec fn spec_claimable(self, conn_id: u64) -> bool {
        &&& self.tx_id is None
        &&& (self.reserved is None || self.reserved == Some(conn_id))
    }
}

/// What `upgrade` did with the transaction.
#[derive(Clone, Copy, Debug, PartialEq, Eq, Structural)]
pub enum UpgradeOutcome {
    /// The writer lock was claimed; the transaction is now a write
    /// transaction.
    Upgraded,
    /// Another writer holds or is promised the lock; the connection was
    /// enqueued and should park until woken, then call `upgrade` again.
    Queued,
}

/// One read lock released: a count one lower, stopping at zero.
pub open spec fn spec_dec_lock(n: u64) -> u64 {
    if n > 0 {
        (n - 1) as u64
    } else {
        0
    }
}

/// The per-namespace write-ahead log coordinator.
pub struct SharedWal {
    /// The segment now accepting frames.
    pub current: Log,
    /// Sealed segments, oldest first; checkpointing consumes from the
    /// front.
    pub segments: Vec<SealedLog>,
    /// The writer lock and its wait queue.
    pub lock: WalLock,
    /// The base database file image; checkpointing folds sealed segments
    /// into it.
    pub db_file: Vec<u8>,
    /// The namespace this coordinator serves.
    pub namespace: String,
    /// Logical clock stamped onto new transactions.
    pub clock: u64,
    /// Seal the current segment once it holds more committed frames than
    /// this.
    pub rotate_frames: u64,
    /// Suggest checkpointing once more sealed segments than this queue up.
    pub checkpoint_segments: usize,
}

impl SharedWal {
    /// Internal consistency: the current segment and every sealed segment
    /// are well-formed, sealed segments are nonempty and chain
    /// contiguously into the current segment, and the base image is
    /// page-aligned.
    pub open spec fn wf(self) -> bool {
        &&& self.current.wf()
        &&& !self.current.sealed
        &&& forall|i: int|
            0 <= i < self.segments@.len() ==> (#[trigger] self.segments@[i]).wf()
                && self.segments@[i].header.spec_count_committed() > 0
        &&& forall|i: int|
            0 <= i < self.segments@.len() - 1 ==> (#[trigger] self.segments@[i
                + 1]).header.start_frame_no == self.segments@[i].header.last_committed_frame_no
                + 1
        &&& (self.segments@.len() > 0 ==> self.current.header.start_frame_no
            == self.segments@.last().header.last_committed_frame_no + 1)
        &&& self.db_file@.len() as int % (PAGE_SIZE as int) == 0
        &&& self.db_file@.len() <= 0x8000_0000
        &&& self.rotate_frames < MAX_SEGMENT_FRAMES
    }

    /// The reader snapshot `rt` pins the current segment at one of its
    /// commit boundaries.
    pub open spec fn pinned_current(self, rt: ReadTransaction) -> bool {
        &&& rt.log_start == self.current.header.start_frame_no
        &&& (rt.max_frame_no == rt.log_start - 1 || self.current.boundaries@.contains(
            rt.max_frame_no,
        ))
    }

    /// The reader snapshot `rt` pins sealed segment `i` at one of its
    /// commit boundaries.
    pub open spec fn pinned_sealed(self, rt: ReadTransaction, i: int) -> bool {
        &&& 0 <= i < self.segments@.len()
        &&& rt.log_start == self.segments@[i].header.start_frame_no
        &&& (rt.max_frame_no == rt.log_start - 1 || self.segments@[i].boundaries@.contains(
            rt.max_frame_no,
        ))
    }

    /// The snapshot belongs to this coordinator: it pins the current
    /// segment or a still-queued sealed segment at a commit boundary.
    pub open spec fn valid_reader(self, rt: ReadTransaction) -> bool {
        self.pinned_current(rt) || exists|i: int| self.pinned_sealed(rt, i)
    }

    /// The last committed frame number of the namespace.
    pub open spec fn spec_last_committed(self) -> u64 {
        self.current.header.spec_last_committed()
    }

    /// A fresh namespace: one empty current segment starting at frame 1,
    /// an empty base file, a free lock.
    pub fn create(namespace: String, rotate_frames: u64, checkpoint_segments: usize) -> (r:
        SharedWal)
        requires
            rotate_frames < MAX_SEGMENT_FRAMES,
        ensures
            r.wf(),
            r.current.header == (crate::header::LogHeader {
                start_frame_no: 1,
                last_committed_frame_no: 0,
                db_size: 0,
                index_offset: 0,
                index_size: 0,
            }),
            r.current.spec_count() == 0,
            r.segments@.len() == 0,
            r.lock.tx_id is None,
            r.lock.reserved is None,
            r.lock.waiters@.len() == 0,
            r.db_file@.len() == 0,
            r.namespace == namespace,
            r.spec_last_committed() == 0,
    {
        SharedWal {
            current: Log::create(1, 0),
            segments: Vec::new(),
            lock: WalLock::new(),
            db_file: Vec::new(),
            namespace,
            clock: 0,
            rotate_frames,
            checkpoint_segments,
        }
    }

    /// The committed database size in pages.
    pub fn db_size(&self) -> (r: u32)
        requires
            self.wf(),
        ensures
            r == self.current.header.db_size,
    {
        self.current.db_size()
    }

    /// The last committed frame number of the namespace.
    pub fn last_committed(&self) -> (r: u64)
        requires
            self.wf(),
        ensures
            r == self.spec_last_committed(),
    {
        self.current.last_committed()
    }

    /// Opens a read transaction: pins the current segment and snapshots
    /// its last committed frame number and database size.
    pub fn begin_read(&mut self, conn_id: u64) -> (r: ReadTransaction)
        requires
            old(self).wf(),
        ensures
            final(self).wf(),
            r.max_frame_no == old(self).spec_last_committed(),
            r.db_size == old(self).current.header.db_size,
            r.log_start == old(self).current.header.start_frame_no,
            r.conn_id == conn_id,
            r.pages_read == 0,
            final(self).valid_reader(r),
            final(self).pinned_current(r),
            *final(self) == (SharedWal {
                current: Log {
                    read_locks: final(self).current.read_locks,
                    ..old(self).current
                },
                clock: final(self).clock,
                ..*old(self)
            }),
            final(self).current.read_locks == vstd::math::min(
                old(self).current.read_locks + 1,
                u64::MAX as int,
            ),
            forall|rt: ReadTransaction|
                old(self).valid_reader(rt) ==> #[trigger] final(self).valid_reader(rt),
    {
        let (max_frame_no, db_size) = self.current.begin_read_infos();
        self.current.read_locks = saturating_add(self.current.read_locks, 1);
        let created_at = self.clock;
        self.clock = saturating_add(self.clock, 1);
        let r = ReadTransaction {
            max_frame_no,
            db_size,
            log_start: self.current.header.start_frame_no,
            created_at,
            conn_id,
            pages_read: 0,
        };
        proof {
            if self.current.spec_count() > 0 {
                assert(self.current.boundaries@.contains(r.max_frame_no)) by {
                    assert(self.current.boundaries@.last() == r.max_frame_no);
                }
            }
            assert forall|rt: ReadTransaction|
                old(self).valid_reader(rt) implies #[trigger] final(self).valid_reader(rt) by {
                if old(self).pinned_current(rt) {
                    assert(final(self).pinned_current(rt));
                } else {
                    let i = choose|i: int| old(self).pinned_sealed(rt, i);
                    assert(final(self).pinned_sealed(rt, i));
                }
            }
        }
        r
    }

    /// Ends a read transaction: unpins the segment the snapshot pinned.
    pub fn end_read(&mut self, tx: ReadTransaction)
        requires
            old(self).wf(),
        ensures
            final(self).wf(),
            // exactly the pinned segment's read-lock count drops by one
            // (never below zero); everything else is untouched
            *final(self) == (SharedWal {
                current: final(self).current,
                segments: final(self).segments,
                ..*old(self)
            }),
            final(self).current == (Log {
                read_locks: final(self).current.read_locks,
                ..old(self).current
            }),
            final(self).current.read_locks == if tx.log_start
                == old(self).current.header.start_frame_no {
                spec_dec_lock(old(self).current.read_locks)
            } else {
                old(self).current.read_locks
            },
            final(self).segments@.len() == old(self).segments@.len(),
            forall|i: int|
                0 <= i < old(self).segments@.len() ==> #[trigger] final(self).segments@[i]
                    == (SealedLog {
                    read_locks: final(self).segments@[i].read_locks,
                    ..old(self).segments@[i]
                }),
            forall|i: int|
                0 <= i < old(self).segments@.len() ==> (#[trigger] final(self).segments@[i]).read_locks == if tx.log_start != old(self).current.header.start_frame_no && old(self).segments@[i].header.start_frame_no
                    == tx.log_start {
                    spec_dec_lock(old(self).segments@[i].read_locks)
                } else {
                    old(self).segments@[i].read_locks
                },
            forall|rt: ReadTransaction|
                old(self).valid_reader(rt) ==> #[trigger] final(self).valid_reader(rt),
    {
        if tx.log_start == self.current.header.start_frame_no {
            if self.current.read_locks > 0 {
                self.current.read_locks = self.current.read_locks - 1;
            }
            proof {
                lemma_readers_preserved(*old(self), *self);
            }
            return ;
        }
        let mut i: usize = 0;
        while i < self.segments.len()
            invariant
                i <= self.segments@.len(),
                self == old(self),
                old(self).wf(),
                tx.log_start != old(self).current.header.start_frame_no,
                forall|j: int|
                    0 <= j < i ==> (#[trigger] old(self).segments@[j]).header.start_frame_no
                        != tx.log_start,
            decreases self.segments@.len() - i,
        {
            if self.segments[i].header.start_frame_no == tx.log_start {
                let ghost pre = *self;
                let s = vstd::std_specs::vec::vec_index_mut(&mut self.segments, i);
                if s.read_locks > 0 {
                    s.read_locks = s.read_locks - 1;
                }
                proof {
                    assert forall|j: int|
                        0 <= j < self.segments@.len() implies {
                        &&& (#[trigger] self.segments@[j]).header == pre.segments@[j].header
                        &&& self.segments@[j].boundaries == pre.segments@[j].boundaries
                        &&& self.segments@[j].wf()
                        &&& self.segments@[j].header.spec_count_committed() > 0
                    } by {
                        if j != i as int {
                            assert(self.segments@[j] == pre.segments@[j]);
                        }
                        assert(pre.segments@[j].wf());
                    }
                    // segment starts are strictly increasing, so only this
                    // segment carries the pinned start
                    assert forall|j: int|
                        0 <= j < self.segments@.len() && j != i as int implies (#[trigger] pre.segments@[j]).header.start_frame_no != tx.log_start by {
                        if j < i as int {
                        } else {
                            lemma_chain_order(pre, i as int, j);
                        }
                    }
                    lemma_readers_preserved(pre, *self);
                }
                return ;
            }
            i = i + 1;
        }
    }

    /// Attempts to upgrade a read transaction to the write transaction.
    /// If the lock is free and not promised elsewhere, it is claimed —
    /// unless the snapshot went stale, which fails with `BusySnapshot`
    /// and the caller must restart.  Otherwise the connection queues up
    /// and should park until the lock is handed to it.
    pub fn upgrade(&mut self, tx: &mut Transaction) -> (r: Result<UpgradeOutcome, WalError>)
        requires
            old(self).wf(),
            *old(tx) matches Transaction::Read(rt) && old(self).pinned_current(rt),
        ensures
            final(self).wf(),
            final(self).current == old(self).current,
            final(self).segments == old(self).segments,
            final(self).db_file == old(self).db_file,
            ({
                let rt = old(tx).spec_read();
                let lock = old(self).lock;
                if lock.spec_claimable(rt.conn_id) {
                    if rt.max_frame_no != old(self).spec_last_committed() {
                        // stale snapshot: nothing changes but the caller learns it
                        &&& r == Err::<UpgradeOutcome, WalError>(WalError::BusySnapshot)
                        &&& *final(tx) == *old(tx)
                        &&& final(self).lock == old(self).lock
                    } else {
                        &&& r == Ok::<UpgradeOutcome, WalError>(UpgradeOutcome::Upgraded)
                        &&& final(self).lock.tx_id == Some(lock.next_tx_id)
                        &&& final(self).lock.reserved is None
                        &&& final(self).lock.waiters == lock.waiters
                        &&& *final(tx) matches Transaction::Write(w) && {
                            &&& w.id == lock.next_tx_id
                            &&& w.read_tx == rt
                            &&& w.next_frame_no == old(self).spec_last_committed() + 1
                            &&& w.next_offset == old(self).current.spec_count()
                            &&& !w.is_commited
                            &&& w.savepoints@.len() == 1
                            &&& w.savepoints@[0].index.entries@.len() == 0
                            &&& w.wf()
                            &&& wf_pending(final(self).current, w)
                        }
                    }
                } else {
                    // held or promised elsewhere: queue up fairly
                    &&& r == Ok::<UpgradeOutcome, WalError>(UpgradeOutcome::Queued)
                    &&& *final(tx) == *old(tx)
                    &&& final(self).lock == (WalLock {
                        waiters: final(self).lock.waiters,
                        ..lock
                    })
                    &&& final(self).lock.waiters@ == lock.waiters@.push(rt.conn_id)
                }
            }),
            forall|rt2: ReadTransaction|
                old(self).valid_reader(rt2) ==> #[trigger] final(self).valid_reader(rt2),
    {
        let conn_id = tx.read_ref().conn_id;
        let claimable = match (self.lock.tx_id, self.lock.reserved) {
            (Some(_), _) => false,
            (None, Some(rid)) => rid == conn_id,
            (None, None) => true,
        };
        if !claimable {
            self.lock.waiters.push(conn_id);
            proof {
                lemma_readers_preserved(*old(self), *self);
            }
            return Ok(UpgradeOutcome::Queued);
        }
        let max_frame_no = tx.read_ref().max_frame_no;
        let last_committed = self.current.last_committed();
        if max_frame_no != last_committed {
            return Err(WalError::BusySnapshot);
        }
        let id = self.lock.next_tx_id;
        self.lock.next_tx_id = saturating_add(self.lock.next_tx_id, 1);
        self.lock.reserved = None;
        self.lock.tx_id = Some(id);
        let next_offset64 = self.current.count_committed();
        let next_offset = next_offset64 as u32;
        let rt_copy = copy_read_tx(tx.read_ref());
        let next_frame_no = self.current.next_frame_no();
        let savepoint = Savepoint {
            next_offset,
            next_frame_no,
            index: PageIndex::new(),
        };
        let mut savepoints: Vec<Savepoint> = Vec::new();
        savepoints.push(savepoint);
        let w = WriteTransaction {
            id,
            savepoints,
            next_frame_no,
            next_offset,
            is_commited: false,
            read_tx: rt_copy,
        };
        proof {
            assert(spec_byte_offset(w.next_offset) <= spec_byte_offset(
                self.current.header.spec_count_committed() as u32,
            ));
            assert(w.savepoints@.len() == 1);
            assert(w.savepoints@.drop_last() =~= Seq::<Savepoint>::empty());
            assert(crate::transaction::spec_concat_savepoints(Seq::<Savepoint>::empty())
                =~= Seq::<(u32, u32)>::empty());
            assert(crate::transaction::spec_concat_savepoints(w.savepoints@)
                == crate::transaction::spec_concat_savepoints(w.savepoints@.drop_last())
                + w.savepoints@.last().index.entries@);
            assert(crate::transaction::spec_concat_savepoints(w.savepoints@)
                =~= Seq::<(u32, u32)>::empty());
            assert(wf_pending(self.current, w));
            lemma_readers_preserved(*old(self), *self);
        }
        *tx = Transaction::Write(w);
        Ok(UpgradeOutcome::Upgraded)
    }

    /// Whether the sealed queue has grown past the configured threshold
    /// and a checkpoint should be taken.
    pub fn should_checkpoint(&self) -> (r: bool)
        ensures
            r == (self.segments@.len() > self.checkpoint_segments),
    {
        self.segments.len() > self.checkpoint_segments
    }

    /// Seals the current segment, queues it, and installs a fresh current
    /// segment starting right after it.  Readers pinned to the old current
    /// keep their snapshot through the queued sealed form.
    pub fn swap_current(&mut self) -> (r: Result<(), WalError>)
        requires
            old(self).wf(),
            old(self).current.spec_count() > 0,
        ensures
            final(self).lock == old(self).lock,
            final(self).db_file == old(self).db_file,
            final(self).namespace == old(self).namespace,
            // rotation fails only when frame numbers run out of headroom
            // or the old segment's serialized index would not fit
            r is Err <==> old(self).spec_last_committed() + 1 >= 0x7fff_ffff_fff0_0000u64 || (
            exists|es: Seq<(u32, u64)>|
                crate::log::spec_packed_index(old(self).current.index.entries@, es)
                    && crate::sealed_index::fst_encoded_len(es) > MAX_INDEX_BYTES),
            r is Err ==> r == Err::<(), WalError>(WalError::Io),
            r is Ok ==> {
                &&& final(self).wf()
                &&& final(self).segments@.len() == old(self).segments@.len() + 1
                &&& forall|i: int|
                    0 <= i < old(self).segments@.len() ==> #[trigger] final(self).segments@[i]
                        == old(self).segments@[i]
                &&& final(self).segments@.last().header.start_frame_no == old(self).current.header.start_frame_no
                &&& final(self).segments@.last().header.last_committed_frame_no == old(self).current.header.last_committed_frame_no
                &&& final(self).segments@.last().boundaries@ == old(self).current.boundaries@
                &&& final(self).segments@.last().index.entries@ == old(self).current.index.entries@
                &&& final(self).segments@.last().read_locks == old(self).current.read_locks
                &&& forall|o: u32|
                    o < old(self).current.spec_count()
                        ==> #[trigger] crate::frame::spec_frame_payload(
                        final(self).segments@.last().data@,
                        o,
                    ) == crate::frame::spec_frame_payload(old(self).current.data@, o)
                &&& final(self).current.header.start_frame_no == old(self).spec_last_committed()
                    + 1
                &&& final(self).current.spec_count() == 0
                &&& final(self).current.header.db_size == old(self).current.header.db_size
                &&& final(self).spec_last_committed() == old(self).spec_last_committed()
                &&& forall|rt: ReadTransaction|
                    old(self).valid_reader(rt) ==> #[trigger] final(self).valid_reader(rt)
            },
            r is Err ==> final(self).segments == old(self).segments,
    {
        let next_start = self.current.next_frame_no();
        if next_start >= 0x7fff_ffff_fff0_0000 {
            return Err(WalError::Io);
        }
        let db_size = self.current.db_size();
        let ghost pre = *self;
        let sealed = match self.current.seal() {
            Ok(s) => s,
            Err(e) => {
                return Err(e);
            },
        };
        self.current = Log::create(next_start, db_size);
        self.segments.push(sealed);
        proof {
            assert forall|i: int|
                0 <= i < self.segments@.len() implies (#[trigger] self.segments@[i]).wf()
                && self.segments@[i].header.spec_count_committed() > 0 by {
                if i < pre.segments@.len() {
                    assert(self.segments@[i] == pre.segments@[i]);
                }
            }
            assert forall|i: int|
                0 <= i < self.segments@.len() - 1 implies (#[trigger] self.segments@[i
                + 1]).header.start_frame_no == self.segments@[i].header.last_committed_frame_no
                + 1 by {
                if i + 1 < pre.segments@.len() {
                    assert(self.segments@[i] == pre.segments@[i]);
                    assert(self.segments@[i + 1] == pre.segments@[i + 1]);
                } else {
                    if i >= 0 {
                        assert(self.segments@[i] == pre.segments@[i]);
                    }
                }
            }
            assert(self.wf());
            assert forall|rt: ReadTransaction|
                pre.valid_reader(rt) implies #[trigger] self.valid_reader(rt) by {
                if pre.pinned_current(rt) {
                    assert(self.pinned_sealed(rt, self.segments@.len() - 1));
                } else {
                    let i = choose|i: int| pre.pinned_sealed(rt, i);
                    assert(self.segments@[i] == pre.segments@[i]);
                    assert(self.pinned_sealed(rt, i));
                }
            }
        }
        Ok(())
    }

    /// What a commit leaves in the current segment's index: the records
    /// already committed, then the transaction's merged savepoint records
    /// and the batch's own, oldest first.
    pub open spec fn spec_committed_index(
        self,
        tx: WriteTransaction,
        pages: Seq<(u32, Vec<u8>)>,
    ) -> Seq<(u32, u32)> {
        self.current.index.entries@ + (crate::transaction::spec_concat_savepoints(tx.savepoints@)
            + crate::log::spec_batch_records(tx.next_offset, pages))
    }

    /// Whether a commit of this batch leaves the current segment due for
    /// rotation: committed, nonempty overall, and at or past the
    /// threshold.
    pub open spec fn spec_rotation_due(
        self,
        tx: WriteTransaction,
        pages: Seq<(u32, Vec<u8>)>,
        size_after: u32,
    ) -> bool {
        let new_count = self.spec_count_after(tx, pages, size_after);
        size_after != 0 && new_count >= self.rotate_frames && new_count > 0
    }

    /// The current segment's committed frame count after this batch.
    pub open spec fn spec_count_after(
        self,
        tx: WriteTransaction,
        pages: Seq<(u32, Vec<u8>)>,
        size_after: u32,
    ) -> int {
        if size_after != 0 && (pages.len() > 0 || crate::transaction::spec_concat_savepoints(
            tx.savepoints@,
        ).len() > 0) {
            tx.next_offset + pages.len()
        } else {
            self.current.spec_count() as int
        }
    }

    /// The current segment's index after this batch: grown by the commit's
    /// records, or as it was.
    pub open spec fn spec_committed_index_after(
        self,
        tx: WriteTransaction,
        pages: Seq<(u32, Vec<u8>)>,
        size_after: u32,
    ) -> Seq<(u32, u32)> {
        if size_after != 0 && (pages.len() > 0 || crate::transaction::spec_concat_savepoints(
            tx.savepoints@,
        ).len() > 0) {
            self.spec_committed_index(tx, pages)
        } else {
            self.current.index.entries@
        }
    }

    /// Whether rotating after this commit would fail: the next segment's
    /// start would leave no headroom, or the serialized index of the
    /// committed segment would not fit its image.
    pub open spec fn spec_rotation_blocked(
        self,
        tx: WriteTransaction,
        pages: Seq<(u32, Vec<u8>)>,
        size_after: u32,
    ) -> bool {
        ||| self.current.header.start_frame_no + self.spec_count_after(tx, pages, size_after)
            >= 0x7fff_ffff_fff0_0000u64
        ||| exists|es: Seq<(u32, u64)>|
            crate::log::spec_packed_index(
                self.spec_committed_index_after(tx, pages, size_after),
                es,
            ) && crate::sealed_index::fst_encoded_len(es) > MAX_INDEX_BYTES
    }

    /// Appends a batch of pages through the write transaction; a nonzero
    /// `size_after` commits.  After a commit that grows the current
    /// segment to the rotation threshold, the segment is sealed and a
    /// fresh one installed; if the sealed queue then exceeds its
    /// threshold, a checkpoint is taken (its own failures are swallowed
    /// and retried on the next trigger) and the consumed segments are
    /// returned for the caller to delete.
    #[verifier::rlimit(100)]
    #[verifier::spinoff_prover]
    pub fn insert_frames(
        &mut self,
        tx: &mut WriteTransaction,
        pages: &Vec<(u32, Vec<u8>)>,
        size_after: u32,
    ) -> (r: Result<Vec<SealedLog>, WalError>)
        requires
            old(self).wf(),
            old(tx).wf(),
            !old(tx).is_commited,
            wf_pending(old(self).current, *old(tx)),
            forall|k: int|
                0 <= k < pages@.len() ==> (#[trigger] pages@[k]).1@.len() == PAGE_SIZE,
        ensures
            final(self).lock == old(self).lock,
            // a writer that lost the lock must not touch the log
            old(self).lock.tx_id != Some(old(tx).id) <==> r == Err::<Vec<SealedLog>, WalError>(
                WalError::LockStolen,
            ),
            old(self).lock.tx_id != Some(old(tx).id) ==> *final(self) == *old(self) && *final(tx)
                == *old(tx),
            ({
                let base = old(tx).next_offset;
                let n = pages@.len() as int;
                let start = old(self).current.header.start_frame_no;
                let cap_bad = old(tx).next_offset + pages@.len() > MAX_SEGMENT_FRAMES;
                let due = old(self).spec_rotation_due(*old(tx), pages@, size_after);
                let blocked = old(self).spec_rotation_blocked(*old(tx), pages@, size_after);
                old(self).lock.tx_id == Some(old(tx).id) ==> {
                    // a batch the segment cannot hold is refused untouched
                    &&& (cap_bad ==> r == Err::<Vec<SealedLog>, WalError>(WalError::Io)
                        && *final(self) == *old(self) && *final(tx) == *old(tx))
                    // otherwise success is owed unless a due rotation is
                    // blocked
                    &&& (!cap_bad && (!due || !blocked) ==> r is Ok)
                    &&& (!cap_bad && r is Err ==> due && blocked)
                    &&& (!cap_bad ==> {
                        &&& final(tx).wf()
                        &&& final(tx).next_offset == base + n
                        &&& final(tx).next_frame_no == start + base + n
                        &&& final(tx).is_commited == (size_after != 0)
                        &&& final(tx).read_tx == old(tx).read_tx
                        &&& final(tx).id == old(tx).id
                    })
                    &&& (r matches Ok(consumed) ==> {
                        &&& final(self).wf()
                        &&& (size_after == 0 ==> {
                            &&& final(self).current.header == old(self).current.header
                            &&& final(self).segments == old(self).segments
                            &&& consumed@.len() == 0
                            &&& final(self).db_file == old(self).db_file
                            &&& wf_pending(final(self).current, *final(tx))
                            &&& crate::log::spec_batch_ok(
                                final(self).current.data@,
                                start,
                                base,
                                pages@,
                                None,
                            )
                        })
                        &&& (size_after != 0 && (n > 0
                            || crate::transaction::spec_concat_savepoints(
                            old(tx).savepoints@,
                        ).len() > 0) ==> final(self).spec_last_committed() == start + base + n - 1
                            && final(self).current.header.db_size == size_after)
                        // no rotation: the queue and base are untouched
                        &&& (!due ==> final(self).segments == old(self).segments && consumed@.len()
                            == 0 && final(self).db_file == old(self).db_file)
                        // rotation: the committed segment is sealed and
                        // queued, a fresh current follows it, and the
                        // batch's images live in the sealed segment
                        &&& (due ==> {
                            let new_count = old(self).spec_count_after(
                                *old(tx),
                                pages@,
                                size_after,
                            );
                            &&& final(self).current.spec_count() == 0
                            &&& final(self).current.header.start_frame_no == start + new_count
                            &&& consumed@.len() + final(self).segments@.len() == old(self).segments@.len() + 1
                            &&& (consumed@.len() == 0 ==> final(self).db_file == old(self).db_file)
                            &&& (final(self).segments@.len() > 0 ==> {
                                &&& final(self).segments@.last().header.start_frame_no == start
                                &&& final(self).segments@.last().header.last_committed_frame_no == start
                                    + new_count - 1
                                &&& forall|k: int|
                                    #![trigger pages@[k]]
                                    0 <= k < n ==> crate::frame::spec_frame_payload(
                                        final(self).segments@.last().data@,
                                        (base + k) as u32,
                                    ) == crate::frame::spec_stored_page(
                                        pages@[k].1@,
                                        (start + base + k) as u64,
                                    )
                            })
                            &&& forall|j: int|
                                0 <= j < consumed@.len() && j < old(self).segments@.len()
                                    ==> #[trigger] consumed@[j] == (SealedLog {
                                    checkpointed: true,
                                    ..old(self).segments@[j]
                                })
                        })
                        &&& forall|rt: ReadTransaction, i: int|
                            old(self).pinned_sealed(rt, i) && i >= consumed@.len()
                                ==> #[trigger] final(self).pinned_sealed(
                                rt,
                                i - consumed@.len(),
                            )
                        &&& (consumed@.len() <= old(self).segments@.len()
                            ==> forall|rt: ReadTransaction|
                            old(self).pinned_current(rt) ==> #[trigger] final(self).valid_reader(
                                rt,
                            ))
                    })
                }
            }),
    {
        match tx.enter(&self.lock) {
            Ok(()) => {},
            Err(e) => {
                return Err(e);
            },
        }
        if pages.len() > (MAX_SEGMENT_FRAMES as usize) || tx.next_offset as u64 > (
        MAX_SEGMENT_FRAMES - pages.len() as u64) {
            return Err(WalError::Io);
        }
        let sa = if size_after != 0 {
            Some(size_after)
        } else {
            None
        };
        let ghost pre = *self;
        proof {
            assert(!pre.current.sealed);
        }
        match self.current.insert_pages(pages, sa, tx) {
            Ok(()) => {},
            Err(e) => {
                proof {
                    assert(false);
                }
                return Err(e);
            },
        }
        proof {
            assert forall|b: u64|
                pre.current.boundaries@.contains(b) implies
                #[trigger] self.current.boundaries@.contains(b) by {
                let i = choose|i: int|
                    0 <= i < pre.current.boundaries@.len() && pre.current.boundaries@[i] == b;
                assert(self.current.boundaries@[i] == b);
            }
            lemma_readers_preserved(pre, *self);
        }
        let mut consumed: Vec<SealedLog> = Vec::new();
        if tx.is_commited() && self.current.count_committed() >= self.rotate_frames
            && self.current.count_committed() > 0 {
            let ghost mid = *self;
            match self.swap_current() {
                Ok(()) => {},
                Err(e) => {
                    proof {
                        assert(mid.current.index.entries@ == old(
                            self,
                        ).spec_committed_index_after(*old(tx), pages@, size_after));
                        assert(mid.spec_last_committed() + 1 == old(
                            self,
                        ).current.header.start_frame_no + old(self).spec_count_after(
                            *old(tx),
                            pages@,
                            size_after,
                        ));
                        if mid.spec_last_committed() + 1 < 0x7fff_ffff_fff0_0000u64 {
                            let es = choose|es: Seq<(u32, u64)>|
                                crate::log::spec_packed_index(mid.current.index.entries@, es)
                                    && crate::sealed_index::fst_encoded_len(es)
                                    > MAX_INDEX_BYTES;
                            assert(crate::log::spec_packed_index(
                                old(self).spec_committed_index_after(
                                    *old(tx),
                                    pages@,
                                    size_after,
                                ),
                                es,
                            ));
                        }
                        assert(old(self).spec_rotation_blocked(*old(tx), pages@, size_after));
                    }
                    return Err(e);
                },
            }
            let ghost rotated = *self;
            if self.segments.len() > self.checkpoint_segments {
                match self.checkpoint() {
                    Ok(c) => {
                        consumed = c;
                        proof {
                            assert forall|j: int|
                                0 <= j < consumed@.len() && j < pre.segments@.len() implies
                                #[trigger] consumed@[j] == (SealedLog {
                                checkpointed: true,
                                ..pre.segments@[j]
                            }) by {
                                assert(rotated.segments@[j] == pre.segments@[j]);
                            }
                            // a reader pinned to the just-sealed current
                            // segment survives as long as the checkpoint
                            // stayed within the old queue
                            assert forall|rt: ReadTransaction|
                                consumed@.len() <= pre.segments@.len() && pre.pinned_current(rt)
                                implies #[trigger] self.valid_reader(rt) by {
                                assert(mid.valid_reader(rt));
                                assert(rotated.valid_reader(rt));
                                if rotated.pinned_current(rt) {
                                    assert(self.pinned_current(rt));
                                } else {
                                    let j = choose|j: int| rotated.pinned_sealed(rt, j);
                                    if j < rotated.segments@.len() - 1 {
                                        lemma_chain_order(
                                            rotated,
                                            j,
                                            rotated.segments@.len() - 1,
                                        );
                                        assert(rotated.segments@[j].wf());
                                        assert(false);
                                    }
                                    assert(j >= consumed@.len());
                                    assert(self.pinned_sealed(rt, j - consumed@.len()));
                                }
                            }
                        }
                    },
                    Err(_) => {
                        // a blocked checkpoint is retried on a later
                        // trigger; the commit and rotation stand
                    },
                }
            }
            proof {
                // when nothing was checkpointed away, every reader of the
                // rotated state stands
                assert forall|rt: ReadTransaction|
                    consumed@.len() == 0 && pre.pinned_current(rt) implies
                    #[trigger] self.valid_reader(rt) by {
                    assert(mid.valid_reader(rt));
                    assert(rotated.valid_reader(rt));
                }
                assert forall|rt: ReadTransaction, i: int|
                    consumed@.len() == 0 && pre.pinned_sealed(rt, i) implies
                    #[trigger] self.pinned_sealed(rt, i - consumed@.len()) by {
                    assert(self.segments@[i] == pre.segments@[i]);
                }
                // the fresh current follows the committed frames exactly
                assert(mid.spec_last_committed() + 1 == pre.current.header.start_frame_no
                    + pre.spec_count_after(*old(tx), pages@, size_after));
                // the sealed segment keeps every image of the batch
                let base2 = old(tx).next_offset as int;
                let start2 = pre.current.header.start_frame_no;
                assert forall|k2: int|
                    #![trigger pages@[k2]]
                    0 <= k2 < pages@.len() implies crate::frame::spec_frame_payload(
                    rotated.segments@.last().data@,
                    (base2 + k2) as u32,
                ) == crate::frame::spec_stored_page(
                    pages@[k2].1@,
                    (start2 + base2 + k2) as u64,
                ) by {
                    assert(crate::frame::spec_frame_payload(
                        mid.current.data@,
                        (base2 + k2) as u32,
                    ) == crate::frame::spec_stored_page(
                        pages@[k2].1@,
                        (start2 + base2 + k2) as u64,
                    ));
                    assert(((base2 + k2) as u32) < mid.current.spec_count());
                    assert(crate::frame::spec_frame_payload(
                        rotated.segments@.last().data@,
                        (base2 + k2) as u32,
                    ) == crate::frame::spec_frame_payload(
                        mid.current.data@,
                        (base2 + k2) as u32,
                    ));
                }
                // the sealed segment survives at the queue's end as long
                // as the checkpoint stayed within the old queue
                if self.segments@.len() > 0 {
                    assert(self.segments@.last() == rotated.segments@.last());
                }
            }
        }
        Ok(consumed)
    }

    /// Reads the newest image of `page_no` that `tx` may observe: a write
    /// transaction's own uncommitted write, else the newest committed
    /// frame within the snapshot from the current or a sealed segment,
    /// else the base file.  Whatever is returned, its trailing eight bytes
    /// decode to a frame number within a reader's snapshot; a base page
    /// that violates this is reported as corruption, and a base file too
    /// short for the page is an I/O error.
    #[verifier::rlimit(60)]
    pub fn read_frame(&self, tx: &Transaction, page_no: u32) -> (r: Result<Vec<u8>, WalError>)
        requires
            self.wf(),
            self.valid_reader(tx.spec_read()),
            page_no >= 1,
            *tx matches Transaction::Write(w) ==> w.wf() && wf_pending(self.current, w)
                && self.pinned_current(w.read_tx),
        ensures
            ({
                let rt = tx.spec_read();
                match self.spec_read_result(*tx, page_no) {
                    Some(b) => r matches Ok(page) && page@ == b,
                    None => {
                        if page_no * (PAGE_SIZE as int) <= self.db_file@.len() {
                            if crate::codec::spec_u64_from_be_bytes(
                                self.base_page(page_no).subrange(
                                    PAGE_SIZE - 8,
                                    PAGE_SIZE as int,
                                ),
                            ) <= rt.max_frame_no {
                                r matches Ok(page) && page@ == self.base_page(page_no)
                            } else {
                                r == Err::<Vec<u8>, WalError>(WalError::Corruption)
                            }
                        } else {
                            r == Err::<Vec<u8>, WalError>(WalError::Io)
                        }
                    },
                }
            }),
            r matches Ok(page) ==> page@.len() == PAGE_SIZE,
            *tx matches Transaction::Read(_) ==> (r matches Ok(page)
                ==> crate::codec::spec_u64_from_be_bytes(
                page@.subrange(PAGE_SIZE - 8, PAGE_SIZE as int),
            ) <= tx.spec_read().max_frame_no),
    {
        let rt_max = tx.read_ref().max_frame_no;
        let rt_start = tx.read_ref().log_start;
        match self.current.find_frame(page_no, tx) {
            Some(offset) => {
                proof {
                    lemma_find_frame_offset_ok(*self, *tx, page_no, offset);
                }
                let page = self.current.read_page_offset(offset);
                proof {
                    lemma_payload_trailer(self.current.data@, offset);
                }
                return Ok(page);
            },
            None => {},
        }
        let ghost segs = self.segments@;
        let mut i: usize = self.segments.len();
        proof {
            assert(segs.take(i as int) =~= segs);
        }
        while i > 0
            invariant
                self.wf(),
                self.valid_reader(tx.spec_read()),
                i <= segs.len(),
                segs == self.segments@,
                spec_seg_search(segs, page_no, rt_max) == spec_seg_search(
                    segs.take(i as int),
                    page_no,
                    rt_max,
                ),
                rt_max == tx.spec_read().max_frame_no,
                rt_start == tx.spec_read().log_start,
                self.current.spec_find_frame(page_no, *tx) is None,
            decreases i,
        {
            proof {
                assert(segs.take(i as int).last() == segs[i - 1]);
                assert(segs.take(i as int).drop_last() =~= segs.take(i - 1));
                assert(self.segments@[i - 1].wf());
            }
            let seg = &self.segments[i - 1];
            if seg.header.start_frame_no == rt_start {
                match seg.index.locate(page_no, seg.header.start_frame_no, rt_max) {
                    Some(o) => {
                        proof {
                            crate::index::lemma_locate_props(
                                seg.index.entries@,
                                page_no,
                                seg.header.start_frame_no,
                                rt_max,
                            );
                            let wi = choose|wi: int|
                                0 <= wi < seg.index.entries@.len() && #[trigger] seg.index.entries@[wi]
                                    == (page_no, o);
                            assert(seg.index.entries@[wi].1 < seg.header.spec_count_committed());
                            crate::frame::lemma_byte_offset_succ(o);
                            crate::frame::lemma_byte_offset_mono(
                                (o + 1) as u32,
                                seg.header.spec_count_committed() as u32,
                            );
                        }
                        let page = seg.read_offset(o);
                        proof {
                            lemma_payload_trailer(seg.data@, o);
                        }
                        return Ok(page);
                    },
                    None => {},
                }
            } else {
                proof {
                    lemma_skip_sound(*self, tx.spec_read(), i - 1);
                }
                match seg.read_page(page_no, rt_max) {
                    Some(page) => {
                        proof {
                            let o = crate::index::spec_locate(
                                seg.index.entries@,
                                page_no,
                                seg.header.start_frame_no,
                                rt_max,
                            ).unwrap();
                            crate::index::lemma_locate_props(
                                seg.index.entries@,
                                page_no,
                                seg.header.start_frame_no,
                                rt_max,
                            );
                            let wi = choose|wi: int|
                                0 <= wi < seg.index.entries@.len() && #[trigger] seg.index.entries@[wi]
                                    == (page_no, o);
                            assert(seg.index.entries@[wi].1 < seg.header.spec_count_committed());
                            crate::frame::lemma_byte_offset_succ(o);
                            crate::frame::lemma_byte_offset_mono(
                                (o + 1) as u32,
                                seg.header.spec_count_committed() as u32,
                            );
                            lemma_payload_trailer(seg.data@, o);
                        }
                        return Ok(page);
                    },
                    None => {
                        proof {
                            if seg.header.last_committed_frame_no > rt_max {
                                crate::index::lemma_locate_none_before_start(
                                    seg.index.entries@,
                                    page_no,
                                    seg.header.start_frame_no,
                                    rt_max,
                                );
                            }
                        }
                    },
                }
            }
            i = i - 1;
        }
        proof {
            assert(segs.take(0) =~= Seq::<SealedLog>::empty());
        }
        // the log never wrote this page within the snapshot: read the base
        // file
        let off64 = (page_no as u64 - 1) * (PAGE_SIZE as u64);
        proof {
            assert((page_no as u64 - 1) * (PAGE_SIZE as u64) == (page_no - 1) * (
            PAGE_SIZE as int) && (page_no as u64) * (PAGE_SIZE as u64) == page_no * (
            PAGE_SIZE as int) && (page_no as u64 - 1) * (PAGE_SIZE as u64) + (PAGE_SIZE as u64)
                == (page_no as u64) * (PAGE_SIZE as u64)) by (nonlinear_arith)
                requires
                    page_no >= 1,
            ;
        }
        if off64 > 0x8000_0000u64 - (PAGE_SIZE as u64) || (off64 + PAGE_SIZE as u64) as usize
            > self.db_file.len() {
            return Err(WalError::Io);
        }
        let page = crate::codec::read_range(&self.db_file, off64 as usize, PAGE_SIZE);
        let fno = crate::codec::u64_from_be_at(&page, PAGE_SIZE - 8);
        proof {
            assert(page@.subrange(PAGE_SIZE - 8, PAGE_SIZE as int) =~= self.db_file@.subrange(
                off64 + PAGE_SIZE - 8,
                off64 + PAGE_SIZE,
            ));
            assert(self.base_page(page_no).subrange(PAGE_SIZE - 8, PAGE_SIZE as int)
                =~= self.db_file@.subrange(off64 + PAGE_SIZE - 8, off64 + PAGE_SIZE));
        }
        if fno > rt_max {
            return Err(WalError::Corruption);
        }
        Ok(page)
    }
}

/// How many segments from the front of the queue no reader pins: the
/// prefix a checkpoint consumes.
pub open spec fn spec_zero_prefix(segs: Seq<SealedLog>) -> int
    decreases segs.len(),
{
    if segs.len() == 0 || segs[0].read_locks != 0 {
        0
    } else {
        1 + spec_zero_prefix(segs.drop_first())
    }
}

/// The forward scan for pinned segments computes the zero-lock prefix.
proof fn lemma_zero_prefix_char(segs: Seq<SealedLog>, k: int)
    requires
        0 <= k <= segs.len(),
        forall|j: int| 0 <= j < k ==> (#[trigger] segs[j]).read_locks == 0,
        k == segs.len() || segs[k].read_locks != 0,
    ensures
        spec_zero_prefix(segs) == k,
    decreases segs.len(),
{
    if segs.len() > 0 && k > 0 {
        assert(segs[0].read_locks == 0);
        let t = segs.drop_first();
        assert forall|j: int| 0 <= j < k - 1 implies (#[trigger] t[j]).read_locks == 0 by {
            assert(t[j] == segs[j + 1]);
        }
        if k - 1 < t.len() {
            assert(t[k - 1] == segs[k as int]);
        }
        lemma_zero_prefix_char(t, k - 1);
    }
}

/// Some page number in the consumable prefix that the base image cannot
/// address: the one condition under which a checkpoint refuses to run.
pub open spec fn spec_checkpoint_blocked(segs: Seq<SealedLog>) -> bool {
    exists|s2: int, e2: int|
        {
            &&& 0 <= s2 < spec_zero_prefix(segs)
            &&& 0 <= e2 < segs[s2].entries@.len()
            &&& !(1 <= (#[trigger] segs[s2].entries@[e2]).0 <= 0x0007_ffffu32)
        }
}

/// The newest image of `p` among `segs`, with no snapshot bound: what a
/// checkpoint of those segments writes for `p`.
pub open spec fn spec_prefix_view(segs: Seq<SealedLog>, p: u32) -> Option<Seq<u8>> {
    spec_seg_search(segs, p, u64::MAX)
}

/// In a well-formed sealed segment, the serialized index entry for `p`
/// names the newest frame for `p`, which an unbounded search also finds.
proof fn lemma_seg_newest(seg: SealedLog, p: u32)
    requires
        seg.wf(),
    ensures
        crate::index::spec_locate(
            seg.index.entries@,
            p,
            seg.header.start_frame_no,
            u64::MAX,
        ) == crate::index::spec_get_last(seg.index.entries@, p),
        crate::index::spec_map_get(seg.entries@, p) == match crate::index::spec_get_last(
            seg.index.entries@,
            p,
        ) {
            Some(o) => Some(crate::codec::spec_index_entry_pack(o, o)),
            None => None::<u64>,
        },
{
    assert forall|i: int|
        0 <= i < seg.index.entries@.len() implies seg.header.start_frame_no + (
    #[trigger] seg.index.entries@[i]).1 <= u64::MAX by {
        assert(seg.index.entries@[i].1 < seg.header.spec_count_committed());
    }
    crate::index::lemma_locate_all_within(
        seg.index.entries@,
        p,
        seg.header.start_frame_no,
        u64::MAX,
    );
}

impl SharedWal {
    /// Folds the sealed segments that no reader pins any longer into the
    /// base file — for each page, its newest image among those segments —
    /// then pops them from the queue, marked checkpointed, and returns
    /// them so that the caller can delete their files.  A page number the
    /// base image cannot address fails with an I/O error before anything
    /// is written.
    #[verifier::rlimit(100)]
    #[verifier::spinoff_prover]
    pub fn checkpoint(&mut self) -> (r: Result<Vec<SealedLog>, WalError>)
        requires
            old(self).wf(),
        ensures
            final(self).current == old(self).current,
            final(self).lock == old(self).lock,
            final(self).namespace == old(self).namespace,
            r is Err ==> *final(self) == *old(self),
            // the fold is owed on every state whose consumable prefix
            // indexes only addressable pages
            r is Err <==> spec_checkpoint_blocked(old(self).segments@),
            r matches Ok(consumed) ==> {
                let k = consumed@.len() as int;
                &&& final(self).wf()
                &&& k == spec_zero_prefix(old(self).segments@)
                &&& k <= old(self).segments@.len()
                &&& forall|j: int|
                    0 <= j < k ==> (#[trigger] old(self).segments@[j]).read_locks == 0
                &&& (k < old(self).segments@.len() ==> old(self).segments@[k].read_locks > 0)
                &&& forall|j: int|
                    0 <= j < k ==> #[trigger] consumed@[j] == (SealedLog {
                        checkpointed: true,
                        ..old(self).segments@[j]
                    })
                &&& final(self).segments@ == old(self).segments@.skip(k)
                &&& final(self).db_file@.len() >= old(self).db_file@.len()
                &&& (k == 0 ==> final(self).db_file == old(self).db_file)
                &&& spec_checkpoint_fold_ok(*old(self), final(self).db_file@, k)
                &&& forall|rt: ReadTransaction|
                    old(self).pinned_current(rt) ==> #[trigger] final(self).pinned_current(rt)
                &&& forall|rt: ReadTransaction, i: int|
                    old(self).pinned_sealed(rt, i) && i >= k ==> #[trigger] final(self).pinned_sealed(rt, i - k)
            },
    {
        let ghost w0 = *self;
        // the prefix no reader pins
        let mut k: usize = 0;
        while k < self.segments.len() && self.segments[k].read_locks == 0
            invariant
                self == old(self),
                old(self).wf(),
                k <= self.segments@.len(),
                forall|j: int| 0 <= j < k ==> (#[trigger] self.segments@[j]).read_locks == 0,
            decreases self.segments@.len() - k,
        {
            k = k + 1;
        }
        proof {
            lemma_zero_prefix_char(self.segments@, k as int);
        }
        // every page those segments hold must fit the base image
        let mut si: usize = 0;
        while si < k
            invariant
                self == old(self),
                old(self).wf(),
                k <= self.segments@.len(),
                k as int == spec_zero_prefix(self.segments@),
                si <= k,
                forall|s2: int, e2: int|
                    0 <= s2 < si && 0 <= e2 < self.segments@[s2].entries@.len() ==> 1 <= (
                    #[trigger] self.segments@[s2].entries@[e2]).0 <= 0x0007_ffffu32,
            decreases k - si,
        {
            let mut e: usize = 0;
            while e < self.segments[si].entries.len()
                invariant
                    self == old(self),
                    old(self).wf(),
                    si < k <= self.segments@.len(),
                    k as int == spec_zero_prefix(self.segments@),
                    e <= self.segments@[si as int].entries@.len(),
                    forall|s2: int, e2: int|
                        0 <= s2 < si && 0 <= e2 < self.segments@[s2].entries@.len() ==> 1 <= (
                        #[trigger] self.segments@[s2].entries@[e2]).0 <= 0x0007_ffffu32,
                    forall|e2: int|
                        0 <= e2 < e ==> 1 <= (#[trigger] self.segments@[si as int].entries@[e2]).0
                            <= 0x0007_ffffu32,
                decreases self.segments@[si as int].entries@.len() - e,
            {
                let p = self.segments[si].entries[e].0;
                if p < 1 || p > 0x0007_ffff {
                    proof {
                        assert(0 <= si < spec_zero_prefix(self.segments@) && 0 <= e
                            < self.segments@[si as int].entries@.len() && !(1
                            <= self.segments@[si as int].entries@[e as int].0
                            <= 0x0007_ffffu32));
                        assert(spec_checkpoint_blocked(self.segments@));
                    }
                    return Err(WalError::Io);
                }
                e = e + 1;
            }
            si = si + 1;
        }
        // fold oldest first: the newest image of each page lands last
        let ghost db0 = self.db_file@;
        let mut si: usize = 0;
        proof {
            assert(spec_checkpoint_fold_ok(w0, self.db_file@, 0));
        }
        while si < k
            invariant
                self.current == old(self).current,
                self.segments == old(self).segments,
                self.lock == old(self).lock,
                self.namespace == old(self).namespace,
                self.clock == old(self).clock,
                self.rotate_frames == old(self).rotate_frames,
                self.checkpoint_segments == old(self).checkpoint_segments,
                w0 == *old(self),
                old(self).wf(),
                si <= k <= self.segments@.len(),
                forall|s2: int, e2: int|
                    0 <= s2 < k && 0 <= e2 < self.segments@[s2].entries@.len() ==> 1 <= (
                    #[trigger] self.segments@[s2].entries@[e2]).0 <= 0x0007_ffffu32,
                self.db_file@.len() >= old(self).db_file@.len(),
                self.db_file@.len() as int % (PAGE_SIZE as int) == 0,
                self.db_file@.len() <= 0x8000_0000,
                k == 0 ==> self.db_file == old(self).db_file,
                spec_checkpoint_fold_ok(w0, self.db_file@, si as int),
            decreases k - si,
        {
            self.fold_segment(si, Ghost(w0));
            si = si + 1;
        }
        // pop the consumed prefix
        let mut consumed: Vec<SealedLog> = Vec::new();
        let ghost pre_pop = *self;
        let mut j: usize = 0;
        while j < k
            invariant
                j <= k <= pre_pop.segments@.len(),
                consumed@.len() == j,
                self.current == pre_pop.current,
                self.lock == pre_pop.lock,
                self.db_file == pre_pop.db_file,
                self.namespace == pre_pop.namespace,
                self.clock == pre_pop.clock,
                self.rotate_frames == pre_pop.rotate_frames,
                self.checkpoint_segments == pre_pop.checkpoint_segments,
                self.segments@ == pre_pop.segments@.skip(j as int),
                forall|x: int|
                    0 <= x < j ==> #[trigger] consumed@[x] == (SealedLog {
                        checkpointed: true,
                        ..pre_pop.segments@[x]
                    }),
            decreases k - j,
        {
            let mut s = self.segments.remove(0);
            s.mark_checkpointed();
            consumed.push(s);
            proof {
                assert(self.segments@ =~= pre_pop.segments@.skip(j + 1));
            }
            j = j + 1;
        }
        proof {
            assert forall|i: int|
                0 <= i < self.segments@.len() implies (#[trigger] self.segments@[i]).wf()
                && self.segments@[i].header.spec_count_committed() > 0 by {
                assert(self.segments@[i] == pre_pop.segments@[i + k]);
            }
            assert forall|i: int|
                0 <= i < self.segments@.len() - 1 implies (#[trigger] self.segments@[i
                + 1]).header.start_frame_no == self.segments@[i].header.last_committed_frame_no
                + 1 by {
                let x = i + k;
                assert(self.segments@[i] == pre_pop.segments@[x]);
                assert(self.segments@[i + 1] == pre_pop.segments@[x + 1]);
                assert(pre_pop.segments@[x + 1].header.start_frame_no
                    == pre_pop.segments@[x].header.last_committed_frame_no + 1);
            }
            if self.segments@.len() > 0 {
                assert(self.segments@.last() == pre_pop.segments@[pre_pop.segments@.len() - 1]);
            }
            assert(self.wf());
            assert forall|rt: ReadTransaction, i: int|
                w0.pinned_sealed(rt, i) && i >= k implies #[trigger] self.pinned_sealed(
                rt,
                i - k,
            ) by {
                assert(self.segments@[i - k] == pre_pop.segments@[i]);
            }
        }
        Ok(consumed)
    }
}

impl SharedWal {
    /// Writes every page held by sealed segment `si` to the base image,
    /// newest frame per page; folding segments in queue order makes the
    /// newest image of each page land last.
    fn fold_segment(&mut self, si: usize, w0: Ghost<SharedWal>)
        requires
            old(self).segments == w0@.segments,
            w0@.wf(),
            si < old(self).segments@.len(),
            forall|e2: int|
                0 <= e2 < old(self).segments@[si as int].entries@.len() ==> 1 <= (#[trigger] old(self).segments@[si as int].entries@[e2]).0 <= 0x0007_ffffu32,
            old(self).db_file@.len() as int % (PAGE_SIZE as int) == 0,
            old(self).db_file@.len() <= 0x8000_0000,
            old(self).db_file@.len() >= w0@.db_file@.len(),
            spec_checkpoint_fold_ok(w0@, old(self).db_file@, si as int),
        ensures
            *final(self) == (SharedWal { db_file: final(self).db_file, ..*old(self) }),
            final(self).db_file@.len() >= old(self).db_file@.len(),
            final(self).db_file@.len() as int % (PAGE_SIZE as int) == 0,
            final(self).db_file@.len() <= 0x8000_0000,
            spec_checkpoint_fold_ok(w0@, final(self).db_file@, si + 1),
    {
        let ghost seg = old(self).segments@[si as int];
        let mut e: usize = 0;
        proof {
            assert(seg.entries@.take(0) =~= Seq::<(u32, u64)>::empty());
            assert forall|p: u32|
                #![trigger crate::index::spec_map_get(seg.entries@.take(0), p)]
                p >= 1 implies match crate::index::spec_map_get(seg.entries@.take(0), p) {
                Some(v) => p * (PAGE_SIZE as int) <= self.db_file@.len() && spec_base_page(
                    self.db_file@,
                    p,
                ) == crate::frame::spec_frame_payload(seg.data@, ((v & 0xffff_ffffu64) as u32)),
                None => spec_fold_page_ok(w0@, self.db_file@, si as int, p),
            } by {
                crate::index::lemma_map_get_absent(seg.entries@.take(0), p);
                assert(spec_base_page(self.db_file@, p) == spec_base_page(self.db_file@, p));
            }
            assert(spec_fold_entries_ok(w0@, self.db_file@, si as int, seg, 0));
        }
        while e < self.segments[si].entries.len()
            invariant
                *self == (SharedWal { db_file: self.db_file, ..*old(self) }),
                w0@.wf(),
                seg == w0@.segments@[si as int],
                si < self.segments@.len(),
                self.segments == w0@.segments,
                e <= seg.entries@.len(),
                forall|e2: int|
                    0 <= e2 < seg.entries@.len() ==> 1 <= (#[trigger] seg.entries@[e2]).0
                        <= 0x0007_ffffu32,
                self.db_file@.len() >= old(self).db_file@.len(),
                old(self).db_file@.len() >= w0@.db_file@.len(),
                self.db_file@.len() as int % (PAGE_SIZE as int) == 0,
                self.db_file@.len() <= 0x8000_0000,
                spec_fold_entries_ok(w0@, self.db_file@, si as int, seg, e as int),
            decreases seg.entries@.len() - e,
        {
            self.fold_entry(si, e, w0, Ghost(seg));
            e = e + 1;
        }
        proof {
            lemma_fold_entries_complete(w0@, self.db_file@, si as int, seg);
        }
    }

    /// Writes one index entry of segment `si`: the newest image of its
    /// page lands at the page's slot in the base file.
    #[verifier::rlimit(100)]
    #[verifier::spinoff_prover]
    fn fold_entry(&mut self, si: usize, e: usize, w0: Ghost<SharedWal>, seg: Ghost<SealedLog>)
        requires
            old(self).segments == w0@.segments,
            w0@.wf(),
            si < old(self).segments@.len(),
            seg@ == w0@.segments@[si as int],
            e < seg@.entries@.len(),
            forall|e2: int|
                0 <= e2 < seg@.entries@.len() ==> 1 <= (#[trigger] seg@.entries@[e2]).0
                    <= 0x0007_ffffu32,
            old(self).db_file@.len() as int % (PAGE_SIZE as int) == 0,
            old(self).db_file@.len() <= 0x8000_0000,
            old(self).db_file@.len() >= w0@.db_file@.len(),
            spec_fold_entries_ok(w0@, old(self).db_file@, si as int, seg@, e as int),
        ensures
            *final(self) == (SharedWal { db_file: final(self).db_file, ..*old(self) }),
            final(self).db_file@.len() >= old(self).db_file@.len(),
            final(self).db_file@.len() as int % (PAGE_SIZE as int) == 0,
            final(self).db_file@.len() <= 0x8000_0000,
            spec_fold_entries_ok(w0@, final(self).db_file@, si as int, seg@, e + 1),
    {
        let (p, v) = self.segments[si].entries[e];
        let (_delta, o) = crate::codec::index_entry_split(v);
        proof {
            assert(w0@.segments@[si as int].wf());
            crate::index::lemma_map_get_found(seg@.entries@, e as int);
            assert(crate::index::spec_map_get(seg@.entries@, p) == Some(v));
            let ol = crate::index::spec_get_last(seg@.index.entries@, p).unwrap();
            assert(v == crate::codec::spec_index_entry_pack(ol, ol));
            crate::codec::lemma_index_entry_pack_split(ol, ol);
            assert(o == ol);
            crate::index::lemma_get_last_in(seg@.index.entries@, p);
            let wi = choose|wi: int|
                0 <= wi < seg@.index.entries@.len() && #[trigger] seg@.index.entries@[wi] == (
                    p,
                    o,
                );
            assert(seg@.index.entries@[wi].1 < seg@.header.spec_count_committed());
            crate::frame::lemma_byte_offset_succ(o);
            crate::frame::lemma_byte_offset_mono(
                (o + 1) as u32,
                seg@.header.spec_count_committed() as u32,
            );
        }
        let page = self.segments[si].read_offset(o);
        let at = page_base_offset(p);
        let ghost dbpre = self.db_file@;
        self.db_file = crate::codec::write_at(&self.db_file, at, &page);
        proof {
            lemma_fold_entry_step(w0@, si as int, seg@, e as int, dbpre, self.db_file@, page@, p, v, o);
        }
    }
}

/// A page the fold has not touched keeps its folded value when another
/// page is written.
proof fn lemma_fold_page_preserved(w0: SharedWal, dbpre: Seq<u8>, dbnew: Seq<u8>, si: int, q: u32)
    requires
        spec_fold_page_ok(w0, dbpre, si, q),
        dbnew.len() >= dbpre.len(),
        dbpre.len() >= w0.db_file@.len(),
        q * (PAGE_SIZE as int) <= dbpre.len() ==> spec_base_page(dbnew, q) == spec_base_page(
            dbpre,
            q,
        ),
    ensures
        spec_fold_page_ok(w0, dbnew, si, q),
{
}

/// Writing the newest image of the page named by entry `e` extends the
/// fold of segment `si` by that entry.
#[verifier::spinoff_prover]
proof fn lemma_fold_entry_step(
    w0: SharedWal,
    si: int,
    seg: SealedLog,
    e: int,
    dbpre: Seq<u8>,
    dbnew: Seq<u8>,
    page: Seq<u8>,
    p: u32,
    v: u64,
    o: u32,
)
    requires
        seg.wf(),
        0 <= e < seg.entries@.len(),
        seg.entries@[e] == (p, v),
        1 <= p <= 0x0007_ffffu32,
        (v & 0xffff_ffffu64) as u32 == o,
        page == crate::frame::spec_frame_payload(seg.data@, o),
        spec_fold_entries_ok(w0, dbpre, si, seg, e),
        dbnew == crate::codec::spec_write_at(dbpre, (p - 1) * (PAGE_SIZE as int), page),
        page.len() == PAGE_SIZE,
        dbpre.len() as int % (PAGE_SIZE as int) == 0,
        dbpre.len() >= w0.db_file@.len(),
    ensures
        spec_fold_entries_ok(w0, dbnew, si, seg, e + 1),
        dbnew.len() >= dbpre.len(),
        dbnew.len() == vstd::math::max(dbpre.len() as int, p * (PAGE_SIZE as int)),
{
    assert((p - 1) * (PAGE_SIZE as int) + (PAGE_SIZE as int) == p * (PAGE_SIZE as int))
        by (nonlinear_arith);
    assert(dbnew.len() == vstd::math::max(dbpre.len() as int, p * (PAGE_SIZE as int)));
    assert(spec_base_page(dbnew, p) =~= page);
    assert(seg.entries@.take(e + 1) =~= seg.entries@.take(e).push(seg.entries@[e]));
    assert forall|q: u32|
        #![trigger crate::index::spec_map_get(seg.entries@.take(e + 1), q)]
        q >= 1 implies match crate::index::spec_map_get(seg.entries@.take(e + 1), q) {
        Some(v2) => q * (PAGE_SIZE as int) <= dbnew.len() && spec_base_page(dbnew, q)
            == crate::frame::spec_frame_payload(seg.data@, ((v2 & 0xffff_ffffu64) as u32)),
        None => spec_fold_page_ok(w0, dbnew, si, q),
    } by {
        let m0 = crate::index::spec_map_get(seg.entries@.take(e), q);
        assert(m0 == crate::index::spec_map_get(seg.entries@.take(e), q));
        crate::index::lemma_map_get_push(seg.entries@.take(e), seg.entries@[e], q);
        if q != p {
            lemma_page_ranges_disjoint(p, q);
            if q * (PAGE_SIZE as int) <= dbpre.len() {
                assert(spec_base_page(dbnew, q) =~= spec_base_page(dbpre, q));
            } else {
                assert(q * (PAGE_SIZE as int) > dbpre.len());
            }
            if m0 is None {
                lemma_fold_page_preserved(w0, dbpre, dbnew, si, q);
            }
        } else {
            // this page's key occurs once in the entries, here
            assert forall|j2: int|
                0 <= j2 < e implies (#[trigger] seg.entries@.take(e)[j2]).0 != p by {
                assert(seg.entries@[j2].0 < seg.entries@[e].0);
            }
            crate::index::lemma_map_get_absent(seg.entries@.take(e), p);
            assert(crate::index::spec_map_get(seg.entries@.take(e + 1), p) == Some(
                seg.entries@[e].1,
            ));
        }
    }
}


/// Once every index entry of segment `si` has been folded in, the base
/// image reflects the fold of the first `si + 1` segments.
#[verifier::spinoff_prover]
proof fn lemma_fold_entries_complete(w0: SharedWal, db: Seq<u8>, si: int, seg: SealedLog)
    requires
        w0.wf(),
        0 <= si < w0.segments@.len(),
        seg == w0.segments@[si],
        spec_fold_entries_ok(w0, db, si, seg, seg.entries@.len() as int),
    ensures
        spec_checkpoint_fold_ok(w0, db, si + 1),
{
    assert(seg.wf());
    assert(seg.entries@.take(seg.entries@.len() as int) =~= seg.entries@);
    assert(w0.segments@.take(si + 1)[si] == w0.segments@[si]);
    assert(w0.segments@.take(si + 1).last() == seg);
    assert(w0.segments@.take(si + 1).drop_last() =~= w0.segments@.take(si));
    assert forall|p: u32| p >= 1 implies #[trigger] spec_fold_page_ok(w0, db, si + 1, p) by {
        lemma_seg_newest(seg, p);
        let m0 = crate::index::spec_map_get(seg.entries@.take(seg.entries@.len() as int), p);
        assert(m0 == crate::index::spec_map_get(seg.entries@.take(seg.entries@.len() as int), p));
        match crate::index::spec_get_last(seg.index.entries@, p) {
            Some(o) => {
                crate::codec::lemma_index_entry_pack_split(o, o);
                assert(crate::index::spec_map_get(seg.entries@, p) == Some(
                    crate::codec::spec_index_entry_pack(o, o),
                ));
            },
            None => {
                assert(crate::index::spec_map_get(seg.entries@, p) is None);
            },
        }
    }
}

/// The base image reflects the first `e` index entries of segment `si`
/// written over the fold of the earlier segments.
pub open spec fn spec_fold_entries_ok(
    w0: SharedWal,
    db: Seq<u8>,
    si: int,
    seg: SealedLog,
    e: int,
) -> bool {
    forall|p: u32|
        #![trigger crate::index::spec_map_get(seg.entries@.take(e), p)]
        p >= 1 ==> match crate::index::spec_map_get(seg.entries@.take(e), p) {
            Some(v) => p * (PAGE_SIZE as int) <= db.len() && spec_base_page(db, p)
                == crate::frame::spec_frame_payload(seg.data@, ((v & 0xffff_ffffu64) as u32)),
            None => spec_fold_page_ok(w0, db, si, p),
        }
}

/// Page `p` of the base image reflects folding the first `si` consumed
/// segments: its newest image among them, or its old content.
pub open spec fn spec_fold_page_ok(w0: SharedWal, db: Seq<u8>, si: int, p: u32) -> bool {
    match spec_prefix_view(w0.segments@.take(si), p) {
        Some(b) => p * (PAGE_SIZE as int) <= db.len() && spec_base_page(db, p) == b,
        None => p * (PAGE_SIZE as int) <= w0.db_file@.len() ==> spec_base_page(db, p)
            == spec_base_page(w0.db_file@, p),
    }
}

/// After folding the first `si` consumed segments, the base image holds,
/// for every page, its newest image among those segments, and every other
/// page it held before.
pub open spec fn spec_checkpoint_fold_ok(w0: SharedWal, db: Seq<u8>, si: int) -> bool {
    forall|p: u32| p >= 1 ==> #[trigger] spec_fold_page_ok(w0, db, si, p)
}

/// The image of page `p` in a base file image.
pub open spec fn spec_base_page(db: Seq<u8>, p: u32) -> Seq<u8> {
    db.subrange((p - 1) * (PAGE_SIZE as int), p * (PAGE_SIZE as int))
}

/// Byte position of page `p` in the base file.
fn page_base_offset(p: u32) -> (r: usize)
    requires
        1 <= p <= 0x0007_ffffu32,
    ensures
        r == (p - 1) * (PAGE_SIZE as int),
        r + PAGE_SIZE == p * (PAGE_SIZE as int),
        r + PAGE_SIZE <= 0x8000_0000,
        p * (PAGE_SIZE as int) as int % (PAGE_SIZE as int) == 0,
{
    proof {
        assert(((p - 1) as usize as int) * (PAGE_SIZE as int) == (p - 1) * (PAGE_SIZE as int) && (
        p - 1) * (PAGE_SIZE as int) + (PAGE_SIZE as int) == (p as int) * (PAGE_SIZE as int) && (
        p as int) * (PAGE_SIZE as int) <= 0x8000_0000 && (p as int) * (PAGE_SIZE as int) % (
        PAGE_SIZE as int) == 0) by (nonlinear_arith)
            requires
                1 <= p <= 0x0007_ffffu32,
        ;
    }
    ((p - 1) as usize) * PAGE_SIZE
}

/// Distinct pages occupy disjoint byte ranges of the base file.
proof fn lemma_page_ranges_disjoint(p: u32, q: u32)
    requires
        p >= 1,
        q >= 1,
        p != q,
    ensures
        q < p ==> q * (PAGE_SIZE as int) <= (p - 1) * (PAGE_SIZE as int),
        q > p ==> (q - 1) * (PAGE_SIZE as int) >= p * (PAGE_SIZE as int),
{
    assert((q < p ==> (q as int) * (PAGE_SIZE as int) <= ((p - 1) as int) * (PAGE_SIZE as int))
        && (q > p ==> ((q - 1) as int) * (PAGE_SIZE as int) >= (p as int) * (PAGE_SIZE as int)))
        by (nonlinear_arith)
        requires
            p >= 1,
            q >= 1,
            p != q,
    ;
}

/// The trailing eight bytes of a frame's stored page are its trailer.
proof fn lemma_payload_trailer(data: Seq<u8>, o: u32)
    requires
        crate::frame::spec_page_offset(o) + PAGE_SIZE <= data.len(),
    ensures
        crate::frame::spec_frame_payload(data, o).subrange(PAGE_SIZE - 8, PAGE_SIZE as int)
            == data.subrange(
            crate::frame::spec_page_offset(o) + PAGE_SIZE - 8,
            crate::frame::spec_page_offset(o) + PAGE_SIZE as int,
        ),
        crate::codec::spec_u64_from_be_bytes(
            crate::frame::spec_frame_payload(data, o).subrange(PAGE_SIZE - 8, PAGE_SIZE as int),
        ) == crate::frame::spec_frame_trailer_no(data, o),
{
    assert(crate::frame::spec_frame_payload(data, o).subrange(PAGE_SIZE - 8, PAGE_SIZE as int)
        =~= data.subrange(
        crate::frame::spec_page_offset(o) + PAGE_SIZE - 8,
        crate::frame::spec_page_offset(o) + PAGE_SIZE as int,
    ));
}

/// A write transaction's own lookup lands inside the written region of
/// the current segment.
proof fn lemma_find_frame_offset_ok(w: SharedWal, tx: Transaction, p: u32, offset: u32)
    requires
        w.wf(),
        tx matches Transaction::Write(wt) ==> wt.wf() && wf_pending(w.current, wt),
        w.current.spec_find_frame(p, tx) == Some(offset),
    ensures
        crate::frame::spec_page_offset(offset) + PAGE_SIZE <= w.current.data@.len(),
        w.current.data@.len() <= 0xffff_ffff,
        crate::frame::spec_frame_trailer_no(w.current.data@, offset)
            == w.current.header.start_frame_no + offset,
        w.spec_read_result(tx, p) == Some(
            crate::frame::spec_frame_payload(w.current.data@, offset),
        ),
        tx matches Transaction::Read(_) ==> w.current.header.start_frame_no + offset
            <= tx.spec_read().max_frame_no,
{
    let start = w.current.header.start_frame_no;
    let count = w.current.header.spec_count_committed();
    match tx {
        Transaction::Write(wt) => {
            let own = crate::transaction::spec_tx_find(wt.savepoints@, p);
            if own is Some {
                // the offset is one of the transaction's own records
                let pend = crate::transaction::spec_concat_savepoints(wt.savepoints@);
                crate::transaction::lemma_tx_find_is_concat(wt.savepoints@);
                crate::index::lemma_get_last_in(pend, p);
                let j = choose|j: int| 0 <= j < pend.len() && #[trigger] pend[j] == (p, offset);
                crate::transaction::lemma_pend_below(wt, j);
                crate::frame::lemma_byte_offset_succ(offset);
                crate::frame::lemma_byte_offset_mono((offset + 1) as u32, wt.next_offset);
                assert(crate::frame::spec_frame_trailer_no(w.current.data@, pend[j].1) == start
                    + pend[j].1);
            } else {
                lemma_committed_hit(w, p, tx.spec_read().max_frame_no, offset);
            }
        },
        Transaction::Read(_) => {
            lemma_committed_hit(w, p, tx.spec_read().max_frame_no, offset);
        },
    }
}

/// A hit in the current segment's committed index is a committed frame
/// within the snapshot.
proof fn lemma_committed_hit(w: SharedWal, p: u32, max: u64, offset: u32)
    requires
        w.wf(),
        crate::index::spec_locate(
            w.current.index.entries@,
            p,
            w.current.header.start_frame_no,
            max,
        ) == Some(offset),
    ensures
        crate::frame::spec_page_offset(offset) + PAGE_SIZE <= w.current.data@.len(),
        w.current.data@.len() <= 0xffff_ffff,
        crate::frame::spec_frame_trailer_no(w.current.data@, offset)
            == w.current.header.start_frame_no + offset,
        w.current.header.start_frame_no + offset <= max,
{
    let start = w.current.header.start_frame_no;
    let count = w.current.header.spec_count_committed();
    crate::index::lemma_locate_props(w.current.index.entries@, p, start, max);
    let wi = choose|wi: int|
        0 <= wi < w.current.index.entries@.len() && #[trigger] w.current.index.entries@[wi] == (
            p,
            offset,
        );
    assert(w.current.index.entries@[wi].1 < count);
    crate::frame::lemma_byte_offset_succ(offset);
    crate::frame::lemma_byte_offset_mono((offset + 1) as u32, count as u32);
}

/// A sealed segment that is not the pinned one either lies wholly within
/// the snapshot or wholly past it; in the latter case a bounded search in
/// it finds nothing.
proof fn lemma_skip_sound(w: SharedWal, rt: ReadTransaction, i: int)
    requires
        w.wf(),
        w.valid_reader(rt),
        0 <= i < w.segments@.len(),
        w.segments@[i].header.start_frame_no != rt.log_start,
    ensures
        w.segments@[i].header.last_committed_frame_no > rt.max_frame_no ==> rt.max_frame_no
            < w.segments@[i].header.start_frame_no,
{
    let seg = w.segments@[i];
    assert(seg.wf());
    if seg.header.last_committed_frame_no > rt.max_frame_no {
        if w.pinned_current(rt) {
            // every sealed segment precedes the current one, and the
            // snapshot covers everything before the current segment
            lemma_chain_order(w, i, w.segments@.len() - 1);
            if rt.max_frame_no == rt.log_start - 1 {
            } else {
                let bi = choose|bi: int|
                    0 <= bi < w.current.boundaries@.len() && w.current.boundaries@[bi]
                        == rt.max_frame_no;
                assert(w.current.boundaries@[bi] >= w.current.header.start_frame_no - 1);
            }
            assert(false);
        } else {
            let j = choose|j: int| w.pinned_sealed(rt, j);
            assert(w.segments@[j].wf());
            if rt.max_frame_no == rt.log_start - 1 {
            } else {
                let bi = choose|bi: int|
                    0 <= bi < w.segments@[j].boundaries@.len() && w.segments@[j].boundaries@[bi]
                        == rt.max_frame_no;
                assert(w.segments@[j].boundaries@[bi]
                    <= w.segments@[j].header.spec_last_committed());
            }
            // the snapshot lies within segment j, so segment i is newer
            if i < j {
                lemma_chain_order(w, i, j);
                assert(false);
            } else if i == j {
                assert(false);
            } else {
                lemma_chain_order(w, j, i);
            }
        }
    }
}

/// The newest visible image of `p` among sealed segments, newest segment
/// first.
pub open spec fn spec_seg_search(segs: Seq<SealedLog>, p: u32, max: u64) -> Option<Seq<u8>>
    decreases segs.len(),
{
    if segs.len() == 0 {
        None
    } else {
        match crate::index::spec_locate(
            segs.last().index.entries@,
            p,
            segs.last().header.start_frame_no,
            max,
        ) {
            Some(o) => Some(crate::frame::spec_frame_payload(segs.last().data@, o)),
            None => spec_seg_search(segs.drop_last(), p, max),
        }
    }
}

impl SharedWal {
    /// The newest image of page `p` that a snapshot at `max` can see in
    /// the log: the newest frame for `p` with a frame number at most
    /// `max`, from the current segment or, failing that, from the sealed
    /// segments, newest first.  `None` means the read falls through to
    /// the base file.
    pub open spec fn page_view(self, p: u32, max: u64) -> Option<Seq<u8>> {
        match crate::index::spec_locate(
            self.current.index.entries@,
            p,
            self.current.header.start_frame_no,
            max,
        ) {
            Some(o) => Some(crate::frame::spec_frame_payload(self.current.data@, o)),
            None => spec_seg_search(self.segments@, p, max),
        }
    }

    /// The image of page `p` in the base file.
    pub open spec fn base_page(self, p: u32) -> Seq<u8> {
        spec_base_page(self.db_file@, p)
    }

    /// What a read through `tx` must return from the log: a write
    /// transaction's own newest uncommitted write first, then the newest
    /// committed frame within the snapshot.
    pub open spec fn spec_read_result(self, tx: Transaction, p: u32) -> Option<Seq<u8>> {
        let own = match tx {
            Transaction::Write(w) => crate::transaction::spec_tx_find(w.savepoints@, p),
            Transaction::Read(_) => None,
        };
        match own {
            Some(o) => Some(crate::frame::spec_frame_payload(self.current.data@, o)),
            None => self.page_view(p, tx.spec_read().max_frame_no),
        }
    }
}

/// Within one chain of sealed segments, an older segment's frames come
/// strictly before a newer segment's.
proof fn lemma_chain_order(w: SharedWal, i: int, j: int)
    requires
        w.wf(),
        0 <= i <= j < w.segments@.len(),
    ensures
        w.segments@[i].header.start_frame_no <= w.segments@[j].header.start_frame_no,
        w.segments@[i].header.last_committed_frame_no
            <= w.segments@[j].header.last_committed_frame_no,
        i < j ==> w.segments@[i].header.last_committed_frame_no < w.segments@[
            j].header.start_frame_no,
        w.segments@[j].header.last_committed_frame_no < w.current.header.start_frame_no,
    decreases w.segments@.len() - i, 0nat,
{
    assert(w.segments@[i].wf());
    assert(w.segments@[j].wf());
    if i < j {
        lemma_chain_order(w, i + 1, j);
        assert(w.segments@[i + 1].header.start_frame_no == w.segments@[
            i].header.last_committed_frame_no + 1);
    }
    lemma_chain_to_current(w, j);
}

/// Every sealed segment ends before the current segment starts.
proof fn lemma_chain_to_current(w: SharedWal, j: int)
    requires
        w.wf(),
        0 <= j < w.segments@.len(),
    ensures
        w.segments@[j].header.last_committed_frame_no < w.current.header.start_frame_no,
    decreases w.segments@.len() - j,
{
    if j == w.segments@.len() - 1 {
        assert(w.segments@[j] == w.segments@.last());
    } else {
        lemma_chain_to_current(w, j + 1);
        assert(w.segments@[j + 1].header.start_frame_no == w.segments@[
            j].header.last_committed_frame_no + 1);
        assert(w.segments@[j + 1].wf());
    }
}

impl WriteTransaction {
    /// Checks that this transaction still holds the writer lock; a writer
    /// that lost it must not touch the log.
    pub fn enter(&self, lock: &WalLock) -> (r: Result<(), WalError>)
        requires
            !self.is_commited,
        ensures
            r is Ok <==> lock.tx_id == Some(self.id),
            r is Err ==> r == Err::<(), WalError>(WalError::LockStolen),
    {
        match lock.tx_id {
            Some(id) => {
                if id == self.id {
                    Ok(())
                } else {
                    Err(WalError::LockStolen)
                }
            },
            None => Err(WalError::LockStolen),
        }
    }

    /// Ends the write transaction, returning its read snapshot.  The lock
    /// is released only if this transaction still holds it; then, unless
    /// the lock is already promised, the oldest waiter is promised the
    /// lock and should be woken by the caller.
    pub fn downgrade(self, lock: &mut WalLock) -> (r: ReadTransaction)
        ensures
            r == self.read_tx,
            final(lock).next_tx_id == old(lock).next_tx_id,
            final(lock).tx_id == if old(lock).tx_id == Some(self.id) {
                None::<u64>
            } else {
                old(lock).tx_id
            },
            old(lock).reserved is Some ==> final(lock).reserved == old(lock).reserved && final(lock).waiters == old(lock).waiters,
            old(lock).reserved is None && old(lock).waiters@.len() > 0 ==> final(lock).reserved
                == Some(old(lock).waiters@[0]) && final(lock).waiters@ == old(lock).waiters@.skip(1),
            old(lock).reserved is None && old(lock).waiters@.len() == 0 ==> final(lock).reserved
                is None && final(lock).waiters == old(lock).waiters,
    {
        match lock.tx_id {
            Some(lock_id) => {
                if lock_id == self.id {
                    lock.tx_id = None;
                }
            },
            None => {},
        }
        match lock.reserved {
            Some(_) => {},
            None => {
                if lock.waiters.len() > 0 {
                    let next = lock.waiters.remove(0);
                    lock.reserved = Some(next);
                }
            },
        }
        self.read_tx
    }
}

impl SharedWal {
    /// Committed frame `fno` exists in this namespace and writes page `p`.
    pub open spec fn has_frame(self, fno: u64, p: u32) -> bool {
        ||| {
            &&& self.current.header.start_frame_no <= fno
            &&& fno < self.current.header.start_frame_no + self.current.spec_count()
            &&& crate::frame::spec_frame_page_no(
                self.current.data@,
                (fno - self.current.header.start_frame_no) as u32,
            ) == p
        }
        ||| exists|i: int|
            {
                let s = #[trigger] self.segments@[i];
                &&& 0 <= i < self.segments@.len()
                &&& s.header.start_frame_no <= fno
                &&& fno < s.header.start_frame_no + s.header.spec_count_committed()
                &&& crate::frame::spec_frame_page_no(
                    s.data@,
                    (fno - s.header.start_frame_no) as u32,
                ) == p
            }
    }

    /// The stored page image of committed frame `fno`.
    pub open spec fn frame_payload_of(self, fno: u64) -> Seq<u8> {
        if self.current.header.start_frame_no <= fno < self.current.header.start_frame_no
            + self.current.spec_count() {
            crate::frame::spec_frame_payload(
                self.current.data@,
                (fno - self.current.header.start_frame_no) as u32,
            )
        } else {
            let i = choose|i: int|
                0 <= i < self.segments@.len() && (#[trigger] self.segments@[i]).header.start_frame_no
                    <= fno < self.segments@[i].header.start_frame_no + self.segments@[
                    i
                ].header.spec_count_committed();
            crate::frame::spec_frame_payload(
                self.segments@[i].data@,
                (fno - self.segments@[i].header.start_frame_no) as u32,
            )
        }
    }
}

/// The completeness bound a reader can rely on in one segment: the
/// segment's last commit when the snapshot covers the whole segment,
/// otherwise the snapshot itself.
pub open spec fn bc_of(h: crate::header::LogHeader, max: u64) -> u64 {
    if h.spec_last_committed() <= max {
        h.spec_last_committed()
    } else {
        max
    }
}

/// A segment is complete at the bound `bc_of` gives a reader whose
/// snapshot is one of the segment's commit boundaries, lies before the
/// segment, or covers it whole.
proof fn lemma_reader_bc(
    h: crate::header::LogHeader,
    data: Seq<u8>,
    index: PageIndex,
    bnd: Seq<u64>,
    max: u64,
)
    requires
        h.wf(),
        crate::log::boundaries_wf(h, data, index, bnd),
        max == h.start_frame_no - 1 || bnd.contains(max) || h.spec_last_committed() <= max,
    ensures
        crate::log::complete_at(h, data, index, bc_of(h, max)),
        bc_of(h, max) <= max,
        bc_of(h, max) == max || h.start_frame_no + h.spec_count_committed() <= bc_of(h, max) + 1,
{
    let bc = bc_of(h, max);
    if h.spec_last_committed() <= max {
        if h.spec_count_committed() > 0 {
            let bi = choose|bi: int|
                0 <= bi < bnd.len() && bnd[bi] == h.last_committed_frame_no;
            assert(bnd.last() == h.last_committed_frame_no);
            assert(crate::log::complete_at(h, data, index, bnd[bnd.len() - 1]));
        } else {
            assert forall|o: u32|
                o < h.spec_count_committed() && h.start_frame_no + o <= bc implies
                #[trigger] crate::log::found_within(
                h,
                index,
                crate::frame::spec_frame_page_no(data, o),
                o,
                bc,
            ) by {}
        }
    } else {
        if max == h.start_frame_no - 1 {
            assert forall|o: u32|
                o < h.spec_count_committed() && h.start_frame_no + o <= bc implies
                #[trigger] crate::log::found_within(
                h,
                index,
                crate::frame::spec_frame_page_no(data, o),
                o,
                bc,
            ) by {}
        } else {
            let bi = choose|bi: int| 0 <= bi < bnd.len() && bnd[bi] == max;
            assert(crate::log::complete_at(h, data, index, bnd[bi]));
        }
    }
}

/// A reader pinned to a sealed segment has its whole snapshot before the
/// current segment.
proof fn lemma_reader_max_lt_current(w: SharedWal, rt: ReadTransaction)
    requires
        w.wf(),
        w.valid_reader(rt),
        !w.pinned_current(rt),
    ensures
        rt.max_frame_no < w.current.header.start_frame_no,
{
    let j = choose|j: int| w.pinned_sealed(rt, j);
    assert(w.segments@[j].wf());
    if rt.max_frame_no != rt.log_start - 1 {
        let bi = choose|bi: int|
            0 <= bi < w.segments@[j].boundaries@.len() && w.segments@[j].boundaries@[bi]
                == rt.max_frame_no;
        assert(w.segments@[j].boundaries@[bi] <= w.segments@[j].header.spec_last_committed());
    }
    lemma_chain_order(w, j, w.segments@.len() - 1);
}

/// What the log search returns is the newest committed frame for the
/// page within the snapshot: a found image belongs to the newest frame
/// writing the page with a frame number within the snapshot, and nothing
/// is found exactly when no such frame exists.
pub proof fn lemma_page_view_is_newest(w: SharedWal, rt: ReadTransaction, p: u32)
    requires
        w.wf(),
        w.valid_reader(rt),
    ensures
        ({
            let max = rt.max_frame_no;
            match w.page_view(p, max) {
                Some(b) => exists|f: u64|
                    {
                        &&& #[trigger] w.has_frame(f, p)
                        &&& f <= max
                        &&& b == w.frame_payload_of(f)
                        &&& forall|f2: u64| #[trigger] w.has_frame(f2, p) && f2 <= max ==> f2 <= f
                    },
                None => forall|f: u64| #[trigger] w.has_frame(f, p) ==> f > max,
            }
        }),
{
    let max = rt.max_frame_no;
    let cur = w.current;
    let r0 = crate::index::spec_locate(cur.index.entries@, p, cur.header.start_frame_no, max);
    if w.pinned_current(rt) {
        lemma_reader_bc(cur.header, cur.data@, cur.index, cur.boundaries@, max);
        crate::log::lemma_locate_is_newest(
            cur.header,
            cur.data@,
            cur.index,
            p,
            max,
            bc_of(cur.header, max),
        );
    } else {
        lemma_reader_max_lt_current(w, rt);
        crate::index::lemma_locate_none_before_start(
            cur.index.entries@,
            p,
            cur.header.start_frame_no,
            max,
        );
    }
    match r0 {
        Some(o) => {
            assert(w.pinned_current(rt));
            let f = (cur.header.start_frame_no + o) as u64;
            assert(w.has_frame(f, p));
            assert(w.frame_payload_of(f) == crate::frame::spec_frame_payload(cur.data@, o));
            assert forall|f2: u64| #[trigger] w.has_frame(f2, p) && f2 <= max implies f2 <= f by {
                if f2 >= cur.header.start_frame_no {
                    if f2 < cur.header.start_frame_no + cur.spec_count()
                        && crate::frame::spec_frame_page_no(
                        cur.data@,
                        (f2 - cur.header.start_frame_no) as u32,
                    ) == p {
                        assert(((f2 - cur.header.start_frame_no) as u32) <= o);
                    } else {
                        let i = choose|i: int|
                            {
                                let s = #[trigger] w.segments@[i];
                                &&& 0 <= i < w.segments@.len()
                                &&& s.header.start_frame_no <= f2
                                &&& f2 < s.header.start_frame_no
                                    + s.header.spec_count_committed()
                                &&& crate::frame::spec_frame_page_no(
                                    s.data@,
                                    (f2 - s.header.start_frame_no) as u32,
                                ) == p
                            };
                        lemma_chain_order(w, i, w.segments@.len() - 1);
                        assert(false);
                    }
                } else {
                    assert(f2 < cur.header.start_frame_no <= f);
                }
            }
        },
        None => {
            lemma_seg_search_newest(w, rt, p, w.segments@.len() as int);
            match spec_seg_search(w.segments@, p, max) {
                Some(b) => {
                    assert(w.segments@.take(w.segments@.len() as int) =~= w.segments@);
                    let f = choose|f: u64|
                        {
                            &&& #[trigger] has_frame_upto(w, f, p, w.segments@.len() as int)
                            &&& f <= max
                            &&& b == w.frame_payload_of(f)
                            &&& forall|f2: u64|
                                #[trigger] has_frame_upto(w, f2, p, w.segments@.len() as int) && f2
                                    <= max ==> f2 <= f
                        };
                    assert(w.has_frame(f, p)) by {
                        lemma_has_frame_from_upto(w, f, p);
                    }
                    assert(b == w.frame_payload_of(f));
                    assert forall|f2: u64|
                        #[trigger] w.has_frame(f2, p) && f2 <= max implies f2 <= f by {
                        lemma_no_current_frame_within(w, rt, p, f2);
                        assert(has_frame_upto(w, f2, p, w.segments@.len() as int));
                    }
                },
                None => {
                    assert(w.segments@.take(w.segments@.len() as int) =~= w.segments@);
                    assert forall|f: u64| #[trigger] w.has_frame(f, p) implies f > max by {
                        if f <= max {
                            lemma_no_current_frame_within(w, rt, p, f);
                            assert(has_frame_upto(w, f, p, w.segments@.len() as int));
                        }
                    }
                },
            }
        },
    }
}

/// A frame found among the sealed segments is a frame of the namespace.
proof fn lemma_has_frame_from_upto(w: SharedWal, f: u64, p: u32)
    requires
        has_frame_upto(w, f, p, w.segments@.len() as int),
    ensures
        w.has_frame(f, p),
{
}

/// When the current segment's bounded search misses, a frame for the page
/// within the snapshot cannot live in the current segment.
proof fn lemma_no_current_frame_within(w: SharedWal, rt: ReadTransaction, p: u32, f: u64)
    requires
        w.wf(),
        w.valid_reader(rt),
        crate::index::spec_locate(
            w.current.index.entries@,
            p,
            w.current.header.start_frame_no,
            rt.max_frame_no,
        ) is None,
        w.has_frame(f, p),
        f <= rt.max_frame_no,
    ensures
        has_frame_upto(w, f, p, w.segments@.len() as int),
{
    let cur = w.current;
    let max = rt.max_frame_no;
    if f >= cur.header.start_frame_no && f < cur.header.start_frame_no + cur.spec_count()
        && crate::frame::spec_frame_page_no(
        cur.data@,
        (f - cur.header.start_frame_no) as u32,
    ) == p {
        if w.pinned_current(rt) {
            lemma_reader_bc(cur.header, cur.data@, cur.index, cur.boundaries@, max);
            crate::log::lemma_locate_is_newest(
                cur.header,
                cur.data@,
                cur.index,
                p,
                max,
                bc_of(cur.header, max),
            );
            assert(crate::frame::spec_frame_page_no(
                cur.data@,
                (f - cur.header.start_frame_no) as u32,
            ) == p);
            assert(false);
        } else {
            lemma_reader_max_lt_current(w, rt);
            assert(false);
        }
    }
}

/// Committed frame `fno` exists among the first `n` sealed segments and
/// writes page `p`.
pub open spec fn has_frame_upto(w: SharedWal, fno: u64, p: u32, n: int) -> bool {
    exists|i: int|
        {
            let s = #[trigger] w.segments@[i];
            &&& 0 <= i < n <= w.segments@.len()
            &&& s.header.start_frame_no <= fno
            &&& fno < s.header.start_frame_no + s.header.spec_count_committed()
            &&& crate::frame::spec_frame_page_no(s.data@, (fno - s.header.start_frame_no) as u32)
                == p
        }
}

/// The sealed-segment search over the first `n` segments returns the
/// newest frame for the page within the snapshot among them.
proof fn lemma_seg_search_newest(w: SharedWal, rt: ReadTransaction, p: u32, n: int)
    requires
        w.wf(),
        w.valid_reader(rt),
        0 <= n <= w.segments@.len(),
    ensures
        ({
            let max = rt.max_frame_no;
            match spec_seg_search(w.segments@.take(n), p, max) {
                Some(b) => exists|f: u64|
                    {
                        &&& #[trigger] has_frame_upto(w, f, p, n)
                        &&& f <= max
                        &&& b == w.frame_payload_of(f)
                        &&& forall|f2: u64|
                            #[trigger] has_frame_upto(w, f2, p, n) && f2 <= max ==> f2 <= f
                    },
                None => forall|f: u64| #[trigger] has_frame_upto(w, f, p, n) ==> f > max,
            }
        }),
    decreases n,
{
    let max = rt.max_frame_no;
    if n == 0 {
        assert forall|f: u64| #[trigger] has_frame_upto(w, f, p, 0) implies f > max by {
            let i = choose|i: int|
                {
                    let s = #[trigger] w.segments@[i];
                    0 <= i < 0 && s.header.start_frame_no <= f
                };
            assert(false);
        }
        return ;
    }
    let seg = w.segments@[n - 1];
    assert(seg.wf());
    assert(w.segments@.take(n).last() == seg);
    assert(w.segments@.take(n).drop_last() =~= w.segments@.take(n - 1));
    let rn = crate::index::spec_locate(seg.index.entries@, p, seg.header.start_frame_no, max);
    lemma_seg_bc_for_reader(w, rt, n - 1);
    match rn {
        Some(o) => {
            crate::log::lemma_locate_is_newest(
                seg.header,
                seg.data@,
                seg.index,
                p,
                max,
                bc_of(seg.header, max),
            );
            let f = (seg.header.start_frame_no + o) as u64;
            assert(has_frame_upto(w, f, p, n));
            assert(w.frame_payload_of(f) == crate::frame::spec_frame_payload(seg.data@, o)) by {
                lemma_frame_payload_in_segment(w, f, n - 1);
            }
            assert forall|f2: u64|
                #[trigger] has_frame_upto(w, f2, p, n) && f2 <= max implies f2 <= f by {
                let i = choose|i: int|
                    {
                        let s = #[trigger] w.segments@[i];
                        &&& 0 <= i < n <= w.segments@.len()
                        &&& s.header.start_frame_no <= f2
                        &&& f2 < s.header.start_frame_no + s.header.spec_count_committed()
                        &&& crate::frame::spec_frame_page_no(
                            s.data@,
                            (f2 - s.header.start_frame_no) as u32,
                        ) == p
                    };
                if i == n - 1 {
                    assert((f2 - seg.header.start_frame_no) as u32 <= o);
                } else {
                    lemma_chain_order(w, i, n - 1);
                    assert(f2 <= w.segments@[i].header.last_committed_frame_no);
                    assert(f2 < seg.header.start_frame_no <= f);
                }
            }
        },
        None => {
            crate::log::lemma_locate_is_newest(
                seg.header,
                seg.data@,
                seg.index,
                p,
                max,
                bc_of(seg.header, max),
            );
            lemma_seg_search_newest(w, rt, p, n - 1);
            match spec_seg_search(w.segments@.take(n - 1), p, max) {
                Some(b) => {
                    let f = choose|f: u64|
                        {
                            &&& #[trigger] has_frame_upto(w, f, p, n - 1)
                            &&& f <= max
                            &&& b == w.frame_payload_of(f)
                            &&& forall|f2: u64|
                                #[trigger] has_frame_upto(w, f2, p, n - 1) && f2 <= max ==> f2
                                    <= f
                        };
                    assert(has_frame_upto(w, f, p, n));
                    assert forall|f2: u64|
                        #[trigger] has_frame_upto(w, f2, p, n) && f2 <= max implies f2 <= f by {
                        let i = choose|i: int|
                            {
                                let s = #[trigger] w.segments@[i];
                                &&& 0 <= i < n <= w.segments@.len()
                                &&& s.header.start_frame_no <= f2
                                &&& f2 < s.header.start_frame_no + s.header.spec_count_committed()
                                &&& crate::frame::spec_frame_page_no(
                                    s.data@,
                                    (f2 - s.header.start_frame_no) as u32,
                                ) == p
                            };
                        if i == n - 1 {
                            assert(((f2 - seg.header.start_frame_no) as u32)
                                < seg.header.spec_count_committed());
                            assert(false);
                        } else {
                            assert(has_frame_upto(w, f2, p, n - 1));
                        }
                    }
                },
                None => {
                    assert forall|f2: u64|
                        #[trigger] has_frame_upto(w, f2, p, n) implies f2 > max by {
                        let i = choose|i: int|
                            {
                                let s = #[trigger] w.segments@[i];
                                &&& 0 <= i < n <= w.segments@.len()
                                &&& s.header.start_frame_no <= f2
                                &&& f2 < s.header.start_frame_no + s.header.spec_count_committed()
                                &&& crate::frame::spec_frame_page_no(
                                    s.data@,
                                    (f2 - s.header.start_frame_no) as u32,
                                ) == p
                            };
                        if i == n - 1 {
                            assert(((f2 - seg.header.start_frame_no) as u32)
                                < seg.header.spec_count_committed());
                        } else {
                            assert(has_frame_upto(w, f2, p, n - 1));
                        }
                    }
                },
            }
        },
    }
}

/// The payload of a frame that lives in sealed segment `i` reads from
/// that segment: the chain keeps frame-number ranges disjoint.
pub proof fn lemma_frame_payload_in_segment(w: SharedWal, f: u64, i: int)
    requires
        w.wf(),
        0 <= i < w.segments@.len(),
        w.segments@[i].header.start_frame_no <= f,
        f < w.segments@[i].header.start_frame_no + w.segments@[
            i
        ].header.spec_count_committed(),
    ensures
        w.frame_payload_of(f) == crate::frame::spec_frame_payload(
            w.segments@[i].data@,
            (f - w.segments@[i].header.start_frame_no) as u32,
        ),
{
    assert(w.segments@[i].wf());
    lemma_chain_order(w, i, w.segments@.len() - 1);
    assert(f < w.current.header.start_frame_no);
    let i2 = choose|i2: int|
        0 <= i2 < w.segments@.len() && (#[trigger] w.segments@[i2]).header.start_frame_no <= f
            < w.segments@[i2].header.start_frame_no + w.segments@[
            i2
        ].header.spec_count_committed();
    if i2 != i {
        assert(w.segments@[i2].wf());
        if i2 < i {
            lemma_chain_order(w, i2, i);
            assert(false);
        } else {
            lemma_chain_order(w, i, i2);
            assert(false);
        }
    }
}

/// The completeness bound holds for sealed segment `i` under any valid
/// reader: the segment either post-dates the snapshot, is the pinned one
/// with the snapshot among its boundaries, or lies wholly within the
/// snapshot.
proof fn lemma_seg_bc_for_reader(w: SharedWal, rt: ReadTransaction, i: int)
    requires
        w.wf(),
        w.valid_reader(rt),
        0 <= i < w.segments@.len(),
    ensures
        crate::log::complete_at(
            w.segments@[i].header,
            w.segments@[i].data@,
            w.segments@[i].index,
            bc_of(w.segments@[i].header, rt.max_frame_no),
        ),
        bc_of(w.segments@[i].header, rt.max_frame_no) <= rt.max_frame_no,
        bc_of(w.segments@[i].header, rt.max_frame_no) == rt.max_frame_no || w.segments@[
            i
        ].header.start_frame_no + w.segments@[i].header.spec_count_committed() <= bc_of(
            w.segments@[i].header,
            rt.max_frame_no,
        ) + 1,
{
    let seg = w.segments@[i];
    assert(seg.wf());
    let max = rt.max_frame_no;
    if seg.header.spec_last_committed() <= max {
        lemma_reader_bc(seg.header, seg.data@, seg.index, seg.boundaries@, max);
    } else {
        // the snapshot ends inside or before this segment: it is the
        // pinned one or strictly newer
        if w.pinned_current(rt) {
            lemma_chain_order(w, i, w.segments@.len() - 1);
            if max == rt.log_start - 1 {
            } else {
                let bi = choose|bi: int|
                    0 <= bi < w.current.boundaries@.len() && w.current.boundaries@[bi] == max;
                assert(w.current.boundaries@[bi] >= w.current.header.start_frame_no - 1);
            }
            assert(false);
        } else {
            let j = choose|j: int| w.pinned_sealed(rt, j);
            assert(w.segments@[j].wf());
            if max != rt.log_start - 1 {
                let bi = choose|bi: int|
                    0 <= bi < w.segments@[j].boundaries@.len() && w.segments@[j].boundaries@[bi]
                        == max;
                assert(w.segments@[j].boundaries@[bi]
                    <= w.segments@[j].header.spec_last_committed());
            }
            if i < j {
                lemma_chain_order(w, i, j);
                assert(false);
            } else if i == j {
                lemma_reader_bc(seg.header, seg.data@, seg.index, seg.boundaries@, max);
            } else {
                // the segment post-dates the snapshot entirely: nothing in
                // it is within the bound, so completeness there is empty
                lemma_chain_order(w, j, i);
                assert(max < seg.header.start_frame_no);
                assert forall|o: u32|
                    o < seg.header.spec_count_committed() && seg.header.start_frame_no + o
                        <= bc_of(seg.header, max) implies #[trigger] crate::log::found_within(
                    seg.header,
                    seg.index,
                    crate::frame::spec_frame_page_no(seg.data@, o),
                    o,
                    bc_of(seg.header, max),
                ) by {}
            }
        }
    }
}

/// What a snapshot at `m` reads for page `p`: the newest visible frame
/// image, or the base file's page, or nothing when the base file does not
/// reach the page.
pub open spec fn spec_read_of(w: SharedWal, p: u32, m: u64) -> Option<Seq<u8>> {
    match w.page_view(p, m) {
        Some(b) => Some(b),
        None => if p * (PAGE_SIZE as int) <= w.db_file@.len() {
            Some(w.base_page(p))
        } else {
            None
        },
    }
}

/// Searching a concatenation of segment runs searches the newer run
/// first.
proof fn lemma_seg_search_concat(a: Seq<SealedLog>, b: Seq<SealedLog>, p: u32, m: u64)
    ensures
        spec_seg_search(b, p, m) is Some ==> spec_seg_search(a + b, p, m) == spec_seg_search(
            b,
            p,
            m,
        ),
        spec_seg_search(b, p, m) is None ==> spec_seg_search(a + b, p, m) == spec_seg_search(
            a,
            p,
            m,
        ),
    decreases b.len(),
{
    if b.len() == 0 {
        assert(a + b =~= a);
    } else {
        assert((a + b).last() == b.last());
        assert((a + b).drop_last() =~= a + b.drop_last());
        lemma_seg_search_concat(a, b.drop_last(), p, m);
    }
}

/// On a run of segments the snapshot wholly covers, the bounded search
/// agrees with the unbounded one that checkpointing folds.
proof fn lemma_prefix_search_within(w: SharedWal, k: int, p: u32, m: u64)
    requires
        w.wf(),
        0 <= k <= w.segments@.len(),
        k > 0 ==> m >= w.segments@[k - 1].header.last_committed_frame_no,
    ensures
        spec_seg_search(w.segments@.take(k), p, m) == spec_prefix_view(w.segments@.take(k), p),
    decreases k,
{
    if k > 0 {
        let seg = w.segments@[k - 1];
        assert(seg.wf());
        assert(w.segments@.take(k).last() == seg);
        assert(w.segments@.take(k).drop_last() =~= w.segments@.take(k - 1));
        assert forall|i: int|
            0 <= i < seg.index.entries@.len() implies seg.header.start_frame_no + (
        #[trigger] seg.index.entries@[i]).1 <= m && seg.header.start_frame_no
            + seg.index.entries@[i].1 <= u64::MAX by {
            assert(seg.index.entries@[i].1 < seg.header.spec_count_committed());
        }
        crate::index::lemma_locate_all_within(
            seg.index.entries@,
            p,
            seg.header.start_frame_no,
            m,
        );
        crate::index::lemma_locate_all_within(
            seg.index.entries@,
            p,
            seg.header.start_frame_no,
            u64::MAX,
        );
        if k >= 2 {
            lemma_chain_order(w, k - 2, k - 1);
        }
        lemma_prefix_search_within(w, k - 1, p, m);
    }
}

/// A checkpoint does not change what a snapshot that covers every
/// consumed segment reads: every page image visible before is visible
/// after, with the same bytes — from a surviving frame, or from the base
/// file the consumed segments were folded into.
pub proof fn lemma_checkpoint_preserves_reads(
    w1: SharedWal,
    w2: SharedWal,
    k: int,
    p: u32,
    m: u64,
)
    requires
        w1.wf(),
        0 <= k <= w1.segments@.len(),
        w2.current == w1.current,
        w2.segments@ == w1.segments@.skip(k),
        w2.db_file@.len() >= w1.db_file@.len(),
        spec_checkpoint_fold_ok(w1, w2.db_file@, k),
        k > 0 ==> m >= w1.segments@[k - 1].header.last_committed_frame_no,
        p >= 1,
    ensures
        spec_read_of(w1, p, m) matches Some(b) ==> spec_read_of(w2, p, m) == Some(b),
{
    let cur = w1.current;
    let r0 = crate::index::spec_locate(cur.index.entries@, p, cur.header.start_frame_no, m);
    if r0 is Some {
        return ;
    }
    lemma_seg_search_concat(w1.segments@.take(k), w1.segments@.skip(k), p, m);
    assert(w1.segments@.take(k) + w1.segments@.skip(k) =~= w1.segments@);
    if spec_seg_search(w1.segments@.skip(k), p, m) is Some {
        return ;
    }
    lemma_prefix_search_within(w1, k, p, m);
    assert(spec_fold_page_ok(w1, w2.db_file@, k, p));
    match spec_prefix_view(w1.segments@.take(k), p) {
        Some(b) => {
            assert(w1.page_view(p, m) == Some(b));
            assert(w2.page_view(p, m) is None);
            assert(spec_base_page(w2.db_file@, p) == b);
        },
        None => {
            assert(w1.page_view(p, m) is None);
            if p * (PAGE_SIZE as int) <= w1.db_file@.len() {
                assert(spec_base_page(w2.db_file@, p) == spec_base_page(w1.db_file@, p));
            }
        },
    }
}

/// Committed frame numbers are monotonic per namespace: a transaction
/// that committed while the log stood at `w1` owns no frame number past
/// those a transaction upgraded at a later state `w2` will assign.  A
/// committed transaction's `next_frame_no` is one past the log's last
/// committed frame at its commit (`insert_pages` publishes exactly that
/// header), the last committed frame number only grows, and `upgrade`
/// hands a new writer `next_frame_no` one past the current last.
pub proof fn lemma_committed_frame_nos_monotonic(
    w1: SharedWal,
    w2: SharedWal,
    t1: WriteTransaction,
    t2: WriteTransaction,
)
    requires
        t1.is_commited,
        t1.next_frame_no <= w1.spec_last_committed() + 1,
        w1.spec_last_committed() <= w2.spec_last_committed(),
        t2.next_frame_no == w2.spec_last_committed() + 1,
    ensures
        t1.next_frame_no <= t2.next_frame_no,
{
}

/// Copies a read snapshot field for field.
pub fn copy_read_tx(rt: &ReadTransaction) -> (r: ReadTransaction)
    ensures
        r == *rt,
{
    ReadTransaction {
        max_frame_no: rt.max_frame_no,
        db_size: rt.db_size,
        log_start: rt.log_start,
        created_at: rt.created_at,
        conn_id: rt.conn_id,
        pages_read: rt.pages_read,
    }
}

/// Two coordinator states with the same current header and boundaries and
/// the same sealed headers and boundaries admit the same readers.
proof fn lemma_readers_preserved(w1: SharedWal, w2: SharedWal)
    requires
        w2.current.header.start_frame_no == w1.current.header.start_frame_no,
        forall|b: u64|
            w1.current.boundaries@.contains(b) ==> #[trigger] w2.current.boundaries@.contains(b),
        w2.segments@.len() == w1.segments@.len(),
        forall|i: int|
            0 <= i < w1.segments@.len() ==> (#[trigger] w2.segments@[i]).header
                == w1.segments@[i].header && w2.segments@[i].boundaries
                == w1.segments@[i].boundaries,
    ensures
        forall|rt: ReadTransaction| w1.valid_reader(rt) ==> #[trigger] w2.valid_reader(rt),
{
    assert forall|rt: ReadTransaction| w1.valid_reader(rt) implies #[trigger] w2.valid_reader(
        rt,
    ) by {
        if w1.pinned_current(rt) {
            assert(w2.pinned_current(rt));
        } else {
            let i = choose|i: int| w1.pinned_sealed(rt, i);
            assert(w2.pinned_sealed(rt, i));
        }
    }
}

} // verus!
