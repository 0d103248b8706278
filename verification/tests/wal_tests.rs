use libsql_wal::error::WalError;
use libsql_wal::frame::PAGE_SIZE;
use libsql_wal::log::Log;
use libsql_wal::registry::WalRegistry;
use libsql_wal::shared_wal::{SharedWal, UpgradeOutcome};
use libsql_wal::transaction::Transaction;

fn page(fill: u8) -> Vec<u8> {
    vec![fill; PAGE_SIZE]
}

fn decode_trailer(buf: &[u8]) -> u64 {
    let mut t = [0u8; 8];
    t.copy_from_slice(&buf[PAGE_SIZE - 8..]);
    u64::from_be_bytes(t)
}

fn commit(
    wal: &mut SharedWal,
    conn: u64,
    pages: Vec<(u32, Vec<u8>)>,
    size_after: u32,
) -> Vec<libsql_wal::sealed_log::SealedLog> {
    let rt = wal.begin_read(conn);
    let mut tx = Transaction::Read(rt);
    let outcome = wal.upgrade(&mut tx).unwrap();
    assert_eq!(outcome, UpgradeOutcome::Upgraded);
    match tx {
        Transaction::Write(mut w) => {
            let consumed = wal.insert_frames(&mut w, &pages, size_after).unwrap();
            assert!(w.is_commited());
            let rt = w.downgrade(&mut wal.lock);
            wal.end_read(rt);
            consumed
        },
        Transaction::Read(_) => panic!("expected a write transaction"),
    }
}

#[test]
fn single_writer_commit() {
    let mut wal = SharedWal::create("main".to_string(), 1000, 10);
    wal.db_file = vec![0u8; PAGE_SIZE];
    let early_reader = wal.begin_read(1);
    assert_eq!(early_reader.db_size, 0);
    assert_eq!(early_reader.max_frame_no, 0);
    commit(&mut wal, 2, vec![(1, page(0xaa)), (2, page(0xbb)), (3, page(0xcc))], 3);
    // the early reader still sees the base file for page 1
    let tx_early = Transaction::Read(early_reader);
    let buf = wal.read_frame(&tx_early, 1).unwrap();
    assert!(buf.iter().all(|b| *b == 0));
    // a new reader observes the commit
    let late_reader = wal.begin_read(3);
    assert_eq!(late_reader.db_size, 3);
    assert_eq!(late_reader.max_frame_no, 3);
    let tx_late = Transaction::Read(late_reader);
    let buf2 = wal.read_frame(&tx_late, 2).unwrap();
    assert_eq!(&buf2[..PAGE_SIZE - 8], &page(0xbb)[..PAGE_SIZE - 8]);
    assert_eq!(decode_trailer(&buf2), 2);
}

#[test]
fn write_read_roundtrip() {
    let mut wal = SharedWal::create("main".to_string(), 1000, 10);
    let pages: Vec<(u32, Vec<u8>)> = (1..=5u32).map(|p| (p, page(p as u8))).collect();
    commit(&mut wal, 1, pages, 5);
    let rt = wal.begin_read(2);
    let tx = Transaction::Read(rt);
    for p in 1..=5u32 {
        let buf = wal.read_frame(&tx, p).unwrap();
        // the written bytes come back, except the trailing eight, which
        // carry the frame number
        assert_eq!(&buf[..PAGE_SIZE - 8], &page(p as u8)[..PAGE_SIZE - 8]);
        assert_eq!(decode_trailer(&buf), p as u64);
        assert!(decode_trailer(&buf) <= tx.read_ref().max_frame_no);
    }
}

#[test]
fn own_uncommitted_writes_visible() {
    let mut wal = SharedWal::create("main".to_string(), 1000, 10);
    let rt = wal.begin_read(1);
    let mut tx = Transaction::Read(rt);
    wal.upgrade(&mut tx).unwrap();
    match &mut tx {
        Transaction::Write(w) => {
            wal.insert_frames(w, &vec![(4, page(0x44))], 0).unwrap();
            assert!(!w.is_commited());
        },
        Transaction::Read(_) => panic!("expected a write transaction"),
    }
    // the writer reads its own uncommitted page
    let buf = wal.read_frame(&tx, 4).unwrap();
    assert_eq!(&buf[..PAGE_SIZE - 8], &page(0x44)[..PAGE_SIZE - 8]);
    // a fresh reader does not
    let other = wal.begin_read(2);
    assert_eq!(other.max_frame_no, 0);
}

#[test]
fn conflicting_upgrade() {
    let mut wal = SharedWal::create("main".to_string(), 1000, 10);
    let r1 = wal.begin_read(1);
    // a writer commits ten frames while the snapshot is out
    let pages: Vec<(u32, Vec<u8>)> = (1..=10u32).map(|p| (p, page(p as u8))).collect();
    commit(&mut wal, 2, pages, 10);
    let mut tx1 = Transaction::Read(r1);
    let r = wal.upgrade(&mut tx1);
    assert_eq!(r, Err(WalError::BusySnapshot));
}

#[test]
fn fair_queue() {
    let mut wal = SharedWal::create("main".to_string(), 1000, 10);
    // the first writer takes the lock
    let mut w1 = Transaction::Read(wal.begin_read(1));
    assert_eq!(wal.upgrade(&mut w1).unwrap(), UpgradeOutcome::Upgraded);
    // three more connections queue up, in order
    let mut c2 = Transaction::Read(wal.begin_read(2));
    let mut c3 = Transaction::Read(wal.begin_read(3));
    let mut c4 = Transaction::Read(wal.begin_read(4));
    assert_eq!(wal.upgrade(&mut c2).unwrap(), UpgradeOutcome::Queued);
    assert_eq!(wal.upgrade(&mut c3).unwrap(), UpgradeOutcome::Queued);
    assert_eq!(wal.upgrade(&mut c4).unwrap(), UpgradeOutcome::Queued);
    // releasing promises the lock to the oldest waiter
    match w1 {
        Transaction::Write(w) => {
            w.downgrade(&mut wal.lock);
        },
        Transaction::Read(_) => panic!("expected a write transaction"),
    }
    assert_eq!(wal.lock.reserved, Some(2));
    // a latecomer cannot barge past the reservation
    let mut c5 = Transaction::Read(wal.begin_read(5));
    assert_eq!(wal.upgrade(&mut c5).unwrap(), UpgradeOutcome::Queued);
    assert_eq!(wal.lock.waiters, vec![3, 4, 5]);
    // the promised connection claims the lock, then hands it on in order
    assert_eq!(wal.upgrade(&mut c2).unwrap(), UpgradeOutcome::Upgraded);
    match c2 {
        Transaction::Write(w) => {
            w.downgrade(&mut wal.lock);
        },
        Transaction::Read(_) => panic!("expected a write transaction"),
    }
    assert_eq!(wal.lock.reserved, Some(3));
    assert_eq!(wal.upgrade(&mut c3).unwrap(), UpgradeOutcome::Upgraded);
    match c3 {
        Transaction::Write(w) => {
            w.downgrade(&mut wal.lock);
        },
        Transaction::Read(_) => panic!("expected a write transaction"),
    }
    assert_eq!(wal.lock.reserved, Some(4));
}

#[test]
fn rotation() {
    let mut wal = SharedWal::create("main".to_string(), 4, 10);
    let pages: Vec<(u32, Vec<u8>)> = (1..=4u32).map(|p| (p, page(p as u8))).collect();
    commit(&mut wal, 1, pages, 4);
    // the first commit reached the threshold: the segment sealed
    assert_eq!(wal.segments.len(), 1);
    assert_eq!(wal.segments[0].header.last_committed_frame_no, 4);
    assert_eq!(wal.current.header.start_frame_no, 5);
    commit(&mut wal, 1, vec![(5, page(5)), (6, page(6))], 6);
    assert_eq!(wal.segments.len(), 1);
    assert_eq!(wal.current.header.start_frame_no, 5);
    assert_eq!(wal.current.header.last_committed_frame_no, 6);
    // frames from both segments stay readable
    let tx = Transaction::Read(wal.begin_read(2));
    for p in 1..=6u32 {
        let buf = wal.read_frame(&tx, p).unwrap();
        assert_eq!(decode_trailer(&buf), p as u64);
    }
}

#[test]
fn seal_then_insert_is_refused() {
    let mut log = Log::create(1, 0);
    log.seal().unwrap();
    assert!(log.sealed);
    // a sealed segment refuses writes, whatever the transaction state
    let mut wal = SharedWal::create("main".to_string(), 1000, 10);
    let mut tx = Transaction::Read(wal.begin_read(1));
    wal.upgrade(&mut tx).unwrap();
    match &mut tx {
        Transaction::Write(w) => {
            let r = log.insert_pages(&vec![(1, page(1))], Some(1), w);
            assert_eq!(r, Err(WalError::ReadOnly));
        },
        Transaction::Read(_) => panic!("expected a write transaction"),
    }
}

#[test]
fn checkpoint_merges_newest_wins() {
    let mut wal = SharedWal::create("main".to_string(), 2, 10);
    // segment one: page 7 written at frame 3
    commit(&mut wal, 1, vec![(1, page(1)), (2, page(2)), (7, page(0x0a))], 3);
    assert_eq!(wal.segments.len(), 1);
    // segment two: page 7 written again, at frame 11
    let mut pages: Vec<(u32, Vec<u8>)> = (1..=7u32).map(|p| (p, page(p as u8))).collect();
    pages.push((7, page(0x0b)));
    commit(&mut wal, 1, pages, 7);
    assert_eq!(wal.segments.len(), 2);
    assert_eq!(wal.segments[1].header.last_committed_frame_no, 11);
    let consumed = wal.checkpoint().unwrap();
    assert_eq!(consumed.len(), 2);
    assert!(consumed.iter().all(|s| s.is_checkpointed()));
    assert_eq!(wal.segments.len(), 0);
    // the base file holds the newest image of page 7 at its slot
    let at = 6 * PAGE_SIZE;
    assert_eq!(&wal.db_file[at..at + PAGE_SIZE - 8], &page(0x0b)[..PAGE_SIZE - 8]);
    assert_eq!(decode_trailer(&wal.db_file[at..at + PAGE_SIZE]), 11);
}

#[test]
fn checkpoint_skips_pinned_segments() {
    let mut wal = SharedWal::create("main".to_string(), 2, 10);
    let pinned = wal.begin_read(1);
    commit(&mut wal, 2, vec![(1, page(1)), (2, page(2))], 2);
    assert_eq!(wal.segments.len(), 1);
    // the early reader pinned what is now the first sealed segment
    let consumed = wal.checkpoint().unwrap();
    assert_eq!(consumed.len(), 0);
    assert_eq!(wal.segments.len(), 1);
    wal.end_read(pinned);
    let consumed2 = wal.checkpoint().unwrap();
    assert_eq!(consumed2.len(), 1);
}

#[test]
fn seal_then_reopen_reads_same_bytes() {
    let mut wal = SharedWal::create("main".to_string(), 1000, 10);
    commit(&mut wal, 1, vec![(1, page(0x11)), (9, page(0x99))], 9);
    let mut log = std::mem::replace(&mut wal.current, Log::create(100, 0));
    let sealed = log.seal().unwrap();
    let before = sealed.read_page(9, u64::MAX).unwrap();
    // reopen the sealed image from its bytes and seal it again
    let mut reopened = Log::recover(sealed.image().clone()).unwrap();
    let resealed = reopened.seal().unwrap();
    let after = resealed.read_page(9, u64::MAX).unwrap();
    assert_eq!(before, after);
    assert!(resealed.read_page(5, u64::MAX).is_none());
}

#[test]
fn seal_recovery_of_unsealed_segment() {
    let mut wal = SharedWal::create("main".to_string(), 1000, 10);
    commit(&mut wal, 1, vec![(1, page(0x11)), (2, page(0x22))], 2);
    // the current segment's image was never sealed: its header carries no
    // index position
    let image = wal.current.data.clone();
    let mut registry = WalRegistry::new(1000, 10);
    registry
        .open_namespace("main".to_string(), vec![image], vec![0u8; PAGE_SIZE])
        .unwrap();
    let i = registry.find(&"main".to_string()).unwrap();
    let reopened = &mut registry.namespaces[i].1;
    // the unsealed segment was detected and became current, its index
    // rebuilt by scanning the frames
    assert_eq!(reopened.segments.len(), 0);
    assert_eq!(reopened.current.header.last_committed_frame_no, 2);
    let tx = Transaction::Read(reopened.begin_read(1));
    let buf = reopened.read_frame(&tx, 2).unwrap();
    assert_eq!(&buf[..PAGE_SIZE - 8], &page(0x22)[..PAGE_SIZE - 8]);
}

#[test]
fn checkpoint_then_reopen_keeps_pages_visible() {
    let mut wal = SharedWal::create("main".to_string(), 2, 10);
    commit(&mut wal, 1, vec![(1, page(0x11)), (2, page(0x22))], 2);
    commit(&mut wal, 1, vec![(3, page(0x33)), (2, page(0x2b))], 3);
    assert_eq!(wal.segments.len(), 2);
    wal.checkpoint().unwrap();
    // persist: the base file plus the (empty) current segment image
    let base = wal.db_file.clone();
    let current_image = wal.current.data.clone();
    let mut registry = WalRegistry::new(2, 10);
    registry
        .open_namespace("main".to_string(), vec![current_image], base)
        .unwrap();
    let i = registry.find(&"main".to_string()).unwrap();
    let reopened = &mut registry.namespaces[i].1;
    let tx = Transaction::Read(reopened.begin_read(1));
    for (p, fill, fno) in [(1u32, 0x11u8, 1u64), (2, 0x2b, 4), (3, 0x33, 3)] {
        let buf = reopened.read_frame(&tx, p).unwrap();
        assert_eq!(&buf[..PAGE_SIZE - 8], &page(fill)[..PAGE_SIZE - 8]);
        assert_eq!(decode_trailer(&buf), fno);
    }
}

#[test]
fn read_locks_follow_transactions() {
    let mut wal = SharedWal::create("main".to_string(), 1000, 10);
    assert_eq!(wal.current.read_locks, 0);
    let r1 = wal.begin_read(1);
    let r2 = wal.begin_read(2);
    assert_eq!(wal.current.read_locks, 2);
    wal.end_read(r1);
    assert_eq!(wal.current.read_locks, 1);
    wal.end_read(r2);
    assert_eq!(wal.current.read_locks, 0);
}

#[test]
fn savepoint_rollback_discards_writes() {
    let mut wal = SharedWal::create("main".to_string(), 1000, 10);
    let mut tx = Transaction::Read(wal.begin_read(1));
    wal.upgrade(&mut tx).unwrap();
    match &mut tx {
        Transaction::Write(w) => {
            wal.insert_frames(w, &vec![(1, page(0x11))], 0).unwrap();
            let sp = w.savepoint();
            wal.insert_frames(w, &vec![(2, page(0x22))], 0).unwrap();
            assert_eq!(w.find_frame(2), Some(1));
            w.reset(sp);
            assert_eq!(w.find_frame(2), None);
            assert_eq!(w.find_frame(1), Some(0));
            assert_eq!(w.next_frame_no, 2);
        },
        Transaction::Read(_) => panic!("expected a write transaction"),
    }
}

#[test]
fn frame_numbers_are_monotonic_across_writers() {
    let mut wal = SharedWal::create("main".to_string(), 1000, 10);
    // first writer commits two frames
    let mut tx1 = Transaction::Read(wal.begin_read(1));
    wal.upgrade(&mut tx1).unwrap();
    let first_next;
    match tx1 {
        Transaction::Write(mut w) => {
            wal.insert_frames(&mut w, &vec![(1, page(1)), (2, page(2))], 2).unwrap();
            first_next = w.next_frame_no;
            let rt = w.downgrade(&mut wal.lock);
            wal.end_read(rt);
        },
        Transaction::Read(_) => panic!("expected a write transaction"),
    }
    // a later writer starts past everything the first one owned
    let mut tx2 = Transaction::Read(wal.begin_read(2));
    wal.upgrade(&mut tx2).unwrap();
    match tx2 {
        Transaction::Write(w) => {
            assert!(first_next <= w.next_frame_no);
            assert_eq!(w.next_frame_no, 3);
            let rt = w.downgrade(&mut wal.lock);
            wal.end_read(rt);
        },
        Transaction::Read(_) => panic!("expected a write transaction"),
    }
}

#[test]
fn checkpoint_preserves_visible_pages() {
    let mut wal = SharedWal::create("main".to_string(), 2, 10);
    commit(&mut wal, 1, vec![(1, page(0x11)), (2, page(0x22))], 2);
    commit(&mut wal, 1, vec![(2, page(0x2c)), (4, page(0x44))], 4);
    // read every page before the sealed segments are folded away
    let tx = Transaction::Read(wal.begin_read(2));
    let before: Vec<Vec<u8>> = [1u32, 2, 4]
        .iter()
        .map(|p| wal.read_frame(&tx, *p).unwrap())
        .collect();
    wal.end_read(match tx {
        Transaction::Read(rt) => rt,
        Transaction::Write(_) => panic!("expected a read transaction"),
    });
    let consumed = wal.checkpoint().unwrap();
    assert_eq!(consumed.len(), 2);
    let tx2 = Transaction::Read(wal.begin_read(3));
    for (i, p) in [1u32, 2, 4].iter().enumerate() {
        let after = wal.read_frame(&tx2, *p).unwrap();
        assert_eq!(after, before[i]);
    }
}

#[test]
fn checkpoint_threshold_query() {
    let mut wal = SharedWal::create("main".to_string(), 1, 1);
    assert!(!wal.should_checkpoint());
    commit(&mut wal, 1, vec![(1, page(1))], 1);
    assert_eq!(wal.segments.len(), 1);
    assert!(!wal.should_checkpoint());
    // the second rotation pushes the queue past the threshold, so the
    // commit itself triggers a checkpoint; only the zero-lock prefix
    // folds, and the writer's own pin holds the just-sealed segment back
    let consumed = commit(&mut wal, 1, vec![(2, page(2))], 2);
    assert_eq!(consumed.len(), 1);
    assert!(consumed.iter().all(|s| s.is_checkpointed()));
    assert_eq!(wal.segments.len(), 1);
    assert!(!wal.should_checkpoint());
    // with the pin gone, an explicit checkpoint drains the rest
    let consumed2 = wal.checkpoint().unwrap();
    assert_eq!(consumed2.len(), 1);
    assert_eq!(wal.segments.len(), 0);
}

#[test]
fn shutdown_seals_every_namespace() {
    let mut registry = WalRegistry::new(1000, 10);
    registry
        .open_namespace("main".to_string(), Vec::new(), Vec::new())
        .unwrap();
    let i = registry.find(&"main".to_string()).unwrap();
    commit(&mut registry.namespaces[i].1, 1, vec![(1, page(1))], 1);
    registry.shutdown().unwrap();
    let wal = &registry.namespaces[i].1;
    assert_eq!(wal.current.header.last_committed_frame_no, 0);
    assert_eq!(wal.segments.len(), 1);
    assert_eq!(wal.segments[0].header.last_committed_frame_no, 1);
}

#[test]
fn base_read_past_end_is_io_error() {
    let mut wal = SharedWal::create("main".to_string(), 1000, 10);
    let tx = Transaction::Read(wal.begin_read(1));
    let r = wal.read_frame(&tx, 1);
    assert_eq!(r, Err(WalError::Io));
}

#[test]
fn stale_base_trailer_is_corruption() {
    let mut wal = SharedWal::create("main".to_string(), 1000, 10);
    let mut base = vec![0u8; PAGE_SIZE];
    // a trailer claiming a frame the snapshot cannot cover
    base[PAGE_SIZE - 1] = 9;
    wal.db_file = base;
    let tx = Transaction::Read(wal.begin_read(1));
    let r = wal.read_frame(&tx, 1);
    assert_eq!(r, Err(WalError::Corruption));
}
