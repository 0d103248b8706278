//! The registry: one coordinator per namespace.
//!
//! It opens namespaces from persisted segment images, validating that the
//! segments chain contiguously, designating the newest as current when it
//! was never sealed — its index is rebuilt by scanning the frames — and
//! sealing the rest; and it seals every namespace's current segment at
//! shutdown so that all state can be persisted.

use vstd::prelude::*;

use crate::error::WalError;
use crate::frame::{MAX_INDEX_BYTES, MAX_SEGMENT_FRAMES, PAGE_SIZE};
use crate::log::Log;
use crate::sealed_log::SealedLog;
use crate::shared_wal::{SharedWal, WalLock};

verus! {

/// The base file image can back a namespace: page-aligned and within
/// the addressable bound.
pub open spec fn spec_base_ok(base: Seq<u8>) -> bool {
    base.len() as int % (PAGE_SIZE as int) == 0 && base.len() <= 0x8000_0000
}

/// Every image decodes by the frame scan, and consecutive images chain
/// contiguously.
pub open spec fn spec_images_ok(images: Seq<Vec<u8>>) -> bool {
    &&& forall|i: int| 0 <= i < images.len() ==> Log::spec_recoverable((#[trigger] images[i])@)
    &&& forall|i: int|
        0 <= i < images.len() - 1 ==> crate::header::LogHeader::spec_decode(
            (#[trigger] images[i + 1])@,
        ).start_frame_no == crate::header::LogHeader::spec_decode(
            images[i]@,
        ).spec_last_committed() + 1
}

/// Reopening leaves frame-number headroom: when every image was sealed, a
/// fresh current segment must start after the newest one.
pub open spec fn spec_reopen_headroom(images: Seq<Vec<u8>>) -> bool {
    images.len() > 0 && crate::header::LogHeader::spec_decode(images.last()@).index_offset != 0
        ==> crate::header::LogHeader::spec_decode(images.last()@).spec_last_committed() + 1
        < 0x7fff_ffff_fff0_0000u64
}

/// No nonempty image's rebuilt index serializes past the size a sealed
/// segment can carry.
pub open spec fn spec_no_index_overflow(images: Seq<Vec<u8>>) -> bool {
    forall|i: int|
        0 <= i < images.len() && crate::header::LogHeader::spec_decode(
            (#[trigger] images[i])@,
        ).spec_count_committed() > 0 ==> !(exists|es: Seq<(u32, u64)>|
            crate::log::spec_packed_index(Log::spec_scan_index(images[i]@), es)
                && crate::sealed_index::fst_encoded_len(es)
                > crate::frame::MAX_INDEX_BYTES)
}

/// A namespace's persisted state the registry can open.
pub open spec fn spec_openable(images: Seq<Vec<u8>>, base: Seq<u8>) -> bool {
    &&& spec_base_ok(base)
    &&& spec_images_ok(images)
    &&& spec_reopen_headroom(images)
    &&& spec_no_index_overflow(images)
}

/// A rebuilt live segment carries exactly what its file image committed:
/// the decoded header fields, the scanned page index, and every committed
/// frame's payload.
pub open spec fn spec_log_matches(l: Log, img: Seq<u8>) -> bool {
    let h = crate::header::LogHeader::spec_decode(img);
    &&& l.header.start_frame_no == h.start_frame_no
    &&& l.header.last_committed_frame_no == h.last_committed_frame_no
    &&& l.header.db_size == h.db_size
    &&& l.index.entries@ == Log::spec_scan_index(img)
    &&& forall|o: u32|
        o < l.spec_count() ==> #[trigger] crate::frame::spec_frame_payload(l.data@, o)
            == crate::frame::spec_frame_payload(img, o)
}

/// A sealed segment carries exactly what the live segment it was sealed
/// from committed.
pub open spec fn spec_sealed_matches(sl: crate::sealed_log::SealedLog, l: Log) -> bool {
    &&& sl.header.start_frame_no == l.header.start_frame_no
    &&& sl.header.last_committed_frame_no == l.header.last_committed_frame_no
    &&& sl.index.entries@ == l.index.entries@
    &&& forall|o: u32|
        o < l.header.spec_count_committed() ==> #[trigger] crate::frame::spec_frame_payload(
            sl.data@,
            o,
        ) == crate::frame::spec_frame_payload(l.data@, o)
}

/// Maps namespace names to their coordinators.
pub struct WalRegistry {
    /// `(name, coordinator)` pairs.
    pub namespaces: Vec<(String, SharedWal)>,
    /// Rotation threshold handed to new coordinators.
    pub rotate_frames: u64,
    /// Checkpoint-suggestion threshold handed to new coordinators.
    pub checkpoint_segments: usize,
}

impl WalRegistry {
    /// Every registered coordinator is internally consistent.
    pub open spec fn wf(self) -> bool {
        &&& forall|i: int|
            0 <= i < self.namespaces@.len() ==> (#[trigger] self.namespaces@[i]).1.wf()
        &&& self.rotate_frames < MAX_SEGMENT_FRAMES
    }

    /// An empty registry.
    pub fn new(rotate_frames: u64, checkpoint_segments: usize) -> (r: WalRegistry)
        requires
            rotate_frames < MAX_SEGMENT_FRAMES,
        ensures
            r.wf(),
            r.namespaces@.len() == 0,
            r.rotate_frames == rotate_frames,
            r.checkpoint_segments == checkpoint_segments,
    {
        WalRegistry { namespaces: Vec::new(), rotate_frames, checkpoint_segments }
    }

    /// Opens a namespace from its persisted state: the segment images in
    /// order of ascending start frame number, and the base file image.
    /// The segments must chain contiguously; the newest becomes the
    /// current segment if it was never sealed — crash recovery rebuilds
    /// its index by scanning — otherwise every nonempty segment is sealed
    /// and a fresh current installed after them.
    #[verifier::rlimit(100)]
    #[verifier::spinoff_prover]
    pub fn open_namespace(
        &mut self,
        name: String,
        images: Vec<Vec<u8>>,
        base_file: Vec<u8>,
    ) -> (r: Result<(), WalError>)
        requires
            old(self).wf(),
        ensures
            final(self).wf(),
            final(self).rotate_frames == old(self).rotate_frames,
            final(self).checkpoint_segments == old(self).checkpoint_segments,
            r is Ok ==> final(self).namespaces@.len() == old(self).namespaces@.len() + 1
                && final(self).namespaces@.last().0@ == name@ && final(self).namespaces@.last().1.wf() && final(self).namespaces@.last().1.db_file@
                == base_file@,
            r is Err ==> final(self).namespaces == old(self).namespaces,
            // opening is owed whenever the persisted state is openable
            r is Err ==> !spec_openable(images@, base_file@),
            // every committed frame of every image is readable through the
            // reopened namespace, byte for byte
            r is Ok ==> ({
                let w = final(self).namespaces@.last().1;
                forall|i: int, o: u32|
                    #![trigger crate::frame::spec_frame_payload(images@[i]@, o)]
                    0 <= i < images@.len() && o < crate::header::LogHeader::spec_decode(
                        images@[i]@,
                    ).spec_count_committed() ==> {
                        let f = (crate::header::LogHeader::spec_decode(
                            images@[i]@,
                        ).start_frame_no + o) as u64;
                        &&& w.has_frame(f, crate::frame::spec_frame_page_no(images@[i]@, o))
                        &&& w.frame_payload_of(f) == crate::frame::spec_frame_payload(
                            images@[i]@,
                            o,
                        )
                    }
            }),
    {
        if base_file.len() % PAGE_SIZE != 0 || base_file.len() > 0x8000_0000 {
            proof {
                assert(!spec_base_ok(base_file@));
            }
            return Err(WalError::Io);
        }
        let mut all: Vec<Log> = Vec::new();
        let mut last_unsealed: bool = false;
        let mut i: usize = 0;
        while i < images.len()
            invariant
                i <= images@.len(),
                self == old(self),
                old(self).wf(),
                all@.len() == i,
                forall|j: int|
                    0 <= j < all@.len() ==> (#[trigger] all@[j]).wf() && !all@[j].sealed
                        && all@[j].read_locks == 0,
                forall|j: int|
                    0 <= j < all@.len() - 1 ==> (#[trigger] all@[j + 1]).header.start_frame_no
                        == all@[j].header.spec_last_committed() + 1,
                forall|j: int|
                    #![trigger images@[j]]
                    0 <= j < all@.len() ==> Log::spec_recoverable(images@[j]@),
                forall|j: int|
                    #![trigger all@[j]]
                    0 <= j < all@.len() ==> all@[j].header.start_frame_no
                        == crate::header::LogHeader::spec_decode(images@[j]@).start_frame_no,
                forall|j: int|
                    #![trigger all@[j]]
                    0 <= j < all@.len() ==> all@[j].header.last_committed_frame_no
                        == crate::header::LogHeader::spec_decode(
                        images@[j]@,
                    ).last_committed_frame_no,
                forall|j: int|
                    #![trigger all@[j]]
                    0 <= j < all@.len() ==> all@[j].header.db_size
                        == crate::header::LogHeader::spec_decode(images@[j]@).db_size,
                forall|j: int|
                    #![trigger all@[j]]
                    0 <= j < all@.len() ==> all@[j].index.entries@ == Log::spec_scan_index(
                        images@[j]@,
                    ),
                forall|j: int, o: u32|
                    #![trigger crate::frame::spec_frame_payload(all@[j].data@, o)]
                    0 <= j < all@.len() && o < all@[j].spec_count()
                        ==> crate::frame::spec_frame_payload(all@[j].data@, o)
                        == crate::frame::spec_frame_payload(images@[j]@, o),
                i > 0 ==> last_unsealed == (crate::header::LogHeader::spec_decode(
                    images@[i - 1]@,
                ).index_offset == 0),
            decreases images@.len() - i,
        {
            let image = crate::codec::read_range(&images[i], 0, images[i].len());
            proof {
                assert(image@ =~= images@[i as int]@);
            }
            let header = match crate::header::LogHeader::from_bytes(&images[i]) {
                Ok(h) => h,
                Err(e) => {
                    proof {
                        assert(!Log::spec_recoverable(images@[i as int]@));
                        assert(!spec_images_ok(images@));
                    }
                    return Err(e);
                },
            };
            let log = match Log::recover(image) {
                Ok(l) => l,
                Err(e) => {
                    proof {
                        assert(!Log::spec_recoverable(images@[i as int]@));
                        assert(!spec_images_ok(images@));
                    }
                    return Err(e);
                },
            };
            last_unsealed = header.index_offset == 0;
            if all.len() > 0 {
                let prev_last = all[all.len() - 1].last_committed();
                if log.header.start_frame_no != prev_last + 1 {
                    proof {
                        let m = i - 1;
                        assert(crate::header::LogHeader::spec_decode(images@[m + 1]@).start_frame_no
                            != crate::header::LogHeader::spec_decode(
                            images@[m]@,
                        ).spec_last_committed() + 1);
                        assert(!spec_images_ok(images@));
                    }
                    return Err(WalError::Corruption);
                }
            }
            proof {
                assert(crate::header::LogHeader::spec_decode(image@)
                    == crate::header::LogHeader::spec_decode(images@[i as int]@));
                assert(Log::spec_scan_index(image@) =~= Log::spec_scan_index(
                    images@[i as int]@,
                ));
                assert forall|o: u32|
                    o < log.spec_count() implies #[trigger] crate::frame::spec_frame_payload(
                    log.data@,
                    o,
                ) == crate::frame::spec_frame_payload(images@[i as int]@, o) by {
                    assert(crate::frame::spec_frame_payload(log.data@, o)
                        == crate::frame::spec_frame_payload(image@, o));
                    assert(crate::frame::spec_frame_payload(image@, o)
                        =~= crate::frame::spec_frame_payload(images@[i as int]@, o));
                }
            }
            proof {
                let h = crate::header::LogHeader::spec_decode(images@[i as int]@);
                assert(Log::spec_recoverable(images@[i as int]@));
                assert(log.header.start_frame_no == h.start_frame_no);
                assert(log.header.last_committed_frame_no == h.last_committed_frame_no);
                assert(log.header.db_size == h.db_size);
                assert(log.index.entries@ == Log::spec_scan_index(images@[i as int]@));
                assert(last_unsealed == (h.index_offset == 0));
            }
            all.push(log);
            i = i + 1;
        }
        let ghost prepop = all@;
        proof {
            assert(prepop.len() == images@.len());
            assert(forall|j: int|
                #![trigger images@[j]]
                0 <= j < images@.len() ==> Log::spec_recoverable(images@[j]@));
            assert forall|j: int| 0 <= j < prepop.len() implies #[trigger] spec_log_matches(
                prepop[j],
                images@[j]@,
            ) by {
                assert(prepop[j] == all@[j]);
            }
        }
        let current: Log;
        if all.len() == 0 {
            current = Log::create(1, 0);
        } else if last_unsealed {
            // crash before the newest segment's index was published: it
            // stays current, rebuilt by the scan above
            current = match all.pop() {
                Some(l) => l,
                None => {
                    return Err(WalError::Corruption);
                },
            };
        } else {
            let newest = all.len() - 1;
            let next_start = all[newest].next_frame_no();
            let db_size = all[newest].db_size();
            if next_start >= 0x7fff_ffff_fff0_0000u64 {
                proof {
                    assert(images@.len() > 0);
                    assert(crate::header::LogHeader::spec_decode(
                        images@.last()@,
                    ).index_offset != 0);
                    assert(all@.last().header.spec_last_committed()
                        == crate::header::LogHeader::spec_decode(
                        images@.last()@,
                    ).spec_last_committed());
                    assert(!spec_reopen_headroom(images@));
                }
                return Err(WalError::Io);
            }
            current = Log::create(next_start, db_size);
        }
        let ghost orig = all@;
        proof {
            assert(forall|j: int|
                0 <= j < orig.len() ==> (#[trigger] orig[j]).wf() && !orig[j].sealed);
            assert(forall|j: int|
                0 <= j < orig.len() - 1 ==> (#[trigger] orig[j + 1]).header.start_frame_no
                    == orig[j].header.spec_last_committed() + 1);
            if orig.len() > 0 {
                if orig.len() < prepop.len() {
                    let m = prepop.len() - 2;
                    assert(prepop[m + 1].header.start_frame_no == prepop[
                        m
                    ].header.spec_last_committed() + 1);
                    assert(current == prepop[m + 1]);
                    assert(orig.last() == prepop[m]);
                }
                assert(current.header.start_frame_no == orig.last().header.spec_last_committed()
                    + 1);
            }
            assert forall|j: int| 0 <= j < orig.len() implies #[trigger] spec_log_matches(
                orig[j],
                images@[j]@,
            ) by {
                assert(orig[j] == prepop[j]);
            }
            assert((current.spec_count() == 0 && orig.len() == images@.len()) || (orig.len() + 1
                == images@.len() && spec_log_matches(current, images@[images@.len() - 1]@)));
        }
        // seal the remaining segments, oldest first, dropping empty ones
        let mut segments: Vec<SealedLog> = Vec::new();
        while all.len() > 0
            invariant
                self == old(self),
                old(self).wf(),
                all@.len() <= orig.len(),
                all@ == orig.skip(orig.len() - all@.len()),
                forall|j: int|
                    0 <= j < orig.len() ==> (#[trigger] orig[j]).wf() && !orig[j].sealed,
                forall|j: int|
                    0 <= j < orig.len() - 1 ==> (#[trigger] orig[j + 1]).header.start_frame_no
                        == orig[j].header.spec_last_committed() + 1,
                forall|j: int|
                    0 <= j < segments@.len() ==> (#[trigger] segments@[j]).wf() && segments@[
                        j
                    ].header.spec_count_committed() > 0,
                forall|j: int|
                    0 <= j < segments@.len() - 1 ==> (#[trigger] segments@[j
                        + 1]).header.start_frame_no == segments@[
                        j
                    ].header.last_committed_frame_no + 1,
                segments@.len() > 0 ==> orig.len() > all@.len()
                    && segments@.last().header.last_committed_frame_no == orig[orig.len()
                    - all@.len() - 1].header.spec_last_committed(),
                segments@.len() == 0 && orig.len() > all@.len() ==> orig[orig.len() - all@.len()
                    - 1].header.spec_last_committed() == orig[0].header.start_frame_no - 1,
                orig.len() <= images@.len(),
                forall|j: int|
                    0 <= j < orig.len() ==> #[trigger] spec_log_matches(orig[j], images@[j]@),
                forall|j: int|
                    #![trigger orig[j]]
                    0 <= j < orig.len() - all@.len() && orig[j].header.spec_count_committed() > 0
                        ==> exists|sj: int|
                        0 <= sj < segments@.len() && spec_sealed_matches(
                            #[trigger] segments@[sj],
                            orig[j],
                        ),
            decreases all@.len(),
        {
            let ghost k = orig.len() - all@.len();
            let mut l = all.remove(0);
            proof {
                assert(l == orig[k as int]);
                assert(all@ =~= orig.skip(k + 1));
                assert(orig[k as int].wf());
            }
            let count = l.count_committed();
            if count > 0 {
                let sealed = match l.seal() {
                    Ok(sl) => sl,
                    Err(e) => {
                        proof {
                            let ki = k as int;
                            assert(spec_log_matches(orig[ki], images@[ki]@));
                            let h = crate::header::LogHeader::spec_decode(images@[ki]@);
                            assert(h.spec_count_committed() == orig[
                                ki
                            ].header.spec_count_committed());
                            assert(h.spec_count_committed() > 0);
                            let es = choose|es: Seq<(u32, u64)>|
                                crate::log::spec_packed_index(orig[ki].index.entries@, es)
                                    && crate::sealed_index::fst_encoded_len(es)
                                    > crate::frame::MAX_INDEX_BYTES;
                            assert(crate::log::spec_packed_index(
                                Log::spec_scan_index(images@[ki]@),
                                es,
                            ));
                            assert(!spec_no_index_overflow(images@));
                        }
                        return Err(e);
                    },
                };
                proof {
                    if segments@.len() > 0 {
                        let m = k - 1;
                        assert(orig[m + 1].header.start_frame_no == orig[
                            m
                        ].header.spec_last_committed() + 1);
                    }
                }
                let ghost segs0 = segments@;
                segments.push(sealed);
                proof {
                    assert(spec_sealed_matches(segments@[segments@.len() - 1], orig[k as int]));
                    assert forall|j: int|
                        #![trigger orig[j]]
                        0 <= j < orig.len() - all@.len() && orig[j].header.spec_count_committed()
                            > 0 implies exists|sj: int|
                        0 <= sj < segments@.len() && spec_sealed_matches(
                            segments@[sj],
                            orig[j],
                        ) by {
                        if j == k {
                            assert(0 <= segments@.len() - 1 < segments@.len()
                                && spec_sealed_matches(
                                segments@[segments@.len() - 1],
                                orig[j],
                            ));
                        } else {
                            assert(0 <= j < orig.len() - (all@.len() + 1));
                            let sj0 = choose|sj: int|
                                0 <= sj < segs0.len() && spec_sealed_matches(
                                    #[trigger] segs0[sj],
                                    orig[j],
                                );
                            assert(segments@[sj0] == segs0[sj0]);
                            assert(0 <= sj0 < segments@.len() && spec_sealed_matches(
                                segments@[sj0],
                                orig[j],
                            ));
                        }
                    }
                    assert forall|j: int|
                        0 <= j < segments@.len() - 1 implies (#[trigger] segments@[j
                        + 1]).header.start_frame_no == segments@[
                        j
                    ].header.last_committed_frame_no + 1 by {}
                    assert(segments@.last().header.last_committed_frame_no == orig[k
                        as int].header.last_committed_frame_no);
                    assert(orig[k as int].header.spec_last_committed() == orig[k
                        as int].header.last_committed_frame_no);
                }
            } else {
                proof {
                    assert(orig[k as int].header.spec_last_committed() == orig[k
                        as int].header.start_frame_no - 1);
                    if k > 0 {
                        let m = k - 1;
                        assert(orig[m + 1].header.start_frame_no == orig[
                            m
                        ].header.spec_last_committed() + 1);
                    }
                }
            }
        }
        proof {
            assert(orig.len() > 0 && segments@.len() > 0
                ==> current.header.start_frame_no
                == segments@.last().header.last_committed_frame_no + 1);
        }
        let ghost segs = segments@;
        let ghost cur = current;
        let wal = SharedWal {
            current,
            segments,
            lock: WalLock::new(),
            db_file: base_file,
            namespace: name,
            clock: 0,
            rotate_frames: self.rotate_frames,
            checkpoint_segments: self.checkpoint_segments,
        };
        let ghost gwal = wal;
        proof {
            assert(wal.wf());
            assert forall|i: int, o: u32|
                #![trigger crate::frame::spec_frame_payload(images@[i]@, o)]
                0 <= i < images@.len() && o < crate::header::LogHeader::spec_decode(
                    images@[i]@,
                ).spec_count_committed() implies gwal.has_frame(
                (crate::header::LogHeader::spec_decode(images@[i]@).start_frame_no + o) as u64,
                crate::frame::spec_frame_page_no(images@[i]@, o),
            ) && gwal.frame_payload_of(
                (crate::header::LogHeader::spec_decode(images@[i]@).start_frame_no + o) as u64,
            ) == crate::frame::spec_frame_payload(images@[i]@, o) by {
                assert(gwal == wal);
                let h = crate::header::LogHeader::spec_decode(images@[i]@);
                assert(Log::spec_recoverable(images@[i]@));
                assert(h.start_frame_no + o <= h.spec_last_committed());
                let f = (h.start_frame_no + o) as u64;
                let p = crate::frame::spec_frame_page_no(images@[i]@, o);
                if i < orig.len() {
                    assert(spec_log_matches(orig[i], images@[i]@));
                    assert(orig[i].header.spec_count_committed() == h.spec_count_committed());
                    let sj = choose|sj: int|
                        0 <= sj < segs.len() && spec_sealed_matches(
                            #[trigger] segs[sj],
                            orig[i],
                        );
                    assert(0 <= sj < segs.len() && spec_sealed_matches(segs[sj], orig[i]));
                    assert(wal.segments@[sj] == segs[sj]);
                    let sl = wal.segments@[sj];
                    assert(sl.header.spec_count_committed() == h.spec_count_committed());
                    assert(sl.header.start_frame_no <= f < sl.header.start_frame_no
                        + sl.header.spec_count_committed());
                    assert((f - sl.header.start_frame_no) as u32 == o);
                    assert(sl.wf());
                    assert(sl.index.entries@ == Log::spec_scan_index(images@[i]@));
                    assert(sl.index.entries@[o as int] == (p, o));
                    assert(crate::frame::spec_frame_page_no(
                        sl.data@,
                        sl.index.entries@[o as int].1,
                    ) == sl.index.entries@[o as int].0);
                    assert(crate::frame::spec_frame_page_no(sl.data@, o) == p);
                    assert(wal.has_frame(f, p));
                    crate::shared_wal::lemma_frame_payload_in_segment(wal, f, sj);
                    assert(crate::frame::spec_frame_payload(sl.data@, o)
                        == crate::frame::spec_frame_payload(orig[i].data@, o));
                    assert(crate::frame::spec_frame_payload(orig[i].data@, o)
                        == crate::frame::spec_frame_payload(images@[i]@, o));
                } else {
                    assert(orig.len() + 1 == images@.len() && i == orig.len());
                    assert(spec_log_matches(cur, images@[i]@));
                    assert(wal.current == cur);
                    assert(wal.current.header.spec_count_committed() == h.spec_count_committed());
                    assert(wal.current.header.start_frame_no <= f < wal.current.header.start_frame_no
                        + wal.current.spec_count());
                    assert((f - wal.current.header.start_frame_no) as u32 == o);
                    assert(wal.current.wf());
                    assert(wal.current.index.entries@ == Log::spec_scan_index(images@[i]@));
                    assert(wal.current.index.entries@[o as int] == (p, o));
                    assert(crate::frame::spec_frame_page_no(
                        wal.current.data@,
                        wal.current.index.entries@[o as int].1,
                    ) == wal.current.index.entries@[o as int].0);
                    assert(crate::frame::spec_frame_page_no(wal.current.data@, o) == p);
                    assert(wal.has_frame(f, p));
                    assert(wal.frame_payload_of(f) == crate::frame::spec_frame_payload(
                        wal.current.data@,
                        o,
                    ));
                    assert(crate::frame::spec_frame_payload(cur.data@, o)
                        == crate::frame::spec_frame_payload(images@[i]@, o));
                }
                assert(gwal.has_frame(f, p) == wal.has_frame(f, p));
                assert(gwal.frame_payload_of(f) == wal.frame_payload_of(f));
            }
            assert forall|i: int, o: u32|
                0 <= i < images@.len() && o < crate::header::LogHeader::spec_decode(
                    images@[i]@,
                ).spec_count_committed() implies gwal.has_frame(
                (crate::header::LogHeader::spec_decode(images@[i]@).start_frame_no + o) as u64,
                crate::frame::spec_frame_page_no(images@[i]@, o),
            ) by {
                assert(gwal.frame_payload_of(
                    (crate::header::LogHeader::spec_decode(images@[i]@).start_frame_no
                        + o) as u64,
                ) == crate::frame::spec_frame_payload(images@[i]@, o));
                assert(gwal.has_frame(
                    (crate::header::LogHeader::spec_decode(images@[i]@).start_frame_no
                        + o) as u64,
                    crate::frame::spec_frame_page_no(images@[i]@, o),
                ));
            }
        }
        let name2 = clone_name(&wal.namespace);
        self.namespaces.push((name2, wal));
        proof {
            assert(self.namespaces@.last().1 == gwal);
            assert forall|i: int, o: u32|
                #![trigger crate::frame::spec_frame_payload(images@[i]@, o)]
                0 <= i < images@.len() && o < crate::header::LogHeader::spec_decode(
                    images@[i]@,
                ).spec_count_committed() implies ({
                let w = self.namespaces@.last().1;
                let f = (crate::header::LogHeader::spec_decode(images@[i]@).start_frame_no
                    + o) as u64;
                &&& w.has_frame(f, crate::frame::spec_frame_page_no(images@[i]@, o))
                &&& w.frame_payload_of(f) == crate::frame::spec_frame_payload(images@[i]@, o)
            }) by {
                let f = (crate::header::LogHeader::spec_decode(images@[i]@).start_frame_no
                    + o) as u64;
                assert(gwal.has_frame(f, crate::frame::spec_frame_page_no(images@[i]@, o))
                    && gwal.frame_payload_of(f) == crate::frame::spec_frame_payload(
                    images@[i]@,
                    o,
                ));
            }
            assert forall|x: int|
                0 <= x < self.namespaces@.len() implies (#[trigger] self.namespaces@[x]).1.wf() by {
                if x < self.namespaces@.len() - 1 {
                    assert(self.namespaces@[x] == old(self).namespaces@[x]);
                }
            }
        }
        Ok(())
    }

    /// A namespace whose current segment cannot be sealed at shutdown:
    /// it holds commits, and rotating it away would fail for rotation's
    /// own stated reasons.
    pub open spec fn spec_shutdown_blocked(w: SharedWal) -> bool {
        &&& w.current.spec_count() > 0
        &&& (w.spec_last_committed() + 1 >= 0x7fff_ffff_fff0_0000u64 || (exists|
            es: Seq<(u32, u64)>,
        |
            crate::log::spec_packed_index(w.current.index.entries@, es)
                && crate::sealed_index::fst_encoded_len(es) > MAX_INDEX_BYTES))
    }

    /// Seals the current segment of every namespace so that all committed
    /// state sits in sealed, indexed segments ready to persist.
    pub fn shutdown(&mut self) -> (r: Result<(), WalError>)
        requires
            old(self).wf(),
        ensures
            final(self).namespaces@.len() == old(self).namespaces@.len(),
            // sealing every namespace is owed unless one of them cannot
            // rotate
            r is Err <==> exists|i: int|
                0 <= i < old(self).namespaces@.len() && WalRegistry::spec_shutdown_blocked(
                    (#[trigger] old(self).namespaces@[i]).1,
                ),
            r is Ok ==> final(self).wf(),
            r is Ok ==> forall|j: int|
                0 <= j < final(self).namespaces@.len() ==> (#[trigger] final(self).namespaces@[j]).1.current.spec_count() == 0,
    {
        let mut i: usize = 0;
        while i < self.namespaces.len()
            invariant
                i <= self.namespaces@.len(),
                self.namespaces@.len() == old(self).namespaces@.len(),
                self.wf(),
                self.rotate_frames == old(self).rotate_frames,
                old(self).wf(),
                forall|j: int|
                    0 <= j < i ==> (#[trigger] self.namespaces@[j]).1.current.spec_count() == 0,
                forall|j: int|
                    0 <= j < i ==> !WalRegistry::spec_shutdown_blocked(
                        (#[trigger] old(self).namespaces@[j]).1,
                    ),
                forall|j: int|
                    i <= j < self.namespaces@.len() ==> #[trigger] self.namespaces@[j] == old(
                        self,
                    ).namespaces@[j],
            decreases self.namespaces@.len() - i,
        {
            let ghost pre = *self;
            let entry = vstd::std_specs::vec::vec_index_mut(&mut self.namespaces, i);
            proof {
                assert(pre.namespaces@[i as int] == old(self).namespaces@[i as int]);
            }
            let count = entry.1.current.count_committed();
            if count > 0 {
                match entry.1.swap_current() {
                    Ok(()) => {},
                    Err(e) => {
                        proof {
                            assert(WalRegistry::spec_shutdown_blocked(
                                old(self).namespaces@[i as int].1,
                            ));
                        }
                        return Err(e);
                    },
                }
            }
            proof {
                lemma_registry_update_wf(pre, *self, i as int);
                assert forall|j: int|
                    0 <= j < i + 1 implies (#[trigger] self.namespaces@[j]).1.current.spec_count()
                    == 0 by {
                    if j < i as int {
                        assert(self.namespaces@[j] == pre.namespaces@[j]);
                    }
                }
            }
            i = i + 1;
        }
        Ok(())
    }

    /// The position of a namespace, if registered.
    pub fn find(&self, name: &String) -> (r: Option<usize>)
        ensures
            r matches Some(i) ==> i < self.namespaces@.len() && self.namespaces@[i as int].0@
                == name@,
            r is None ==> forall|i: int|
                0 <= i < self.namespaces@.len() ==> (#[trigger] self.namespaces@[i]).0@ != name@,
    {
        let mut i: usize = 0;
        while i < self.namespaces.len()
            invariant
                i <= self.namespaces@.len(),
                forall|j: int|
                    0 <= j < i ==> (#[trigger] self.namespaces@[j]).0@ != name@,
            decreases self.namespaces@.len() - i,
        {
            if self.namespaces[i].0.eq(name) {
                return Some(i);
            }
            proof {
                assert(self.namespaces@[i as int].0@ != name@);
            }
            i = i + 1;
        }
        None
    }
}

/// A registry whose namespaces changed only at position `i`, and there
/// to a consistent coordinator, is still consistent.
proof fn lemma_registry_update_wf(pre: WalRegistry, cur: WalRegistry, i: int)
    requires
        pre.wf(),
        cur.rotate_frames == pre.rotate_frames,
        cur.namespaces@.len() == pre.namespaces@.len(),
        0 <= i < cur.namespaces@.len(),
        forall|j: int|
            0 <= j < cur.namespaces@.len() && j != i ==> #[trigger] cur.namespaces@[j]
                == pre.namespaces@[j],
        cur.namespaces@[i].1.wf(),
    ensures
        cur.wf(),
{
    assert forall|j: int|
        0 <= j < cur.namespaces@.len() implies (#[trigger] cur.namespaces@[j]).1.wf() by {
        if j != i {
            assert(cur.namespaces@[j] == pre.namespaces@[j]);
        }
    }
}

/// Copies a namespace name.
fn clone_name(s: &String) -> (r: String)
    ensures
        r@ == s@,
{
    s.clone()
}

} // verus!
