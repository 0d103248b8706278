//! In-memory page indexes for live segments and write transactions.
//!
//! While a segment is live its index is an append-only list of
//! `(page_no, slot offset)` records: per page, offsets only grow, so the
//! newest record for a page that satisfies a frame-number bound is found by
//! scanning from the end.  Savepoints use the same structure.  At seal and
//! checkpoint time the records are folded into a [`PageMap`], an ordered
//! map from page number to the newest value, which is what the immutable
//! segment index serializes.

use vstd::prelude::*;

verus! {

/// The newest offset recorded for `p` whose frame number
/// (`start_frame_no + offset`) is at most `max_frame_no`.
pub open spec fn spec_locate(s: Seq<(u32, u32)>, p: u32, start: u64, max: u64) -> Option<u32>
    decreases s.len(),
{
    if s.len() == 0 {
        None
    } else if s.last().0 == p && start + s.last().1 <= max {
        Some(s.last().1)
    } else {
        spec_locate(s.drop_last(), p, start, max)
    }
}

/// The newest offset recorded for `p`, with no frame-number bound.
pub open spec fn spec_get_last(s: Seq<(u32, u32)>, p: u32) -> Option<u32>
    decreases s.len(),
{
    if s.len() == 0 {
        None
    } else if s.last().0 == p {
        Some(s.last().1)
    } else {
        spec_get_last(s.drop_last(), p)
    }
}

/// Append-only record of which slot offsets hold which pages.
pub struct PageIndex {
    /// `(page_no, slot offset)` records in insertion order.
    pub entries: Vec<(u32, u32)>,
}

impl PageIndex {
    /// Offsets recorded for one page only grow.
    pub open spec fn wf(self) -> bool {
        forall|i: int, j: int|
            0 <= i < j < self.entries@.len() && self.entries@[i].0 == self.entries@[j].0
                ==> self.entries@[i].1 < self.entries@[j].1
    }

    /// Every recorded offset is below `bound`.
    pub open spec fn all_below(self, bound: int) -> bool {
        forall|i: int| 0 <= i < self.entries@.len() ==> (#[trigger] self.entries@[i]).1 < bound
    }

    /// Every recorded offset is at least `bound`.
    pub open spec fn all_at_least(self, bound: int) -> bool {
        forall|i: int| 0 <= i < self.entries@.len() ==> (#[trigger] self.entries@[i]).1 >= bound
    }

    /// An empty index.
    pub fn new() -> (r: PageIndex)
        ensures
            r.entries@.len() == 0,
            r.wf(),
            r.all_below(0),
    {
        PageIndex { entries: Vec::new() }
    }

    /// Records that slot `offset` now holds `page_no`.
    pub fn push(&mut self, page_no: u32, offset: u32)
        requires
            old(self).wf(),
            old(self).all_below(offset as int),
        ensures
            final(self).entries@ == old(self).entries@.push((page_no, offset)),
            final(self).wf(),
            final(self).all_below(offset + 1),
    {
        self.entries.push((page_no, offset));
    }

    /// Appends every record of `other`, newest last.
    pub fn append_all(&mut self, other: &PageIndex)
        requires
            old(self).wf(),
            other.wf(),
            // every record of `other` is newer than every record already here
            forall|i: int, j: int|
                0 <= i < old(self).entries@.len() && 0 <= j < other.entries@.len() ==> (
                #[trigger] old(self).entries@[i]).1 < (#[trigger] other.entries@[j]).1,
        ensures
            final(self).entries@ == old(self).entries@ + other.entries@,
            final(self).wf(),
    {
        let mut i: usize = 0;
        while i < other.entries.len()
            invariant
                i <= other.entries@.len(),
                self.entries@ == old(self).entries@ + other.entries@.take(i as int),
                old(self).wf(),
                other.wf(),
                forall|a: int, b: int|
                    0 <= a < old(self).entries@.len() && 0 <= b < other.entries@.len() ==> (
                    #[trigger] old(self).entries@[a]).1 < (#[trigger] other.entries@[b]).1,
            decreases other.entries@.len() - i,
        {
            let e = other.entries[i];
            self.entries.push(e);
            proof {
                assert(self.entries@ =~= old(self).entries@ + other.entries@.take(i + 1));
            }
            i = i + 1;
        }
        proof {
            assert(other.entries@.take(other.entries@.len() as int) =~= other.entries@);
            assert forall|a: int, b: int|
                0 <= a < b < self.entries@.len() && self.entries@[a].0 == self.entries@[b].0
                implies self.entries@[a].1 < self.entries@[b].1 by {
                let n = old(self).entries@.len() as int;
                if b < n {
                } else if a >= n {
                    assert(other.entries@[a - n].1 < other.entries@[b - n].1);
                } else {
                    assert(old(self).entries@[a].1 < other.entries@[b - n].1);
                }
            }
        }
    }

    /// The newest offset for `page_no` whose frame number
    /// (`start_frame_no + offset`) does not exceed `max_frame_no`.
    pub fn locate(&self, page_no: u32, start_frame_no: u64, max_frame_no: u64) -> (r: Option<u32>)
        requires
            start_frame_no < 0x8000_0000_0000_0000u64,
        ensures
            r == spec_locate(self.entries@, page_no, start_frame_no, max_frame_no),
    {
        let mut i: usize = self.entries.len();
        proof {
            assert(self.entries@.take(i as int) =~= self.entries@);
        }
        while i > 0
            invariant
                i <= self.entries@.len(),
                start_frame_no < 0x8000_0000_0000_0000u64,
                spec_locate(self.entries@, page_no, start_frame_no, max_frame_no) == spec_locate(
                    self.entries@.take(i as int),
                    page_no,
                    start_frame_no,
                    max_frame_no,
                ),
            decreases i,
        {
            let (p, off) = self.entries[i - 1];
            proof {
                assert(self.entries@.take(i as int).last() == self.entries@[i - 1]);
                assert(self.entries@.take(i as int).drop_last() =~= self.entries@.take(i - 1));
            }
            if p == page_no && start_frame_no + (off as u64) <= max_frame_no {
                return Some(off);
            }
            i = i - 1;
        }
        proof {
            assert(self.entries@.take(0) =~= Seq::<(u32, u32)>::empty());
        }
        None
    }

    /// The newest offset for `page_no`, with no frame-number bound.
    pub fn get_last(&self, page_no: u32) -> (r: Option<u32>)
        ensures
            r == spec_get_last(self.entries@, page_no),
    {
        let mut i: usize = self.entries.len();
        proof {
            assert(self.entries@.take(i as int) =~= self.entries@);
        }
        while i > 0
            invariant
                i <= self.entries@.len(),
                spec_get_last(self.entries@, page_no) == spec_get_last(
                    self.entries@.take(i as int),
                    page_no,
                ),
            decreases i,
        {
            let (p, off) = self.entries[i - 1];
            proof {
                assert(self.entries@.take(i as int).last() == self.entries@[i - 1]);
                assert(self.entries@.take(i as int).drop_last() =~= self.entries@.take(i - 1));
            }
            if p == page_no {
                return Some(off);
            }
            i = i - 1;
        }
        proof {
            assert(self.entries@.take(0) =~= Seq::<(u32, u32)>::empty());
        }
        None
    }

    /// Drops every record.
    pub fn clear(&mut self)
        ensures
            final(self).entries@.len() == 0,
            final(self).wf(),
    {
        self.entries.clear();
    }

    /// Folds the records into an ordered map from page number to its
    /// newest offset.
    pub fn to_page_map(&self) -> (r: PageMap<u32>)
        ensures
            r.wf(),
            forall|p: u32|
                spec_map_get(#[trigger] r.entries@, p) == spec_get_last(self.entries@, p),
    {
        let mut r = PageMap::<u32>::new();
        let mut i: usize = 0;
        proof {
            assert forall|p: u32|
                spec_map_get(#[trigger] r.entries@, p) == spec_get_last(
                    self.entries@.take(0),
                    p,
                ) by {
                assert(self.entries@.take(0) =~= Seq::<(u32, u32)>::empty());
            }
        }
        while i < self.entries.len()
            invariant
                i <= self.entries@.len(),
                r.wf(),
                forall|p: u32|
                    spec_map_get(#[trigger] r.entries@, p) == spec_get_last(
                        self.entries@.take(i as int),
                        p,
                    ),
            decreases self.entries@.len() - i,
        {
            let (p, off) = self.entries[i];
            r.upsert(p, off);
            proof {
                assert forall|q: u32|
                    spec_map_get(#[trigger] r.entries@, q) == spec_get_last(
                        self.entries@.take(i + 1),
                        q,
                    ) by {
                    let t = self.entries@.take(i + 1);
                    assert(t.last() == self.entries@[i as int]);
                    assert(t.drop_last() =~= self.entries@.take(i as int));
                }
            }
            i = i + 1;
        }
        proof {
            assert(self.entries@.take(self.entries@.len() as int) =~= self.entries@);
        }
        r
    }

    /// True iff no record was made.
    pub fn is_empty(&self) -> (r: bool)
        ensures
            r == (self.entries@.len() == 0),
    {
        self.entries.len() == 0
    }
}

/// The value held by a sorted page map for `p`.
pub open spec fn spec_map_get<V>(s: Seq<(u32, V)>, p: u32) -> Option<V>
    decreases s.len(),
{
    if s.len() == 0 {
        None
    } else if s[0].0 == p {
        Some(s[0].1)
    } else {
        spec_map_get(s.drop_first(), p)
    }
}

/// Keys appear strictly ascending.
pub open spec fn spec_keys_sorted<V>(s: Seq<(u32, V)>) -> bool {
    forall|i: int, j: int| 0 <= i < j < s.len() ==> (s[i].0 < s[j].0)
}

/// An ordered map from page number to the newest value recorded for it.
pub struct PageMap<V> {
    /// `(page_no, value)` pairs with strictly ascending keys.
    pub entries: Vec<(u32, V)>,
}

/// What `spec_map_get` returns is an entry of the sequence, and a `None`
/// means no entry carries the key.
pub proof fn lemma_map_get_graph<V>(s: Seq<(u32, V)>, p: u32)
    ensures
        spec_map_get(s, p) matches Some(v) ==> exists|i: int|
            0 <= i < s.len() && #[trigger] s[i] == (p, v),
        spec_map_get(s, p) is None ==> forall|i: int| 0 <= i < s.len() ==> (#[trigger] s[i]).0 != p,
    decreases s.len(),
{
    if s.len() > 0 {
        lemma_map_get_graph(s.drop_first(), p);
        if s[0].0 == p {
            assert(s[0] == (p, s[0].1));
        } else {
            if spec_map_get(s, p) is Some {
                let v = spec_map_get(s, p).unwrap();
                let i = choose|i: int|
                    0 <= i < s.drop_first().len() && #[trigger] s.drop_first()[i] == (p, v);
                assert(s[i + 1] == (p, v));
            } else {
                assert forall|i: int| 0 <= i < s.len() implies (#[trigger] s[i]).0 != p by {
                    if i > 0 {
                        assert(s.drop_first()[i - 1] == s[i]);
                    }
                }
            }
        }
    }
}

pub proof fn lemma_map_get_found<V>(s: Seq<(u32, V)>, i: int)
    requires
        spec_keys_sorted(s),
        0 <= i < s.len(),
    ensures
        spec_map_get(s, s[i].0) == Some(s[i].1),
    decreases s.len(),
{
    if i > 0 {
        assert(s[0].0 < s[i].0);
        lemma_map_get_found(s.drop_first(), i - 1);
    }
}

pub proof fn lemma_map_get_absent<V>(s: Seq<(u32, V)>, p: u32)
    requires
        forall|i: int| 0 <= i < s.len() ==> (#[trigger] s[i]).0 != p,
    ensures
        spec_map_get(s, p) == None::<V>,
    decreases s.len(),
{
    if s.len() > 0 {
        lemma_map_get_absent(s.drop_first(), p);
    }
}

proof fn lemma_map_get_update<V>(s: Seq<(u32, V)>, i: int, v: V, q: u32)
    requires
        spec_keys_sorted(s),
        0 <= i < s.len(),
    ensures
        spec_map_get(s.update(i, (s[i].0, v)), q) == if q == s[i].0 {
            Some(v)
        } else {
            spec_map_get(s, q)
        },
    decreases s.len(),
{
    let s2 = s.update(i, (s[i].0, v));
    if i == 0 {
        if q != s[0].0 {
            assert(s2.drop_first() =~= s.drop_first());
        }
    } else {
        assert(s2.drop_first() =~= s.drop_first().update(i - 1, (s[i].0, v)));
        lemma_map_get_update(s.drop_first(), i - 1, v, q);
    }
}

proof fn lemma_map_get_insert<V>(s: Seq<(u32, V)>, i: int, p: u32, v: V, q: u32)
    requires
        spec_keys_sorted(s),
        0 <= i <= s.len(),
        forall|j: int| 0 <= j < s.len() ==> (#[trigger] s[j]).0 != p,
    ensures
        spec_map_get(s.insert(i, (p, v)), q) == if q == p {
            Some(v)
        } else {
            spec_map_get(s, q)
        },
    decreases s.len(),
{
    let s2 = s.insert(i, (p, v));
    if i == 0 {
        assert(s2.drop_first() =~= s);
        if q == p {
        } else {
            assert(spec_map_get(s2, q) == spec_map_get(s, q));
        }
    } else {
        assert(s.len() > 0);
        assert(s2[0] == s[0]);
        assert(s2.drop_first() =~= s.drop_first().insert(i - 1, (p, v)));
        lemma_map_get_insert(s.drop_first(), i - 1, p, v, q);
    }
}

impl<V: Copy> PageMap<V> {
    /// Keys are strictly sorted.
    pub open spec fn wf(self) -> bool {
        spec_keys_sorted(self.entries@)
    }

    /// An empty map.
    pub fn new() -> (r: PageMap<V>)
        ensures
            r.entries@.len() == 0,
            r.wf(),
            forall|p: u32| spec_map_get(#[trigger] r.entries@, p) == None::<V>,
    {
        let r = PageMap::<V> { entries: Vec::new() };
        proof {
            assert forall|p: u32| spec_map_get(#[trigger] r.entries@, p) == None::<V> by {
                lemma_map_get_absent(r.entries@, p);
            }
        }
        r
    }

    /// The value recorded for `page_no`.
    pub fn get(&self, page_no: u32) -> (r: Option<V>)
        requires
            self.wf(),
        ensures
            r == spec_map_get(self.entries@, page_no),
    {
        let mut i: usize = 0;
        while i < self.entries.len()
            invariant
                i <= self.entries@.len(),
                self.wf(),
                forall|j: int| 0 <= j < i ==> (#[trigger] self.entries@[j]).0 != page_no,
            decreases self.entries@.len() - i,
        {
            let (p, v) = self.entries[i];
            if p == page_no {
                proof {
                    lemma_map_get_found(self.entries@, i as int);
                }
                return Some(v);
            }
            if p > page_no {
                proof {
                    assert forall|j: int|
                        0 <= j < self.entries@.len() implies (#[trigger] self.entries@[j]).0
                        != page_no by {
                        if j > i {
                            assert(self.entries@[i as int].0 < self.entries@[j].0);
                        }
                    }
                    lemma_map_get_absent(self.entries@, page_no);
                }
                return None;
            }
            i = i + 1;
        }
        proof {
            lemma_map_get_absent(self.entries@, page_no);
        }
        None
    }

    /// Records `v` as the newest value for `page_no`, replacing any older
    /// value.
    pub fn upsert(&mut self, page_no: u32, v: V)
        requires
            old(self).wf(),
        ensures
            final(self).wf(),
            spec_map_get(final(self).entries@, page_no) == Some(v),
            forall|q: u32|
                q != page_no ==> spec_map_get(#[trigger] final(self).entries@, q) == spec_map_get(
                    old(self).entries@,
                    q,
                ),
            final(self).entries@.len() <= old(self).entries@.len() + 1,
    {
        let mut i: usize = 0;
        while i < self.entries.len() && self.entries[i].0 < page_no
            invariant
                i <= self.entries@.len(),
                self == old(self),
                forall|j: int| 0 <= j < i ==> (#[trigger] self.entries@[j]).0 < page_no,
            decreases self.entries@.len() - i,
        {
            i = i + 1;
        }
        if i < self.entries.len() && self.entries[i].0 == page_no {
            let r = vstd::std_specs::vec::vec_index_mut(&mut self.entries, i);
            *r = (page_no, v);
            proof {
                assert(final(self).entries@ == old(self).entries@.update(
                    i as int,
                    (page_no, v),
                ));
                assert forall|a: int, b: int|
                    0 <= a < b < final(self).entries@.len() implies final(self).entries@[a].0
                    < final(self).entries@[b].0 by {
                    assert(old(self).entries@[a].0 < old(self).entries@[b].0);
                }
                assert forall|q: u32|
                    spec_map_get(#[trigger] final(self).entries@, q) == if q == page_no {
                        Some(v)
                    } else {
                        spec_map_get(old(self).entries@, q)
                    } by {
                    lemma_map_get_update(old(self).entries@, i as int, v, q);
                }
            }
        } else {
            proof {
                assert forall|j: int|
                    0 <= j < self.entries@.len() implies (#[trigger] self.entries@[j]).0
                    != page_no by {
                    if j >= i {
                        if j > i {
                            assert(self.entries@[i as int].0 < self.entries@[j].0);
                        }
                    }
                }
            }
            self.entries.insert(i, (page_no, v));
            proof {
                assert forall|a: int, b: int|
                    0 <= a < b < final(self).entries@.len() implies final(self).entries@[a].0
                    < final(self).entries@[b].0 by {
                    let s = old(self).entries@;
                    if b < i {
                    } else if a >= i + 1 {
                        assert(s[a - 1].0 < s[b - 1].0);
                    } else if b == i {
                        assert(s[a].0 < page_no);
                    } else if a == i {
                        assert(final(self).entries@[b] == s[b - 1]);
                        if b - 1 > i {
                            assert(s[i as int].0 < s[b - 1].0);
                        }
                        assert(page_no < s[b - 1].0);
                    } else {
                        assert(s[a].0 < s[b - 1].0);
                    }
                }
                assert forall|q: u32|
                    spec_map_get(#[trigger] final(self).entries@, q) == if q == page_no {
                        Some(v)
                    } else {
                        spec_map_get(old(self).entries@, q)
                    } by {
                    lemma_map_get_insert(old(self).entries@, i as int, page_no, v, q);
                }
            }
        }
    }

}

/// A bounded search in records that all lie past the bound finds nothing.
pub proof fn lemma_locate_none_before_start(s: Seq<(u32, u32)>, p: u32, start: u64, max: u64)
    requires
        max < start,
    ensures
        spec_locate(s, p, start, max) is None,
    decreases s.len(),
{
    if s.len() > 0 {
        lemma_locate_none_before_start(s.drop_last(), p, start, max);
    }
}

/// When every record satisfies the bound, the bounded search agrees with
/// the unbounded one.
pub proof fn lemma_locate_all_within(s: Seq<(u32, u32)>, p: u32, start: u64, max: u64)
    requires
        forall|i: int| 0 <= i < s.len() ==> start + (#[trigger] s[i]).1 <= max,
    ensures
        spec_locate(s, p, start, max) == spec_get_last(s, p),
    decreases s.len(),
{
    if s.len() > 0 {
        lemma_locate_all_within(s.drop_last(), p, start, max);
    }
}

/// Appending an entry changes the front-to-back lookup only for a key not
/// found before.
pub proof fn lemma_map_get_push(s: Seq<(u32, u64)>, x: (u32, u64), q: u32)
    ensures
        spec_map_get(s, q) is Some ==> spec_map_get(s.push(x), q) == spec_map_get(s, q),
        spec_map_get(s, q) is None && x.0 == q ==> spec_map_get(s.push(x), q) == Some(x.1),
        spec_map_get(s, q) is None && x.0 != q ==> spec_map_get(s.push(x), q) is None,
    decreases s.len(),
{
    if s.len() == 0 {
        assert(s.push(x)[0] == x);
        if x.0 != q {
            assert(s.push(x).drop_first() =~= Seq::<(u32, u64)>::empty());
            lemma_map_get_absent(Seq::<(u32, u64)>::empty(), q);
            assert(spec_map_get(s.push(x), q) == spec_map_get(s.push(x).drop_first(), q));
            assert(spec_map_get(s, q) is None);
        }
    } else {
        assert(s.push(x)[0] == s[0]);
        if s[0].0 == q {
            assert(spec_map_get(s, q) == Some(s[0].1));
            assert(spec_map_get(s.push(x), q) == Some(s[0].1));
        } else {
            assert(s.push(x).drop_first() =~= s.drop_first().push(x));
            lemma_map_get_push(s.drop_first(), x, q);
        }
    }
}

/// Two key-sorted pair sequences that look up identically are identical.
pub proof fn lemma_sorted_graph_unique(a: Seq<(u32, u64)>, b: Seq<(u32, u64)>)
    requires
        spec_keys_sorted(a),
        spec_keys_sorted(b),
        forall|p: u32| #[trigger] spec_map_get(a, p) == spec_map_get(b, p),
    ensures
        a == b,
    decreases a.len(),
{
    if a.len() == 0 {
        if b.len() > 0 {
            lemma_map_get_found(b, 0);
            lemma_map_get_absent(a, b[0].0);
            assert(false);
        }
        assert(a =~= b);
    } else if b.len() == 0 {
        lemma_map_get_found(a, 0);
        lemma_map_get_absent(b, a[0].0);
        assert(false);
    } else {
        // the heads carry each side's smallest key, and the graphs agree
        lemma_map_get_found(a, 0);
        lemma_map_get_found(b, 0);
        assert(spec_map_get(a, b[0].0) == spec_map_get(b, b[0].0));
        assert(spec_map_get(a, a[0].0) == spec_map_get(b, a[0].0));
        lemma_map_get_graph(a, b[0].0);
        let i = choose|i: int| 0 <= i < a.len() && #[trigger] a[i] == (b[0].0, b[0].1);
        lemma_map_get_graph(b, a[0].0);
        let j = choose|j: int| 0 <= j < b.len() && #[trigger] b[j] == (a[0].0, a[0].1);
        assert(a[0].0 <= a[i].0);
        assert(b[0].0 <= b[j].0);
        assert(a[0] == b[0]);
        let a2 = a.drop_first();
        let b2 = b.drop_first();
        assert(spec_keys_sorted(a2));
        assert(spec_keys_sorted(b2));
        assert forall|p: u32| #[trigger] spec_map_get(a2, p) == spec_map_get(b2, p) by {
            if p == a[0].0 {
                assert forall|k: int| 0 <= k < a2.len() implies (#[trigger] a2[k]).0 != p by {
                    assert(a[0].0 < a[k + 1].0);
                }
                assert forall|k: int| 0 <= k < b2.len() implies (#[trigger] b2[k]).0 != p by {
                    assert(b[0].0 < b[k + 1].0);
                }
                lemma_map_get_absent(a2, p);
                lemma_map_get_absent(b2, p);
            } else {
                assert(spec_map_get(a, p) == spec_map_get(b, p));
                assert(spec_map_get(a2, p) == spec_map_get(a, p));
                assert(spec_map_get(b2, p) == spec_map_get(b, p));
            }
        }
        lemma_sorted_graph_unique(a2, b2);
        assert(a.len() == b.len());
        assert forall|k: int| 0 <= k < a.len() implies a[k] == b[k] by {
            if k > 0 {
                assert(a[k] == a2[k - 1]);
                assert(b[k] == b2[k - 1]);
            }
        }
        assert(a =~= b);
    }
}

/// What the unbounded search returns is one of the records.
pub proof fn lemma_get_last_in(s: Seq<(u32, u32)>, p: u32)
    ensures
        spec_get_last(s, p) matches Some(o) ==> exists|i: int|
            0 <= i < s.len() && #[trigger] s[i] == (p, o),
    decreases s.len(),
{
    if s.len() > 0 {
        if s.last().0 == p {
            assert(s[s.len() - 1] == (p, s.last().1));
        } else {
            lemma_get_last_in(s.drop_last(), p);
            if spec_get_last(s, p) is Some {
                let o = spec_get_last(s, p).unwrap();
                let i = choose|i: int|
                    0 <= i < s.drop_last().len() && #[trigger] s.drop_last()[i] == (p, o);
                assert(s[i] == (p, o));
            }
        }
    }
}

/// Searching a concatenation searches the newer half first.
pub proof fn lemma_get_last_concat(a: Seq<(u32, u32)>, b: Seq<(u32, u32)>, p: u32)
    ensures
        spec_get_last(a + b, p) == if spec_get_last(b, p) is Some {
            spec_get_last(b, p)
        } else {
            spec_get_last(a, p)
        },
    decreases b.len(),
{
    if b.len() == 0 {
        assert(a + b =~= a);
    } else {
        assert((a + b).drop_last() =~= a + b.drop_last());
        lemma_get_last_concat(a, b.drop_last(), p);
    }
}

/// A bounded search returns the newest record within the bound: the
/// result is a record for the page within the bound, and every record for
/// the page within the bound has a smaller or equal offset.
pub proof fn lemma_locate_props(s: Seq<(u32, u32)>, p: u32, start: u64, max: u64)
    requires
        forall|i: int, j: int|
            0 <= i < j < s.len() && s[i].0 == s[j].0 ==> s[i].1 < s[j].1,
    ensures
        spec_locate(s, p, start, max) matches Some(o) ==> (exists|i: int|
            0 <= i < s.len() && #[trigger] s[i] == (p, o)) && start + o <= max,
        forall|i: int|
            0 <= i < s.len() && (#[trigger] s[i]).0 == p && start + s[i].1 <= max ==> {
                &&& spec_locate(s, p, start, max) is Some
                &&& s[i].1 <= spec_locate(s, p, start, max).unwrap()
            },
    decreases s.len(),
{
    if s.len() > 0 {
        let t = s.drop_last();
        lemma_locate_props(t, p, start, max);
        if !(s.last().0 == p && start + s.last().1 <= max) {
            if spec_locate(s, p, start, max) is Some {
                let o = spec_locate(s, p, start, max).unwrap();
                let i = choose|i: int| 0 <= i < t.len() && #[trigger] t[i] == (p, o);
                assert(s[i] == (p, o));
            }
            assert forall|i: int|
                0 <= i < s.len() && (#[trigger] s[i]).0 == p && start + s[i].1 <= max implies {
                &&& spec_locate(s, p, start, max) is Some
                &&& s[i].1 <= spec_locate(s, p, start, max).unwrap()
            } by {
                assert(i < s.len() - 1);
                assert(t[i] == s[i]);
            }
        } else {
            assert(s[s.len() - 1] == (p, s.last().1));
            assert forall|i: int|
                0 <= i < s.len() && (#[trigger] s[i]).0 == p && start + s[i].1 <= max implies {
                &&& spec_locate(s, p, start, max) is Some
                &&& s[i].1 <= spec_locate(s, p, start, max).unwrap()
            } by {
                if i < s.len() - 1 {
                    assert(s[i].1 < s.last().1);
                }
            }
        }
    }
}

} // verus!
