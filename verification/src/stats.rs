//! Per-namespace query statistics.
//!
//! The collector aggregates per-statement counters, keeps the queries with
//! the highest read/write weight and the slowest queries (ten of each),
//! and aggregates per-SQL-text totals capped at thirty entries.  The
//! stores here are plain values; sharing them across threads and
//! persisting them is the caller's concern.

use vstd::prelude::*;

verus! {

/// A query ranked by how many rows it touched.
#[derive(Clone, Debug)]
pub struct TopQuery {
    /// Rows read plus rows written.
    pub weight: u64,
    pub rows_written: u64,
    pub rows_read: u64,
    pub query: String,
}

impl TopQuery {
    /// Builds an entry whose weight is the rows read plus the rows
    /// written.
    pub fn new(query: String, rows_read: u64, rows_written: u64) -> (r: TopQuery)
        requires
            rows_read + rows_written <= u64::MAX,
        ensures
            r.weight == rows_read + rows_written,
            r.rows_read == rows_read,
            r.rows_written == rows_written,
            r.query == query,
    {
        TopQuery { weight: rows_read + rows_written, rows_read, rows_written, query }
    }
}

/// A query ranked by how long it ran.
#[derive(Clone, Debug)]
pub struct SlowestQuery {
    pub elapsed_ms: u64,
    pub query: String,
    pub rows_written: u64,
    pub rows_read: u64,
}

impl SlowestQuery {
    /// Builds an entry for a query that ran for `elapsed_ms`.
    pub fn new(query: String, elapsed_ms: u64, rows_read: u64, rows_written: u64) -> (r:
        SlowestQuery)
        ensures
            r.elapsed_ms == elapsed_ms,
            r.query == query,
            r.rows_read == rows_read,
            r.rows_written == rows_written,
    {
        SlowestQuery { elapsed_ms, query, rows_read, rows_written }
    }
}

/// Aggregated totals for one SQL text.
#[derive(Clone, Copy, Debug, PartialEq, Eq, Structural)]
pub struct QueryStats {
    pub elapsed_ms: u64,
    pub count: u64,
    pub rows_written: u64,
    pub rows_read: u64,
}

impl QueryStats {
    /// The totals after one execution.
    pub fn new(elapsed_ms: u64, rows_read: u64, rows_written: u64) -> (r: QueryStats)
        ensures
            r.elapsed_ms == elapsed_ms,
            r.count == 1,
            r.rows_read == rows_read,
            r.rows_written == rows_written,
    {
        QueryStats { elapsed_ms, count: 1, rows_read, rows_written }
    }

    /// The sum of two aggregates, field by field.
    pub fn merge(&self, another: &QueryStats) -> (r: QueryStats)
        requires
            self.elapsed_ms + another.elapsed_ms <= u64::MAX,
            self.count + another.count <= u64::MAX,
            self.rows_read + another.rows_read <= u64::MAX,
            self.rows_written + another.rows_written <= u64::MAX,
        ensures
            r.elapsed_ms == self.elapsed_ms + another.elapsed_ms,
            r.count == self.count + another.count,
            r.rows_read == self.rows_read + another.rows_read,
            r.rows_written == self.rows_written + another.rows_written,
    {
        QueryStats {
            elapsed_ms: self.elapsed_ms + another.elapsed_ms,
            count: self.count + another.count,
            rows_read: self.rows_read + another.rows_read,
            rows_written: self.rows_written + another.rows_written,
        }
    }

    /// Whether `self` orders before `other`: by elapsed time, then
    /// execution count, then rows written, then rows read.
    pub open spec fn spec_lt(self, other: QueryStats) -> bool {
        if self.elapsed_ms != other.elapsed_ms {
            self.elapsed_ms < other.elapsed_ms
        } else if self.count != other.count {
            self.count < other.count
        } else if self.rows_written != other.rows_written {
            self.rows_written < other.rows_written
        } else {
            self.rows_read < other.rows_read
        }
    }

    /// Compares two aggregates by elapsed time, count, rows written, rows
    /// read.
    pub fn lt(&self, other: &QueryStats) -> (r: bool)
        ensures
            r == self.spec_lt(*other),
    {
        if self.elapsed_ms != other.elapsed_ms {
            self.elapsed_ms < other.elapsed_ms
        } else if self.count != other.count {
            self.count < other.count
        } else if self.rows_written != other.rows_written {
            self.rows_written < other.rows_written
        } else {
            self.rows_read < other.rows_read
        }
    }
}

/// Whether some entry carries `key`.
pub open spec fn spec_has_key(s: Seq<(String, QueryStats)>, key: Seq<char>) -> bool {
    exists|i: int| 0 <= i < s.len() && (#[trigger] s[i]).0@ == key
}

/// The store's entries with their SQL texts as character sequences.
pub open spec fn spec_views(s: Seq<(String, QueryStats)>) -> Seq<(Seq<char>, QueryStats)> {
    Seq::new(s.len(), |i: int| (s[i].0@, s[i].1))
}

/// `a + b`, stopping at the integer limit.
pub open spec fn spec_sat_add(a: u64, b: u64) -> u64 {
    if a + b <= u64::MAX {
        (a + b) as u64
    } else {
        u64::MAX
    }
}

/// The sum of two aggregates, saturating field by field.
pub open spec fn spec_saturating_merge(a: QueryStats, b: QueryStats) -> QueryStats {
    QueryStats {
        elapsed_ms: spec_sat_add(a.elapsed_ms, b.elapsed_ms),
        count: spec_sat_add(a.count, b.count),
        rows_read: spec_sat_add(a.rows_read, b.rows_read),
        rows_written: spec_sat_add(a.rows_written, b.rows_written),
    }
}

/// What recording one execution does to the per-SQL store: an existing
/// entry absorbs the totals, a new one is inserted; an aggregate below
/// the threshold is dropped outright; and past the cap, one smallest
/// aggregate falls out and the threshold rises to the smallest kept
/// elapsed time.
pub open spec fn spec_registered(
    v0: Seq<(Seq<char>, QueryStats)>,
    t0: u64,
    v1: Seq<(Seq<char>, QueryStats)>,
    t1: u64,
    sql: Seq<char>,
    stat: QueryStats,
) -> bool {
    ||| exists|i: int|
        #![trigger v0[i]]
        0 <= i < v0.len() && v0[i].0 == sql && {
            let agg = spec_saturating_merge(v0[i].1, stat);
            if agg.elapsed_ms < t0 {
                v1 == v0 && t1 == t0
            } else {
                v1 == v0.update(i, (sql, agg)) && t1 == t0
            }
        }
    ||| ((forall|i: int| 0 <= i < v0.len() ==> (#[trigger] v0[i]).0 != sql) && {
        if stat.elapsed_ms < t0 {
            v1 == v0 && t1 == t0
        } else if v0.len() < QUERY_STATS_CAP {
            v1 == v0.push((sql, stat)) && t1 == t0
        } else {
            exists|m: int|
                #![trigger v0.push((sql, stat)).remove(m)]
                {
                    &&& 0 <= m < v0.push((sql, stat)).len()
                    &&& v1 == v0.push((sql, stat)).remove(m)
                    &&& forall|j: int|
                        0 <= j < v0.push((sql, stat)).len() && j != m ==> !(#[trigger] v0.push(
                            (sql, stat),
                        )[j]).1.spec_lt(v0.push((sql, stat))[m].1)
                    &&& forall|j: int| 0 <= j < v1.len() ==> (#[trigger] v1[j]).1.elapsed_ms >= t1
                    &&& exists|j: int|
                        0 <= j < v1.len() && (#[trigger] v1[j]).1.elapsed_ms == t1
                }
        }
    })
}

/// Most aggregates kept per namespace.
pub const QUERY_STATS_CAP: usize = 30;

/// Aggregated totals per SQL text, capped at [`QUERY_STATS_CAP`] entries;
/// when the cap is passed, the smallest aggregates are evicted and the
/// eviction threshold rises to the smallest surviving elapsed time.
pub struct QueriesStats {
    /// `(sql, totals)` pairs; a key occurs at most once.
    pub stats: Vec<(String, QueryStats)>,
    /// Aggregates whose elapsed time falls below this are not recorded.
    pub stats_threshold: u64,
}

impl QueriesStats {
    /// Keys occur at most once.
    pub open spec fn wf(self) -> bool {
        &&& forall|i: int, j: int|
            0 <= i < j < self.stats@.len() ==> (#[trigger] self.stats@[i]).0@ != (
            #[trigger] self.stats@[j]).0@
        &&& self.stats@.len() <= QUERY_STATS_CAP
    }

    /// An empty store that records everything.
    pub fn new() -> (r: QueriesStats)
        ensures
            r.wf(),
            r.stats@.len() == 0,
            r.stats_threshold == 0,
    {
        QueriesStats { stats: Vec::new(), stats_threshold: 0 }
    }

    /// The aggregate recorded for `sql`.
    pub fn get(&self, sql: &String) -> (r: Option<QueryStats>)
        ensures
            r is Some <==> spec_has_key(self.stats@, sql@),
            r matches Some(v) ==> exists|i: int|
                0 <= i < self.stats@.len() && (#[trigger] self.stats@[i]).0@ == sql@
                    && self.stats@[i].1 == v,
    {
        let mut i: usize = 0;
        while i < self.stats.len()
            invariant
                i <= self.stats@.len(),
                forall|j: int| 0 <= j < i ==> (#[trigger] self.stats@[j]).0@ != sql@,
            decreases self.stats@.len() - i,
        {
            if self.stats[i].0.eq(sql) {
                proof {
                    assert(self.stats@[i as int].0@ == sql@);
                }
                return Some(self.stats[i].1);
            }
            proof {
                assert(self.stats@[i as int].0@ != sql@);
            }
            i = i + 1;
        }
        None
    }

    /// Folds one execution's totals into the entry for `sql`.  An
    /// aggregate below the threshold is dropped; a new entry that pushes
    /// the store past its cap evicts the smallest aggregate and raises the
    /// threshold to the smallest surviving elapsed time.
    pub fn register_query(&mut self, sql: &String, stat: QueryStats)
        requires
            old(self).wf(),
        ensures
            final(self).wf(),
            final(self).stats@.len() <= QUERY_STATS_CAP,
            spec_registered(
                spec_views(old(self).stats@),
                old(self).stats_threshold,
                spec_views(final(self).stats@),
                final(self).stats_threshold,
                sql@,
                stat,
            ),
    {
        let ghost v0 = spec_views(old(self).stats@);
        let existing = self.get(sql);
        let (aggregated, is_new) = match existing {
            Some(prev) => (prev.merge_saturating(&stat), false),
            None => (stat, true),
        };
        proof {
            if existing is Some {
                let i0 = choose|i: int|
                    0 <= i < old(self).stats@.len() && (#[trigger] old(self).stats@[i]).0@ == sql@
                        && old(self).stats@[i].1 == existing.unwrap();
                assert(v0[i0].0 == sql@ && v0[i0].1 == existing.unwrap());
            } else {
                assert forall|i: int| 0 <= i < v0.len() implies (#[trigger] v0[i]).0 != sql@ by {
                    assert(old(self).stats@[i].0@ != sql@);
                }
            }
        }
        if aggregated.elapsed_ms < self.stats_threshold {
            proof {
                if existing is Some {
                    let i0 = choose|i: int|
                        0 <= i < v0.len() && (#[trigger] v0[i]).0 == sql@ && v0[i].1
                            == existing.unwrap();
                    assert(spec_saturating_merge(v0[i0].1, stat) == aggregated);
                }
            }
            return ;
        }
        self.put(sql, aggregated);
        if !is_new {
            proof {
                let ip = choose|i: int|
                    #![trigger old(self).stats@[i]]
                    0 <= i < old(self).stats@.len() && old(self).stats@[i].0@ == sql@
                        && spec_views(self.stats@) == v0.update(i, (sql@, aggregated));
                assert(v0[ip].0 == sql@ && v0[ip].1 == old(self).stats@[ip].1);
                let i0 = choose|i: int|
                    0 <= i < old(self).stats@.len() && (#[trigger] old(self).stats@[i]).0@ == sql@
                        && old(self).stats@[i].1 == existing.unwrap();
                assert(old(self).stats@[ip].0@ == old(self).stats@[i0].0@);
                if ip != i0 {
                    assert(false);
                }
                assert(spec_saturating_merge(v0[ip].1, stat) == aggregated);
            }
            return ;
        }
        if self.stats.len() <= QUERY_STATS_CAP {
            proof {
                assert(spec_views(self.stats@) == v0.push((sql@, aggregated)));
                assert(v0.len() < QUERY_STATS_CAP);
            }
            return ;
        }
        // one past the cap: evict the smallest aggregate
        let min = self.min_position();
        let ghost pre = self.stats@;
        self.stats.remove(min);
        proof {
            assert forall|i: int, j: int|
                0 <= i < j < self.stats@.len() implies (#[trigger] self.stats@[i]).0@ != (
            #[trigger] self.stats@[j]).0@ by {
                let oi: int = if i < min as int {
                    i
                } else {
                    i + 1
                };
                let oj: int = if j < min as int {
                    j
                } else {
                    j + 1
                };
                assert(self.stats@[i] == pre[oi]);
                assert(self.stats@[j] == pre[oj]);
                assert(pre[oi].0@ != pre[oj].0@);
            }
        }
        let next_threshold = self.min_elapsed();
        self.stats_threshold = next_threshold;
        proof {
            let prev = v0.push((sql@, aggregated));
            assert(spec_views(pre) == prev);
            assert(spec_views(self.stats@) =~= prev.remove(min as int));
            assert forall|j: int|
                0 <= j < prev.len() && j != min as int implies !(#[trigger] prev[j]).1.spec_lt(
                prev[min as int].1,
            ) by {
                assert(pre[j].1 == prev[j].1);
                assert(!pre[j].1.spec_lt(pre[min as int].1));
            }
            assert forall|j: int|
                0 <= j < spec_views(self.stats@).len() implies (#[trigger] spec_views(
                self.stats@,
            )[j]).1.elapsed_ms >= self.stats_threshold by {
                assert(spec_views(self.stats@)[j].1 == self.stats@[j].1);
            }
            let jw = choose|j: int|
                0 <= j < self.stats@.len() && (#[trigger] self.stats@[j]).1.elapsed_ms
                    == next_threshold;
            assert(spec_views(self.stats@)[jw].1.elapsed_ms == self.stats_threshold);
            assert(0 <= (min as int) && (min as int) < prev.len() && spec_views(self.stats@)
                == prev.remove(min as int));
        }
    }

    /// Replaces or inserts the entry for `sql`.
    fn put(&mut self, sql: &String, stat: QueryStats)
        requires
            old(self).wf(),
        ensures
            final(self).stats@.len() == old(self).stats@.len() + (if spec_has_key(
                old(self).stats@,
                sql@,
            ) {
                0int
            } else {
                1
            }),
            final(self).stats_threshold == old(self).stats_threshold,
            forall|i: int, j: int|
                0 <= i < j < final(self).stats@.len() ==> (#[trigger] final(self).stats@[i]).0@
                    != (#[trigger] final(self).stats@[j]).0@,
            spec_has_key(old(self).stats@, sql@) ==> exists|i: int|
                #![trigger old(self).stats@[i]]
                0 <= i < old(self).stats@.len() && old(self).stats@[i].0@ == sql@ && spec_views(
                    final(self).stats@,
                ) == spec_views(old(self).stats@).update(i, (sql@, stat)),
            !spec_has_key(old(self).stats@, sql@) ==> spec_views(final(self).stats@)
                == spec_views(old(self).stats@).push((sql@, stat)),
    {
        let mut i: usize = 0;
        while i < self.stats.len()
            invariant
                i <= self.stats@.len(),
                self == old(self),
                old(self).wf(),
                forall|j: int| 0 <= j < i ==> (#[trigger] self.stats@[j]).0@ != sql@,
            decreases self.stats@.len() - i,
        {
            if self.stats[i].0.eq(sql) {
                proof {
                    assert(self.stats@[i as int].0@ == sql@);
                }
                let r = vstd::std_specs::vec::vec_index_mut(&mut self.stats, i);
                *r = (sql.clone(), stat);
                proof {
                    assert(self.stats@ == old(self).stats@.update(
                        i as int,
                        self.stats@[i as int],
                    ));
                    assert(self.stats@[i as int].0@ == sql@);
                    assert(forall|x: int, y: int|
                        0 <= x < y < old(self).stats@.len() ==> (
                        #[trigger] old(self).stats@[x]).0@ != (
                        #[trigger] old(self).stats@[y]).0@);
                    assert forall|a: int, b: int|
                        0 <= a < b < self.stats@.len() implies (
                    #[trigger] self.stats@[a]).0@ != (#[trigger] self.stats@[b]).0@ by {
                        if a != i as int && b != i as int {
                            assert(old(self).stats@[a].0@ != old(self).stats@[b].0@);
                        } else if a == i as int {
                            assert(old(self).stats@[i as int].0@ != old(self).stats@[b].0@);
                        } else {
                            assert(old(self).stats@[a].0@ != old(self).stats@[i as int].0@);
                        }
                    }
                    assert(spec_views(self.stats@) =~= spec_views(old(self).stats@).update(
                        i as int,
                        (sql@, stat),
                    ));
                }
                return ;
            }
            proof {
                assert(self.stats@[i as int].0@ != sql@);
            }
            i = i + 1;
        }
        self.stats.push((sql.clone(), stat));
        proof {
            assert forall|a: int, b: int|
                0 <= a < b < self.stats@.len() implies (#[trigger] self.stats@[a]).0@ != (
            #[trigger] self.stats@[b]).0@ by {
                if b < self.stats@.len() - 1 {
                    assert(old(self).stats@[a].0@ != old(self).stats@[b].0@);
                } else {
                    assert(old(self).stats@[a].0@ != sql@);
                }
            }
            assert(spec_views(self.stats@) =~= spec_views(old(self).stats@).push((sql@, stat)));
        }
    }

    /// Position of the smallest aggregate.
    fn min_position(&self) -> (r: usize)
        requires
            self.stats@.len() > 0,
        ensures
            r < self.stats@.len(),
            forall|i: int|
                0 <= i < self.stats@.len() ==> !(#[trigger] self.stats@[i]).1.spec_lt(
                    self.stats@[r as int].1,
                ),
    {
        let mut min: usize = 0;
        let mut i: usize = 1;
        while i < self.stats.len()
            invariant
                min < i <= self.stats@.len(),
                forall|j: int|
                    0 <= j < i ==> !(#[trigger] self.stats@[j]).1.spec_lt(
                        self.stats@[min as int].1,
                    ),
            decreases self.stats@.len() - i,
        {
            if self.stats[i].1.lt(&self.stats[min].1) {
                min = i;
            }
            i = i + 1;
        }
        min
    }

    /// The smallest elapsed time among the kept aggregates; zero when
    /// empty.
    fn min_elapsed(&self) -> (r: u64)
        ensures
            forall|i: int| 0 <= i < self.stats@.len() ==> (#[trigger] self.stats@[i]).1.elapsed_ms
                >= r,
            self.stats@.len() > 0 ==> exists|i: int|
                0 <= i < self.stats@.len() && (#[trigger] self.stats@[i]).1.elapsed_ms == r,
    {
        let mut r: u64 = u64::MAX;
        let mut i: usize = 0;
        if self.stats.len() == 0 {
            return 0;
        }
        while i < self.stats.len()
            invariant
                i <= self.stats@.len(),
                forall|j: int| 0 <= j < i ==> (#[trigger] self.stats@[j]).1.elapsed_ms >= r,
                i > 0 ==> exists|j: int|
                    0 <= j < i && (#[trigger] self.stats@[j]).1.elapsed_ms == r,
                i == 0 ==> r == u64::MAX,
            decreases self.stats@.len() - i,
        {
            if self.stats[i].1.elapsed_ms < r {
                r = self.stats[i].1.elapsed_ms;
                proof {
                    assert(self.stats@[i as int].1.elapsed_ms == r);
                }
            } else {
                proof {
                    if i == 0 {
                        assert(self.stats@[0].1.elapsed_ms == r);
                    }
                }
            }
            i = i + 1;
        }
        r
    }

    /// The kept `(sql, totals)` pairs.
    pub fn stats(&self) -> (r: &Vec<(String, QueryStats)>)
        ensures
            r == self.stats,
    {
        &self.stats
    }
}

impl QueryStats {
    /// The sum of two aggregates, saturating at the integer limits.
    pub fn merge_saturating(&self, another: &QueryStats) -> (r: QueryStats)
        ensures
            r == spec_saturating_merge(*self, *another),
    {
        QueryStats {
            elapsed_ms: saturating_add(self.elapsed_ms, another.elapsed_ms),
            count: saturating_add(self.count, another.count),
            rows_read: saturating_add(self.rows_read, another.rows_read),
            rows_written: saturating_add(self.rows_written, another.rows_written),
        }
    }
}

/// Most entries kept in the top-query and slowest-query stores.
pub const QUERY_RANKING_CAP: usize = 10;

/// A top-query entry as plain values: weight, rows written, rows read,
/// SQL text.
pub open spec fn spec_top_view(q: TopQuery) -> (u64, u64, u64, Seq<char>) {
    (q.weight, q.rows_written, q.rows_read, q.query@)
}

/// The top ranking as plain values.
pub open spec fn spec_top_views(s: Seq<TopQuery>) -> Seq<(u64, u64, u64, Seq<char>)> {
    Seq::new(s.len(), |i: int| spec_top_view(s[i]))
}

/// A slowest-query entry as plain values: elapsed time, rows written,
/// rows read, SQL text.
pub open spec fn spec_slow_view(q: SlowestQuery) -> (u64, u64, u64, Seq<char>) {
    (q.elapsed_ms, q.rows_written, q.rows_read, q.query@)
}

/// The slowest ranking as plain values.
pub open spec fn spec_slow_views(s: Seq<SlowestQuery>) -> Seq<(u64, u64, u64, Seq<char>)> {
    Seq::new(s.len(), |i: int| spec_slow_view(s[i]))
}

/// What admitting a query to a ranking does: the entry is inserted at
/// some position; past the cap, the first — under the ranking's order,
/// the smallest — entry falls out and the threshold becomes the new first
/// entry's key.
pub open spec fn spec_ranked(
    v0: Seq<(u64, u64, u64, Seq<char>)>,
    t0: u64,
    v1: Seq<(u64, u64, u64, Seq<char>)>,
    t1: u64,
    qv: (u64, u64, u64, Seq<char>),
) -> bool {
    if v0.len() < QUERY_RANKING_CAP {
        exists|i: int|
            #![trigger v0.insert(i, qv)]
            0 <= i <= v0.len() && v1 == v0.insert(i, qv) && t1 == t0
    } else {
        exists|i: int|
            #![trigger v0.insert(i, qv)]
            0 <= i <= v0.len() && v1 == v0.insert(i, qv).remove(0) && v1.len() > 0 && t1
                == v1[0].0
    }
}

/// One statement execution, as reported to the collector.
#[derive(Clone, Debug)]
pub struct StatsUpdateMessage {
    pub sql: String,
    pub elapsed_ms: u64,
    pub rows_read: u64,
    pub rows_written: u64,
    pub mem_used: u64,
}

/// `a` orders no later than `b` among top queries: by weight, then rows
/// written, then rows read.
pub open spec fn spec_top_le(a: TopQuery, b: TopQuery) -> bool {
    if a.weight != b.weight {
        a.weight < b.weight
    } else if a.rows_written != b.rows_written {
        a.rows_written < b.rows_written
    } else {
        a.rows_read <= b.rows_read
    }
}

/// The top-query store is sorted, smallest first.
pub open spec fn spec_top_sorted(s: Seq<TopQuery>) -> bool {
    forall|i: int, j: int| 0 <= i < j < s.len() ==> spec_top_le(#[trigger] s[i], #[trigger] s[j])
}

/// The slowest-query store is sorted by elapsed time, smallest first.
pub open spec fn spec_slow_sorted(s: Seq<SlowestQuery>) -> bool {
    forall|i: int, j: int|
        0 <= i < j < s.len() ==> (#[trigger] s[i]).elapsed_ms <= (#[trigger] s[j]).elapsed_ms
}

/// Per-namespace statistics: run counters, the ten heaviest and ten
/// slowest queries, and the per-SQL aggregates.
pub struct Stats {
    /// The namespace these statistics describe.
    pub namespace: String,
    pub rows_written: u64,
    pub rows_read: u64,
    pub storage_bytes_used: u64,
    /// Write requests a replica delegated to its primary.
    pub write_requests_delegated: u64,
    pub current_frame_no: u64,
    /// Smallest weight among the kept top queries.
    pub top_query_threshold: u64,
    /// The heaviest queries, smallest first.
    pub top_queries: Vec<TopQuery>,
    /// Smallest elapsed time among the kept slowest queries.
    pub slowest_query_threshold: u64,
    /// The slowest queries, fastest first.
    pub slowest_queries: Vec<SlowestQuery>,
    pub embedded_replica_frames_replicated: u64,
    pub query_count: u64,
    pub query_latency: u64,
    /// Per-SQL aggregates.
    pub queries: QueriesStats,
}

impl Stats {
    /// Internal consistency: both rankings are sorted and capped.
    pub open spec fn wf(self) -> bool {
        &&& spec_top_sorted(self.top_queries@)
        &&& self.top_queries@.len() <= QUERY_RANKING_CAP
        &&& spec_slow_sorted(self.slowest_queries@)
        &&& self.slowest_queries@.len() <= QUERY_RANKING_CAP
        &&& self.queries.wf()
    }

    /// Fresh statistics for one namespace, with every counter at zero.
    pub fn new(namespace: String) -> (r: Stats)
        ensures
            r.wf(),
            r.namespace == namespace,
            r.rows_written == 0 && r.rows_read == 0 && r.storage_bytes_used == 0,
            r.write_requests_delegated == 0 && r.current_frame_no == 0,
            r.top_query_threshold == 0 && r.top_queries@.len() == 0,
            r.slowest_query_threshold == 0 && r.slowest_queries@.len() == 0,
            r.embedded_replica_frames_replicated == 0,
            r.query_count == 0 && r.query_latency == 0,
            r.queries.stats@.len() == 0,
    {
        Stats {
            namespace,
            rows_written: 0,
            rows_read: 0,
            storage_bytes_used: 0,
            write_requests_delegated: 0,
            current_frame_no: 0,
            top_query_threshold: 0,
            top_queries: Vec::new(),
            slowest_query_threshold: 0,
            slowest_queries: Vec::new(),
            embedded_replica_frames_replicated: 0,
            query_count: 0,
            query_latency: 0,
            queries: QueriesStats::new(),
        }
    }

    /// Records one statement execution: counters rise, the per-SQL
    /// aggregate is folded in, and the query enters the rankings it
    /// qualifies for.  A statement that touched no rows counts as one row
    /// read.
    pub fn update(&mut self, msg: StatsUpdateMessage)
        requires
            old(self).wf(),
        ensures
            final(self).wf(),
            ({
                let effective_rows_read = if msg.rows_read == 0 && msg.rows_written == 0 {
                    1u64
                } else {
                    msg.rows_read
                };
                &&& final(self).rows_read == vstd::math::min(
                    old(self).rows_read + effective_rows_read,
                    u64::MAX as int,
                )
                &&& final(self).rows_written == vstd::math::min(
                    old(self).rows_written + msg.rows_written,
                    u64::MAX as int,
                )
                &&& final(self).query_count == vstd::math::min(
                    old(self).query_count + 1,
                    u64::MAX as int,
                )
                &&& final(self).query_latency == vstd::math::min(
                    old(self).query_latency + msg.elapsed_ms,
                    u64::MAX as int,
                )
            }),
            final(self).namespace == old(self).namespace,
            final(self).storage_bytes_used == old(self).storage_bytes_used,
            final(self).current_frame_no == old(self).current_frame_no,
            // the execution is folded into the per-SQL aggregates, and
            // enters each ranking exactly when it meets its threshold
            ({
                let rr = if msg.rows_read == 0 && msg.rows_written == 0 {
                    1u64
                } else {
                    msg.rows_read
                };
                let weight = spec_sat_add(rr, msg.rows_written);
                let stat = QueryStats {
                    elapsed_ms: msg.elapsed_ms,
                    count: 1,
                    rows_read: rr,
                    rows_written: msg.rows_written,
                };
                &&& spec_registered(
                    spec_views(old(self).queries.stats@),
                    old(self).queries.stats_threshold,
                    spec_views(final(self).queries.stats@),
                    final(self).queries.stats_threshold,
                    msg.sql@,
                    stat,
                )
                &&& (weight >= old(self).top_query_threshold ==> spec_ranked(
                    spec_top_views(old(self).top_queries@),
                    old(self).top_query_threshold,
                    spec_top_views(final(self).top_queries@),
                    final(self).top_query_threshold,
                    (weight, msg.rows_written, rr, msg.sql@),
                ))
                &&& (weight < old(self).top_query_threshold ==> final(self).top_queries == old(self).top_queries && final(self).top_query_threshold == old(self).top_query_threshold)
                &&& (msg.elapsed_ms >= old(self).slowest_query_threshold ==> spec_ranked(
                    spec_slow_views(old(self).slowest_queries@),
                    old(self).slowest_query_threshold,
                    spec_slow_views(final(self).slowest_queries@),
                    final(self).slowest_query_threshold,
                    (msg.elapsed_ms, msg.rows_written, rr, msg.sql@),
                ))
                &&& (msg.elapsed_ms < old(self).slowest_query_threshold ==> final(self).slowest_queries == old(self).slowest_queries && final(self).slowest_query_threshold == old(self).slowest_query_threshold)
            }),
    {
        let rows_read = if msg.rows_read == 0 && msg.rows_written == 0 {
            1
        } else {
            msg.rows_read
        };
        let rows_written = msg.rows_written;
        let elapsed_ms = msg.elapsed_ms;
        let weight = saturating_add(rows_read, rows_written);
        self.inc_rows_read(rows_read);
        self.inc_rows_written(rows_written);
        self.inc_query(elapsed_ms);
        self.register_query(&msg.sql, QueryStats::new(elapsed_ms, rows_read, rows_written));
        if self.qualifies_as_top_query(weight) {
            self.add_top_query(
                TopQuery { weight, rows_read, rows_written, query: msg.sql.clone() },
            );
        }
        if self.qualifies_as_slowest_query(elapsed_ms) {
            self.add_slowest_query(
                SlowestQuery { elapsed_ms, query: msg.sql.clone(), rows_read, rows_written },
            );
        }
    }

    /// Raises the written-rows counter by `n`, saturating.
    pub fn inc_rows_written(&mut self, n: u64)
        ensures
            *final(self) == (Stats {
                rows_written: vstd::math::min(old(self).rows_written + n, u64::MAX as int) as u64,
                ..*old(self)
            }),
    {
        self.rows_written = saturating_add(self.rows_written, n);
    }

    /// Raises the read-rows counter by `n`, saturating.
    pub fn inc_rows_read(&mut self, n: u64)
        ensures
            *final(self) == (Stats {
                rows_read: vstd::math::min(old(self).rows_read + n, u64::MAX as int) as u64,
                ..*old(self)
            }),
    {
        self.rows_read = saturating_add(self.rows_read, n);
    }

    /// Counts one query and adds its latency.
    pub fn inc_query(&mut self, ms: u64)
        ensures
            *final(self) == (Stats {
                query_count: vstd::math::min(old(self).query_count + 1, u64::MAX as int) as u64,
                query_latency: vstd::math::min(
                    old(self).query_latency + ms,
                    u64::MAX as int,
                ) as u64,
                ..*old(self)
            }),
    {
        self.query_count = saturating_add(self.query_count, 1);
        self.query_latency = saturating_add(self.query_latency, ms);
    }

    /// Sets the storage gauge.
    pub fn set_storage_bytes_used(&mut self, n: u64)
        ensures
            *final(self) == (Stats { storage_bytes_used: n, ..*old(self) }),
    {
        self.storage_bytes_used = n;
    }

    /// Total rows read since the namespace was created.
    pub fn rows_read(&self) -> (r: u64)
        ensures
            r == self.rows_read,
    {
        self.rows_read
    }

    /// Total rows written since the namespace was created.
    pub fn rows_written(&self) -> (r: u64)
        ensures
            r == self.rows_written,
    {
        self.rows_written
    }

    /// Bytes the database uses, excluding uncheckpointed frames.
    pub fn storage_bytes_used(&self) -> (r: u64)
        ensures
            r == self.storage_bytes_used,
    {
        self.storage_bytes_used
    }

    /// Counts one write request delegated from a replica to its primary.
    pub fn inc_write_requests_delegated(&mut self)
        ensures
            *final(self) == (Stats {
                write_requests_delegated: vstd::math::min(
                    old(self).write_requests_delegated + 1,
                    u64::MAX as int,
                ) as u64,
                ..*old(self)
            }),
    {
        self.write_requests_delegated = saturating_add(self.write_requests_delegated, 1);
    }

    /// Counts one frame replicated to an embedded replica.
    pub fn inc_embedded_replica_frames_replicated(&mut self)
        ensures
            *final(self) == (Stats {
                embedded_replica_frames_replicated: vstd::math::min(
                    old(self).embedded_replica_frames_replicated + 1,
                    u64::MAX as int,
                ) as u64,
                ..*old(self)
            }),
    {
        self.embedded_replica_frames_replicated = saturating_add(
            self.embedded_replica_frames_replicated,
            1,
        );
    }

    /// Frames replicated to embedded replicas so far.
    pub fn get_embedded_replica_frames_replicated(&self) -> (r: u64)
        ensures
            r == self.embedded_replica_frames_replicated,
    {
        self.embedded_replica_frames_replicated
    }

    /// Write requests delegated so far.
    pub fn write_requests_delegated(&self) -> (r: u64)
        ensures
            r == self.write_requests_delegated,
    {
        self.write_requests_delegated
    }

    /// Sets the replication-position gauge.
    pub fn set_current_frame_no(&mut self, fno: u64)
        ensures
            *final(self) == (Stats { current_frame_no: fno, ..*old(self) }),
    {
        self.current_frame_no = fno;
    }

    /// The replication-position gauge.
    pub fn get_current_frame_no(&self) -> (r: u64)
        ensures
            r == self.current_frame_no,
    {
        self.current_frame_no
    }

    /// Queries executed so far.
    pub fn get_query_count(&self) -> (r: u64)
        ensures
            r == self.query_count,
    {
        self.query_count
    }

    /// Total query latency so far, in milliseconds.
    pub fn get_query_latency(&self) -> (r: u64)
        ensures
            r == self.query_latency,
    {
        self.query_latency
    }

    /// Folds one execution into the per-SQL aggregates.
    pub fn register_query(&mut self, sql: &String, stat: QueryStats)
        requires
            old(self).queries.wf(),
        ensures
            final(self).queries.wf(),
            *final(self) == (Stats { queries: final(self).queries, ..*old(self) }),
            spec_registered(
                spec_views(old(self).queries.stats@),
                old(self).queries.stats_threshold,
                spec_views(final(self).queries.stats@),
                final(self).queries.stats_threshold,
                sql@,
                stat,
            ),
    {
        self.queries.register_query(sql, stat);
    }

    /// Whether a query of this weight belongs among the top queries.
    pub fn qualifies_as_top_query(&self, weight: u64) -> (r: bool)
        ensures
            r == (weight >= self.top_query_threshold),
    {
        weight >= self.top_query_threshold
    }

    /// Whether a query this slow belongs among the slowest queries.
    pub fn qualifies_as_slowest_query(&self, elapsed_ms: u64) -> (r: bool)
        ensures
            r == (elapsed_ms >= self.slowest_query_threshold),
    {
        elapsed_ms >= self.slowest_query_threshold
    }

    /// Admits a query to the top ranking; when the ranking overflows, the
    /// lightest entry falls out and the threshold rises to the lightest
    /// surviving weight.
    pub fn add_top_query(&mut self, query: TopQuery)
        requires
            spec_top_sorted(old(self).top_queries@),
            old(self).top_queries@.len() <= QUERY_RANKING_CAP,
        ensures
            spec_top_sorted(final(self).top_queries@),
            final(self).top_queries@.len() == if old(self).top_queries@.len()
                < QUERY_RANKING_CAP {
                old(self).top_queries@.len() as int + 1
            } else {
                QUERY_RANKING_CAP as int
            },
            old(self).top_queries@.len() == QUERY_RANKING_CAP ==> final(self).top_query_threshold
                == final(self).top_queries@[0].weight,
            old(self).top_queries@.len() < QUERY_RANKING_CAP ==> final(self).top_query_threshold
                == old(self).top_query_threshold,
            spec_ranked(
                spec_top_views(old(self).top_queries@),
                old(self).top_query_threshold,
                spec_top_views(final(self).top_queries@),
                final(self).top_query_threshold,
                spec_top_view(query),
            ),
            *final(self) == (Stats {
                top_queries: final(self).top_queries,
                top_query_threshold: final(self).top_query_threshold,
                ..*old(self)
            }),
    {
        let mut pos: usize = 0;
        while pos < self.top_queries.len() && top_le_exec(&self.top_queries[pos], &query)
            invariant
                pos <= self.top_queries@.len(),
                self == old(self),
                spec_top_sorted(old(self).top_queries@),
                forall|j: int| 0 <= j < pos ==> spec_top_le(#[trigger] self.top_queries@[j], query),
            decreases self.top_queries@.len() - pos,
        {
            pos = pos + 1;
        }
        proof {
            assert forall|j: int|
                pos as int <= j < old(self).top_queries@.len() implies spec_top_le(
                query,
                #[trigger] old(self).top_queries@[j],
            ) by {
                assert(!spec_top_le(old(self).top_queries@[pos as int], query));
                if j > pos as int {
                    assert(spec_top_le(
                        old(self).top_queries@[pos as int],
                        old(self).top_queries@[j],
                    ));
                }
            }
        }
        self.top_queries.insert(pos, query);
        proof {
            lemma_top_insert_sorted(old(self).top_queries@, self.top_queries@, pos as int);
            assert(spec_top_views(self.top_queries@) =~= spec_top_views(
                old(self).top_queries@,
            ).insert(pos as int, spec_top_view(query)));
        }
        if self.top_queries.len() > QUERY_RANKING_CAP {
            let ghost s2 = self.top_queries@;
            self.top_queries.remove(0);
            let first_weight = self.top_queries[0].weight;
            self.top_query_threshold = first_weight;
            proof {
                assert forall|i: int, j: int|
                    0 <= i < j < self.top_queries@.len() implies spec_top_le(
                    #[trigger] self.top_queries@[i],
                    #[trigger] self.top_queries@[j],
                ) by {
                    assert(self.top_queries@[i] == s2[i + 1]);
                    assert(self.top_queries@[j] == s2[j + 1]);
                }
                assert(spec_top_views(self.top_queries@) =~= spec_top_views(s2).remove(0));
                assert(spec_top_views(self.top_queries@)[0].0 == self.top_query_threshold);
            }
        }
    }

    /// The kept top queries, lightest first.
    pub fn top_queries(&self) -> (r: &Vec<TopQuery>)
        ensures
            r == self.top_queries,
    {
        &self.top_queries
    }

    /// Empties the top ranking and lets every query qualify again.
    pub fn reset_top_queries(&mut self)
        ensures
            final(self).top_queries@.len() == 0,
            final(self).top_query_threshold == 0,
            final(self).slowest_queries == old(self).slowest_queries,
            final(self).queries == old(self).queries,
    {
        self.top_queries.clear();
        self.top_query_threshold = 0;
    }

    /// Admits a query to the slowest ranking; when the ranking overflows,
    /// the fastest entry falls out and the threshold rises to the fastest
    /// surviving elapsed time.
    pub fn add_slowest_query(&mut self, query: SlowestQuery)
        requires
            spec_slow_sorted(old(self).slowest_queries@),
            old(self).slowest_queries@.len() <= QUERY_RANKING_CAP,
        ensures
            spec_slow_sorted(final(self).slowest_queries@),
            final(self).slowest_queries@.len() == if old(self).slowest_queries@.len()
                < QUERY_RANKING_CAP {
                old(self).slowest_queries@.len() as int + 1
            } else {
                QUERY_RANKING_CAP as int
            },
            old(self).slowest_queries@.len() == QUERY_RANKING_CAP ==> final(self).slowest_query_threshold == final(self).slowest_queries@[0].elapsed_ms,
            old(self).slowest_queries@.len() < QUERY_RANKING_CAP ==> final(self).slowest_query_threshold == old(self).slowest_query_threshold,
            spec_ranked(
                spec_slow_views(old(self).slowest_queries@),
                old(self).slowest_query_threshold,
                spec_slow_views(final(self).slowest_queries@),
                final(self).slowest_query_threshold,
                spec_slow_view(query),
            ),
            *final(self) == (Stats {
                slowest_queries: final(self).slowest_queries,
                slowest_query_threshold: final(self).slowest_query_threshold,
                ..*old(self)
            }),
    {
        let mut pos: usize = 0;
        while pos < self.slowest_queries.len()
            && self.slowest_queries[pos].elapsed_ms <= query.elapsed_ms
            invariant
                pos <= self.slowest_queries@.len(),
                self == old(self),
                spec_slow_sorted(old(self).slowest_queries@),
                forall|j: int|
                    0 <= j < pos ==> (#[trigger] self.slowest_queries@[j]).elapsed_ms
                        <= query.elapsed_ms,
            decreases self.slowest_queries@.len() - pos,
        {
            pos = pos + 1;
        }
        self.slowest_queries.insert(pos, query);
        proof {
            let s2 = self.slowest_queries@;
            let s1 = old(self).slowest_queries@;
            assert forall|i: int, j: int|
                0 <= i < j < s2.len() implies (#[trigger] s2[i]).elapsed_ms <= (
            #[trigger] s2[j]).elapsed_ms by {
                lemma_slow_insert_index(s1, s2, pos as int, i);
                lemma_slow_insert_index(s1, s2, pos as int, j);
            }
        }
        proof {
            assert(spec_slow_views(self.slowest_queries@) =~= spec_slow_views(
                old(self).slowest_queries@,
            ).insert(pos as int, spec_slow_view(query)));
        }
        if self.slowest_queries.len() > QUERY_RANKING_CAP {
            let ghost s2 = self.slowest_queries@;
            self.slowest_queries.remove(0);
            let first_elapsed = self.slowest_queries[0].elapsed_ms;
            self.slowest_query_threshold = first_elapsed;
            proof {
                assert forall|i: int, j: int|
                    0 <= i < j < self.slowest_queries@.len() implies (
                #[trigger] self.slowest_queries@[i]).elapsed_ms <= (
                #[trigger] self.slowest_queries@[j]).elapsed_ms by {
                    assert(self.slowest_queries@[i] == s2[i + 1]);
                    assert(self.slowest_queries@[j] == s2[j + 1]);
                }
                assert(spec_slow_views(self.slowest_queries@) =~= spec_slow_views(s2).remove(0));
                assert(spec_slow_views(self.slowest_queries@)[0].0
                    == self.slowest_query_threshold);
            }
        }
    }

    /// The kept slowest queries, fastest first.
    pub fn slowest_queries(&self) -> (r: &Vec<SlowestQuery>)
        ensures
            r == self.slowest_queries,
    {
        &self.slowest_queries
    }

    /// Empties the slowest ranking and lets every query qualify again.
    pub fn reset_slowest_queries(&mut self)
        ensures
            final(self).slowest_queries@.len() == 0,
            final(self).slowest_query_threshold == 0,
            final(self).top_queries == old(self).top_queries,
            final(self).queries == old(self).queries,
    {
        self.slowest_queries.clear();
        self.slowest_query_threshold = 0;
    }
}

/// Compares two top queries by weight, rows written, rows read.
pub fn top_le_exec(a: &TopQuery, b: &TopQuery) -> (r: bool)
    ensures
        r == spec_top_le(*a, *b),
{
    if a.weight != b.weight {
        a.weight < b.weight
    } else if a.rows_written != b.rows_written {
        a.rows_written < b.rows_written
    } else {
        a.rows_read <= b.rows_read
    }
}

/// An element of a sorted-insert result comes from the original sequence
/// or is the inserted one.
proof fn lemma_slow_insert_index(s1: Seq<SlowestQuery>, s2: Seq<SlowestQuery>, pos: int, i: int)
    requires
        0 <= pos <= s1.len(),
        s2 == s1.insert(pos, s2[pos]),
        0 <= i < s2.len(),
    ensures
        i < pos ==> s2[i] == s1[i],
        i > pos ==> s2[i] == s1[i - 1],
{
}

/// Inserting at the found position keeps the top ranking sorted.
proof fn lemma_top_insert_sorted(s1: Seq<TopQuery>, s2: Seq<TopQuery>, pos: int)
    requires
        0 <= pos <= s1.len(),
        s2 == s1.insert(pos, s2[pos]),
        spec_top_sorted(s1),
        forall|j: int| 0 <= j < pos ==> spec_top_le(#[trigger] s1[j], s2[pos]),
        forall|j: int| pos <= j < s1.len() ==> spec_top_le(s2[pos], #[trigger] s1[j]),
    ensures
        spec_top_sorted(s2),
{
    assert forall|i: int, j: int| 0 <= i < j < s2.len() implies spec_top_le(
        #[trigger] s2[i],
        #[trigger] s2[j],
    ) by {
        if i < pos {
            assert(s2[i] == s1[i]);
        } else if i > pos {
            assert(s2[i] == s1[i - 1]);
        }
        if j < pos {
            assert(s2[j] == s1[j]);
        } else if j > pos {
            assert(s2[j] == s1[j - 1]);
        }
    }
}

/// `a + b`, saturating at `u64::MAX`.
pub fn saturating_add(a: u64, b: u64) -> (r: u64)
    ensures
        r == if a + b <= u64::MAX {
            a + b
        } else {
            u64::MAX as int
        },
{
    if a <= u64::MAX - b {
        a + b
    } else {
        u64::MAX
    }
}

} // verus!
