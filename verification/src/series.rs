use vstd::prelude::*;
use crate::config::{Config, Mode};

verus! {

/// One charted point: a statistic at a population size. A point is built
/// whole and never mutated after it enters a series.
#[derive(Clone, Copy, PartialEq, Eq, Structural, Debug)]
pub struct SeriesPoint {
    pub stat_milli: u64,
    pub num_boids: u32,
}

/// An append-only line of points for one (mode, block size) pair. Points
/// are never removed or changed, and their population coordinates never
/// decrease, because the sweep publishes populations in ascending order.
#[derive(Clone)]
pub struct Series {
    points: Vec<SeriesPoint>,
}

impl View for Series {
    type V = Seq<SeriesPoint>;

    closed spec fn view(&self) -> Seq<SeriesPoint> {
        self.points@
    }
}

impl Series {
    /// Population coordinates never decrease along the series.
    pub open spec fn wf(self) -> bool {
        forall|i: int, j: int|
            0 <= i <= j < self@.len() ==> (#[trigger] self@[i]).num_boids
                <= (#[trigger] self@[j]).num_boids
    }

    pub fn new() -> (s: Series)
        ensures
            s@ == Seq::<SeriesPoint>::empty(),
            s.wf(),
    {
        Series { points: Vec::new() }
    }

    pub fn len(&self) -> (n: usize)
        ensures
            n == self@.len(),
    {
        self.points.len()
    }

    pub fn get(&self, i: usize) -> (p: SeriesPoint)
        requires
            i < self@.len(),
        ensures
            p == self@[i as int],
    {
        self.points[i]
    }

    /// Population size of the newest point, if any.
    pub fn last_boids(&self) -> (r: Option<u32>)
        ensures
            self@.len() == 0 ==> r is None,
            self@.len() > 0 ==> r == Some(self@.last().num_boids),
    {
        if self.points.len() == 0 {
            None
        } else {
            Some(self.points[self.points.len() - 1].num_boids)
        }
    }

    /// Appends one fully formed point; the series stays ordered.
    pub fn push_point(&mut self, stat_milli: u64, num_boids: u32)
        requires
            old(self).wf(),
            old(self)@.len() > 0 ==> num_boids >= old(self)@.last().num_boids,
        ensures
            final(self)@ == old(self)@.push(SeriesPoint { stat_milli, num_boids }),
            final(self).wf(),
    {
        self.points.push(SeriesPoint { stat_milli, num_boids });
        proof {
            let s = self.points@;
            let n = s.len() - 1;
            assert forall|i: int, j: int| 0 <= i <= j < s.len() implies (#[trigger] s[i]).num_boids
                <= (#[trigger] s[j]).num_boids by {
                if j < n {
                } else if i < n {
                    assert(s[i] == old(self)@[i] && old(self)@[i].num_boids <= old(
                        self,
                    )@.last().num_boids);
                }
            }
        }
    }
}

/// One keyed series of the surface.
#[derive(Clone)]
pub struct SurfaceEntry {
    pub mode: Mode,
    pub block_size: u32,
    pub series: Series,
}

/// Index of the first series keyed by (mode, block size), or -1.
pub open spec fn entry_index(s: Seq<SurfaceEntry>, mode: Mode, block_size: u32) -> int
    decreases s.len(),
{
    if s.len() == 0 {
        -1
    } else if s[0].mode == mode && s[0].block_size == block_size {
        0
    } else {
        let r = entry_index(s.drop_first(), mode, block_size);
        if r < 0 {
            -1
        } else {
            r + 1
        }
    }
}

/// Whether some entry carries the key.
pub open spec fn contains_key(s: Seq<SurfaceEntry>, mode: Mode, block_size: u32) -> bool {
    exists|j: int|
        0 <= j < s.len() && (#[trigger] s[j]).mode == mode && s[j].block_size == block_size
}

pub proof fn lemma_entry_index_props(s: Seq<SurfaceEntry>, mode: Mode, block_size: u32)
    ensures
        entry_index(s, mode, block_size) == -1 || (0 <= entry_index(s, mode, block_size)
            < s.len()),
        entry_index(s, mode, block_size) >= 0 ==> s[entry_index(s, mode, block_size)].mode == mode
            && s[entry_index(s, mode, block_size)].block_size == block_size,
        entry_index(s, mode, block_size) == -1 ==> !contains_key(s, mode, block_size),
    decreases s.len(),
{
    if s.len() == 0 {
    } else if s[0].mode == mode && s[0].block_size == block_size {
    } else {
        lemma_entry_index_props(s.drop_first(), mode, block_size);
        let r = entry_index(s.drop_first(), mode, block_size);
        if r >= 0 {
            assert(s[r + 1] == s.drop_first()[r]);
        } else {
            if contains_key(s, mode, block_size) {
                let j = choose|j: int|
                    0 <= j < s.len() && (#[trigger] s[j]).mode == mode && s[j].block_size
                        == block_size;
                assert(j != 0);
                assert(s.drop_first()[j - 1] == s[j]);
                assert(contains_key(s.drop_first(), mode, block_size));
            }
        }
    }
}

/// A sequence whose first key match is at `i` has `entry_index` `i`.
pub proof fn lemma_entry_index_at(s: Seq<SurfaceEntry>, mode: Mode, block_size: u32, i: int)
    requires
        0 <= i < s.len(),
        s[i].mode == mode && s[i].block_size == block_size,
        forall|j: int|
            0 <= j < i ==> !((#[trigger] s[j]).mode == mode && s[j].block_size == block_size),
    ensures
        entry_index(s, mode, block_size) == i,
    decreases i,
{
    if i == 0 {
    } else {
        assert(!(s[0].mode == mode && s[0].block_size == block_size));
        assert forall|j: int|
            0 <= j < i - 1 implies !((#[trigger] s.drop_first()[j]).mode == mode
            && s.drop_first()[j].block_size == block_size) by {
            assert(s.drop_first()[j] == s[j + 1]);
        }
        assert(s.drop_first()[i - 1] == s[i]);
        lemma_entry_index_at(s.drop_first(), mode, block_size, i - 1);
    }
}

/// Two entry lists with the same keys at every position index identically.
pub proof fn lemma_entry_index_same_keys(
    a: Seq<SurfaceEntry>,
    b: Seq<SurfaceEntry>,
    mode: Mode,
    block_size: u32,
)
    requires
        a.len() == b.len(),
        forall|i: int|
            0 <= i < a.len() ==> (#[trigger] a[i]).mode == b[i].mode && a[i].block_size
                == b[i].block_size,
    ensures
        entry_index(a, mode, block_size) == entry_index(b, mode, block_size),
    decreases a.len(),
{
    if a.len() == 0 {
    } else {
        assert(a[0].mode == b[0].mode && a[0].block_size == b[0].block_size);
        assert forall|i: int|
            0 <= i < a.drop_first().len() implies (#[trigger] a.drop_first()[i]).mode
            == b.drop_first()[i].mode && a.drop_first()[i].block_size
            == b.drop_first()[i].block_size by {
            assert(a.drop_first()[i] == a[i + 1] && b.drop_first()[i] == b[i + 1]);
        }
        lemma_entry_index_same_keys(a.drop_first(), b.drop_first(), mode, block_size);
    }
}

/// The shared result surface: one growing series per (mode, block size),
/// keyed by value. The sweep writer appends one whole point at a time; the
/// chart reader takes snapshot copies, so it never sees a half-written
/// point.
pub struct Surface {
    entries: Vec<SurfaceEntry>,
}

impl Surface {
    /// The keyed entries, in creation order.
    pub closed spec fn entries_seq(self) -> Seq<SurfaceEntry> {
        self.entries@
    }

    /// Whether a series exists for the key.
    pub open spec fn has_series(self, mode: Mode, block_size: u32) -> bool {
        entry_index(self.entries_seq(), mode, block_size) >= 0
    }

    /// The points of the series for the key.
    pub open spec fn series_at(self, mode: Mode, block_size: u32) -> Seq<SeriesPoint>
        recommends
            self.has_series(mode, block_size),
    {
        self.entries_seq()[entry_index(self.entries_seq(), mode, block_size)].series@
    }

    /// Every series of the surface is ordered.
    pub open spec fn wf(self) -> bool {
        forall|i: int|
            0 <= i < self.entries_seq().len() ==> (#[trigger] self.entries_seq()[i]).series.wf()
    }

    /// A surface with one empty series per mode for each block size.
    pub fn new(block_sizes: &Vec<u32>) -> (s: Surface)
        ensures
            s.wf(),
            forall|m: Mode, b: u32| block_sizes@.contains(b) ==> #[trigger] s.has_series(m, b),
            forall|m: Mode, b: u32|
                block_sizes@.contains(b) ==> #[trigger] s.series_at(m, b) == Seq::<
                    SeriesPoint,
                >::empty(),
            forall|m: Mode, b: u32| #[trigger] s.has_series(m, b) ==> block_sizes@.contains(b),
    {
        let mut entries: Vec<SurfaceEntry> = Vec::new();
        let mut i: usize = 0;
        while i < block_sizes.len()
            invariant
                i <= block_sizes@.len(),
                forall|j: int|
                    0 <= j < entries@.len() ==> (#[trigger] entries@[j]).series@.len() == 0
                        && entries@[j].series.wf(),
                forall|m: Mode, b: u32|
                    block_sizes@.take(i as int).contains(b) ==> contains_key(entries@, m, b),
                forall|j: int|
                    0 <= j < entries@.len() ==> block_sizes@.take(i as int).contains(
                        (#[trigger] entries@[j]).block_size,
                    ),
            decreases block_sizes@.len() - i,
        {
            let b = block_sizes[i];
            let ghost before = entries@;
            entries.push(SurfaceEntry { mode: Mode::Naive, block_size: b, series: Series::new() });
            entries.push(
                SurfaceEntry { mode: Mode::Uniform, block_size: b, series: Series::new() },
            );
            entries.push(
                SurfaceEntry { mode: Mode::Coherent, block_size: b, series: Series::new() },
            );
            proof {
                let after = entries@;
                assert forall|m: Mode, b2: u32|
                    block_sizes@.take(i + 1).contains(b2) implies contains_key(
                    after,
                    m,
                    b2,
                ) by {
                    if block_sizes@.take(i as int).contains(b2) {
                        assert(contains_key(before, m, b2));
                        let j = choose|j: int|
                            0 <= j < before.len() && (#[trigger] before[j]).mode == m
                                && before[j].block_size == b2;
                        assert(after[j] == before[j]);
                    } else {
                        let w = choose|w: int|
                            0 <= w < block_sizes@.take(i + 1).len() && #[trigger] block_sizes@.take(
                                i + 1,
                            )[w] == b2;
                        assert(w == i);
                        assert(b2 == b);
                        let off: int = match m {
                            Mode::Naive => 0,
                            Mode::Uniform => 1,
                            Mode::Coherent => 2,
                        };
                        assert(after[before.len() + off].mode == m && after[before.len()
                            + off].block_size == b2);
                    }
                }
                assert forall|j: int|
                    0 <= j < after.len() implies block_sizes@.take(i + 1).contains(
                    (#[trigger] after[j]).block_size,
                ) by {
                    if j < before.len() {
                        assert(after[j] == before[j]);
                        let w = choose|w: int|
                            0 <= w < block_sizes@.take(i as int).len()
                                && #[trigger] block_sizes@.take(i as int)[w]
                                == before[j].block_size;
                        assert(block_sizes@.take(i + 1)[w] == before[j].block_size);
                    } else {
                        assert(block_sizes@.take(i + 1)[i as int] == b);
                    }
                }
            }
            i = i + 1;
        }
        let ghost es = entries@;
        let s = Surface { entries };
        proof {
            assert(block_sizes@.take(block_sizes@.len() as int) =~= block_sizes@);
            assert(s.entries_seq() == es);
            assert forall|m: Mode, b: u32|
                block_sizes@.contains(b) implies #[trigger] s.has_series(m, b) by {
                assert(block_sizes@.take(block_sizes@.len() as int).contains(b));
                assert(contains_key(es, m, b));
                lemma_entry_index_props(es, m, b);
            }
            assert forall|m: Mode, b: u32|
                block_sizes@.contains(b) implies #[trigger] s.series_at(m, b) == Seq::<
                SeriesPoint,
            >::empty() by {
                assert(block_sizes@.take(block_sizes@.len() as int).contains(b));
                assert(contains_key(es, m, b));
                lemma_entry_index_props(es, m, b);
                assert(es[entry_index(es, m, b)].series@ =~= Seq::<SeriesPoint>::empty());
            }
            assert forall|m: Mode, b: u32| #[trigger]
                s.has_series(m, b) implies block_sizes@.contains(b) by {
                lemma_entry_index_props(es, m, b);
                assert(es[entry_index(es, m, b)].block_size == b);
            }
        }
        s
    }

    /// First entry position for a key, if any.
    fn find_entry(&self, mode: Mode, block_size: u32) -> (r: Option<usize>)
        ensures
            r matches Some(i) ==> entry_index(self.entries_seq(), mode, block_size) == i as int
                && i < self.entries_seq().len(),
            r is None ==> entry_index(self.entries_seq(), mode, block_size) == -1,
    {
        let mut i: usize = 0;
        while i < self.entries.len()
            invariant
                i <= self.entries_seq().len(),
                forall|j: int|
                    0 <= j < i ==> !((#[trigger] self.entries_seq()[j]).mode == mode
                        && self.entries_seq()[j].block_size == block_size),
            decreases self.entries_seq().len() - i,
        {
            let hit = self.entries[i].mode == mode && self.entries[i].block_size == block_size;
            if hit {
                proof {
                    lemma_entry_index_at(self.entries_seq(), mode, block_size, i as int);
                }
                return Some(i);
            }
            i = i + 1;
        }
        proof {
            lemma_entry_index_props(self.entries_seq(), mode, block_size);
        }
        None
    }

    /// Population size of the newest point under a key, if the key exists
    /// and its series is non-empty. The writer checks this before
    /// publishing, so the ordering contract of `publish` holds at run time.
    pub fn last_boids(&self, mode: Mode, block_size: u32) -> (r: Option<u32>)
        ensures
            self.has_series(mode, block_size) && self.series_at(mode, block_size).len() > 0
                ==> r == Some(self.series_at(mode, block_size).last().num_boids),
            !(self.has_series(mode, block_size) && self.series_at(mode, block_size).len() > 0)
                ==> r is None,
    {
        match self.find_entry(mode, block_size) {
            Some(i) => self.entries[i].series.last_boids(),
            None => None,
        }
    }

    /// Whether a series exists for the key.
    pub fn contains(&self, mode: Mode, block_size: u32) -> (r: bool)
        ensures
            r == self.has_series(mode, block_size),
    {
        match self.find_entry(mode, block_size) {
            Some(_) => true,
            None => false,
        }
    }

    /// Publishes one fully formed point into the series for the
    /// configuration's key. Only that series changes; every key keeps its
    /// series, and no published point is ever touched again.
    pub fn publish(&mut self, c: &Config, stat_milli: u64)
        requires
            old(self).wf(),
            old(self).has_series(c.mode, c.block_size),
            old(self).series_at(c.mode, c.block_size).len() > 0 ==> c.num_boids >= old(
                self,
            ).series_at(c.mode, c.block_size).last().num_boids,
        ensures
            final(self).wf(),
            final(self).series_at(c.mode, c.block_size) == old(self).series_at(
                c.mode,
                c.block_size,
            ).push(SeriesPoint { stat_milli, num_boids: c.num_boids }),
            forall|m: Mode, b: u32|
                #[trigger] final(self).has_series(m, b) == old(self).has_series(m, b),
            forall|m: Mode, b: u32|
                !(m == c.mode && b == c.block_size) && old(self).has_series(m, b)
                    ==> #[trigger] final(self).series_at(m, b) == old(self).series_at(m, b),
    {
        let ghost before = self.entries@;
        let idx = match self.find_entry(c.mode, c.block_size) {
            Some(i) => i,
            None => {
                proof {
                    assert(false);
                }
                return ;
            },
        };
        proof {
            lemma_entry_index_props(before, c.mode, c.block_size);
        }
        let mut entry = self.entries.remove(idx);
        proof {
            assert(before[idx as int].series.wf());
        }
        entry.series.push_point(stat_milli, c.num_boids);
        self.entries.insert(idx, entry);
        proof {
            let after = self.entries@;
            assert(after =~= before.update(idx as int, after[idx as int]));
            assert(after[idx as int].mode == c.mode && after[idx as int].block_size
                == c.block_size);
            assert forall|i: int|
                0 <= i < after.len() implies (#[trigger] after[i]).mode == before[i].mode
                && after[i].block_size == before[i].block_size by {}
            assert forall|m: Mode, b: u32| #[trigger]
                entry_index(after, m, b) == entry_index(before, m, b) by {
                lemma_entry_index_same_keys(after, before, m, b);
            }
            assert forall|i: int|
                0 <= i < after.len() implies (#[trigger] after[i]).series.wf() by {}
            assert forall|m: Mode, b: u32|
                !(m == c.mode && b == c.block_size) && entry_index(before, m, b)
                    >= 0 implies (#[trigger] entry_index(after, m, b)) >= 0 && after[entry_index(
                after,
                m,
                b,
            )].series@ == before[entry_index(before, m, b)].series@ by {
                lemma_entry_index_props(before, m, b);
                assert(entry_index(before, m, b) != idx as int);
            }
        }
    }

    /// A consistent snapshot of the series under a key: a copy of its
    /// points, each one fully formed.
    pub fn snapshot(&self, mode: Mode, block_size: u32) -> (r: Vec<SeriesPoint>)
        ensures
            self.has_series(mode, block_size) ==> r@ == self.series_at(mode, block_size),
            !self.has_series(mode, block_size) ==> r@ == Seq::<SeriesPoint>::empty(),
    {
        let mut r: Vec<SeriesPoint> = Vec::new();
        let idx = match self.find_entry(mode, block_size) {
            Some(i) => i,
            None => {
                return r;
            },
        };
        let series = &self.entries[idx].series;
        let n = series.len();
        let mut i: usize = 0;
        while i < n
            invariant
                i <= n,
                n == series@.len(),
                r@ == series@.take(i as int),
            decreases n - i,
        {
            r.push(series.get(i));
            proof {
                assert(series@.take(i + 1) =~= series@.take(i as int).push(series@[i as int]));
            }
            i = i + 1;
        }
        proof {
            assert(series@.take(n as int) =~= series@);
        }
        r
    }
}

} // verus!
