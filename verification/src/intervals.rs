//! A set of free points kept as a sorted list of disjoint inclusive intervals.
//!
//! The server uses it to track which party ids of a computation are still free.
use vstd::prelude::*;

verus! {

/// An inclusive interval `[start, end]`.
#[derive(PartialEq, Eq)]
pub struct interval {
    pub start: u64,
    pub end: u64,
}

/// A collection of intervals that represents the union of all of them.
#[derive(PartialEq, Eq)]
pub struct intervals {
    pub val: Vec<interval>,
}

/// The intervals as pairs `(start, end)`, in order.
pub open spec fn spans_of(v: Seq<interval>) -> Seq<(u64, u64)> {
    v.map_values(|iv: interval| (iv.start, iv.end))
}

/// Some interval of `s` holds `p`.
pub open spec fn spans_cover(s: Seq<(u64, u64)>, p: u64) -> bool {
    exists|i: int| 0 <= i < s.len() && #[trigger] s[i].0 <= p && p <= s[i].1
}

/// The largest number of intervals a list can hold: each index fits an `i64`. (A list
/// of 16-byte intervals that long would not fit in memory.)
pub open spec fn max_spans() -> int {
    0x8000_0000_0000_0000
}

/// Well-formedness of a list of spans: sorted and disjoint (neighbours may touch),
/// (when there is more than one) none empty, and no more than `max_spans()`.
pub open spec fn spans_wf(s: Seq<(u64, u64)>) -> bool {
    &&& forall|i: int, j: int| 0 <= i < j < s.len() ==> #[trigger] s[i].1 < #[trigger] s[j].0
    &&& s.len() > 1 ==> forall|i: int| 0 <= i < s.len() ==> #[trigger] s[i].0 <= s[i].1
    &&& s.len() <= max_spans()
}

/// The lists that the constructor and `reserve` make: sorted, with at least one
/// missing point between two neighbours, and (when there is more than one) none empty.
pub open spec fn spans_gapped(s: Seq<(u64, u64)>) -> bool {
    &&& forall|i: int, j: int| 0 <= i < j < s.len() ==> #[trigger] s[i].1 + 1 < #[trigger] s[j].0
    &&& s.len() > 1 ==> forall|i: int| 0 <= i < s.len() ==> #[trigger] s[i].0 <= s[i].1
}

/// Every span holds at least one point.
pub open spec fn spans_nonempty(s: Seq<(u64, u64)>) -> bool {
    forall|i: int| 0 <= i < s.len() ==> #[trigger] s[i].0 <= s[i].1
}

/// A point strictly inside one of the spans: removing it splits that span in two.
pub open spec fn splits(s: Seq<(u64, u64)>, p: u64) -> bool {
    exists|i: int| 0 <= i < s.len() && #[trigger] s[i].0 < p && p < s[i].1
}

/// The list left by removing `point` from the span at `k`: the span is dropped when it
/// holds only the point, shrunk when the point is one of its ends, and split in two
/// around the point otherwise.
pub open spec fn spans_without(s: Seq<(u64, u64)>, k: int, point: u64) -> Seq<(u64, u64)> {
    let (a, b) = s[k];
    if a == b {
        s.remove(k)
    } else if a == point {
        s.update(k, ((a + 1) as u64, b))
    } else if b == point {
        s.update(k, (a, (b - 1) as u64))
    } else {
        s.subrange(0, k).push((a, (point - 1) as u64)).push(((point + 1) as u64, b)) + s.subrange(
            k + 1,
            s.len() as int,
        )
    }
}

impl intervals {
    /// The list of intervals, as `(start, end)` pairs.
    pub closed spec fn spans(&self) -> Seq<(u64, u64)> {
        spans_of(self.val@)
    }

    /// The structure invariant that the search and `reserve` rely on.
    pub open spec fn wf(&self) -> bool {
        spans_wf(self.spans())
    }

    /// The stronger invariant that the constructor establishes and `reserve` keeps.
    pub open spec fn gapped(&self) -> bool {
        spans_gapped(self.spans())
    }

    /// Whether `p` lies in one of the intervals.
    pub open spec fn covers(&self, p: u64) -> bool {
        spans_cover(self.spans(), p)
    }

    /// The set of points covered by the intervals.
    pub open spec fn points(&self) -> Set<u64> {
        Set::new(|p: u64| self.covers(p))
    }

    /// The spans are the intervals of `val`, in order.
    pub proof fn lemma_spans_len(&self)
        ensures
            self.spans().len() == self.val@.len(),
            forall|i: int|
                0 <= i < self.val@.len() ==> #[trigger] self.spans()[i] == (
                self.val@[i].start,
                self.val@[i].end,
            ),
    {
        reveal(spans_of);
    }

    /// In a gapped list, the `i`-th interval starts at `2 * i` or later, and at
    /// `2 * i + 2` or later when an earlier or the same interval holds a point strictly
    /// inside it.
    proof fn lemma_start_bound(&self, i: int, k: int)
        requires
            self.gapped(),
            0 <= i < self.spans().len(),
        ensures
            self.spans()[i].0 >= 2 * i,
            0 <= k < i && self.spans()[k].0 + 2 <= self.spans()[k].1 ==> self.spans()[i].0 >= 2 * i + 2,
        decreases i,
    {
        if i > 0 {
            self.lemma_start_bound(i - 1, k);
            let s = self.spans();
            assert(s[i - 1].1 + 1 < s[i].0);
            if s.len() > 1 {
                assert(s[i - 1].0 <= s[i - 1].1);
            }
            if 0 <= k < i && s[k].0 + 2 <= s[k].1 {
                if k == i - 1 {
                    assert(s[i].0 >= 2 * i + 2);
                }
            }
        }
    }

    /// A gapped list is well formed; when a point splits one of its spans, it holds
    /// fewer than `max_spans()` spans.
    pub proof fn lemma_gapped(&self, p: u64)
        requires
            self.gapped(),
        ensures
            self.wf(),
            splits(self.spans(), p) ==> self.spans().len() < max_spans(),
    {
        let s = self.spans();
        assert forall|i: int, j: int| 0 <= i < j < s.len() implies #[trigger] s[i].1 < #[trigger] s[j].0 by {
            assert(s[i].1 + 1 < s[j].0);
        }
        if s.len() > 0 {
            self.lemma_start_bound(s.len() - 1, 0);
        }
        if splits(s, p) {
            let k = choose|k: int| 0 <= k < s.len() && #[trigger] s[k].0 < p && p < s[k].1;
            if k < s.len() - 1 {
                self.lemma_start_bound(s.len() - 1, k);
            }
        }
    }

    /// In a well-formed list, the start of the first interval is the least free point.
    pub proof fn lemma_first_is_least(&self)
        requires
            self.wf(),
        ensures
            forall|p: u64|
                #[trigger] self.points().contains(p) ==> self.spans().len() > 0 && self.points().contains(
                    self.spans()[0].0,
                ) && self.spans()[0].0 <= p,
    {
        let s = self.spans();
        assert forall|p: u64| #[trigger] self.points().contains(p) implies s.len() > 0
            && self.points().contains(s[0].0) && s[0].0 <= p by {
            let i = choose|i: int| 0 <= i < s.len() && #[trigger] s[i].0 <= p && p <= s[i].1;
            if i > 0 {
                assert(s[0].1 < s[i].0);
                assert(s[0].0 <= s[0].1);
            }
            assert(s[0].0 <= s[0].0 && s[0].0 <= s[0].1);
        }
    }

    /// Returns the first free point, if any.
    pub fn create_free(&self) -> (r: Option<u64>)
        ensures
            r == (if self.spans().len() == 0 {
                None::<u64>
            } else {
                Some(self.spans()[0].0)
            }),
            self.wf() ==> forall|p: u64| #[trigger] self.points().contains(p) ==> r is Some
                && self.points().contains(r->0) && r->0 <= p,
    {
        self.get_first_point()
    }

    /// Returns the start of the first interval, if any.
    pub fn get_first_point(&self) -> (r: Option<u64>)
        ensures
            r == (if self.spans().len() == 0 {
                None::<u64>
            } else {
                Some(self.spans()[0].0)
            }),
            self.wf() ==> forall|p: u64| #[trigger] self.points().contains(p) ==> r is Some
                && self.points().contains(r->0) && r->0 <= p,
    {
        proof {
            self.lemma_spans_len();
        }
        if self.val.len() == 0 {
            return None;
        }
        let r = self.val[0].start;
        proof {
            if self.wf() {
                let s = self.spans();
                if s.len() > 1 {
                    assert(s[0].0 <= s[0].1);
                } else {
                    assert(s.len() == 1);
                }
                assert forall|p: u64| #[trigger] self.points().contains(p) implies self.points().contains(
                    r,
                ) && r <= p by {
                    let i = choose|i: int| 0 <= i < s.len() && #[trigger] s[i].0 <= p && p <= s[i].1;
                    if i > 0 {
                        assert(s[0].1 < s[i].0);
                    }
                    assert(s[0].0 <= r && r <= s[0].1);
                }
            }
        }
        Some(r)
    }

    /// Searches for the point. Returns the index of the interval that holds it,
    /// or -1 when no interval does.
    pub fn find_point(&self, point: u64) -> (r: i64)
        requires
            self.wf(),
        ensures
            r == -1 <==> !self.covers(point),
            r != -1 ==> 0 <= r < self.spans().len() && self.spans()[r as int].0 <= point
                <= self.spans()[r as int].1,
    {
        proof {
            self.lemma_spans_len();
        }
        let ghost s = self.spans();
        if self.val.len() == 0 {
            return -1;
        }
        if self.interval_contains(0, point) {
            return 0;
        }
        let mut st: usize = 0;
        let mut nd: usize = self.val.len();
        while st < nd
            invariant
                s == self.spans(),
                spans_wf(s),
                s.len() == self.val@.len(),
                0 <= st <= nd <= s.len(),
                forall|j: int| 0 <= j < st ==> !(#[trigger] s[j].0 <= point && point <= s[j].1),
                forall|j: int|
                    nd <= j < s.len() ==> !(#[trigger] s[j].0 <= point && point <= s[j].1),
            decreases nd - st,
        {
            let mid = st + (nd - st) / 2;
            if self.interval_contains(mid, point) {
                return mid as i64;
            } else if self.go_left(mid, point) {
                assert forall|j: int| mid <= j < s.len() implies !(#[trigger] s[j].0 <= point
                    && point <= s[j].1) by {
                    if j > mid {
                        assert(s[mid as int].0 <= s[mid as int].1);
                        assert(s[mid as int].1 < s[j].0);
                    }
                }
                nd = mid;
            } else {
                assert forall|j: int| 0 <= j <= mid implies !(#[trigger] s[j].0 <= point && point
                    <= s[j].1) by {
                    if j < mid {
                        assert(s[j].1 < s[mid as int].0);
                    }
                }
                st = mid + 1;
            }
        }
        -1
    }

    /// Whether the interval at `index` holds `point`.
    pub fn interval_contains(&self, index: usize, point: u64) -> (r: bool)
        requires
            index < self.spans().len(),
        ensures
            r == (self.spans()[index as int].0 <= point && point <= self.spans()[index as int].1),
    {
        proof {
            self.lemma_spans_len();
        }
        self.val[index].start <= point && point <= self.val[index].end
    }

    /// Whether `point` lies to the left of the interval at `index`.
    pub fn go_left(&self, index: usize, point: u64) -> (r: bool)
        requires
            index < self.spans().len(),
        ensures
            r == (point < self.spans()[index as int].0),
    {
        proof {
            self.lemma_spans_len();
        }
        point < self.val[index].start
    }

    /// Whether `point` is free, that is, covered by the intervals.
    pub fn is_free(&self, point: u64) -> (r: bool)
        requires
            self.wf(),
        ensures
            r == self.points().contains(point),
    {
        self.find_point(point) > -1
    }

    /// Reserves `point`: removes it from the free points. Returns whether it was free.
    pub fn reserve(&mut self, point: u64) -> (r: bool)
        requires
            old(self).wf(),
            splits(old(self).spans(), point) ==> old(self).spans().len() < max_spans(),
        ensures
            final(self).wf(),
            old(self).gapped() ==> final(self).gapped(),
            !r ==> final(self).spans() == old(self).spans(),
            r ==> exists|k: int|
                0 <= k < old(self).spans().len() && old(self).spans()[k].0 <= point <= old(self).spans()[k].1
                    && final(self).spans() == spans_without(old(self).spans(), k, point),
            spans_nonempty(old(self).spans()) ==> spans_nonempty(final(self).spans()),
            r == old(self).points().contains(point),
            final(self).points() == old(self).points().remove(point),
    {
        self.remove_point(point)
    }

    /// Removes a point from the collection of intervals, splitting the interval that
    /// holds it. Returns true if the point was removed, false if it was not held.
    pub fn remove_point(&mut self, point: u64) -> (r: bool)
        requires
            old(self).wf(),
            splits(old(self).spans(), point) ==> old(self).spans().len() < max_spans(),
        ensures
            final(self).wf(),
            old(self).gapped() ==> final(self).gapped(),
            !r ==> final(self).spans() == old(self).spans(),
            r ==> exists|k: int|
                0 <= k < old(self).spans().len() && old(self).spans()[k].0 <= point <= old(self).spans()[k].1
                    && final(self).spans() == spans_without(old(self).spans(), k, point),
            spans_nonempty(old(self).spans()) ==> spans_nonempty(final(self).spans()),
            r == old(self).covers(point),
            final(self).points() == old(self).points().remove(point),
    {
        proof {
            self.lemma_spans_len();
        }
        if self.val.len() == 0 {
            assert(self.points() =~= self.points().remove(point));
            return false;
        }
        let index = self.find_point(point);
        if index == -1 {
            assert(self.points() =~= self.points().remove(point));
            return false;
        }
        proof {
            let k = index as int;
            let s0 = self.spans();
            if s0[k].0 < point < s0[k].1 {
                assert(splits(s0, point));
            }
        }
        self.remove_from_interval(index as usize, point)
    }

    /// Removes `point` from the interval at `index`, which must hold it.
    pub fn remove_from_interval(&mut self, index: usize, point: u64) -> (r: bool)
        requires
            old(self).wf(),
            index < old(self).spans().len(),
            old(self).spans()[index as int].0 <= point <= old(self).spans()[index as int].1,
            old(self).spans()[index as int].0 < point < old(self).spans()[index as int].1 ==> old(
                self,
            ).spans().len() < max_spans(),
        ensures
            final(self).wf(),
            old(self).gapped() ==> final(self).gapped(),
            r,
            final(self).points() == old(self).points().remove(point),
            final(self).spans() == spans_without(old(self).spans(), index as int, point),
            spans_nonempty(old(self).spans()) ==> spans_nonempty(final(self).spans()),
    {
        proof {
            self.lemma_spans_len();
        }
        let ghost s0 = self.spans();
        let len = self.val.len();
        let current_interval_start = self.val[index].start;
        let current_interval_end = self.val[index].end;
        let ghost k = index as int;
        proof {
            // no other interval holds the point
            assert forall|j: int| 0 <= j < s0.len() && j != k implies !(#[trigger] s0[j].0 <= point
                && point <= s0[j].1) by {
                if j < k {
                    assert(s0[j].1 < s0[k].0);
                } else {
                    assert(s0[k].1 < s0[j].0);
                    if s0.len() > 1 {
                        assert(s0[j].0 <= s0[j].1);
                    }
                }
            }
        }
        if current_interval_start == current_interval_end {
            self.val.remove(index);
            proof {
                self.lemma_spans_len();
                let s1 = self.spans();
                assert(s1 =~= s0.remove(k));
                assert(s1 =~= spans_without(s0, k, point));
                assert forall|q: u64| #[trigger] self.points().contains(q) == old(self).points().remove(
                    point,
                ).contains(q) by {
                    if old(self).points().remove(point).contains(q) {
                        let i = choose|i: int| 0 <= i < s0.len() && #[trigger] s0[i].0 <= q && q <= s0[i].1;
                        assert(i != k);
                        if i < k {
                            assert(s1[i] == s0[i]);
                        } else {
                            assert(s1[i - 1] == s0[i]);
                        }
                    }
                    if self.points().contains(q) {
                        let i = choose|i: int| 0 <= i < s1.len() && #[trigger] s1[i].0 <= q && q <= s1[i].1;
                        if i < k {
                            assert(s0[i] == s1[i]);
                        } else {
                            assert(s0[i + 1] == s1[i]);
                        }
                    }
                }
                assert(self.points() =~= old(self).points().remove(point));
            }
        } else if current_interval_start == point {
            self.val.set(index, interval { start: current_interval_start + 1, end: current_interval_end });
            proof {
                self.lemma_spans_len();
                self.lemma_shrink_keeps(s0, k, point);
                assert(self.spans() =~= spans_without(s0, k, point));
            }
        } else if current_interval_end == point {
            self.val.set(index, interval { start: current_interval_start, end: current_interval_end - 1 });
            proof {
                self.lemma_spans_len();
                self.lemma_shrink_keeps(s0, k, point);
                assert(self.spans() =~= spans_without(s0, k, point));
            }
        } else {
            self.val.set(index, interval { start: current_interval_start, end: point - 1 });
            self.val.insert(index + 1, interval { start: point + 1, end: current_interval_end });
            proof {
                self.lemma_spans_len();
                let s1 = self.spans();
                assert(s1.len() == s0.len() + 1);
                assert forall|i: int| 0 <= i < s1.len() implies #[trigger] s1[i] == (if i < k {
                    s0[i]
                } else if i == k {
                    (s0[k].0, (point - 1) as u64)
                } else if i == k + 1 {
                    ((point + 1) as u64, s0[k].1)
                } else {
                    s0[i - 1]
                }) by {}
                assert forall|q: u64| #[trigger] self.points().contains(q) == old(self).points().remove(
                    point,
                ).contains(q) by {
                    if old(self).points().remove(point).contains(q) {
                        let i = choose|i: int| 0 <= i < s0.len() && #[trigger] s0[i].0 <= q && q <= s0[i].1;
                        if i < k {
                            assert(s1[i] == s0[i]);
                        } else if i == k {
                            if q < point {
                                assert(s1[k].0 <= q && q <= s1[k].1);
                            } else {
                                assert(s1[k + 1].0 <= q && q <= s1[k + 1].1);
                            }
                        } else {
                            assert(s1[i + 1] == s0[i]);
                        }
                    }
                    if self.points().contains(q) {
                        let i = choose|i: int| 0 <= i < s1.len() && #[trigger] s1[i].0 <= q && q <= s1[i].1;
                        if i < k {
                            assert(s0[i] == s1[i]);
                        } else if i == k || i == k + 1 {
                            assert(s0[k].0 <= q && q <= s0[k].1);
                        } else {
                            assert(s0[i - 1] == s1[i]);
                        }
                    }
                }
                assert(self.points() =~= old(self).points().remove(point));
                assert(s1 =~= spans_without(s0, k, point));
            }
        }
        proof {
            self.lemma_spans_len();
            lemma_without_keeps(s0, k, point);
        }
        true
    }

    /// Shrinking the interval at `k` by its end point `point` removes exactly that point.
    proof fn lemma_shrink_keeps(&self, s0: Seq<(u64, u64)>, k: int, point: u64)
        requires
            spans_wf(s0),
            0 <= k < s0.len(),
            s0[k].0 <= point <= s0[k].1,
            s0[k].0 < s0[k].1,
            point == s0[k].0 || point == s0[k].1,
            self.spans().len() == s0.len(),
            forall|i: int| 0 <= i < s0.len() && i != k ==> self.spans()[i] == s0[i],
            self.spans()[k] == (if point == s0[k].0 {
                ((s0[k].0 + 1) as u64, s0[k].1)
            } else {
                (s0[k].0, (s0[k].1 - 1) as u64)
            }),
            forall|j: int| 0 <= j < s0.len() && j != k ==> !(#[trigger] s0[j].0 <= point && point
                <= s0[j].1),
        ensures
            self.points() == Set::new(|p: u64| spans_cover(s0, p)).remove(point),
    {
        let s1 = self.spans();
        let old_points = Set::new(|p: u64| spans_cover(s0, p));
        assert forall|q: u64| #[trigger] self.points().contains(q) == old_points.remove(point).contains(
            q,
        ) by {
            if old_points.remove(point).contains(q) {
                let i = choose|i: int| 0 <= i < s0.len() && #[trigger] s0[i].0 <= q && q <= s0[i].1;
                assert(s1[i].0 <= q && q <= s1[i].1);
            }
            if self.points().contains(q) {
                let i = choose|i: int| 0 <= i < s1.len() && #[trigger] s1[i].0 <= q && q <= s1[i].1;
                assert(s0[i].0 <= q && q <= s0[i].1);
            }
        }
        assert(self.points() =~= old_points.remove(point));
    }
}

/// Removing a point from one span keeps a list well formed, and keeps a gapped list
/// gapped.
proof fn lemma_without_keeps(s0: Seq<(u64, u64)>, k: int, point: u64)
    requires
        spans_wf(s0),
        0 <= k < s0.len(),
        s0[k].0 <= point <= s0[k].1,
        s0[k].0 < point < s0[k].1 ==> s0.len() < max_spans(),
    ensures
        spans_wf(spans_without(s0, k, point)),
        spans_gapped(s0) ==> spans_gapped(spans_without(s0, k, point)),
        spans_nonempty(s0) ==> spans_nonempty(spans_without(s0, k, point)),
{
    let s1 = spans_without(s0, k, point);
    let (a, b) = s0[k];
    if a == b {
        assert forall|i: int| 0 <= i < s1.len() implies #[trigger] s1[i] == s0[if i < k { i } else { i + 1 }] by {}
        assert forall|i: int, j: int| 0 <= i < j < s1.len() implies #[trigger] s1[i].1 < #[trigger] s1[j].0 by {
            let i0 = if i < k { i } else { i + 1 };
            let j0 = if j < k { j } else { j + 1 };
            assert(s1[i] == s0[i0] && s1[j] == s0[j0]);
            assert(s0[i0].1 < s0[j0].0);
        }
        if s1.len() > 1 {
            assert forall|i: int| 0 <= i < s1.len() implies #[trigger] s1[i].0 <= s1[i].1 by {
                let i0 = if i < k { i } else { i + 1 };
                assert(s1[i] == s0[i0]);
                assert(s0[i0].0 <= s0[i0].1);
            }
        }
        if spans_gapped(s0) {
            assert forall|i: int, j: int| 0 <= i < j < s1.len() implies #[trigger] s1[i].1 + 1
                < #[trigger] s1[j].0 by {
                let i0 = if i < k { i } else { i + 1 };
                let j0 = if j < k { j } else { j + 1 };
                assert(s1[i] == s0[i0] && s1[j] == s0[j0]);
                assert(s0[i0].1 + 1 < s0[j0].0);
            }
        }
    } else if a == point || b == point {
        assert(s1.len() == s0.len());
        assert forall|i: int| 0 <= i < s1.len() && i != k implies #[trigger] s1[i] == s0[i] by {}
        assert(s1[k].0 >= s0[k].0 && s1[k].1 <= s0[k].1 && s1[k].0 <= s1[k].1);
        assert forall|i: int, j: int| 0 <= i < j < s1.len() implies #[trigger] s1[i].1 < #[trigger] s1[j].0 by {
            assert(s0[i].1 < s0[j].0);
        }
        if s1.len() > 1 {
            assert forall|i: int| 0 <= i < s1.len() implies #[trigger] s1[i].0 <= s1[i].1 by {
                assert(s0[i].0 <= s0[i].1);
            }
        }
        if spans_gapped(s0) {
            assert forall|i: int, j: int| 0 <= i < j < s1.len() implies #[trigger] s1[i].1 + 1
                < #[trigger] s1[j].0 by {
                assert(s0[i].1 + 1 < s0[j].0);
            }
        }
    } else {
        assert(s1.len() == s0.len() + 1);
        let f = |i: int| if i <= k { i } else { i - 1 };
        assert forall|i: int| 0 <= i < s1.len() implies #[trigger] s1[i] == (if i < k {
            s0[i]
        } else if i == k {
            (a, (point - 1) as u64)
        } else if i == k + 1 {
            ((point + 1) as u64, b)
        } else {
            s0[i - 1]
        }) by {}
        assert forall|i: int, j: int| 0 <= i < j < s1.len() implies #[trigger] s1[i].1 < #[trigger] s1[j].0 by {
            let i0 = f(i);
            let j0 = f(j);
            if i0 < j0 {
                assert(s0[i0].1 < s0[j0].0);
            }
            if j0 > k && i0 < k {
                assert(s0[i0].1 < s0[k].0);
                assert(s0[k].1 < s0[j0].0);
            }
            if i0 == k && j0 > k && j != k + 1 {
                assert(s0[k].1 < s0[j0].0);
            }
            if j0 == k && i0 < k {
                assert(s0[i0].1 < s0[k].0);
            }
        }
        assert forall|i: int| 0 <= i < s1.len() implies #[trigger] s1[i].0 <= s1[i].1 by {
            if s0.len() > 1 {
                let i0 = f(i);
                assert(s0[i0].0 <= s0[i0].1);
            }
        }
        if spans_gapped(s0) {
            assert forall|i: int, j: int| 0 <= i < j < s1.len() implies #[trigger] s1[i].1 + 1
                < #[trigger] s1[j].0 by {
                let i0 = f(i);
                let j0 = f(j);
                if i0 < j0 {
                    assert(s0[i0].1 + 1 < s0[j0].0);
                }
                if j0 > k && i0 < k {
                    assert(s0[i0].1 + 1 < s0[k].0);
                    assert(s0[k].1 + 1 < s0[j0].0);
                }
                if i0 == k && j0 > k && j != k + 1 {
                    assert(s0[k].1 + 1 < s0[j0].0);
                }
                if j0 == k && i0 < k {
                    assert(s0[i0].1 + 1 < s0[k].0);
                }
            }
        }
    }
}

/// Creates a collection of intervals initially covering `[start, end]` inclusive.
pub fn intervals_fn(start: u64, end: u64) -> (r: intervals)
    ensures
        r.wf(),
        r.gapped(),
        start <= end ==> spans_nonempty(r.spans()),
        r.spans() == seq![(start, end)],
        forall|p: u64| #[trigger] r.points().contains(p) <==> start <= p <= end,
{
    let mut val = Vec::new();
    val.push(interval { start: start, end: end });
    let r = intervals { val: val };
    proof {
        r.lemma_spans_len();
        assert(r.spans() =~= seq![(start, end)]);
        assert forall|p: u64| #[trigger] r.points().contains(p) <==> start <= p <= end by {
            if start <= p <= end {
                assert(r.spans()[0].0 <= p && p <= r.spans()[0].1);
            }
        }
    }
    r
}

} // verus!
