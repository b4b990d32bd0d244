//! Pending events bucketed by rank, with the list of ranks that hold any.
use vstd::prelude::*;
use std::collections::HashMap;

verus! {

broadcast use vstd::std_specs::hash::group_hash_axioms;

/// Pending events by rank. A rank is listed as active exactly when its
/// bucket is present, and a present bucket is never empty.
pub struct RankQueue<E> {
    buckets: HashMap<u32, Vec<E>>,
    ranks: Vec<u32>,
}

impl<E> RankQueue<E> {
    /// The buckets, by rank.
    pub closed spec fn buckets(&self) -> Map<u32, Seq<E>> {
        self.buckets@.map_values(|v: Vec<E>| v@)
    }

    /// The active ranks, in the order they were first filled.
    pub closed spec fn ranks(&self) -> Seq<u32> {
        self.ranks@
    }

    /// The events pending at rank `r`.
    pub open spec fn bucket(&self, r: u32) -> Seq<E> {
        if self.buckets().contains_key(r) {
            self.buckets()[r]
        } else {
            Seq::empty()
        }
    }

    /// Nothing is pending.
    pub open spec fn spec_is_empty(&self) -> bool {
        &&& self.buckets() == Map::<u32, Seq<E>>::empty()
        &&& self.ranks() == Seq::<u32>::empty()
    }

    pub closed spec fn wf(&self) -> bool {
        &&& self.ranks@.no_duplicates()
        &&& forall|r: u32| #[trigger] self.buckets@.contains_key(r) <==> self.ranks@.contains(r)
        &&& forall|r: u32| #[trigger] self.buckets@.contains_key(r) ==> self.buckets@[r]@.len() > 0
    }

    /// `next` is this queue with the bucket of rank `r` taken out.
    pub open spec fn takes(&self, next: &RankQueue<E>, r: u32, bucket: Seq<E>) -> bool {
        &&& next.wf()
        &&& self.ranks().contains(r)
        &&& bucket == self.bucket(r)
        &&& bucket.len() > 0
        &&& next.buckets() == self.buckets().remove(r)
        &&& next.ranks().to_set() == self.ranks().to_set().remove(r)
        &&& next.ranks().len() == self.ranks().len() - 1
    }

    /// `next` is this queue with its highest-ranked bucket, of rank `r`,
    /// taken out.
    pub open spec fn takes_highest(&self, next: &RankQueue<E>, r: u32, bucket: Seq<E>) -> bool {
        &&& self.takes(next, r, bucket)
        &&& forall|q: u32| #[trigger] self.ranks().contains(q) ==> q <= r
    }

    /// `next` is this queue with its lowest-ranked bucket, of rank `r`,
    /// taken out.
    pub open spec fn takes_lowest(&self, next: &RankQueue<E>, r: u32, bucket: Seq<E>) -> bool {
        &&& self.takes(next, r, bucket)
        &&& forall|q: u32| #[trigger] self.ranks().contains(q) ==> r <= q
    }

    pub fn new() -> (r: RankQueue<E>)
        ensures
            r.wf(),
            r.spec_is_empty(),
    {
        let r = RankQueue { buckets: HashMap::new(), ranks: Vec::new() };
        assert(r.buckets() =~= Map::<u32, Seq<E>>::empty());
        r
    }

    /// Whether nothing is pending.
    pub fn is_empty(&self) -> (r: bool)
        requires
            self.wf(),
        ensures
            r == self.spec_is_empty(),
            r == (self.ranks().len() == 0),
            r == (self.buckets() == Map::<u32, Seq<E>>::empty()),
    {
        let r = self.ranks.len() == 0;
        if r {
            assert(self.ranks@ =~= Seq::<u32>::empty());
            assert(self.buckets() =~= Map::<u32, Seq<E>>::empty()) by {
                assert forall|q: u32| !self.buckets@.contains_key(q) by {
                    if self.buckets@.contains_key(q) {
                        assert(self.ranks@.contains(q));
                    }
                }
            }
        } else {
            assert(self.ranks@ != Seq::<u32>::empty());
            proof {
                let q = self.ranks@[0];
                assert(self.ranks@.contains(q));
                assert(self.buckets().contains_key(q));
            }
        }
        r
    }

    /// Number of active ranks.
    pub fn rank_count(&self) -> (r: usize)
        ensures
            r == self.ranks().len(),
    {
        self.ranks.len()
    }

    /// Appends `e` to the bucket of rank `rank`, listing the rank if it was
    /// not active.
    pub fn push(&mut self, rank: u32, e: E)
        requires
            old(self).wf(),
        ensures
            final(self).wf(),
            final(self).buckets() == old(self).buckets().insert(rank, old(self).bucket(rank).push(e)),
            final(self).ranks() == if old(self).ranks().contains(rank) {
                old(self).ranks()
            } else {
                old(self).ranks().push(rank)
            },
    {
        let ghost old_ranks = self.ranks@;
        match self.buckets.remove(&rank) {
            Some(v) => {
                let mut v = v;
                v.push(e);
                self.buckets.insert(rank, v);
            },
            None => {
                let mut v = Vec::new();
                v.push(e);
                self.buckets.insert(rank, v);
                self.ranks.push(rank);
                assert forall|q: u32| #[trigger] self.ranks@.contains(q) <==> (old_ranks.contains(q) || q == rank) by {
                    if old_ranks.contains(q) {
                        let n = choose|n: int| 0 <= n < old_ranks.len() && old_ranks[n] == q;
                        assert(self.ranks@[n] == q);
                    }
                    if q == rank {
                        assert(self.ranks@[old_ranks.len() as int] == q);
                    }
                    if self.ranks@.contains(q) {
                        let n = choose|n: int| 0 <= n < self.ranks@.len() && self.ranks@[n] == q;
                        if n < old_ranks.len() {
                            assert(old_ranks[n] == q);
                        }
                    }
                }
            },
        }
        assert(self.buckets() =~= old(self).buckets().insert(rank, old(self).bucket(rank).push(e)));
    }

    /// Position of the highest (`highest`) or lowest active rank.
    fn extreme_index(&self, highest: bool) -> (i: usize)
        requires
            self.wf(),
            self.ranks().len() > 0,
        ensures
            i < self.ranks().len(),
            forall|j: int|
                0 <= j < self.ranks().len() ==> if highest {
                    self.ranks()[j] <= self.ranks()[i as int]
                } else {
                    self.ranks()[i as int] <= self.ranks()[j]
                },
    {
        let mut best: usize = 0;
        let mut j: usize = 1;
        while j < self.ranks.len()
            invariant
                best < j <= self.ranks@.len(),
                forall|k: int|
                    0 <= k < j ==> if highest {
                        self.ranks@[k] <= self.ranks@[best as int]
                    } else {
                        self.ranks@[best as int] <= self.ranks@[k]
                    },
            decreases self.ranks@.len() - j,
        {
            let better = if highest {
                self.ranks[j] > self.ranks[best]
            } else {
                self.ranks[j] < self.ranks[best]
            };
            if better {
                best = j;
            }
            j = j + 1;
        }
        best
    }

    /// Takes out the bucket of the rank at position `i` of the active list.
    fn take_at(&mut self, i: usize) -> (r: (u32, Vec<E>))
        requires
            old(self).wf(),
            i < old(self).ranks().len(),
        ensures
            r.0 == old(self).ranks()[i as int],
            old(self).takes(final(self), r.0, r.1@),
    {
        let rank = self.ranks[i];
        let ghost before = self.ranks@;
        assert(before.contains(rank));
        self.ranks.remove(i);
        let bucket = match self.buckets.remove(&rank) {
            Some(v) => v,
            None => {
                assert(false);
                Vec::new()
            },
        };
        assert(self.ranks@ == before.remove(i as int));
        assert forall|q: u32| #[trigger] self.ranks@.contains(q) <==> (before.contains(q) && q != rank) by {
            if self.ranks@.contains(q) {
                let n = choose|n: int| 0 <= n < self.ranks@.len() && self.ranks@[n] == q;
                if n < i {
                    assert(before[n] == q);
                } else {
                    assert(before[n + 1] == q);
                }
            }
            if before.contains(q) && q != rank {
                let n = choose|n: int| 0 <= n < before.len() && before[n] == q;
                assert(n != i);
                if n < i {
                    assert(self.ranks@[n] == q);
                } else {
                    assert(self.ranks@[n - 1] == q);
                }
            }
        }
        assert(self.ranks@.no_duplicates()) by {
            assert forall|a: int, b: int| 0 <= a < b < self.ranks@.len() implies self.ranks@[a] != self.ranks@[b] by {
                let a1 = if a < i { a } else { a + 1 };
                let b1 = if b < i { b } else { b + 1 };
                assert(before[a1] == self.ranks@[a]);
                assert(before[b1] == self.ranks@[b]);
            }
        }
        assert(self.buckets() =~= old(self).buckets().remove(rank));
        assert(self.ranks().to_set() =~= old(self).ranks().to_set().remove(rank));
        (rank, bucket)
    }

    /// Takes out the bucket of the highest active rank; `None` when nothing
    /// is pending.
    pub fn take_highest(&mut self) -> (r: Option<(u32, Vec<E>)>)
        requires
            old(self).wf(),
        ensures
            final(self).wf(),
            r is None <==> old(self).spec_is_empty(),
            r is None ==> final(self).spec_is_empty(),
            r matches Some(p) ==> old(self).takes_highest(final(self), p.0, p.1@),
    {
        if self.is_empty() {
            return None;
        }
        let i = self.extreme_index(true);
        let p = self.take_at(i);
        assert forall|q: u32| #[trigger] old(self).ranks().contains(q) implies q <= p.0 by {
            let n = choose|n: int| 0 <= n < old(self).ranks().len() && old(self).ranks()[n] == q;
        }
        Some(p)
    }

    /// Takes out the bucket of the lowest active rank; `None` when nothing
    /// is pending.
    pub fn take_lowest(&mut self) -> (r: Option<(u32, Vec<E>)>)
        requires
            old(self).wf(),
        ensures
            final(self).wf(),
            r is None <==> old(self).spec_is_empty(),
            r is None ==> final(self).spec_is_empty(),
            r matches Some(p) ==> old(self).takes_lowest(final(self), p.0, p.1@),
    {
        if self.is_empty() {
            return None;
        }
        let i = self.extreme_index(false);
        let p = self.take_at(i);
        assert forall|q: u32| #[trigger] old(self).ranks().contains(q) implies p.0 <= q by {
            let n = choose|n: int| 0 <= n < old(self).ranks().len() && old(self).ranks()[n] == q;
        }
        Some(p)
    }

    /// The highest active rank.
    pub fn top_rank(&self) -> (r: u32)
        requires
            self.wf(),
            !self.spec_is_empty(),
        ensures
            self.ranks().contains(r),
            forall|q: u32| #[trigger] self.ranks().contains(q) ==> q <= r,
    {
        if self.is_empty() {
            assert(false);
        }
        let i = self.extreme_index(true);
        let r = self.ranks[i];
        assert(self.ranks@[i as int] == r);
        assert forall|q: u32| #[trigger] self.ranks().contains(q) implies q <= r by {
            let n = choose|n: int| 0 <= n < self.ranks().len() && self.ranks()[n] == q;
        }
        r
    }

    /// Drops every pending event.
    pub fn clear(&mut self)
        ensures
            final(self).wf(),
            final(self).spec_is_empty(),
    {
        self.buckets.clear();
        self.ranks.clear();
        assert(self.buckets() =~= Map::<u32, Seq<E>>::empty());
    }
}

/// `s` in the order that popping it from the back hands its items out.
pub open spec fn popped<T>(s: Seq<T>) -> Seq<T> {
    Seq::new(s.len(), |i: int| s[s.len() - 1 - i])
}

/// The bucket of rank `r` in `m`, empty where there is none.
pub open spec fn bucket_of<E>(m: Map<u32, Seq<E>>, r: u32) -> Seq<E> {
    if m.contains_key(r) {
        m[r]
    } else {
        Seq::empty()
    }
}

/// The events of the buckets of rank `r` and below, highest rank first,
/// each bucket in popped order.
pub open spec fn desc_schedule<E>(m: Map<u32, Seq<E>>, r: int) -> Seq<E>
    decreases r + 1,
{
    if r < 0 {
        Seq::empty()
    } else {
        popped(bucket_of(m, r as u32)) + desc_schedule(m, r - 1)
    }
}

/// The events of the buckets of rank `r` and above, lowest rank first,
/// each bucket in popped order.
pub open spec fn asc_schedule<E>(m: Map<u32, Seq<E>>, r: int) -> Seq<E>
    decreases u32::MAX + 1 - r,
{
    if r > u32::MAX || r < 0 {
        Seq::empty()
    } else {
        popped(bucket_of(m, r as u32)) + asc_schedule(m, r + 1)
    }
}

proof fn lemma_desc_skip<E>(m: Map<u32, Seq<E>>, lo: int, r: int)
    requires
        -1 <= lo <= r <= u32::MAX,
        forall|k: u32| #[trigger] m.contains_key(k) ==> !(lo < k <= r),
    ensures
        desc_schedule(m, r) == desc_schedule(m, lo),
    decreases r - lo,
{
    if r > lo {
        assert(!m.contains_key(r as u32));
        assert(popped(bucket_of(m, r as u32)) =~= Seq::<E>::empty());
        lemma_desc_skip(m, lo, r - 1);
        assert(desc_schedule(m, r) =~= desc_schedule(m, r - 1));
    }
}

proof fn lemma_desc_agree<E>(m: Map<u32, Seq<E>>, n: Map<u32, Seq<E>>, r: int)
    requires
        r <= u32::MAX,
        forall|k: u32| k <= r ==> #[trigger] bucket_of(m, k) == bucket_of(n, k),
    ensures
        desc_schedule(m, r) == desc_schedule(n, r),
    decreases r + 1,
{
    if r >= 0 {
        assert(bucket_of(m, r as u32) == bucket_of(n, r as u32));
        lemma_desc_agree(m, n, r - 1);
    }
}

/// Taking out the highest bucket leaves the rest of the schedule.
pub proof fn lemma_desc_take<E>(m: Map<u32, Seq<E>>, top: u32)
    requires
        m.contains_key(top),
        forall|k: u32| #[trigger] m.contains_key(k) ==> k <= top,
    ensures
        desc_schedule(m, u32::MAX as int) == popped(m[top]) + desc_schedule(m.remove(top), u32::MAX as int),
{
    let n = m.remove(top);
    lemma_desc_skip(m, top as int, u32::MAX as int);
    lemma_desc_agree(m, n, top - 1);
    lemma_desc_skip(n, top - 1, u32::MAX as int);
}

/// Nothing is scheduled from an empty map.
pub proof fn lemma_desc_empty<E>(m: Map<u32, Seq<E>>, r: int)
    requires
        m == Map::<u32, Seq<E>>::empty(),
        r <= u32::MAX,
    ensures
        desc_schedule(m, r) == Seq::<E>::empty(),
    decreases r + 1,
{
    if r >= 0 {
        lemma_desc_empty(m, r - 1);
        assert(popped(bucket_of(m, r as u32)) =~= Seq::<E>::empty());
        assert(desc_schedule(m, r) =~= Seq::<E>::empty());
    }
}

proof fn lemma_asc_skip<E>(m: Map<u32, Seq<E>>, r: int, hi: int)
    requires
        0 <= r <= hi <= u32::MAX + 1,
        forall|k: u32| #[trigger] m.contains_key(k) ==> !(r <= k < hi),
    ensures
        asc_schedule(m, r) == asc_schedule(m, hi),
    decreases hi - r,
{
    if r < hi {
        assert(!m.contains_key(r as u32));
        assert(popped(bucket_of(m, r as u32)) =~= Seq::<E>::empty());
        lemma_asc_skip(m, r + 1, hi);
        assert(asc_schedule(m, r) =~= asc_schedule(m, r + 1));
    }
}

proof fn lemma_asc_agree<E>(m: Map<u32, Seq<E>>, n: Map<u32, Seq<E>>, r: int)
    requires
        r >= 0,
        forall|k: u32| k >= r ==> #[trigger] bucket_of(m, k) == bucket_of(n, k),
    ensures
        asc_schedule(m, r) == asc_schedule(n, r),
    decreases u32::MAX + 1 - r,
{
    if r <= u32::MAX {
        assert(bucket_of(m, r as u32) == bucket_of(n, r as u32));
        lemma_asc_agree(m, n, r + 1);
    }
}

/// Taking out the lowest bucket leaves the rest of the schedule.
pub proof fn lemma_asc_take<E>(m: Map<u32, Seq<E>>, bot: u32)
    requires
        m.contains_key(bot),
        forall|k: u32| #[trigger] m.contains_key(k) ==> bot <= k,
    ensures
        asc_schedule(m, 0) == popped(m[bot]) + asc_schedule(m.remove(bot), 0),
{
    let n = m.remove(bot);
    lemma_asc_skip(m, 0, bot as int);
    lemma_asc_agree(m, n, bot + 1);
    lemma_asc_skip(n, 0, bot + 1);
}

/// Nothing is scheduled from an empty map.
pub proof fn lemma_asc_empty<E>(m: Map<u32, Seq<E>>, r: int)
    requires
        m == Map::<u32, Seq<E>>::empty(),
        r >= 0,
    ensures
        asc_schedule(m, r) == Seq::<E>::empty(),
    decreases u32::MAX + 1 - r,
{
    if r <= u32::MAX {
        lemma_asc_empty(m, r + 1);
        assert(popped(bucket_of(m, r as u32)) =~= Seq::<E>::empty());
        assert(asc_schedule(m, r) =~= Seq::<E>::empty());
    }
}

/// The buckets are determined by the events each rank holds.
pub proof fn lemma_buckets_determined<E>(q: RankQueue<E>)
    requires
        q.wf(),
    ensures
        q.buckets() == Map::new(|r: u32| q.bucket(r).len() > 0, |r: u32| q.bucket(r)),
{
    assert(q.buckets() =~= Map::new(|r: u32| q.bucket(r).len() > 0, |r: u32| q.bucket(r)));
}

/// The active ranks hold no repeats, and a rank is active exactly when its
/// bucket holds events.
pub proof fn lemma_ranks_listed<E>(q: RankQueue<E>)
    requires
        q.wf(),
    ensures
        q.ranks().no_duplicates(),
        forall|r: u32| #[trigger] q.ranks().contains(r) <==> q.bucket(r).len() > 0,
{
}

proof fn lemma_desc_bounded<E>(m: Map<u32, Seq<E>>, rank: spec_fn(E) -> u32, r: int)
    requires
        r <= u32::MAX,
        forall|k: u32, n: int| m.contains_key(k) && 0 <= n < m[k].len() ==> rank(#[trigger] m[k][n]) == k,
    ensures
        forall|i: int| 0 <= i < desc_schedule(m, r).len() ==> rank(#[trigger] desc_schedule(m, r)[i]) <= r,
    decreases r + 1,
{
    if r >= 0 {
        lemma_desc_bounded(m, rank, r - 1);
        let b = popped(bucket_of(m, r as u32));
        assert forall|i: int| 0 <= i < desc_schedule(m, r).len() implies rank(#[trigger] desc_schedule(m, r)[i]) <= r by {
            if i < b.len() {
                assert(desc_schedule(m, r)[i] == b[i]);
                assert(m[r as u32][bucket_of(m, r as u32).len() - 1 - i] == b[i]);
            } else {
                assert(desc_schedule(m, r)[i] == desc_schedule(m, r - 1)[i - b.len()]);
            }
        }
    }
}

/// Where every event sits in the bucket of its own rank, the schedule of a
/// pass never goes up in rank: a higher-ranked event always comes first.
pub proof fn lemma_desc_sorted<E>(m: Map<u32, Seq<E>>, rank: spec_fn(E) -> u32, r: int)
    requires
        r <= u32::MAX,
        forall|k: u32, n: int| m.contains_key(k) && 0 <= n < m[k].len() ==> rank(#[trigger] m[k][n]) == k,
    ensures
        forall|i: int, j: int|
            0 <= i < j < desc_schedule(m, r).len() ==> rank(#[trigger] desc_schedule(m, r)[i]) >= rank(
                #[trigger] desc_schedule(m, r)[j],
            ),
    decreases r + 1,
{
    if r >= 0 {
        lemma_desc_sorted(m, rank, r - 1);
        lemma_desc_bounded(m, rank, r - 1);
        let b = popped(bucket_of(m, r as u32));
        let d = desc_schedule(m, r);
        assert forall|i: int, j: int| 0 <= i < j < d.len() implies rank(#[trigger] d[i]) >= rank(#[trigger] d[j]) by {
            if i < b.len() {
                assert(m[r as u32][bucket_of(m, r as u32).len() - 1 - i] == b[i]);
                assert(d[i] == b[i]);
                if j < b.len() {
                    assert(m[r as u32][bucket_of(m, r as u32).len() - 1 - j] == b[j]);
                    assert(d[j] == b[j]);
                } else {
                    assert(d[j] == desc_schedule(m, r - 1)[j - b.len()]);
                }
            } else {
                assert(d[i] == desc_schedule(m, r - 1)[i - b.len()]);
                assert(d[j] == desc_schedule(m, r - 1)[j - b.len()]);
            }
        }
    }
}

proof fn lemma_asc_bounded<E>(m: Map<u32, Seq<E>>, rank: spec_fn(E) -> u32, r: int)
    requires
        r >= 0,
        forall|k: u32, n: int| m.contains_key(k) && 0 <= n < m[k].len() ==> rank(#[trigger] m[k][n]) == k,
    ensures
        forall|i: int| 0 <= i < asc_schedule(m, r).len() ==> rank(#[trigger] asc_schedule(m, r)[i]) >= r,
    decreases u32::MAX + 1 - r,
{
    if r <= u32::MAX {
        lemma_asc_bounded(m, rank, r + 1);
        let b = popped(bucket_of(m, r as u32));
        assert forall|i: int| 0 <= i < asc_schedule(m, r).len() implies rank(#[trigger] asc_schedule(m, r)[i]) >= r by {
            if i < b.len() {
                assert(asc_schedule(m, r)[i] == b[i]);
                assert(m[r as u32][bucket_of(m, r as u32).len() - 1 - i] == b[i]);
            } else {
                assert(asc_schedule(m, r)[i] == asc_schedule(m, r + 1)[i - b.len()]);
            }
        }
    }
}

/// Where every event sits in the bucket of its own rank, the post-tick
/// schedule never goes down in rank: a lower-ranked event always comes first.
pub proof fn lemma_asc_sorted<E>(m: Map<u32, Seq<E>>, rank: spec_fn(E) -> u32, r: int)
    requires
        r >= 0,
        forall|k: u32, n: int| m.contains_key(k) && 0 <= n < m[k].len() ==> rank(#[trigger] m[k][n]) == k,
    ensures
        forall|i: int, j: int|
            0 <= i < j < asc_schedule(m, r).len() ==> rank(#[trigger] asc_schedule(m, r)[i]) <= rank(
                #[trigger] asc_schedule(m, r)[j],
            ),
    decreases u32::MAX + 1 - r,
{
    if r <= u32::MAX {
        lemma_asc_sorted(m, rank, r + 1);
        lemma_asc_bounded(m, rank, r + 1);
        let b = popped(bucket_of(m, r as u32));
        let d = asc_schedule(m, r);
        assert forall|i: int, j: int| 0 <= i < j < d.len() implies rank(#[trigger] d[i]) <= rank(#[trigger] d[j]) by {
            if i < b.len() {
                assert(m[r as u32][bucket_of(m, r as u32).len() - 1 - i] == b[i]);
                assert(d[i] == b[i]);
                if j < b.len() {
                    assert(m[r as u32][bucket_of(m, r as u32).len() - 1 - j] == b[j]);
                    assert(d[j] == b[j]);
                } else {
                    assert(d[j] == asc_schedule(m, r + 1)[j - b.len()]);
                }
            } else {
                assert(d[i] == asc_schedule(m, r + 1)[i - b.len()]);
                assert(d[j] == asc_schedule(m, r + 1)[j - b.len()]);
            }
        }
    }
}

/// An active rank has a bucket.
pub proof fn lemma_active_key<E>(q: RankQueue<E>, r: u32)
    requires
        q.wf(),
        q.ranks().contains(r),
    ensures
        q.buckets().contains_key(r),
{
}

/// A rank with a bucket is active.
pub proof fn lemma_keys_active<E>(q: RankQueue<E>, r: u32)
    requires
        q.wf(),
        q.buckets().contains_key(r),
    ensures
        q.ranks().contains(r),
{
}

/// A rank whose bucket holds events is active.
pub proof fn lemma_bucket_active<E>(q: RankQueue<E>, r: u32)
    requires
        q.wf(),
        q.bucket(r).len() > 0,
    ensures
        q.ranks().contains(r),
{
}

/// A queue in which every bucket is empty holds nothing.
pub proof fn lemma_empty_buckets<E>(q: RankQueue<E>)
    requires
        q.wf(),
        forall|r: u32| #[trigger] q.bucket(r).len() == 0,
    ensures
        q.spec_is_empty(),
{
    assert(q.buckets() =~= Map::<u32, Seq<E>>::empty()) by {
        assert forall|r: u32| !q.buckets().contains_key(r) by {
            if q.buckets().contains_key(r) {
                assert(q.bucket(r).len() == 0);
            }
        }
    }
    if q.ranks().len() > 0 {
        let r = q.ranks()[0];
        assert(q.ranks@.contains(r));
        assert(q.buckets@.contains_key(r));
        assert(q.buckets().contains_key(r));
        assert(q.bucket(r).len() > 0);
        assert(false);
    }
    assert(q.ranks() =~= Seq::<u32>::empty());
}

/// Taking the highest bucket twice in a row yields a strictly lower rank the
/// second time: buckets leave the queue in descending rank order.
pub proof fn lemma_highest_descends<E>(
    q0: RankQueue<E>,
    q1: RankQueue<E>,
    q2: RankQueue<E>,
    r1: u32,
    b1: Seq<E>,
    r2: u32,
    b2: Seq<E>,
)
    requires
        q0.takes_highest(&q1, r1, b1),
        q1.takes_highest(&q2, r2, b2),
    ensures
        r2 < r1,
{
    assert(q1.ranks().to_set().contains(r2));
    assert(q0.ranks().contains(r2));
}

/// Taking the lowest bucket twice in a row yields a strictly higher rank the
/// second time: buckets leave the queue in ascending rank order.
pub proof fn lemma_lowest_ascends<E>(
    q0: RankQueue<E>,
    q1: RankQueue<E>,
    q2: RankQueue<E>,
    r1: u32,
    b1: Seq<E>,
    r2: u32,
    b2: Seq<E>,
)
    requires
        q0.takes_lowest(&q1, r1, b1),
        q1.takes_lowest(&q2, r2, b2),
    ensures
        r1 < r2,
{
    assert(q1.ranks().to_set().contains(r2));
    assert(q0.ranks().contains(r2));
}

} // verus!
