//! Soft deletion for nearest-neighbor search.
//!
//! A [`SoftSearch`] wraps any index over points that carry a deletion flag.
//! Searches run with the accumulator's deletion filter switched on, so
//! deleted items are never returned — though their distances still steer the
//! underlying index's pruning.  Draining the index discards deleted items on
//! the way out, and a [`SoftSearch::rebuild`] compacts them away in place.

use vstd::prelude::*;
use vstd::multiset::Multiset;
use crate::COUNT_LIMIT;
use crate::forest::Forest;
use crate::metric::{
    absorb, compat, knn_result, lemma_live_idempotent, live, nb_wf, NearestNeighbors,
    Neighborhood, NeighborV, Point, PointV, points_of, retain_live, wf_point,
};

verus! {

broadcast use vstd::multiset::group_multiset_axioms, vstd::seq_lib::group_to_multiset_ensures;

/// A trait for objects that can be soft-deleted.
pub trait SoftDelete {
    /// Whether this item is deleted, as a specification value.
    spec fn deleted_spec(&self) -> bool;

    /// Check whether this item is deleted.
    fn is_deleted(&self) -> (r: bool)
        ensures
            r == self.deleted_spec(),
    ;
}

impl SoftDelete for Point {
    open spec fn deleted_spec(&self) -> bool {
        self@.deleted
    }

    fn is_deleted(&self) -> (r: bool) {
        self.deleted
    }
}

/// An index adapter that hides soft-deleted items from query results.
#[derive(Debug)]
pub struct SoftSearch<T: NearestNeighbors> {
    inner: T,
}

impl<T: NearestNeighbors> NearestNeighbors for SoftSearch<T> {
    closed spec fn contents(&self) -> Multiset<PointV> {
        self.inner.contents()
    }

    closed spec fn query_items(&self, filtered: bool) -> Multiset<PointV> {
        self.inner.query_items(true)
    }

    closed spec fn inv(&self) -> bool {
        self.inner.inv()
    }

    fn from_vec(items: Vec<Point>) -> (r: Self) {
        SoftSearch { inner: T::from_vec(items) }
    }

    fn search(&self, acc: Neighborhood) -> (out: Neighborhood) {
        let ghost pre = acc@;
        let mut acc = acc;
        let was = acc.get_filter();
        acc.set_filter(true);
        let ghost prefiltered = acc@;
        let mut out = self.inner.search(acc);
        let ghost mid = out@;
        out.set_filter(was);
        proof {
            let m = self.inner.query_items(true);
            assert(absorb(prefiltered, m, mid));
            assert(nb_wf(out@));
            assert(absorb(pre, m, out@));
        }
        out
    }

    fn into_vec(self) -> (v: Vec<Point>) {
        self.inner.into_vec()
    }

    proof fn query_items_law(&self, filtered: bool) {
        self.inner.query_items_law(true);
    }
}

impl<T: NearestNeighbors> SoftSearch<T> {
    /// Drains the index.  The soft index's own draining iteration yields
    /// only the live items: deleted items are discarded on the way out, so
    /// collecting the drain recovers exactly the live set.  (Through the
    /// [`NearestNeighbors`] trait, where the adapter acts as a plain
    /// sub-index, the drain still carries the full contents.)
    pub fn into_vec(self) -> (v: Vec<Point>)
        requires
            self.inv(),
        ensures
            points_of(v@) == live(self.contents()),
            crate::metric::buildable(v@),
            v@.len() <= COUNT_LIMIT,
    {
        let SoftSearch { inner } = self;
        let all = inner.into_vec();
        retain_live(all)
    }

    /// Creates an empty soft index.
    pub fn new() -> (r: Self)
        ensures
            r.inv(),
            r.contents() == Multiset::<PointV>::empty(),
    {
        let items: Vec<Point> = Vec::new();
        proof {
            assert(points_of(items@) =~= Multiset::<PointV>::empty()) by {
                assert(items@.map_values(|p: Point| p@) =~= Seq::<PointV>::empty());
            }
        }
        SoftSearch { inner: T::from_vec(items) }
    }

    /// Rebuilds the wrapped index, discarding deleted items.
    pub fn rebuild(&mut self)
        requires
            old(self).inv(),
        ensures
            final(self).inv(),
            final(self).contents() == live(old(self).contents()),
    {
        let ghost c0 = self.contents();
        let empty_items: Vec<Point> = Vec::new();
        proof {
            assert(points_of(empty_items@) =~= Multiset::<PointV>::empty()) by {
                assert(empty_items@.map_values(|p: Point| p@) =~= Seq::<PointV>::empty());
            }
        }
        let mut tmp = T::from_vec(empty_items);
        core::mem::swap(&mut self.inner, &mut tmp);
        let items = tmp.into_vec();
        let kept = retain_live(items);
        proof {
            crate::metric::lemma_live_subset(c0, true);
            crate::metric::lemma_subset_len(live(c0), c0);
        }
        let rebuilt = T::from_vec(kept);
        let mut rebuilt = rebuilt;
        core::mem::swap(&mut self.inner, &mut rebuilt);
    }
}

impl<T: NearestNeighbors> SoftSearch<Forest<T>> {
    /// Pushes a new item into a forest-backed soft index.
    pub fn push(&mut self, item: Point)
        requires
            old(self).inv(),
            wf_point(item@),
            compat(old(self).contents(), item@.coords),
            old(self).contents().len() < COUNT_LIMIT,
        ensures
            final(self).inv(),
            final(self).contents() == old(self).contents().insert(item@),
    {
        self.inner.push(item);
    }
}

/// A k-d forest that supports soft deletes.
pub type SoftKdForest = SoftSearch<crate::forest::KdForest>;

/// A k-d tree that supports soft deletes.
pub type SoftKdTree = SoftSearch<crate::metric::kd::KdTree>;

/// A vantage-point forest that supports soft deletes.
pub type SoftVpForest = SoftSearch<crate::forest::VpForest>;

/// A vantage-point tree that supports soft deletes.
pub type SoftVpTree = SoftSearch<crate::metric::vp::VpTree>;

/// The soft-delete law: whatever filtering a caller asks for, a query of a
/// soft index draws from exactly the live items.
pub proof fn lemma_soft_query_is_live<T: NearestNeighbors>(s: &SoftSearch<T>, filtered: bool)
    requires
        s.inv(),
    ensures
        s.query_items(filtered) == live(s.contents()),
{
    s.inner.query_items_law(true);
}

/// Deleted items never appear in query outputs: every neighbor of a
/// k-nearest result of a soft index is live.
pub proof fn lemma_soft_outputs_live<T: NearestNeighbors>(
    s: &SoftSearch<T>,
    t: Seq<int>,
    k: nat,
    bound: Option<int>,
    res: Seq<NeighborV>,
)
    requires
        s.inv(),
        knn_result(s.query_items(false), t, k, bound, res),
    ensures
        forall|i: int| 0 <= i < res.len() ==> !(#[trigger] res[i]).item.deleted,
{
    lemma_soft_query_is_live(s, false);
    let items = s.query_items(false);
    let kept = res.map_values(|n: NeighborV| n.item).to_multiset();
    assert forall|i: int| 0 <= i < res.len() implies !(#[trigger] res[i]).item.deleted by {
        assert(res.map_values(|n: NeighborV| n.item)[i] == res[i].item);
        assert(res.map_values(|n: NeighborV| n.item).contains(res[i].item));
        assert(kept.count(res[i].item) > 0);
        assert(items.count(res[i].item) > 0);
        assert(live(s.contents()).count(res[i].item) > 0);
    }
}

/// Rebuilding preserves live-item query semantics: the items a query draws
/// from are the same before and after a rebuild.
pub proof fn lemma_rebuild_preserves_queries<T: NearestNeighbors>(
    before: &SoftSearch<T>,
    after: &SoftSearch<T>,
    filtered: bool,
)
    requires
        before.inv(),
        after.inv(),
        after.contents() == live(before.contents()),
    ensures
        after.query_items(filtered) == before.query_items(filtered),
{
    lemma_soft_query_is_live(before, filtered);
    lemma_soft_query_is_live(after, filtered);
    lemma_live_idempotent(before.contents());
}

} // verus!
