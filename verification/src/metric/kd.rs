//! k-d trees.
//!
//! A [`KdTree`] is a static Cartesian index: one flat array of nodes in which
//! the node at a position is followed first by its left subtree and then by
//! its right, split on coordinate axes in rotation.

use vstd::prelude::*;
use vstd::multiset::Multiset;
use crate::COUNT_LIMIT;
use crate::metric::{
    absorb, buildable, contains_sq, lemma_absorb_refl, lemma_absorb_skip, lemma_absorb_trans,
    lemma_live_subset, lemma_points_of_concat, lemma_search_input_add, lemma_search_input_empty,
    lemma_search_input_subset, nb_wf, NearestNeighbors, Neighborhood, Point, PointV, points_of,
    search_input, sq_dist, sq_distance, wf_point,
};

verus! {

broadcast use vstd::multiset::group_multiset_axioms, vstd::seq_lib::group_to_multiset_ensures;

/// A node of a k-d tree: an item and the size of its left subtree.
#[derive(Debug)]
pub struct KdNode {
    item: Point,
    left_len: usize,
}

/// The mathematical value of a k-d node.
pub struct KdNodeV {
    pub item: PointV,
    pub left_len: int,
}

impl View for KdNode {
    type V = KdNodeV;

    closed spec fn view(&self) -> KdNodeV {
        KdNodeV { item: self.item@, left_len: self.left_len as int }
    }
}

/// The views of a node sequence.
pub open spec fn kd_view(s: Seq<KdNode>) -> Seq<KdNodeV> {
    s.map_values(|n: KdNode| n@)
}

/// The items of a range of nodes, as a multiset.
pub open spec fn kd_range_points(s: Seq<KdNodeV>, lo: int, hi: int) -> Multiset<PointV> {
    s.subrange(lo, hi).map_values(|n: KdNodeV| n.item).to_multiset()
}

/// Well-formedness of the range `[lo, hi)` of a flat k-d tree split on
/// `axis`: the node at `lo` is the median of the range — its left subtree,
/// laid out right after it, holds exactly half the range, with no greater
/// coordinate on the axis; its right subtree follows, with no smaller
/// coordinate — each half well formed on the next axis.
pub open spec fn kd_wf(s: Seq<KdNodeV>, lo: int, hi: int, d: int, axis: int) -> bool
    decreases hi - lo,
{
    lo >= hi || {
        let n = s[lo];
        let ll = n.left_len;
        &&& 0 <= lo
        &&& hi <= s.len()
        &&& 0 <= ll
        &&& lo + 1 + ll <= hi
        &&& ll == (hi - lo) / 2
        &&& wf_point(n.item)
        &&& n.item.coords.len() == d
        &&& (forall|j: int|
            lo + 1 <= j < lo + 1 + ll ==> (#[trigger] s[j]).item.coords[axis]
                <= n.item.coords[axis])
        &&& (forall|j: int|
            lo + 1 + ll <= j < hi ==> (#[trigger] s[j]).item.coords[axis] >= n.item.coords[axis])
        &&& kd_wf(s, lo + 1, lo + 1 + ll, d, (axis + 1) % d)
        &&& kd_wf(s, lo + 1 + ll, hi, d, (axis + 1) % d)
    }
}

/// Well-formedness depends only on the nodes inside the range.
proof fn lemma_kd_wf_shift(s: Seq<KdNodeV>, t: Seq<KdNodeV>, lo_s: int, lo_t: int, len: int, d: int, axis: int)
    requires
        0 <= lo_s,
        lo_s + len <= s.len(),
        0 <= lo_t,
        lo_t + len <= t.len(),
        0 <= len,
        forall|k: int| 0 <= k < len ==> #[trigger] s[lo_s + k] == t[lo_t + k],
        kd_wf(s, lo_s, lo_s + len, d, axis),
    ensures
        kd_wf(t, lo_t, lo_t + len, d, axis),
    decreases len,
{
    if len > 0 {
        let n = s[lo_s];
        let ll = n.left_len;
        assert(t[lo_t] == s[lo_s + 0]);
        assert forall|k: int| 0 <= k < ll implies #[trigger] s[lo_s + 1 + k] == t[lo_t + 1 + k] by {
            assert(s[lo_s + (k + 1)] == t[lo_t + (k + 1)]);
        }
        assert forall|k: int| 0 <= k < len - 1 - ll implies #[trigger] s[lo_s + 1 + ll + k] == t[
            lo_t + 1 + ll + k] by {
            assert(s[lo_s + (k + 1 + ll)] == t[lo_t + (k + 1 + ll)]);
        }
        lemma_kd_wf_shift(s, t, lo_s + 1, lo_t + 1, ll, d, (axis + 1) % d);
        lemma_kd_wf_shift(
            s,
            t,
            lo_s + 1 + ll,
            lo_t + 1 + ll,
            len - 1 - ll,
            d,
            (axis + 1) % d,
        );
        assert forall|j: int|
            lo_t + 1 <= j < lo_t + 1 + ll implies (#[trigger] t[j]).item.coords[axis]
            <= t[lo_t].item.coords[axis] by {
            assert(t[j] == s[lo_s + (j - lo_t)]);
        }
        assert forall|j: int|
            lo_t + 1 + ll <= j < lo_t + len implies (#[trigger] t[j]).item.coords[axis]
            >= t[lo_t].item.coords[axis] by {
            assert(t[j] == s[lo_s + (j - lo_t)]);
        }
    }
}

/// Every node of a well-formed range holds a well-formed item of the
/// declared dimensionality.
proof fn lemma_kd_wf_all(s: Seq<KdNodeV>, lo: int, hi: int, d: int, axis: int)
    requires
        kd_wf(s, lo, hi, d, axis),
    ensures
        forall|j: int|
            lo <= j < hi ==> wf_point((#[trigger] s[j]).item) && s[j].item.coords.len() == d,
    decreases hi - lo,
{
    if lo < hi {
        let ll = s[lo].left_len;
        lemma_kd_wf_all(s, lo + 1, lo + 1 + ll, d, (axis + 1) % d);
        lemma_kd_wf_all(s, lo + 1 + ll, hi, d, (axis + 1) % d);
    }
}

/// The items of a range split as the node, its left items and its right
/// items.
proof fn lemma_kd_range_split(s: Seq<KdNodeV>, lo: int, hi: int, ll: int)
    requires
        0 <= lo < hi <= s.len(),
        0 <= ll,
        lo + 1 + ll <= hi,
    ensures
        kd_range_points(s, lo, hi) == Multiset::singleton(s[lo].item).add(
            kd_range_points(s, lo + 1, lo + 1 + ll),
        ).add(kd_range_points(s, lo + 1 + ll, hi)),
{
    let f = |n: KdNodeV| n.item;
    let whole = s.subrange(lo, hi);
    let left = s.subrange(lo + 1, lo + 1 + ll);
    let right = s.subrange(lo + 1 + ll, hi);
    assert(whole =~= seq![s[lo]] + left + right);
    assert((seq![s[lo]] + left + right).map_values(f) =~= seq![s[lo]].map_values(f)
        + left.map_values(f) + right.map_values(f));
    vstd::seq_lib::lemma_multiset_commutative(
        seq![s[lo]].map_values(f) + left.map_values(f),
        right.map_values(f),
    );
    vstd::seq_lib::lemma_multiset_commutative(seq![s[lo]].map_values(f), left.map_values(f));
    assert(seq![s[lo]].map_values(f) =~= seq![s[lo].item]);
    assert(seq![s[lo].item].to_multiset() =~= Multiset::singleton(s[lo].item)) by {
        assert(seq![s[lo].item].drop_first() =~= Seq::<PointV>::empty());
    }
}

/// The per-axis lower bound: when every coordinate of `c` is at least as
/// close to the target as the matching coordinate of `x`, so is the whole
/// point.
pub open spec fn dominates(t: Seq<int>, c: Seq<int>, x: Seq<int>) -> bool {
    forall|j: int|
        0 <= j < t.len() ==> (t[j] - c[j]) * (t[j] - c[j]) <= (t[j] - #[trigger] x[j]) * (t[j]
            - x[j])
}

proof fn lemma_dominates_sq(t: Seq<int>, c: Seq<int>, x: Seq<int>)
    requires
        t.len() == c.len() == x.len(),
        dominates(t, c, x),
    ensures
        sq_dist(t, c) <= sq_dist(t, x),
    decreases t.len(),
{
    if t.len() > 0 {
        assert((t[0] - c[0]) * (t[0] - c[0]) <= (t[0] - x[0]) * (t[0] - x[0]));
        assert forall|j: int|
            0 <= j < t.drop_first().len() implies (t.drop_first()[j] - c.drop_first()[j]) * (
        t.drop_first()[j] - c.drop_first()[j]) <= (t.drop_first()[j] - #[trigger] x.drop_first()[j])
            * (t.drop_first()[j] - x.drop_first()[j]) by {
            assert(x.drop_first()[j] == x[j + 1]);
            assert((t[j + 1] - c[j + 1]) * (t[j + 1] - c[j + 1]) <= (t[j + 1] - x[j + 1]) * (t[j
                + 1] - x[j + 1]));
        }
        lemma_dominates_sq(t.drop_first(), c.drop_first(), x.drop_first());
    }
}

/// Sorts points in place by one coordinate, by insertion.
#[verifier::rlimit(60)]
fn sort_by_axis(items: &mut Vec<Point>, axis: usize)
    requires
        buildable(old(items)@),
        forall|i: int|
            0 <= i < old(items)@.len() ==> axis < (#[trigger] old(items)@[i])@.coords.len(),
    ensures
        points_of(final(items)@) == points_of(old(items)@),
        final(items)@.len() == old(items)@.len(),
        forall|i: int|
            0 <= i < final(items)@.len() ==> points_of(old(items)@).count(
                (#[trigger] final(items)@[i])@,
            ) > 0,
        forall|i: int, j: int|
            0 <= i < j < final(items)@.len() ==> (#[trigger] final(items)@[i])@.coords[axis as int]
                <= (#[trigger] final(items)@[j])@.coords[axis as int],
{
    let ghost orig = items@;
    let n = items.len();
    if n == 0 {
        proof {
            assert(points_of(items@) =~= points_of(orig));
        }
        return ;
    }
    let mut i: usize = 1;
    proof {
        assert forall|q: int| 0 <= q < n implies points_of(orig).count(
            (#[trigger] items@[q])@,
        ) > 0 by {
            assert(orig.map_values(|p: Point| p@)[q] == orig[q]@);
            assert(orig.map_values(|p: Point| p@).contains(orig[q]@));
        }
    }
    while i < n
        invariant
            1 <= i <= n,
            items@.len() == n,
            n == orig.len(),
            points_of(items@) == points_of(orig),
            forall|q: int| 0 <= q < n ==> points_of(orig).count((#[trigger] items@[q])@) > 0,
            forall|q: int| 0 <= q < n ==> axis < (#[trigger] items@[q])@.coords.len(),
            forall|q: int, r: int|
                0 <= q < r < i ==> (#[trigger] items@[q])@.coords[axis as int]
                    <= (#[trigger] items@[r])@.coords[axis as int],
        decreases n - i,
    {
        let key = items[i].coords[axis];
        proof {
            assert(items@[i as int]@.coords[axis as int] == items@[i as int].coords@[
                axis as int] as int);
        }
        let mut p: usize = i;
        while p > 0 && items[p - 1].coords[axis] > key
            invariant
                0 <= p <= i < n,
                items@.len() == n,
                key as int == items@[i as int]@.coords[axis as int],
                forall|q: int| 0 <= q < n ==> axis < (#[trigger] items@[q])@.coords.len(),
                forall|q: int, r: int|
                    0 <= q < r < i ==> (#[trigger] items@[q])@.coords[axis as int]
                        <= (#[trigger] items@[r])@.coords[axis as int],
                forall|q: int|
                    p <= q < i ==> (#[trigger] items@[q])@.coords[axis as int] > key as int,
            decreases p,
        {
            proof {
                assert(items@[p - 1]@.coords[axis as int] == items@[p - 1].coords@[
                    axis as int] as int);
            }
            p = p - 1;
        }
        proof {
            if p > 0 {
                assert(items@[p - 1]@.coords[axis as int] <= key as int);
            }
        }
        let ghost before = items@;
        let x = items.remove(i);
        let ghost mid = items@;
        items.insert(p, x);
        proof {
            assert(mid == before.remove(i as int));
            assert(items@ == mid.insert(p as int, x));
            assert(mid.map_values(|pt: Point| pt@) =~= before.map_values(
                |pt: Point| pt@,
            ).remove(i as int));
            assert(items@.map_values(|pt: Point| pt@) =~= mid.map_values(|pt: Point| pt@).insert(
                p as int,
                x@,
            ));
            assert(before.map_values(|pt: Point| pt@)[i as int] == x@);
            assert(points_of(items@) =~= points_of(before));
            assert forall|q: int| 0 <= q < n implies #[trigger] items@[q] == (if q < p {
                before[q]
            } else if q == p {
                before[i as int]
            } else if q <= i {
                before[q - 1]
            } else {
                before[q]
            }) by {
            }
            assert(forall|q: int|
                0 <= q < n ==> points_of(orig).count((#[trigger] items@[q])@) > 0);
            assert(forall|q: int| 0 <= q < n ==> axis < (#[trigger] items@[q])@.coords.len());
            assert(forall|q: int, r: int|
                0 <= q < r < i + 1 ==> (#[trigger] items@[q])@.coords[axis as int] <= (
                #[trigger] items@[r])@.coords[axis as int]);
        }
        i = i + 1;
    }
}

/// Builds the flat tree for one recursion level: partition around the median
/// on the axis, lay out the median first, then the left half, then the
/// right, and recurse with the next axis.
#[verifier::rlimit(80)]
fn kd_build(items: Vec<Point>, axis: usize, Ghost(d): Ghost<int>) -> (nodes: Vec<KdNode>)
    requires
        buildable(items@),
        forall|i: int| 0 <= i < items@.len() ==> (#[trigger] items@[i])@.coords.len() == d,
        1 <= d,
        (axis as int) < d,
    ensures
        nodes@.len() == items@.len(),
        kd_wf(kd_view(nodes@), 0, nodes@.len() as int, d, axis as int),
        kd_range_points(kd_view(nodes@), 0, nodes@.len() as int) == points_of(items@),
    decreases items@.len(),
{
    let ghost items0 = items@;
    let mut items = items;
    if items.len() == 0 {
        let nodes: Vec<KdNode> = Vec::new();
        proof {
            assert(kd_view(nodes@).subrange(0, 0) =~= Seq::<KdNodeV>::empty());
            assert(kd_view(nodes@).subrange(0, 0).map_values(|n: KdNodeV| n.item)
                =~= Seq::<PointV>::empty());
            assert(items0.map_values(|p: Point| p@) =~= Seq::<PointV>::empty());
        }
        return nodes;
    }
    sort_by_axis(&mut items, axis);
    let ghost sorted = items@;
    let mid = items.len() / 2;
    let right_items = items.split_off(mid + 1);
    let median = items.pop().unwrap();
    let left_items = items;
    proof {
        assert(left_items@ == sorted.subrange(0, mid as int));
        assert(right_items@ == sorted.subrange(mid + 1, sorted.len() as int));
        assert(sorted.subrange(0, mid + 1).subrange(0, mid as int) =~= left_items@);
        assert(median == sorted[mid as int]);
        assert(sorted =~= left_items@ + seq![median] + right_items@);
        lemma_points_of_concat(left_items@ + seq![median], right_items@);
        lemma_points_of_concat(left_items@, seq![median]);
        assert(points_of(seq![median]) =~= Multiset::singleton(median@)) by {
            assert(seq![median].map_values(|p: Point| p@) =~= seq![median@]);
            assert(seq![median@].drop_first() =~= Seq::<PointV>::empty());
        }
        assert(points_of(sorted) == points_of(left_items@).add(
            Multiset::singleton(median@),
        ).add(points_of(right_items@)));
        assert(buildable(left_items@));
        assert(buildable(right_items@));
        assert forall|q: int| 0 <= q < left_items@.len() implies (
        #[trigger] left_items@[q])@.coords.len() == d by {
            let pv = (left_items@[q])@;
            assert(points_of(items0).count(pv) > 0);
            crate::metric::lemma_points_member(items0, pv);
            let w = choose|w: int| 0 <= w < items0.len() && (#[trigger] items0[w])@ == pv;
            assert(items0[w]@ == pv);
        }
        assert forall|q: int| 0 <= q < right_items@.len() implies (
        #[trigger] right_items@[q])@.coords.len() == d by {
            let pv = (right_items@[q])@;
            assert(points_of(items0).count(pv) > 0);
            crate::metric::lemma_points_member(items0, pv);
            let w = choose|w: int| 0 <= w < items0.len() && (#[trigger] items0[w])@ == pv;
            assert(items0[w]@ == pv);
        }
        assert(median@.coords.len() == d && wf_point(median@)) by {
            let pv = median@;
            assert(points_of(items0).count(pv) > 0);
            crate::metric::lemma_points_member(items0, pv);
            let w = choose|w: int| 0 <= w < items0.len() && (#[trigger] items0[w])@ == pv;
            assert(items0[w]@ == pv);
        }
    }
    let ghost lv = points_of(left_items@);
    let ghost rv = points_of(right_items@);
    let ghost medv = median@;
    let ghost med_ax = median@.coords[axis as int];
    let dim = median.coords.len();
    let next_axis = if axis + 1 == dim {
        0
    } else {
        axis + 1
    };
    proof {
        assert(next_axis as int == (axis as int + 1) % d) by {
            if axis + 1 == dim {
                assert((axis as int + 1) % d == 0) by (nonlinear_arith)
                    requires
                        axis as int + 1 == d,
                        d >= 1,
                ;
            } else {
                vstd::arithmetic::div_mod::lemma_small_mod((axis + 1) as nat, d as nat);
            }
        }
    }
    let left_nodes = kd_build(left_items, next_axis, Ghost(d));
    let right_nodes = kd_build(right_items, next_axis, Ghost(d));
    let ll = left_nodes.len();
    let ghost lnv = kd_view(left_nodes@);
    let ghost rnv = kd_view(right_nodes@);
    let mut nodes: Vec<KdNode> = Vec::new();
    nodes.push(KdNode { item: median, left_len: ll });
    let mut l = left_nodes;
    nodes.append(&mut l);
    let mut r = right_nodes;
    nodes.append(&mut r);
    proof {
        let sv = kd_view(nodes@);
        assert(sv[0].item == medv && sv[0].left_len == ll as int);
        assert forall|k: int| 0 <= k < ll implies #[trigger] sv[1 + k] == lnv[k] by {
        }
        assert forall|k: int| 0 <= k < rnv.len() implies #[trigger] sv[1 + ll + k] == rnv[k] by {
        }
        lemma_kd_assemble(
            sv,
            lnv,
            rnv,
            medv,
            sorted,
            left_items@,
            right_items@,
            mid as int,
            ll as int,
            d,
            axis as int,
            next_axis as int,
        );
        assert(points_of(sorted) == points_of(items0));
        assert(kd_range_points(sv, 0, sv.len() as int) =~= points_of(items0));
    }
    nodes
}

/// Assembles well-formedness and contents of one tree level from its parts:
/// the median node first, the left half next, the right half after.
#[verifier::rlimit(80)]
proof fn lemma_kd_assemble(
    sv: Seq<KdNodeV>,
    lnv: Seq<KdNodeV>,
    rnv: Seq<KdNodeV>,
    medv: PointV,
    sorted: Seq<Point>,
    left_items: Seq<Point>,
    right_items: Seq<Point>,
    mid: int,
    ll: int,
    d: int,
    axis: int,
    next_axis: int,
)
    requires
        0 <= mid < sorted.len(),
        mid == sorted.len() / 2,
        ll == mid,
        lnv.len() == ll,
        rnv.len() == sorted.len() - mid - 1,
        sv.len() == 1 + ll + rnv.len(),
        sv[0].item == medv,
        sv[0].left_len == ll,
        forall|k: int| 0 <= k < ll ==> #[trigger] sv[1 + k] == lnv[k],
        forall|k: int| 0 <= k < rnv.len() ==> #[trigger] sv[1 + ll + k] == rnv[k],
        kd_wf(lnv, 0, ll, d, next_axis),
        kd_wf(rnv, 0, rnv.len() as int, d, next_axis),
        kd_range_points(lnv, 0, ll) == points_of(left_items),
        kd_range_points(rnv, 0, rnv.len() as int) == points_of(right_items),
        left_items == sorted.subrange(0, mid),
        right_items == sorted.subrange(mid + 1, sorted.len() as int),
        medv == sorted[mid]@,
        wf_point(medv),
        medv.coords.len() == d,
        0 <= axis < d,
        next_axis == (axis + 1) % d,
        forall|i: int, j: int|
            0 <= i < j < sorted.len() ==> (#[trigger] sorted[i])@.coords[axis] <= (
            #[trigger] sorted[j])@.coords[axis],
    ensures
        kd_wf(sv, 0, sv.len() as int, d, axis),
        kd_range_points(sv, 0, sv.len() as int) == points_of(sorted),
{
    let len = sv.len() as int;
    let rl = rnv.len() as int;
    let med_ax = medv.coords[axis];
    lemma_kd_wf_shift(lnv, sv, 0, 1, ll, d, next_axis);
    lemma_kd_wf_shift(rnv, sv, 0, 1 + ll, rl, d, next_axis);
    assert forall|j: int| 1 <= j < 1 + ll implies (#[trigger] sv[j]).item.coords[axis]
        <= med_ax by {
        assert(sv[1 + (j - 1)] == lnv[j - 1]);
        let it = sv[j].item;
        assert(sv[j] == lnv[j - 1]);
        assert(lnv.subrange(0, ll) =~= lnv);
        assert(lnv.map_values(|n: KdNodeV| n.item)[j - 1] == it);
        assert(lnv.map_values(|n: KdNodeV| n.item).contains(it));
        assert(kd_range_points(lnv, 0, ll).count(it) > 0);
        crate::metric::lemma_points_member(left_items, it);
        let q = choose|q: int| 0 <= q < left_items.len() && (#[trigger] left_items[q])@ == it;
        assert(left_items[q] == sorted[q]);
        assert(sorted[q]@.coords[axis] <= sorted[mid]@.coords[axis]);
    }
    assert forall|j: int| 1 + ll <= j < len implies (#[trigger] sv[j]).item.coords[axis]
        >= med_ax by {
        assert(sv[1 + ll + (j - 1 - ll)] == rnv[j - 1 - ll]);
        let it = sv[j].item;
        assert(sv[j] == rnv[j - 1 - ll]);
        assert(rnv.subrange(0, rl) =~= rnv);
        assert(rnv.map_values(|n: KdNodeV| n.item)[j - 1 - ll] == it);
        assert(rnv.map_values(|n: KdNodeV| n.item).contains(it));
        assert(kd_range_points(rnv, 0, rl).count(it) > 0);
        crate::metric::lemma_points_member(right_items, it);
        let q = choose|q: int| 0 <= q < right_items.len() && (#[trigger] right_items[q])@ == it;
        assert(right_items[q] == sorted[mid + 1 + q]);
        assert(sorted[mid]@.coords[axis] <= sorted[mid + 1 + q]@.coords[axis]);
    }
    assert(kd_wf(sv, 0, len, d, axis));
    lemma_kd_range_split(sv, 0, len, ll);
    assert(kd_range_points(sv, 1, 1 + ll) == kd_range_points(lnv, 0, ll)) by {
        assert forall|k: int| 0 <= k < ll implies sv.subrange(1, 1 + ll)[k] == lnv[k] by {
            assert(sv[1 + k] == lnv[k]);
        }
        assert(sv.subrange(1, 1 + ll) =~= lnv);
        assert(sv.subrange(1, 1 + ll).map_values(|n: KdNodeV| n.item) =~= lnv.subrange(
            0,
            ll,
        ).map_values(|n: KdNodeV| n.item));
    }
    assert(kd_range_points(sv, 1 + ll, len) == kd_range_points(rnv, 0, rl)) by {
        assert forall|k: int| 0 <= k < rl implies sv.subrange(1 + ll, len)[k] == rnv[k] by {
            assert(sv[1 + ll + k] == rnv[k]);
        }
        assert(sv.subrange(1 + ll, len) =~= rnv);
        assert(sv.subrange(1 + ll, len).map_values(|n: KdNodeV| n.item) =~= rnv.subrange(
            0,
            rl,
        ).map_values(|n: KdNodeV| n.item));
    }
    assert(sorted =~= left_items + seq![sorted[mid]] + right_items);
    lemma_points_of_concat(left_items + seq![sorted[mid]], right_items);
    lemma_points_of_concat(left_items, seq![sorted[mid]]);
    assert(points_of(seq![sorted[mid]]) =~= Multiset::singleton(medv)) by {
        assert(seq![sorted[mid]].map_values(|p: Point| p@) =~= seq![medv]);
        assert(seq![medv].drop_first() =~= Seq::<PointV>::empty());
    }
    assert(kd_range_points(sv, 0, len) =~= points_of(sorted));
}

/// An item counted in a range stands at some node of it.
proof fn lemma_kd_range_member(s: Seq<KdNodeV>, lo: int, hi: int, p: PointV)
    requires
        0 <= lo <= hi <= s.len(),
        kd_range_points(s, lo, hi).count(p) > 0,
    ensures
        exists|j: int| lo <= j < hi && (#[trigger] s[j]).item == p,
{
    let sub = s.subrange(lo, hi).map_values(|n: KdNodeV| n.item);
    assert(sub.contains(p));
    let k = choose|k: int| 0 <= k < sub.len() && #[trigger] sub[k] == p;
    assert(s[lo + k].item == p);
}

/// An empty range offers nothing.
proof fn lemma_kd_range_empty(s: Seq<KdNodeV>, lo: int)
    requires
        0 <= lo <= s.len(),
    ensures
        kd_range_points(s, lo, lo) == Multiset::<PointV>::empty(),
{
    assert(s.subrange(lo, lo) =~= Seq::<KdNodeV>::empty());
    assert(s.subrange(lo, lo).map_values(|n: KdNodeV| n.item) =~= Seq::<PointV>::empty());
}

/// The recursive nearest-neighbor descent.
///
/// `closest` is the working point: coordinate by coordinate, the closest any
/// item of the current subtree can come to the target.  The near child is
/// always visited; the far child only when the projection of the target onto
/// the splitting plane is still admissible.
#[verifier::rlimit(100)]
fn kd_recurse(
    nodes: &Vec<KdNode>,
    lo: usize,
    hi: usize,
    axis: usize,
    tvec: &Vec<i64>,
    closest: Vec<i64>,
    acc: Neighborhood,
) -> (res: (Vec<i64>, Neighborhood))
    requires
        lo < hi <= nodes@.len(),
        nb_wf(acc@),
        kd_wf(kd_view(nodes@), lo as int, hi as int, acc@.target.len() as int, axis as int),
        (axis as int) < acc@.target.len(),
        tvec@.map_values(|c: i64| c as int) == acc@.target,
        closest@.len() == acc@.target.len(),
        forall|j: int| 0 <= j < closest@.len() ==> -crate::COORD_LIMIT <= #[trigger] closest@[j]
            <= crate::COORD_LIMIT,
        forall|j: int|
            lo <= j < hi ==> dominates(
                acc@.target,
                closest@.map_values(|c: i64| c as int),
                (#[trigger] kd_view(nodes@)[j]).item.coords,
            ),
    ensures
        res.0@ == closest@,
        nb_wf(res.1@),
        absorb(
            acc@,
            search_input(
                kd_range_points(kd_view(nodes@), lo as int, hi as int),
                acc@.filter,
            ),
            res.1@,
        ),
    decreases hi - lo,
{
    let ghost sv = kd_view(nodes@);
    let ghost d = acc@.target.len() as int;
    let ghost f = acc@.filter;
    let ghost acc0 = acc@;
    let ghost cv = closest@.map_values(|c: i64| c as int);
    let mut acc = acc;
    let mut closest = closest;
    let ghost cl0 = closest@;
    proof {
        assert(kd_wf(sv, lo as int, hi as int, d, axis as int));
        assert(sv[lo as int] == nodes@[lo as int]@);
    }
    let node = &nodes[lo];
    let ghost nv = node@.item;
    acc.consider(&node.item);
    let ghost a1 = acc@;
    proof {
        crate::metric::lemma_search_input_singleton(nv, f);
        if f && nv.deleted {
            lemma_absorb_refl(acc0);
            assert(a1 == acc0);
        }
    }
    let ghost mnode = search_input(Multiset::singleton(nv), f);
    let ll = node.left_len;
    proof {
        assert(sv[lo as int].left_len == ll as int);
        assert(lo as int + 1 + ll as int <= hi as int);
    }
    let left_lo = lo + 1;
    let left_hi = lo + 1 + ll;
    let ghost lpts = kd_range_points(sv, left_lo as int, left_hi as int);
    let ghost rpts = kd_range_points(sv, left_hi as int, hi as int);
    let ghost next = (axis as int + 1) % d;
    let dim = closest.len();
    let next_axis = if axis + 1 == dim {
        0
    } else {
        axis + 1
    };
    proof {
        assert(next_axis as int == next) by {
            if axis + 1 == dim {
                assert((axis as int + 1) % d == 0) by (nonlinear_arith)
                    requires
                        axis as int + 1 == d,
                        d >= 1,
                ;
            } else {
                vstd::arithmetic::div_mod::lemma_small_mod((axis + 1) as nat, d as nat);
            }
        }
        lemma_kd_range_split(sv, lo as int, hi as int, ll as int);
        crate::metric::lemma_search_input_add(
            Multiset::singleton(nv).add(lpts),
            rpts,
            f,
        );
        crate::metric::lemma_search_input_add(Multiset::singleton(nv), lpts, f);
    }
    let ti = tvec[axis];
    let ni = node.item.coords[axis];
    proof {
        assert(ti as int == acc0.target[axis as int]);
        assert(ni as int == nv.coords[axis as int]);
        assert(-crate::COORD_LIMIT <= ni <= crate::COORD_LIMIT) by {
            assert(nv.coords[axis as int] == node.item.coords@[axis as int] as int);
        }
    }
    let go_left = ti <= ni;
    let ghost near_lo = if go_left { left_lo as int } else { left_hi as int };
    let ghost near_hi = if go_left { left_hi as int } else { hi as int };
    let ghost far_lo = if go_left { left_hi as int } else { left_lo as int };
    let ghost far_hi = if go_left { hi as int } else { left_hi as int };
    let near_lo_e = if go_left { left_lo } else { left_hi };
    let near_hi_e = if go_left { left_hi } else { hi };
    let far_lo_e = if go_left { left_hi } else { left_lo };
    let far_hi_e = if go_left { hi } else { left_hi };
    let ghost near_pts = kd_range_points(sv, near_lo, near_hi);
    let ghost far_pts = kd_range_points(sv, far_lo, far_hi);

    // Visit the near subtree unconditionally.
    if near_lo_e < near_hi_e {
        let r = kd_recurse(nodes, near_lo_e, near_hi_e, next_axis, tvec, closest, acc);
        closest = r.0;
        acc = r.1;
        proof {
            lemma_absorb_trans(acc0, mnode, a1, search_input(near_pts, f), acc@);
        }
    } else {
        proof {
            lemma_kd_range_empty(sv, near_lo);
            crate::metric::lemma_search_input_empty(f);
            lemma_absorb_refl(a1);
            lemma_absorb_trans(acc0, mnode, a1, search_input(near_pts, f), acc@);
        }
    }
    let ghost a2 = acc@;

    // Visit the far subtree only when the projection onto the splitting
    // plane is still admissible.
    if far_lo_e < far_hi_e {
        let saved = closest[axis];
        closest[axis] = ni;
        let ghost cv2 = closest@.map_values(|c: i64| c as int);
        proof {
            assert(cv2 =~= cv.update(axis as int, ni as int));
            assert forall|j: int|
                far_lo <= j < far_hi implies dominates(
                acc0.target,
                cv2,
                (#[trigger] sv[j]).item.coords,
            ) by {
                let x = sv[j].item.coords;
                assert(dominates(acc0.target, cv, x));
                assert forall|m: int|
                    0 <= m < acc0.target.len() implies (acc0.target[m] - cv2[m]) * (acc0.target[m]
                    - cv2[m]) <= (acc0.target[m] - #[trigger] x[m]) * (acc0.target[m] - x[m]) by {
                    if m == axis as int {
                        let t0 = acc0.target[m];
                        if go_left {
                            assert(x[m] >= ni as int);
                            assert(t0 <= ni as int);
                            assert((t0 - ni as int) * (t0 - ni as int) <= (t0 - x[m]) * (t0
                                - x[m])) by (nonlinear_arith)
                                requires
                                    t0 <= ni as int <= x[m],
                            ;
                        } else {
                            assert(x[m] <= ni as int);
                            assert(t0 > ni as int);
                            assert((t0 - ni as int) * (t0 - ni as int) <= (t0 - x[m]) * (t0
                                - x[m])) by (nonlinear_arith)
                                requires
                                    x[m] <= ni as int <= t0,
                            ;
                        }
                    } else {
                        assert((acc0.target[m] - cv[m]) * (acc0.target[m] - cv[m]) <= (
                        acc0.target[m] - x[m]) * (acc0.target[m] - x[m]));
                    }
                }
            }
        }
        proof {
            assert forall|j: int| 0 <= j < tvec@.len() implies -crate::COORD_LIMIT
                <= #[trigger] tvec@[j] <= crate::COORD_LIMIT by {
                assert(acc0.target[j] == tvec@[j] as int);
            }
            assert forall|j: int| 0 <= j < closest@.len() implies -crate::COORD_LIMIT
                <= #[trigger] closest@[j] <= crate::COORD_LIMIT by {
                if j != axis as int {
                    assert(closest@[j] == cl0[j]);
                }
            }
        }
        let dcheck = crate::metric::sq_distance(tvec, &closest);
        let admit_far = acc.contains_distance(dcheck);
        if admit_far {
            let r = kd_recurse(nodes, far_lo_e, far_hi_e, next_axis, tvec, closest, acc);
            closest = r.0;
            acc = r.1;
            proof {
                lemma_absorb_trans(
                    acc0,
                    mnode.add(search_input(near_pts, f)),
                    a2,
                    search_input(far_pts, f),
                    acc@,
                );
            }
        } else {
            proof {
                let m = search_input(far_pts, f);
                assert forall|p: PointV| #[trigger] m.count(p) > 0 implies !contains_sq(
                    a2,
                    sq_dist(a2.target, p.coords),
                ) by {
                    crate::metric::lemma_search_input_subset(far_pts, f);
                    assert(far_pts.count(p) > 0);
                    lemma_kd_range_member(sv, far_lo, far_hi, p);
                    let j = choose|j: int| far_lo <= j < far_hi && (#[trigger] sv[j]).item == p;
                    lemma_kd_wf_all(sv, far_lo, far_hi, d, next);
                    lemma_dominates_sq(acc0.target, cv2, p.coords);
                    assert(sq_dist(a2.target, p.coords) >= dcheck as int);
                }
                lemma_absorb_skip(a2, m);
                lemma_absorb_trans(
                    acc0,
                    mnode.add(search_input(near_pts, f)),
                    a2,
                    m,
                    acc@,
                );
            }
        }
        closest[axis] = saved;
        proof {
            assert(closest@ =~= cl0);
        }
    } else {
        proof {
            lemma_kd_range_empty(sv, far_lo);
            crate::metric::lemma_search_input_empty(f);
            lemma_absorb_refl(a2);
            lemma_absorb_trans(
                acc0,
                mnode.add(search_input(near_pts, f)),
                a2,
                search_input(far_pts, f),
                acc@,
            );
        }
    }
    proof {
        assert(mnode.add(search_input(near_pts, f)).add(search_input(far_pts, f))
            =~= search_input(
            kd_range_points(sv, lo as int, hi as int),
            f,
        ));
    }
    (closest, acc)
}

/// A k-d tree: a static nearest-neighbor index over integer Cartesian
/// points, stored as one flat array.
#[derive(Debug)]
pub struct KdTree {
    nodes: Vec<KdNode>,
}

impl NearestNeighbors for KdTree {
    closed spec fn contents(&self) -> Multiset<PointV> {
        kd_range_points(kd_view(self.nodes@), 0, self.nodes@.len() as int)
    }

    open spec fn query_items(&self, filtered: bool) -> Multiset<PointV> {
        search_input(self.contents(), filtered)
    }

    closed spec fn inv(&self) -> bool {
        &&& self.nodes@.len() <= COUNT_LIMIT
        &&& (self.nodes@.len() == 0 || kd_wf(
            kd_view(self.nodes@),
            0,
            self.nodes@.len() as int,
            kd_view(self.nodes@)[0].item.coords.len() as int,
            0,
        ))
    }

    fn from_vec(items: Vec<Point>) -> (r: Self) {
        if items.len() == 0 {
            let r = KdTree { nodes: Vec::new() };
            proof {
                lemma_kd_range_empty(kd_view(r.nodes@), 0);
                assert(points_of(items@) =~= Multiset::<PointV>::empty()) by {
                    assert(items@.map_values(|p: Point| p@) =~= Seq::<PointV>::empty());
                }
            }
            r
        } else {
            let ghost d = items@[0]@.coords.len() as int;
            proof {
                assert(wf_point(items@[0]@));
            }
            let nodes = kd_build(items, 0, Ghost(d));
            let r = KdTree { nodes };
            proof {
                if r.nodes@.len() > 0 {
                    assert(kd_view(r.nodes@)[0].item.coords.len() == d);
                }
            }
            r
        }
    }

    fn search(&self, acc: Neighborhood) -> (out: Neighborhood) {
        let ghost acc0 = acc@;
        let ghost f = acc0.filter;
        let n = self.nodes.len();
        if n == 0 {
            proof {
                lemma_kd_range_empty(kd_view(self.nodes@), 0);
                lemma_search_input_empty(f);
                lemma_absorb_refl(acc0);
            }
            acc
        } else {
            let ghost sv = kd_view(self.nodes@);
            let ghost d = acc0.target.len() as int;
            proof {
                let it0 = sv[0].item;
                assert(sv.subrange(0, n as int) =~= sv);
                assert(sv.map_values(|x: KdNodeV| x.item)[0] == it0);
                assert(sv.map_values(|x: KdNodeV| x.item).contains(it0));
                assert(self.contents().count(it0) > 0);
                assert(it0.coords.len() == d);
                assert(wf_point(it0));
                assert(kd_wf(sv, 0, n as int, d, 0));
            }
            let tv = acc.target_coords();
            let cl = acc.target_coords();
            proof {
                assert forall|j: int| 0 <= j < cl@.len() implies -crate::COORD_LIMIT
                    <= #[trigger] cl@[j] <= crate::COORD_LIMIT by {
                    assert(acc0.target[j] == cl@[j] as int);
                }
                assert forall|j: int|
                    0 <= j < n implies dominates(
                    acc0.target,
                    cl@.map_values(|c: i64| c as int),
                    (#[trigger] sv[j]).item.coords,
                ) by {
                    let x = sv[j].item.coords;
                    assert forall|m: int|
                        0 <= m < acc0.target.len() implies (acc0.target[m] - acc0.target[m]) * (
                    acc0.target[m] - acc0.target[m]) <= (acc0.target[m] - #[trigger] x[m]) * (
                    acc0.target[m] - x[m]) by {
                        assert((acc0.target[m] - x[m]) * (acc0.target[m] - x[m]) >= 0)
                            by (nonlinear_arith);
                    }
                    assert(cl@.map_values(|c: i64| c as int) == acc0.target);
                }
            }
            let r = kd_recurse(&self.nodes, 0, n, 0, &tv, cl, acc);
            r.1
        }
    }

    fn into_vec(self) -> (v: Vec<Point>) {
        let ghost c0 = self.contents();
        let ghost orig = kd_view(self.nodes@);
        let ghost n0 = self.nodes@.len() as int;
        let ghost d = if n0 > 0 {
            orig[0].item.coords.len() as int
        } else {
            1
        };
        proof {
            if n0 > 0 {
                lemma_kd_wf_all(orig, 0, n0, d, 0);
            }
        }
        let mut nodes = self.nodes;
        let mut out: Vec<Point> = Vec::new();
        proof {
            assert(points_of(out@) =~= Multiset::<PointV>::empty()) by {
                assert(out@.map_values(|p: Point| p@) =~= Seq::<PointV>::empty());
            }
            assert(kd_view(nodes@) =~= orig.subrange(0, nodes@.len() as int));
        }
        while nodes.len() > 0
            invariant
                orig.len() == n0,
                0 <= n0,
                nodes@.len() <= n0,
                kd_view(nodes@) == orig.subrange(0, nodes@.len() as int),
                points_of(out@).add(
                    kd_range_points(kd_view(nodes@), 0, nodes@.len() as int),
                ) == c0,
                forall|j: int|
                    0 <= j < n0 ==> wf_point((#[trigger] orig[j]).item) && orig[j].item.coords.len()
                        == d,
                out@.len() + nodes@.len() == n0,
                forall|i: int| 0 <= i < out@.len() ==> wf_point((#[trigger] out@[i])@) && (
                #[trigger] out@[i])@.coords.len() == d,
            decreases nodes@.len(),
        {
            let ghost pre = nodes@;
            let ghost k = pre.len() as int;
            let node = nodes.pop().unwrap();
            let ghost outpre = out@;
            proof {
                assert(nodes@ == pre.subrange(0, k - 1));
                assert(kd_view(nodes@) =~= orig.subrange(0, k - 1)) by {
                    assert forall|j: int| 0 <= j < k - 1 implies kd_view(nodes@)[j] == orig[j] by {
                        assert(kd_view(nodes@)[j] == nodes@[j]@);
                        assert(nodes@[j] == pre[j]);
                        assert(kd_view(pre)[j] == pre[j]@);
                        assert(kd_view(pre)[j] == orig.subrange(0, k)[j]);
                        assert(orig.subrange(0, k)[j] == orig[j]);
                    }
                }
                assert(node == pre[k - 1]);
                assert(kd_view(pre)[k - 1] == pre[k - 1]@);
                assert(kd_view(pre)[k - 1] == orig.subrange(0, k)[k - 1]);
                assert(node@ == orig[k - 1]);
                let mpre = kd_view(pre).subrange(0, k).map_values(|x: KdNodeV| x.item);
                let mnow = kd_view(nodes@).subrange(0, k - 1).map_values(|x: KdNodeV| x.item);
                assert(kd_view(pre).subrange(0, k) =~= kd_view(pre));
                assert(kd_view(nodes@).subrange(0, k - 1) =~= kd_view(nodes@));
                assert(mpre =~= mnow.push(node@.item));
            }
            out.push(node.item);
            proof {
                assert(out@ == outpre.push(node.item));
                crate::metric::lemma_points_of_snoc(out@, outpre.len() as int);
                assert(out@.take(outpre.len() as int) =~= outpre);
                assert(out@.take(outpre.len() as int + 1) =~= out@);
                assert(points_of(out@).add(
                    kd_range_points(kd_view(nodes@), 0, nodes@.len() as int),
                ) =~= c0);
            }
        }
        proof {
            lemma_kd_range_empty(kd_view(nodes@), 0);
            assert(points_of(out@) =~= c0);
            assert(points_of(out@).len() == out@.len());
        }
        out
    }

    proof fn query_items_law(&self, filtered: bool) {
        lemma_search_input_subset(self.contents(), filtered);
        lemma_live_subset(self.contents(), filtered);
    }
}

} // verus!
