//! Vantage-point trees.
//!
//! A [`VpTree`] is a static index for general metric queries: each node
//! stores a vantage point and the squared radius separating its inside
//! subtree — items within the radius — from its outside subtree.  Searches
//! prune with the triangle inequality, decided exactly on squared
//! distances.

use vstd::prelude::*;
use vstd::multiset::Multiset;
use crate::COUNT_LIMIT;
use crate::metric::{
    absorb, buildable, contains_sq, lemma_absorb_refl, lemma_absorb_skip,
    lemma_absorb_trans, lemma_live_subset, lemma_max_sq_dist_value, lemma_points_of_concat,
    lemma_search_input_add, lemma_search_input_empty, lemma_search_input_subset,
    lemma_sq_dist_nonneg, max_sq_dist, nb_wf, NearestNeighbors, Neighborhood, Point, PointV,
    points_of, search_input, sq_dist, wf_point,
};

verus! {

broadcast use vstd::multiset::group_multiset_axioms, vstd::seq_lib::group_to_multiset_ensures;

/// The inner product of two coordinate sequences.
pub open spec fn dot(a: Seq<int>, b: Seq<int>) -> int
    decreases a.len(),
{
    if a.len() == 0 {
        0
    } else {
        a[0] * b[0] + dot(a.drop_first(), b.drop_first())
    }
}

/// The componentwise difference of two coordinate sequences.
pub open spec fn seq_sub(a: Seq<int>, b: Seq<int>) -> Seq<int> {
    Seq::new(a.len(), |i: int| a[i] - b[i])
}

/// The root of `a` is at most the sum of the roots of `b` and `c`, stated
/// exactly over the squares (all three non-negative).
pub open spec fn within_sum_of_roots(a: int, b: int, c: int) -> bool {
    a <= b + c || (a - b - c) * (a - b - c) <= 4 * b * c
}

/// The squared distance is the inner product of the difference with itself.
proof fn lemma_sq_dist_is_dot(a: Seq<int>, b: Seq<int>)
    requires
        a.len() == b.len(),
    ensures
        sq_dist(a, b) == dot(seq_sub(a, b), seq_sub(a, b)),
    decreases a.len(),
{
    if a.len() > 0 {
        lemma_sq_dist_is_dot(a.drop_first(), b.drop_first());
        assert(seq_sub(a, b).drop_first() =~= seq_sub(a.drop_first(), b.drop_first()));
        assert(seq_sub(a, b)[0] == a[0] - b[0]);
    }
}

/// The squared distance is symmetric.
pub proof fn lemma_sq_dist_sym(a: Seq<int>, b: Seq<int>)
    requires
        a.len() == b.len(),
    ensures
        sq_dist(a, b) == sq_dist(b, a),
    decreases a.len(),
{
    if a.len() > 0 {
        lemma_sq_dist_sym(a.drop_first(), b.drop_first());
        assert((a[0] - b[0]) * (a[0] - b[0]) == (b[0] - a[0]) * (b[0] - a[0])) by (nonlinear_arith);
    }
}

/// A product of non-negatives is non-negative.
proof fn lemma_mul_nonneg(a: int, b: int)
    requires
        0 <= a,
        0 <= b,
    ensures
        0 <= a * b,
{
    assert(0 <= a * b) by (nonlinear_arith)
        requires
            0 <= a,
            0 <= b,
    ;
}

/// Multiplying both sides of an inequality by a non-negative factor.
proof fn lemma_mul_mono(m: int, u: int, v: int)
    requires
        0 <= m,
        u <= v,
    ensures
        m * u <= m * v,
{
    assert(m * u <= m * v) by (nonlinear_arith)
        requires
            0 <= m,
            u <= v,
    ;
}

/// The arithmetic–geometric mean inequality, in the form the
/// Cauchy–Schwarz induction needs: a sum of non-negatives dominates twice
/// anything whose square their product dominates.
proof fn lemma_am_gm(p: int, q: int, w: int)
    requires
        0 <= p,
        0 <= q,
        w * w <= p * q,
    ensures
        2 * w <= p + q,
{
    if w > 0 {
        assert(2 * w <= p + q) by (nonlinear_arith)
            requires
                0 <= p,
                0 <= q,
                w * w <= p * q,
                w > 0,
        ;
    }
}

/// The Cauchy–Schwarz inequality over integer sequences.
proof fn lemma_cauchy_schwarz(a: Seq<int>, b: Seq<int>)
    requires
        a.len() == b.len(),
    ensures
        dot(a, b) * dot(a, b) <= dot(a, a) * dot(b, b),
        dot(a, a) >= 0,
        dot(b, b) >= 0,
    decreases a.len(),
{
    if a.len() == 0 {
    } else {
        let x = a[0];
        let y = b[0];
        let ar = a.drop_first();
        let br = b.drop_first();
        lemma_cauchy_schwarz(ar, br);
        let r = dot(ar, br);
        let aa = dot(ar, ar);
        let bb = dot(br, br);
        assert(dot(a, b) == x * y + r);
        assert(dot(a, a) == x * x + aa);
        assert(dot(b, b) == y * y + bb);
        assert(0 <= x * x && 0 <= y * y) by (nonlinear_arith);
        lemma_mul_nonneg(x * x, bb);
        lemma_mul_nonneg(y * y, aa);
        // ((x*y)*r)^2 <= ((x*x)*bb) * ((y*y)*aa), via m = (x*y)^2
        let m = (x * y) * (x * y);
        assert(0 <= m) by (nonlinear_arith)
            requires
                m == (x * y) * (x * y),
        ;
        lemma_mul_mono(m, r * r, aa * bb);
        assert(((x * y) * r) * ((x * y) * r) == m * (r * r)) by (nonlinear_arith)
            requires
                m == (x * y) * (x * y),
        ;
        assert(((x * x) * bb) * ((y * y) * aa) == m * (aa * bb)) by (nonlinear_arith)
            requires
                m == (x * y) * (x * y),
        ;
        lemma_am_gm((x * x) * bb, (y * y) * aa, (x * y) * r);
        // expand both sides of the goal and finish linearly
        assert((x * y + r) * (x * y + r) == m + 2 * ((x * y) * r) + r * r) by (nonlinear_arith)
            requires
                m == (x * y) * (x * y),
        ;
        assert((x * x + aa) * (y * y + bb) == m + (x * x) * bb + (y * y) * aa + aa * bb)
            by (nonlinear_arith)
            requires
                m == (x * y) * (x * y),
        ;
    }
}

/// The law of cosines, in integer form: the squared distance across two legs
/// expands into both legs and a cross term.
proof fn lemma_sq_dist_expand(t: Seq<int>, u: Seq<int>, w: Seq<int>)
    requires
        t.len() == u.len() == w.len(),
    ensures
        sq_dist(t, w) == sq_dist(t, u) + sq_dist(u, w) + 2 * dot(seq_sub(t, u), seq_sub(u, w)),
    decreases t.len(),
{
    if t.len() > 0 {
        lemma_sq_dist_expand(t.drop_first(), u.drop_first(), w.drop_first());
        assert(seq_sub(t, u).drop_first() =~= seq_sub(t.drop_first(), u.drop_first()));
        assert(seq_sub(u, w).drop_first() =~= seq_sub(u.drop_first(), w.drop_first()));
        assert(seq_sub(t, u)[0] == t[0] - u[0]);
        assert(seq_sub(u, w)[0] == u[0] - w[0]);
        assert((t[0] - w[0]) * (t[0] - w[0]) == (t[0] - u[0]) * (t[0] - u[0]) + (u[0] - w[0]) * (
        u[0] - w[0]) + 2 * ((t[0] - u[0]) * (u[0] - w[0]))) by (nonlinear_arith);
    }
}

/// The triangle inequality on squared distances: the distance from `t` to
/// `w` is at most the distance through `u`, stated over squares.
pub proof fn lemma_triangle(t: Seq<int>, u: Seq<int>, w: Seq<int>)
    requires
        t.len() == u.len() == w.len(),
    ensures
        within_sum_of_roots(sq_dist(t, w), sq_dist(t, u), sq_dist(u, w)),
{
    lemma_sq_dist_expand(t, u, w);
    let x = seq_sub(t, u);
    let y = seq_sub(u, w);
    lemma_cauchy_schwarz(x, y);
    lemma_sq_dist_is_dot(t, u);
    lemma_sq_dist_is_dot(u, w);
    let r = dot(x, y);
    let aa = sq_dist(t, u);
    let bb = sq_dist(u, w);
    if r <= 0 {
        assert(sq_dist(t, w) <= aa + bb);
    } else {
        assert((2 * r) * (2 * r) == 4 * (r * r)) by (nonlinear_arith);
        assert(4 * (r * r) <= 4 * (aa * bb));
        assert(sq_dist(t, w) - aa - bb == 2 * r);
        assert((sq_dist(t, w) - aa - bb) * (sq_dist(t, w) - aa - bb) <= 4 * aa * bb)
            by (nonlinear_arith)
            requires
                sq_dist(t, w) - aa - bb == 2 * r,
                (2 * r) * (2 * r) <= 4 * (aa * bb),
        ;
    }
}

/// Pruning the inside subtree is sound: when the vantage point is farther
/// from the target than the threshold plus the radius, every item within the
/// radius of the vantage point is beyond the threshold.
proof fn lemma_prune_inside(dd: int, rr: int, ss: int, tt: int, qx: int)
    requires
        0 <= dd,
        0 <= rr,
        0 <= ss <= rr,
        0 <= tt,
        0 <= qx,
        !within_sum_of_roots(dd, tt, rr),
        within_sum_of_roots(dd, qx, ss),
    ensures
        qx > tt,
{
    if qx <= tt {
        assert(dd > tt + rr && (dd - tt - rr) * (dd - tt - rr) > 4 * tt * rr);
        if dd <= qx + ss {
        } else {
            assert((dd - qx - ss) * (dd - qx - ss) <= 4 * qx * ss);
            assert(4 * qx * ss <= 4 * tt * rr) by (nonlinear_arith)
                requires
                    0 <= qx <= tt,
                    0 <= ss <= rr,
            ;
            assert((dd - qx - ss) * (dd - qx - ss) >= (dd - tt - rr) * (dd - tt - rr))
                by (nonlinear_arith)
                requires
                    dd - qx - ss >= dd - tt - rr,
                    dd - tt - rr > 0,
            ;
        }
    }
}

/// Pruning the outside subtree is sound: when the radius exceeds the
/// distance to the vantage point by more than the threshold, every item
/// outside the radius is beyond the threshold.
proof fn lemma_prune_outside(dd: int, rr: int, ss: int, tt: int, qx: int)
    requires
        0 <= dd,
        0 <= rr,
        ss >= rr,
        0 <= tt,
        0 <= qx,
        !within_sum_of_roots(rr, tt, dd),
        within_sum_of_roots(ss, dd, qx),
    ensures
        qx > tt,
{
    if qx <= tt {
        assert(rr > tt + dd && (rr - tt - dd) * (rr - tt - dd) > 4 * tt * dd);
        if ss <= dd + qx {
        } else {
            assert((ss - dd - qx) * (ss - dd - qx) <= 4 * dd * qx);
            assert(4 * dd * qx <= 4 * tt * dd) by (nonlinear_arith)
                requires
                    0 <= qx <= tt,
                    0 <= dd,
            ;
            assert((ss - dd - qx) * (ss - dd - qx) >= (rr - tt - dd) * (rr - tt - dd))
                by (nonlinear_arith)
                requires
                    ss - dd - qx >= rr - dd - tt,
                    rr - tt - dd > 0,
            ;
            assert(4 * tt * dd == 4 * dd * tt) by (nonlinear_arith);
        }
    }
}

/// One value's square dominated by another's, for non-negatives.
proof fn lemma_square_le(x: int, l: int)
    requires
        -l <= x <= l,
        0 <= l,
    ensures
        0 <= x * x <= l * l,
{
    assert(0 <= x * x <= l * l) by (nonlinear_arith)
        requires
            -l <= x <= l,
            0 <= l,
    ;
}

/// A product bounded factor by factor.
proof fn lemma_mul_le(a: int, b: int, la: int, lb: int)
    requires
        0 <= a <= la,
        0 <= b <= lb,
    ensures
        0 <= a * b <= la * lb,
{
    assert(0 <= a * b <= la * lb) by (nonlinear_arith)
        requires
            0 <= a <= la,
            0 <= b <= lb,
    ;
}

/// Whether a candidate whose distance from the target is the root of `a2`,
/// discounted by a detour of the root of `b2`, could still be admissible:
/// exactly whether that difference of roots is within the root of the
/// current threshold, decided on squares alone.
fn admits_root_gap(acc: &Neighborhood, a2: i64, b2: i64) -> (r: bool)
    requires
        nb_wf(acc@),
        0 <= a2 <= 0x10000000000000,
        0 <= b2 <= 0x10000000000000,
    ensures
        r == (acc@.k > 0 && (acc@.threshold is None || within_sum_of_roots(
            a2 as int,
            acc@.threshold.unwrap(),
            b2 as int,
        ))),
{
    if acc.result_limit() == 0 {
        return false;
    }
    match acc.current_threshold() {
        None => true,
        Some(t) => {
            if t >= a2 {
                true
            } else {
                // now 0 <= t < a2, so every quantity fits well inside i128
                let a = a2 as i128;
                let b = b2 as i128;
                let tt = t as i128;
                if a <= b + tt {
                    true
                } else {
                    let e = a - b - tt;
                    proof {
                        assert(0 < e <= 0x10000000000000);
                        lemma_square_le(e as int, 0x10000000000000);
                        lemma_mul_le(b as int, tt as int, 0x10000000000000, 0x10000000000000);
                        assert(4 * ((b as int) * (tt as int)) <= 4 * (0x10000000000000
                            * 0x10000000000000));
                    }
                    let r = e * e <= 4 * (b * tt);
                    proof {
                        assert((e as int) * (e as int) == (a2 as int - (t as int) - (b2 as int)) * (
                        a2 as int - (t as int) - (b2 as int))) by (nonlinear_arith)
                            requires
                                e as int == a2 as int - (b2 as int) - (t as int),
                        ;
                        assert(4 * ((b as int) * (tt as int)) == 4 * (t as int) * (b2 as int))
                            by (nonlinear_arith)
                            requires
                                b as int == b2 as int,
                                tt as int == t as int,
                        ;
                    }
                    r
                }
            }
        },
    }
}

/// An item counted in a range stands at some node of it.
proof fn lemma_vp_range_member(s: Seq<VpNodeV>, lo: int, hi: int, p: PointV)
    requires
        0 <= lo <= hi <= s.len(),
        vp_range_points(s, lo, hi).count(p) > 0,
    ensures
        exists|j: int| lo <= j < hi && (#[trigger] s[j]).item == p,
{
    let sub = s.subrange(lo, hi).map_values(|n: VpNodeV| n.item);
    assert(sub.contains(p));
    let k = choose|k: int| 0 <= k < sub.len() && #[trigger] sub[k] == p;
    assert(s[lo + k].item == p);
}

/// A node of a vantage-point tree: the vantage point, the squared radius of
/// its inside ball, and the size of the inside subtree.
#[derive(Debug)]
pub struct VpNode {
    item: Point,
    radius2: i64,
    inside_len: usize,
}

/// The mathematical value of a vantage-point node.
pub struct VpNodeV {
    pub item: PointV,
    pub radius2: int,
    pub inside_len: int,
}

impl View for VpNode {
    type V = VpNodeV;

    closed spec fn view(&self) -> VpNodeV {
        VpNodeV {
            item: self.item@,
            radius2: self.radius2 as int,
            inside_len: self.inside_len as int,
        }
    }
}

/// The views of a node sequence.
pub open spec fn vp_view(s: Seq<VpNode>) -> Seq<VpNodeV> {
    s.map_values(|n: VpNode| n@)
}

/// The items of a range of nodes, as a multiset.
pub open spec fn vp_range_points(s: Seq<VpNodeV>, lo: int, hi: int) -> Multiset<PointV> {
    s.subrange(lo, hi).map_values(|n: VpNodeV| n.item).to_multiset()
}

/// Well-formedness of the range `[lo, hi)` of a flat vantage-point tree: the
/// node at `lo` is followed by its inside subtree — half of the rest, the
/// items within the squared radius of the vantage point — and then its
/// outside subtree — items at or beyond it.  The radius is the distance to
/// the farthest inside item, zero when there is none.
pub open spec fn vp_wf(s: Seq<VpNodeV>, lo: int, hi: int, d: int) -> bool
    decreases hi - lo,
{
    lo >= hi || {
        let n = s[lo];
        let il = n.inside_len;
        &&& 0 <= lo
        &&& hi <= s.len()
        &&& 0 <= il
        &&& lo + 1 + il <= hi
        &&& il == (hi - lo - 1) / 2
        &&& wf_point(n.item)
        &&& n.item.coords.len() == d
        &&& 0 <= n.radius2 <= max_sq_dist()
        &&& (il == 0 ==> n.radius2 == 0)
        &&& (il > 0 ==> exists|p: PointV|
            #[trigger] vp_range_points(s, lo + 1, lo + 1 + il).count(p) > 0 && sq_dist(
                n.item.coords,
                p.coords,
            ) == n.radius2)
        &&& (forall|j: int|
            lo + 1 <= j < lo + 1 + il ==> sq_dist(
                n.item.coords,
                (#[trigger] s[j]).item.coords,
            ) <= n.radius2)
        &&& (forall|j: int|
            lo + 1 + il <= j < hi ==> sq_dist(n.item.coords, (#[trigger] s[j]).item.coords)
                >= n.radius2)
        &&& vp_wf(s, lo + 1, lo + 1 + il, d)
        &&& vp_wf(s, lo + 1 + il, hi, d)
    }
}

/// Well-formedness depends only on the nodes inside the range.
proof fn lemma_vp_wf_shift(
    s: Seq<VpNodeV>,
    t: Seq<VpNodeV>,
    lo_s: int,
    lo_t: int,
    len: int,
    d: int,
)
    requires
        0 <= lo_s,
        lo_s + len <= s.len(),
        0 <= lo_t,
        lo_t + len <= t.len(),
        0 <= len,
        forall|k: int| 0 <= k < len ==> #[trigger] s[lo_s + k] == t[lo_t + k],
        vp_wf(s, lo_s, lo_s + len, d),
    ensures
        vp_wf(t, lo_t, lo_t + len, d),
    decreases len,
{
    if len > 0 {
        let n = s[lo_s];
        let il = n.inside_len;
        assert(t[lo_t] == s[lo_s + 0]);
        assert forall|k: int| 0 <= k < il implies #[trigger] s[lo_s + 1 + k] == t[lo_t + 1
            + k] by {
            assert(s[lo_s + (k + 1)] == t[lo_t + (k + 1)]);
        }
        assert forall|k: int| 0 <= k < len - 1 - il implies #[trigger] s[lo_s + 1 + il + k] == t[
            lo_t + 1 + il + k] by {
            assert(s[lo_s + (k + 1 + il)] == t[lo_t + (k + 1 + il)]);
        }
        lemma_vp_wf_shift(s, t, lo_s + 1, lo_t + 1, il, d);
        lemma_vp_wf_shift(s, t, lo_s + 1 + il, lo_t + 1 + il, len - 1 - il, d);
        assert(vp_range_points(t, lo_t + 1, lo_t + 1 + il) == vp_range_points(
            s,
            lo_s + 1,
            lo_s + 1 + il,
        )) by {
            assert forall|k: int|
                0 <= k < il implies #[trigger] t.subrange(lo_t + 1, lo_t + 1 + il)[k]
                == s.subrange(lo_s + 1, lo_s + 1 + il)[k] by {
                assert(s[lo_s + (k + 1)] == t[lo_t + (k + 1)]);
            }
            assert(t.subrange(lo_t + 1, lo_t + 1 + il) =~= s.subrange(lo_s + 1, lo_s + 1 + il));
        }
        assert forall|j: int|
            lo_t + 1 <= j < lo_t + 1 + il implies sq_dist(
            t[lo_t].item.coords,
            (#[trigger] t[j]).item.coords,
        ) <= t[lo_t].radius2 by {
            assert(t[j] == s[lo_s + (j - lo_t)]);
        }
        assert forall|j: int|
            lo_t + 1 + il <= j < lo_t + len implies sq_dist(
            t[lo_t].item.coords,
            (#[trigger] t[j]).item.coords,
        ) >= t[lo_t].radius2 by {
            assert(t[j] == s[lo_s + (j - lo_t)]);
        }
    }
}

/// Every node of a well-formed range holds a well-formed item of the
/// declared dimensionality.
proof fn lemma_vp_wf_all(s: Seq<VpNodeV>, lo: int, hi: int, d: int)
    requires
        vp_wf(s, lo, hi, d),
    ensures
        forall|j: int|
            lo <= j < hi ==> wf_point((#[trigger] s[j]).item) && s[j].item.coords.len() == d,
    decreases hi - lo,
{
    if lo < hi {
        let il = s[lo].inside_len;
        lemma_vp_wf_all(s, lo + 1, lo + 1 + il, d);
        lemma_vp_wf_all(s, lo + 1 + il, hi, d);
    }
}

/// The items of a range split as the node, its inside items and its outside
/// items.
proof fn lemma_vp_range_split(s: Seq<VpNodeV>, lo: int, hi: int, il: int)
    requires
        0 <= lo < hi <= s.len(),
        0 <= il,
        lo + 1 + il <= hi,
    ensures
        vp_range_points(s, lo, hi) == Multiset::singleton(s[lo].item).add(
            vp_range_points(s, lo + 1, lo + 1 + il),
        ).add(vp_range_points(s, lo + 1 + il, hi)),
{
    let f = |n: VpNodeV| n.item;
    let whole = s.subrange(lo, hi);
    let inside = s.subrange(lo + 1, lo + 1 + il);
    let outside = s.subrange(lo + 1 + il, hi);
    assert(whole =~= seq![s[lo]] + inside + outside);
    assert((seq![s[lo]] + inside + outside).map_values(f) =~= seq![s[lo]].map_values(f)
        + inside.map_values(f) + outside.map_values(f));
    vstd::seq_lib::lemma_multiset_commutative(
        seq![s[lo]].map_values(f) + inside.map_values(f),
        outside.map_values(f),
    );
    vstd::seq_lib::lemma_multiset_commutative(seq![s[lo]].map_values(f), inside.map_values(f));
    assert(seq![s[lo]].map_values(f) =~= seq![s[lo].item]);
    assert(seq![s[lo].item].to_multiset() =~= Multiset::singleton(s[lo].item)) by {
        assert(seq![s[lo].item].drop_first() =~= Seq::<PointV>::empty());
    }
}

/// An empty range offers nothing.
proof fn lemma_vp_range_empty(s: Seq<VpNodeV>, lo: int)
    requires
        0 <= lo <= s.len(),
    ensures
        vp_range_points(s, lo, lo) == Multiset::<PointV>::empty(),
{
    assert(s.subrange(lo, lo) =~= Seq::<VpNodeV>::empty());
    assert(s.subrange(lo, lo).map_values(|n: VpNodeV| n.item) =~= Seq::<PointV>::empty());
}

/// Sorts points in place by squared distance from a vantage point, by
/// insertion.
#[verifier::rlimit(60)]
fn sort_by_dist(items: &mut Vec<Point>, v: &Point)
    requires
        buildable(old(items)@),
        wf_point(v@),
        forall|i: int|
            0 <= i < old(items)@.len() ==> (#[trigger] old(items)@[i])@.coords.len()
                == v@.coords.len(),
    ensures
        points_of(final(items)@) == points_of(old(items)@),
        final(items)@.len() == old(items)@.len(),
        forall|i: int|
            0 <= i < final(items)@.len() ==> points_of(old(items)@).count(
                (#[trigger] final(items)@[i])@,
            ) > 0,
        forall|i: int, j: int|
            0 <= i < j < final(items)@.len() ==> sq_dist(
                v@.coords,
                (#[trigger] final(items)@[i])@.coords,
            ) <= sq_dist(v@.coords, (#[trigger] final(items)@[j])@.coords),
{
    let ghost orig = items@;
    let ghost vc = v@.coords;
    let n = items.len();
    if n == 0 {
        proof {
            assert(points_of(items@) =~= points_of(orig));
        }
        return ;
    }
    let mut i: usize = 1;
    proof {
        assert forall|q: int| 0 <= q < n implies points_of(orig).count(
            (#[trigger] items@[q])@,
        ) > 0 by {
            assert(orig.map_values(|p: Point| p@)[q] == orig[q]@);
            assert(orig.map_values(|p: Point| p@).contains(orig[q]@));
        }
    }
    while i < n
        invariant
            1 <= i <= n,
            items@.len() == n,
            n == orig.len(),
            wf_point(v@),
            vc == v@.coords,
            points_of(items@) == points_of(orig),
            forall|q: int| 0 <= q < n ==> points_of(orig).count((#[trigger] items@[q])@) > 0,
            forall|q: int|
                0 <= q < n ==> wf_point((#[trigger] items@[q])@) && (
                #[trigger] items@[q])@.coords.len() == vc.len(),
            forall|q: int, r: int|
                0 <= q < r < i ==> sq_dist(vc, (#[trigger] items@[q])@.coords) <= sq_dist(
                    vc,
                    (#[trigger] items@[r])@.coords,
                ),
        decreases n - i,
    {
        let key = crate::metric::point_sq_distance(v, &items[i]);
        let mut p: usize = i;
        while p > 0 && crate::metric::point_sq_distance(v, &items[p - 1]) > key
            invariant
                0 <= p <= i < n,
                items@.len() == n,
                wf_point(v@),
                vc == v@.coords,
                key as int == sq_dist(vc, items@[i as int]@.coords),
                forall|q: int|
                    0 <= q < n ==> wf_point((#[trigger] items@[q])@) && (
                    #[trigger] items@[q])@.coords.len() == vc.len(),
                forall|q: int, r: int|
                    0 <= q < r < i ==> sq_dist(vc, (#[trigger] items@[q])@.coords) <= sq_dist(
                        vc,
                        (#[trigger] items@[r])@.coords,
                    ),
                forall|q: int|
                    p <= q < i ==> sq_dist(vc, (#[trigger] items@[q])@.coords) > key as int,
            decreases p,
        {
            p = p - 1;
        }
        let ghost before = items@;
        let x = items.remove(i);
        let ghost mid = items@;
        items.insert(p, x);
        proof {
            assert(mid == before.remove(i as int));
            assert(items@ == mid.insert(p as int, x));
            assert(mid.map_values(|pt: Point| pt@) =~= before.map_values(
                |pt: Point| pt@,
            ).remove(i as int));
            assert(items@.map_values(|pt: Point| pt@) =~= mid.map_values(|pt: Point| pt@).insert(
                p as int,
                x@,
            ));
            assert(before.map_values(|pt: Point| pt@)[i as int] == x@);
            assert(points_of(items@) =~= points_of(before));
            assert forall|q: int| 0 <= q < n implies #[trigger] items@[q] == (if q < p {
                before[q]
            } else if q == p {
                before[i as int]
            } else if q <= i {
                before[q - 1]
            } else {
                before[q]
            }) by {
            }
            assert(forall|q: int|
                0 <= q < n ==> points_of(orig).count((#[trigger] items@[q])@) > 0);
            assert(forall|q: int|
                0 <= q < n ==> wf_point((#[trigger] items@[q])@) && (
                #[trigger] items@[q])@.coords.len() == vc.len());
            assert(forall|q: int, r: int|
                0 <= q < r < i + 1 ==> sq_dist(vc, (#[trigger] items@[q])@.coords) <= sq_dist(
                    vc,
                    (#[trigger] items@[r])@.coords,
                ));
        }
        i = i + 1;
    }
}

/// Assembles well-formedness and contents of one tree level from its parts:
/// the vantage point first, the inside half next, the outside half after.
#[verifier::rlimit(80)]
proof fn lemma_vp_assemble(
    sv: Seq<VpNodeV>,
    inv_: Seq<VpNodeV>,
    onv: Seq<VpNodeV>,
    vanv: PointV,
    r2: int,
    sorted: Seq<Point>,
    inside_items: Seq<Point>,
    outside_items: Seq<Point>,
    mid: int,
    il: int,
    d: int,
)
    requires
        0 <= mid <= sorted.len(),
        mid == sorted.len() / 2,
        il == mid,
        inv_.len() == il,
        onv.len() == sorted.len() - mid,
        sv.len() == 1 + il + onv.len(),
        sv[0].item == vanv,
        sv[0].inside_len == il,
        sv[0].radius2 == r2,
        0 <= r2 <= max_sq_dist(),
        mid > 0 ==> r2 == sq_dist(vanv.coords, sorted[mid - 1]@.coords),
        mid == 0 ==> r2 == 0,
        forall|k: int| 0 <= k < il ==> #[trigger] sv[1 + k] == inv_[k],
        forall|k: int| 0 <= k < onv.len() ==> #[trigger] sv[1 + il + k] == onv[k],
        vp_wf(inv_, 0, il, d),
        vp_wf(onv, 0, onv.len() as int, d),
        vp_range_points(inv_, 0, il) == points_of(inside_items),
        vp_range_points(onv, 0, onv.len() as int) == points_of(outside_items),
        inside_items == sorted.subrange(0, mid),
        outside_items == sorted.subrange(mid, sorted.len() as int),
        wf_point(vanv),
        vanv.coords.len() == d,
        forall|i: int|
            0 <= i < sorted.len() ==> (#[trigger] sorted[i])@.coords.len() == vanv.coords.len(),
        forall|i: int, j: int|
            0 <= i < j < sorted.len() ==> sq_dist(vanv.coords, (#[trigger] sorted[i])@.coords)
                <= sq_dist(vanv.coords, (#[trigger] sorted[j])@.coords),
    ensures
        vp_wf(sv, 0, sv.len() as int, d),
        vp_range_points(sv, 0, sv.len() as int) == Multiset::singleton(vanv).add(
            points_of(sorted),
        ),
{
    let len = sv.len() as int;
    let ol = onv.len() as int;
    lemma_vp_wf_shift(inv_, sv, 0, 1, il, d);
    lemma_vp_wf_shift(onv, sv, 0, 1 + il, ol, d);
    assert forall|j: int| 1 <= j < 1 + il implies sq_dist(
        vanv.coords,
        (#[trigger] sv[j]).item.coords,
    ) <= r2 by {
        assert(sv[1 + (j - 1)] == inv_[j - 1]);
        let it = sv[j].item;
        assert(inv_.subrange(0, il) =~= inv_);
        assert(inv_.map_values(|n: VpNodeV| n.item)[j - 1] == it);
        assert(inv_.map_values(|n: VpNodeV| n.item).contains(it));
        assert(vp_range_points(inv_, 0, il).count(it) > 0);
        crate::metric::lemma_points_member(inside_items, it);
        let q = choose|q: int| 0 <= q < inside_items.len() && (#[trigger] inside_items[q])@ == it;
        assert(inside_items[q] == sorted[q]);
        if q < mid - 1 {
            assert(sq_dist(vanv.coords, sorted[q]@.coords) <= sq_dist(
                vanv.coords,
                sorted[mid - 1]@.coords,
            ));
        }
    }
    assert forall|j: int| 1 + il <= j < len implies sq_dist(
        vanv.coords,
        (#[trigger] sv[j]).item.coords,
    ) >= r2 by {
        assert(sv[1 + il + (j - 1 - il)] == onv[j - 1 - il]);
        let it = sv[j].item;
        assert(onv.subrange(0, ol) =~= onv);
        assert(onv.map_values(|n: VpNodeV| n.item)[j - 1 - il] == it);
        assert(onv.map_values(|n: VpNodeV| n.item).contains(it));
        assert(vp_range_points(onv, 0, ol).count(it) > 0);
        crate::metric::lemma_points_member(outside_items, it);
        let q = choose|q: int|
            0 <= q < outside_items.len() && (#[trigger] outside_items[q])@ == it;
        assert(outside_items[q] == sorted[mid + q]);
        if mid > 0 {
            assert(sq_dist(vanv.coords, sorted[mid - 1]@.coords) <= sq_dist(
                vanv.coords,
                sorted[mid + q]@.coords,
            ));
        } else {
            lemma_sq_dist_nonneg(vanv.coords, sorted[mid + q]@.coords);
        }
    }
    assert(vp_range_points(sv, 1, 1 + il) == points_of(inside_items)) by {
        assert forall|k: int| 0 <= k < il implies sv.subrange(1, 1 + il)[k] == inv_[k] by {
            assert(sv[1 + k] == inv_[k]);
        }
        assert(sv.subrange(1, 1 + il) =~= inv_);
        assert(sv.subrange(1, 1 + il).map_values(|n: VpNodeV| n.item) =~= inv_.subrange(
            0,
            il,
        ).map_values(|n: VpNodeV| n.item));
    }
    if il > 0 {
        let wit = inside_items[il - 1]@;
        assert(inside_items[il - 1] == sorted[mid - 1]);
        assert(sq_dist(vanv.coords, wit.coords) == r2);
        assert(points_of(inside_items).count(wit) > 0) by {
            assert(inside_items.map_values(|p: Point| p@)[il - 1] == wit);
            assert(inside_items.map_values(|p: Point| p@).contains(wit));
        }
        assert(vp_range_points(sv, 1, 1 + il).count(wit) > 0);
    }
    assert(vp_wf(sv, 0, len, d));
    lemma_vp_range_split(sv, 0, len, il);
    assert(vp_range_points(sv, 1, 1 + il) == vp_range_points(inv_, 0, il)) by {
        assert forall|k: int| 0 <= k < il implies sv.subrange(1, 1 + il)[k] == inv_[k] by {
            assert(sv[1 + k] == inv_[k]);
        }
        assert(sv.subrange(1, 1 + il) =~= inv_);
        assert(sv.subrange(1, 1 + il).map_values(|n: VpNodeV| n.item) =~= inv_.subrange(
            0,
            il,
        ).map_values(|n: VpNodeV| n.item));
    }
    assert(vp_range_points(sv, 1 + il, len) == vp_range_points(onv, 0, ol)) by {
        assert forall|k: int| 0 <= k < ol implies sv.subrange(1 + il, len)[k] == onv[k] by {
            assert(sv[1 + il + k] == onv[k]);
        }
        assert(sv.subrange(1 + il, len) =~= onv);
        assert(sv.subrange(1 + il, len).map_values(|n: VpNodeV| n.item) =~= onv.subrange(
            0,
            ol,
        ).map_values(|n: VpNodeV| n.item));
    }
    assert(sorted =~= inside_items + outside_items);
    lemma_points_of_concat(inside_items, outside_items);
    assert(vp_range_points(sv, 0, len) =~= Multiset::singleton(vanv).add(points_of(sorted)));
}

/// Builds the flat tree for one recursion level: the first item becomes the
/// vantage point, the rest are sorted by distance from it, the closer half
/// becomes the inside subtree, and the radius is the distance to the
/// farthest inside item.
#[verifier::rlimit(80)]
fn vp_build(items: Vec<Point>, Ghost(d): Ghost<int>) -> (nodes: Vec<VpNode>)
    requires
        buildable(items@),
        forall|i: int| 0 <= i < items@.len() ==> (#[trigger] items@[i])@.coords.len() == d,
        1 <= d,
    ensures
        nodes@.len() == items@.len(),
        vp_wf(vp_view(nodes@), 0, nodes@.len() as int, d),
        vp_range_points(vp_view(nodes@), 0, nodes@.len() as int) == points_of(items@),
    decreases items@.len(),
{
    let ghost items0 = items@;
    let mut items = items;
    if items.len() == 0 {
        let nodes: Vec<VpNode> = Vec::new();
        proof {
            lemma_vp_range_empty(vp_view(nodes@), 0);
            assert(points_of(items0) =~= Multiset::<PointV>::empty()) by {
                assert(items0.map_values(|p: Point| p@) =~= Seq::<PointV>::empty());
            }
        }
        return nodes;
    }
    let mut rest = items.split_off(1);
    let vantage = items.pop().unwrap();
    let ghost vanv = vantage@;
    proof {
        assert(rest@ == items0.subrange(1, items0.len() as int));
        assert(vantage == items0[0]);
        assert(wf_point(vanv) && vanv.coords.len() == d);
        assert forall|i: int| 0 <= i < rest@.len() implies wf_point((#[trigger] rest@[i])@) && (
        #[trigger] rest@[i])@.coords.len() == vanv.coords.len() by {
            assert(rest@[i] == items0[1 + i]);
        }
        assert(buildable(rest@));
        assert(items0 =~= seq![vantage] + rest@);
    }
    sort_by_dist(&mut rest, &vantage);
    let ghost sorted = rest@;
    proof {
        assert forall|q: int| 0 <= q < sorted.len() implies wf_point((#[trigger] sorted[q])@) && (
        #[trigger] sorted[q])@.coords.len() == d by {
            let pv = (sorted[q])@;
            assert(points_of(items0.subrange(1, items0.len() as int)).count(pv) > 0);
            crate::metric::lemma_points_member(items0.subrange(1, items0.len() as int), pv);
            let w = choose|w: int|
                0 <= w < items0.subrange(1, items0.len() as int).len() && (#[trigger] items0.subrange(
                    1,
                    items0.len() as int,
                )[w])@ == pv;
            assert(items0[1 + w]@ == pv);
        }
    }
    let mid = rest.len() / 2;
    let outside_items = rest.split_off(mid);
    let inside_items = rest;
    let radius2 = if inside_items.len() == 0 {
        0
    } else {
        crate::metric::point_sq_distance(&vantage, &inside_items[inside_items.len() - 1])
    };
    proof {
        assert(inside_items@ == sorted.subrange(0, mid as int));
        assert(outside_items@ == sorted.subrange(mid as int, sorted.len() as int));
        if mid > 0 {
            assert(inside_items@[mid - 1] == sorted[mid - 1]);
        }
        lemma_max_sq_dist_value();
        assert(buildable(inside_items@));
        assert(buildable(outside_items@));
    }
    let ghost r2 = radius2 as int;
    let inside_nodes = vp_build(inside_items, Ghost(d));
    let outside_nodes = vp_build(outside_items, Ghost(d));
    let il = inside_nodes.len();
    let ghost inv_ = vp_view(inside_nodes@);
    let ghost onv = vp_view(outside_nodes@);
    let mut nodes: Vec<VpNode> = Vec::new();
    nodes.push(VpNode { item: vantage, radius2, inside_len: il });
    let mut i_n = inside_nodes;
    nodes.append(&mut i_n);
    let mut o_n = outside_nodes;
    nodes.append(&mut o_n);
    proof {
        let sv = vp_view(nodes@);
        assert(sv[0].item == vanv && sv[0].inside_len == il as int && sv[0].radius2 == r2);
        assert forall|k: int| 0 <= k < il implies #[trigger] sv[1 + k] == inv_[k] by {
        }
        assert forall|k: int| 0 <= k < onv.len() implies #[trigger] sv[1 + il + k] == onv[k] by {
        }
        lemma_vp_assemble(
            sv,
            inv_,
            onv,
            vanv,
            r2,
            sorted,
            inside_items@,
            outside_items@,
            mid as int,
            il as int,
            d,
        );
        assert(points_of(items0) =~= Multiset::singleton(vanv).add(points_of(sorted))) by {
            lemma_points_of_concat(seq![vantage], items0.subrange(1, items0.len() as int));
            assert(points_of(seq![vantage]) =~= Multiset::singleton(vanv)) by {
                assert(seq![vantage].map_values(|p: Point| p@) =~= seq![vanv]);
                assert(seq![vanv].drop_first() =~= Seq::<PointV>::empty());
            }
        }
        assert(vp_range_points(sv, 0, sv.len() as int) =~= points_of(items0));
    }
    nodes
}

/// The recursive vantage-point descent.
///
/// The subtree whose ball the target lies in is visited first; either
/// subtree is skipped when the triangle inequality shows it cannot hold an
/// admissible item.
#[verifier::rlimit(60)]
fn vp_recurse(nodes: &Vec<VpNode>, lo: usize, hi: usize, tvec: &Vec<i64>, acc: Neighborhood) -> (out:
    Neighborhood)
    requires
        lo < hi <= nodes@.len(),
        nb_wf(acc@),
        vp_wf(vp_view(nodes@), lo as int, hi as int, acc@.target.len() as int),
        tvec@.map_values(|c: i64| c as int) == acc@.target,
    ensures
        nb_wf(out@),
        absorb(
            acc@,
            search_input(vp_range_points(vp_view(nodes@), lo as int, hi as int), acc@.filter),
            out@,
        ),
    decreases hi - lo, 1int,
{
    let ghost sv = vp_view(nodes@);
    let ghost d = acc@.target.len() as int;
    let ghost f = acc@.filter;
    let ghost acc0 = acc@;
    let mut acc = acc;
    proof {
        assert(sv[lo as int] == nodes@[lo as int]@);
        lemma_max_sq_dist_value();
    }
    let node = &nodes[lo];
    let ghost nv = node@.item;
    let d2 = acc.consider(&node.item);
    let ghost a1 = acc@;
    proof {
        crate::metric::lemma_search_input_singleton(nv, f);
        if f && nv.deleted {
            lemma_absorb_refl(acc0);
            assert(a1 == acc0);
        }
        crate::metric::lemma_sq_dist_bounded(acc0.target, nv.coords);
    }
    let ghost mnode = search_input(Multiset::singleton(nv), f);
    let r2 = node.radius2;
    let il = node.inside_len;
    proof {
        assert(sv[lo as int].inside_len == il as int);
        assert(lo as int + 1 + il as int <= hi as int);
        assert(0 <= r2 as int <= max_sq_dist());
    }
    let in_lo = lo + 1;
    let in_hi = lo + 1 + il;
    let ghost ipts = vp_range_points(sv, in_lo as int, in_hi as int);
    let ghost opts = vp_range_points(sv, in_hi as int, hi as int);
    proof {
        lemma_vp_range_split(sv, lo as int, hi as int, il as int);
        crate::metric::lemma_search_input_add(Multiset::singleton(nv).add(ipts), opts, f);
        crate::metric::lemma_search_input_add(Multiset::singleton(nv), ipts, f);
        assert(search_input(vp_range_points(sv, lo as int, hi as int), f) =~= mnode.add(
            search_input(ipts, f),
        ).add(search_input(opts, f)));
    }
    let inside_first = d2 <= r2;
    let ghost first_lo = if inside_first { in_lo as int } else { in_hi as int };
    let ghost first_hi = if inside_first { in_hi as int } else { hi as int };
    let ghost second_lo = if inside_first { in_hi as int } else { in_lo as int };
    let ghost second_hi = if inside_first { hi as int } else { in_hi as int };
    let first_lo_e = if inside_first { in_lo } else { in_hi };
    let first_hi_e = if inside_first { in_hi } else { hi };
    let second_lo_e = if inside_first { in_hi } else { in_lo };
    let second_hi_e = if inside_first { hi } else { in_hi };
    let ghost first_pts = vp_range_points(sv, first_lo, first_hi);
    let ghost second_pts = vp_range_points(sv, second_lo, second_hi);

    acc = vp_visit(
        nodes, lo, hi, first_lo_e, first_hi_e, tvec, d2, r2, inside_first, acc,
        Ghost(acc0), Ghost(nv),
    );
    let ghost a2 = acc@;
    proof {
        lemma_absorb_trans(acc0, mnode, a1, search_input(first_pts, f), a2);
    }
    acc = vp_visit(
        nodes, lo, hi, second_lo_e, second_hi_e, tvec, d2, r2, !inside_first, acc,
        Ghost(acc0), Ghost(nv),
    );
    proof {
        lemma_absorb_trans(
            acc0,
            mnode.add(search_input(first_pts, f)),
            a2,
            search_input(second_pts, f),
            acc@,
        );
        assert(mnode.add(search_input(first_pts, f)).add(search_input(second_pts, f))
            =~= mnode.add(search_input(ipts, f)).add(search_input(opts, f)));
    }
    acc
}

/// Visits one subtree of a vantage-point node, if the triangle inequality
/// leaves it admissible, and absorbs its items either way.
#[verifier::rlimit(60)]
fn vp_visit(
    nodes: &Vec<VpNode>,
    lo: usize,
    hi: usize,
    sub_lo: usize,
    sub_hi: usize,
    tvec: &Vec<i64>,
    d2: i64,
    r2: i64,
    is_inside: bool,
    acc: Neighborhood,
    Ghost(root): Ghost<crate::metric::NeighborhoodV>,
    Ghost(nv): Ghost<PointV>,
) -> (out: Neighborhood)
    requires
        nb_wf(acc@),
        acc@.target == root.target,
        acc@.k == root.k,
        acc@.filter == root.filter,
        lo < hi <= nodes@.len(),
        vp_wf(vp_view(nodes@), lo as int, hi as int, root.target.len() as int),
        tvec@.map_values(|c: i64| c as int) == root.target,
        wf_point(nv),
        nv.coords.len() == root.target.len(),
        nv == vp_view(nodes@)[lo as int].item,
        d2 as int == sq_dist(root.target, nv.coords),
        r2 as int == vp_view(nodes@)[lo as int].radius2,
        0 <= d2 as int <= max_sq_dist(),
        0 <= r2 as int <= max_sq_dist(),
        is_inside ==> sub_lo == lo + 1 && sub_hi as int == lo as int + 1 + vp_view(
            nodes@,
        )[lo as int].inside_len,
        !is_inside ==> sub_lo as int == lo as int + 1 + vp_view(nodes@)[lo as int].inside_len
            && sub_hi == hi,
    ensures
        nb_wf(out@),
        out@.target == root.target,
        out@.k == root.k,
        out@.filter == root.filter,
        absorb(
            acc@,
            search_input(
                vp_range_points(vp_view(nodes@), sub_lo as int, sub_hi as int),
                root.filter,
            ),
            out@,
        ),
    decreases hi - lo, 0int,
{
    let ghost sv = vp_view(nodes@);
    let ghost d = root.target.len() as int;
    let ghost f = root.filter;
    let ghost pre = acc@;
    let ghost sub_pts = vp_range_points(sv, sub_lo as int, sub_hi as int);
    proof {
        lemma_max_sq_dist_value();
        if is_inside {
            assert(vp_wf(sv, sub_lo as int, sub_hi as int, d));
        } else {
            assert(vp_wf(sv, sub_lo as int, sub_hi as int, d));
        }
    }
    if sub_lo >= sub_hi {
        proof {
            lemma_vp_range_empty(sv, sub_lo as int);
            lemma_search_input_empty(f);
            lemma_absorb_refl(pre);
        }
        return acc;
    }
    let enter = if is_inside {
        admits_root_gap(&acc, d2, r2)
    } else {
        admits_root_gap(&acc, r2, d2)
    };
    if enter {
        let out = vp_recurse(nodes, sub_lo, sub_hi, tvec, acc);
        proof {
            assert(absorb(pre, search_input(sub_pts, pre.filter), out@));
        }
        out
    } else {
        proof {
            let m = search_input(sub_pts, f);
            assert forall|p: PointV| #[trigger] m.count(p) > 0 implies !contains_sq(
                pre,
                sq_dist(pre.target, p.coords),
            ) by {
                lemma_search_input_subset(sub_pts, f);
                assert(sub_pts.count(p) > 0);
                lemma_vp_range_member(sv, sub_lo as int, sub_hi as int, p);
                let j = choose|j: int|
                    sub_lo as int <= j < sub_hi as int && (#[trigger] sv[j]).item == p;
                lemma_vp_wf_all(sv, sub_lo as int, sub_hi as int, d);
                let qx = sq_dist(pre.target, p.coords);
                let ss = sq_dist(nv.coords, p.coords);
                lemma_sq_dist_nonneg(pre.target, p.coords);
                lemma_sq_dist_nonneg(nv.coords, p.coords);
                if pre.k > 0 {
                    let tt = pre.threshold.unwrap();
                    if is_inside {
                        assert(ss <= r2 as int);
                        lemma_triangle(pre.target, p.coords, nv.coords);
                        lemma_sq_dist_sym(p.coords, nv.coords);
                        assert(within_sum_of_roots(d2 as int, qx, ss));
                        lemma_prune_inside(d2 as int, r2 as int, ss, tt, qx);
                    } else {
                        assert(ss >= r2 as int);
                        lemma_triangle(nv.coords, pre.target, p.coords);
                        lemma_sq_dist_sym(nv.coords, pre.target);
                        assert(within_sum_of_roots(ss, d2 as int, qx));
                        lemma_prune_outside(d2 as int, r2 as int, ss, tt, qx);
                    }
                }
            }
            lemma_absorb_skip(pre, m);
        }
        acc
    }
}

/// A vantage-point tree: a static nearest-neighbor index over integer
/// Cartesian points, stored as one flat array and searched with
/// triangle-inequality pruning.
#[derive(Debug)]
pub struct VpTree {
    nodes: Vec<VpNode>,
}

impl NearestNeighbors for VpTree {
    closed spec fn contents(&self) -> Multiset<PointV> {
        vp_range_points(vp_view(self.nodes@), 0, self.nodes@.len() as int)
    }

    open spec fn query_items(&self, filtered: bool) -> Multiset<PointV> {
        search_input(self.contents(), filtered)
    }

    closed spec fn inv(&self) -> bool {
        &&& self.nodes@.len() <= COUNT_LIMIT
        &&& (self.nodes@.len() == 0 || vp_wf(
            vp_view(self.nodes@),
            0,
            self.nodes@.len() as int,
            vp_view(self.nodes@)[0].item.coords.len() as int,
        ))
    }

    fn from_vec(items: Vec<Point>) -> (r: Self) {
        if items.len() == 0 {
            let r = VpTree { nodes: Vec::new() };
            proof {
                lemma_vp_range_empty(vp_view(r.nodes@), 0);
                assert(points_of(items@) =~= Multiset::<PointV>::empty()) by {
                    assert(items@.map_values(|p: Point| p@) =~= Seq::<PointV>::empty());
                }
            }
            r
        } else {
            let ghost d = items@[0]@.coords.len() as int;
            proof {
                assert(wf_point(items@[0]@));
            }
            let nodes = vp_build(items, Ghost(d));
            let r = VpTree { nodes };
            proof {
                if r.nodes@.len() > 0 {
                    assert(vp_view(r.nodes@)[0].item.coords.len() == d);
                }
            }
            r
        }
    }

    fn search(&self, acc: Neighborhood) -> (out: Neighborhood) {
        let ghost acc0 = acc@;
        let ghost f = acc0.filter;
        let n = self.nodes.len();
        if n == 0 {
            proof {
                lemma_vp_range_empty(vp_view(self.nodes@), 0);
                lemma_search_input_empty(f);
                lemma_absorb_refl(acc0);
            }
            acc
        } else {
            let ghost sv = vp_view(self.nodes@);
            let ghost d = acc0.target.len() as int;
            proof {
                let it0 = sv[0].item;
                assert(sv.subrange(0, n as int) =~= sv);
                assert(sv.map_values(|x: VpNodeV| x.item)[0] == it0);
                assert(sv.map_values(|x: VpNodeV| x.item).contains(it0));
                assert(self.contents().count(it0) > 0);
                assert(it0.coords.len() == d);
                assert(vp_wf(sv, 0, n as int, d));
            }
            let tv = acc.target_coords();
            vp_recurse(&self.nodes, 0, n, &tv, acc)
        }
    }

    fn into_vec(self) -> (v: Vec<Point>) {
        let ghost c0 = self.contents();
        let ghost orig = vp_view(self.nodes@);
        let ghost n0 = self.nodes@.len() as int;
        let ghost d = if n0 > 0 {
            orig[0].item.coords.len() as int
        } else {
            1
        };
        proof {
            if n0 > 0 {
                lemma_vp_wf_all(orig, 0, n0, d);
            }
        }
        let mut nodes = self.nodes;
        let mut out: Vec<Point> = Vec::new();
        proof {
            assert(points_of(out@) =~= Multiset::<PointV>::empty()) by {
                assert(out@.map_values(|p: Point| p@) =~= Seq::<PointV>::empty());
            }
            assert(vp_view(nodes@) =~= orig.subrange(0, nodes@.len() as int));
        }
        while nodes.len() > 0
            invariant
                orig.len() == n0,
                0 <= n0,
                nodes@.len() <= n0,
                vp_view(nodes@) == orig.subrange(0, nodes@.len() as int),
                points_of(out@).add(
                    vp_range_points(vp_view(nodes@), 0, nodes@.len() as int),
                ) == c0,
                forall|j: int|
                    0 <= j < n0 ==> wf_point((#[trigger] orig[j]).item) && orig[j].item.coords.len()
                        == d,
                out@.len() + nodes@.len() == n0,
                forall|i: int| 0 <= i < out@.len() ==> wf_point((#[trigger] out@[i])@) && (
                #[trigger] out@[i])@.coords.len() == d,
            decreases nodes@.len(),
        {
            let ghost pre = nodes@;
            let ghost k = pre.len() as int;
            let node = nodes.pop().unwrap();
            let ghost outpre = out@;
            proof {
                assert(nodes@ == pre.subrange(0, k - 1));
                assert(vp_view(nodes@) =~= orig.subrange(0, k - 1)) by {
                    assert forall|j: int| 0 <= j < k - 1 implies vp_view(nodes@)[j] == orig[j] by {
                        assert(vp_view(nodes@)[j] == nodes@[j]@);
                        assert(nodes@[j] == pre[j]);
                        assert(vp_view(pre)[j] == pre[j]@);
                        assert(vp_view(pre)[j] == orig.subrange(0, k)[j]);
                        assert(orig.subrange(0, k)[j] == orig[j]);
                    }
                }
                assert(node == pre[k - 1]);
                assert(vp_view(pre)[k - 1] == pre[k - 1]@);
                assert(vp_view(pre)[k - 1] == orig.subrange(0, k)[k - 1]);
                assert(node@ == orig[k - 1]);
                let mpre = vp_view(pre).subrange(0, k).map_values(|x: VpNodeV| x.item);
                let mnow = vp_view(nodes@).subrange(0, k - 1).map_values(|x: VpNodeV| x.item);
                assert(vp_view(pre).subrange(0, k) =~= vp_view(pre));
                assert(vp_view(nodes@).subrange(0, k - 1) =~= vp_view(nodes@));
                assert(mpre =~= mnow.push(node@.item));
            }
            out.push(node.item);
            proof {
                assert(out@ == outpre.push(node.item));
                crate::metric::lemma_points_of_snoc(out@, outpre.len() as int);
                assert(out@.take(outpre.len() as int) =~= outpre);
                assert(out@.take(outpre.len() as int + 1) =~= out@);
                assert(points_of(out@).add(
                    vp_range_points(vp_view(nodes@), 0, nodes@.len() as int),
                ) =~= c0);
            }
        }
        proof {
            lemma_vp_range_empty(vp_view(nodes@), 0);
            assert(points_of(out@) =~= c0);
            assert(points_of(out@).len() == out@.len());
        }
        out
    }

    proof fn query_items_law(&self, filtered: bool) {
        lemma_search_input_subset(self.contents(), filtered);
        lemma_live_subset(self.contents(), filtered);
    }
}


} // verus!
