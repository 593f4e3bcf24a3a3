//! Metric-space primitives: points, squared Euclidean distance, and the
//! order-preserving distance wrappers.

use vstd::prelude::*;
use vstd::multiset::Multiset;
use crate::{COORD_LIMIT, COUNT_LIMIT, DIM_LIMIT};

pub mod kd;
pub mod vp;

verus! {

broadcast use vstd::multiset::group_multiset_axioms, vstd::seq_lib::group_to_multiset_ensures;

/// The mathematical value of a point: its coordinates, its deletion flag and
/// its caller-chosen tag.
pub struct PointV {
    pub coords: Seq<int>,
    pub deleted: bool,
    pub tag: u64,
}

/// `r` is the integer square root of `v`: the largest integer whose square
/// does not exceed `v`.
pub open spec fn is_isqrt(v: int, r: int) -> bool {
    &&& 0 <= r
    &&& r * r <= v
    &&& v < (r + 1) * (r + 1)
}

/// The integer square root is unique.
pub proof fn lemma_isqrt_unique(v: int, r1: int, r2: int)
    requires
        is_isqrt(v, r1),
        is_isqrt(v, r2),
    ensures
        r1 == r2,
{
    if r1 < r2 {
        assert((r1 + 1) * (r1 + 1) <= r2 * r2) by (nonlinear_arith)
            requires
                0 <= r1,
                r1 + 1 <= r2,
        ;
    }
    if r2 < r1 {
        assert((r2 + 1) * (r2 + 1) <= r1 * r1) by (nonlinear_arith)
            requires
                0 <= r2,
                r2 + 1 <= r1,
        ;
    }
}

/// Computes the integer square root by binary search.
pub fn isqrt(v: i64) -> (r: i64)
    requires
        0 <= v,
    ensures
        is_isqrt(v as int, r as int),
{
    let mut lo: i64 = 0;
    let mut hi: i64 = 3037000499;
    proof {
        assert((3037000499int + 1) * (3037000499int + 1) > 0x7fffffffffffffff) by (nonlinear_arith);
    }
    while lo < hi
        invariant
            0 <= lo <= hi <= 3037000499,
            (lo as int) * (lo as int) <= v as int,
            (v as int) < ((hi as int) + 1) * ((hi as int) + 1),
        decreases hi - lo,
    {
        let mid = lo + (hi - lo + 1) / 2;
        proof {
            assert(0 <= (mid as int) * (mid as int) <= 3037000499int * 3037000499int)
                by (nonlinear_arith)
                requires
                    0 < mid as int <= 3037000499,
            ;
            assert(3037000499int * 3037000499int < 0x7fffffffffffffff) by (nonlinear_arith);
        }
        if mid * mid <= v {
            lo = mid;
        } else {
            hi = mid - 1;
        }
    }
    lo
}

/// A raw numerical distance: the stored value is the distance itself.
#[derive(Clone, Copy, Debug)]
pub struct RawDistance {
    pub value: i64,
}

impl RawDistance {
    /// Wraps a non-negative distance unchanged.
    pub fn from_value(v: i64) -> (r: Self)
        requires
            0 <= v,
        ensures
            r.value == v,
    {
        RawDistance { value: v }
    }

    /// Extraction returns the stored value unchanged.
    pub fn to_value(self) -> (r: i64)
        ensures
            r == self.value,
    {
        self.value
    }

    /// Comparison agrees with comparison of the underlying distances.
    pub fn le(self, other: Self) -> (r: bool)
        ensures
            r == (self.value <= other.value),
    {
        self.value <= other.value
    }
}

/// A squared distance: the stored value is the square of the distance, so
/// square roots are deferred until a plain value is demanded.
#[derive(Clone, Copy, Debug)]
pub struct SquaredDistance {
    pub value: i64,
}

impl SquaredDistance {
    /// Wraps an already squared value.
    pub fn from_squared(v: i64) -> (r: Self)
        requires
            0 <= v,
        ensures
            r.value == v,
    {
        SquaredDistance { value: v }
    }

    /// Wraps a distance, storing its square.
    pub fn from_value(v: i64) -> (r: Self)
        requires
            0 <= v <= 3037000499,
        ensures
            r.value == v * v,
    {
        proof {
            assert(0 <= (v as int) * (v as int) <= 3037000499int * 3037000499int)
                by (nonlinear_arith)
                requires
                    0 <= v as int <= 3037000499,
            ;
            assert(3037000499int * 3037000499int < 0x7fffffffffffffff) by (nonlinear_arith);
        }
        SquaredDistance { value: v * v }
    }

    /// Extraction takes the integer square root of the stored square.
    pub fn to_value(self) -> (r: i64)
        requires
            0 <= self.value,
        ensures
            is_isqrt(self.value as int, r as int),
    {
        isqrt(self.value)
    }

    /// Comparison on stored squares agrees with comparison of the distances.
    pub fn le(self, other: Self) -> (r: bool)
        ensures
            r == (self.value <= other.value),
    {
        self.value <= other.value
    }
}

/// The order embedding: comparing stored squares is the same as comparing the
/// distances they encode, and extraction inverts construction exactly.
pub proof fn lemma_squared_order_embedding(x: int, y: int)
    requires
        0 <= x,
        0 <= y,
    ensures
        (x <= y) <==> (x * x <= y * y),
        is_isqrt(x * x, x),
{
    assert((x <= y) <==> (x * x <= y * y)) by (nonlinear_arith)
        requires
            0 <= x,
            0 <= y,
    ;
    assert(x * x < (x + 1) * (x + 1)) by (nonlinear_arith)
        requires
            0 <= x,
    ;
}

/// A point in integer Cartesian space.
///
/// `deleted` is the soft-deletion flag read by the soft-delete adapter;
/// indices that are not wrapped in the adapter ignore it.  `tag` is an opaque
/// payload for callers that need to recognise the points a query returns.
#[derive(Debug)]
pub struct Point {
    pub coords: Vec<i64>,
    pub deleted: bool,
    pub tag: u64,
}

impl View for Point {
    type V = PointV;

    open spec fn view(&self) -> PointV {
        PointV {
            coords: self.coords@.map_values(|c: i64| c as int),
            deleted: self.deleted,
            tag: self.tag,
        }
    }
}

/// A coordinate sequence is well formed when it has at least one coordinate,
/// not more than `DIM_LIMIT` of them, and each lies within `COORD_LIMIT` in
/// magnitude.
pub open spec fn wf_coords(s: Seq<int>) -> bool {
    &&& 1 <= s.len() <= DIM_LIMIT
    &&& forall|i: int| 0 <= i < s.len() ==> -(COORD_LIMIT as int) <= #[trigger] s[i] <= COORD_LIMIT as int
}

/// A point is well formed when its coordinates are.
pub open spec fn wf_point(p: PointV) -> bool {
    wf_coords(p.coords)
}

/// The squared Euclidean distance between two coordinate sequences.
pub open spec fn sq_dist(a: Seq<int>, b: Seq<int>) -> int
    decreases a.len(),
{
    if a.len() == 0 {
        0
    } else {
        (a[0] - b[0]) * (a[0] - b[0]) + sq_dist(a.drop_first(), b.drop_first())
    }
}

/// The largest value `sq_dist` can take on well-formed points.
pub open spec fn max_sq_dist() -> int {
    (DIM_LIMIT as int) * (2 * COORD_LIMIT as int) * (2 * COORD_LIMIT as int)
}

/// `max_sq_dist` as a literal: 2^52, comfortably inside `i64`.
pub proof fn lemma_max_sq_dist_value()
    ensures
        max_sq_dist() == 0x10000000000000,
{
    assert((DIM_LIMIT as int) * (2 * COORD_LIMIT as int) * (2 * COORD_LIMIT as int)
        == 0x10000000000000) by (nonlinear_arith)
        requires
            DIM_LIMIT as int == 1024,
            COORD_LIMIT as int == 1048576,
    ;
}

proof fn lemma_sq_dist_take(a: Seq<int>, b: Seq<int>, i: int)
    requires
        0 <= i < a.len(),
        a.len() == b.len(),
    ensures
        sq_dist(a.take(i + 1), b.take(i + 1)) == sq_dist(a.take(i), b.take(i)) + (a[i] - b[i]) * (
        a[i] - b[i]),
    decreases i,
{
    if i == 0 {
        assert(a.take(1).drop_first() =~= a.take(0));
        assert(b.take(1).drop_first() =~= b.take(0));
        assert(sq_dist(a.take(0), b.take(0)) == 0);
    } else {
        lemma_sq_dist_take(a.drop_first(), b.drop_first(), i - 1);
        assert(a.take(i + 1).drop_first() =~= a.drop_first().take(i));
        assert(b.take(i + 1).drop_first() =~= b.drop_first().take(i));
        assert(a.take(i).drop_first() =~= a.drop_first().take(i - 1));
        assert(b.take(i).drop_first() =~= b.drop_first().take(i - 1));
        assert(a.take(i + 1)[0] == a[0] && b.take(i + 1)[0] == b[0]);
        assert(a.take(i)[0] == a[0] && b.take(i)[0] == b[0]);
        assert(a.drop_first().take(i)[i - 1] == a[i]);
    }
}

/// Squared distances are sums of squares, hence never negative.
pub proof fn lemma_sq_dist_nonneg(a: Seq<int>, b: Seq<int>)
    ensures
        sq_dist(a, b) >= 0,
    decreases a.len(),
{
    if a.len() > 0 {
        lemma_sq_dist_nonneg(a.drop_first(), b.drop_first());
        assert((a[0] - b[0]) * (a[0] - b[0]) >= 0) by (nonlinear_arith);
    }
}

proof fn lemma_sq_dist_bounded_rec(a: Seq<int>, b: Seq<int>, m: int)
    requires
        a.len() == b.len(),
        m >= 0,
        forall|i: int| 0 <= i < a.len() ==> -m <= #[trigger] a[i] <= m,
        forall|i: int| 0 <= i < b.len() ==> -m <= #[trigger] b[i] <= m,
    ensures
        sq_dist(a, b) <= a.len() * (2 * m) * (2 * m),
    decreases a.len(),
{
    if a.len() == 0 {
    } else {
        let ar = a.drop_first();
        let br = b.drop_first();
        lemma_sq_dist_bounded_rec(ar, br, m);
        assert((a[0] - b[0]) * (a[0] - b[0]) <= (2 * m) * (2 * m)) by (nonlinear_arith)
            requires
                -m <= a[0] <= m,
                -m <= b[0] <= m,
                m >= 0,
        ;
        assert(a.len() * (2 * m) * (2 * m) == ar.len() * (2 * m) * (2 * m) + (2 * m) * (2 * m))
            by (nonlinear_arith)
            requires
                a.len() == ar.len() + 1,
        ;
    }
}

/// On well-formed points the squared distance stays below `max_sq_dist`.
pub proof fn lemma_sq_dist_bounded(a: Seq<int>, b: Seq<int>)
    requires
        a.len() == b.len(),
        a.len() <= DIM_LIMIT,
        forall|i: int| 0 <= i < a.len() ==> -(COORD_LIMIT as int) <= #[trigger] a[i] <= COORD_LIMIT as int,
        forall|i: int| 0 <= i < b.len() ==> -(COORD_LIMIT as int) <= #[trigger] b[i] <= COORD_LIMIT as int,
    ensures
        sq_dist(a, b) <= max_sq_dist(),
{
    lemma_sq_dist_bounded_rec(a, b, COORD_LIMIT as int);
    assert(a.len() * (2 * COORD_LIMIT as int) * (2 * COORD_LIMIT as int) <= max_sq_dist())
        by (nonlinear_arith)
        requires
            0 <= a.len() <= DIM_LIMIT as int,
    ;
}

/// Computes the squared Euclidean distance between two coordinate vectors.
pub fn sq_distance(a: &Vec<i64>, b: &Vec<i64>) -> (d: i64)
    requires
        a@.len() == b@.len(),
        a@.len() <= DIM_LIMIT,
        forall|i: int| 0 <= i < a@.len() ==> -COORD_LIMIT <= #[trigger] a@[i] <= COORD_LIMIT,
        forall|i: int| 0 <= i < b@.len() ==> -COORD_LIMIT <= #[trigger] b@[i] <= COORD_LIMIT,
    ensures
        d == sq_dist(a@.map_values(|c: i64| c as int), b@.map_values(|c: i64| c as int)),
        0 <= d <= max_sq_dist(),
{
    let ghost av = a@.map_values(|c: i64| c as int);
    let ghost bv = b@.map_values(|c: i64| c as int);
    let n = a.len();
    let mut sum: i64 = 0;
    let mut i: usize = 0;
    proof {
        assert(av.take(0) =~= Seq::<int>::empty());
        assert(bv.take(0) =~= Seq::<int>::empty());
    }
    while i < n
        invariant
            0 <= i <= n,
            n == a@.len() == b@.len(),
            n <= DIM_LIMIT,
            av == a@.map_values(|c: i64| c as int),
            bv == b@.map_values(|c: i64| c as int),
            forall|j: int| 0 <= j < n ==> -COORD_LIMIT <= #[trigger] a@[j] <= COORD_LIMIT,
            forall|j: int| 0 <= j < n ==> -COORD_LIMIT <= #[trigger] b@[j] <= COORD_LIMIT,
            sum == sq_dist(av.take(i as int), bv.take(i as int)),
            0 <= sum,
            sum <= (i as int) * 0x40000000000,
        decreases n - i,
    {
        let diff = a[i] - b[i];
        proof {
            lemma_sq_dist_take(av, bv, i as int);
            assert(av[i as int] == a@[i as int] as int);
            assert(bv[i as int] == b@[i as int] as int);
            assert(0 <= (diff as int) * (diff as int) <= 0x40000000000) by (nonlinear_arith)
                requires
                    -0x200000 <= diff as int <= 0x200000,
            ;
        }
        sum = sum + diff * diff;
        i = i + 1;
    }
    proof {
        assert(av.take(n as int) =~= av);
        assert(bv.take(n as int) =~= bv);
        lemma_sq_dist_nonneg(av, bv);
        lemma_sq_dist_bounded(av, bv);
        lemma_max_sq_dist_value();
    }
    sum
}

/// Computes the squared Euclidean distance between two well-formed points.
pub fn point_sq_distance(a: &Point, b: &Point) -> (d: i64)
    requires
        wf_point(a@),
        wf_point(b@),
        a@.coords.len() == b@.coords.len(),
    ensures
        d == sq_dist(a@.coords, b@.coords),
        0 <= d <= max_sq_dist(),
{
    proof {
        assert forall|i: int| 0 <= i < a.coords@.len() implies -COORD_LIMIT
            <= #[trigger] a.coords@[i] <= COORD_LIMIT by {
            assert(a@.coords[i] == a.coords@[i] as int);
        }
        assert forall|i: int| 0 <= i < b.coords@.len() implies -COORD_LIMIT
            <= #[trigger] b.coords@[i] <= COORD_LIMIT by {
            assert(b@.coords[i] == b.coords@[i] as int);
        }
    }
    sq_distance(&a.coords, &b.coords)
}

/// Copies a point.
pub fn clone_point(p: &Point) -> (r: Point)
    ensures
        r@ == p@,
{
    let mut coords: Vec<i64> = Vec::new();
    let mut i: usize = 0;
    while i < p.coords.len()
        invariant
            0 <= i <= p.coords@.len(),
            coords@ =~= p.coords@.take(i as int),
        decreases p.coords@.len() - i,
    {
        coords.push(p.coords[i]);
        i = i + 1;
    }
    proof {
        assert(coords@ =~= p.coords@);
        assert(coords@.map_values(|c: i64| c as int) =~= p.coords@.map_values(|c: i64| c as int));
    }
    Point { coords, deleted: p.deleted, tag: p.tag }
}

/// A nearest neighbor found by a query: the item together with its distance
/// from the target, rounded down to an integer.
#[derive(Debug)]
pub struct Neighbor {
    pub item: Point,
    pub distance: i64,
}

/// The mathematical value of a neighbor.
pub struct NeighborV {
    pub item: PointV,
    pub distance: int,
}

impl View for Neighbor {
    type V = NeighborV;

    open spec fn view(&self) -> NeighborV {
        NeighborV { item: self.item@, distance: self.distance as int }
    }
}

/// A candidate found during a search: an item together with its squared
/// distance from the target, kept squared for cheap comparison.
#[derive(Debug)]
pub struct Candidate {
    pub point: Point,
    pub dist2: i64,
}

/// The mathematical value of a candidate.
pub struct CandV {
    pub point: PointV,
    pub dist2: int,
}

impl View for Candidate {
    type V = CandV;

    open spec fn view(&self) -> CandV {
        CandV { point: self.point@, dist2: self.dist2 as int }
    }
}

/// Whether a squared distance lies within an optional squared threshold.
pub open spec fn in_bound(d: int, bound: Option<int>) -> bool {
    match bound {
        Some(t) => d <= t,
        None => true,
    }
}

/// The smaller of two integers.
pub open spec fn min_int(a: int, b: int) -> int {
    if a < b {
        a
    } else {
        b
    }
}

/// The items a candidate sequence holds, as a multiset.
pub open spec fn cand_points(cs: Seq<CandV>) -> Multiset<PointV> {
    cs.map_values(|c: CandV| c.point).to_multiset()
}

/// How many items of `m` lie within `bound` of the target `t`.
pub open spec fn count_within(m: Multiset<PointV>, t: Seq<int>, bound: Option<int>) -> int {
    m.filter(|p: PointV| in_bound(sq_dist(t, p.coords), bound)).len() as int
}

/// The deleted items of `m` removed.
pub open spec fn live(m: Multiset<PointV>) -> Multiset<PointV> {
    m.filter(|p: PointV| !p.deleted)
}

/// The items a search must offer to its accumulator: all of them, or only the
/// live ones when the accumulator filters deleted items.
pub open spec fn search_input(m: Multiset<PointV>, filtered: bool) -> Multiset<PointV> {
    if filtered {
        live(m)
    } else {
        m
    }
}

/// The mathematical value of a neighborhood accumulator.
pub struct NeighborhoodV {
    pub target: Seq<int>,
    pub k: nat,
    pub threshold: Option<int>,
    pub cands: Seq<CandV>,
    pub filter: bool,
}

/// An accumulator for nearest-neighbor search results.
///
/// It keeps up to `k` of the closest candidates offered so far, ordered by
/// ascending squared distance, and exposes its current admission threshold so
/// that indices can prune whole subtrees.  With `k == 1` it behaves as the
/// single-result tracker; with larger `k` as the bounded heap.  When `filter`
/// is set — the soft-delete adapter sets it — deleted items are never
/// accepted, though their distance is still reported for pruning.
#[derive(Debug)]
pub struct Neighborhood {
    target: Point,
    k: usize,
    threshold: Option<i64>,
    cands: Vec<Candidate>,
    filter: bool,
}

impl View for Neighborhood {
    type V = NeighborhoodV;

    closed spec fn view(&self) -> NeighborhoodV {
        NeighborhoodV {
            target: self.target@.coords,
            k: self.k as nat,
            threshold: match self.threshold {
                Some(t) => Some(t as int),
                None => None,
            },
            cands: self.cands@.map_values(|c: Candidate| c@),
            filter: self.filter,
        }
    }
}

/// The accumulator's invariant: a well-formed target; at most `k` candidates,
/// sorted by ascending squared distance, each holding its true squared
/// distance from the target and lying within the current threshold; and, once
/// `k` candidates are present, a threshold equal to the farthest of them.
pub open spec fn nb_wf(n: NeighborhoodV) -> bool {
    &&& wf_coords(n.target)
    &&& n.cands.len() <= n.k
    &&& forall|i: int, j: int|
        0 <= i < j < n.cands.len() ==> #[trigger] n.cands[i].dist2 <= #[trigger] n.cands[j].dist2
    &&& forall|i: int|
        0 <= i < n.cands.len() ==> (#[trigger] n.cands[i]).dist2 == sq_dist(
            n.target,
            n.cands[i].point.coords,
        ) && wf_point(n.cands[i].point) && n.cands[i].point.coords.len() == n.target.len()
    &&& forall|i: int| 0 <= i < n.cands.len() ==> in_bound(#[trigger] n.cands[i].dist2, n.threshold)
    &&& (n.k > 0 && n.cands.len() == n.k ==> n.threshold == Some(n.cands.last().dist2))
    &&& (match n.threshold {
        Some(t) => t >= 0,
        None => true,
    })
}

/// Whether a squared distance is currently admissible.
pub open spec fn contains_sq(n: NeighborhoodV, d: int) -> bool {
    n.k > 0 && in_bound(d, n.threshold)
}


/// No items of an empty multiset lie within any bound.
pub proof fn lemma_count_within_empty(t: Seq<int>, bound: Option<int>)
    ensures
        count_within(Multiset::empty(), t, bound) == 0,
{
    let f = |p: PointV| in_bound(sq_dist(t, p.coords), bound);
    assert(Multiset::<PointV>::empty().filter(f) =~= Multiset::empty());
}

/// Counting within a bound is additive over multiset union.
pub proof fn lemma_count_within_add(
    m1: Multiset<PointV>,
    m2: Multiset<PointV>,
    t: Seq<int>,
    bound: Option<int>,
)
    ensures
        count_within(m1.add(m2), t, bound) == count_within(m1, t, bound) + count_within(
            m2,
            t,
            bound,
        ),
{
    let f = |p: PointV| in_bound(sq_dist(t, p.coords), bound);
    assert(m1.add(m2).filter(f) =~= m1.filter(f).add(m2.filter(f)));
}

/// A single item counts as one exactly when it lies within the bound.
pub proof fn lemma_count_within_singleton(p: PointV, t: Seq<int>, bound: Option<int>)
    ensures
        count_within(Multiset::singleton(p), t, bound) == if in_bound(sq_dist(t, p.coords), bound) {
            1int
        } else {
            0int
        },
{
    let f = |q: PointV| in_bound(sq_dist(t, q.coords), bound);
    let m = Multiset::singleton(p);
    if f(p) {
        assert(m.filter(f) =~= m);
    } else {
        assert(m.filter(f) =~= Multiset::empty());
    }
}

/// A smaller multiset has no greater length.
pub proof fn lemma_subset_len<A>(m1: Multiset<A>, m2: Multiset<A>)
    requires
        m1.subset_of(m2),
    ensures
        m1.len() <= m2.len(),
{
    assert(m2 =~= m1.add(m2.sub(m1)));
}

/// Mapping a candidate sequence to views commutes with insertion.
proof fn lemma_cand_view_insert(s: Seq<Candidate>, i: int, c: Candidate)
    requires
        0 <= i <= s.len(),
    ensures
        s.insert(i, c).map_values(|x: Candidate| x@) =~= s.map_values(|x: Candidate| x@).insert(
            i,
            c@,
        ),
{
}

/// Mapping a candidate sequence to views commutes with dropping the last.
proof fn lemma_cand_view_drop_last(s: Seq<Candidate>)
    requires
        s.len() > 0,
    ensures
        s.subrange(0, s.len() - 1).map_values(|x: Candidate| x@) =~= s.map_values(
            |x: Candidate| x@,
        ).drop_last(),
{
}

/// The items of a candidate sequence with the last dropped.
proof fn lemma_cand_points_drop_last(s: Seq<CandV>)
    requires
        s.len() > 0,
    ensures
        cand_points(s) == cand_points(s.drop_last()).insert(s.last().point),
{
    let f = |c: CandV| c.point;
    assert(s.map_values(f) =~= s.drop_last().map_values(f).push(s.last().point));
}

/// The items of a candidate sequence with one candidate inserted.
proof fn lemma_cand_points_insert(s: Seq<CandV>, i: int, c: CandV)
    requires
        0 <= i <= s.len(),
    ensures
        cand_points(s.insert(i, c)) == cand_points(s).insert(c.point),
{
    let f = |x: CandV| x.point;
    assert(s.insert(i, c).map_values(f) =~= s.map_values(f).insert(i, c.point));
}

/// What one round of a search does to an accumulator.
///
/// `absorb(pre, items, post)` says that `post` is a correct result of offering
/// every item of the multiset `items` to the accumulator `pre`, in some order:
/// the candidates of `post` come from the old candidates and `items`; their
/// number is exactly `k`, or the number of admissible points if fewer; every
/// kept candidate lies within the threshold `pre` started with; everything
/// dropped is at least as far as everything kept (or inadmissible, while the
/// accumulator is not full); and the threshold has tightened to the farthest
/// kept candidate exactly when `k` candidates are present.
pub open spec fn absorb(pre: NeighborhoodV, items: Multiset<PointV>, post: NeighborhoodV) -> bool {
    let pool = cand_points(pre.cands).add(items);
    let removed = pool.sub(cand_points(post.cands));
    &&& post.target == pre.target
    &&& post.k == pre.k
    &&& post.filter == pre.filter
    &&& cand_points(post.cands).subset_of(pool)
    &&& post.cands.len() == min_int(
        pre.k as int,
        pre.cands.len() + count_within(items, pre.target, pre.threshold),
    )
    &&& forall|i: int|
        0 <= i < post.cands.len() ==> in_bound(#[trigger] post.cands[i].dist2, pre.threshold)
    &&& (post.cands.len() == pre.k ==> forall|p: PointV, i: int|
        #[trigger] removed.count(p) > 0 && 0 <= i < post.cands.len() ==> sq_dist(pre.target, p.coords)
            >= #[trigger] post.cands[i].dist2)
    &&& (post.cands.len() < pre.k ==> forall|p: PointV|
        #[trigger] removed.count(p) > 0 ==> !in_bound(sq_dist(pre.target, p.coords), pre.threshold))
    &&& post.threshold == (if pre.k > 0 && post.cands.len() == pre.k {
        Some(post.cands.last().dist2)
    } else {
        pre.threshold
    })
}

/// Finds the position at which a squared distance belongs in a sorted
/// candidate list: after every candidate at most as far, before every
/// candidate strictly farther.
fn insert_pos(cands: &Vec<Candidate>, d: i64) -> (pos: usize)
    requires
        forall|i: int, j: int|
            0 <= i < j < cands@.len() ==> #[trigger] cands@[i].dist2 <= #[trigger] cands@[j].dist2,
    ensures
        pos <= cands@.len(),
        forall|j: int| 0 <= j < pos ==> #[trigger] cands@[j].dist2 <= d,
        forall|j: int| pos <= j < cands@.len() ==> #[trigger] cands@[j].dist2 > d,
{
    let mut pos: usize = cands.len();
    while pos > 0 && cands[pos - 1].dist2 > d
        invariant
            0 <= pos <= cands@.len(),
            forall|i: int, j: int|
                0 <= i < j < cands@.len() ==> #[trigger] cands@[i].dist2 <= #[trigger] cands@[j].dist2,
            forall|j: int| pos <= j < cands@.len() ==> #[trigger] cands@[j].dist2 > d,
        decreases pos,
    {
        pos = pos - 1;
    }
    pos
}

impl Neighborhood {
    /// Creates an accumulator for up to `k` results around `target`, bounded
    /// by an optional initial squared threshold.
    pub fn new(target: Point, k: usize, threshold: Option<i64>) -> (n: Self)
        requires
            wf_point(target@),
            match threshold {
                Some(t) => t >= 0,
                None => true,
            },
        ensures
            n@.target == target@.coords,
            n@.k == k,
            n@.threshold == (match threshold {
                Some(t) => Some(t as int),
                None => None::<int>,
            }),
            n@.cands =~= Seq::<CandV>::empty(),
            n@.filter == false,
            nb_wf(n@),
    {
        let n = Neighborhood { target, k, threshold, cands: Vec::new(), filter: false };
        proof {
            assert(n@.cands =~= Seq::<CandV>::empty());
        }
        n
    }

    /// The number of coordinates of the target.
    pub fn target_dims(&self) -> (d: usize)
        ensures
            d == self@.target.len(),
    {
        self.target.coords.len()
    }

    /// One coordinate of the target.
    pub fn target_coord(&self, i: usize) -> (c: i64)
        requires
            i < self@.target.len(),
        ensures
            c as int == self@.target[i as int],
    {
        self.target.coords[i]
    }

    /// A copy of the target's coordinates.
    pub fn target_coords(&self) -> (v: Vec<i64>)
        ensures
            v@.map_values(|c: i64| c as int) == self@.target,
    {
        let v = clone_point(&self.target).coords;
        v
    }

    /// Whether a squared distance is currently admissible.
    pub fn contains_distance(&self, d: i64) -> (r: bool)
        ensures
            r == contains_sq(self@, d as int),
    {
        self.k > 0 && match self.threshold {
            Some(t) => d <= t,
            None => true,
        }
    }

    /// The number of results the accumulator keeps.
    pub fn result_limit(&self) -> (k: usize)
        ensures
            k == self@.k,
    {
        self.k
    }

    /// The current squared admission threshold, if one is in force.
    pub fn current_threshold(&self) -> (t: Option<i64>)
        ensures
            match t {
                Some(v) => self@.threshold == Some(v as int),
                None => self@.threshold is None,
            },
    {
        self.threshold
    }

    /// Whether the accumulator currently rejects deleted items.
    pub fn get_filter(&self) -> (r: bool)
        ensures
            r == self@.filter,
    {
        self.filter
    }

    /// Marks the accumulator as one that rejects deleted items.
    pub fn set_filter(&mut self, filter: bool)
        ensures
            final(self)@ == (NeighborhoodV { filter, ..old(self)@ }),
    {
        self.filter = filter;
    }

    /// Offers a candidate.  The item is accepted when its squared distance is
    /// within the current threshold (and the item is live, when filtering);
    /// either way the squared distance is returned so that the caller can use
    /// it to prune.
    pub fn consider(&mut self, item: &Point) -> (d: i64)
        requires
            nb_wf(old(self)@),
            wf_point(item@),
            item@.coords.len() == old(self)@.target.len(),
        ensures
            d as int == sq_dist(old(self)@.target, item@.coords),
            0 <= d,
            nb_wf(final(self)@),
            if old(self)@.filter && item@.deleted {
                final(self)@ == old(self)@
            } else {
                absorb(old(self)@, Multiset::singleton(item@), final(self)@)
            },
    {
        let ghost pre = self@;
        let ghost m = Multiset::singleton(item@);
        proof {
            assert forall|i: int| 0 <= i < self.target.coords@.len() implies -COORD_LIMIT
                <= #[trigger] self.target.coords@[i] <= COORD_LIMIT by {
                assert(pre.target[i] == self.target.coords@[i] as int);
            }
            assert forall|i: int| 0 <= i < item.coords@.len() implies -COORD_LIMIT
                <= #[trigger] item.coords@[i] <= COORD_LIMIT by {
                assert(item@.coords[i] == item.coords@[i] as int);
            }
        }
        let d = sq_distance(&self.target.coords, &item.coords);
        if self.filter && item.deleted {
            return d;
        }
        let accept = self.contains_distance(d);
        proof {
            lemma_count_within_singleton(item@, pre.target, pre.threshold);
        }
        if accept {
            let ghost evicted_any = self.cands.len() == self.k;
            let ghost evicted = pre.cands.last();
            let ghost mid = if evicted_any {
                pre.cands.drop_last()
            } else {
                pre.cands
            };
            if self.cands.len() == self.k {
                let _ = self.cands.pop();
                proof {
                    lemma_cand_view_drop_last(old(self).cands@);
                    assert(self@.cands =~= mid);
                }
            }
            proof {
                assert(self@.cands =~= mid);
                assert forall|i: int, j: int| 0 <= i < j < self.cands@.len() implies #[trigger] self
                    .cands@[i].dist2 <= #[trigger] self.cands@[j].dist2 by {
                    assert(mid[i] == self.cands@[i]@ && mid[j] == self.cands@[j]@);
                    assert(pre.cands[i].dist2 <= pre.cands[j].dist2);
                }
            }
            let pos = insert_pos(&self.cands, d);
            let c = Candidate { point: clone_point(item), dist2: d };
            let ghost cv = c@;
            let ghost before_exec = self.cands@;
            self.cands.insert(pos, c);
            proof {
                lemma_cand_view_insert(before_exec, pos as int, c);
                assert(self@.cands =~= mid.insert(pos as int, cv));
            }
            if self.cands.len() == self.k {
                let t = self.cands[self.cands.len() - 1].dist2;
                self.threshold = Some(t);
            }
            proof {
                lemma_sq_dist_nonneg(pre.target, item@.coords);
                assert forall|j: int| 0 <= j < pos implies #[trigger] mid[j].dist2 <= d as int by {
                    assert(mid[j] == before_exec[j]@);
                }
                assert forall|j: int| pos <= j < mid.len() implies #[trigger] mid[j].dist2
                    > d as int by {
                    assert(mid[j] == before_exec[j]@);
                }
                lemma_consider_accepted(pre, item@, d as int, evicted_any, mid, pos as int, self@);
            }
            d
        } else {
            proof {
                lemma_consider_rejected(pre, item@, d as int);
            }
            d
        }
    }
}

/// An accumulator that rejects a candidate absorbs it with no change.
proof fn lemma_consider_rejected(pre: NeighborhoodV, p: PointV, d: int)
    requires
        nb_wf(pre),
        d == sq_dist(pre.target, p.coords),
        !contains_sq(pre, d),
    ensures
        absorb(pre, Multiset::singleton(p), pre),
{
    let m = Multiset::singleton(p);
    let pool = cand_points(pre.cands).add(m);
    let removed = pool.sub(cand_points(pre.cands));
    lemma_count_within_singleton(p, pre.target, pre.threshold);
    assert(cand_points(pre.cands).subset_of(pool));
    if pre.k == 0 {
        assert(pre.cands.len() == 0);
        assert(count_within(m, pre.target, pre.threshold) >= 0);
        assert(pre.cands.len() == min_int(
            pre.k as int,
            pre.cands.len() + count_within(m, pre.target, pre.threshold),
        ));
    } else {
        assert(!in_bound(d, pre.threshold));
    }
    assert(forall|q: PointV| removed.count(q) > 0 ==> q == p);
}

/// An accumulator that accepts a candidate absorbs it: the candidate enters in
/// sorted position, the farthest leaves when the accumulator was full, and
/// the threshold tightens to the new farthest when it is full.
proof fn lemma_consider_accepted(
    pre: NeighborhoodV,
    p: PointV,
    d: int,
    evicted_any: bool,
    mid: Seq<CandV>,
    pos: int,
    post: NeighborhoodV,
)
    requires
        nb_wf(pre),
        wf_point(p),
        p.coords.len() == pre.target.len(),
        d == sq_dist(pre.target, p.coords),
        contains_sq(pre, d),
        d >= 0,
        evicted_any == (pre.cands.len() == pre.k),
        mid == (if evicted_any {
            pre.cands.drop_last()
        } else {
            pre.cands
        }),
        0 <= pos <= mid.len(),
        forall|j: int| 0 <= j < pos ==> #[trigger] mid[j].dist2 <= d,
        forall|j: int| pos <= j < mid.len() ==> #[trigger] mid[j].dist2 > d,
        post.cands == mid.insert(pos, CandV { point: p, dist2: d }),
        post.target == pre.target,
        post.k == pre.k,
        post.filter == pre.filter,
        post.threshold == (if post.cands.len() == pre.k {
            Some(post.cands.last().dist2)
        } else {
            pre.threshold
        }),
    ensures
        nb_wf(post),
        absorb(pre, Multiset::singleton(p), post),
{
    let m = Multiset::singleton(p);
    let cv = CandV { point: p, dist2: d };
    let pool = cand_points(pre.cands).add(m);
    lemma_count_within_singleton(p, pre.target, pre.threshold);
    lemma_cand_points_insert(mid, pos, cv);
    if evicted_any {
        lemma_cand_points_drop_last(pre.cands);
    }
    let removed = pool.sub(cand_points(post.cands));

    // Well-formedness of the result.
    assert(forall|i: int|
        0 <= i < post.cands.len() && i != pos ==> post.cands[i] == (if i < pos {
            mid[i]
        } else {
            mid[i - 1]
        }));
    assert(post.cands[pos] == cv);
    assert(forall|x: int| 0 <= x < mid.len() ==> #[trigger] mid[x] == pre.cands[x]);
    assert forall|i: int, j: int| 0 <= i < j < post.cands.len() implies #[trigger] post.cands[i].dist2
        <= #[trigger] post.cands[j].dist2 by {
        if i < pos && j < pos {
            assert(post.cands[i] == mid[i] && post.cands[j] == mid[j]);
        } else if i < pos && j == pos {
            assert(post.cands[i] == mid[i] && post.cands[j] == cv);
        } else if i < pos && j > pos {
            assert(post.cands[i] == mid[i] && post.cands[j] == mid[j - 1]);
            assert(mid[i].dist2 <= d);
            assert(mid[j - 1].dist2 > d);
        } else if i == pos {
            assert(post.cands[i] == cv && post.cands[j] == mid[j - 1]);
            assert(mid[j - 1].dist2 > d);
        } else {
            assert(post.cands[i] == mid[i - 1] && post.cands[j] == mid[j - 1]);
        }
    }
    if post.cands.len() == pre.k && pre.k > 0 {
        assert(post.threshold == Some(post.cands.last().dist2));
        assert(post.cands.last().dist2 >= 0) by {
            if post.cands.len() - 1 == pos {
            } else {
                lemma_sq_dist_nonneg(pre.target, post.cands.last().point.coords);
            }
        }
    }
    assert(nb_wf(post));

    // The absorb clauses.
    assert(cand_points(post.cands).subset_of(pool)) by {
        if evicted_any {
            assert(cand_points(pre.cands) == cand_points(mid).insert(pre.cands.last().point));
        }
    }
    assert(post.cands.len() == min_int(
        pre.k as int,
        pre.cands.len() + count_within(m, pre.target, pre.threshold),
    ));
    if evicted_any {
        let ev = pre.cands.last();
        assert(cand_points(pre.cands) == cand_points(mid).insert(ev.point));
        assert forall|q: PointV, i: int|
            #[trigger] removed.count(q) > 0 && 0 <= i < post.cands.len() implies sq_dist(
            pre.target,
            q.coords,
        ) >= #[trigger] post.cands[i].dist2 by {
            assert(removed.count(q) > 0 ==> q == ev.point);
            assert(ev.dist2 == sq_dist(pre.target, ev.point.coords));
            assert(pre.threshold == Some(pre.cands.last().dist2));
            assert(post.cands[i].dist2 <= ev.dist2);
        }
    } else {
        assert(removed =~= Multiset::empty());
        assert(forall|q: PointV| removed.count(q) > 0 ==> false);
    }
}

/// Absorbing nothing changes nothing.
pub proof fn lemma_absorb_refl(n: NeighborhoodV)
    requires
        nb_wf(n),
    ensures
        absorb(n, Multiset::empty(), n),
{
    lemma_count_within_empty(n.target, n.threshold);
    let pool = cand_points(n.cands).add(Multiset::<PointV>::empty());
    assert(pool =~= cand_points(n.cands));
    assert(pool.sub(cand_points(n.cands)) =~= Multiset::<PointV>::empty());
    assert(cand_points(n.cands).subset_of(pool));
}

/// A whole group of candidates may be skipped when none of them is
/// admissible: the accumulator absorbs them with no change.  This is what
/// justifies geometric pruning.
pub proof fn lemma_absorb_skip(n: NeighborhoodV, m: Multiset<PointV>)
    requires
        nb_wf(n),
        forall|p: PointV|
            #[trigger] m.count(p) > 0 ==> !contains_sq(n, sq_dist(n.target, p.coords)),
    ensures
        absorb(n, m, n),
{
    let pool = cand_points(n.cands).add(m);
    let removed = pool.sub(cand_points(n.cands));
    assert(removed =~= m);
    assert(cand_points(n.cands).subset_of(pool));
    if n.k == 0 {
        assert(n.cands.len() == 0);
        assert(count_within(m, n.target, n.threshold) >= 0);
    } else {
        let f = |p: PointV| in_bound(sq_dist(n.target, p.coords), n.threshold);
        assert(m.filter(f) =~= Multiset::<PointV>::empty());
        assert(count_within(m, n.target, n.threshold) == 0);
    }
    if n.cands.len() == n.k {
        assert forall|p: PointV, i: int|
            #[trigger] removed.count(p) > 0 && 0 <= i < n.cands.len() implies sq_dist(
            n.target,
            p.coords,
        ) >= #[trigger] n.cands[i].dist2 by {
            assert(m.count(p) > 0);
            assert(!in_bound(sq_dist(n.target, p.coords), n.threshold));
            assert(in_bound(n.cands[i].dist2, n.threshold));
        }
    }
}

/// Absorptions compose: the result of absorbing `m1` and then `m2` is a
/// correct absorption of `m1 + m2` in one step.
pub proof fn lemma_absorb_trans(
    a: NeighborhoodV,
    m1: Multiset<PointV>,
    b: NeighborhoodV,
    m2: Multiset<PointV>,
    c: NeighborhoodV,
)
    requires
        nb_wf(a),
        nb_wf(b),
        nb_wf(c),
        absorb(a, m1, b),
        absorb(b, m2, c),
    ensures
        absorb(a, m1.add(m2), c),
{
    let t = a.target;
    let pa = cand_points(a.cands);
    let pb = cand_points(b.cands);
    let pc = cand_points(c.cands);
    let m = m1.add(m2);
    let pool = pa.add(m);
    let removed = pool.sub(pc);
    lemma_count_within_add(m1, m2, t, a.threshold);
    let cw1 = count_within(m1, t, a.threshold);
    let cw2a = count_within(m2, t, a.threshold);
    let cw2b = count_within(m2, t, b.threshold);

    assert(cw1 >= 0 && cw2a >= 0 && cw2b >= 0);
    assert(pc.subset_of(pool));

    // Count clause.
    if b.cands.len() < b.k {
        assert(b.threshold == a.threshold);
        assert(c.cands.len() == min_int(a.k as int, a.cands.len() + count_within(m, t, a.threshold)));
    } else {
        assert(b.cands.len() == b.k);
        if a.k > 0 {
            assert(a.cands.len() + cw1 >= a.k);
            assert(c.cands.len() == a.k);
        } else {
            assert(c.cands.len() == 0);
        }
        assert(c.cands.len() == min_int(a.k as int, a.cands.len() + count_within(m, t, a.threshold)));
    }

    // Every kept candidate lies within a's threshold.
    assert forall|i: int| 0 <= i < c.cands.len() implies in_bound(
        #[trigger] c.cands[i].dist2,
        a.threshold,
    ) by {
        if b.cands.len() == b.k && b.k > 0 {
            assert(b.threshold == Some(b.cands.last().dist2));
            assert(in_bound(b.cands[b.cands.len() - 1].dist2, a.threshold));
            assert(in_bound(c.cands[i].dist2, b.threshold));
        } else {
            assert(b.threshold == a.threshold);
            assert(in_bound(c.cands[i].dist2, b.threshold));
        }
    }

    // Removal clauses.
    let rem1 = pa.add(m1).sub(pb);
    let rem2 = pb.add(m2).sub(pc);
    if c.cands.len() == c.k {
        assert forall|p: PointV, i: int|
            #[trigger] removed.count(p) > 0 && 0 <= i < c.cands.len() implies sq_dist(t, p.coords)
            >= #[trigger] c.cands[i].dist2 by {
            assert(pa.count(p) + m1.count(p) + m2.count(p) > pc.count(p));
            if rem2.count(p) > 0 {
                assert(sq_dist(t, p.coords) >= c.cands[i].dist2);
            } else {
                assert(rem1.count(p) > 0) by {
                    assert(pb.count(p) + m2.count(p) <= pc.count(p) ==> pa.count(p) + m1.count(p)
                        > pb.count(p));
                }
                if b.cands.len() == b.k {
                    assert(b.k > 0);
                    assert(sq_dist(t, p.coords) >= b.cands[b.cands.len() - 1].dist2);
                    assert(b.threshold == Some(b.cands.last().dist2));
                    assert(in_bound(c.cands[i].dist2, b.threshold));
                } else {
                    assert(!in_bound(sq_dist(t, p.coords), a.threshold));
                    assert(in_bound(c.cands[i].dist2, a.threshold));
                }
            }
        }
    } else {
        assert(c.cands.len() < c.k);
        assert(b.cands.len() <= c.cands.len());
        assert(b.cands.len() < b.k);
        assert(b.threshold == a.threshold);
        assert forall|p: PointV| #[trigger] removed.count(p) > 0 implies !in_bound(
            sq_dist(t, p.coords),
            a.threshold,
        ) by {
            assert(pa.count(p) + m1.count(p) + m2.count(p) > pc.count(p));
            if rem2.count(p) > 0 {
                assert(!in_bound(sq_dist(t, p.coords), b.threshold));
            } else {
                assert(rem1.count(p) > 0) by {
                    assert(pb.count(p) + m2.count(p) <= pc.count(p) ==> pa.count(p) + m1.count(p)
                        > pb.count(p));
                }
            }
        }
    }

    // Threshold clause.
    if !(c.k > 0 && c.cands.len() == c.k) {
        assert(c.cands.len() < c.k || c.k == 0);
        if c.k > 0 {
            assert(b.cands.len() <= c.cands.len());
            assert(b.threshold == a.threshold);
        }
        assert(c.threshold == a.threshold);
    }
}

impl Neighborhood {
    /// Converts the accumulated candidates, already sorted by ascending
    /// distance, into neighbors carrying rounded-down distances.
    pub fn into_vec(self) -> (r: Vec<Neighbor>)
        requires
            nb_wf(self@),
        ensures
            r@.len() == self@.cands.len(),
            forall|i: int|
                0 <= i < r@.len() ==> (#[trigger] r@[i])@.item == self@.cands[i].point && is_isqrt(
                    self@.cands[i].dist2,
                    r@[i]@.distance,
                ),
    {
        let ghost me = self@;
        let mut cands = self.cands;
        let mut r: Vec<Neighbor> = Vec::new();
        let n = cands.len();
        let mut i: usize = 0;
        while i < n
            invariant
                0 <= i <= n,
                n == me.cands.len(),
                cands@.map_values(|c: Candidate| c@) =~= me.cands,
                nb_wf(me),
                r@.len() == i,
                forall|j: int|
                    0 <= j < i ==> (#[trigger] r@[j])@.item == me.cands[j].point && is_isqrt(
                        me.cands[j].dist2,
                        r@[j]@.distance,
                    ),
            decreases n - i,
        {
            proof {
                assert(me.cands[i as int] == cands@[i as int]@);
                lemma_sq_dist_nonneg(me.target, me.cands[i as int].point.coords);
            }
            let item = clone_point(&cands[i].point);
            let distance = isqrt(cands[i].dist2);
            r.push(Neighbor { item, distance });
            i = i + 1;
        }
        r
    }

    /// Converts the accumulator into its closest candidate, if any.
    pub fn into_option(self) -> (r: Option<Neighbor>)
        requires
            nb_wf(self@),
        ensures
            match r {
                None => self@.cands.len() == 0,
                Some(n) => self@.cands.len() > 0 && n@.item == self@.cands[0].point && is_isqrt(
                    self@.cands[0].dist2,
                    n@.distance,
                ),
            },
    {
        if self.cands.len() == 0 {
            None
        } else {
            proof {
                assert(self@.cands[0] == self.cands@[0]@);
                lemma_sq_dist_nonneg(self@.target, self@.cands[0].point.coords);
            }
            let item = clone_point(&self.cands[0].point);
            let distance = isqrt(self.cands[0].dist2);
            Some(Neighbor { item, distance })
        }
    }
}

/// The views of a sequence of points, as a multiset.
pub open spec fn points_of(s: Seq<Point>) -> Multiset<PointV> {
    s.map_values(|p: Point| p@).to_multiset()
}

/// The views of a sequence of point views, as a multiset.
pub open spec fn views_of(s: Seq<PointV>) -> Multiset<PointV> {
    s.to_multiset()
}

/// The points of a concatenation are the two multisets joined.
pub proof fn lemma_points_of_concat(a: Seq<Point>, b: Seq<Point>)
    ensures
        points_of(a + b) == points_of(a).add(points_of(b)),
{
    assert((a + b).map_values(|p: Point| p@) =~= a.map_values(|p: Point| p@) + b.map_values(
        |p: Point| p@,
    ));
    vstd::seq_lib::lemma_multiset_commutative(
        a.map_values(|p: Point| p@),
        b.map_values(|p: Point| p@),
    );
}

/// An item counted in the points of a sequence stands at some index of it.
pub proof fn lemma_points_member(s: Seq<Point>, p: PointV)
    requires
        points_of(s).count(p) > 0,
    ensures
        exists|i: int| 0 <= i < s.len() && (#[trigger] s[i])@ == p,
{
    let ms = s.map_values(|q: Point| q@);
    assert(ms.contains(p));
    let i = choose|i: int| 0 <= i < ms.len() && #[trigger] ms[i] == p;
    assert(s[i]@ == p);
}

/// A sequence of points from which an index can be built: every point well
/// formed, and all of one dimensionality.
pub open spec fn buildable(s: Seq<Point>) -> bool {
    &&& forall|i: int| 0 <= i < s.len() ==> wf_point((#[trigger] s[i])@)
    &&& forall|i: int, j: int|
        0 <= i < s.len() && 0 <= j < s.len() ==> (#[trigger] s[i])@.coords.len() == (
        #[trigger] s[j])@.coords.len()
}

/// Every item of `m` is well formed and shares the dimensionality of `t`.
pub open spec fn compat(m: Multiset<PointV>, t: Seq<int>) -> bool {
    forall|p: PointV|
        #[trigger] m.count(p) > 0 ==> wf_point(p) && p.coords.len() == t.len()
}

/// Compatibility restricts to sub-multisets.
pub proof fn lemma_compat_subset(m1: Multiset<PointV>, m2: Multiset<PointV>, t: Seq<int>)
    requires
        compat(m2, t),
        m1.subset_of(m2),
    ensures
        compat(m1, t),
{
}

/// The full correctness statement of a k-nearest query: `res` is what a
/// bounded-size accumulator keeps of `items`.  It holds the `k` closest items
/// within the bound — all of them, if fewer — sorted by ascending distance,
/// each reported with its true distance rounded down; everything left out is
/// at least as far as everything kept, or out of bounds.
pub open spec fn knn_result(
    items: Multiset<PointV>,
    t: Seq<int>,
    k: nat,
    bound: Option<int>,
    res: Seq<NeighborV>,
) -> bool {
    let kept = res.map_values(|n: NeighborV| n.item).to_multiset();
    let removed = items.sub(kept);
    &&& kept.subset_of(items)
    &&& res.len() == min_int(k as int, count_within(items, t, bound))
    &&& forall|i: int|
        0 <= i < res.len() ==> in_bound(sq_dist(t, (#[trigger] res[i]).item.coords), bound)
    &&& forall|i: int|
        0 <= i < res.len() ==> is_isqrt(
            sq_dist(t, (#[trigger] res[i]).item.coords),
            res[i].distance,
        )
    &&& forall|i: int, j: int|
        0 <= i < j < res.len() ==> sq_dist(t, (#[trigger] res[i]).item.coords) <= sq_dist(
            t,
            (#[trigger] res[j]).item.coords,
        )
    &&& (res.len() == k ==> forall|p: PointV, i: int|
        #[trigger] removed.count(p) > 0 && 0 <= i < res.len() ==> sq_dist(t, p.coords) >= sq_dist(
            t,
            (#[trigger] res[i]).item.coords,
        ))
    &&& (res.len() < k ==> forall|p: PointV|
        #[trigger] removed.count(p) > 0 ==> !in_bound(sq_dist(t, p.coords), bound))
}

/// The correctness statement of a single-nearest query: the result is an item
/// of `items` within the bound at smallest distance from `t`, reported with
/// its true distance rounded down, or nothing when no item lies within the
/// bound.
pub open spec fn nearest_result(
    items: Multiset<PointV>,
    t: Seq<int>,
    bound: Option<int>,
    r: Option<NeighborV>,
) -> bool {
    match r {
        None => count_within(items, t, bound) == 0,
        Some(n) => {
            &&& items.count(n.item) > 0
            &&& in_bound(sq_dist(t, n.item.coords), bound)
            &&& is_isqrt(sq_dist(t, n.item.coords), n.distance)
            &&& forall|p: PointV|
                #[trigger] items.count(p) > 0 ==> sq_dist(t, p.coords) >= sq_dist(t, n.item.coords)
        },
    }
}

/// Two correct nearest results over the same items agree, whatever index
/// produced them and however it was built: both are empty together, and
/// otherwise both report the same distance.  Ties can change which item is
/// returned, never how far it is.
pub proof fn lemma_nearest_agrees(
    items: Multiset<PointV>,
    t: Seq<int>,
    bound: Option<int>,
    r1: Option<NeighborV>,
    r2: Option<NeighborV>,
)
    requires
        nearest_result(items, t, bound, r1),
        nearest_result(items, t, bound, r2),
    ensures
        r1 is Some <==> r2 is Some,
        (r1 is Some && r2 is Some) ==> r1.unwrap().distance == r2.unwrap().distance
            && sq_dist(t, r1.unwrap().item.coords) == sq_dist(t, r2.unwrap().item.coords),
{
    let f = |p: PointV| in_bound(sq_dist(t, p.coords), bound);
    match (r1, r2) {
        (Some(n1), Some(n2)) => {
            assert(sq_dist(t, n1.item.coords) >= sq_dist(t, n2.item.coords));
            assert(sq_dist(t, n2.item.coords) >= sq_dist(t, n1.item.coords));
            lemma_isqrt_unique(sq_dist(t, n1.item.coords), n1.distance, n2.distance);
        },
        (Some(n1), None) => {
            assert(items.filter(f).count(n1.item) > 0);
            assert(items.filter(f).count(n1.item) <= items.filter(f).len());
            assert(false);
        },
        (None, Some(n2)) => {
            assert(items.filter(f).count(n2.item) > 0);
            assert(items.filter(f).count(n2.item) <= items.filter(f).len());
            assert(false);
        },
        (None, None) => {
        },
    }
}

/// No correct k-nearest result can put a farther item at a position where
/// another correct result over the same items has a closer one: counting
/// the items within the closer distance would run out.
proof fn lemma_knn_not_farther(
    items: Multiset<PointV>,
    t: Seq<int>,
    k: nat,
    bound: Option<int>,
    ra: Seq<NeighborV>,
    rb: Seq<NeighborV>,
    m: int,
)
    requires
        knn_result(items, t, k, bound, ra),
        knn_result(items, t, k, bound, rb),
        0 <= m < ra.len(),
        ra.len() == rb.len(),
    ensures
        sq_dist(t, rb[m].item.coords) <= sq_dist(t, ra[m].item.coords),
{
    if sq_dist(t, rb[m].item.coords) <= sq_dist(t, ra[m].item.coords) {
        return ;
    }
    let v = sq_dist(t, ra[m].item.coords);
    let f = |p: PointV| in_bound(sq_dist(t, p.coords), Some(v));
    let ka = ra.map_values(|n: NeighborV| n.item);
    let kb = rb.map_values(|n: NeighborV| n.item);
    let kam = ka.to_multiset();
    let kbm = kb.to_multiset();
    let removed_b = items.sub(kbm);

    // at least m + 1 items of `items` lie within v: the first m + 1 kept by
    // `ra` all do
    let pre = ka.take(m + 1);
    assert(ka =~= pre + ka.skip(m + 1));
    vstd::seq_lib::lemma_multiset_commutative(pre, ka.skip(m + 1));
    assert forall|p: PointV| #[trigger] pre.to_multiset().count(p) <= items.filter(f).count(
        p,
    ) by {
        if pre.to_multiset().count(p) > 0 {
            assert(pre.contains(p));
            let i0 = choose|i0: int| 0 <= i0 < pre.len() && #[trigger] pre[i0] == p;
            assert(ka[i0] == p);
            assert(p == ra[i0].item);
            if i0 < m {
                assert(sq_dist(t, ra[i0].item.coords) <= sq_dist(t, ra[m].item.coords));
            }
            assert(f(p));
            assert(kam.count(p) == pre.to_multiset().count(p) + ka.skip(m + 1).to_multiset().count(
                p,
            ));
            assert(kam.count(p) <= items.count(p));
            assert(items.filter(f).count(p) == items.count(p));
        }
    }
    assert(pre.to_multiset().subset_of(items.filter(f)));
    lemma_subset_len(pre.to_multiset(), items.filter(f));
    assert(pre.to_multiset().len() == m + 1);

    // yet at most m items of `items` lie within v: everything within v is
    // kept by `rb`, and `rb` keeps such items only before position m
    let prb = kb.take(m);
    assert(kb =~= prb + kb.skip(m));
    vstd::seq_lib::lemma_multiset_commutative(prb, kb.skip(m));
    assert forall|p: PointV| #[trigger] items.filter(f).count(p) <= prb.to_multiset().count(
        p,
    ) by {
        if items.filter(f).count(p) > 0 {
            assert(f(p));
            assert(items.filter(f).count(p) == items.count(p));
            assert(kbm.count(p) <= items.count(p));
            assert(removed_b.count(p) == items.count(p) - kbm.count(p));
            if removed_b.count(p) > 0 {
                if rb.len() == k {
                    assert(sq_dist(t, p.coords) >= sq_dist(t, rb[m].item.coords));
                } else {
                    assert(!in_bound(sq_dist(t, p.coords), bound));
                    assert(in_bound(sq_dist(t, ra[m].item.coords), bound));
                    assert(in_bound(sq_dist(t, p.coords), bound));
                }
                assert(false);
            }
            assert(items.count(p) == kbm.count(p));
            assert(kb.skip(m).to_multiset().count(p) == 0) by {
                if kb.skip(m).to_multiset().count(p) > 0 {
                    assert(kb.skip(m).contains(p));
                    let j = choose|j: int|
                        0 <= j < kb.skip(m).len() && #[trigger] kb.skip(m)[j] == p;
                    assert(kb[m + j] == p);
                    assert(p == rb[m + j].item);
                    if m < m + j {
                        assert(sq_dist(t, rb[m].item.coords) <= sq_dist(
                            t,
                            rb[m + j].item.coords,
                        ));
                    }
                    assert(sq_dist(t, p.coords) > v);
                    assert(false);
                }
            }
            assert(kbm.count(p) == prb.to_multiset().count(p) + kb.skip(m).to_multiset().count(p));
        }
    }
    assert(items.filter(f).subset_of(prb.to_multiset()));
    lemma_subset_len(items.filter(f), prb.to_multiset());
    assert(prb.to_multiset().len() == m);
    assert(false);
}

/// The bounded query is the unbounded one cut at the threshold: the prefix
/// of a correct unbounded k-nearest result that lies within a bound is
/// itself a correct bounded k-nearest result for that bound.  Together with
/// `lemma_k_nearest_agrees`, this pins every bounded result to the filtered
/// unbounded one, up to the exchange of equally distant items.
#[verifier::rlimit(60)]
pub proof fn lemma_k_nearest_within_is_filtered(
    items: Multiset<PointV>,
    t: Seq<int>,
    k: nat,
    tau: int,
    r: Seq<NeighborV>,
    j: int,
)
    requires
        knn_result(items, t, k, None, r),
        0 <= j <= r.len(),
        forall|i: int| 0 <= i < j ==> sq_dist(t, (#[trigger] r[i]).item.coords) <= tau,
        forall|i: int| j <= i < r.len() ==> sq_dist(t, (#[trigger] r[i]).item.coords) > tau,
    ensures
        knn_result(items, t, k, Some(tau), r.take(j)),
{
    let f = |p: PointV| in_bound(sq_dist(t, p.coords), Some(tau));
    let fnone = |p: PointV| in_bound(sq_dist(t, p.coords), None::<int>);
    let rt = r.take(j);
    let kseq = r.map_values(|n: NeighborV| n.item);
    let ktseq = rt.map_values(|n: NeighborV| n.item);
    let kept = kseq.to_multiset();
    let kept_t = ktseq.to_multiset();
    let removed = items.sub(kept);
    let removed_t = items.sub(kept_t);
    assert(ktseq =~= kseq.take(j));
    assert(kseq =~= ktseq + kseq.skip(j));
    vstd::seq_lib::lemma_multiset_commutative(ktseq, kseq.skip(j));
    assert(forall|p: PointV|
        #[trigger] kept.count(p) == kept_t.count(p) + kseq.skip(j).to_multiset().count(p));
    assert(kept_t.subset_of(items)) by {
        assert(forall|p: PointV| #[trigger] kept_t.count(p) <= kept.count(p));
    }
    assert(items.filter(fnone) =~= items);
    assert(r.len() == min_int(k as int, items.len() as int));

    // at least j items lie within the bound: the cut prefix does
    assert forall|p: PointV| #[trigger] kept_t.count(p) <= items.filter(f).count(p) by {
        if kept_t.count(p) > 0 {
            assert(ktseq.contains(p));
            let i0 = choose|i0: int| 0 <= i0 < ktseq.len() && #[trigger] ktseq[i0] == p;
            assert(p == r[i0].item);
            assert(f(p));
            assert(items.filter(f).count(p) == items.count(p));
        }
    }
    assert(kept_t.subset_of(items.filter(f)));
    lemma_subset_len(kept_t, items.filter(f));
    assert(kept_t.len() == j);

    // and when the cut falls short of the whole result, or the whole result
    // falls short of k, exactly j do
    if j < r.len() || r.len() < k {
        assert forall|p: PointV| #[trigger] items.filter(f).count(p) <= kept_t.count(p) by {
            if items.filter(f).count(p) > 0 {
                assert(f(p));
                assert(items.filter(f).count(p) == items.count(p));
                assert(removed.count(p) == items.count(p) - kept.count(p));
                if removed.count(p) > 0 {
                    if r.len() == k {
                        assert(j < r.len());
                        assert(sq_dist(t, p.coords) >= sq_dist(t, r[j].item.coords));
                        assert(false);
                    } else {
                        assert(!in_bound(sq_dist(t, p.coords), None::<int>));
                        assert(false);
                    }
                }
                assert(kseq.skip(j).to_multiset().count(p) == 0) by {
                    if kseq.skip(j).to_multiset().count(p) > 0 {
                        assert(kseq.skip(j).contains(p));
                        let w = choose|w: int|
                            0 <= w < kseq.skip(j).len() && #[trigger] kseq.skip(j)[w] == p;
                        assert(kseq[j + w] == p);
                        assert(p == r[j + w].item);
                        assert(sq_dist(t, p.coords) > tau);
                        assert(false);
                    }
                }
                assert(items.count(p) == kept.count(p));
            }
        }
        assert(items.filter(f).subset_of(kept_t));
        lemma_subset_len(items.filter(f), kept_t);
        assert(items.filter(f).len() == j);
    } else {
        // j == r.len() == k: at least k items are within the bound
        assert(j == k);
    }
    assert(rt.len() == min_int(k as int, count_within(items, t, Some(tau))));

    // the removal clauses of the bounded result
    if rt.len() == k {
        assert(j == r.len());
        assert(kseq.skip(j) =~= Seq::<PointV>::empty());
        assert(forall|p: PointV| #[trigger] kseq.skip(j).to_multiset().count(p) == 0) by {
            assert(kseq.skip(j).to_multiset() =~= Multiset::<PointV>::empty());
        }
        assert forall|p: PointV, i: int|
            #[trigger] removed_t.count(p) > 0 && 0 <= i < rt.len() implies sq_dist(t, p.coords)
            >= sq_dist(t, (#[trigger] rt[i]).item.coords) by {
            assert(kept_t.count(p) == kept.count(p));
            assert(removed.count(p) > 0);
            assert(sq_dist(t, p.coords) >= sq_dist(t, r[i].item.coords));
            assert(rt[i] == r[i]);
        }
    } else {
        assert forall|p: PointV| #[trigger] removed_t.count(p) > 0 implies !in_bound(
            sq_dist(t, p.coords),
            Some(tau),
        ) by {
            assert(removed_t.count(p) == items.count(p) - kept_t.count(p));
            if items.filter(f).count(p) > 0 {
                assert(items.filter(f).count(p) == items.count(p));
                assert(kept_t.count(p) >= items.count(p));
                assert(false);
            }
            assert(items.filter(f).count(p) == 0);
            assert(!f(p));
        }
    }

    assert forall|i1: int, i2: int| 0 <= i1 < i2 < rt.len() implies sq_dist(
        t,
        (#[trigger] rt[i1]).item.coords,
    ) <= sq_dist(t, (#[trigger] rt[i2]).item.coords) by {
        assert(rt[i1] == r[i1] && rt[i2] == r[i2]);
    }
    assert forall|i: int| 0 <= i < rt.len() implies is_isqrt(
        sq_dist(t, (#[trigger] rt[i]).item.coords),
        rt[i].distance,
    ) by {
        assert(rt[i] == r[i]);
    }
}

/// Two correct k-nearest results over the same items agree/// Two correct k-nearest results over the same items agree, whatever index
/// produced them and however it was built: the same number of neighbors, at
/// the same distances, position by position.  Permuting the build input or
/// growing a forest by pushes cannot change what a query reports beyond the
/// exchange of equally distant items.
pub proof fn lemma_k_nearest_agrees(
    items: Multiset<PointV>,
    t: Seq<int>,
    k: nat,
    bound: Option<int>,
    res1: Seq<NeighborV>,
    res2: Seq<NeighborV>,
)
    requires
        knn_result(items, t, k, bound, res1),
        knn_result(items, t, k, bound, res2),
    ensures
        res1.len() == res2.len(),
        forall|i: int|
            0 <= i < res1.len() ==> sq_dist(t, (#[trigger] res1[i]).item.coords) == sq_dist(
                t,
                res2[i].item.coords,
            ),
        forall|i: int| 0 <= i < res1.len() ==> (#[trigger] res1[i]).distance == res2[i].distance,
{
    assert forall|i: int| 0 <= i < res1.len() implies sq_dist(
        t,
        (#[trigger] res1[i]).item.coords,
    ) == sq_dist(t, res2[i].item.coords) by {
        lemma_knn_not_farther(items, t, k, bound, res1, res2, i);
        lemma_knn_not_farther(items, t, k, bound, res2, res1, i);
    }
    assert forall|i: int| 0 <= i < res1.len() implies (#[trigger] res1[i]).distance
        == res2[i].distance by {
        lemma_isqrt_unique(
            sq_dist(t, res1[i].item.coords),
            res1[i].distance,
            res2[i].distance,
        );
    }
}

/// From an absorption by a fresh accumulator, the converted candidate list is
/// a correct k-nearest result.
pub proof fn lemma_absorb_to_knn(
    acc0: NeighborhoodV,
    items: Multiset<PointV>,
    acc1: NeighborhoodV,
    res: Seq<NeighborV>,
)
    requires
        nb_wf(acc0),
        nb_wf(acc1),
        acc0.cands.len() == 0,
        absorb(acc0, items, acc1),
        res.len() == acc1.cands.len(),
        forall|i: int|
            0 <= i < res.len() ==> (#[trigger] res[i]).item == acc1.cands[i].point && is_isqrt(
                acc1.cands[i].dist2,
                res[i].distance,
            ),
    ensures
        knn_result(items, acc0.target, acc0.k, acc0.threshold, res),
{
    let t = acc0.target;
    let kept = res.map_values(|n: NeighborV| n.item).to_multiset();
    assert(res.map_values(|n: NeighborV| n.item) =~= acc1.cands.map_values(|c: CandV| c.point));
    assert(kept == cand_points(acc1.cands));
    assert(cand_points(acc0.cands) =~= Multiset::<PointV>::empty()) by {
        assert(acc0.cands.map_values(|c: CandV| c.point) =~= Seq::<PointV>::empty());
    }
    let pool = cand_points(acc0.cands).add(items);
    assert(pool =~= items);
    assert(forall|i: int|
        0 <= i < res.len() ==> sq_dist(t, (#[trigger] res[i]).item.coords) == acc1.cands[i].dist2);
    assert(kept.subset_of(items));
    let removed = items.sub(kept);
    assert(removed =~= pool.sub(cand_points(acc1.cands)));
    if res.len() == acc0.k {
        assert forall|p: PointV, i: int|
            #[trigger] removed.count(p) > 0 && 0 <= i < res.len() implies sq_dist(t, p.coords)
            >= sq_dist(t, (#[trigger] res[i]).item.coords) by {
            assert(pool.sub(cand_points(acc1.cands)).count(p) > 0);
            assert(sq_dist(t, p.coords) >= acc1.cands[i].dist2);
        }
    }
}

/// From an absorption by a fresh single-result accumulator, the converted
/// option is a correct nearest result.
pub proof fn lemma_absorb_to_nearest(
    acc0: NeighborhoodV,
    items: Multiset<PointV>,
    acc1: NeighborhoodV,
    r: Option<NeighborV>,
)
    requires
        nb_wf(acc0),
        nb_wf(acc1),
        acc0.cands.len() == 0,
        acc0.k == 1,
        absorb(acc0, items, acc1),
        match r {
            None => acc1.cands.len() == 0,
            Some(n) => acc1.cands.len() > 0 && n.item == acc1.cands[0].point && is_isqrt(
                acc1.cands[0].dist2,
                n.distance,
            ),
        },
    ensures
        nearest_result(items, acc0.target, acc0.threshold, r),
{
    let t = acc0.target;
    assert(cand_points(acc0.cands) =~= Multiset::<PointV>::empty()) by {
        assert(acc0.cands.map_values(|c: CandV| c.point) =~= Seq::<PointV>::empty());
    }
    let pool = cand_points(acc0.cands).add(items);
    assert(pool =~= items);
    let removed = pool.sub(cand_points(acc1.cands));
    match r {
        None => {
            assert(acc1.cands.len() == 0);
            assert(min_int(1, count_within(items, t, acc0.threshold)) == 0);
        },
        Some(n) => {
            let c0 = acc1.cands[0];
            assert(acc1.cands.len() == 1);
            assert(c0.dist2 == sq_dist(t, c0.point.coords));
            assert(cand_points(acc1.cands) =~= Multiset::singleton(c0.point)) by {
                assert(acc1.cands.map_values(|c: CandV| c.point) =~= seq![c0.point]);
                assert(seq![c0.point].drop_first() =~= Seq::<PointV>::empty());
            }
            assert(items.count(n.item) > 0) by {
                assert(cand_points(acc1.cands).count(c0.point) > 0);
            }
            assert forall|p: PointV| #[trigger] items.count(p) > 0 implies sq_dist(t, p.coords)
                >= sq_dist(t, n.item.coords) by {
                if p == c0.point {
                } else {
                    assert(removed.count(p) > 0);
                    assert(sq_dist(t, p.coords) >= acc1.cands[0].dist2);
                }
            }
        },
    }
}

/// The view of an optional neighbor.
pub open spec fn opt_view(r: Option<Neighbor>) -> Option<NeighborV> {
    match r {
        None => None,
        Some(n) => Some(n@),
    }
}

/// The views of a vector of neighbors.
pub open spec fn seq_view(r: Seq<Neighbor>) -> Seq<NeighborV> {
    r.map_values(|n: Neighbor| n@)
}

/// One more point of a sequence taken into its multiset of views.
pub proof fn lemma_points_of_snoc(s: Seq<Point>, i: int)
    requires
        0 <= i < s.len(),
    ensures
        points_of(s.take(i + 1)) == points_of(s.take(i)).insert(s[i]@),
{
    assert(s.take(i + 1) =~= s.take(i).push(s[i]));
    assert(s.take(i + 1).map_values(|p: Point| p@) =~= s.take(i).map_values(|p: Point| p@).push(
        s[i]@,
    ));
}

/// Filtering for a search distributes over adding one item.
pub proof fn lemma_search_input_insert(m: Multiset<PointV>, p: PointV, f: bool)
    ensures
        search_input(m.insert(p), f) == search_input(m, f).add(
            search_input(Multiset::singleton(p), f),
        ),
{
    if f {
        let g = |q: PointV| !q.deleted;
        assert(m.insert(p).filter(g) =~= m.filter(g).add(Multiset::singleton(p).filter(g)));
    } else {
        assert(m.insert(p) =~= m.add(Multiset::singleton(p)));
    }
}

/// A single live item passes the search filter; a deleted one is dropped.
pub proof fn lemma_search_input_singleton(p: PointV, f: bool)
    ensures
        search_input(Multiset::singleton(p), f) == (if f && p.deleted {
            Multiset::<PointV>::empty()
        } else {
            Multiset::singleton(p)
        }),
{
    let g = |q: PointV| !q.deleted;
    if f && p.deleted {
        assert(Multiset::singleton(p).filter(g) =~= Multiset::<PointV>::empty());
    } else if f {
        assert(Multiset::singleton(p).filter(g) =~= Multiset::singleton(p));
    }
}

/// Nothing passes the filter of an empty multiset.
pub proof fn lemma_search_input_empty(f: bool)
    ensures
        search_input(Multiset::<PointV>::empty(), f) == Multiset::<PointV>::empty(),
{
    let g = |q: PointV| !q.deleted;
    assert(Multiset::<PointV>::empty().filter(g) =~= Multiset::<PointV>::empty());
}

/// What a search offers is drawn from the index's contents.
pub proof fn lemma_search_input_subset(m: Multiset<PointV>, f: bool)
    ensures
        search_input(m, f).subset_of(m),
{
    if f {
        let g = |q: PointV| !q.deleted;
        assert(forall|p: PointV| m.filter(g).count(p) <= m.count(p));
    }
}

/// Every live item is offered by a search, filtered or not.
pub proof fn lemma_live_subset(m: Multiset<PointV>, f: bool)
    ensures
        live(m).subset_of(search_input(m, f)),
        live(m).subset_of(m),
{
    let g = |q: PointV| !q.deleted;
    assert(forall|p: PointV| m.filter(g).count(p) <= m.count(p));
}

/// Filtering for a search distributes over multiset union.
pub proof fn lemma_search_input_add(m1: Multiset<PointV>, m2: Multiset<PointV>, f: bool)
    ensures
        search_input(m1.add(m2), f) == search_input(m1, f).add(search_input(m2, f)),
{
    if f {
        let g = |q: PointV| !q.deleted;
        assert(m1.add(m2).filter(g) =~= m1.filter(g).add(m2.filter(g)));
    }
}

/// Offers every item of a flat list to the accumulator, in order.  This is
/// the whole search of the exhaustive index, and searches the flat buffer of
/// the dynamization forest.
pub fn scan_items(items: &Vec<Point>, acc: Neighborhood) -> (out: Neighborhood)
    requires
        nb_wf(acc@),
        compat(points_of(items@), acc@.target),
    ensures
        nb_wf(out@),
        absorb(acc@, search_input(points_of(items@), acc@.filter), out@),
{
    let ghost acc0 = acc@;
    let ghost f = acc0.filter;
    let mut out = acc;
    let n = items.len();
    let mut i: usize = 0;
    proof {
        assert(points_of(items@.take(0)) =~= Multiset::<PointV>::empty()) by {
            assert(items@.take(0).map_values(|p: Point| p@) =~= Seq::<PointV>::empty());
        }
        lemma_search_input_empty(f);
        lemma_absorb_refl(acc0);
    }
    while i < n
        invariant
            0 <= i <= n,
            n == items@.len(),
            compat(points_of(items@), acc0.target),
            nb_wf(out@),
            out@.target == acc0.target,
            out@.k == acc0.k,
            out@.filter == acc0.filter,
            f == acc0.filter,
            nb_wf(acc0),
            absorb(acc0, search_input(points_of(items@.take(i as int)), f), out@),
        decreases n - i,
    {
        let ghost sofar = search_input(points_of(items@.take(i as int)), f);
        let ghost before = out@;
        proof {
            let s = items@;
            assert(s.map_values(|p: Point| p@)[i as int] == s[i as int]@);
            assert(points_of(s).count(s[i as int]@) > 0) by {
                assert(s.map_values(|p: Point| p@).contains(s[i as int]@));
            }
        }
        out.consider(&items[i]);
        proof {
            let p = items@[i as int]@;
            let m = search_input(Multiset::singleton(p), f);
            lemma_search_input_singleton(p, f);
            if f && p.deleted {
                lemma_absorb_refl(before);
                lemma_absorb_trans(acc0, sofar, before, Multiset::<PointV>::empty(), out@);
            } else {
                lemma_absorb_trans(acc0, sofar, before, Multiset::singleton(p), out@);
            }
            lemma_points_of_snoc(items@, i as int);
            lemma_search_input_insert(points_of(items@.take(i as int)), p, f);
            assert(search_input(points_of(items@.take(i as int + 1)), f) =~= sofar.add(m));
        }
        i = i + 1;
    }
    proof {
        assert(items@.take(n as int) =~= items@);
    }
    out
}

/// Removing deleted items twice removes them once.
pub proof fn lemma_live_idempotent(m: Multiset<PointV>)
    ensures
        live(live(m)) == live(m),
{
    let g = |q: PointV| !q.deleted;
    assert(m.filter(g).filter(g) =~= m.filter(g));
}

/// Keeps only the live items of a vector of points.
pub fn retain_live(items: Vec<Point>) -> (r: Vec<Point>)
    requires
        buildable(items@),
    ensures
        points_of(r@) == live(points_of(items@)),
        buildable(r@),
        r@.len() <= items@.len(),
{
    let ghost items0 = items@;
    let mut items = items;
    let mut kept: Vec<Point> = Vec::new();
    proof {
        assert(points_of(kept@) =~= Multiset::<PointV>::empty()) by {
            assert(kept@.map_values(|p: Point| p@) =~= Seq::<PointV>::empty());
        }
    }
    while items.len() > 0
        invariant
            points_of(kept@).add(live(points_of(items@))) == live(points_of(items0)),
            forall|i: int| 0 <= i < kept@.len() ==> wf_point((#[trigger] kept@[i])@),
            forall|i: int, j: int|
                0 <= i < kept@.len() && 0 <= j < kept@.len() ==> (#[trigger] kept@[i])@.coords.len()
                    == (#[trigger] kept@[j])@.coords.len(),
            forall|i: int, j: int|
                0 <= i < kept@.len() && 0 <= j < items@.len() ==> (#[trigger] kept@[i])@.coords.len()
                    == (#[trigger] items@[j])@.coords.len(),
            forall|i: int| 0 <= i < items@.len() ==> wf_point((#[trigger] items@[i])@),
            forall|i: int, j: int|
                0 <= i < items@.len() && 0 <= j < items@.len() ==> (
                #[trigger] items@[i])@.coords.len() == (#[trigger] items@[j])@.coords.len(),
            kept@.len() + items@.len() <= items0.len(),
        decreases items@.len(),
    {
        let ghost pre = items@;
        let p = items.pop().unwrap();
        proof {
            assert(items@ == pre.subrange(0, pre.len() - 1));
            assert(pre.take(pre.len() as int) =~= pre);
            assert(pre.take(pre.len() - 1) =~= items@);
            lemma_points_of_snoc(pre, pre.len() - 1);
            assert(points_of(pre) == points_of(items@).insert(p@));
            lemma_search_input_insert(points_of(items@), p@, true);
            lemma_search_input_singleton(p@, true);
        }
        if !p.deleted {
            let ghost keptpre = kept@;
            kept.push(p);
            proof {
                assert(kept@ == keptpre.push(p));
                lemma_points_of_snoc(kept@, keptpre.len() as int);
                assert(kept@.take(keptpre.len() as int) =~= keptpre);
                assert(kept@.take(keptpre.len() as int + 1) =~= kept@);
                assert(points_of(kept@) == points_of(keptpre).insert(p@));
                assert(points_of(kept@).add(live(points_of(items@))) =~= live(
                    points_of(items0),
                ));
            }
        } else {
            proof {
                assert(points_of(kept@).add(live(points_of(items@))) =~= live(
                    points_of(items0),
                ));
            }
        }
    }
    proof {
        assert(points_of(items@) =~= Multiset::<PointV>::empty()) by {
            assert(items@.map_values(|p: Point| p@) =~= Seq::<PointV>::empty());
        }
        lemma_search_input_empty(true);
        assert(points_of(kept@) =~= live(points_of(items0)));
    }
    kept
}

/// A nearest-neighbor search index over integer Cartesian points.
///
/// `contents` is the multiset of stored items; `query_items` is what a search
/// with the given filtering offers to its accumulator — everything, or only
/// live items once a soft-delete adapter is involved.  `search` drives an
/// accumulator to a fixed point over those items; the provided query methods
/// are defined in terms of it.
pub trait NearestNeighbors: Sized {
    /// The items this index stores.
    spec fn contents(&self) -> Multiset<PointV>;

    /// The items a search offers to its accumulator.
    spec fn query_items(&self, filtered: bool) -> Multiset<PointV>;

    /// The index's structural invariant.
    spec fn inv(&self) -> bool;

    /// Bulk-builds the index from a vector of items.
    fn from_vec(items: Vec<Point>) -> (r: Self)
        requires
            buildable(items@),
            items@.len() <= COUNT_LIMIT,
        ensures
            r.inv(),
            r.contents() == points_of(items@);

    /// Searches for nearest neighbors, offering candidates to `acc`.
    fn search(&self, acc: Neighborhood) -> (out: Neighborhood)
        requires
            self.inv(),
            nb_wf(acc@),
            compat(self.contents(), acc@.target),
        ensures
            nb_wf(out@),
            absorb(acc@, self.query_items(acc@.filter), out@);

    /// Moves the items out of the index.
    fn into_vec(self) -> (v: Vec<Point>)
        requires
            self.inv(),
        ensures
            points_of(v@) == self.contents(),
            buildable(v@),
            v@.len() <= COUNT_LIMIT;

    /// What a search offers lies between the live items and the whole
    /// contents, and a filtered search offers exactly the live items.
    proof fn query_items_law(&self, filtered: bool)
        requires
            self.inv(),
        ensures
            self.query_items(filtered).subset_of(self.contents()),
            live(self.contents()).subset_of(self.query_items(filtered)),
            self.query_items(true) == live(self.contents());

    /// Returns the nearest stored item to `target`, or `None` if the index
    /// offers nothing.
    fn nearest(&self, target: &Point) -> (r: Option<Neighbor>)
        requires
            self.inv(),
            wf_point(target@),
            compat(self.contents(), target@.coords),
        ensures
            nearest_result(self.query_items(false), target@.coords, None, opt_view(r)),
    {
        let acc = Neighborhood::new(clone_point(target), 1, None);
        let ghost acc0 = acc@;
        let out = self.search(acc);
        let ghost acc1 = out@;
        let r = out.into_option();
        proof {
            lemma_absorb_to_nearest(acc0, self.query_items(false), acc1, opt_view(r));
        }
        r
    }

    /// Returns the nearest stored item within distance `threshold`, if any.
    fn nearest_within(&self, target: &Point, threshold: i64) -> (r: Option<Neighbor>)
        requires
            self.inv(),
            wf_point(target@),
            compat(self.contents(), target@.coords),
            0 <= threshold <= 3037000499,
        ensures
            nearest_result(
                self.query_items(false),
                target@.coords,
                Some((threshold as int) * (threshold as int)),
                opt_view(r),
            ),
    {
        let bound = SquaredDistance::from_value(threshold);
        let acc = Neighborhood::new(clone_point(target), 1, Some(bound.value));
        let ghost acc0 = acc@;
        let out = self.search(acc);
        let ghost acc1 = out@;
        let r = out.into_option();
        proof {
            lemma_absorb_to_nearest(acc0, self.query_items(false), acc1, opt_view(r));
        }
        r
    }

    /// Returns up to `k` nearest stored items, sorted by ascending distance.
    fn k_nearest(&self, target: &Point, k: usize) -> (r: Vec<Neighbor>)
        requires
            self.inv(),
            wf_point(target@),
            compat(self.contents(), target@.coords),
        ensures
            knn_result(self.query_items(false), target@.coords, k as nat, None, seq_view(r@)),
    {
        let acc = Neighborhood::new(clone_point(target), k, None);
        let ghost acc0 = acc@;
        let out = self.search(acc);
        let ghost acc1 = out@;
        let r = out.into_vec();
        proof {
            lemma_absorb_to_knn(acc0, self.query_items(false), acc1, seq_view(r@));
        }
        r
    }

    /// Returns up to `k` nearest stored items within distance `threshold`,
    /// sorted by ascending distance.
    fn k_nearest_within(&self, target: &Point, k: usize, threshold: i64) -> (r: Vec<Neighbor>)
        requires
            self.inv(),
            wf_point(target@),
            compat(self.contents(), target@.coords),
            0 <= threshold <= 3037000499,
        ensures
            knn_result(
                self.query_items(false),
                target@.coords,
                k as nat,
                Some((threshold as int) * (threshold as int)),
                seq_view(r@),
            ),
    {
        let bound = SquaredDistance::from_value(threshold);
        let acc = Neighborhood::new(clone_point(target), k, Some(bound.value));
        let ghost acc0 = acc@;
        let out = self.search(acc);
        let ghost acc1 = out@;
        let r = out.into_vec();
        proof {
            lemma_absorb_to_knn(acc0, self.query_items(false), acc1, seq_view(r@));
        }
        r
    }
}

/// The baseline index: a flat list searched exhaustively, in insertion order.
/// It is also the reference oracle the tree indices are tested against.
#[derive(Debug)]
pub struct ExhaustiveSearch {
    items: Vec<Point>,
}

impl ExhaustiveSearch {
    /// Creates an empty index.
    pub fn new() -> (r: Self)
        ensures
            r.inv(),
            r.contents() == Multiset::<PointV>::empty(),
    {
        let r = ExhaustiveSearch { items: Vec::new() };
        proof {
            assert(r.items@.map_values(|p: Point| p@) =~= Seq::<PointV>::empty());
        }
        r
    }

    /// Adds an item to the index.
    pub fn push(&mut self, item: Point)
        requires
            old(self).inv(),
            wf_point(item@),
            compat(old(self).contents(), item@.coords),
            old(self).contents().len() < COUNT_LIMIT,
        ensures
            final(self).inv(),
            final(self).contents() == old(self).contents().insert(item@),
    {
        proof {
            let s = self.items@;
            assert forall|i: int| 0 <= i < s.len() implies wf_point((#[trigger] s[i])@) && (
            #[trigger] s[i])@.coords.len() == item@.coords.len() by {
                assert(s.map_values(|p: Point| p@)[i] == s[i]@);
                assert(points_of(s).count(s[i]@) > 0) by {
                    assert(s.map_values(|p: Point| p@).contains(s[i]@));
                }
            }
        }
        let ghost s0 = self.items@;
        self.items.push(item);
        proof {
            assert(self.items@ =~= s0.push(item));
            lemma_points_of_snoc(self.items@, s0.len() as int);
            assert(self.items@.take(s0.len() as int) =~= s0);
            assert(self.items@.take(s0.len() as int + 1) =~= self.items@);
        }
    }
}

impl NearestNeighbors for ExhaustiveSearch {
    closed spec fn contents(&self) -> Multiset<PointV> {
        points_of(self.items@)
    }

    open spec fn query_items(&self, filtered: bool) -> Multiset<PointV> {
        search_input(self.contents(), filtered)
    }

    closed spec fn inv(&self) -> bool {
        buildable(self.items@) && self.items@.len() <= COUNT_LIMIT
    }

    fn from_vec(items: Vec<Point>) -> (r: Self) {
        ExhaustiveSearch { items }
    }

    fn search(&self, acc: Neighborhood) -> (out: Neighborhood) {
        scan_items(&self.items, acc)
    }

    fn into_vec(self) -> (v: Vec<Point>) {
        self.items
    }

    proof fn query_items_law(&self, filtered: bool) {
        lemma_search_input_subset(self.contents(), filtered);
        lemma_live_subset(self.contents(), filtered);
    }
}

} // verus!
