//! Dynamization for nearest-neighbor search.
//!
//! A [`Forest`] wraps any static index type and makes it dynamic: new items
//! collect in a flat buffer, and whenever the buffer fills, the classical
//! logarithmic method redistributes items into a sequence of static
//! sub-indices whose sizes follow the binary representation of the item
//! count.

use vstd::prelude::*;
use vstd::multiset::Multiset;
use vstd::arithmetic::power2::pow2;
use crate::COUNT_LIMIT;
use crate::metric::{
    absorb, buildable, compat, lemma_absorb_trans, lemma_compat_subset, lemma_search_input_add,
    lemma_search_input_subset, lemma_live_subset, live, nb_wf, NearestNeighbors, Neighborhood,
    Point, PointV, points_of, search_input, wf_point,
};

verus! {

broadcast use vstd::multiset::group_multiset_axioms, vstd::seq_lib::group_to_multiset_ensures;

/// The number of low bits of the item count whose items stay in the flat
/// buffer.
pub const BUFFER_BITS: usize = 6;

/// The maximum size of the flat buffer: one less than 2 to the
/// `BUFFER_BITS`.
pub const BUFFER_SIZE: usize = 64;

/// The items a slot holds.
pub open spec fn slot_contents<T: NearestNeighbors>(s: Option<T>) -> Multiset<PointV> {
    match s {
        Some(t) => t.contents(),
        None => Multiset::empty(),
    }
}

/// What a search of a slot offers to the accumulator.
pub open spec fn slot_query<T: NearestNeighbors>(s: Option<T>, filtered: bool) -> Multiset<
    PointV,
> {
    match s {
        Some(t) => t.query_items(filtered),
        None => Multiset::empty(),
    }
}

/// A slot is sound when an occupied slot `j` holds a well-formed sub-index of
/// exactly `BUFFER_SIZE * 2^j` items.
pub open spec fn slot_inv<T: NearestNeighbors>(s: Option<T>, j: int) -> bool {
    match s {
        Some(t) => t.inv() && t.contents().len() == (BUFFER_SIZE as int) * pow2(j as nat),
        None => true,
    }
}

/// The items of the slots from position `from` on.
pub open spec fn tc_from<T: NearestNeighbors>(s: Seq<Option<T>>, from: int) -> Multiset<PointV>
    decreases s.len() - from,
{
    if from < 0 || from >= s.len() {
        Multiset::empty()
    } else {
        slot_contents(s[from]).add(tc_from(s, from + 1))
    }
}

/// What searches of the slots from position `from` on offer.
pub open spec fn tq_from<T: NearestNeighbors>(
    s: Seq<Option<T>>,
    from: int,
    filtered: bool,
) -> Multiset<PointV>
    decreases s.len() - from,
{
    if from < 0 || from >= s.len() {
        Multiset::empty()
    } else {
        slot_query(s[from], filtered).add(tq_from(s, from + 1, filtered))
    }
}

/// All items of a multiset are well formed and share one dimensionality.
pub open spec fn uniform(m: Multiset<PointV>) -> bool {
    &&& forall|p: PointV| #[trigger] m.count(p) > 0 ==> wf_point(p)
    &&& forall|p: PointV, q: PointV|
        #[trigger] m.count(p) > 0 && #[trigger] m.count(q) > 0 ==> p.coords.len()
            == q.coords.len()
}

/// Replacing one slot exchanges exactly its items.
proof fn lemma_tc_from_update<T: NearestNeighbors>(
    s: Seq<Option<T>>,
    from: int,
    i: int,
    x: Option<T>,
)
    requires
        0 <= from <= i < s.len(),
    ensures
        tc_from(s.update(i, x), from).add(slot_contents(s[i])) == tc_from(s, from).add(
            slot_contents(x),
        ),
    decreases i - from,
{
    let su = s.update(i, x);
    assert(su.len() == s.len());
    assert(tc_from(su, from) == slot_contents(su[from]).add(tc_from(su, from + 1)));
    assert(tc_from(s, from) == slot_contents(s[from]).add(tc_from(s, from + 1)));
    if from == i {
        assert(su[from] == x);
        lemma_tc_from_unchanged(s, su, from + 1);
        assert(tc_from(su, from).add(slot_contents(s[i])) =~= tc_from(s, from).add(
            slot_contents(x),
        ));
    } else {
        lemma_tc_from_update(s, from + 1, i, x);
        assert(su[from] == s[from]);
        assert forall|p: PointV|
            tc_from(su, from).add(slot_contents(s[i])).count(p) == tc_from(s, from).add(
                slot_contents(x),
            ).count(p) by {
            assert(tc_from(su, from + 1).add(slot_contents(s[i])).count(p) == tc_from(
                s,
                from + 1,
            ).add(slot_contents(x)).count(p));
        }
        assert(tc_from(su, from).add(slot_contents(s[i])) =~= tc_from(s, from).add(
            slot_contents(x),
        ));
    }
}

/// Suffix items are unchanged between sequences that agree from `from` on.
proof fn lemma_tc_from_unchanged<T: NearestNeighbors>(
    s1: Seq<Option<T>>,
    s2: Seq<Option<T>>,
    from: int,
)
    requires
        s1.len() == s2.len(),
        forall|j: int| from <= j < s1.len() ==> s1[j] == s2[j],
    ensures
        tc_from(s1, from) == tc_from(s2, from),
    decreases s1.len() - from,
{
    if 0 <= from && from < s1.len() {
        lemma_tc_from_unchanged(s1, s2, from + 1);
    }
}

/// A longer suffix holds no fewer items.
proof fn lemma_tc_from_le<T: NearestNeighbors>(s: Seq<Option<T>>, a: int, b: int)
    requires
        0 <= a <= b,
    ensures
        tc_from(s, b).subset_of(tc_from(s, a)),
    decreases b - a,
{
    if a < b {
        lemma_tc_from_le(s, a + 1, b);
        if a < s.len() {
            assert(tc_from(s, a) == slot_contents(s[a]).add(tc_from(s, a + 1)));
            assert(forall|p: PointV|
                #[trigger] tc_from(s, b).count(p) <= tc_from(s, a).count(p));
        } else {
            assert(tc_from(s, a) == Multiset::<PointV>::empty());
            assert(tc_from(s, b) == Multiset::<PointV>::empty());
        }
    }
}

/// One slot's items are among the items of any suffix containing it.
proof fn lemma_slot_in_tc<T: NearestNeighbors>(s: Seq<Option<T>>, from: int, j: int)
    requires
        0 <= from <= j < s.len(),
    ensures
        slot_contents(s[j]).subset_of(tc_from(s, from)),
    decreases j - from,
{
    if from == j {
        assert(forall|p: PointV|
            slot_contents(s[j]).count(p) <= tc_from(s, from).count(p));
    } else {
        lemma_slot_in_tc(s, from + 1, j);
        assert(forall|p: PointV|
            slot_contents(s[j]).count(p) <= tc_from(s, from).count(p));
    }
}

/// Appending an empty slot adds nothing.
proof fn lemma_tc_from_push_none<T: NearestNeighbors>(s: Seq<Option<T>>, from: int)
    requires
        0 <= from,
    ensures
        tc_from(s.push(None), from) == tc_from(s, from),
        tq_from(s.push(None), from, true) == tq_from(s, from, true),
        tq_from(s.push(None), from, false) == tq_from(s, from, false),
    decreases s.len() - from,
{
    let sp = s.push(None);
    assert(sp.len() == s.len() + 1);
    if from < s.len() {
        lemma_tc_from_push_none(s, from + 1);
        assert(sp[from] == s[from]);
        assert(tc_from(sp, from) == slot_contents(sp[from]).add(tc_from(sp, from + 1)));
        assert(tc_from(s, from) == slot_contents(s[from]).add(tc_from(s, from + 1)));
        assert(tq_from(sp, from, true) == slot_query(sp[from], true).add(
            tq_from(sp, from + 1, true),
        ));
        assert(tq_from(s, from, true) == slot_query(s[from], true).add(tq_from(s, from + 1, true)));
        assert(tq_from(sp, from, false) == slot_query(sp[from], false).add(
            tq_from(sp, from + 1, false),
        ));
        assert(tq_from(s, from, false) == slot_query(s[from], false).add(
            tq_from(s, from + 1, false),
        ));
    } else if from == s.len() {
        assert(sp[from] is None);
        assert(tc_from(sp, from) == slot_contents(sp[from]).add(tc_from(sp, from + 1)));
        assert(tc_from(sp, from + 1) == Multiset::<PointV>::empty());
        assert(tc_from(s, from) == Multiset::<PointV>::empty());
        assert(tc_from(sp, from) =~= tc_from(s, from));
        assert(tq_from(sp, from, true) == slot_query(sp[from], true).add(
            tq_from(sp, from + 1, true),
        ));
        assert(tq_from(sp, from, true) =~= tq_from(s, from, true));
        assert(tq_from(sp, from, false) == slot_query(sp[from], false).add(
            tq_from(sp, from + 1, false),
        ));
        assert(tq_from(sp, from, false) =~= tq_from(s, from, false));
    } else {
        assert(tc_from(sp, from) == Multiset::<PointV>::empty());
        assert(tc_from(s, from) == Multiset::<PointV>::empty());
        assert(tq_from(sp, from, true) == Multiset::<PointV>::empty());
        assert(tq_from(sp, from, false) == Multiset::<PointV>::empty());
    }
}

/// Each suffix's size is a multiple of the size of its first possible slot.
proof fn lemma_tc_from_divisible<T: NearestNeighbors>(s: Seq<Option<T>>, from: int)
    requires
        0 <= from,
        forall|j: int| from <= j < s.len() ==> slot_inv(#[trigger] s[j], j),
    ensures
        tc_from(s, from).len() as int % ((BUFFER_SIZE as int) * pow2(from as nat)) == 0,
    decreases s.len() - from,
{
    let w = (BUFFER_SIZE as int) * pow2(from as nat);
    vstd::arithmetic::power2::lemma_pow2_pos(from as nat);
    assert(w > 0) by (nonlinear_arith)
        requires
            pow2(from as nat) > 0,
            w == 64 * pow2(from as nat),
    ;
    if from >= s.len() {
        assert(tc_from(s, from).len() == 0);
        vstd::arithmetic::div_mod::lemma_mod_multiples_basic(0, w);
    } else {
        lemma_tc_from_divisible(s, from + 1);
        let w2 = (BUFFER_SIZE as int) * pow2((from + 1) as nat);
        vstd::arithmetic::power2::lemma_pow2_unfold((from + 1) as nat);
        assert(w2 == 2 * w) by (nonlinear_arith)
            requires
                pow2((from + 1) as nat) == 2 * pow2(from as nat),
                w == (BUFFER_SIZE as int) * pow2(from as nat),
                w2 == (BUFFER_SIZE as int) * pow2((from + 1) as nat),
        ;
        let rest = tc_from(s, from + 1).len() as int;
        let head = slot_contents(s[from]).len() as int;
        assert(rest % w2 == 0);
        let qr = rest / w2;
        vstd::arithmetic::div_mod::lemma_fundamental_div_mod(rest, w2);
        assert(rest == w2 * qr);
        assert(rest == (2 * qr) * w) by (nonlinear_arith)
            requires
                rest == w2 * qr,
                w2 == 2 * w,
        ;
        vstd::arithmetic::div_mod::lemma_mod_multiples_basic(2 * qr, w);
        assert(rest % w == 0);
        assert(head == 0 || head == w);
        assert(tc_from(s, from).len() as int == head + rest);
        if head == w {
            vstd::arithmetic::div_mod::lemma_mod_add_multiples_vanish(rest, w);
            assert((head + rest) % w == 0);
        }
    }
}

/// When the count's bit at a slot's position is set, the buffer holds at
/// least one full slot's worth of items beyond the low-order claims.
proof fn lemma_build_room(n: int, b: int, x: int)
    requires
        b > 0,
        0 <= x <= n,
        x % (2 * b) == 0,
        (n / b) % 2 == 1,
    ensures
        n - n % b - x >= b,
{
    let q = n / b;
    let r = n % b;
    vstd::arithmetic::div_mod::lemma_fundamental_div_mod(n, b);
    vstd::arithmetic::div_mod::lemma_mod_bound(n, b);
    let qh = q / 2;
    vstd::arithmetic::div_mod::lemma_fundamental_div_mod(q, 2);
    assert(q == 2 * qh + 1);
    let xq = x / (2 * b);
    vstd::arithmetic::div_mod::lemma_fundamental_div_mod(x, 2 * b);
    assert(x == (2 * b) * xq);
    assert(xq >= 0) by (nonlinear_arith)
        requires
            x >= 0,
            b > 0,
            x == (2 * b) * xq,
    ;
    assert(n == b * (2 * qh + 1) + r) by (nonlinear_arith)
        requires
            n == b * q + r,
            q == 2 * qh + 1,
    ;
    assert(xq <= qh) by (nonlinear_arith)
        requires
            (2 * b) * xq <= n,
            n == b * (2 * qh + 1) + r,
            0 <= r < b,
            b > 0,
    ;
    assert(n - r - x >= b) by (nonlinear_arith)
        requires
            n == b * (2 * qh + 1) + r,
            x == (2 * b) * xq,
            xq <= qh,
            b > 0,
    ;
}

/// Searches of a suffix of slots offer between its live items and all of
/// them, and filtered searches offer exactly its live items.
proof fn lemma_tq_tc<T: NearestNeighbors>(s: Seq<Option<T>>, from: int, filtered: bool)
    requires
        0 <= from,
        forall|j: int| from <= j < s.len() ==> slot_inv(#[trigger] s[j], j),
    ensures
        tq_from(s, from, filtered).subset_of(tc_from(s, from)),
        live(tc_from(s, from)).subset_of(tq_from(s, from, filtered)),
        tq_from(s, from, true) == live(tc_from(s, from)),
    decreases s.len() - from,
{
    if from >= s.len() {
        crate::metric::lemma_search_input_empty(true);
        assert(live(tc_from(s, from)) =~= Multiset::<PointV>::empty());
    } else {
        lemma_tq_tc(s, from + 1, filtered);
        lemma_tq_tc(s, from + 1, true);
        match s[from] {
            Some(t) => {
                t.query_items_law(filtered);
                t.query_items_law(true);
            },
            None => {
                crate::metric::lemma_search_input_empty(true);
                assert(live(Multiset::<PointV>::empty()) =~= Multiset::<PointV>::empty());
            },
        }
        lemma_search_input_add(slot_contents(s[from]), tc_from(s, from + 1), true);
        assert(tq_from(s, from, true) =~= live(tc_from(s, from)));
        assert(forall|p: PointV|
            #[trigger] tq_from(s, from, filtered).count(p) <= tc_from(s, from).count(p));
        assert(forall|p: PointV|
            #[trigger] live(tc_from(s, from)).count(p) <= tq_from(s, from, filtered).count(p));
    }
}

/// A sequence of points all drawn from one uniform multiset can be built
/// into an index.
proof fn lemma_uniform_buildable(s: Seq<Point>, m: Multiset<PointV>)
    requires
        uniform(m),
        points_of(s).subset_of(m),
    ensures
        buildable(s),
{
    assert forall|i: int| 0 <= i < s.len() implies m.count((#[trigger] s[i])@) > 0 by {
        assert(s.map_values(|p: Point| p@)[i] == s[i]@);
        assert(s.map_values(|p: Point| p@).contains(s[i]@));
        assert(points_of(s).count(s[i]@) > 0);
    }
}

/// A dynamic wrapper for a static nearest-neighbor index.
///
/// New items collect in a flat buffer of fewer than `BUFFER_SIZE` items;
/// beyond that they live in static sub-indices whose slot `i`, when
/// occupied, holds exactly `BUFFER_SIZE * 2^i` items.  Insertion follows the
/// classical logarithmic method: when the buffer fills, slots are swept from
/// the smallest upward, draining slots whose bit of the new total count is
/// clear and bulk-building slots whose bit is set.
#[derive(Debug)]
pub struct Forest<T: NearestNeighbors> {
    buffer: Vec<Point>,
    trees: Vec<Option<T>>,
}

impl<T: NearestNeighbors> NearestNeighbors for Forest<T> {
    closed spec fn contents(&self) -> Multiset<PointV> {
        points_of(self.buffer@).add(tc_from(self.trees@, 0))
    }

    closed spec fn query_items(&self, filtered: bool) -> Multiset<PointV> {
        search_input(points_of(self.buffer@), filtered).add(tq_from(self.trees@, 0, filtered))
    }

    closed spec fn inv(&self) -> bool {
        &&& self.buffer@.len() < BUFFER_SIZE
        &&& self.trees@.len() <= 25
        &&& forall|j: int| 0 <= j < self.trees@.len() ==> slot_inv(#[trigger] self.trees@[j], j)
        &&& uniform(self.contents())
        &&& self.contents().len() <= COUNT_LIMIT
    }

    fn from_vec(items: Vec<Point>) -> (r: Self) {
        let mut r = Forest { buffer: Vec::new(), trees: Vec::new() };
        proof {
            assert(points_of(r.buffer@) =~= Multiset::<PointV>::empty()) by {
                assert(r.buffer@.map_values(|p: Point| p@) =~= Seq::<PointV>::empty());
            }
            assert(r.contents() =~= Multiset::<PointV>::empty());
            lemma_buildable_uniform(items@);
            assert(r.contents().add(points_of(items@)) =~= points_of(items@));
        }
        r.extend(items);
        r
    }

    fn search(&self, acc: Neighborhood) -> (out: Neighborhood) {
        let ghost acc0 = acc@;
        let ghost f = acc0.filter;
        let ghost tq0 = tq_from(self.trees@, 0, f);
        proof {
            lemma_search_input_subset(points_of(self.buffer@), f);
            lemma_compat_subset(
                search_input(points_of(self.buffer@), f),
                self.contents(),
                acc0.target,
            );
            assert(search_input(points_of(self.buffer@), f).subset_of(self.contents())) by {
                assert(forall|p: PointV|
                    #[trigger] search_input(points_of(self.buffer@), f).count(p)
                        <= self.contents().count(p));
            }
            lemma_compat_subset(points_of(self.buffer@), self.contents(), acc0.target);
        }
        let mut out = crate::metric::scan_items(&self.buffer, acc);
        let n = self.trees.len();
        let mut i: usize = 0;
        proof {
            assert(tq_from(self.trees@, 0, f).subset_of(tq0));
            assert(tq0.sub(tq_from(self.trees@, 0, f)) =~= Multiset::<PointV>::empty());
            assert(search_input(points_of(self.buffer@), f).add(Multiset::<PointV>::empty())
                =~= search_input(points_of(self.buffer@), f));
        }
        while i < n
            invariant
                0 <= i <= n,
                n == self.trees@.len(),
                self.inv(),
                compat(self.contents(), acc0.target),
                nb_wf(out@),
                out@.filter == f,
                nb_wf(acc0),
                f == acc0.filter,
                tq0 == tq_from(self.trees@, 0, f),
                tq_from(self.trees@, i as int, f).subset_of(tq0),
                absorb(
                    acc0,
                    search_input(points_of(self.buffer@), f).add(
                        tq0.sub(tq_from(self.trees@, i as int, f)),
                    ),
                    out@,
                ),
            decreases n - i,
        {
            let ghost done = search_input(points_of(self.buffer@), f).add(
                tq0.sub(tq_from(self.trees@, i as int, f)),
            );
            proof {
                assert(tq_from(self.trees@, i as int, f) == slot_query(
                    self.trees@[i as int],
                    f,
                ).add(tq_from(self.trees@, i as int + 1, f)));
                lemma_tq_from_le(self.trees@, i as int, i as int + 1, f);
            }
            match &self.trees[i] {
                Some(t) => {
                    proof {
                        lemma_slot_in_tc(self.trees@, 0, i as int);
                        assert(slot_contents(self.trees@[i as int]).subset_of(self.contents()))
                            by {
                            assert(forall|p: PointV|
                                #[trigger] slot_contents(self.trees@[i as int]).count(p)
                                    <= self.contents().count(p));
                        }
                        lemma_compat_subset(t.contents(), self.contents(), acc0.target);
                    }
                    let ghost before = out@;
                    let next = t.search(out);
                    out = next;
                    proof {
                        lemma_absorb_trans(acc0, done, before, t.query_items(f), out@);
                        assert(done.add(t.query_items(f)) =~= search_input(
                            points_of(self.buffer@),
                            f,
                        ).add(tq0.sub(tq_from(self.trees@, i as int + 1, f))));
                    }
                },
                None => {
                    proof {
                        assert(slot_query(self.trees@[i as int], f)
                            == Multiset::<PointV>::empty());
                        assert(tq_from(self.trees@, i as int, f) =~= tq_from(
                            self.trees@,
                            i as int + 1,
                            f,
                        ));
                    }
                },
            }
            i = i + 1;
        }
        proof {
            assert(tq_from(self.trees@, n as int, f) == Multiset::<PointV>::empty());
            assert(search_input(points_of(self.buffer@), f).add(
                tq0.sub(tq_from(self.trees@, n as int, f)),
            ) =~= self.query_items(f));
        }
        out
    }

    fn into_vec(self) -> (v: Vec<Point>) {
        let ghost c0 = self.contents();
        let mut me = self;
        let mut out: Vec<Point> = Vec::new();
        // the buffer's items leave first, then each slot's, smallest slot
        // first
        core::mem::swap(&mut me.buffer, &mut out);
        proof {
            assert(points_of(me.buffer@) =~= Multiset::<PointV>::empty()) by {
                assert(me.buffer@.map_values(|p: Point| p@) =~= Seq::<PointV>::empty());
            }
        }
        let n = me.trees.len();
        let mut i: usize = 0;
        while i < n
            invariant
                0 <= i <= n,
                n == me.trees@.len(),
                forall|j: int| 0 <= j < n ==> slot_inv(#[trigger] me.trees@[j], j),
                points_of(out@).add(tc_from(me.trees@, i as int)) == c0,
                uniform(c0),
                c0.len() <= COUNT_LIMIT,
            decreases n - i,
        {
            let ghost s0 = me.trees@;
            let mut slot: Option<T> = None;
            core::mem::swap(&mut me.trees[i], &mut slot);
            let ghost s1 = me.trees@;
            proof {
                assert(s1 == s0.update(i as int, None::<T>));
                lemma_tc_from_unchanged(s0, s1, i as int + 1);
                assert(tc_from(s0, i as int) == slot_contents(s0[i as int]).add(
                    tc_from(s0, i as int + 1),
                ));
                assert(forall|j: int| 0 <= j < n ==> slot_inv(#[trigger] s1[j], j));
            }
            match slot {
                Some(t) => {
                    let ghost tcont = t.contents();
                    let mut v = t.into_vec();
                    proof {
                        crate::metric::lemma_points_of_concat(out@, v@);
                    }
                    out.append(&mut v);
                    proof {
                        assert(points_of(out@).add(tc_from(me.trees@, i as int + 1)) =~= c0);
                    }
                },
                None => {
                    proof {
                        assert(slot_contents(s0[i as int]) == Multiset::<PointV>::empty());
                        assert(points_of(out@).add(tc_from(me.trees@, i as int + 1)) =~= c0);
                    }
                },
            }
            i = i + 1;
        }
        proof {
            assert(tc_from(me.trees@, n as int) == Multiset::<PointV>::empty());
            assert(points_of(out@) =~= c0);
            lemma_uniform_buildable(out@, c0);
            assert(points_of(out@).len() == out@.len());
        }
        out
    }

    proof fn query_items_law(&self, filtered: bool) {
        lemma_tq_tc(self.trees@, 0, filtered);
        lemma_tq_tc(self.trees@, 0, true);
        lemma_search_input_subset(points_of(self.buffer@), filtered);
        lemma_live_subset(points_of(self.buffer@), filtered);
        lemma_search_input_add(points_of(self.buffer@), tc_from(self.trees@, 0), true);
        assert(forall|p: PointV|
            #[trigger] self.query_items(filtered).count(p) <= self.contents().count(p));
        assert(forall|p: PointV|
            #[trigger] live(self.contents()).count(p) <= self.query_items(filtered).count(p));
        assert(self.query_items(true) =~= live(self.contents()));
    }
}

impl<T: NearestNeighbors> Forest<T> {
    /// Creates an empty forest.
    pub fn new() -> (r: Self)
        ensures
            r.inv(),
            r.contents() == Multiset::<PointV>::empty(),
    {
        let r = Forest { buffer: Vec::new(), trees: Vec::new() };
        proof {
            assert(points_of(r.buffer@) =~= Multiset::<PointV>::empty()) by {
                assert(r.buffer@.map_values(|p: Point| p@) =~= Seq::<PointV>::empty());
            }
            assert(r.contents() =~= Multiset::<PointV>::empty());
        }
        r
    }

    /// Counts the stored items: the buffer plus one full slot's worth for
    /// each occupied slot.
    fn count_items(&self) -> (n: usize)
        requires
            self.trees@.len() <= 25,
            forall|j: int| 0 <= j < self.trees@.len() ==> slot_inv(#[trigger] self.trees@[j], j),
            self.contents().len() <= COUNT_LIMIT,
        ensures
            n == self.contents().len(),
    {
        proof {
            vstd::arithmetic::power2::lemma2_to64();
        }
        let mut n = self.buffer.len();
        let mut bit: usize = BUFFER_SIZE;
        let mut i: usize = 0;
        proof {
            assert(n + tc_from(self.trees@, 0).len() == self.contents().len());
        }
        while i < self.trees.len()
            invariant
                0 <= i <= self.trees@.len(),
                self.trees@.len() <= 25,
                forall|j: int|
                    0 <= j < self.trees@.len() ==> slot_inv(#[trigger] self.trees@[j], j),
                self.contents().len() <= COUNT_LIMIT,
                bit == (BUFFER_SIZE as int) * pow2(i as nat),
                n + tc_from(self.trees@, i as int).len() == self.contents().len(),
            decreases self.trees@.len() - i,
        {
            proof {
                lemma_bit_bound(i as nat);
                assert(tc_from(self.trees@, i as int) == slot_contents(
                    self.trees@[i as int],
                ).add(tc_from(self.trees@, i as int + 1)));
                lemma_tc_from_le(self.trees@, i as int, i as int + 1);
                crate::metric::lemma_subset_len(
                    tc_from(self.trees@, i as int + 1),
                    tc_from(self.trees@, i as int),
                );
            }
            match &self.trees[i] {
                Some(_) => {
                    n = n + bit;
                },
                None => {
                },
            }
            proof {
                vstd::arithmetic::power2::lemma_pow2_unfold((i + 1) as nat);
                assert((BUFFER_SIZE as int) * pow2((i + 1) as nat) == 2 * (
                (BUFFER_SIZE as int) * pow2(i as nat))) by (nonlinear_arith)
                    requires
                        pow2((i + 1) as nat) == 2 * pow2(i as nat),
                ;
            }
            i = i + 1;
            bit = bit * 2;
        }
        proof {
            assert(tc_from(self.trees@, self.trees@.len() as int)
                == Multiset::<PointV>::empty());
        }
        n
    }

    /// The number of items in the forest.
    pub fn len(&self) -> (n: usize)
        requires
            self.inv(),
        ensures
            n == self.contents().len(),
    {
        self.count_items()
    }

    /// Whether the forest holds no items.
    pub fn is_empty(&self) -> (r: bool)
        requires
            self.inv(),
        ensures
            r == (self.contents().len() == 0),
    {
        self.len() == 0
    }

    /// Adds the given items, compacting the buffer into sub-indices when it
    /// fills.
    #[verifier::rlimit(100)]
    pub fn extend(&mut self, items: Vec<Point>)
        requires
            old(self).inv(),
            uniform(old(self).contents().add(points_of(items@))),
            old(self).contents().len() + items@.len() <= COUNT_LIMIT,
        ensures
            final(self).inv(),
            final(self).contents() == old(self).contents().add(points_of(items@)),
    {
        let ghost c_all = old(self).contents().add(points_of(items@));
        let ghost buf0 = self.buffer@;
        let mut items = items;
        let ghost items0 = items@;
        self.buffer.append(&mut items);
        proof {
            assert(self.buffer@ == buf0 + items0);
            crate::metric::lemma_points_of_concat(buf0, items0);
            assert(self.contents() =~= c_all);
            assert(points_of(items0).len() == items0.len());
        }
        if self.buffer.len() < BUFFER_SIZE {
            return ;
        }
        let total = self.count_items();
        let ghost n = c_all.len() as int;
        proof {
            vstd::arithmetic::power2::lemma2_to64();
            vstd::arithmetic::div_mod::lemma_fundamental_div_mod(n, 64);
            vstd::arithmetic::div_mod::lemma_mod_bound(n, 64);
            assert(n % (64 as int) == n % 64);
        }
        let mut i: usize = 0;
        let mut bit: usize = BUFFER_SIZE;
        while bit <= total
            invariant
                0 <= i <= 25,
                i as int <= self.trees@.len(),
                self.trees@.len() <= 25,
                64 <= bit,
                bit == (BUFFER_SIZE as int) * pow2(i as nat),
                total == n,
                n == c_all.len(),
                64 <= n <= COUNT_LIMIT,
                uniform(c_all),
                self.contents() == c_all,
                forall|j: int|
                    0 <= j < self.trees@.len() ==> slot_inv(#[trigger] self.trees@[j], j),
                self.buffer@.len() + n % (bit as int) + tc_from(self.trees@, i as int).len() == n
                    + n % 64,
                self.buffer@.len() <= n,
            decreases 2 * total - bit,
        {
            proof {
                lemma_bit_bound(i as nat);
                if i as int >= self.trees@.len() {
                    assert(tc_from(self.trees@, i as int) == Multiset::<PointV>::empty());
                }
            }
            if self.trees.len() <= i {
                let ghost tpre = self.trees@;
                proof {
                    lemma_tc_from_push_none(tpre, 0);
                    lemma_tc_from_push_none(tpre, i as int);
                }
                self.trees.push(None);
                proof {
                    assert(self.trees@ == tpre.push(None));
                    assert(forall|j: int|
                        0 <= j < tpre.len() ==> self.trees@[j] == #[trigger] tpre[j]);
                    assert(self.trees@.last() is None);
                    assert(forall|j: int|
                        0 <= j < self.trees@.len() ==> slot_inv(#[trigger] self.trees@[j], j));
                    assert(self.contents() =~= c_all);
                }
            }
            let ghost s0 = self.trees@;
            let ghost b0 = self.buffer@;
            let set_bit = (total / bit) % 2 == 1;
            let mut slot: Option<T> = None;
            core::mem::swap(&mut self.trees[i], &mut slot);
            let ghost s1 = self.trees@;
            proof {
                assert(s1 == s0.update(i as int, None));
                assert(forall|j: int| 0 <= j < s0.len() ==> slot_inv(#[trigger] s0[j], j));
                assert(points_of(b0).add(tc_from(s0, 0)) == c_all);
                lemma_tc_from_update(s0, 0, i as int, None::<T>);
                lemma_tc_from_update(s0, i as int, i as int, None::<T>);
                lemma_tc_from_unchanged(s0, s1, i as int + 1);
                assert(tc_from(s1, i as int) == slot_contents(s1[i as int]).add(
                    tc_from(s1, i as int + 1),
                ));
                assert(tc_from(s1, i as int) == tc_from(s0, i as int + 1)) by {
                    assert(slot_contents(s1[i as int]) == Multiset::<PointV>::empty());
                    assert(tc_from(s1, i as int) =~= tc_from(s1, i as int + 1));
                }
                vstd::arithmetic::power2::lemma_pow2_unfold((i + 1) as nat);
                assert((BUFFER_SIZE as int) * pow2((i + 1) as nat) == 2 * (bit as int))
                    by (nonlinear_arith)
                    requires
                        pow2((i + 1) as nat) == 2 * pow2(i as nat),
                        bit == (BUFFER_SIZE as int) * pow2(i as nat),
                ;
                vstd::arithmetic::div_mod::lemma_breakdown(n, bit as int, 2);
                assert(n % (2 * (bit as int)) == (bit as int) * ((n / (bit as int)) % 2) + n % (
                bit as int));
            }
            match slot {
                Some(t) => {
                    let ghost tcont = t.contents();
                    proof {
                        assert(s0[i as int] == Some(t));
                        assert(slot_inv(s0[i as int], i as int));
                        assert(tcont.len() == bit);
                        assert(tc_from(s0, i as int) == slot_contents(s0[i as int]).add(
                            tc_from(s0, i as int + 1),
                        ));
                        assert(tc_from(s0, i as int).len() == tcont.len() + tc_from(
                            s0,
                            i as int + 1,
                        ).len());
                    }
                    if set_bit {
                        let mut back = Some(t);
                        let ghost bs = back;
                        core::mem::swap(&mut self.trees[i], &mut back);
                        proof {
                            assert(self.trees@ == s1.update(i as int, bs));
                            assert(self.trees@ =~= s0);
                            assert(self.contents() =~= c_all);
                            assert(forall|j: int|
                                0 <= j < self.trees@.len() ==> slot_inv(
                                    #[trigger] self.trees@[j],
                                    j,
                                ));
                            assert((n / (bit as int)) % 2 == 1);
                            assert((bit as int) * ((n / (bit as int)) % 2) == bit as int)
                                by (nonlinear_arith)
                                requires
                                    (n / (bit as int)) % 2 == 1,
                            ;
                            assert(n % (2 * (bit as int)) == (bit as int) + n % (bit as int));
                            assert(tc_from(self.trees@, i as int + 1).len() == tc_from(
                                s0,
                                i as int + 1,
                            ).len());
                            assert(self.buffer@.len() + n % (bit as int) + tc_from(
                                s0,
                                i as int,
                            ).len() == n + n % 64);
                            assert(tc_from(s0, i as int).len() == bit + tc_from(
                                s0,
                                i as int + 1,
                            ).len());
                            assert(self.buffer@.len() + n % (2 * (bit as int)) + tc_from(
                                self.trees@,
                                i as int + 1,
                            ).len() == n + n % 64);
                        }
                    } else {
                        let mut drained = t.into_vec();
                        let ghost dr = drained@;
                        self.buffer.append(&mut drained);
                        proof {
                            assert(self.buffer@ == b0 + dr);
                            crate::metric::lemma_points_of_concat(b0, dr);
                            assert(points_of(dr) == tcont);
                            assert(points_of(dr).len() == dr.len());
                            assert forall|p: PointV| #[trigger] self.contents().count(p)
                                == c_all.count(p) by {
                                assert(tc_from(s1, 0).add(slot_contents(s0[i as int])).count(p)
                                    == tc_from(s0, 0).add(slot_contents(None::<T>)).count(p));
                            }
                            assert(self.contents() =~= c_all);
                            assert(forall|j: int|
                                0 <= j < self.trees@.len() ==> slot_inv(
                                    #[trigger] self.trees@[j],
                                    j,
                                ));
                            assert(self.buffer@.len() == b0.len() + bit);
                            assert((n / (bit as int)) % 2 == 0);
                            assert((bit as int) * ((n / (bit as int)) % 2) == 0)
                                by (nonlinear_arith)
                                requires
                                    (n / (bit as int)) % 2 == 0,
                            ;
                            assert(n % (2 * (bit as int)) == n % (bit as int));
                            assert(self.buffer@.len() + n % (2 * (bit as int)) + tc_from(
                                self.trees@,
                                i as int + 1,
                            ).len() == n + n % 64);
                            crate::metric::lemma_subset_len(
                                points_of(self.buffer@),
                                self.contents(),
                            );
                            assert(points_of(self.buffer@).subset_of(self.contents())) by {
                                assert(forall|p: PointV|
                                    #[trigger] points_of(self.buffer@).count(p)
                                        <= self.contents().count(p));
                            }
                            assert(points_of(self.buffer@).len() == self.buffer@.len());
                            assert(self.buffer@.len() <= n);
                        }
                    }
                },
                None => {
                    proof {
                        assert(s0[i as int] is None);
                        assert(s1 =~= s0);
                        assert(tc_from(s1, 0) == tc_from(s0, 0));
                        assert(self.contents() =~= c_all);
                    }
                    if set_bit {
                        proof {
                            lemma_tc_from_divisible(s1, i as int + 1);
                            lemma_tc_from_le(s1, 0, i as int + 1);
                            crate::metric::lemma_subset_len(
                                tc_from(s1, i as int + 1),
                                tc_from(s1, 0),
                            );
                            assert(tc_from(s1, 0).subset_of(c_all)) by {
                                assert(forall|p: PointV|
                                    #[trigger] tc_from(s1, 0).count(p) <= c_all.count(p));
                            }
                            crate::metric::lemma_subset_len(tc_from(s1, 0), c_all);
                            lemma_build_room(
                                n,
                                bit as int,
                                tc_from(s1, i as int + 1).len() as int,
                            );
                            vstd::arithmetic::div_mod::lemma_mod_bound(n, bit as int);
                            assert(self.buffer@.len() >= bit);
                        }
                        let at = self.buffer.len() - bit;
                        let chunk = self.buffer.split_off(at);
                        proof {
                            assert(self.buffer@ == b0.subrange(0, at as int));
                            assert(chunk@ == b0.subrange(at as int, b0.len() as int));
                            assert(b0 =~= b0.subrange(0, at as int) + b0.subrange(
                                at as int,
                                b0.len() as int,
                            ));
                            crate::metric::lemma_points_of_concat(
                                b0.subrange(0, at as int),
                                b0.subrange(at as int, b0.len() as int),
                            );
                            assert(points_of(b0) == points_of(self.buffer@).add(
                                points_of(chunk@),
                            ));
                            assert(points_of(chunk@).subset_of(c_all)) by {
                                assert(forall|p: PointV|
                                    #[trigger] points_of(chunk@).count(p) <= c_all.count(p));
                            }
                            lemma_uniform_buildable(chunk@, c_all);
                            assert(points_of(chunk@).len() == chunk@.len());
                        }
                        let tree = T::from_vec(chunk);
                        let ghost treec = tree.contents();
                        let mut nb = Some(tree);
                        let ghost ns = nb;
                        core::mem::swap(&mut self.trees[i], &mut nb);
                        proof {
                            let s2 = self.trees@;
                            assert(s2 == s1.update(i as int, ns));
                            lemma_tc_from_update(s1, 0, i as int, ns);
                            lemma_tc_from_update(s1, i as int, i as int, ns);
                            lemma_tc_from_unchanged(s1, s2, i as int + 1);
                            assert(slot_contents(ns) == treec);
                            assert(treec.len() == bit);
                            assert forall|p: PointV| #[trigger] self.contents().count(p)
                                == c_all.count(p) by {
                                assert(tc_from(s2, 0).add(slot_contents(s1[i as int])).count(p)
                                    == tc_from(s1, 0).add(slot_contents(ns)).count(p));
                                assert(points_of(b0).count(p) == points_of(
                                    self.buffer@,
                                ).count(p) + points_of(chunk@).count(p));
                            }
                            assert(self.contents() =~= c_all);
                            assert(slot_inv(s2[i as int], i as int));
                            assert(forall|j: int|
                                0 <= j < s2.len() ==> slot_inv(#[trigger] s2[j], j));
                            assert(tc_from(s2, i as int) == slot_contents(s2[i as int]).add(
                                tc_from(s2, i as int + 1),
                            ));
                            assert(tc_from(s2, i as int + 1) == tc_from(s1, i as int + 1));
                            assert((n / (bit as int)) % 2 == 1);
                            assert((bit as int) * ((n / (bit as int)) % 2) == bit as int)
                                by (nonlinear_arith)
                                requires
                                    (n / (bit as int)) % 2 == 1,
                            ;
                            assert(n % (2 * (bit as int)) == (bit as int) + n % (bit as int));
                            assert(tc_from(s0, i as int) == tc_from(s0, i as int + 1)) by {
                                assert(tc_from(s0, i as int) == slot_contents(s0[i as int]).add(
                                    tc_from(s0, i as int + 1),
                                ));
                                assert(tc_from(s0, i as int) =~= tc_from(s0, i as int + 1));
                            }
                            assert(self.buffer@.len() == b0.len() - bit);
                            assert(b0.len() + n % (bit as int) + tc_from(s0, i as int).len() == n
                                + n % 64);
                            assert(self.buffer@.len() + n % (2 * (bit as int)) + tc_from(
                                self.trees@,
                                i as int + 1,
                            ).len() == n + n % 64);
                        }
                    } else {
                        proof {
                            assert((n / (bit as int)) % 2 == 0);
                            assert((bit as int) * ((n / (bit as int)) % 2) == 0)
                                by (nonlinear_arith)
                                requires
                                    (n / (bit as int)) % 2 == 0,
                            ;
                            assert(n % (2 * (bit as int)) == n % (bit as int));
                            assert(self.buffer@.len() + n % (2 * (bit as int)) + tc_from(
                                self.trees@,
                                i as int + 1,
                            ).len() == n + n % 64);
                        }
                    }
                },
            }
            i = i + 1;
            bit = bit * 2;
        }
        proof {
            vstd::arithmetic::div_mod::lemma_small_mod(n as nat, bit as nat);
        }
    }
}

impl<T: NearestNeighbors> Forest<T> {
    /// Adds one item to the forest.
    pub fn push(&mut self, item: Point)
        requires
            old(self).inv(),
            wf_point(item@),
            compat(old(self).contents(), item@.coords),
            old(self).contents().len() < COUNT_LIMIT,
        ensures
            final(self).inv(),
            final(self).contents() == old(self).contents().insert(item@),
    {
        let ghost itemv = item@;
        let ghost c0 = self.contents();
        let mut v: Vec<Point> = Vec::new();
        v.push(item);
        proof {
            assert(v@.map_values(|p: Point| p@) =~= Seq::<PointV>::empty().push(itemv));
            assert(points_of(v@) =~= Multiset::singleton(itemv)) by {
                assert(Seq::<PointV>::empty().push(itemv).to_multiset()
                    =~= Multiset::<PointV>::empty().insert(itemv));
            }
            assert(buildable(v@));
            assert forall|p: PointV, q: PointV|
                #[trigger] c0.add(points_of(v@)).count(p) > 0 && #[trigger] c0.add(
                    points_of(v@),
                ).count(q) > 0 implies p.coords.len() == q.coords.len() by {
                assert(points_of(v@).count(p) > 0 ==> p == itemv);
                assert(points_of(v@).count(q) > 0 ==> q == itemv);
            }
            assert(uniform(c0.add(points_of(v@))));
            assert(points_of(v@).len() == 1);
        }
        self.extend(v);
        proof {
            assert(c0.add(Multiset::singleton(itemv)) =~= c0.insert(itemv));
        }
    }

    /// Rebuilds the whole forest from scratch, discarding deleted items.
    pub fn rebuild(&mut self)
        requires
            old(self).inv(),
        ensures
            final(self).inv(),
            final(self).contents() == live(old(self).contents()),
    {
        let ghost c0 = self.contents();
        let mut tmp = Forest::new();
        core::mem::swap(self, &mut tmp);
        let items = tmp.into_vec();
        let kept = crate::metric::retain_live(items);
        proof {
            lemma_uniform_subset(live(c0), c0);
            assert(self.contents().add(points_of(kept@)) =~= live(c0));
            crate::metric::lemma_live_subset(c0, true);
            crate::metric::lemma_subset_len(live(c0), c0);
        }
        self.extend(kept);
        proof {
            assert(final(self).contents() =~= live(c0));
        }
    }
}

/// A forest of k-d trees.
pub type KdForest = Forest<crate::metric::kd::KdTree>;

/// A forest of vantage-point trees.
pub type VpForest = Forest<crate::metric::vp::VpTree>;

/// A sub-multiset of a uniform multiset is uniform.
proof fn lemma_uniform_subset(m1: Multiset<PointV>, m2: Multiset<PointV>)
    requires
        uniform(m2),
        m1.subset_of(m2),
    ensures
        uniform(m1),
{
}

/// Slot sizes against the count cap: slots beyond position 24 would exceed
/// it, and slots up to there fit.
proof fn lemma_bit_bound(i: nat)
    ensures
        i >= 25 ==> (BUFFER_SIZE as int) * pow2(i) > 0x40000000,
        i <= 24 ==> (BUFFER_SIZE as int) * pow2(i) <= 0x40000000,
{
    vstd::arithmetic::power2::lemma2_to64();
    if i >= 25 {
        if i > 25 {
            vstd::arithmetic::power2::lemma_pow2_strictly_increases(25, i);
        }
        assert((BUFFER_SIZE as int) * pow2(i) > 0x40000000) by (nonlinear_arith)
            requires
                pow2(i) >= 0x2000000,
                BUFFER_SIZE == 64,
        ;
    }
    if i <= 24 {
        if i < 24 {
            vstd::arithmetic::power2::lemma_pow2_strictly_increases(i, 24);
        }
        assert((BUFFER_SIZE as int) * pow2(i) <= 0x40000000) by (nonlinear_arith)
            requires
                pow2(i) <= 0x1000000,
                BUFFER_SIZE == 64,
        ;
    }
}

/// A longer suffix of searches offers no fewer items.
proof fn lemma_tq_from_le<T: NearestNeighbors>(
    s: Seq<Option<T>>,
    a: int,
    b: int,
    filtered: bool,
)
    requires
        0 <= a <= b,
    ensures
        tq_from(s, b, filtered).subset_of(tq_from(s, a, filtered)),
    decreases b - a,
{
    if a < b {
        lemma_tq_from_le(s, a + 1, b, filtered);
        if a < s.len() {
            assert(tq_from(s, a, filtered) == slot_query(s[a], filtered).add(
                tq_from(s, a + 1, filtered),
            ));
            assert(forall|p: PointV|
                #[trigger] tq_from(s, b, filtered).count(p) <= tq_from(s, a, filtered).count(p));
        } else {
            assert(tq_from(s, a, filtered) == Multiset::<PointV>::empty());
            assert(tq_from(s, b, filtered) == Multiset::<PointV>::empty());
        }
    }
}

/// A buildable sequence's points form a uniform multiset.
proof fn lemma_buildable_uniform(s: Seq<Point>)
    requires
        buildable(s),
    ensures
        uniform(points_of(s)),
{
    let f = |p: Point| p@;
    assert forall|p: PointV| #[trigger] points_of(s).count(p) > 0 implies wf_point(p) by {
        assert(s.map_values(f).contains(p));
        let i = choose|i: int| 0 <= i < s.len() && s.map_values(f)[i] == p;
        assert(s[i]@ == p);
    }
    assert forall|p: PointV, q: PointV|
        #[trigger] points_of(s).count(p) > 0 && #[trigger] points_of(s).count(q)
            > 0 implies p.coords.len() == q.coords.len() by {
        assert(s.map_values(f).contains(p));
        assert(s.map_values(f).contains(q));
        let i = choose|i: int| 0 <= i < s.len() && s.map_values(f)[i] == p;
        let j = choose|j: int| 0 <= j < s.len() && s.map_values(f)[j] == q;
        assert(s[i]@ == p && s[j]@ == q);
    }
}

} // verus!
