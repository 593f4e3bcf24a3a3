//! Linear orders for colors: the orders in which a painter consumes them.

use vstd::prelude::*;
use rand::seq::SliceRandom;
use crate::color::Rgb8;
use crate::color::source::ColorSource;
use crate::hilbert::hilbert_point;

verus! {

broadcast use vstd::seq_lib::group_to_multiset_ensures;

/// The numerator of the hue angle's tangent.
pub open spec fn hue_num(c: Rgb8) -> int {
    c.g as int - c.b as int
}

/// The denominator of the hue angle's tangent, adjusted so that grays still
/// get a defined hue.
pub open spec fn hue_denom(c: Rgb8) -> int {
    if hue_num(c) == 0 && 2 * (c.r as int) - c.g as int - c.b as int == 0 {
        1
    } else {
        2 * (c.r as int) - c.g as int - c.b as int
    }
}

/// The quadrant of the hue angle.
pub open spec fn hue_quad(c: Rgb8) -> int {
    if hue_num(c) >= 0 && hue_denom(c) >= 0 {
        0
    } else if hue_num(c) >= 0 {
        1
    } else if hue_denom(c) < 0 {
        2
    } else {
        3
    }
}

/// One color's hue sorts no later than another's: by quadrant first, then by
/// comparing tangents with cross multiplication.
pub open spec fn hue_le(a: Rgb8, b: Rgb8) -> bool {
    hue_quad(a) < hue_quad(b) || (hue_quad(a) == hue_quad(b) && hue_num(a) * hue_denom(b)
        <= hue_num(b) * hue_denom(a))
}

/// Any two colors compare one way or the other.
pub proof fn lemma_hue_total(a: Rgb8, b: Rgb8)
    ensures
        hue_le(a, b) || hue_le(b, a),
{
}

/// Compares two colors by hue.
fn hue_le_exec(a: &Rgb8, b: &Rgb8) -> (r: bool)
    ensures
        r == hue_le(*a, *b),
{
    let na = a.g as i32 - a.b as i32;
    let mut da = 2 * (a.r as i32) - a.g as i32 - a.b as i32;
    if na == 0 && da == 0 {
        da = 1;
    }
    let qa: i32 = if na >= 0 && da >= 0 {
        0
    } else if na >= 0 {
        1
    } else if da < 0 {
        2
    } else {
        3
    };
    let nb = b.g as i32 - b.b as i32;
    let mut db = 2 * (b.r as i32) - b.g as i32 - b.b as i32;
    if nb == 0 && db == 0 {
        db = 1;
    }
    let qb: i32 = if nb >= 0 && db >= 0 {
        0
    } else if nb >= 0 {
        1
    } else if db < 0 {
        2
    } else {
        3
    };
    proof {
        assert(na as int == hue_num(*a) && da as int == hue_denom(*a) && qa as int == hue_quad(*a));
        assert(nb as int == hue_num(*b) && db as int == hue_denom(*b) && qb as int == hue_quad(*b));
        assert(-0x40000 < (na as int) * (db as int) < 0x40000) by (nonlinear_arith)
            requires
                -256 < (na as int) < 256,
                -512 < (db as int) < 512,
        ;
        assert(-0x40000 < (nb as int) * (da as int) < 0x40000) by (nonlinear_arith)
            requires
                -256 < (nb as int) < 256,
                -512 < (da as int) < 512,
        ;
    }
    qa < qb || (qa == qb && na * db <= nb * da)
}

/// The number of coordinate tuples in a space with the given dimensions.
pub open spec fn space_size(dims: Seq<usize>) -> int
    decreases dims.len(),
{
    if dims.len() == 0 {
        1
    } else {
        (dims[0] as int) * space_size(dims.drop_first())
    }
}

/// What is left of a row-major index after the first `j` coordinates have
/// been peeled off by division.
pub open spec fn peel(i: int, dims: Seq<usize>, j: int) -> int
    decreases j,
{
    if j <= 0 {
        i
    } else {
        peel(i, dims, j - 1) / (dims[j - 1] as int)
    }
}

/// Coordinate `j` of the `i`th tuple in row-major order: digit `j` of `i`
/// in the mixed radix the dimensions give.
pub open spec fn decode(i: int, dims: Seq<usize>, j: int) -> int {
    peel(i, dims, j) % (dims[j] as int)
}

/// The coordinates of the `i`th tuple in row-major order.
pub open spec fn decoded(i: int, dims: Seq<usize>) -> Seq<int> {
    Seq::new(dims.len(), |j: int| decode(i, dims, j))
}

/// Every color of the source, ordered by row-major coordinate tuples.
pub open spec fn color_table<S: ColorSource>(s: &S) -> Seq<Rgb8> {
    Seq::new(
        space_size(s.dims_spec()) as nat,
        |i: int| s.color_at(decoded(i, s.dims_spec())),
    )
}

/// Whether the source's space fits the enumeration limit: no dimension
/// empty, and not more than two-to-the-twenty-fourth tuples.
pub open spec fn fits(dims: Seq<usize>) -> bool {
    &&& forall|j: int| 0 <= j < dims.len() ==> (#[trigger] dims[j]) >= 1
    &&& space_size(dims) <= 0x1000000
}

/// Appending a dimension multiplies the space.
proof fn lemma_space_size_snoc(dims: Seq<usize>, d: usize)
    ensures
        space_size(dims.push(d)) == space_size(dims) * (d as int),
    decreases dims.len(),
{
    if dims.len() == 0 {
        assert(dims.push(d).drop_first() =~= Seq::<usize>::empty());
        assert(dims.push(d)[0] == d);
        assert(space_size(Seq::<usize>::empty()) == 1);
        assert(space_size(dims.push(d)) == (d as int) * 1);
        assert((d as int) * 1 == 1 * (d as int)) by (nonlinear_arith);
        assert(space_size(dims) == 1);
    } else {
        assert(dims.push(d).drop_first() =~= dims.drop_first().push(d));
        lemma_space_size_snoc(dims.drop_first(), d);
        assert((dims[0] as int) * (space_size(dims.drop_first()) * (d as int)) == ((
        dims[0] as int) * space_size(dims.drop_first())) * (d as int)) by (nonlinear_arith);
    }
}

/// A space over only occupied dimensions holds at least one tuple.
proof fn lemma_space_size_pos(dims: Seq<usize>)
    requires
        forall|j: int| 0 <= j < dims.len() ==> (#[trigger] dims[j]) >= 1,
    ensures
        space_size(dims) >= 1,
    decreases dims.len(),
{
    if dims.len() > 0 {
        assert(forall|j: int|
            0 <= j < dims.drop_first().len() ==> (#[trigger] dims.drop_first()[j]) >= 1);
        lemma_space_size_pos(dims.drop_first());
        assert((dims[0] as int) * space_size(dims.drop_first()) >= 1) by (nonlinear_arith)
            requires
                dims[0] as int >= 1,
                space_size(dims.drop_first()) >= 1,
        ;
    }
}

/// The space of a concatenation is the product of the spaces.
proof fn lemma_space_size_concat(a: Seq<usize>, b: Seq<usize>)
    ensures
        space_size(a + b) == space_size(a) * space_size(b),
    decreases a.len(),
{
    if a.len() == 0 {
        assert(a + b =~= b);
        assert(1 * space_size(b) == space_size(b)) by (nonlinear_arith);
    } else {
        assert((a + b).drop_first() =~= a.drop_first() + b);
        lemma_space_size_concat(a.drop_first(), b);
        assert((a + b)[0] == a[0]);
        assert((a[0] as int) * (space_size(a.drop_first()) * space_size(b)) == ((a[0] as int)
            * space_size(a.drop_first())) * space_size(b)) by (nonlinear_arith);
    }
}

/// Whether a color is one the source holds at some in-range coordinates.
pub open spec fn from_source<S: ColorSource>(s: &S, c: Rgb8) -> bool {
    exists|cs: Seq<int>|
        cs.len() == s.dims_spec().len() && (forall|i: int|
            0 <= i < cs.len() ==> 0 <= #[trigger] cs[i] < s.dims_spec()[i] as int) && c
            == #[trigger] s.color_at(cs)
}

/// Whether every element of a color sequence came from in-range coordinates
/// of the source.
pub open spec fn colors_from<S: ColorSource>(s: &S, r: Seq<Rgb8>) -> bool {
    forall|k: int| 0 <= k < r.len() ==> from_source(s, #[trigger] r[k])
}

/// Collects every color of a source, one coordinate tuple at a time in
/// row-major order: exactly the color table of the source.  When the space
/// does not fit the enumeration limit — an empty dimension, or more than
/// two-to-the-twenty-fourth tuples — nothing is produced.
#[verifier::rlimit(60)]
pub fn all_colors<S: ColorSource>(source: &S) -> (r: Vec<Rgb8>)
    requires
        source.dims_spec().len() >= 1,
    ensures
        colors_from(source, r@),
        fits(source.dims_spec()) ==> r@ == color_table(source),
        !fits(source.dims_spec()) ==> r@.len() == 0,
{
    let dims = source.dimensions();
    let n = dims.len();
    let mut total: usize = 1;
    let mut i: usize = 0;
    let mut ok = true;
    proof {
        assert(dims@.take(0) =~= Seq::<usize>::empty());
    }
    while i < n
        invariant
            i <= n,
            n == dims@.len(),
            dims@ == source.dims_spec(),
            1 <= total <= 0x1000000,
            ok ==> forall|j: int| 0 <= j < i ==> #[trigger] dims@[j] >= 1,
            ok ==> total == space_size(dims@.take(i as int)),
            !ok ==> !fits(dims@),
        decreases n - i,
    {
        let ghost pre_ok = ok;
        if dims[i] == 0 || !ok || total > 0x1000000 / dims[i] {
            proof {
                if pre_ok {
                    if dims@[i as int] == 0 {
                        assert(!fits(dims@));
                    } else {
                        // the prefix alone already overflows the limit
                        let d = dims@[i as int] as int;
                        vstd::arithmetic::div_mod::lemma_fundamental_div_mod(0x1000000, d);
                        vstd::arithmetic::div_mod::lemma_mod_bound(0x1000000, d);
                        assert(total * d > 0x1000000) by (nonlinear_arith)
                            requires
                                total > 0x1000000 as int / d,
                                d >= 1,
                                0x1000000 as int == d * (0x1000000 as int / d) + 0x1000000 as int
                                    % d,
                                0 <= 0x1000000 as int % d < d,
                        ;
                        lemma_space_size_snoc(dims@.take(i as int), dims@[i as int]);
                        assert(dims@.take(i as int).push(dims@[i as int]) =~= dims@.take(
                            i as int + 1,
                        ));
                        if fits(dims@) {
                            assert(dims@.take(i as int + 1) + dims@.skip(i as int + 1) =~= dims@);
                            lemma_space_size_concat(
                                dims@.take(i as int + 1),
                                dims@.skip(i as int + 1),
                            );
                            assert(forall|j: int|
                                0 <= j < dims@.skip(i as int + 1).len() ==> (
                                #[trigger] dims@.skip(i as int + 1)[j]) >= 1);
                            lemma_space_size_pos(dims@.skip(i as int + 1));
                            assert(space_size(dims@) >= space_size(dims@.take(i as int + 1)))
                                by (nonlinear_arith)
                                requires
                                    space_size(dims@) == space_size(dims@.take(i as int + 1))
                                        * space_size(dims@.skip(i as int + 1)),
                                    space_size(dims@.skip(i as int + 1)) >= 1,
                                    space_size(dims@.take(i as int + 1)) >= 0,
                            ;
                            assert(false);
                        }
                    }
                }
            }
            ok = false;
        } else {
            proof {
                let d = dims@[i as int] as int;
                vstd::arithmetic::div_mod::lemma_fundamental_div_mod(0x1000000, d);
                vstd::arithmetic::div_mod::lemma_mod_bound(0x1000000, d);
                assert(1 <= total * d <= 0x1000000) by (nonlinear_arith)
                    requires
                        total <= 0x1000000 as int / d,
                        d >= 1,
                        0x1000000 as int == d * (0x1000000 as int / d) + 0x1000000 as int % d,
                        0x1000000 as int % d >= 0,
                        total >= 1,
                ;
                lemma_space_size_snoc(dims@.take(i as int), dims@[i as int]);
                assert(dims@.take(i as int).push(dims@[i as int]) =~= dims@.take(i as int + 1));
            }
            total = total * dims[i];
        }
        i = i + 1;
    }
    let mut out: Vec<Rgb8> = Vec::new();
    if !ok {
        return out;
    }
    proof {
        assert(dims@.take(n as int) =~= dims@);
        assert(fits(dims@));
        assert(color_table(source).len() == space_size(dims@));
    }
    let mut idx: usize = 0;
    while idx < total
        invariant
            idx <= total,
            n == dims@.len(),
            n >= 1,
            dims@ == source.dims_spec(),
            fits(dims@),
            total == space_size(dims@),
            forall|j: int| 0 <= j < n ==> #[trigger] dims@[j] >= 1,
            colors_from(source, out@),
            out@ == color_table(source).take(idx as int),
        decreases total - idx,
    {
        let mut coords: Vec<usize> = Vec::new();
        let mut rem = idx;
        let mut j: usize = 0;
        while j < n
            invariant
                j <= n,
                n == dims@.len(),
                coords@.len() == j,
                rem == peel(idx as int, dims@, j as int),
                forall|q: int| 0 <= q < n ==> #[trigger] dims@[q] >= 1,
                forall|q: int|
                    0 <= q < j ==> #[trigger] coords@[q] < dims@[q] && coords@[q] as int == decode(
                        idx as int,
                        dims@,
                        q,
                    ),
            decreases n - j,
        {
            let c = rem % dims[j];
            coords.push(c);
            rem = rem / dims[j];
            j = j + 1;
        }
        let color = source.get_color(&coords);
        let ghost cs = coords@.map_values(|x: usize| x as int);
        let ghost outpre = out@;
        proof {
            assert(forall|q: int| 0 <= q < cs.len() ==> 0 <= #[trigger] cs[q] < dims@[q] as int);
            assert(cs =~= decoded(idx as int, dims@));
            assert(color == source.color_at(cs));
            assert(from_source(source, color));
            assert(color == color_table(source)[idx as int]);
        }
        out.push(color);
        proof {
            assert(out@ =~= color_table(source).take(idx as int + 1));
            assert forall|k: int| 0 <= k < out@.len() implies from_source(
                source,
                #[trigger] out@[k],
            ) by {
                if k < outpre.len() {
                    assert(out@[k] == outpre[k]);
                } else {
                    assert(out@[k] == color);
                }
            }
        }
        idx = idx + 1;
    }
    proof {
        assert(out@ =~= color_table(source));
    }
    out
}

/// Every color of the source, sorted by hue: a permutation of the color
/// table in which each color's hue sorts no later than the next one's.
#[verifier::rlimit(60)]
pub fn hue_sorted<S: ColorSource>(source: &S) -> (r: Vec<Rgb8>)
    requires
        source.dims_spec().len() >= 1,
    ensures
        colors_from(source, r@),
        forall|q: int| 0 <= q < r@.len() - 1 ==> hue_le(#[trigger] r@[q], r@[q + 1]),
        fits(source.dims_spec()) ==> r@.to_multiset() == color_table(source).to_multiset(),
        !fits(source.dims_spec()) ==> r@.len() == 0,
{
    let mut colors = all_colors(source);
    let ghost src0 = colors@;
    let n = colors.len();
    if n == 0 {
        proof {
            if fits(source.dims_spec()) {
                lemma_space_size_pos(source.dims_spec());
            }
        }
        return colors;
    }
    let mut i: usize = 1;
    while i < n
        invariant
            1 <= i <= n,
            colors@.len() == n,
            colors@.to_multiset() == src0.to_multiset(),
            colors_from(source, colors@),
            forall|q: int| 0 <= q < i - 1 ==> hue_le(#[trigger] colors@[q], colors@[q + 1]),
        decreases n - i,
    {
        let mut p: usize = i;
        while p > 0 && !hue_le_exec(&colors[p - 1], &colors[i])
            invariant
                0 <= p <= i < n,
                colors@.len() == n,
                forall|q: int| 0 <= q < i - 1 ==> hue_le(#[trigger] colors@[q], colors@[q + 1]),
                forall|q: int| p <= q < i ==> !hue_le(#[trigger] colors@[q], colors@[i as int]),
            decreases p,
        {
            p = p - 1;
        }
        let ghost before = colors@;
        let x = colors.remove(i);
        let ghost mid = colors@;
        colors.insert(p, x);
        proof {
            assert(mid == before.remove(i as int));
            assert(colors@ == mid.insert(p as int, x));
            assert(colors@.to_multiset() == before.to_multiset()) by {
                assert(mid.to_multiset() == before.to_multiset().remove(before[i as int]));
                assert(colors@.to_multiset() == mid.to_multiset().insert(x));
                assert(before.to_multiset().count(before[i as int]) > 0) by {
                    assert(before.contains(before[i as int]));
                }
                assert(colors@.to_multiset() =~= before.to_multiset());
            }
            assert forall|q: int| 0 <= q < n implies #[trigger] colors@[q] == (if q < p {
                before[q]
            } else if q == p {
                before[i as int]
            } else if q <= i {
                before[q - 1]
            } else {
                before[q]
            }) by {
            }
            assert forall|q: int| 0 <= q < i + 1 - 1 implies hue_le(
                #[trigger] colors@[q],
                colors@[q + 1],
            ) by {
                lemma_hue_total(colors@[q], colors@[q + 1]);
                if p > 0 && q == p - 1 {
                    assert(colors@[q] == before[q] && colors@[q + 1] == before[i as int]);
                    assert(hue_le(before[p - 1], before[i as int]));
                } else if q == p {
                    assert(colors@[q] == before[i as int] && colors@[q + 1] == before[p as int]);
                    lemma_hue_total(before[i as int], before[p as int]);
                }
            }
            assert forall|k: int| 0 <= k < colors@.len() implies from_source(
                source,
                #[trigger] colors@[k],
            ) by {
                let w = if k < p {
                    k
                } else if k == p {
                    i as int
                } else if k <= i {
                    k - 1
                } else {
                    k
                };
                assert(colors@[k] == before[w]);
                assert(from_source(source, before[w]));
            }
        }
        i = i + 1;
    }
    colors
}

/// The least power of two no smaller than `n`, as an exponent.
pub fn log2(n: usize) -> (r: u32)
    requires
        1 <= n <= 0x1000000,
    ensures
        r <= 24,
        n as int <= vstd::arithmetic::power2::pow2(r as nat),
{
    proof {
        vstd::arithmetic::power2::lemma2_to64();
    }
    let mut r: u32 = 0;
    let mut p: usize = 1;
    while p < n
        invariant
            1 <= n <= 0x1000000,
            r <= 24,
            p == vstd::arithmetic::power2::pow2(r as nat),
            p <= 0x1000000,
            r == 0 || vstd::arithmetic::power2::pow2((r - 1) as nat) < n,
        decreases 2 * n - p,
    {
        proof {
            vstd::arithmetic::power2::lemma_pow2_unfold((r + 1) as nat);
            vstd::arithmetic::power2::lemma2_to64();
            if r >= 24 {
                assert(p >= 0x1000000);
            }
            assert(r <= 23);
            if r < 23 {
                vstd::arithmetic::power2::lemma_pow2_strictly_increases(r as nat, 23);
            }
            assert(p <= 0x800000);
        }
        r = r + 1;
        p = p * 2;
    }
    r
}

/// Every color of the source, in Morton order: each coordinate tuple is
/// read from the interleaved bits of a running index, and tuples outside
/// the space are skipped.  Nothing is produced when the index would need
/// more than twenty-four bits.
pub fn morton<S: ColorSource>(source: &S) -> (r: Vec<Rgb8>)
    requires
        source.dims_spec().len() >= 1,
    ensures
        colors_from(source, r@),
{
    let dims = source.dimensions();
    let ndims = dims.len();
    let mut maxbits: u32 = 1;
    let mut w: usize = 0;
    let mut small = true;
    while w < ndims
        invariant
            w <= ndims,
            ndims == dims@.len(),
            1 <= maxbits <= 24,
        decreases ndims - w,
    {
        if dims[w] == 0 || dims[w] > 0x1000000 {
            small = false;
        } else {
            let b = log2(dims[w]);
            if b > maxbits {
                maxbits = if b > 24 {
                    24
                } else {
                    b
                };
            }
        }
        w = w + 1;
    }
    let mut out: Vec<Rgb8> = Vec::new();
    if !small || ndims > 24 {
        return out;
    }
    proof {
        assert((maxbits as usize) * ndims <= 576) by (nonlinear_arith)
            requires
                maxbits as int <= 24,
                ndims as int <= 24,
                1 <= maxbits,
                1 <= ndims,
        ;
    }
    let nb = maxbits as usize * ndims;
    if nb > 24 {
        return out;
    }
    let nbits = nb;
    let size: usize = 1usize << nbits;
    let mut i: usize = 0;
    while i < size
        invariant
            ndims == dims@.len(),
            ndims >= 1,
            dims@ == source.dims_spec(),
            nbits <= 24,
            colors_from(source, out@),
        decreases size - i,
    {
        let mut vals: Vec<u64> = Vec::new();
        let mut z: usize = 0;
        while z < ndims
            invariant
                z <= ndims,
                vals@.len() == z,
                forall|q: int| 0 <= q < z ==> #[trigger] vals@[q] == 0,
            decreases ndims - z,
        {
            vals.push(0);
            z = z + 1;
        }
        let mut j: usize = 0;
        while j < nbits
            invariant
                j <= nbits,
                nbits <= 24,
                ndims == dims@.len(),
                ndims >= 1,
                vals@.len() == ndims,
                forall|q: int| 0 <= q < ndims ==> #[trigger] vals@[q] < 0x1000000,
            decreases nbits - j,
        {
            let bit = ((i as u64) >> (j as u64)) & 1;
            let k = (j / ndims) as u64;
            let ghost pv = vals@[(j % ndims) as int];
            proof {
                assert(k < 24);
                assert(pv | ((((i as u64) >> (j as u64)) & 1) << k) < 0x1000000u64)
                    by (bit_vector)
                    requires
                        pv < 0x1000000u64,
                        k < 24u64,
                ;
            }
            let v = vals[j % ndims] | (bit << k);
            vals[j % ndims] = v;
            j = j + 1;
        }
        // keep the tuple only when it lies inside the space
        let mut coords: Vec<usize> = Vec::new();
        let mut inside = true;
        let mut q: usize = 0;
        while q < ndims
            invariant
                q <= ndims,
                ndims == dims@.len(),
                vals@.len() == ndims,
                coords@.len() == q,
                forall|m: int| 0 <= m < ndims ==> #[trigger] vals@[m] < 0x1000000,
                inside ==> forall|m: int|
                    0 <= m < q ==> #[trigger] coords@[m] < dims@[m] && coords@[m] == vals@[m],
            decreases ndims - q,
        {
            let v = vals[q] as usize;
            if v >= dims[q] {
                inside = false;
            }
            coords.push(v);
            q = q + 1;
        }
        if inside {
            let color = source.get_color(&coords);
            let ghost cs = coords@.map_values(|x: usize| x as int);
            let ghost outpre = out@;
            proof {
                assert(forall|m: int|
                    0 <= m < cs.len() ==> 0 <= #[trigger] cs[m] < dims@[m] as int);
                assert(color == source.color_at(cs));
                assert(from_source(source, color));
            }
            out.push(color);
            proof {
                assert forall|m: int| 0 <= m < out@.len() implies from_source(
                    source,
                    #[trigger] out@[m],
                ) by {
                    if m < outpre.len() {
                        assert(out@[m] == outpre[m]);
                    } else {
                        assert(out@[m] == color);
                    }
                }
            }
        }
        i = i + 1;
    }
    out
}

/// Every color of the source, in Hilbert curve order: each coordinate tuple
/// comes from inverting a compact Hilbert index, and tuples outside the
/// space are skipped.  Nothing is produced when the index would need more
/// than twenty-four bits.
pub fn hilbert<S: ColorSource>(source: &S) -> (r: Vec<Rgb8>)
    requires
        source.dims_spec().len() >= 1,
    ensures
        colors_from(source, r@),
{
    let dims = source.dimensions();
    let ndims = dims.len();
    let mut out: Vec<Rgb8> = Vec::new();
    if ndims > 24 {
        return out;
    }
    let mut bits: Vec<u32> = Vec::new();
    let mut nbits: usize = 0;
    let mut w: usize = 0;
    let mut small = true;
    while w < ndims
        invariant
            w <= ndims,
            ndims <= 24,
            ndims == dims@.len(),
            bits@.len() == w,
            nbits <= 24 * w,
            forall|q: int| 0 <= q < w ==> 0 < #[trigger] bits@[q] <= 24,
        decreases ndims - w,
    {
        if dims[w] == 0 || dims[w] > 0x1000000 {
            small = false;
            bits.push(1);
            nbits = nbits + 1;
        } else {
            let b = log2(dims[w]);
            let b1 = if b == 0 {
                1
            } else {
                b
            };
            bits.push(b1);
            nbits = nbits + b1 as usize;
        }
        w = w + 1;
    }
    if !small || nbits > 24 {
        return out;
    }
    let size: usize = 1usize << nbits;
    let mut point: Vec<u64> = Vec::new();
    let mut z: usize = 0;
    while z < ndims
        invariant
            z <= ndims,
            point@.len() == z,
        decreases ndims - z,
    {
        point.push(0);
        z = z + 1;
    }
    let mut i: usize = 0;
    while i < size
        invariant
            ndims == dims@.len(),
            1 <= ndims <= 24,
            dims@ == source.dims_spec(),
            bits@.len() == ndims,
            forall|q: int| 0 <= q < ndims ==> 0 < #[trigger] bits@[q] <= 24,
            point@.len() == ndims,
            colors_from(source, out@),
        decreases size - i,
    {
        hilbert_point(i as u64, &bits, &mut point);
        let mut coords: Vec<usize> = Vec::new();
        let mut inside = true;
        let mut q: usize = 0;
        while q < ndims
            invariant
                q <= ndims,
                ndims == dims@.len(),
                point@.len() == ndims,
                coords@.len() == q,
                forall|m: int| 0 <= m < ndims ==> #[trigger] point@[m] < 0x1000000,
                inside ==> forall|m: int|
                    0 <= m < q ==> #[trigger] coords@[m] < dims@[m] && coords@[m]
                        == point@[m],
            decreases ndims - q,
        {
            let v = point[q] as usize;
            if v >= dims[q] {
                inside = false;
            }
            coords.push(v);
            q = q + 1;
        }
        if inside {
            let color = source.get_color(&coords);
            let ghost cs = coords@.map_values(|x: usize| x as int);
            let ghost outpre = out@;
            proof {
                assert(forall|m: int|
                    0 <= m < cs.len() ==> 0 <= #[trigger] cs[m] < dims@[m] as int);
                assert(color == source.color_at(cs));
                assert(from_source(source, color));
            }
            out.push(color);
            proof {
                assert forall|m: int| 0 <= m < out@.len() implies from_source(
                    source,
                    #[trigger] out@[m],
                ) by {
                    if m < outpre.len() {
                        assert(out@[m] == outpre[m]);
                    } else {
                        assert(out@[m] == color);
                    }
                }
            }
        }
        i = i + 1;
    }
    out
}

/// A permuted-congruential random number generator, declared so that one can
/// pass through verified code on its way to the shuffle below.
#[verifier::external_type_specification]
#[verifier::external_body]
pub struct ExLcg128Xsl64(rand_pcg::Lcg128Xsl64);

/// Relies on rand's `SliceRandom::shuffle`, a Fisher–Yates loop of swaps: it
/// permutes the slice in place, so the colors afterwards are the same
/// multiset as before, in an order drawn from the generator.
#[verifier::external_body]
fn shuffle_colors(colors: &mut Vec<Rgb8>, rng: &mut rand_pcg::Pcg64)
    ensures
        final(colors)@.to_multiset() == old(colors)@.to_multiset(),
{
    colors.as_mut_slice().shuffle(rng)
}

/// Every color of the source, in a random order drawn from the given
/// generator: a permutation of the color table.
pub fn shuffled<S: ColorSource>(source: &S, rng: &mut rand_pcg::Pcg64) -> (r: Vec<Rgb8>)
    requires
        source.dims_spec().len() >= 1,
    ensures
        colors_from(source, r@),
        fits(source.dims_spec()) ==> r@.to_multiset() == color_table(source).to_multiset(),
        !fits(source.dims_spec()) ==> r@.len() == 0,
{
    let mut colors = all_colors(source);
    let ghost before = colors@;
    shuffle_colors(&mut colors, rng);
    proof {
        assert(colors@.len() == colors@.to_multiset().len());
        assert(before.len() == before.to_multiset().len());
        assert forall|k: int| 0 <= k < colors@.len() implies from_source(
            source,
            #[trigger] colors@[k],
        ) by {
            assert(colors@.contains(colors@[k]));
            assert(colors@.to_multiset().count(colors@[k]) > 0);
            assert(before.to_multiset().count(colors@[k]) > 0);
            assert(before.contains(colors@[k]));
            let w = choose|w: int| 0 <= w < before.len() && #[trigger] before[w] == colors@[k];
            assert(from_source(source, before[w]));
        }
    }
    colors
}

/// Every color of the source, in stripes: first every other color, then
/// every other one of the rest, and so on, to spread an ordered list out.
/// Every color of the result is one of the given colors.
pub fn striped(colors: Vec<Rgb8>) -> (r: Vec<Rgb8>)
    requires
        colors@.len() <= 0x1000000,
    ensures
        forall|k: int| 0 <= k < r@.len() ==> colors@.contains(#[trigger] r@[k]),
{
    let len = colors.len();
    let mut result: Vec<Rgb8> = Vec::new();
    let mut stripe: usize = 1;
    while stripe <= len
        invariant
            forall|k: int| 0 <= k < result@.len() ==> colors@.contains(#[trigger] result@[k]),
            1 <= stripe <= 0x2000000,
            len == colors@.len(),
            len <= 0x1000000,
        decreases 2 * len - stripe,
    {
        let mut i: usize = stripe - 1;
        while i < len
            invariant
                len == colors@.len(),
                1 <= stripe <= 0x2000000,
                len <= 0x1000000,
                forall|k: int|
                    0 <= k < result@.len() ==> colors@.contains(#[trigger] result@[k]),
            decreases len + 2 * stripe - i,
        {
            proof {
                assert(colors@.contains(colors@[i as int]));
            }
            result.push(colors[i]);
            i = i + 2 * stripe;
        }
        stripe = stripe * 2;
    }
    result
}

} // verus!
