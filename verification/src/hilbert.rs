//! Compact Hilbert indices: mapping positions along a Hilbert curve with
//! per-dimension bit widths back to coordinates.

use vstd::prelude::*;

verus! {

/// Right rotation of the low `n` bits of `x` by `b` bits.
pub open spec fn spec_rotate_right(x: u64, b: u64, n: u64) -> u64 {
    ((x & (1u64 << b).wrapping_sub(1)) << (n - b) as u64 | (x >> b)) as u64
}

/// Right rotation of the low `n` bits of `x` by `b` bits.
pub fn rotate_right(x: u64, b: u64, n: u64) -> (r: u64)
    requires
        0 < n <= 63,
        b <= n,
    ensures
        r == spec_rotate_right(x, b, n),
{
    let l = x & (1u64 << b).wrapping_sub(1);
    let r = x >> b;
    (l << (n - b)) | r
}

/// Left rotation of the low `n` bits of `x` by `b` bits.
pub fn rotate_left(x: u64, b: u64, n: u64) -> (r: u64)
    requires
        0 < n <= 63,
        b <= n,
    ensures
        r == spec_rotate_right(x, (n - b) as u64, n),
{
    rotate_right(x, n - b, n)
}

/// The binary reflected Gray code.
pub open spec fn spec_gray_code(i: u64) -> u64 {
    i ^ (i >> 1u64)
}

/// The binary reflected Gray code.
pub fn gray_code(i: u64) -> (r: u64)
    ensures
        r == spec_gray_code(i),
{
    i ^ (i >> 1)
}

/// The entry point of the `i`th sub-hypercube.
pub fn entry_point(i: u64) -> (r: u64)
    ensures
        i == 0 ==> r == 0,
        i > 0 ==> r == spec_gray_code(((i - 1) as u64) & (!1u64)),
{
    if i == 0 {
        0
    } else {
        gray_code((i - 1) & !1)
    }
}

/// The inter sub-hypercube direction: the number of trailing set bits.
pub fn inter_direction(i: u64) -> (r: u32)
    ensures
        r == (!i).trailing_zeros(),
{
    (!i).trailing_zeros()
}

/// The intra sub-hypercube direction.
pub fn intra_direction(i: u64) -> (r: u32)
    ensures
        i & 1 != 0 ==> r == (!i).trailing_zeros(),
        i & 1 == 0 && i > 0 ==> r == (!((i - 1) as u64)).trailing_zeros(),
        i == 0 ==> r == 0,
{
    proof {
        assert(i == 0 ==> i & 1 == 0) by (bit_vector);
    }
    if i & 1 != 0 {
        inter_direction(i)
    } else if i > 0 {
        inter_direction(i - 1)
    } else {
        0
    }
}

/// The inverse of the T transformation.
pub fn t_inverse(dims: u64, e: u64, d: u64, a: u64) -> (r: u64)
    requires
        0 < dims <= 63,
        d <= dims,
    ensures
        r == spec_rotate_right(a, (dims - d) as u64, dims) ^ e,
{
    rotate_left(a, d, dims) ^ e
}

/// The inverse Gray code rank: reassembles an index `i` and its Gray code
/// `g` from the free bits `r` under the mask `mu`, keeping the pattern `pi`
/// on constrained bits.
#[verifier::loop_isolation(false)]
pub fn gray_code_rank_inverse(dims: u32, mu: u64, pi: u64, r: u64, free_bits: u32) -> (res: (
    u64,
    u64,
))
    requires
        0 < dims <= 63,
{
    let mut i: u64 = 0;
    let mut g: u64 = 0;
    let mut j: u32 = free_bits.wrapping_sub(1);
    let mut k: u32 = dims;
    while k > 0
        invariant
            k <= dims,
            dims <= 63,
        decreases k,
    {
        k = k - 1;
        if mu & (1u64 << k) == 0 {
            g = g | (pi & (1u64 << k));
            i = i | ((g ^ (i >> 1)) & (1u64 << k));
        } else {
            if j < 64 {
                i = i | (((r >> j) & 1) << k);
            }
            g = g | ((i ^ (i >> 1)) & (1u64 << k));
            j = j.wrapping_sub(1);
        }
    }
    (i, g)
}

/// The mask of dimensions still active at bit `i`, and how many they are.
#[verifier::loop_isolation(false)]
pub fn extract_mask(bits: &Vec<u32>, i: u32) -> (res: (u64, u32))
    requires
        bits@.len() <= 63,
    ensures
        res.1 <= bits@.len(),
{
    let mut mu: u64 = 0;
    let mut free_bits: u32 = 0;
    let dims = bits.len();
    let mut j: usize = dims;
    while j > 0
        invariant
            j <= dims,
            dims == bits@.len(),
            dims <= 63,
            free_bits <= dims - j,
        decreases j,
    {
        j = j - 1;
        mu = mu << 1;
        if bits[j] > i {
            mu = mu | 1;
            free_bits = free_bits + 1;
        }
    }
    (mu, free_bits)
}

/// Computes the coordinates of the point at a compact Hilbert index.
///
/// Every coordinate stays below two to its dimension's bit width's power,
/// because bits are only ever placed at positions below the largest width.
#[verifier::loop_isolation(false)]
pub fn hilbert_point(index: u64, bits: &Vec<u32>, point: &mut Vec<u64>)
    requires
        0 < bits@.len() <= 24,
        old(point)@.len() == bits@.len(),
        forall|j: int| 0 <= j < bits@.len() ==> 0 < #[trigger] bits@[j] <= 24,
    ensures
        final(point)@.len() == old(point)@.len(),
        forall|j: int| 0 <= j < final(point)@.len() ==> #[trigger] final(point)@[j] < 0x1000000,
{
    let dims = bits.len() as u32;
    let mut max: u32 = 0;
    let mut sum: u32 = 0;
    let mut w: usize = 0;
    while w < bits.len()
        invariant
            w <= bits@.len(),
            bits@.len() <= 24,
            forall|j: int| 0 <= j < bits@.len() ==> 0 < #[trigger] bits@[j] <= 24,
            max <= 24,
            sum <= 24 * w,
        decreases bits@.len() - w,
    {
        if bits[w] > max {
            max = bits[w];
        }
        sum = sum + bits[w];
        w = w + 1;
    }

    let mut e: u64 = 0;
    let mut k: u32 = 0;
    let mut d: u64 = 1;

    let mut w2: usize = 0;
    while w2 < point.len()
        invariant
            w2 <= point@.len(),
            point@.len() == old(point)@.len(),
            forall|j: int| 0 <= j < w2 ==> #[trigger] point@[j] == 0,
        decreases point@.len() - w2,
    {
        point[w2] = 0;
        w2 = w2 + 1;
    }

    let mut i: u32 = max;
    while i > 0
        invariant
            i <= max,
            max <= 24,
            sum <= 24 * 24,
            0 < dims <= 63,
            dims == bits@.len(),
            bits@.len() <= 24,
            k <= 24 * ((max - i) as u32),
            d <= dims as u64,
            point@.len() == old(point)@.len(),
            forall|j: int| 0 <= j < point@.len() ==> #[trigger] point@[j] < 0x1000000,
        decreases i,
    {
        i = i - 1;
        let m = extract_mask(bits, i);
        let free_bits = m.1;
        let mu = rotate_right(m.0, d, dims as u64);
        let pi = rotate_right(e, d, dims as u64) & !mu;
        let shift = sum.wrapping_sub(k).wrapping_sub(free_bits);
        let r = if shift < 64 && free_bits < 64 {
            (index >> shift) & (1u64 << free_bits).wrapping_sub(1)
        } else {
            0
        };
        k = k + free_bits;
        let wg = gray_code_rank_inverse(dims, mu, pi, r, free_bits);
        let w_out = wg.0;
        let mut l = t_inverse(dims as u64, e, d, wg.1);
        let mut j3: usize = 0;
        while j3 < point.len()
            invariant
                j3 <= point@.len(),
                point@.len() == old(point)@.len(),
                i < 24,
                forall|j: int| 0 <= j < point@.len() ==> #[trigger] point@[j] < 0x1000000,
            decreases point@.len() - j3,
        {
            let b = (l & 1) << i;
            let ghost pv = point@[j3 as int];
            proof {
                assert((l & 1) << i < 0x1000000u64) by (bit_vector)
                    requires
                        i < 24,
                ;
                assert(pv | ((l & 1) << i) < 0x1000000u64) by (bit_vector)
                    requires
                        pv < 0x1000000u64,
                        (l & 1) << i < 0x1000000u64,
                        i < 24,
                ;
            }
            let v = point[j3] | b;
            point[j3] = v;
            l = l >> 1;
            let ghost _ = 0int;
            j3 = j3 + 1;
        }
        let ep = entry_point(w_out);
        e = e ^ rotate_right(ep, d, dims as u64);
        let id = intra_direction(w_out);
        d = (d + (id as u64) + 1) % (dims as u64);
    }
}

} // verus!
