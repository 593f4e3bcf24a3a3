//! Nearest-neighbor index tests: the fixed scenarios, the random-input
//! comparison against the exhaustive oracle, and the adapters.

use kd_forest::forest::Forest;
use kd_forest::metric::kd::KdTree;
use kd_forest::metric::vp::VpTree;
use kd_forest::metric::{ExhaustiveSearch, NearestNeighbors, Neighbor, Point};
use kd_forest::soft::{SoftKdForest, SoftSearch, SoftVpForest};

use rand::{Rng, SeedableRng};
use kd_forest::metric::{isqrt, RawDistance, SquaredDistance};
use kd_forest::color::order::{all_colors, hue_sorted, log2, striped};
use kd_forest::color::source::{AllColors, ColorSource};
use kd_forest::color::Rgb8;
use kd_forest::hilbert::hilbert_point;

fn pt(x: i64, y: i64, z: i64) -> Point {
    Point {
        coords: vec![x, y, z],
        deleted: false,
        tag: 0,
    }
}

fn del_pt(x: i64, y: i64, z: i64) -> Point {
    Point {
        coords: vec![x, y, z],
        deleted: true,
        tag: 0,
    }
}

fn assert_neighbor(n: &Neighbor, coords: &[i64], distance: i64) {
    assert_eq!(n.item.coords.as_slice(), coords);
    assert_eq!(n.distance, distance);
}

fn pythagorean_points() -> Vec<Point> {
    vec![
        pt(3, 4, 0),
        pt(5, 0, 12),
        pt(0, 8, 15),
        pt(1, 2, 2),
        pt(2, 3, 6),
        pt(4, 4, 7),
    ]
}

fn test_empty<T: NearestNeighbors, F: Fn(Vec<Point>) -> T>(from_iter: &F) {
    let index = from_iter(Vec::new());
    let target = pt(0, 0, 0);
    assert!(index.nearest(&target).is_none());
    assert!(index.nearest_within(&target, 1).is_none());
    assert!(index.k_nearest(&target, 0).is_empty());
    assert!(index.k_nearest(&target, 3).is_empty());
    assert!(index.k_nearest_within(&target, 0, 1).is_empty());
    assert!(index.k_nearest_within(&target, 3, 1).is_empty());
}

fn test_pythagorean<T: NearestNeighbors, F: Fn(Vec<Point>) -> T>(from_iter: &F) {
    let index = from_iter(pythagorean_points());
    let target = pt(0, 0, 0);

    let n = index.nearest(&target).expect("nearest");
    assert_neighbor(&n, &[1, 2, 2], 3);

    assert!(index.nearest_within(&target, 2).is_none());
    let n = index.nearest_within(&target, 4).expect("nearest within 4");
    assert_neighbor(&n, &[1, 2, 2], 3);

    assert!(index.k_nearest(&target, 0).is_empty());
    let k3 = index.k_nearest(&target, 3);
    assert_eq!(k3.len(), 3);
    assert_neighbor(&k3[0], &[1, 2, 2], 3);
    assert_neighbor(&k3[1], &[3, 4, 0], 5);
    assert_neighbor(&k3[2], &[2, 3, 6], 7);

    let w6 = index.k_nearest_within(&target, 3, 6);
    assert_eq!(w6.len(), 2);
    assert_neighbor(&w6[0], &[1, 2, 2], 3);
    assert_neighbor(&w6[1], &[3, 4, 0], 5);

    let w8 = index.k_nearest_within(&target, 3, 8);
    assert_eq!(w8.len(), 3);
    assert_neighbor(&w8[0], &[1, 2, 2], 3);
    assert_neighbor(&w8[1], &[3, 4, 0], 5);
    assert_neighbor(&w8[2], &[2, 3, 6], 7);
}

fn clone_points(points: &[Point]) -> Vec<Point> {
    points
        .iter()
        .map(|p| Point {
            coords: p.coords.clone(),
            deleted: p.deleted,
            tag: p.tag,
        })
        .collect()
}

fn distances(neighbors: &[Neighbor]) -> Vec<i64> {
    neighbors.iter().map(|n| n.distance).collect()
}

fn assert_same_neighbors(a: &[Neighbor], b: &[Neighbor]) {
    assert_eq!(a.len(), b.len());
    for (x, y) in a.iter().zip(b.iter()) {
        assert_eq!(x.distance, y.distance);
        assert_eq!(x.item.coords, y.item.coords);
        assert_eq!(x.item.tag, y.item.tag);
        assert_eq!(x.item.deleted, y.item.deleted);
    }
}

fn test_random_points<T: NearestNeighbors, F: Fn(Vec<Point>) -> T>(from_iter: &F) {
    let mut rng = rand_pcg::Pcg64::seed_from_u64(20231);
    let mut points = Vec::new();
    for _ in 0..255 {
        points.push(pt(
            rng.gen_range(-1000..1000),
            rng.gen_range(-1000..1000),
            rng.gen_range(-1000..1000),
        ));
    }
    let target = pt(
        rng.gen_range(-1000..1000),
        rng.gen_range(-1000..1000),
        rng.gen_range(-1000..1000),
    );

    let eindex = ExhaustiveSearch::from_vec(clone_points(&points));
    let index = from_iter(points);

    assert_same_neighbors(
        &index.k_nearest(&target, 3),
        &eindex.k_nearest(&target, 3),
    );
}

fn test_nearest_neighbors<T: NearestNeighbors, F: Fn(Vec<Point>) -> T>(from_iter: F) {
    test_empty(&from_iter);
    test_pythagorean(&from_iter);
    test_random_points(&from_iter);
}

#[test]
fn test_exhaustive_index() {
    test_nearest_neighbors(ExhaustiveSearch::from_vec);
}

#[test]
fn test_exhaustive_forest() {
    test_nearest_neighbors(Forest::<ExhaustiveSearch>::from_vec);
}

#[test]
fn test_forest_forest() {
    test_nearest_neighbors(Forest::<Forest<ExhaustiveSearch>>::from_vec);
}

#[test]
fn test_kd_forest() {
    test_nearest_neighbors(Forest::<KdTree>::from_vec);
}

#[test]
fn test_vp_forest() {
    test_nearest_neighbors(Forest::<VpTree>::from_vec);
}

#[test]
fn test_kd_tree() {
    test_nearest_neighbors(KdTree::from_vec);
}

#[test]
fn test_vp_tree() {
    test_nearest_neighbors(VpTree::from_vec);
}

fn soft_points() -> Vec<Point> {
    let mut points = vec![del_pt(0, 0, 0)];
    points.extend(pythagorean_points());
    points
}

fn test_soft_index<T: NearestNeighbors>(index: &SoftSearch<Forest<T>>) {
    let target = pt(0, 0, 0);

    let n = index.nearest(&target).expect("nearest");
    assert_neighbor(&n, &[1, 2, 2], 3);

    assert!(index.nearest_within(&target, 2).is_none());
    let n = index.nearest_within(&target, 4).expect("nearest within 4");
    assert_neighbor(&n, &[1, 2, 2], 3);

    let k3 = index.k_nearest(&target, 3);
    assert_eq!(k3.len(), 3);
    assert_neighbor(&k3[0], &[1, 2, 2], 3);
    assert_neighbor(&k3[1], &[3, 4, 0], 5);
    assert_neighbor(&k3[2], &[2, 3, 6], 7);

    let w6 = index.k_nearest_within(&target, 3, 6);
    assert_eq!(w6.len(), 2);
    assert_neighbor(&w6[0], &[1, 2, 2], 3);
    assert_neighbor(&w6[1], &[3, 4, 0], 5);

    let w8 = index.k_nearest_within(&target, 3, 8);
    assert_eq!(w8.len(), 3);
    assert_neighbor(&w8[0], &[1, 2, 2], 3);
    assert_neighbor(&w8[1], &[3, 4, 0], 5);
    assert_neighbor(&w8[2], &[2, 3, 6], 7);
}

fn test_soft_forest<T: NearestNeighbors>(index: &mut SoftSearch<Forest<T>>) {
    for point in soft_points() {
        index.push(point);
    }
    test_soft_index(index);

    index.rebuild();
    test_soft_index(index);
}

#[test]
fn test_soft_kd_forest() {
    test_soft_forest(&mut SoftKdForest::new());
}

#[test]
fn test_soft_vp_forest() {
    test_soft_forest(&mut SoftVpForest::new());
}

#[test]
fn soft_test_soft_kd_forest() {
    test_soft_forest(&mut SoftKdForest::new());
}

#[test]
fn soft_test_soft_vp_forest() {
    test_soft_forest(&mut SoftVpForest::new());
}

fn test_soft_wrapped<T: NearestNeighbors, F: Fn(Vec<Point>) -> SoftSearch<T>>(from_iter: F) {
    let index = from_iter(Vec::new());
    let target = pt(0, 0, 0);
    assert!(index.nearest(&target).is_none());

    let index = from_iter(soft_points());
    let n = index.nearest(&target).expect("nearest");
    assert_neighbor(&n, &[1, 2, 2], 3);
    let k3 = index.k_nearest(&target, 3);
    assert_eq!(distances(&k3), vec![3, 5, 7]);
}

#[test]
fn forest_test_exhaustive_forest() {
    test_soft_wrapped(SoftSearch::<Forest<ExhaustiveSearch>>::from_vec);
}

#[test]
fn forest_test_forest_forest() {
    test_soft_wrapped(SoftSearch::<Forest<Forest<ExhaustiveSearch>>>::from_vec);
}

#[test]
fn forest_test_kd_forest() {
    test_soft_wrapped(SoftSearch::<Forest<KdTree>>::from_vec);
}

#[test]
fn forest_test_vp_forest() {
    test_soft_wrapped(SoftSearch::<Forest<VpTree>>::from_vec);
}

#[test]
fn test_forest_len_and_round_trip() {
    let mut forest = Forest::<ExhaustiveSearch>::from_vec(Vec::new());
    assert!(forest.is_empty());
    for i in 0..200 {
        forest.push(pt(i, -i, i * 2));
        assert_eq!(forest.len(), (i + 1) as usize);
    }
    let mut items = forest.into_vec();
    assert_eq!(items.len(), 200);
    items.sort_by_key(|p| p.coords[0]);
    for i in 0..200 {
        assert_eq!(items[i].coords, vec![i as i64, -(i as i64), i as i64 * 2]);
    }
}

#[test]
fn test_soft_drain_discards_deleted() {
    let index = SoftSearch::<Forest<KdTree>>::from_vec(soft_points());
    let items = index.into_vec();
    assert_eq!(items.len(), 6);
    assert!(items.iter().all(|p| !p.deleted));
    let mut got: Vec<Vec<i64>> = items.iter().map(|p| p.coords.clone()).collect();
    got.sort();
    let mut want: Vec<Vec<i64>> = pythagorean_points()
        .iter()
        .map(|p| p.coords.clone())
        .collect();
    want.sort();
    assert_eq!(got, want);
}

#[test]
fn test_rebuild_discards_deleted() {
    let mut forest: SoftKdForest = SoftSearch::new();
    for i in 0..100 {
        if i % 3 == 0 {
            forest.push(del_pt(i, i, i));
        } else {
            forest.push(pt(i, i, i));
        }
    }
    let target = pt(0, 0, 0);
    let before: Vec<i64> = distances(&forest.k_nearest(&target, 10));
    forest.rebuild();
    let after: Vec<i64> = distances(&forest.k_nearest(&target, 10));
    assert_eq!(before, after);
    assert!(!before.contains(&0));
}

#[test]
fn test_distance_algebra() {
    assert_eq!(isqrt(0), 0);
    assert_eq!(isqrt(1), 1);
    assert_eq!(isqrt(2), 1);
    assert_eq!(isqrt(9), 3);
    assert_eq!(isqrt(10), 3);
    assert_eq!(isqrt(4503599627370496), 67108864);

    let d = SquaredDistance::from_value(5);
    assert_eq!(d.value, 25);
    assert_eq!(d.to_value(), 5);
    let e = SquaredDistance::from_squared(26);
    assert!(d.le(e));
    assert!(!e.le(d));

    let r = RawDistance::from_value(7);
    assert_eq!(r.to_value(), 7);
    assert!(r.le(RawDistance::from_value(8)));
}

#[test]
fn test_hue_sorted_order() {
    let source = AllColors::new(2, 2, 2);
    assert_eq!(source.dimensions(), vec![4, 4, 4]);
    let colors = hue_sorted(&source);
    assert_eq!(colors.len(), 64);
}

#[test]
fn test_striped_membership() {
    let colors: Vec<Rgb8> = (0..16).map(|i| Rgb8::new(i as u8, 0, 0)).collect();
    let s = striped(colors.clone());
    let expected: Vec<u8> = vec![0, 2, 4, 6, 8, 10, 12, 14, 1, 5, 9, 13, 3, 11, 7, 15];
    let got: Vec<u8> = s.iter().map(|c| c.r).collect();
    assert_eq!(got, expected);
}

#[test]
fn test_shuffled_is_a_permutation() {
    let source = AllColors::new(2, 2, 2);
    let mut rng = rand_pcg::Pcg64::seed_from_u64(7);
    let plain = all_colors(&source);
    let mixed = kd_forest::color::order::shuffled(&source, &mut rng);
    assert_eq!(plain.len(), mixed.len());
    let mut a: Vec<(u8, u8, u8)> = plain.iter().map(|c| (c.r, c.g, c.b)).collect();
    let mut b: Vec<(u8, u8, u8)> = mixed.iter().map(|c| (c.r, c.g, c.b)).collect();
    a.sort();
    b.sort();
    assert_eq!(a, b);
    assert!(plain.iter().zip(mixed.iter()).any(|(x, y)| (x.r, x.g, x.b) != (y.r, y.g, y.b)));
}

#[test]
fn test_all_colors_counts() {
    let source = AllColors::new(1, 2, 1);
    let colors = all_colors(&source);
    assert_eq!(colors.len(), 2 * 4 * 2);
}

#[test]
fn test_morton_covers_space() {
    let source = AllColors::new(2, 2, 2);
    let m = kd_forest::color::order::morton(&source);
    assert_eq!(m.len(), 64);
    let mut seen: Vec<(u8, u8, u8)> = m.iter().map(|c| (c.r, c.g, c.b)).collect();
    seen.sort();
    seen.dedup();
    assert_eq!(seen.len(), 64);
    assert_eq!((m[0].r, m[0].g, m[0].b), (0, 0, 0));
}

#[test]
fn test_hilbert_covers_space() {
    let source = AllColors::new(2, 2, 2);
    let h = kd_forest::color::order::hilbert(&source);
    assert_eq!(h.len(), 64);
    let mut seen: Vec<(u8, u8, u8)> = h.iter().map(|c| (c.r, c.g, c.b)).collect();
    seen.sort();
    seen.dedup();
    assert_eq!(seen.len(), 64);
}

#[test]
fn test_log2_values() {
    assert_eq!(log2(1), 0);
    assert_eq!(log2(2), 1);
    assert_eq!(log2(3), 2);
    assert_eq!(log2(4), 2);
    assert_eq!(log2(5), 3);
    assert_eq!(log2(256), 8);
}

#[test]
fn test_hilbert_point_ranges() {
    let bits = vec![2u32, 2, 2];
    let mut seen = std::collections::HashSet::new();
    for index in 0..64u64 {
        let mut point = vec![0u64; 3];
        hilbert_point(index, &bits, &mut point);
        assert!(point.iter().all(|&c| c < 4));
        seen.insert(point.clone());
    }
    assert_eq!(seen.len(), 64);
}
