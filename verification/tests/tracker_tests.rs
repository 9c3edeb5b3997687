use scalarize::shape::{logical_to_physical, ShapeTracker};

const OPEN: usize = 0x7fff_ffff;

/// Every way to give each of `rank` places one of `choices`.
fn tuples<T: Clone>(rank: usize, choices: &[T]) -> Vec<Vec<T>> {
    let mut all = vec![Vec::new()];
    for _ in 0..rank {
        let mut next = Vec::new();
        for t in &all {
            for c in choices {
                let mut longer = t.clone();
                longer.push(c.clone());
                next.push(longer);
            }
        }
        all = next;
    }
    all
}

fn orders(rank: usize) -> Vec<Vec<usize>> {
    match rank {
        0 => vec![vec![]],
        1 => vec![vec![0]],
        2 => vec![vec![0, 1], vec![1, 0]],
        _ => vec![vec![0, 1, 2], vec![2, 1, 0], vec![1, 2, 0], vec![0, 2, 1]],
    }
}

/// The trackers of small rank over a few sizes, paddings and slices.
fn small_trackers() -> Vec<ShapeTracker> {
    let mut all = Vec::new();
    for rank in 0..=3usize {
        let pads: &[(usize, usize)] = if rank < 3 { &[(0, 0), (1, 0), (0, 2)] } else { &[(0, 0), (1, 1)] };
        let cuts: &[(usize, usize)] = if rank < 3 { &[(0, OPEN), (1, OPEN), (0, 2), (1, 3)] } else { &[(0, OPEN), (1, 2)] };
        for dims in tuples(rank, &[1usize, 2, 3]) {
            for indexes in orders(rank) {
                for fake in tuples(rank, &[false, true]) {
                    for padding in tuples(rank, pads) {
                        for slices in tuples(rank, cuts) {
                            all.push(ShapeTracker {
                                dims: dims.clone(),
                                indexes: indexes.clone(),
                                fake: fake.clone(),
                                slices: slices.clone(),
                                padding: padding.clone(),
                            });
                        }
                    }
                }
            }
        }
    }
    all
}

fn padded(t: &ShapeTracker, i: usize) -> usize {
    t.dims[i] + t.padding[i].0 + t.padding[i].1
}

#[test]
fn element_counts_are_the_products_of_the_extents() {
    let mut supported = 0;
    for t in small_trackers() {
        if !t.is_supported() {
            assert_eq!(t.n_elements(), None);
            assert_eq!(t.n_physical_elements(), None);
            assert_eq!(t.shape_usize(), None);
            continue;
        }
        supported += 1;
        let rank = t.dims.len();
        let stored: usize = (0..rank).filter(|i| !t.fake[*i]).map(|i| t.dims[i]).product();
        let seen: usize =
            (0..rank).map(|i| padded(&t, i).min(t.slices[i].1) - t.slices[i].0).product();
        let shown: Vec<usize> = t
            .indexes
            .iter()
            .map(|i| (padded(&t, *i) - t.slices[*i].0).min(t.slices[*i].1))
            .collect();
        assert_eq!(t.n_physical_elements(), Some(stored), "{:?}", t);
        assert_eq!(t.n_elements(), Some(seen), "{:?}", t);
        assert_eq!(t.shape_usize(), Some(shown), "{:?}", t);
    }
    assert!(supported > 1000);
}

#[test]
fn every_index_of_a_supported_tracker_can_be_resolved() {
    // every tracker of rank below two, and one in many of the others
    let some = small_trackers()
        .into_iter()
        .enumerate()
        .filter(|(k, t)| t.dims.len() < 2 || k % 41 == 0)
        .map(|(_, t)| t);
    for t in some {
        if !t.is_supported() {
            assert_eq!(logical_to_physical(&t, 0), None);
            continue;
        }
        let seen = t.n_elements().unwrap();
        for l in 0..seen + 2 {
            // resolving is the same every time
            assert_eq!(logical_to_physical(&t, l), logical_to_physical(&t.duplicate(), l));
        }
        assert_eq!(logical_to_physical(&t, OPEN + 1), None);
    }
}

#[test]
fn plain_trackers_keep_every_element_in_place() {
    for dims in [vec![], vec![1], vec![5], vec![2, 3], vec![3, 1, 2], vec![2, 2, 2, 2, 2, 2]] {
        let t = ShapeTracker::new(dims.clone());
        let n: usize = dims.iter().product();
        assert_eq!(t.n_elements(), Some(n));
        assert_eq!(t.n_physical_elements(), Some(n));
        assert_eq!(t.shape_usize(), Some(dims));
        for l in 0..n {
            assert_eq!(logical_to_physical(&t, l), Some(l));
        }
    }
}

#[test]
fn the_largest_supported_trackers_can_be_resolved() {
    let top = 0x0800_0000usize;
    let line = ShapeTracker::new(vec![top]);
    assert!(line.is_supported());
    assert_eq!(line.n_elements(), Some(top));
    assert_eq!(logical_to_physical(&line, top - 1), Some(top - 1));
    assert!(!ShapeTracker::new(vec![top + 1]).is_supported());
    assert!(!ShapeTracker::new(vec![top, 2]).is_supported());
    // 2^13 rows of 2^14 entries, read column by column
    let turned = ShapeTracker {
        dims: vec![1 << 13, 1 << 14],
        indexes: vec![1, 0],
        fake: vec![false, false],
        slices: vec![(0, OPEN), (0, OPEN)],
        padding: vec![(0, 0), (0, 0)],
    };
    assert!(turned.is_supported());
    assert_eq!(turned.n_elements(), Some(top));
    assert_eq!(turned.shape_usize(), Some(vec![1 << 14, 1 << 13]));
    assert_eq!(logical_to_physical(&turned, 0), Some(0));
    assert_eq!(logical_to_physical(&turned, 1), Some(1 << 14));
    assert_eq!(logical_to_physical(&turned, top - 1), Some(top - 1));
    assert!(logical_to_physical(&turned, OPEN).is_some());
    // the same with padding around the rows: the last element seen is padding
    let padded = ShapeTracker {
        dims: vec![(1 << 13) - 2, 1 << 14],
        indexes: vec![1, 0],
        fake: vec![false, false],
        slices: vec![(0, OPEN), (0, OPEN)],
        padding: vec![(1, 1), (0, 0)],
    };
    assert!(padded.is_supported());
    assert_eq!(padded.n_elements(), Some(top));
    assert_eq!(padded.n_physical_elements(), Some(((1 << 13) - 2) << 14));
    assert_eq!(logical_to_physical(&padded, 0), None);
    assert_eq!(logical_to_physical(&padded, 1), Some(0));
    assert_eq!(logical_to_physical(&padded, top - 1), None);
    assert_eq!(logical_to_physical(&padded, top - 2), Some((((1 << 13) - 2) << 14) - 1));
    assert_eq!(logical_to_physical(&padded, OPEN), logical_to_physical(&padded.duplicate(), OPEN));
    // six broadcast dimensions
    let wide = ShapeTracker {
        dims: vec![8, 16, 32, 64, 16, 4],
        indexes: vec![5, 4, 3, 2, 1, 0],
        fake: vec![true, false, true, false, true, false],
        slices: vec![(0, OPEN); 6],
        padding: vec![(0, 0); 6],
    };
    assert!(wide.is_supported());
    assert_eq!(wide.n_elements(), Some(8 * 16 * 32 * 64 * 16 * 4));
    assert_eq!(wide.n_physical_elements(), Some(16 * 64 * 4));
    let last = 8 * 16 * 32 * 64 * 16 * 4 - 1;
    assert_eq!(logical_to_physical(&wide, last), Some(16 * 64 * 4 - 1));
}
