use scalarize::shape::{logical_to_physical, ShapeTracker};

fn tracker(
    dims: Vec<usize>,
    indexes: Vec<usize>,
    fake: Vec<bool>,
    slices: Vec<(usize, usize)>,
    padding: Vec<(usize, usize)>,
) -> ShapeTracker {
    ShapeTracker { dims, indexes, fake, slices, padding }
}

const OPEN: (usize, usize) = (0, 0x7fff_ffff);

#[test]
fn contiguous_tracker_resolves_to_the_same_index() {
    let t = ShapeTracker::new(vec![2, 3]);
    for i in 0..6 {
        assert_eq!(logical_to_physical(&t, i), Some(i));
    }
    assert_eq!(t.n_elements(), Some(6));
    assert_eq!(t.n_physical_elements(), Some(6));
    assert_eq!(t.shape_usize(), Some(vec![2, 3]));
}

#[test]
fn broadcast_dimension_takes_no_storage() {
    // two stored elements, each seen three times: shape (2, 3) over storage (2,)
    let t = tracker(vec![2, 3], vec![0, 1], vec![false, true], vec![OPEN, OPEN], vec![(0, 0), (0, 0)]);
    assert_eq!(t.n_elements(), Some(6));
    assert_eq!(t.n_physical_elements(), Some(2));
    let got: Vec<Option<usize>> = (0..6).map(|i| logical_to_physical(&t, i)).collect();
    assert_eq!(got, vec![Some(0), Some(0), Some(0), Some(1), Some(1), Some(1)]);
}

#[test]
fn permuted_tracker_reads_columns_first() {
    // storage (2, 3) read as (3, 2)
    let t = tracker(vec![2, 3], vec![1, 0], vec![false, false], vec![OPEN, OPEN], vec![(0, 0), (0, 0)]);
    assert_eq!(t.shape_usize(), Some(vec![3, 2]));
    let got: Vec<Option<usize>> = (0..6).map(|i| logical_to_physical(&t, i)).collect();
    assert_eq!(got, vec![Some(0), Some(3), Some(1), Some(4), Some(2), Some(5)]);
}

#[test]
fn padding_is_not_backed_by_storage() {
    // three stored elements with one element of padding on each side
    let t = tracker(vec![3], vec![0], vec![false], vec![OPEN], vec![(1, 1)]);
    assert_eq!(t.n_elements(), Some(5));
    assert_eq!(t.n_physical_elements(), Some(3));
    let got: Vec<Option<usize>> = (0..5).map(|i| logical_to_physical(&t, i)).collect();
    assert_eq!(got, vec![None, Some(0), Some(1), Some(2), None]);
}

#[test]
fn unsupported_trackers_resolve_to_nothing() {
    let zero = ShapeTracker::new(vec![0]);
    assert!(!zero.is_supported());
    assert_eq!(logical_to_physical(&zero, 0), None);
    assert_eq!(zero.n_elements(), None);
    let ragged = tracker(vec![2], vec![], vec![false], vec![OPEN], vec![(0, 0)]);
    assert!(!ragged.is_supported());
    let repeated = tracker(vec![2, 2], vec![0, 0], vec![false, false], vec![OPEN, OPEN], vec![(0, 0), (0, 0)]);
    assert!(!repeated.is_supported());
    let huge = ShapeTracker::new(vec![0x1_0000, 0x1_0000]);
    assert!(!huge.is_supported());
    let deep = ShapeTracker::new(vec![1, 1, 1, 1, 1, 1, 1]);
    assert!(!deep.is_supported());
}

#[test]
fn trivial_tracker_is_one_scalar() {
    let t = ShapeTracker::trivial();
    assert!(t.is_trivial());
    assert!(t.is_supported());
    assert_eq!(t.n_elements(), Some(1));
    assert_eq!(t.n_physical_elements(), Some(1));
    assert_eq!(logical_to_physical(&t, 0), Some(0));
    assert!(t.same(&ShapeTracker::new(vec![])));
    assert!(!t.same(&ShapeTracker::new(vec![1])));
}
