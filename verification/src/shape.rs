//! Shape trackers: how a logical tensor index maps to a physical storage offset.
//!
//! A tracker holds the static description of one edge's tensor: its dimensions in
//! storage order, the order in which they are read, which of them are broadcast
//! (`fake`), and the slice and padding applied to each. Resolving a logical index
//! against a tracker is done by `luminal`; the values it returns are named here by
//! [`tracker_index`] and [`tracker_validity`].

use luminal::shape::symbolic::Expression;
use vstd::pervasive::unreached;
use vstd::prelude::*;

verus! {

/// The largest number of dimensions a tracker can hold.
pub const MAX_RANK: usize = 6;

/// The largest padded volume for which index arithmetic is known to stay in range.
pub const MAX_VOLUME: usize = 0x0800_0000;

/// The largest value a slice bound or a logical index may take.
pub const MAX_INDEX: usize = 0x7fff_ffff;

/// The mathematical content of a [`ShapeTracker`].
pub struct TrackerView {
    pub dims: Seq<usize>,
    pub indexes: Seq<usize>,
    pub fake: Seq<bool>,
    pub slices: Seq<(usize, usize)>,
    pub padding: Seq<(usize, usize)>,
}

impl TrackerView {
    /// The number of dimensions.
    pub open spec fn rank(self) -> int {
        self.dims.len() as int
    }

    /// The rank-0 tracker: one scalar.
    pub open spec fn is_trivial(self) -> bool {
        &&& self.dims.len() == 0
        &&& self.indexes.len() == 0
        &&& self.fake.len() == 0
        &&& self.slices.len() == 0
        &&& self.padding.len() == 0
    }

    /// Dimension `i` (storage order) with its padding on both sides.
    pub open spec fn padded_extent(self, i: int) -> int {
        self.dims[i] + self.padding[i].0 + self.padding[i].1
    }

    /// What is left of dimension `i` (storage order) after padding and slicing.
    pub open spec fn logical_extent(self, i: int) -> int {
        let e = self.padded_extent(i);
        let hi = if e <= self.slices[i].1 { e } else { self.slices[i].1 as int };
        hi - self.slices[i].0
    }

    /// The length of dimension `i` (storage order) as a consumer sees it.
    pub open spec fn visible_extent(self, i: int) -> int {
        let e = self.padded_extent(i) - self.slices[i].0;
        if e <= self.slices[i].1 { e } else { self.slices[i].1 as int }
    }

    /// The product of the padded extents of the first `n` dimensions.
    pub open spec fn padded_volume(self, n: int) -> int
        decreases n,
    {
        if n <= 0 {
            1
        } else {
            self.padded_volume(n - 1) * self.padded_extent(n - 1)
        }
    }

    /// The product of the first `n` real (not broadcast) dimensions.
    pub open spec fn physical_volume(self, n: int) -> int
        decreases n,
    {
        if n <= 0 {
            1
        } else if self.fake[n - 1] {
            self.physical_volume(n - 1)
        } else {
            self.physical_volume(n - 1) * self.dims[n - 1]
        }
    }

    /// The product of the logical extents of the first `n` dimensions.
    pub open spec fn logical_volume(self, n: int) -> int
        decreases n,
    {
        if n <= 0 {
            1
        } else {
            self.logical_volume(n - 1) * self.logical_extent(n - 1)
        }
    }

    /// The number of stored elements.
    pub open spec fn physical_count(self) -> int {
        self.physical_volume(self.rank())
    }

    /// The number of elements a consumer sees, padding and slicing included.
    pub open spec fn logical_count(self) -> int {
        self.logical_volume(self.rank())
    }

    /// The dimensions a consumer sees, in reading order.
    pub open spec fn visible_dims(self) -> Seq<int> {
        Seq::new(self.dims.len(), |k: int| self.visible_extent(self.indexes[k] as int))
    }

    /// Dimension `i` is one that index arithmetic can handle.
    pub open spec fn dim_supported(self, i: int) -> bool {
        &&& 1 <= self.dims[i]
        &&& self.padded_extent(i) <= MAX_VOLUME
        &&& self.slices[i].1 <= MAX_INDEX
        &&& self.slices[i].0 < self.slices[i].1
        &&& self.slices[i].0 < self.padded_extent(i)
    }

    /// The reading order names every dimension once.
    pub open spec fn indexes_permute(self) -> bool {
        &&& forall|k: int| 0 <= k < self.indexes.len() ==> (#[trigger] self.indexes[k]) < self.dims.len()
        &&& forall|j: int, k: int|
            0 <= j < k < self.indexes.len() ==> self.indexes[j] != self.indexes[k]
    }

    /// The trackers that can be resolved: consistent in shape, and small enough that
    /// 32-bit index arithmetic cannot leave its range.
    pub open spec fn supported(self) -> bool {
        &&& self.dims.len() <= MAX_RANK
        &&& self.indexes.len() == self.dims.len()
        &&& self.fake.len() == self.dims.len()
        &&& self.slices.len() == self.dims.len()
        &&& self.padding.len() == self.dims.len()
        &&& self.indexes_permute()
        &&& forall|i: int| 0 <= i < self.dims.len() ==> #[trigger] self.dim_supported(i)
        &&& self.padded_volume(self.rank()) <= MAX_VOLUME
    }
}

/// The physical offset that `luminal` computes for a logical index: the value of the
/// tracker's index expression at that index.
pub uninterp spec fn tracker_index(t: TrackerView, logical: usize) -> usize;

/// The value that `luminal` computes for the tracker's validity expression at a
/// logical index.
pub uninterp spec fn tracker_validity(t: TrackerView, logical: usize) -> usize;

/// Whether a logical index is backed by storage: the validity expression is nonzero
/// there.
pub open spec fn tracker_valid(t: TrackerView, logical: usize) -> bool {
    tracker_validity(t, logical) != 0
}

/// The physical offset behind a logical index, where there is one.
pub open spec fn resolve(t: TrackerView, logical: usize) -> Option<usize> {
    if t.supported() && logical <= MAX_INDEX && tracker_valid(t, logical) {
        Some(tracker_index(t, logical))
    } else {
        None
    }
}

/// A static shape tracker.
#[derive(Debug)]
pub struct ShapeTracker {
    /// Dimension sizes, in storage order.
    pub dims: Vec<usize>,
    /// For each axis a consumer sees, the storage dimension it reads.
    pub indexes: Vec<usize>,
    /// Which storage dimensions are broadcast and take no storage.
    pub fake: Vec<bool>,
    /// The half-open range kept of each storage dimension.
    pub slices: Vec<(usize, usize)>,
    /// The padding before and after each storage dimension.
    pub padding: Vec<(usize, usize)>,
}

impl View for ShapeTracker {
    type V = TrackerView;

    open spec fn view(&self) -> TrackerView {
        TrackerView {
            dims: self.dims@,
            indexes: self.indexes@,
            fake: self.fake@,
            slices: self.slices@,
            padding: self.padding@,
        }
    }
}

/// The rank-0 tracker.
pub open spec fn trivial_view() -> TrackerView {
    TrackerView {
        dims: Seq::empty(),
        indexes: Seq::empty(),
        fake: Seq::empty(),
        slices: Seq::empty(),
        padding: Seq::empty(),
    }
}

/// The view of a contiguous tracker over `dims`.
pub open spec fn contiguous_view(dims: Seq<usize>) -> TrackerView {
    TrackerView {
        dims,
        indexes: Seq::new(dims.len(), |i: int| i as usize),
        fake: Seq::new(dims.len(), |i: int| false),
        slices: Seq::new(dims.len(), |i: int| (0usize, MAX_INDEX)),
        padding: Seq::new(dims.len(), |i: int| (0usize, 0usize)),
    }
}

/// Calls `ShapeTracker::index_expression` and `exec_single_var` of `luminal` on the
/// tracker that has these fields. The result is a function of the fields and the
/// index alone; nothing more is claimed of it.
#[verifier::external_body]
fn outside_index(t: &ShapeTracker, logical: usize) -> (r: usize)
    requires
        t@.supported(),
        logical <= MAX_INDEX,
    ensures
        r == tracker_index(t@, logical),
{
    let mut s = luminal::shape::ShapeTracker::new(&[]);
    s.dims = t.dims.iter().map(|d| Expression::from(*d)).collect();
    s.indexes = t.indexes.iter().copied().collect();
    s.fake = t.fake.iter().copied().collect();
    s.slices = t.slices.iter().map(|p| (p.0.into(), p.1.into())).collect();
    s.padding = t.padding.iter().map(|p| (p.0.into(), p.1.into())).collect();
    s.index_expression().exec_single_var(logical)
}

/// Calls `ShapeTracker::valid_expression` and `exec_single_var` of `luminal` on the
/// tracker that has these fields. The result is a function of the fields and the index
/// alone; nothing more is claimed of it.
#[verifier::external_body]
fn outside_valid(t: &ShapeTracker, logical: usize) -> (r: usize)
    requires
        t@.supported(),
        logical <= MAX_INDEX,
    ensures
        r == tracker_validity(t@, logical),
{
    let mut s = luminal::shape::ShapeTracker::new(&[]);
    s.dims = t.dims.iter().map(|d| Expression::from(*d)).collect();
    s.indexes = t.indexes.iter().copied().collect();
    s.fake = t.fake.iter().copied().collect();
    s.slices = t.slices.iter().map(|p| (p.0.into(), p.1.into())).collect();
    s.padding = t.padding.iter().map(|p| (p.0.into(), p.1.into())).collect();
    s.valid_expression().exec_single_var(logical)
}

/// Calls `ShapeTracker::n_physical_elements` of `luminal` on the tracker that has these
/// fields. For a supported tracker that is the product of the dimensions that are not
/// broadcast.
#[verifier::external_body]
fn outside_physical_count(t: &ShapeTracker) -> (r: Option<usize>)
    requires
        t@.supported(),
    ensures
        r is Some,
        r.unwrap() == t@.physical_count(),
{
    let mut s = luminal::shape::ShapeTracker::new(&[]);
    s.dims = t.dims.iter().map(|d| Expression::from(*d)).collect();
    s.indexes = t.indexes.iter().copied().collect();
    s.fake = t.fake.iter().copied().collect();
    s.slices = t.slices.iter().map(|p| (p.0.into(), p.1.into())).collect();
    s.padding = t.padding.iter().map(|p| (p.0.into(), p.1.into())).collect();
    s.n_physical_elements().to_usize()
}

/// Calls `ShapeTracker::n_elements` of `luminal` on the tracker that has these fields.
/// For a supported tracker that is the product, over every dimension, of what padding
/// and slicing leave of it (the reading order names each dimension once).
#[verifier::external_body]
fn outside_logical_count(t: &ShapeTracker) -> (r: Option<usize>)
    requires
        t@.supported(),
    ensures
        r is Some,
        r.unwrap() == t@.logical_count(),
{
    let mut s = luminal::shape::ShapeTracker::new(&[]);
    s.dims = t.dims.iter().map(|d| Expression::from(*d)).collect();
    s.indexes = t.indexes.iter().copied().collect();
    s.fake = t.fake.iter().copied().collect();
    s.slices = t.slices.iter().map(|p| (p.0.into(), p.1.into())).collect();
    s.padding = t.padding.iter().map(|p| (p.0.into(), p.1.into())).collect();
    s.n_elements().to_usize()
}

/// Calls `ShapeTracker::shape` of `luminal` on the tracker that has these fields, and
/// evaluates each entry. For a supported tracker entry `k` is the visible length of the
/// dimension read by axis `k`.
#[verifier::external_body]
fn outside_dims(t: &ShapeTracker) -> (r: Vec<Option<usize>>)
    requires
        t@.supported(),
    ensures
        r@.len() == t@.dims.len(),
        forall|k: int|
            0 <= k < r@.len() ==> (#[trigger] r@[k] matches Some(d) && d == t@.visible_extent(
                t@.indexes[k] as int,
            )),
{
    let mut s = luminal::shape::ShapeTracker::new(&[]);
    s.dims = t.dims.iter().map(|d| Expression::from(*d)).collect();
    s.indexes = t.indexes.iter().copied().collect();
    s.fake = t.fake.iter().copied().collect();
    s.slices = t.slices.iter().map(|p| (p.0.into(), p.1.into())).collect();
    s.padding = t.padding.iter().map(|p| (p.0.into(), p.1.into())).collect();
    s.shape().iter().map(|e| e.to_usize()).collect()
}

/// Every padded volume of a tracker with supported dimensions is positive and grows
/// with the number of dimensions taken.
pub proof fn lemma_padded_volume_grows(t: TrackerView, a: int, b: int)
    requires
        0 <= a <= b <= t.dims.len(),
        t.padding.len() == t.dims.len(),
        forall|i: int| 0 <= i < t.dims.len() ==> 1 <= #[trigger] t.padded_extent(i),
    ensures
        1 <= t.padded_volume(a) <= t.padded_volume(b),
    decreases b,
{
    if b == 0 {
    } else if a == b {
        lemma_padded_volume_grows(t, a - 1, b - 1);
        assert(1 <= t.padded_extent(b - 1));
        assert(t.padded_volume(b - 1) * t.padded_extent(b - 1) >= t.padded_volume(b - 1))
            by (nonlinear_arith)
            requires
                1 <= t.padded_extent(b - 1),
                1 <= t.padded_volume(b - 1),
        ;
    } else {
        lemma_padded_volume_grows(t, a, b - 1);
        assert(1 <= t.padded_extent(b - 1));
        assert(t.padded_volume(b - 1) * t.padded_extent(b - 1) >= t.padded_volume(b - 1))
            by (nonlinear_arith)
            requires
                1 <= t.padded_extent(b - 1),
                1 <= t.padded_volume(b - 1),
        ;
    }
}

/// Neither the stored nor the visible element count of a supported tracker exceeds its
/// padded volume, and both are positive.
pub proof fn lemma_counts_bounded(t: TrackerView, n: int)
    requires
        t.supported(),
        0 <= n <= t.dims.len(),
    ensures
        1 <= t.physical_volume(n) <= t.padded_volume(n),
        1 <= t.logical_volume(n) <= t.padded_volume(n),
        t.padded_volume(n) <= MAX_VOLUME,
    decreases n,
{
    assert forall|i: int| 0 <= i < t.dims.len() implies 1 <= #[trigger] t.padded_extent(i) by {
        assert(t.dim_supported(i));
    }
    lemma_padded_volume_grows(t, n, t.dims.len() as int);
    if n > 0 {
        lemma_counts_bounded(t, n - 1);
        assert(t.dim_supported(n - 1));
        let e = t.padded_extent(n - 1);
        let l = t.logical_extent(n - 1);
        let d = t.dims[n - 1] as int;
        let pv = t.padded_volume(n - 1);
        let hv = t.physical_volume(n - 1);
        let lv = t.logical_volume(n - 1);
        assert(1 <= l <= e);
        assert(1 <= d <= e);
        assert(1 <= lv * l <= pv * e) by (nonlinear_arith)
            requires
                1 <= l <= e,
                1 <= lv <= pv,
        ;
        assert(1 <= hv * d <= pv * e) by (nonlinear_arith)
            requires
                1 <= d <= e,
                1 <= hv <= pv,
        ;
        assert(hv <= pv * e) by (nonlinear_arith)
            requires
                1 <= e,
                1 <= hv <= pv,
        ;
    }
}

fn copy_sizes(v: &Vec<usize>) -> (r: Vec<usize>)
    ensures
        r@ == v@,
{
    let mut r: Vec<usize> = Vec::new();
    let mut i: usize = 0;
    while i < v.len()
        invariant
            i <= v.len(),
            r@ == v@.take(i as int),
        decreases v.len() - i,
    {
        r.push(v[i]);
        assert(v@.take(i + 1) == v@.take(i as int).push(v@[i as int]));
        i += 1;
    }
    assert(v@.take(v.len() as int) == v@);
    r
}

fn copy_flags(v: &Vec<bool>) -> (r: Vec<bool>)
    ensures
        r@ == v@,
{
    let mut r: Vec<bool> = Vec::new();
    let mut i: usize = 0;
    while i < v.len()
        invariant
            i <= v.len(),
            r@ == v@.take(i as int),
        decreases v.len() - i,
    {
        r.push(v[i]);
        assert(v@.take(i + 1) == v@.take(i as int).push(v@[i as int]));
        i += 1;
    }
    assert(v@.take(v.len() as int) == v@);
    r
}

fn copy_pairs(v: &Vec<(usize, usize)>) -> (r: Vec<(usize, usize)>)
    ensures
        r@ == v@,
{
    let mut r: Vec<(usize, usize)> = Vec::new();
    let mut i: usize = 0;
    while i < v.len()
        invariant
            i <= v.len(),
            r@ == v@.take(i as int),
        decreases v.len() - i,
    {
        r.push(v[i]);
        assert(v@.take(i + 1) == v@.take(i as int).push(v@[i as int]));
        i += 1;
    }
    assert(v@.take(v.len() as int) == v@);
    r
}

fn same_sizes(a: &Vec<usize>, b: &Vec<usize>) -> (r: bool)
    ensures
        r == (a@ == b@),
{
    if a.len() != b.len() {
        return false;
    }
    let mut i: usize = 0;
    while i < a.len()
        invariant
            i <= a.len(),
            a.len() == b.len(),
            forall|k: int| 0 <= k < i ==> a@[k] == b@[k],
        decreases a.len() - i,
    {
        if a[i] != b[i] {
            return false;
        }
        i += 1;
    }
    assert(a@ =~= b@);
    true
}

fn same_flags(a: &Vec<bool>, b: &Vec<bool>) -> (r: bool)
    ensures
        r == (a@ == b@),
{
    if a.len() != b.len() {
        return false;
    }
    let mut i: usize = 0;
    while i < a.len()
        invariant
            i <= a.len(),
            a.len() == b.len(),
            forall|k: int| 0 <= k < i ==> a@[k] == b@[k],
        decreases a.len() - i,
    {
        if a[i] != b[i] {
            return false;
        }
        i += 1;
    }
    assert(a@ =~= b@);
    true
}

fn same_pairs(a: &Vec<(usize, usize)>, b: &Vec<(usize, usize)>) -> (r: bool)
    ensures
        r == (a@ == b@),
{
    if a.len() != b.len() {
        return false;
    }
    let mut i: usize = 0;
    while i < a.len()
        invariant
            i <= a.len(),
            a.len() == b.len(),
            forall|k: int| 0 <= k < i ==> a@[k] == b@[k],
        decreases a.len() - i,
    {
        if a[i].0 != b[i].0 || a[i].1 != b[i].1 {
            return false;
        }
        i += 1;
    }
    assert(a@ =~= b@);
    true
}

impl ShapeTracker {
    /// The rank-0 tracker: one scalar.
    pub fn trivial() -> (r: ShapeTracker)
        ensures
            r@ == trivial_view(),
            r@.is_trivial(),
            r@.supported(),
    {
        let r = ShapeTracker {
            dims: Vec::new(),
            indexes: Vec::new(),
            fake: Vec::new(),
            slices: Vec::new(),
            padding: Vec::new(),
        };
        assert(r@.padded_volume(0) == 1);
        r
    }

    /// The contiguous tracker over `dims`: read in storage order, nothing broadcast,
    /// sliced or padded.
    pub fn new(dims: Vec<usize>) -> (r: ShapeTracker)
        ensures
            r@ == contiguous_view(dims@),
    {
        let n = dims.len();
        let mut indexes: Vec<usize> = Vec::new();
        let mut fake: Vec<bool> = Vec::new();
        let mut slices: Vec<(usize, usize)> = Vec::new();
        let mut padding: Vec<(usize, usize)> = Vec::new();
        let mut i: usize = 0;
        while i < n
            invariant
                i <= n,
                n == dims.len(),
                indexes@ == Seq::new(i as nat, |k: int| k as usize),
                fake@ == Seq::new(i as nat, |k: int| false),
                slices@ == Seq::new(i as nat, |k: int| (0usize, MAX_INDEX)),
                padding@ == Seq::new(i as nat, |k: int| (0usize, 0usize)),
            decreases n - i,
        {
            indexes.push(i);
            fake.push(false);
            slices.push((0, MAX_INDEX));
            padding.push((0, 0));
            i += 1;
            assert(indexes@ =~= Seq::new(i as nat, |k: int| k as usize));
            assert(fake@ =~= Seq::new(i as nat, |k: int| false));
            assert(slices@ =~= Seq::new(i as nat, |k: int| (0usize, MAX_INDEX)));
            assert(padding@ =~= Seq::new(i as nat, |k: int| (0usize, 0usize)));
        }
        ShapeTracker { dims, indexes, fake, slices, padding }
    }

    /// An independent tracker with the same content.
    pub fn duplicate(&self) -> (r: ShapeTracker)
        ensures
            r@ == self@,
    {
        ShapeTracker {
            dims: copy_sizes(&self.dims),
            indexes: copy_sizes(&self.indexes),
            fake: copy_flags(&self.fake),
            slices: copy_pairs(&self.slices),
            padding: copy_pairs(&self.padding),
        }
    }

    /// Whether two trackers have the same content.
    pub fn same(&self, other: &ShapeTracker) -> (r: bool)
        ensures
            r == (self@ == other@),
    {
        same_sizes(&self.dims, &other.dims) && same_sizes(&self.indexes, &other.indexes)
            && same_flags(&self.fake, &other.fake) && same_pairs(&self.slices, &other.slices)
            && same_pairs(&self.padding, &other.padding)
    }

    /// Whether this is the rank-0 tracker.
    pub fn is_trivial(&self) -> (r: bool)
        ensures
            r == self@.is_trivial(),
    {
        self.dims.len() == 0 && self.indexes.len() == 0 && self.fake.len() == 0
            && self.slices.len() == 0 && self.padding.len() == 0
    }

    fn indexes_permute(&self) -> (r: bool)
        requires
            self.indexes.len() == self.dims.len(),
        ensures
            r == self@.indexes_permute(),
    {
        let n = self.indexes.len();
        let mut k: usize = 0;
        while k < n
            invariant
                k <= n,
                n == self.indexes.len(),
                n == self.dims.len(),
                forall|a: int| 0 <= a < k ==> (#[trigger] self.indexes@[a]) < n,
                forall|a: int, b: int| 0 <= a < b < k ==> self.indexes@[a] != self.indexes@[b],
            decreases n - k,
        {
            if self.indexes[k] >= n {
                assert(!(self@.indexes[k as int] < self@.dims.len()));
                return false;
            }
            let mut j: usize = 0;
            while j < k
                invariant
                    j <= k,
                    k < n,
                    n == self.indexes.len(),
                    forall|a: int| 0 <= a < j ==> self.indexes@[a] != self.indexes@[k as int],
                decreases k - j,
            {
                if self.indexes[j] == self.indexes[k] {
                    assert(self@.indexes[j as int] == self@.indexes[k as int]);
                    return false;
                }
                j += 1;
            }
            k += 1;
        }
        true
    }

    fn dims_supported(&self) -> (r: bool)
        requires
            self.slices.len() == self.dims.len(),
            self.padding.len() == self.dims.len(),
        ensures
            r == (forall|i: int| 0 <= i < self.dims.len() ==> #[trigger] self@.dim_supported(i)),
    {
        let n = self.dims.len();
        let mut i: usize = 0;
        while i < n
            invariant
                i <= n,
                n == self.dims.len(),
                self.slices.len() == n,
                self.padding.len() == n,
                forall|a: int| 0 <= a < i ==> #[trigger] self@.dim_supported(a),
            decreases n - i,
        {
            let d = self.dims[i];
            let p = self.padding[i];
            let s = self.slices[i];
            if d < 1 || d > MAX_VOLUME || p.0 > MAX_VOLUME || p.1 > MAX_VOLUME {
                assert(!self@.dim_supported(i as int));
                return false;
            }
            let e = d + p.0 + p.1;
            if e > MAX_VOLUME || s.1 > MAX_INDEX || s.0 >= s.1 || s.0 >= e {
                assert(!self@.dim_supported(i as int));
                return false;
            }
            assert(self@.dim_supported(i as int));
            i += 1;
        }
        true
    }

    /// Whether the tracker is one that can be resolved.
    pub fn is_supported(&self) -> (r: bool)
        ensures
            r == self@.supported(),
    {
        let n = self.dims.len();
        if n > MAX_RANK || self.indexes.len() != n || self.fake.len() != n || self.slices.len()
            != n || self.padding.len() != n {
            return false;
        }
        if !self.indexes_permute() {
            return false;
        }
        if !self.dims_supported() {
            return false;
        }
        proof {
            assert forall|i: int| 0 <= i < self@.dims.len() implies 1
                <= #[trigger] self@.padded_extent(i) by {
                assert(self@.dim_supported(i));
            }
        }
        let mut vol: usize = 1;
        let mut i: usize = 0;
        while i < n
            invariant
                i <= n,
                n == self.dims.len(),
                self.padding.len() == n,
                self.slices.len() == n,
                forall|a: int| 0 <= a < n ==> #[trigger] self@.dim_supported(a),
                forall|a: int| 0 <= a < n ==> 1 <= #[trigger] self@.padded_extent(a),
                vol == self@.padded_volume(i as int),
                1 <= vol <= MAX_VOLUME,
            decreases n - i,
        {
            assert(self@.dim_supported(i as int));
            let e = self.dims[i] + self.padding[i].0 + self.padding[i].1;
            if vol > MAX_VOLUME / e {
                proof {
                    assert(vol * e > MAX_VOLUME) by (nonlinear_arith)
                        requires
                            vol > MAX_VOLUME / e,
                            e >= 1,
                    ;
                    lemma_padded_volume_grows(self@, i + 1, n as int);
                }
                return false;
            }
            assert(vol * e <= MAX_VOLUME && vol * e >= 1) by (nonlinear_arith)
                requires
                    vol <= MAX_VOLUME / e,
                    e >= 1,
                    vol >= 1,
            ;
            vol = vol * e;
            i += 1;
        }
        true
    }

    /// The number of stored elements, for a tracker that can be resolved.
    pub fn n_physical_elements(&self) -> (r: Option<usize>)
        ensures
            r is Some <==> self@.supported(),
            r is Some ==> r.unwrap() == self@.physical_count() && 1 <= r.unwrap() <= MAX_VOLUME,
    {
        if !self.is_supported() {
            return None;
        }
        proof {
            lemma_counts_bounded(self@, self@.rank());
        }
        outside_physical_count(self)
    }

    /// The number of elements a consumer sees, for a tracker that can be resolved.
    pub fn n_elements(&self) -> (r: Option<usize>)
        ensures
            r is Some <==> self@.supported(),
            r is Some ==> r.unwrap() == self@.logical_count() && 1 <= r.unwrap() <= MAX_VOLUME,
    {
        if !self.is_supported() {
            return None;
        }
        proof {
            lemma_counts_bounded(self@, self@.rank());
        }
        outside_logical_count(self)
    }

    /// The dimensions a consumer sees, in reading order, for a tracker that can be
    /// resolved.
    pub fn shape_usize(&self) -> (r: Option<Vec<usize>>)
        ensures
            r is Some <==> self@.supported(),
            r is Some ==> r.unwrap()@.map_values(|d: usize| d as int) == self@.visible_dims(),
    {
        if !self.is_supported() {
            return None;
        }
        let raw = outside_dims(self);
        let mut v: Vec<usize> = Vec::new();
        let mut k: usize = 0;
        while k < raw.len()
            invariant
                k <= raw.len(),
                raw@.len() == self@.dims.len(),
                self@.indexes.len() == self@.dims.len(),
                v@.len() == k,
                forall|a: int|
                    0 <= a < raw@.len() ==> (#[trigger] raw@[a] matches Some(d) && d
                        == self@.visible_extent(self@.indexes[a] as int)),
                forall|a: int|
                    0 <= a < k ==> #[trigger] v@[a] == self@.visible_extent(
                        self@.indexes[a] as int,
                    ),
            decreases raw.len() - k,
        {
            match raw[k] {
                Some(d) => {
                    v.push(d);
                },
                None => unreached(),
            }
            k += 1;
        }
        assert(v@.map_values(|d: usize| d as int) =~= self@.visible_dims());
        Some(v)
    }
}

/// Resolves a logical index against a tracker: `None` where the index is not backed by
/// storage (or the tracker cannot be resolved at all), else the physical offset.
pub fn logical_to_physical(t: &ShapeTracker, index: usize) -> (r: Option<usize>)
    ensures
        r == resolve(t@, index),
{
    if !t.is_supported() || index > MAX_INDEX {
        return None;
    }
    if outside_valid(t, index) != 0 {
        Some(outside_index(t, index))
    } else {
        None
    }
}

} // verus!
