//! A static packed Hilbert R-tree over rectangles: built once from a list of
//! boxes, then queried for the boxes that meet a rectangle.
use vstd::prelude::*;

use crate::coord::AllowedNumber;
use crate::hilbert::{hilbert, hilbert_index};
use crate::util::{lemma_onto, lemma_swap_multiset, lists_exactly, IndexVec};
use vstd::arithmetic::div_mod::{
    lemma_div_is_ordered, lemma_div_plus_one, lemma_fundamental_div_mod,
    lemma_fundamental_div_mod_converse,
};

verus! {

/// The fan-out used when none is given.
pub const DEFAULT_NODE_SIZE: usize = 16;

/// The least fan-out.
pub const MIN_NODE_SIZE: usize = 2;

/// The greatest fan-out.
pub const MAX_NODE_SIZE: usize = 65535;

/// A box `(min_x, min_y, max_x, max_y)`.
pub type Rect<T> = (T, T, T, T);

/// The box stored at slot `i` of a flat sequence of coordinates.
pub open spec fn slot<T: AllowedNumber>(b: Seq<T>, i: int) -> Rect<T> {
    (b[4 * i], b[4 * i + 1], b[4 * i + 2], b[4 * i + 3])
}

/// The boxes held four coordinates at a time in `b`.
pub open spec fn rects<T: AllowedNumber>(b: Seq<T>) -> Seq<Rect<T>> {
    Seq::new((b.len() / 4) as nat, |i: int| slot(b, i))
}

/// Coordinate `k` of a box: 0 and 1 are the minimum x and y, 2 and 3 the
/// maximum x and y.
pub open spec fn coord_of<T: AllowedNumber>(r: Rect<T>, k: int) -> int {
    if k == 0 {
        r.0.value()
    } else if k == 1 {
        r.1.value()
    } else if k == 2 {
        r.2.value()
    } else {
        r.3.value()
    }
}

/// The least coordinate `k` over `bs`; the type's greatest value when there
/// are none.
pub open spec fn least<T: AllowedNumber>(bs: Seq<Rect<T>>, k: int) -> int
    decreases bs.len(),
{
    if bs.len() == 0 {
        T::highest()
    } else {
        let rest = least(bs.drop_last(), k);
        let v = coord_of(bs.last(), k);
        if v < rest {
            v
        } else {
            rest
        }
    }
}

/// The greatest coordinate `k` over `bs`; the type's least value when there
/// are none.
pub open spec fn greatest<T: AllowedNumber>(bs: Seq<Rect<T>>, k: int) -> int
    decreases bs.len(),
{
    if bs.len() == 0 {
        T::lowest()
    } else {
        let rest = greatest(bs.drop_last(), k);
        let v = coord_of(bs.last(), k);
        if v > rest {
            v
        } else {
            rest
        }
    }
}

/// The least and greatest coordinates bound every box.
pub proof fn lemma_bounds_cover<T: AllowedNumber>(bs: Seq<Rect<T>>, i: int)
    requires
        0 <= i < bs.len(),
    ensures
        least(bs, 0) <= bs[i].0.value(),
        least(bs, 1) <= bs[i].1.value(),
        greatest(bs, 2) >= bs[i].2.value(),
        greatest(bs, 3) >= bs[i].3.value(),
    decreases bs.len(),
{
    if i < bs.len() - 1 {
        lemma_bounds_cover(bs.drop_last(), i);
        assert(bs.drop_last()[i] == bs[i]);
    }
}

/// With at least one box, the least coordinate `k` (0 or 1) is that of some
/// box.
pub proof fn lemma_least_attained<T: AllowedNumber>(bs: Seq<Rect<T>>, k: int)
    requires
        bs.len() > 0,
        0 <= k <= 1,
    ensures
        exists|i: int| 0 <= i < bs.len() && least(bs, k) == #[trigger] coord_of(bs[i], k),
    decreases bs.len(),
{
    bs.last().0.lemma_range();
    bs.last().1.lemma_range();
    let last = bs.len() - 1;
    if bs.len() == 1 {
        assert(least(bs.drop_last(), k) == T::highest());
        assert(least(bs, k) == coord_of(bs[last], k));
    } else {
        lemma_least_attained(bs.drop_last(), k);
        let i = choose|i: int| 0 <= i < bs.drop_last().len() && least(bs.drop_last(), k) == #[trigger] coord_of(bs.drop_last()[i], k);
        assert(bs.drop_last()[i] == bs[i]);
        if coord_of(bs[last], k) < least(bs.drop_last(), k) {
            assert(least(bs, k) == coord_of(bs[last], k));
        } else {
            assert(least(bs, k) == coord_of(bs[i], k));
        }
    }
}

/// With at least one box, the greatest coordinate `k` (2 or 3) is that of
/// some box.
pub proof fn lemma_greatest_attained<T: AllowedNumber>(bs: Seq<Rect<T>>, k: int)
    requires
        bs.len() > 0,
        2 <= k <= 3,
    ensures
        exists|i: int| 0 <= i < bs.len() && greatest(bs, k) == #[trigger] coord_of(bs[i], k),
    decreases bs.len(),
{
    bs.last().2.lemma_range();
    bs.last().3.lemma_range();
    let last = bs.len() - 1;
    if bs.len() == 1 {
        assert(greatest(bs.drop_last(), k) == T::lowest());
        assert(greatest(bs, k) == coord_of(bs[last], k));
    } else {
        lemma_greatest_attained(bs.drop_last(), k);
        let i = choose|i: int| 0 <= i < bs.drop_last().len() && greatest(bs.drop_last(), k) == #[trigger] coord_of(bs.drop_last()[i], k);
        assert(bs.drop_last()[i] == bs[i]);
        if coord_of(bs[last], k) > greatest(bs.drop_last(), k) {
            assert(greatest(bs, k) == coord_of(bs[last], k));
        } else {
            assert(greatest(bs, k) == coord_of(bs[i], k));
        }
    }
}

/// Box `b` meets the rectangle `[min_x, max_x] x [min_y, max_y]` (touching
/// counts).
pub open spec fn overlaps<T: AllowedNumber>(b: Rect<T>, min_x: T, min_y: T, max_x: T, max_y: T) -> bool {
    !(max_x.value() < b.0.value() || max_y.value() < b.1.value() || min_x.value() > b.2.value()
        || min_y.value() > b.3.value())
}

/// Collects boxes; `finish` turns them into a `FlatBush`.
pub struct FlatBushBuilder<T: AllowedNumber> {
    boxes: Vec<T>,
    node_size: usize,
    min_x: T,
    min_y: T,
    max_x: T,
    max_y: T,
}

impl<T: AllowedNumber> FlatBushBuilder<T> {
    /// The builder's own consistency: four coordinates per box, a fan-out in
    /// range, and bounds that are the least and greatest coordinates so far.
    pub closed spec fn wf(&self) -> bool {
        &&& self.boxes@.len() % 4 == 0
        &&& MIN_NODE_SIZE <= self.node_size <= MAX_NODE_SIZE
        &&& self.min_x.value() == least(self.items(), 0)
        &&& self.min_y.value() == least(self.items(), 1)
        &&& self.max_x.value() == greatest(self.items(), 2)
        &&& self.max_y.value() == greatest(self.items(), 3)
    }

    /// The boxes added so far, in order.
    pub closed spec fn items(&self) -> Seq<Rect<T>> {
        rects(self.boxes@)
    }

    /// The fan-out the index will have.
    pub closed spec fn spec_node_size(&self) -> usize {
        self.node_size
    }

    /// A builder with the default fan-out.
    pub fn new() -> (r: FlatBushBuilder<T>)
        ensures
            r.wf(),
            r.items() == Seq::<Rect<T>>::empty(),
            r.spec_node_size() == DEFAULT_NODE_SIZE,
    {
        FlatBushBuilder::new_with_node_size(DEFAULT_NODE_SIZE)
    }

    /// A builder with fan-out `node_size`, clamped to `[2, 65535]`.
    pub fn new_with_node_size(node_size: usize) -> (r: FlatBushBuilder<T>)
        ensures
            r.wf(),
            r.items() == Seq::<Rect<T>>::empty(),
            r.spec_node_size() == if node_size < MIN_NODE_SIZE {
                MIN_NODE_SIZE
            } else if node_size > MAX_NODE_SIZE {
                MAX_NODE_SIZE
            } else {
                node_size
            },
    {
        let node_size: usize = if node_size < MIN_NODE_SIZE {
            MIN_NODE_SIZE
        } else if node_size > MAX_NODE_SIZE {
            MAX_NODE_SIZE
        } else {
            node_size
        };
        let r = FlatBushBuilder {
            boxes: Vec::new(),
            node_size,
            min_x: T::max_value(),
            min_y: T::max_value(),
            max_x: T::min_value(),
            max_y: T::min_value(),
        };
        assert(r.items() =~= Seq::<Rect<T>>::empty());
        r
    }

    /// Appends a box and widens the bounds to cover it; returns its
    /// identifier, the number of boxes before it.
    pub fn add(&mut self, new_box: [T; 4]) -> (id: usize)
        requires
            old(self).wf(),
        ensures
            final(self).wf(),
            final(self).items() == old(self).items().push(
                (new_box@[0], new_box@[1], new_box@[2], new_box@[3]),
            ),
            final(self).spec_node_size() == old(self).spec_node_size(),
            id == old(self).items().len(),
    {
        let ghost old_items = self.items();
        self.boxes.push(new_box[0]);
        self.boxes.push(new_box[1]);
        self.boxes.push(new_box[2]);
        self.boxes.push(new_box[3]);
        let ghost b = (new_box@[0], new_box@[1], new_box@[2], new_box@[3]);
        assert(self.items() =~= old_items.push(b));
        assert(self.items().drop_last() =~= old_items);
        if new_box[0].to_i64() < self.min_x.to_i64() {
            self.min_x = new_box[0];
        }
        if new_box[1].to_i64() < self.min_y.to_i64() {
            self.min_y = new_box[1];
        }
        if new_box[2].to_i64() > self.max_x.to_i64() {
            self.max_x = new_box[2];
        }
        if new_box[3].to_i64() > self.max_y.to_i64() {
            self.max_y = new_box[3];
        }
        self.boxes.len() / 4 - 1
    }

    /// Appends the boxes in order.
    pub fn extend(&mut self, boxes: &[[T; 4]])
        requires
            old(self).wf(),
        ensures
            final(self).wf(),
            final(self).items() == old(self).items() + boxes@.map_values(
                |b: [T; 4]| (b@[0], b@[1], b@[2], b@[3]),
            ),
            final(self).spec_node_size() == old(self).spec_node_size(),
    {
        let mut i: usize = 0;
        while i < boxes.len()
            invariant
                self.wf(),
                i <= boxes@.len(),
                self.items() == old(self).items() + boxes@.subrange(0, i as int).map_values(
                    |b: [T; 4]| (b@[0], b@[1], b@[2], b@[3]),
                ),
                self.spec_node_size() == old(self).spec_node_size(),
            decreases boxes@.len() - i,
        {
            self.add(boxes[i]);
            i = i + 1;
            assert(boxes@.subrange(0, i as int).map_values(|b: [T; 4]| (b@[0], b@[1], b@[2], b@[3]))
                =~= boxes@.subrange(0, i - 1).map_values(
                |b: [T; 4]| (b@[0], b@[1], b@[2], b@[3]),
            ).push((boxes@[i - 1]@[0], boxes@[i - 1]@[1], boxes@[i - 1]@[2], boxes@[i - 1]@[3])));
        }
        assert(boxes@.subrange(0, i as int) =~= boxes@);
    }
}

/// Slot `x` of `boxes` holds the item whose identifier `idx[x]` holds, for
/// each of the first `n` slots, and those identifiers are distinct.
pub open spec fn mapped<T: AllowedNumber>(boxes: Seq<T>, idx: Seq<u32>, items: Seq<Rect<T>>, n: int) -> bool {
    &&& n <= items.len()
    &&& n <= idx.len()
    &&& 4 * n <= boxes.len()
    &&& forall|x: int| 0 <= x < n ==> #[trigger] idx[x] < n && slot(boxes, x) == items[idx[x] as int]
    &&& forall|x: int, y: int| 0 <= x < n && 0 <= y < n && x != y ==> #[trigger] idx[x] != #[trigger] idx[y]
}

/// `a / b` rounded up.
fn ceiling_division(a: usize, b: usize) -> (r: usize)
    requires
        b > 0,
        a + b <= usize::MAX,
    ensures
        r == (a + b - 1) / (b as int),
{
    (a + b - 1) / b
}

/// The smaller of two coordinates (the first on a tie).
fn min<T: AllowedNumber>(a: T, b: T) -> (r: T)
    ensures
        r == if a.value() <= b.value() { a } else { b },
{
    if a.to_i64() <= b.to_i64() {
        a
    } else {
        b
    }
}

/// The greater of two coordinates (the second on a tie).
fn max<T: AllowedNumber>(a: T, b: T) -> (r: T)
    ensures
        r == if b.value() >= a.value() { b } else { a },
{
    if b.to_i64() >= a.to_i64() {
        b
    } else {
        a
    }
}

/// The first entry of the sorted `arr` that is greater than `value`; the
/// last entry when none is.
fn upper_bound(value: usize, arr: &Vec<usize>) -> (r: usize)
    requires
        arr@.len() > 0,
        forall|a: int, b: int| 0 <= a < b < arr@.len() ==> arr@[a] <= arr@[b],
    ensures
        arr@.contains(r),
        (exists|k: int| 0 <= k < arr@.len() && arr@[k] > value) ==> {
            &&& r > value
            &&& forall|k: int| 0 <= k < arr@.len() && arr@[k] > value ==> r <= arr@[k]
        },
        !(exists|k: int| 0 <= k < arr@.len() && arr@[k] > value) ==> r == arr@.last(),
{
    let mut i: usize = 0;
    let mut j: usize = arr.len() - 1;
    while i < j
        invariant
            i <= j < arr@.len(),
            arr@[j as int] > value || j == arr@.len() - 1,
            forall|k: int| 0 <= k < i ==> arr@[k] <= value,
            forall|a: int, b: int| 0 <= a < b < arr@.len() ==> arr@[a] <= arr@[b],
        decreases j - i,
    {
        let m = i + (j - i) / 2;
        if arr[m] > value {
            j = m;
        } else {
            i = m + 1;
        }
    }
    proof {
        if arr@[i as int] <= value {
            assert forall|k: int| 0 <= k < arr@.len() implies !(arr@[k] > value) by {
                if k > i {
                    assert(arr@[i as int] <= arr@[k]);
                }
            }
        }
    }
    arr[i]
}

/// Exchanges entries `i` and `j` of the Hilbert values together with the
/// boxes and identifiers at those slots.
fn swap<T: AllowedNumber>(
    values: &mut Vec<u32>,
    boxes: &mut Vec<T>,
    indices: &mut IndexVec,
    i: usize,
    j: usize,
)
    requires
        i < old(values)@.len(),
        j < old(values)@.len(),
        i < old(indices)@.len(),
        j < old(indices)@.len(),
        4 * i + 3 < old(boxes)@.len(),
        4 * j + 3 < old(boxes)@.len(),
    ensures
        forall|k: int|
            0 <= k < old(boxes)@.len() && k / 4 != i && k / 4 != j ==> #[trigger] final(boxes)@[k] == old(boxes)@[k],
        final(values)@ == old(values)@.update(i as int, old(values)@[j as int]).update(
            j as int,
            old(values)@[i as int],
        ),
        final(indices)@ == old(indices)@.update(i as int, old(indices)@[j as int]).update(
            j as int,
            old(indices)@[i as int],
        ),
        final(indices).is_narrow() == old(indices).is_narrow(),
        final(boxes)@.len() == old(boxes)@.len(),
        forall|p: int|
            0 <= p < old(boxes)@.len() / 4 ==> #[trigger] slot(final(boxes)@, p) == slot(
                old(boxes)@,
                if p == i {
                    j as int
                } else if p == j {
                    i as int
                } else {
                    p
                },
            ),
{
    let temp = values[i];
    let vj = values[j];
    values.set(i, vj);
    values.set(j, temp);

    let blen = boxes.len();
    assert(4 * i + 3 < blen && 4 * j + 3 < blen);
    let k = 4 * i;
    let m = 4 * j;
    let a = boxes[k];
    let b = boxes[k + 1];
    let c = boxes[k + 2];
    let d = boxes[k + 3];
    let e = boxes[m];
    boxes.set(k, e);
    let e = boxes[m + 1];
    boxes.set(k + 1, e);
    let e = boxes[m + 2];
    boxes.set(k + 2, e);
    let e = boxes[m + 3];
    boxes.set(k + 3, e);
    boxes.set(m, a);
    boxes.set(m + 1, b);
    boxes.set(m + 2, c);
    boxes.set(m + 3, d);

    indices.swap(i, j);
    assert forall|p: int| 0 <= p < old(boxes)@.len() / 4 implies #[trigger] slot(boxes@, p) == slot(
        old(boxes)@,
        if p == i {
            j as int
        } else if p == j {
            i as int
        } else {
            p
        },
    ) by {}
}

/// The first `n` slots as (Hilbert value, box, identifier) triples.
pub open spec fn triples<T: AllowedNumber>(v: Seq<u32>, b: Seq<T>, idx: Seq<u32>, n: int) -> Seq<(u32, Rect<T>, u32)> {
    Seq::new(n as nat, |p: int| (v[p], slot(b, p), idx[p]))
}

/// Every value of `v` in `[lo, hi]` is at most `x`.
pub open spec fn all_at_most(v: Seq<u32>, lo: int, hi: int, x: u32) -> bool {
    forall|p: int| lo <= p <= hi ==> #[trigger] v[p] <= x
}

/// Every value of `v` in `[lo, hi]` is at least `x`.
pub open spec fn all_at_least(v: Seq<u32>, lo: int, hi: int, x: u32) -> bool {
    forall|p: int| lo <= p <= hi ==> #[trigger] v[p] >= x
}

/// Values of `v` in `[lo, hi]` that lie in different blocks of `ns` slots
/// are in order: only the order between blocks is fixed.
pub open spec fn blocks_sorted(v: Seq<u32>, lo: int, hi: int, ns: int) -> bool {
    forall|p: int, q: int|
        lo <= p <= hi && lo <= q <= hi && #[trigger] (p / ns) < #[trigger] (q / ns) ==> v[p] <= v[q]
}

/// Each of the first `n` values is the key of the box in its slot.
pub open spec fn keyed<T: AllowedNumber>(v: Seq<u32>, b: Seq<T>, n: int, key: spec_fn(Rect<T>) -> u32) -> bool {
    forall|x: int| 0 <= x < n ==> #[trigger] v[x] == key(slot(b, x))
}

/// The Hilbert value of the center of box `r` on the grid over `bounds`
/// (least x, least y, greatest x, greatest y).
pub open spec fn hilbert_key<T: AllowedNumber>(r: Rect<T>, bounds: (int, int, int, int)) -> u32 {
    hilbert_index(
        grid_cell(r.0.value(), r.2.value(), bounds.0, bounds.2 - bounds.0) as u32,
        grid_cell(r.1.value(), r.3.value(), bounds.1, bounds.3 - bounds.1) as u32,
    )
}

/// Sorts slots `[left, right]` by Hilbert value with a quicksort that stops
/// as soon as a range lies within one block of `node_size` slots: only the
/// order between blocks matters for packing. Boxes and identifiers move with
/// their values.
#[verifier::spinoff_prover]
fn sort<T: AllowedNumber>(
    values: &mut Vec<u32>,
    boxes: &mut Vec<T>,
    indices: &mut IndexVec,
    left: usize,
    right: usize,
    node_size: usize,
    Ghost(items): Ghost<Seq<Rect<T>>>,
    Ghost(key): Ghost<spec_fn(Rect<T>) -> u32>,
)
    requires
        left <= right < old(values)@.len(),
        old(values)@.len() <= old(indices)@.len(),
        4 * old(values)@.len() <= old(boxes)@.len(),
        node_size >= 1,
    ensures
        final(values)@.len() == old(values)@.len(),
        final(indices)@.len() == old(indices)@.len(),
        final(indices).is_narrow() == old(indices).is_narrow(),
        final(boxes)@.len() == old(boxes)@.len(),
        triples(final(values)@, final(boxes)@, final(indices)@, old(values)@.len() as int).to_multiset()
            == triples(old(values)@, old(boxes)@, old(indices)@, old(values)@.len() as int).to_multiset(),
        forall|k: int|
            0 <= k < old(boxes)@.len() && !(4 * left <= k < 4 * right + 4) ==> #[trigger] final(boxes)@[k]
                == old(boxes)@[k],
        forall|p: int|
            0 <= p < old(indices)@.len() && !(left <= p <= right) ==> #[trigger] final(indices)@[p]
                == old(indices)@[p],
        left / node_size >= right / node_size ==> final(values)@ == old(values)@ && final(boxes)@ == old(
            boxes,
        )@ && final(indices)@ == old(indices)@,
        mapped(old(boxes)@, old(indices)@, items, old(values)@.len() as int) ==> mapped(
            final(boxes)@,
            final(indices)@,
            items,
            old(values)@.len() as int,
        ),
        keyed(old(values)@, old(boxes)@, old(values)@.len() as int, key) ==> keyed(
            final(values)@,
            final(boxes)@,
            old(values)@.len() as int,
            key,
        ),
        forall|p: int|
            0 <= p < old(values)@.len() && !(left <= p <= right) ==> #[trigger] final(values)@[p] == old(values)@[p],
        forall|x: u32|
            #[trigger] all_at_most(old(values)@, left as int, right as int, x) ==> all_at_most(
                final(values)@,
                left as int,
                right as int,
                x,
            ),
        forall|x: u32|
            #[trigger] all_at_least(old(values)@, left as int, right as int, x) ==> all_at_least(
                final(values)@,
                left as int,
                right as int,
                x,
            ),
        blocks_sorted(final(values)@, left as int, right as int, node_size as int),
    decreases right - left,
{
    let ghost v0 = values@;
    let ghost b0 = boxes@;
    let ghost x0 = indices@;
    if left / node_size >= right / node_size {
        proof {
            assert forall|p: int, q: int|
                left <= p <= right && left <= q <= right && #[trigger] (p / (node_size as int)) < #[trigger] (q / (node_size as int)) implies values@[p] <= values@[q] by {
                lemma_div_is_ordered(left as int, p, node_size as int);
                lemma_div_is_ordered(q, right as int, node_size as int);
            }
        }
        return;
    }
    let ghost n = values@.len() as int;
    let mid = left + (right - left) / 2;
    let pivot = values[mid];
    let mut i: usize = left;
    let mut j: usize = right;
    while values[i] < pivot
        invariant
            left <= i <= mid,
            mid < values@.len(),
            values@[mid as int] == pivot,
            forall|p: int| left <= p < i ==> values@[p] <= pivot,
        decreases mid - i,
    {
        i = i + 1;
    }
    while values[j] > pivot
        invariant
            left <= mid <= j <= right,
            right < values@.len(),
            values@[mid as int] == pivot,
            forall|p: int| j < p <= right ==> values@[p] >= pivot,
        decreases j,
    {
        j = j - 1;
    }
    while i < j
        invariant
            left <= i <= right,
            left <= j <= right,
            left <= mid < right,
            right < values@.len(),
            values@.len() == n,
            values@.len() <= indices@.len(),
            4 * values@.len() <= boxes@.len(),
            values@[i as int] >= pivot,
            values@[j as int] <= pivot,
            forall|p: int| left <= p < i ==> values@[p] <= pivot,
            forall|p: int| j < p <= right ==> values@[p] >= pivot,
            j < right || i <= mid,
            indices@.len() == old(indices)@.len(),
            boxes@.len() == old(boxes)@.len(),
            indices.is_narrow() == old(indices).is_narrow(),
            mapped(b0, x0, items, n) ==> mapped(boxes@, indices@, items, n),
            keyed(v0, b0, n, key) ==> keyed(values@, boxes@, n, key),
            triples(values@, boxes@, indices@, n).to_multiset() == triples(v0, b0, x0, n).to_multiset(),
            forall|k: int| 0 <= k < b0.len() && !(4 * left <= k < 4 * right + 4) ==> #[trigger] boxes@[k] == b0[k],
            forall|p: int| 0 <= p < x0.len() && !(left <= p <= right) ==> #[trigger] indices@[p] == x0[p],
            b0.len() == boxes@.len(),
            x0.len() == indices@.len(),
            v0.len() == n,
            forall|p: int| 0 <= p < n && !(left <= p <= right) ==> #[trigger] values@[p] == v0[p],
            forall|x: u32| #[trigger] all_at_most(v0, left as int, right as int, x) ==> all_at_most(values@, left as int, right as int, x),
            forall|x: u32| #[trigger] all_at_least(v0, left as int, right as int, x) ==> all_at_least(values@, left as int, right as int, x),
        decreases j + right + 1 - i - left,
    {
        let ghost b1 = boxes@;
        let ghost x1 = indices@;
        let ghost w1 = values@;
        swap(values, boxes, indices, i, j);
        proof {
            if mapped(b1, x1, items, n) {
                lemma_swap_mapped(boxes@, indices@, b1, x1, items, n, i as int, j as int);
            }
            lemma_swap_values(values@, w1, boxes@, b1, v0, n, left as int, right as int, i as int, j as int, key);
            let t1 = triples(w1, b1, x1, n);
            assert(triples(values@, boxes@, indices@, n) =~= t1.update(i as int, t1[j as int]).update(j as int, t1[i as int]));
            lemma_swap_multiset(t1, i as int, j as int);
            assert forall|k: int| 0 <= k < b0.len() && !(4 * left <= k < 4 * right + 4) implies #[trigger] boxes@[k] == b0[k] by {
                assert(boxes@[k] == b1[k]);
            }
        }
        let ghost i0 = i;
        let ghost j0 = j;
        i = i + 1;
        while values[i] < pivot
            invariant
                i0 < i <= j0,
                left <= i0,
                j0 <= right,
                right < values@.len(),
                values@[j0 as int] >= pivot,
                forall|p: int| left <= p < i ==> values@[p] <= pivot,
            decreases j0 - i,
        {
            i = i + 1;
        }
        j = j - 1;
        while values[j] > pivot
            invariant
                i0 <= j < j0,
                left <= i0,
                j0 <= right,
                right < values@.len(),
                values@[i0 as int] <= pivot,
                forall|p: int| j < p <= right ==> values@[p] >= pivot,
            decreases j,
        {
            j = j - 1;
        }
    }
    let ghost v1 = values@;
    proof {
        assert(all_at_most(v1, left as int, j as int, pivot));
        assert(all_at_least(v1, j + 1, right as int, pivot));
    }
    sort(values, boxes, indices, left, j, node_size, Ghost(items), Ghost(key));
    let ghost v2 = values@;
    proof {
        assert(all_at_most(v2, left as int, j as int, pivot));
        assert forall|x: u32| #[trigger] all_at_most(v1, left as int, right as int, x) implies all_at_most(v2, left as int, right as int, x) by {
            assert(all_at_most(v1, left as int, j as int, x));
            assert(all_at_most(v2, left as int, j as int, x));
        }
        assert forall|x: u32| #[trigger] all_at_least(v1, left as int, right as int, x) implies all_at_least(v2, left as int, right as int, x) by {
            assert(all_at_least(v1, left as int, j as int, x));
            assert(all_at_least(v2, left as int, j as int, x));
        }
    }
    sort(values, boxes, indices, j + 1, right, node_size, Ghost(items), Ghost(key));
    let ghost v3 = values@;
    proof {
        assert(all_at_least(v3, j + 1, right as int, pivot)) by {
            assert(all_at_least(v2, j + 1, right as int, pivot));
        }
        assert forall|x: u32| #[trigger] all_at_most(v2, left as int, right as int, x) implies all_at_most(v3, left as int, right as int, x) by {
            assert(all_at_most(v2, j + 1, right as int, x));
            assert(all_at_most(v3, j + 1, right as int, x));
        }
        assert forall|x: u32| #[trigger] all_at_least(v2, left as int, right as int, x) implies all_at_least(v3, left as int, right as int, x) by {
            assert(all_at_least(v2, j + 1, right as int, x));
            assert(all_at_least(v3, j + 1, right as int, x));
        }
        assert forall|p: int, q: int|
            left <= p <= right && left <= q <= right && #[trigger] (p / (node_size as int)) < #[trigger] (q / (node_size as int)) implies v3[p] <= v3[q] by {
            if q < p {
                lemma_div_is_ordered(q, p, node_size as int);
            }
            if p <= j && q <= j {
                assert(v3[p] == v2[p]);
                assert(v3[q] == v2[q]);
            } else if p > j && q > j {
            } else {
                assert(v3[p] == v2[p]);
                assert(v3[p] <= pivot);
                assert(v3[q] >= pivot);
            }
        }
    }
}

/// An exchange of two slots in `[lo, hi]` keeps values and boxes in step,
/// the values outside in place, and any bound on the values inside.
proof fn lemma_swap_values<T: AllowedNumber>(
    w2: Seq<u32>,
    w1: Seq<u32>,
    b2: Seq<T>,
    b1: Seq<T>,
    v0: Seq<u32>,
    n: int,
    lo: int,
    hi: int,
    i: int,
    j: int,
    key: spec_fn(Rect<T>) -> u32,
)
    requires
        0 <= lo <= i <= hi,
        lo <= j <= hi,
        hi < n,
        w1.len() == n,
        v0.len() == n,
        4 * n <= b1.len(),
        w2 == w1.update(i, w1[j]).update(j, w1[i]),
        b2.len() == b1.len(),
        forall|p: int|
            0 <= p < b1.len() / 4 ==> #[trigger] slot(b2, p) == slot(
                b1,
                if p == i {
                    j
                } else if p == j {
                    i
                } else {
                    p
                },
            ),
        forall|p: int| 0 <= p < n && !(lo <= p <= hi) ==> #[trigger] w1[p] == v0[p],
        forall|x: u32| #[trigger] all_at_most(v0, lo, hi, x) ==> all_at_most(w1, lo, hi, x),
        forall|x: u32| #[trigger] all_at_least(v0, lo, hi, x) ==> all_at_least(w1, lo, hi, x),
    ensures
        keyed(w1, b1, n, key) ==> keyed(w2, b2, n, key),
        forall|p: int| 0 <= p < n && !(lo <= p <= hi) ==> #[trigger] w2[p] == v0[p],
        forall|x: u32| #[trigger] all_at_most(v0, lo, hi, x) ==> all_at_most(w2, lo, hi, x),
        forall|x: u32| #[trigger] all_at_least(v0, lo, hi, x) ==> all_at_least(w2, lo, hi, x),
{
    assert forall|x: int| 0 <= x < n && keyed(w1, b1, n, key) implies #[trigger] w2[x] == key(slot(b2, x)) by {
        let sx = if x == i {
            j
        } else if x == j {
            i
        } else {
            x
        };
        assert(slot(b2, x) == slot(b1, sx));
        assert(w2[x] == w1[sx]);
    }
    assert forall|x: u32| #[trigger] all_at_most(v0, lo, hi, x) implies all_at_most(w2, lo, hi, x) by {
        assert(all_at_most(w1, lo, hi, x));
        assert forall|p: int| lo <= p <= hi implies #[trigger] w2[p] <= x by {
            let sp = if p == i {
                j
            } else if p == j {
                i
            } else {
                p
            };
            assert(w2[p] == w1[sp]);
        }
    }
    assert forall|x: u32| #[trigger] all_at_least(v0, lo, hi, x) implies all_at_least(w2, lo, hi, x) by {
        assert(all_at_least(w1, lo, hi, x));
        assert forall|p: int| lo <= p <= hi implies #[trigger] w2[p] >= x by {
            let sp = if p == i {
                j
            } else if p == j {
                i
            } else {
                p
            };
            assert(w2[p] == w1[sp]);
        }
    }
}

/// An exchange of two of the first `n` slots, with their identifiers, keeps
/// slots and identifiers in step.
proof fn lemma_swap_mapped<T: AllowedNumber>(
    b2: Seq<T>,
    x2: Seq<u32>,
    b1: Seq<T>,
    x1: Seq<u32>,
    items: Seq<Rect<T>>,
    n: int,
    i: int,
    j: int,
)
    requires
        0 <= i < n,
        0 <= j < n,
        mapped(b1, x1, items, n),
        b2.len() == b1.len(),
        x2 == x1.update(i, x1[j]).update(j, x1[i]),
        forall|p: int|
            0 <= p < b1.len() / 4 ==> #[trigger] slot(b2, p) == slot(
                b1,
                if p == i {
                    j
                } else if p == j {
                    i
                } else {
                    p
                },
            ),
    ensures
        mapped(b2, x2, items, n),
{
    assert forall|x: int| 0 <= x < n implies #[trigger] x2[x] < n && slot(b2, x) == items[x2[x] as int] by {
        let s = if x == i {
            j
        } else if x == j {
            i
        } else {
            x
        };
        assert(slot(b2, x) == slot(b1, s));
        assert(x2[x] == x1[s]);
    }
    assert forall|x: int, y: int| 0 <= x < n && 0 <= y < n && x != y implies #[trigger] x2[x]
        != #[trigger] x2[y] by {
        let sx = if x == i {
            j
        } else if x == j {
            i
        } else {
            x
        };
        let sy = if y == i {
            j
        } else if y == j {
            i
        } else {
            y
        };
        assert(x2[x] == x1[sx]);
        assert(x2[y] == x1[sy]);
    }
}

/// Facts about `c = ceil(n / ns)`, the number of nodes over `n` nodes.
proof fn lemma_next_count(n: int, ns: int)
    requires
        n >= 0,
        ns >= 2,
    ensures
        ({
            let c = (n + ns - 1) / ns;
            &&& c >= 0
            &&& n >= 1 ==> c >= 1 && ns * (c - 1) < n <= ns * c
            &&& 2 * c <= n + 1
            &&& n >= 2 ==> c < n
            &&& n == 1 ==> c == 1
            &&& n == 0 ==> c == 0
        }),
{
    let x = n + ns - 1;
    let c = x / ns;
    lemma_fundamental_div_mod(x, ns);
    let r = x % ns;
    assert(0 <= r < ns);
    assert(x == ns * c + r);
    assert(c >= 0) by (nonlinear_arith)
        requires
            x == ns * c + r,
            0 <= r < ns,
            x >= ns - 1,
            ns >= 2,
    ;
    assert(ns * (c - 1) < n <= ns * c || n == 0) by (nonlinear_arith)
        requires
            x == ns * c + r,
            0 <= r < ns,
            x == n + ns - 1,
    ;
    if n >= 1 {
        assert(c >= 1) by (nonlinear_arith)
            requires
                n <= ns * c,
                n >= 1,
                ns >= 2,
        ;
        assert(2 * (c - 1) <= ns * (c - 1)) by (nonlinear_arith)
            requires
                c >= 1,
                ns >= 2,
        ;
    } else {
        assert(c == 0) by (nonlinear_arith)
            requires
                x == ns * c + r,
                0 <= r < ns,
                x == ns - 1,
                c >= 0,
        ;
    }
}

/// `g` groups of `ns` cover `cnt >= 1` slots with the last group nonempty
/// exactly when `g == ceil(cnt / ns)`.
proof fn lemma_group_count(cnt: int, ns: int, g: int)
    requires
        cnt >= 1,
        ns >= 2,
        ns * (g - 1) < cnt <= ns * g,
    ensures
        g == (cnt + ns - 1) / ns,
{
    lemma_next_count(cnt, ns);
    let c = (cnt + ns - 1) / ns;
    assert(g == c) by (nonlinear_arith)
        requires
            ns * (g - 1) < cnt <= ns * g,
            ns * (c - 1) < cnt <= ns * c,
            ns >= 2,
    ;
}

/// The offset where level `l` begins: 0 for the items, else the end of the
/// level below.
pub open spec fn lstart(lb: Seq<usize>, l: int) -> int {
    if l == 0 {
        0
    } else {
        lb[l - 1] as int
    }
}

/// The number of nodes of level `l`.
pub open spec fn lcount(lb: Seq<usize>, l: int) -> int {
    (lb[l] - lstart(lb, l)) / 4
}

/// Level `l` has `ceil(count below / ns)` nodes, and at least one.
pub open spec fn level_step(lb: Seq<usize>, l: int, ns: int) -> bool {
    lcount(lb, l) == if lcount(lb, l - 1) == 0 {
        1
    } else {
        (lcount(lb, l - 1) + ns - 1) / ns
    }
}

/// The level ends `lb` describe a tree over `n` items with fan-out `ns`:
/// they start at `4n`, rise strictly in steps of four coordinates per node,
/// each level has `ceil(count below / ns)` nodes (at least one), and the top
/// level holds the root alone.
#[verifier::opaque]
pub open spec fn levels_ok(lb: Seq<usize>, n: int, ns: int) -> bool {
    &&& lb.len() >= 2
    &&& lb[0] == 4 * n
    &&& forall|l: int| 0 <= l < lb.len() ==> #[trigger] lb[l] % 4 == 0
    &&& forall|a: int, b: int| 0 <= a < b < lb.len() ==> lb[a] < lb[b]
    &&& forall|l: int| 1 <= l < lb.len() ==> #[trigger] level_step(lb, l, ns)
    &&& lcount(lb, lb.len() - 1) == 1
    &&& forall|l: int| 1 <= l < lb.len() - 1 ==> #[trigger] lcount(lb, l) >= 2
}

/// Internal node `q` (at offset `4q`) points at the first of its children,
/// which lie on the level below its own.
pub open spec fn child_ok(lb: Seq<usize>, idx: Seq<u32>, q: int) -> bool {
    forall|l: int|
        1 <= l < lb.len() && lstart(lb, l) <= 4 * q < #[trigger] lb[l] ==> lstart(lb, l - 1) <= idx[q]
            < lb[l - 1] && idx[q] % 4 == 0
}

/// The grid cell, along one axis, of the center of `[lo, hi]` on a grid of
/// 65536 cells over `[base, base + extent]`: `floor(65535 * (center - base) /
/// extent)`, held within `[0, 2^32)`. An extent that is not positive puts
/// every center in cell 0.
pub open spec fn grid_cell(lo: int, hi: int, base: int, extent: int) -> int {
    if extent <= 0 {
        0
    } else {
        let v = (65535 * (lo + hi - 2 * base)) / (2 * extent);
        if v < 0 {
            0
        } else if v > u32::MAX {
            u32::MAX as int
        } else {
            v
        }
    }
}

fn grid<T: AllowedNumber>(lo: T, hi: T, base: T, extent: i64) -> (r: u32)
    requires
        -0x2_0000_0000 <= extent <= 0x2_0000_0000,
    ensures
        r == grid_cell(lo.value(), hi.value(), base.value(), extent as int),
{
    proof {
        lo.lemma_range();
        hi.lemma_range();
        base.lemma_range();
        T::lemma_limits();
    }
    if extent <= 0 {
        return 0;
    }
    let num: i128 = lo.to_i64() as i128 + hi.to_i64() as i128 - 2 * (base.to_i64() as i128);
    assert(65535 * num <= 65535 * 0x4_0000_0000 && 65535 * num >= -65535 * 0x4_0000_0000)
        by (nonlinear_arith)
        requires
            -0x4_0000_0000 <= num <= 0x4_0000_0000,
    ;
    let scaled: i128 = 65535 * num;
    if scaled <= 0 {
        assert((scaled as int) / (2 * extent as int) <= 0) by (nonlinear_arith)
            requires
                scaled <= 0,
                extent > 0,
        ;
        return 0;
    }
    let v: i128 = scaled / (2 * extent as i128);
    if v > u32::MAX as i128 {
        u32::MAX
    } else {
        v as u32
    }
}

/// The next level's node count over `c` nodes.
pub open spec fn next_count(c: int, ns: int) -> int {
    if c == 0 {
        1
    } else {
        (c + ns - 1) / ns
    }
}

/// Level ends that start at `4n`, rise strictly in multiples of four, and
/// give each level `next_count` of the level below.
pub open spec fn levels_prefix(lb: Seq<usize>, n: int, ns: int) -> bool {
    &&& lb.len() >= 1
    &&& lb[0] == 4 * n
    &&& forall|l: int| 0 <= l < lb.len() ==> #[trigger] lb[l] % 4 == 0
    &&& forall|a: int, b: int| 0 <= a < b < lb.len() ==> lb[a] < lb[b]
    &&& forall|l: int| 1 <= l < lb.len() ==> #[trigger] level_step(lb, l, ns)
}

proof fn lemma_levels_push(lb: Seq<usize>, n: int, ns: int, x: usize)
    requires
        levels_prefix(lb, n, ns),
        ns >= 2,
        x == lb.last() + 4 * next_count(lcount(lb, lb.len() - 1), ns),
    ensures
        levels_prefix(lb.push(x), n, ns),
        lcount(lb.push(x), lb.len() as int) == next_count(lcount(lb, lb.len() - 1), ns),
{
    let lb2 = lb.push(x);
    let c = lcount(lb, lb.len() - 1);
    if lb.len() >= 2 {
        assert(lb[lb.len() - 1] > lb[lb.len() - 2]);
    }
    assert(c >= 0);
    lemma_next_count(c, ns);
    assert(next_count(c, ns) >= 1);
    assert forall|l: int| 1 <= l < lb2.len() implies #[trigger] level_step(lb2, l, ns) by {
        if l < lb.len() {
            assert(level_step(lb, l, ns));
            assert(lcount(lb2, l) == lcount(lb, l));
            assert(lcount(lb2, l - 1) == lcount(lb, l - 1));
        } else {
            assert(lcount(lb2, l - 1) == c);
        }
    }
    assert forall|a: int, b: int| 0 <= a < b < lb2.len() implies lb2[a] < lb2[b] by {
        if b == lb.len() {
            if a < lb.len() - 1 {
                assert(lb[a] < lb[lb.len() - 1]);
            }
        }
    }
}

/// Where each level of a tree over `num_items` items with fan-out `ns`
/// ends, as offsets into the boxes; and the number of nodes in all.
fn compute_levels(num_items: usize, ns: usize) -> (r: (Vec<usize>, usize))
    requires
        2 <= ns <= 65535,
        num_items <= 0x1000_0000,
    ensures
        levels_ok(r.0@, num_items as int, ns as int),
        r.0@.len() >= 2,
        r.0@[0] == 4 * num_items,
        r.0@.last() == 4 * r.1,
        4 * r.1 <= 0xC000_0010,
        r.1 >= num_items + 1,
{
    let mut n: usize = num_items;
    let mut num_nodes: usize = num_items;
    let mut level_bounds: Vec<usize> = Vec::new();
    level_bounds.push(n * 4);
    let ghost mut rounds: int = 0;
    proof {
        assert(lcount(level_bounds@, 0) == num_items);
    }
    loop
        invariant_except_break
            level_bounds@.len() >= 2 ==> n >= 2,
            n + rounds <= num_items + 1,
            forall|l: int| 1 <= l < level_bounds@.len() ==> #[trigger] lcount(level_bounds@, l) >= 2,
        invariant
            2 <= ns <= 65535,
            num_items <= 0x1000_0000,
            levels_prefix(level_bounds@, num_items as int, ns as int),
            level_bounds@.last() == 4 * num_nodes,
            n == lcount(level_bounds@, level_bounds@.len() - 1),
            num_nodes >= num_items,
            level_bounds@.len() >= 2 ==> num_nodes >= num_items + 1,
            0 <= rounds <= num_items + 1,
            level_bounds@.len() == 1 ==> n == num_items && rounds == 0,
            num_nodes + n <= 2 * num_items + rounds + 1,
        ensures
            level_bounds@.len() >= 2,
            n == 1,
            forall|l: int| 1 <= l < level_bounds@.len() - 1 ==> #[trigger] lcount(level_bounds@, l) >= 2,
        decreases n,
    {
        let ghost lb0 = level_bounds@;
        let ghost n0 = n;
        proof {
            lemma_next_count(n as int, ns as int);
        }
        n = if n == 0 {
            1
        } else {
            ceiling_division(n, ns)
        };
        num_nodes = num_nodes + n;
        level_bounds.push(num_nodes * 4);
        proof {
            lemma_levels_push(lb0, num_items as int, ns as int, (num_nodes * 4) as usize);
            assert(level_bounds@ == lb0.push((num_nodes * 4) as usize));
            assert forall|l: int| 1 <= l < level_bounds@.len() - 1 implies #[trigger] lcount(level_bounds@, l) >= 2 by {
                assert(lcount(level_bounds@, l) == lcount(lb0, l));
            }
            rounds = rounds + 1;
        }
        if n == 1 {
            break;
        }
    }
    proof {
        reveal(levels_ok);
    }
    (level_bounds, num_nodes)
}

/// The Hilbert value of the center of each of the `num_items` boxes, on the
/// grid of 65536 x 65536 cells over the bounds.
fn hilbert_values<T: AllowedNumber>(
    boxes: &Vec<T>,
    num_items: usize,
    min_x: T,
    min_y: T,
    max_x: T,
    max_y: T,
) -> (r: Vec<u32>)
    requires
        boxes@.len() == 4 * num_items,
    ensures
        r@.len() == num_items,
        forall|i: int|
            0 <= i < num_items ==> #[trigger] r@[i] == hilbert_index(
                grid_cell(
                    boxes@[4 * i].value(),
                    boxes@[4 * i + 2].value(),
                    min_x.value(),
                    max_x.value() - min_x.value(),
                ) as u32,
                grid_cell(
                    boxes@[4 * i + 1].value(),
                    boxes@[4 * i + 3].value(),
                    min_y.value(),
                    max_y.value() - min_y.value(),
                ) as u32,
            ),
{
    proof {
        min_x.lemma_range();
        min_y.lemma_range();
        max_x.lemma_range();
        max_y.lemma_range();
        T::lemma_limits();
    }
    let width: i64 = max_x.to_i64() - min_x.to_i64();
    let height: i64 = max_y.to_i64() - min_y.to_i64();
    let blen = boxes.len();
    let mut values: Vec<u32> = Vec::new();
    let mut i: usize = 0;
    while i < num_items
        invariant
            i <= num_items,
            blen == boxes@.len(),
            values@.len() == i,
            boxes@.len() == 4 * num_items,
            width == max_x.value() - min_x.value(),
            height == max_y.value() - min_y.value(),
            -0x2_0000_0000 <= width <= 0x2_0000_0000,
            -0x2_0000_0000 <= height <= 0x2_0000_0000,
            forall|k: int|
                0 <= k < i ==> #[trigger] values@[k] == hilbert_index(
                    grid_cell(
                        boxes@[4 * k].value(),
                        boxes@[4 * k + 2].value(),
                        min_x.value(),
                        max_x.value() - min_x.value(),
                    ) as u32,
                    grid_cell(
                        boxes@[4 * k + 1].value(),
                        boxes@[4 * k + 3].value(),
                        min_y.value(),
                        max_y.value() - min_y.value(),
                    ) as u32,
                ),
        decreases num_items - i,
    {
        let pos = 4 * i;
        let x = grid(boxes[pos], boxes[pos + 2], min_x, width);
        let y = grid(boxes[pos + 1], boxes[pos + 3], min_y, height);
        values.push(hilbert(x, y));
        i = i + 1;
    }
    values
}

/// Appends the node over slots `[pos, min(pos + 4 * ns, end))`: its box
/// covers theirs, and its entry in `indices` points at `pos`. Returns where
/// the next node's children begin.
#[verifier::spinoff_prover]
fn add_node<T: AllowedNumber>(
    boxes: &mut Vec<T>,
    indices: &mut IndexVec,
    pos: usize,
    end: usize,
    ns: usize,
) -> (next: usize)
    requires
        pos < end <= old(boxes)@.len(),
        pos % 4 == 0,
        end % 4 == 0,
        old(boxes)@.len() % 4 == 0,
        old(boxes)@.len() / 4 < old(indices)@.len(),
        4 * old(indices)@.len() <= 0xC000_0010,
        old(indices).is_narrow() ==> old(indices)@.len() < 16384,
        2 <= ns <= 65535,
    ensures
        next == if pos + 4 * ns < end { pos + 4 * ns } else { end as int },
        final(boxes)@.len() == old(boxes)@.len() + 4,
        forall|x: int| 0 <= x < old(boxes)@.len() / 4 ==> #[trigger] slot(final(boxes)@, x) == slot(old(boxes)@, x),
        final(indices)@ == old(indices)@.update((old(boxes)@.len() / 4) as int, pos as u32),
        final(indices).is_narrow() == old(indices).is_narrow(),
        forall|y: int|
            pos / 4 <= y < next / 4 ==> covers_box(
                slot(final(boxes)@, (old(boxes)@.len() / 4) as int),
                #[trigger] slot(old(boxes)@, y),
            ),
        forall|j: int|
            0 <= j < 4 ==> #[trigger] attained(final(boxes)@, (old(boxes)@.len() / 4) as int, pos as int / 4, next as int / 4, j),
{
    let node_index = pos;
    let mut pos = pos;
    let blen = boxes.len();
    let mut node_min_x: T = T::max_value();
    let mut node_min_y: T = T::max_value();
    let mut node_max_x: T = T::min_value();
    let mut node_max_y: T = T::min_value();
    let ghost mut w0: int = 0;
    let ghost mut w1: int = 0;
    let ghost mut w2: int = 0;
    let ghost mut w3: int = 0;
    let mut k: usize = 0;
    while k < ns && pos < end
        invariant
            k == 0 ==> node_min_x.value() == T::highest() && node_min_y.value() == T::highest()
                && node_max_x.value() == T::lowest() && node_max_y.value() == T::lowest(),
            k > 0 ==> node_index / 4 <= w0 < pos / 4 && node_min_x.value() == slot(boxes@, w0).0.value(),
            k > 0 ==> node_index / 4 <= w1 < pos / 4 && node_min_y.value() == slot(boxes@, w1).1.value(),
            k > 0 ==> node_index / 4 <= w2 < pos / 4 && node_max_x.value() == slot(boxes@, w2).2.value(),
            k > 0 ==> node_index / 4 <= w3 < pos / 4 && node_max_y.value() == slot(boxes@, w3).3.value(),
            k <= ns,
            pos == node_index + 4 * k,
            node_index < end,
            pos <= end,
            pos % 4 == 0,
            end % 4 == 0,
            end <= blen,
            blen == boxes@.len(),
            boxes@.len() <= 0xC000_0010,
            forall|y: int|
                node_index / 4 <= y < pos / 4 ==> covers_box(
                    (node_min_x, node_min_y, node_max_x, node_max_y),
                    #[trigger] slot(boxes@, y),
                ),
        decreases ns - k,
    {
        let ghost y = pos as int / 4;
        let ghost o0 = node_min_x.value();
        let ghost o1 = node_min_y.value();
        let ghost o2 = node_max_x.value();
        let ghost o3 = node_max_y.value();
        let ghost old_min_x = node_min_x;
        let ghost old_min_y = node_min_y;
        let ghost old_max_x = node_max_x;
        let ghost old_max_y = node_max_y;
        proof {
            boxes@[pos as int].lemma_range();
            boxes@[pos + 1].lemma_range();
            boxes@[pos + 2].lemma_range();
            boxes@[pos + 3].lemma_range();
        }
        node_min_x = min(node_min_x, boxes[pos]);
        node_min_y = min(node_min_y, boxes[pos + 1]);
        node_max_x = max(node_max_x, boxes[pos + 2]);
        node_max_y = max(node_max_y, boxes[pos + 3]);
        proof {
            assert(slot(boxes@, pos as int / 4) == (boxes@[pos as int], boxes@[pos + 1], boxes@[pos + 2], boxes@[pos + 3]));
            if k == 0 || !(o0 <= boxes@[pos as int].value()) {
                w0 = y;
            }
            if k == 0 || !(o1 <= boxes@[pos + 1].value()) {
                w1 = y;
            }
            if k == 0 || boxes@[pos + 2].value() >= o2 {
                w2 = y;
            }
            if k == 0 || boxes@[pos + 3].value() >= o3 {
                w3 = y;
            }
            assert forall|z: int| node_index / 4 <= z < y + 1 implies covers_box(
                (node_min_x, node_min_y, node_max_x, node_max_y),
                #[trigger] slot(boxes@, z),
            ) by {
                if z < y {
                    assert(covers_box((old_min_x, old_min_y, old_max_x, old_max_y), slot(boxes@, z)));
                }
            }
        }
        pos = pos + 4;
        k = k + 1;
    }
    let ghost b0 = boxes@;
    indices.set(boxes.len() / 4, node_index as u32);
    boxes.push(node_min_x);
    boxes.push(node_min_y);
    boxes.push(node_max_x);
    boxes.push(node_max_y);
    assert(forall|x: int| 0 <= x < b0.len() / 4 ==> #[trigger] slot(boxes@, x) == slot(b0, x));
    assert(slot(boxes@, (b0.len() / 4) as int) == (node_min_x, node_min_y, node_max_x, node_max_y));
    assert forall|y: int| node_index / 4 <= y < pos / 4 implies covers_box(
        slot(boxes@, (b0.len() / 4) as int),
        #[trigger] slot(b0, y),
    ) by {
        assert(covers_box((node_min_x, node_min_y, node_max_x, node_max_y), slot(b0, y)));
    }
    let ghost q = (b0.len() / 4) as int;
    assert(slot(boxes@, w0) == slot(b0, w0));
    assert(slot(boxes@, w1) == slot(b0, w1));
    assert(slot(boxes@, w2) == slot(b0, w2));
    assert(slot(boxes@, w3) == slot(b0, w3));
    assert(coord_of(slot(boxes@, q), 0) == coord_of(slot(boxes@, w0), 0));
    assert(coord_of(slot(boxes@, q), 1) == coord_of(slot(boxes@, w1), 1));
    assert(coord_of(slot(boxes@, q), 2) == coord_of(slot(boxes@, w2), 2));
    assert(coord_of(slot(boxes@, q), 3) == coord_of(slot(boxes@, w3), 3));
    assert(attained(boxes@, q, node_index as int / 4, pos as int / 4, 0));
    assert(attained(boxes@, q, node_index as int / 4, pos as int / 4, 1));
    assert(attained(boxes@, q, node_index as int / 4, pos as int / 4, 2));
    assert(attained(boxes@, q, node_index as int / 4, pos as int / 4, 3));
    pos
}

/// Recording node `q` (the next slot, on the level above `[lstart(l), lb[l])`)
/// with child offset `node_index` keeps the items in place and every node's
/// child offset on the level below its own.
proof fn lemma_node_added<T: AllowedNumber>(
    lb: Seq<usize>,
    ns: int,
    idx0: Seq<u32>,
    idx: Seq<u32>,
    b0: Seq<T>,
    b: Seq<T>,
    items: Seq<Rect<T>>,
    n: int,
    q: int,
    node_index: int,
    i: int,
)
    requires
        forall|x: int, y: int| 0 <= x < y < lb.len() ==> lb[x] < lb[y],
        0 <= i,
        0 <= n,
        node_index < 0x1_0000_0000,
        i + 1 < lb.len(),
        lb[i] <= 4 * q < lb[i + 1],
        lstart(lb, i) <= node_index < lb[i],
        node_index % 4 == 0,
        0 <= q < idx0.len(),
        n <= q,
        b0.len() == 4 * q,
        idx == idx0.update(q, node_index as u32),
        b.len() == b0.len() + 4,
        forall|x: int| 0 <= x < b0.len() / 4 ==> #[trigger] slot(b, x) == slot(b0, x),
        mapped(b0, idx0, items, n),
        forall|qq: int| n <= qq < q ==> #[trigger] child_ok(lb, idx0, qq),
        forall|qq: int| n <= qq < q ==> #[trigger] node_ok(lb, ns, idx0, b0, qq),
        ns >= 2,
        forall|x: int| 0 <= x < lb.len() ==> #[trigger] lb[x] % 4 == 0,
        node_index == 4 * first_child(lb, ns, i + 1, q),
        forall|y: int|
            first_child(lb, ns, i + 1, q) <= y < child_end(lb, ns, i + 1, q) ==> covers_box(
                slot(b, q),
                #[trigger] slot(b0, y),
            ),
        forall|j: int|
            0 <= j < 4 ==> #[trigger] attained(b, q, first_child(lb, ns, i + 1, q), child_end(lb, ns, i + 1, q), j),
    ensures
        mapped(b, idx, items, n),
        forall|qq: int| n <= qq < q + 1 ==> #[trigger] child_ok(lb, idx, qq),
        forall|qq: int| n <= qq < q + 1 ==> #[trigger] node_ok(lb, ns, idx, b, qq),
{
    assert forall|x: int| 0 <= x < n implies #[trigger] idx[x] < n && slot(b, x) == items[idx[x] as int] by {
        assert(slot(b, x) == slot(b0, x));
        assert(idx[x] == idx0[x]);
    }
    assert forall|x: int, y: int| 0 <= x < n && 0 <= y < n && x != y implies #[trigger] idx[x]
        != #[trigger] idx[y] by {
        assert(idx[x] == idx0[x]);
        assert(idx[y] == idx0[y]);
    }
    assert forall|qq: int| n <= qq < q + 1 implies #[trigger] child_ok(lb, idx, qq) by {
        if qq < q {
            assert(child_ok(lb, idx0, qq));
            assert(idx[qq] == idx0[qq]);
        } else {
            assert forall|l: int| 1 <= l < lb.len() && lstart(lb, l) <= 4 * qq < #[trigger] lb[l] implies lstart(lb, l - 1)
                <= idx[qq] < lb[l - 1] && idx[qq] % 4 == 0 by {
                if l <= i {
                    if l < i {
                        assert(lb[l] < lb[i]);
                    }
                } else if l > i + 1 {
                    assert(lb[l - 1] >= lb[i + 1]);
                }
            }
        }
    }
    assert forall|qq: int| n <= qq < q + 1 implies #[trigger] node_ok(lb, ns, idx, b, qq) by {
        if qq < q {
            assert(node_ok(lb, ns, idx0, b0, qq));
            assert(idx[qq] == idx0[qq]);
            assert(slot(b, qq) == slot(b0, qq));
            assert forall|l: int| 1 <= l < lb.len() && lstart(lb, l) <= 4 * qq < #[trigger] lb[l] implies node_at(lb, ns, idx, b, qq, l) by {
                assert(lb[l - 1] <= 4 * qq);
                assert forall|y: int| first_child(lb, ns, l, qq) <= y < child_end(lb, ns, l, qq) implies covers_box(
                    slot(b, qq),
                    #[trigger] slot(b, y),
                ) by {
                    assert(slot(b, y) == slot(b0, y));
                    assert(covers_box(slot(b0, qq), slot(b0, y)));
                }
                let fc = first_child(lb, ns, l, qq);
                let ce = child_end(lb, ns, l, qq);
                assert forall|j: int| 0 <= j < 4 implies attained(b, qq, fc, ce, j) by {
                    assert(attained(b0, qq, fc, ce, j));
                    let y = choose|y: int| fc <= y < ce && coord_of(slot(b0, qq), j) == #[trigger] coord_of(slot(b0, y), j);
                    assert(slot(b, y) == slot(b0, y));
                    assert(coord_of(slot(b, qq), j) == coord_of(slot(b, y), j));
                }
                assert(attained(b, qq, fc, ce, 0));
                assert(attained(b, qq, fc, ce, 1));
                assert(attained(b, qq, fc, ce, 2));
                assert(attained(b, qq, fc, ce, 3));
            }
        } else {
            assert forall|l: int| 1 <= l < lb.len() && lstart(lb, l) <= 4 * qq < #[trigger] lb[l] implies node_at(lb, ns, idx, b, qq, l) by {
                if l <= i {
                    if l < i {
                        assert(lb[l] < lb[i]);
                    }
                } else if l > i + 1 {
                    assert(lb[l - 1] >= lb[i + 1]);
                }
                assert(l == i + 1);
                assert(attained(b, q, first_child(lb, ns, i + 1, q), child_end(lb, ns, i + 1, q), 0));
                assert(attained(b, q, first_child(lb, ns, i + 1, q), child_end(lb, ns, i + 1, q), 1));
                assert(attained(b, q, first_child(lb, ns, i + 1, q), child_end(lb, ns, i + 1, q), 2));
                assert(attained(b, q, first_child(lb, ns, i + 1, q), child_end(lb, ns, i + 1, q), 3));
                assert forall|y: int| first_child(lb, ns, l, qq) <= y < child_end(lb, ns, l, qq) implies covers_box(
                    slot(b, qq),
                    #[trigger] slot(b, y),
                ) by {
                    assert(y < lb[i] / 4);
                    assert(slot(b, y) == slot(b0, y));
                }
            }
        }
    }
}

/// What building level `i + 1` needs to know of the level ends.
#[verifier::rlimit(100)]
#[verifier::spinoff_prover]
proof fn lemma_level_facts(lb: Seq<usize>, n: int, ns: int, i: int)
    requires
        levels_ok(lb, n, ns),
        0 <= i < lb.len() - 1,
        ns >= 2,
        n > ns,
    ensures
        forall|x: int, y: int| 0 <= x < y < lb.len() ==> lb[x] < lb[y],
        lb[i] % 4 == 0,
        lstart(lb, i) % 4 == 0,
        lb[i + 1] % 4 == 0,
        lb[i] >= 4 * n,
        lstart(lb, i) < lb[i],
        lb[i] < lb[i + 1],
        lb[i + 1] <= lb.last(),
        lcount(lb, i) >= 1,
        lb[i] == lstart(lb, i) + 4 * lcount(lb, i),
        lb[i + 1] == lb[i] + 4 * lcount(lb, i + 1),
        lcount(lb, i + 1) == (lcount(lb, i) + ns - 1) / ns,
{
    reveal(levels_ok);
    if i > 0 {
        assert(lb[i - 1] < lb[i]);
        assert(lb[i - 1] % 4 == 0);
        assert(lb[0] <= lb[i - 1]);
        lemma_next_count(lcount(lb, i - 1), ns);
        assert(level_step(lb, i, ns));
    }
    assert(lb[i] % 4 == 0);
    assert(lb[i + 1] % 4 == 0);
    assert(lb[i] < lb[i + 1]);
    if i + 1 < lb.len() - 1 {
        assert(lb[i + 1] < lb[lb.len() - 1]);
    }
    assert(level_step(lb, i + 1, ns));
}

/// Builds level `i + 1` over level `i`: a node for each run of up to `ns`
/// consecutive nodes, left to right.
#[verifier::spinoff_prover]
fn build_level<T: AllowedNumber>(
    boxes: &mut Vec<T>,
    indices: &mut IndexVec,
    level_bounds: &Vec<usize>,
    i: usize,
    num_items: usize,
    ns: usize,
    num_nodes: usize,
    Ghost(items): Ghost<Seq<Rect<T>>>,
)
    requires
        levels_ok(level_bounds@, num_items as int, ns as int),
        level_bounds@.last() == 4 * num_nodes,
        4 * num_nodes <= 0xC000_0010,
        2 <= ns <= 65535,
        num_items > ns,
        i < level_bounds@.len() - 1,
        old(boxes)@.len() == level_bounds@[i as int],
        old(indices)@.len() == num_nodes,
        old(indices).is_narrow() == (num_nodes < 16384),
        mapped(old(boxes)@, old(indices)@, items, num_items as int),
        forall|q: int| num_items <= q < old(boxes)@.len() / 4 ==> #[trigger] child_ok(level_bounds@, old(indices)@, q),
        forall|q: int| num_items <= q < old(boxes)@.len() / 4 ==> #[trigger] node_ok(level_bounds@, ns as int, old(indices)@, old(boxes)@, q),
    ensures
        forall|q: int| num_items <= q < final(boxes)@.len() / 4 ==> #[trigger] node_ok(level_bounds@, ns as int, final(indices)@, final(boxes)@, q),
        forall|x: int| 0 <= x < old(boxes)@.len() / 4 ==> #[trigger] slot(final(boxes)@, x) == slot(old(boxes)@, x),
        final(boxes)@.len() == level_bounds@[i + 1],
        final(indices)@.len() == num_nodes,
        final(indices).is_narrow() == old(indices).is_narrow(),
        mapped(final(boxes)@, final(indices)@, items, num_items as int),
        forall|q: int| num_items <= q < final(boxes)@.len() / 4 ==> #[trigger] child_ok(level_bounds@, final(indices)@, q),
{
    let ghost lb = level_bounds@;
    let end = level_bounds[i];
    let mut pos: usize = if i == 0 {
        0
    } else {
        level_bounds[i - 1]
    };
    let ghost cnt = lcount(lb, i as int);
    let ghost start = lstart(lb, i as int);
    let ghost next = lcount(lb, i + 1);
    let ghost mut g: int = 0;
    proof {
        lemma_level_facts(lb, num_items as int, ns as int, i as int);
        lemma_levels_sorted(lb, num_items as int, ns as int);
        lemma_next_count(cnt, ns as int);
    }
    while pos < end
        invariant
            lb == level_bounds@,
            forall|x: int, y: int| 0 <= x < y < lb.len() ==> lb[x] < lb[y],
            lb.last() == 4 * num_nodes,
            4 * num_nodes <= 0xC000_0010,
            2 <= ns <= 65535,
            i + 1 < lb.len(),
            end == lb[i as int],
            start == lstart(lb, i as int),
            cnt >= 1,
            end == start + 4 * cnt,
            lb[i + 1] == end + 4 * next,
            lb[i + 1] <= 4 * num_nodes,
            next == (cnt + ns - 1) / (ns as int),
            start % 4 == 0,
            start <= pos <= end,
            end >= 4 * num_items,
            pos % 4 == 0,
            end % 4 == 0,
            g >= 0,
            boxes@.len() == end + 4 * g,
            pos < end ==> pos == start + 4 * (ns * g) && ns * g < cnt,
            pos >= end ==> g >= 1 && ns * (g - 1) < cnt <= ns * g,
            g <= next,
            indices@.len() == num_nodes,
            indices.is_narrow() == (num_nodes < 16384),
            mapped(boxes@, indices@, items, num_items as int),
            forall|q: int| num_items <= q < boxes@.len() / 4 ==> #[trigger] child_ok(lb, indices@, q),
            forall|q: int| num_items <= q < boxes@.len() / 4 ==> #[trigger] node_ok(lb, ns as int, indices@, boxes@, q),
            forall|x: int| 0 <= x < lb.len() ==> #[trigger] lb[x] % 4 == 0,
            forall|x: int| 0 <= x < end / 4 ==> #[trigger] slot(boxes@, x) == slot(old(boxes)@, x),
            old(boxes)@.len() == end,
        decreases end - pos,
    {
        proof {
            lemma_next_count(cnt, ns as int);
            assert(g < next) by (nonlinear_arith)
                requires
                    ns * g < cnt,
                    cnt <= ns * next,
                    ns >= 2,
            ;
            assert(ns * (g + 1) == ns * g + ns) by (nonlinear_arith);
        }
        let ghost q: int = (boxes@.len() / 4) as int;
        let ghost idx0 = indices@;
        let ghost b0 = boxes@;
        let node_index = pos;
        pos = add_node(boxes, indices, pos, end, ns);
        proof {
            assert(q - lb[i as int] / 4 == g);
            assert(node_index == 4 * first_child(lb, ns as int, i + 1, q));
            assert(node_index as int / 4 == first_child(lb, ns as int, i + 1, q));
            assert(pos as int / 4 == child_end(lb, ns as int, i + 1, q));
            lemma_node_added(lb, ns as int, idx0, indices@, b0, boxes@, items, num_items as int, q, node_index as int, i as int);
            g = g + 1;
        }
    }
    proof {
        lemma_group_count(cnt, ns as int, g);
    }
}

/// Box `a` contains box `b`.
pub open spec fn covers_box<T: AllowedNumber>(a: Rect<T>, b: Rect<T>) -> bool {
    &&& a.0.value() <= b.0.value()
    &&& a.1.value() <= b.1.value()
    &&& a.2.value() >= b.2.value()
    &&& a.3.value() >= b.3.value()
}

/// The slot of the first child of node `q` on level `l >= 1`: the nodes of
/// a level take the nodes below `ns` at a time, in order.
pub open spec fn first_child(lb: Seq<usize>, ns: int, l: int, q: int) -> int {
    lstart(lb, l - 1) / 4 + ns * (q - lstart(lb, l) / 4)
}

/// One past the slot of the last child of node `q` on level `l >= 1`.
pub open spec fn child_end(lb: Seq<usize>, ns: int, l: int, q: int) -> int {
    let f = first_child(lb, ns, l, q) + ns;
    let e = lb[l - 1] as int / 4;
    if f < e {
        f
    } else {
        e
    }
}

/// Coordinate `k` of the box at slot `q` is that of one of the slots
/// `[lo, hi)`.
pub open spec fn attained<T: AllowedNumber>(b: Seq<T>, q: int, lo: int, hi: int, k: int) -> bool {
    exists|y: int| lo <= y < hi && coord_of(slot(b, q), k) == #[trigger] coord_of(slot(b, y), k)
}

/// Node `q`, on level `l`, points at its first child, and its box is the
/// least box that covers its children's.
pub open spec fn node_at<T: AllowedNumber>(lb: Seq<usize>, ns: int, idx: Seq<u32>, b: Seq<T>, q: int, l: int) -> bool {
    let fc = first_child(lb, ns, l, q);
    let ce = child_end(lb, ns, l, q);
    &&& idx[q] == 4 * fc
    &&& forall|y: int| fc <= y < ce ==> covers_box(slot(b, q), #[trigger] slot(b, y))
    &&& attained(b, q, fc, ce, 0)
    &&& attained(b, q, fc, ce, 1)
    &&& attained(b, q, fc, ce, 2)
    &&& attained(b, q, fc, ce, 3)
}

/// Node `q` is as `node_at` says on its level.
pub open spec fn node_ok<T: AllowedNumber>(lb: Seq<usize>, ns: int, idx: Seq<u32>, b: Seq<T>, q: int) -> bool {
    forall|l: int|
        1 <= l < lb.len() && lstart(lb, l) <= 4 * q < #[trigger] lb[l] ==> node_at(lb, ns, idx, b, q, l)
}

/// The slot of the ancestor on level `l` of item slot `x`.
pub open spec fn anc(lb: Seq<usize>, ns: int, x: int, l: int) -> int
    decreases l,
{
    if l <= 0 {
        x
    } else {
        lb[l - 1] as int / 4 + (anc(lb, ns, x, l - 1) - lstart(lb, l - 1) / 4) / ns
    }
}

/// The ancestor of an item on each level lies on that level.
proof fn lemma_anc_level(lb: Seq<usize>, n: int, ns: int, x: int, l: int)
    requires
        levels_ok(lb, n, ns),
        ns >= 2,
        0 <= x < n,
        0 <= l < lb.len(),
    ensures
        lstart(lb, l) <= 4 * anc(lb, ns, x, l) < lb[l],
    decreases l,
{
    reveal(levels_ok);
    if l > 0 {
        lemma_anc_level(lb, n, ns, x, l - 1);
        let s = lstart(lb, l - 1);
        let j0 = anc(lb, ns, x, l - 1) - s / 4;
        let cnt = lcount(lb, l - 1);
        assert(lb[l - 1] % 4 == 0);
        assert(s % 4 == 0) by {
            if l >= 2 {
                assert(lb[l - 2] % 4 == 0);
            }
        }
        assert(lb[l] % 4 == 0);
        assert(0 <= j0 < cnt);
        assert(level_step(lb, l, ns));
        lemma_div_is_ordered(0, j0, ns);
        lemma_div_is_ordered(j0, cnt - 1, ns);
        lemma_div_plus_one(cnt - 1, ns);
        assert(lb[l - 1] < lb[l]);
    }
}

/// The ancestor of an item on level `l - 1` lies among the children of its
/// ancestor on level `l`.
proof fn lemma_anc_window(lb: Seq<usize>, n: int, ns: int, x: int, l: int)
    requires
        levels_ok(lb, n, ns),
        ns >= 2,
        0 <= x < n,
        1 <= l < lb.len(),
    ensures
        first_child(lb, ns, l, anc(lb, ns, x, l)) <= anc(lb, ns, x, l - 1) < child_end(
            lb,
            ns,
            l,
            anc(lb, ns, x, l),
        ),
{
    reveal(levels_ok);
    lemma_anc_level(lb, n, ns, x, l - 1);
    let s = lstart(lb, l - 1);
    let j0 = anc(lb, ns, x, l - 1) - s / 4;
    assert(lb[l - 1] % 4 == 0);
    lemma_fundamental_div_mod(j0, ns);
    assert(anc(lb, ns, x, l) - lstart(lb, l) / 4 == j0 / ns);
}

/// A slot among the children of node `y` on level `l` has `y` as its parent.
proof fn lemma_parent_unique(lb: Seq<usize>, ns: int, l: int, y: int, z: int)
    requires
        ns >= 2,
        1 <= l < lb.len(),
        lstart(lb, l) <= 4 * y,
        first_child(lb, ns, l, y) <= z < first_child(lb, ns, l, y) + ns,
    ensures
        lb[l - 1] as int / 4 + (z - lstart(lb, l - 1) / 4) / ns == y,
{
    let j = y - lstart(lb, l) / 4;
    let r = z - lstart(lb, l - 1) / 4 - ns * j;
    assert(j * ns == ns * j) by (nonlinear_arith);
    lemma_fundamental_div_mod_converse(z - lstart(lb, l - 1) / 4, ns, j, r);
}

/// With at most `ns` items, the root at slot `n` covers them all directly.
proof fn lemma_single_root<T: AllowedNumber>(
    lb: Seq<usize>,
    ns: int,
    n: int,
    idx: Seq<u32>,
    b: Seq<T>,
    items: Seq<Rect<T>>,
)
    requires
        lb.len() == 2,
        lb[0] == 4 * n,
        lb[1] == 4 * n + 4,
        1 <= n <= ns,
        b.len() == 4 * n + 4,
        idx.len() == n + 1,
        idx[n] == 0,
        items.len() == n,
        forall|i: int| 0 <= i < n ==> #[trigger] slot(b, i) == items[i],
        coord_of(slot(b, n), 0) == least(items, 0),
        coord_of(slot(b, n), 1) == least(items, 1),
        coord_of(slot(b, n), 2) == greatest(items, 2),
        coord_of(slot(b, n), 3) == greatest(items, 3),
    ensures
        node_ok(lb, ns, idx, b, n),
{
    let q = n;
    assert forall|l: int| 1 <= l < lb.len() && lstart(lb, l) <= 4 * q < #[trigger] lb[l] implies node_at(lb, ns, idx, b, q, l) by {
        assert(l == 1);
        assert(lstart(lb, 1) / 4 == q);
        assert(ns * (q - lstart(lb, 1) / 4) == 0) by (nonlinear_arith)
            requires
                q - lstart(lb, 1) / 4 == 0,
        ;
        assert(first_child(lb, ns, l, q) == 0);
        assert(child_end(lb, ns, l, q) == q);
        lemma_least_attained(items, 0);
        lemma_least_attained(items, 1);
        lemma_greatest_attained(items, 2);
        lemma_greatest_attained(items, 3);
        assert forall|j: int| 0 <= j < 4 implies attained(b, q, 0, q, j) by {
            let i = if j <= 1 {
                choose|i: int| 0 <= i < items.len() && least(items, j) == #[trigger] coord_of(items[i], j)
            } else {
                choose|i: int| 0 <= i < items.len() && greatest(items, j) == #[trigger] coord_of(items[i], j)
            };
            assert(slot(b, i) == items[i]);
            assert(coord_of(slot(b, q), j) == coord_of(slot(b, i), j));
        }
        assert(attained(b, q, 0, q, 0));
        assert(attained(b, q, 0, q, 1));
        assert(attained(b, q, 0, q, 2));
        assert(attained(b, q, 0, q, 3));
        assert forall|y: int| first_child(lb, ns, l, q) <= y < child_end(lb, ns, l, q) implies covers_box(
            slot(b, q),
            #[trigger] slot(b, y),
        ) by {
            assert(slot(b, y) == items[y]);
            lemma_bounds_cover(items, y);
        }
    }
}

/// A static packed Hilbert R-tree over boxes. Box `i` (in the order they were
/// added) has identifier `i`. The first `n` slots hold the boxes, sorted by
/// the Hilbert value of their centers; the internal nodes follow level by
/// level, the root last.
pub struct FlatBush<T: AllowedNumber> {
    boxes: Vec<T>,
    indices: IndexVec,
    level_bounds: Vec<usize>,
    num_items: usize,
    node_size: usize,
    min_x: T,
    min_y: T,
    max_x: T,
    max_y: T,
    items: Ghost<Seq<Rect<T>>>,
}

impl<T: AllowedNumber> FlatBushBuilder<T> {
    /// Builds the index. With at most `node_size` boxes the root covers them
    /// all directly and no sorting is done; otherwise the boxes are sorted by
    /// the Hilbert value of their centers and the levels built bottom-up,
    /// each node covering up to `node_size` consecutive nodes of the level
    /// below. Node offsets are held in 16 bits when there are fewer than
    /// 16384 nodes.
    #[verifier::rlimit(80)]
    #[verifier::spinoff_prover]
    pub fn finish(self) -> (r: FlatBush<T>)
        requires
            self.wf(),
            self.items().len() <= 0x1000_0000,
        ensures
            r.items() == self.items(),
            r.spec_node_size() == self.spec_node_size(),
            r.spec_bounds() == (
                least(self.items(), 0),
                least(self.items(), 1),
                greatest(self.items(), 2),
                greatest(self.items(), 3),
            ),
            r.indices_view().len() == r.boxes_view().len() / 4,
            r.indices_narrow() == (r.indices_view().len() < 16384),
            levels_ok(r.level_bounds_view(), self.items().len() as int, self.spec_node_size() as int),
            r.level_bounds_view().last() == r.boxes_view().len(),
            self.items().len() > 0 ==> forall|q: int|
                self.items().len() <= q < r.boxes_view().len() / 4 ==> #[trigger] node_ok(
                    r.level_bounds_view(),
                    self.spec_node_size() as int,
                    r.indices_view(),
                    r.boxes_view(),
                    q,
                ),
            r.boxes_view().len() % 4 == 0,
            r.boxes_view().len() >= 4 * self.items().len() + 4,
            self.items().len() <= self.spec_node_size() ==> {
                &&& r.boxes_view().len() == 4 * self.items().len() + 4
                &&& r.indices_view()[self.items().len() as int] == 0
                &&& r.level_bounds_view() == seq![
                    (4 * self.items().len()) as usize,
                    (4 * self.items().len() + 4) as usize,
                ]
                &&& forall|i: int| 0 <= i < self.items().len() ==> #[trigger] r.indices_view()[i] == i
                &&& forall|i: int| 0 <= i < self.items().len() ==> #[trigger] slot(r.boxes_view(), i) == self.items()[i]
            },
            mapped(r.boxes_view(), r.indices_view(), self.items(), self.items().len() as int),
            coord_of(slot(r.boxes_view(), r.boxes_view().len() / 4 - 1), 0) == least(self.items(), 0),
            coord_of(slot(r.boxes_view(), r.boxes_view().len() / 4 - 1), 1) == least(self.items(), 1),
            coord_of(slot(r.boxes_view(), r.boxes_view().len() / 4 - 1), 2) == greatest(self.items(), 2),
            coord_of(slot(r.boxes_view(), r.boxes_view().len() / 4 - 1), 3) == greatest(self.items(), 3),
            self.items().len() > self.spec_node_size() ==> forall|p: int, q: int|
                0 <= p < self.items().len() && 0 <= q < self.items().len() && #[trigger] (p / (self.spec_node_size() as int))
                    < #[trigger] (q / (self.spec_node_size() as int)) ==> hilbert_key(slot(r.boxes_view(), p), r.spec_bounds())
                    <= hilbert_key(slot(r.boxes_view(), q), r.spec_bounds()),
    {
        let ghost items = self.items();
        let FlatBushBuilder { boxes, node_size, min_x, min_y, max_x, max_y } = self;
        let mut boxes = boxes;
        let ns = node_size;
        let num_items = boxes.len() / 4;

        let (level_bounds, num_nodes) = compute_levels(num_items, ns);
        let ghost lb = level_bounds@;
        proof {
            reveal(FlatBush::tree_ok);
        }

        let mut indices = IndexVec::new_counting(num_nodes, num_items, num_nodes < 16384);
        proof {
            assert(mapped(boxes@, indices@, items, num_items as int)) by {
                assert forall|x: int| 0 <= x < num_items implies #[trigger] indices@[x] < num_items
                    && slot(boxes@, x) == items[indices@[x] as int] by {}
            }
        }

        if num_items <= ns {
            // a single node: no sorting, the root covers everything
            proof {
                reveal(levels_ok);
                lemma_next_count(num_items as int, ns as int);
                assert(lcount(lb, 0) == num_items);
                if num_items > 0 {
                    let c = (num_items + ns - 1) / (ns as int);
                    assert(c <= 1) by (nonlinear_arith)
                        requires
                            ns * (c - 1) < num_items <= ns,
                            ns >= 2,
                    ;
                }
                assert(level_step(lb, 1, ns as int));
                assert(lcount(lb, 1) == 1);
                assert(lb.len() == 2);
                assert(lb[1] % 4 == 0);
                assert(lb =~= seq![(4 * num_items) as usize, (4 * num_items + 4) as usize]);
            }
            let ghost unsorted = boxes@;
            boxes.push(min_x);
            boxes.push(min_y);
            boxes.push(max_x);
            boxes.push(max_y);
            proof {
                assert(slot(boxes@, num_items as int) == (min_x, min_y, max_x, max_y));
                assert forall|i: int| 0 <= i < num_items implies #[trigger] slot(boxes@, i) == items[i] by {
                    assert(slot(boxes@, i) == slot(unsorted, i));
                }
                if num_items > 0 {
                    assert(coord_of(slot(boxes@, num_items as int), 0) == least(items, 0));
                    assert(coord_of(slot(boxes@, num_items as int), 1) == least(items, 1));
                    assert(coord_of(slot(boxes@, num_items as int), 2) == greatest(items, 2));
                    assert(coord_of(slot(boxes@, num_items as int), 3) == greatest(items, 3));
                    lemma_single_root(lb, ns as int, num_items as int, indices@, boxes@, items);
                    assert forall|qq: int| num_items <= qq < boxes@.len() / 4 implies #[trigger] node_ok(lb, ns as int, indices@, boxes@, qq) by {
                        assert(qq == num_items);
                    }
                }
                assert(mapped(boxes@, indices@, items, num_items as int)) by {
                    assert forall|x: int| 0 <= x < num_items implies #[trigger] indices@[x] < num_items
                        && slot(boxes@, x) == items[indices@[x] as int] by {
                        assert(slot(boxes@, x) == slot(unsorted, x));
                    }
                }
            }
            let r = FlatBush {
                boxes,
                indices,
                level_bounds,
                num_items,
                node_size: ns,
                min_x,
                min_y,
                max_x,
                max_y,
                items: Ghost(items),
            };
            return r;
        }
        // sort the boxes by the Hilbert values of their centers
        let ghost bnds = (min_x.value(), min_y.value(), max_x.value(), max_y.value());
        let ghost key = |r: Rect<T>| hilbert_key(r, bnds);
        let mut hilbert_values = hilbert_values(&boxes, num_items, min_x, min_y, max_x, max_y);
        proof {
            assert forall|x: int| 0 <= x < num_items implies #[trigger] hilbert_values@[x] == key(slot(boxes@, x)) by {
                assert(slot(boxes@, x) == (boxes@[4 * x], boxes@[4 * x + 1], boxes@[4 * x + 2], boxes@[4 * x + 3]));
            }
        }
        sort(&mut hilbert_values, &mut boxes, &mut indices, 0, num_items - 1, ns, Ghost(items), Ghost(key));
        let ghost sorted = boxes@;

        // build the levels bottom-up
        let nlev = level_bounds.len() - 1;
        let mut i: usize = 0;
        while i < nlev
            invariant
                lb == level_bounds@,
                levels_ok(lb, num_items as int, ns as int),
                lb.last() == 4 * num_nodes,
                4 * num_nodes <= 0xC000_0010,
                2 <= ns <= 65535,
                num_items > ns,
                i <= nlev,
                nlev == lb.len() - 1,
                boxes@.len() == lb[i as int],
                indices@.len() == num_nodes,
                indices.is_narrow() == (num_nodes < 16384),
                mapped(boxes@, indices@, items, num_items as int),
                forall|q: int| num_items <= q < boxes@.len() / 4 ==> #[trigger] child_ok(lb, indices@, q),
                forall|q: int| num_items <= q < boxes@.len() / 4 ==> #[trigger] node_ok(lb, ns as int, indices@, boxes@, q),
                forall|x: int| 0 <= x < num_items ==> #[trigger] slot(boxes@, x) == slot(sorted, x),
            decreases nlev - i,
        {
            build_level(&mut boxes, &mut indices, &level_bounds, i, num_items, ns, num_nodes, Ghost(items));
            i = i + 1;
        }
        proof {
            lemma_root_is_bounds(lb, ns as int, num_items as int, indices@, boxes@, items);
            assert forall|p: int, q: int|
                0 <= p < num_items && 0 <= q < num_items && #[trigger] (p / (ns as int)) < #[trigger] (q / (ns as int)) implies hilbert_key(slot(boxes@, p), bnds)
                    <= hilbert_key(slot(boxes@, q), bnds) by {
                assert(slot(boxes@, p) == slot(sorted, p));
                assert(slot(boxes@, q) == slot(sorted, q));
                assert(hilbert_values@[p] == key(slot(sorted, p)));
                assert(hilbert_values@[q] == key(slot(sorted, q)));
            }
        }
        FlatBush {
            boxes,
            indices,
            level_bounds,
            num_items,
            node_size: ns,
            min_x,
            min_y,
            max_x,
            max_y,
            items: Ghost(items),
        }
    }
}

impl<T: AllowedNumber> FlatBush<T> {
    #[verifier::type_invariant]
    spec fn inv(&self) -> bool {
        let n = self.num_items as int;
        let lb = self.level_bounds@;
        let nb = self.boxes@.len();
        &&& self.items@.len() == n
        &&& MIN_NODE_SIZE <= self.node_size <= MAX_NODE_SIZE
        &&& nb % 4 == 0
        &&& nb <= 0xC000_0010
        &&& self.indices@.len() == nb / 4
        &&& self.tree_ok()
        &&& self.min_x.value() == least(self.items@, 0)
        &&& self.min_y.value() == least(self.items@, 1)
        &&& self.max_x.value() == greatest(self.items@, 2)
        &&& self.max_y.value() == greatest(self.items@, 3)
    }

    /// The levels, the child offsets and the items in place.
    #[verifier::opaque]
    spec fn tree_ok(&self) -> bool {
        let n = self.num_items as int;
        let lb = self.level_bounds@;
        let nb = self.boxes@.len();
        &&& levels_ok(lb, n, self.node_size as int)
        &&& lb.last() == nb
        &&& n > 0 ==> forall|q: int| n <= q < nb / 4 ==> #[trigger] child_ok(lb, self.indices@, q)
        &&& n > 0 ==> forall|q: int|
            n <= q < nb / 4 ==> #[trigger] node_ok(lb, self.node_size as int, self.indices@, self.boxes@, q)
        &&& mapped(self.boxes@, self.indices@, self.items@, n)
    }

    /// The indexed boxes: identifier `i` is the `i`-th box added.
    pub closed spec fn items(&self) -> Seq<Rect<T>> {
        self.items@
    }

    /// The fan-out.
    pub closed spec fn spec_node_size(&self) -> usize {
        self.node_size
    }

    /// The stored boxes: items first, then the nodes, the root last.
    pub closed spec fn boxes_view(&self) -> Seq<T> {
        self.boxes@
    }

    /// The stored identifiers and child offsets.
    pub closed spec fn indices_view(&self) -> Seq<u32> {
        self.indices@
    }

    /// Where each level ends, as offsets into the boxes: the items first,
    /// the root's level last.
    pub closed spec fn level_bounds_view(&self) -> Seq<usize> {
        self.level_bounds@
    }

    /// Whether the identifiers and offsets are stored in 16 bits.
    pub closed spec fn indices_narrow(&self) -> bool {
        self.indices.is_narrow()
    }

    /// The bounds over all boxes.
    pub closed spec fn spec_bounds(&self) -> (int, int, int, int) {
        (self.min_x.value(), self.min_y.value(), self.max_x.value(), self.max_y.value())
    }

    /// The least x and y and the greatest x and y over all boxes; with no
    /// boxes, the type's greatest and least values.
    pub fn bounds(&self) -> (r: [T; 4])
        ensures
            r@[0].value() == least(self.items(), 0),
            r@[1].value() == least(self.items(), 1),
            r@[2].value() == greatest(self.items(), 2),
            r@[3].value() == greatest(self.items(), 3),
    {
        proof {
            use_type_invariant(self);
        }
        [self.min_x, self.min_y, self.max_x, self.max_y]
    }

    /// The stored boxes, four coordinates each.
    pub fn boxes(&self) -> (r: &Vec<T>)
        ensures
            r@ == self.boxes_view(),
    {
        &self.boxes
    }

    /// Where each level ends, as offsets into the boxes.
    pub fn level_bounds(&self) -> (r: &Vec<usize>)
        ensures
            r@ == self.level_bounds_view(),
    {
        &self.level_bounds
    }

    /// The stored identifiers (for item slots) and child offsets (for nodes).
    pub fn indices(&self) -> (r: &IndexVec)
        ensures
            r@ == self.indices_view(),
            r.is_narrow() == self.indices_narrow(),
    {
        &self.indices
    }
}

/// What the search needs to know of the level ends.
proof fn lemma_levels_sorted(lb: Seq<usize>, n: int, ns: int)
    requires
        levels_ok(lb, n, ns),
    ensures
        lb.len() >= 2,
        lb[0] == 4 * n,
        forall|x: int, y: int| 0 <= x < y < lb.len() ==> lb[x] < lb[y],
        forall|x: int| 0 <= x < lb.len() ==> #[trigger] lb[x] % 4 == 0,
        lb[lb.len() - 2] + 4 == lb[lb.len() - 1],
{
    reveal(levels_ok);
    assert(lb[lb.len() - 2] % 4 == 0);
    assert(lb[lb.len() - 1] % 4 == 0);
}

/// Where the window of slots at offset `c` on level `l` ends: a node's
/// children are at most `ns` slots, and never cross the level's end.
pub open spec fn wend(lb: Seq<usize>, ns: int, c: int, l: int) -> int {
    if c + 4 * ns < lb[l] {
        c + 4 * ns
    } else {
        lb[l] as int
    }
}

/// Item slot `x` lies under the window at offset `c` on level `l`.
pub open spec fn under(lb: Seq<usize>, ns: int, n: int, c: int, l: int, x: int) -> bool {
    0 <= x < n && c <= 4 * anc(lb, ns, x, l) < wend(lb, ns, c, l)
}

/// `id` belongs to an item under the window at offset `c` on level `l`.
pub open spec fn id_under(lb: Seq<usize>, ns: int, n: int, idx: Seq<u32>, c: int, l: int, id: usize) -> bool {
    exists|x: int| #[trigger] under(lb, ns, n, c, l, x) && id == idx[x] as usize
}

/// The items under the children of node `y` (in the window at `c` on level
/// `l`) are those whose ancestor on level `l` is `y`, and they lie under the
/// window at `c`.
proof fn lemma_child_under<T: AllowedNumber>(
    lb: Seq<usize>,
    ns: int,
    n: int,
    idx: Seq<u32>,
    b: Seq<T>,
    c: int,
    l: int,
    y: int,
    x: int,
)
    requires
        levels_ok(lb, n, ns),
        ns >= 2,
        1 <= l < lb.len(),
        lstart(lb, l) <= c,
        c <= 4 * y < wend(lb, ns, c, l),
        node_ok(lb, ns, idx, b, y),
        0 <= x < n,
    ensures
        under(lb, ns, n, idx[y] as int, l - 1, x) <==> anc(lb, ns, x, l) == y,
        anc(lb, ns, x, l) == y ==> under(lb, ns, n, c, l, x),
{
    lemma_levels_sorted(lb, n, ns);
    assert(lb[l - 1] % 4 == 0);
    assert(wend(lb, ns, c, l) <= lb[l]);
    assert(lstart(lb, l) <= 4 * y < lb[l]);
    assert(idx[y] == 4 * first_child(lb, ns, l, y));
    if anc(lb, ns, x, l) == y {
        lemma_anc_window(lb, n, ns, x, l);
    }
    if under(lb, ns, n, idx[y] as int, l - 1, x) {
        lemma_parent_unique(lb, ns, l, y, anc(lb, ns, x, l - 1));
    }
}

/// A box that meets the query has ancestors that meet it too.
proof fn lemma_overlap_up<T: AllowedNumber>(
    lb: Seq<usize>,
    ns: int,
    n: int,
    idx: Seq<u32>,
    b: Seq<T>,
    x: int,
    l: int,
    min_x: T,
    min_y: T,
    max_x: T,
    max_y: T,
)
    requires
        levels_ok(lb, n, ns),
        ns >= 2,
        0 <= x < n,
        0 <= l < lb.len(),
        forall|q: int| n <= q < lb.last() / 4 ==> #[trigger] node_ok(lb, ns, idx, b, q),
        overlaps(slot(b, x), min_x, min_y, max_x, max_y),
    ensures
        overlaps(slot(b, anc(lb, ns, x, l)), min_x, min_y, max_x, max_y),
    decreases l,
{
    if l > 0 {
        lemma_overlap_up(lb, ns, n, idx, b, x, l - 1, min_x, min_y, max_x, max_y);
        lemma_levels_sorted(lb, n, ns);
        lemma_anc_level(lb, n, ns, x, l);
        lemma_anc_window(lb, n, ns, x, l);
        let q = anc(lb, ns, x, l);
        assert(lb[0] <= lb[l - 1]);
        assert(lb[l] <= lb[lb.len() - 1]);
        assert(node_ok(lb, ns, idx, b, q));
        assert(lstart(lb, l) <= 4 * q < lb[l]);
        assert(covers_box(slot(b, q), slot(b, anc(lb, ns, x, l - 1))));
    }
}

/// The ancestors of an item cover its box.
proof fn lemma_cover_up<T: AllowedNumber>(lb: Seq<usize>, ns: int, n: int, idx: Seq<u32>, b: Seq<T>, x: int, l: int)
    requires
        levels_ok(lb, n, ns),
        ns >= 2,
        0 <= x < n,
        0 <= l < lb.len(),
        forall|q: int| n <= q < lb.last() / 4 ==> #[trigger] node_ok(lb, ns, idx, b, q),
    ensures
        covers_box(slot(b, anc(lb, ns, x, l)), slot(b, x)),
    decreases l,
{
    if l > 0 {
        lemma_cover_up(lb, ns, n, idx, b, x, l - 1);
        lemma_levels_sorted(lb, n, ns);
        lemma_anc_level(lb, n, ns, x, l);
        lemma_anc_window(lb, n, ns, x, l);
        let q = anc(lb, ns, x, l);
        assert(lb[0] <= lb[l - 1]);
        assert(lb[l] <= lb[lb.len() - 1]);
        assert(node_ok(lb, ns, idx, b, q));
        assert(lstart(lb, l) <= 4 * q < lb[l]);
        assert(node_at(lb, ns, idx, b, q, l));
        assert(covers_box(slot(b, q), slot(b, anc(lb, ns, x, l - 1))));
    }
}

/// Each coordinate of a node's box is that of some item's box.
proof fn lemma_attained_by_item<T: AllowedNumber>(
    lb: Seq<usize>,
    ns: int,
    n: int,
    idx: Seq<u32>,
    b: Seq<T>,
    q: int,
    l: int,
    k: int,
)
    requires
        levels_ok(lb, n, ns),
        ns >= 2,
        n > 0,
        1 <= l < lb.len(),
        lstart(lb, l) <= 4 * q < lb[l],
        0 <= k < 4,
        forall|qq: int| n <= qq < lb.last() / 4 ==> #[trigger] node_ok(lb, ns, idx, b, qq),
    ensures
        exists|x: int| 0 <= x < n && coord_of(slot(b, q), k) == #[trigger] coord_of(slot(b, x), k),
    decreases l,
{
    lemma_levels_sorted(lb, n, ns);
    assert(lb[0] <= lb[l - 1]);
    assert(lb[l] <= lb[lb.len() - 1]);
    assert(node_ok(lb, ns, idx, b, q));
    assert(node_at(lb, ns, idx, b, q, l));
    let fc = first_child(lb, ns, l, q);
    let ce = child_end(lb, ns, l, q);
    assert(attained(b, q, fc, ce, k));
    let y = choose|y: int| fc <= y < ce && coord_of(slot(b, q), k) == #[trigger] coord_of(slot(b, y), k);
    assert(lb[l - 1] % 4 == 0);
    if l == 1 {
        assert(y < n);
    } else {
        assert(lb[l - 2] % 4 == 0);
        assert(lstart(lb, l - 1) <= 4 * y < lb[l - 1]);
        lemma_attained_by_item(lb, ns, n, idx, b, y, l - 1, k);
        let x = choose|x: int| 0 <= x < n && coord_of(slot(b, y), k) == #[trigger] coord_of(slot(b, x), k);
        assert(coord_of(slot(b, q), k) == coord_of(slot(b, x), k));
    }
}

/// The root's box is the least and greatest coordinates over all boxes.
proof fn lemma_root_is_bounds<T: AllowedNumber>(
    lb: Seq<usize>,
    ns: int,
    n: int,
    idx: Seq<u32>,
    b: Seq<T>,
    items: Seq<Rect<T>>,
)
    requires
        levels_ok(lb, n, ns),
        ns >= 2,
        n > 0,
        lb.last() == b.len(),
        forall|qq: int| n <= qq < lb.last() / 4 ==> #[trigger] node_ok(lb, ns, idx, b, qq),
        mapped(b, idx, items, n),
        items.len() == n,
        n <= 0x1000_0000,
    ensures
        coord_of(slot(b, b.len() / 4 - 1), 0) == least(items, 0),
        coord_of(slot(b, b.len() / 4 - 1), 1) == least(items, 1),
        coord_of(slot(b, b.len() / 4 - 1), 2) == greatest(items, 2),
        coord_of(slot(b, b.len() / 4 - 1), 3) == greatest(items, 3),
{
    lemma_levels_sorted(lb, n, ns);
    let top = lb.len() - 1;
    let root = b.len() / 4 - 1;
    assert(lb[top] % 4 == 0);
    assert(lstart(lb, top) <= 4 * root < lb[top]);
    lemma_onto(idx.subrange(0, n), n as nat);
    assert forall|k: int| 0 <= k < 4 implies coord_of(slot(b, root), k) == if k <= 1 {
        least(items, k)
    } else {
        greatest(items, k)
    } by {
        lemma_attained_by_item(lb, ns, n, idx, b, root, top, k);
        let x = choose|x: int| 0 <= x < n && coord_of(slot(b, root), k) == #[trigger] coord_of(slot(b, x), k);
        assert(slot(b, x) == items[idx[x] as int]);
        lemma_bounds_cover(items, idx[x] as int);
        let i = if k <= 1 {
            lemma_least_attained(items, k);
            choose|i: int| 0 <= i < items.len() && least(items, k) == #[trigger] coord_of(items[i], k)
        } else {
            lemma_greatest_attained(items, k);
            choose|i: int| 0 <= i < items.len() && greatest(items, k) == #[trigger] coord_of(items[i], k)
        };
        assert(idx.subrange(0, n).contains(i as u32));
        let z = choose|z: int| 0 <= z < n && idx.subrange(0, n)[z] == i as u32;
        assert(idx[z] == i as u32);
        assert(idx[z] as int == i);
        assert(slot(b, z) == items[i]);
        lemma_anc_level(lb, n, ns, z, top);
        lemma_cover_up(lb, ns, n, idx, b, z, top);
        assert(anc(lb, ns, z, top) == root);
    }
    assert(coord_of(slot(b, root), 0) == least(items, 0));
    assert(coord_of(slot(b, root), 1) == least(items, 1));
    assert(coord_of(slot(b, root), 2) == greatest(items, 2));
    assert(coord_of(slot(b, root), 3) == greatest(items, 3));
}

/// `e` belongs to an item under the children window of one of
/// `children[k..]` (on level `l - 1`).
pub open spec fn id_under_some(
    lb: Seq<usize>,
    ns: int,
    n: int,
    idx: Seq<u32>,
    children: Seq<usize>,
    k: int,
    l: int,
    e: usize,
) -> bool {
    exists|j: int| k <= j < children.len() && #[trigger] id_under(lb, ns, n, idx, children[j] as int, l - 1, e)
}

impl<T: AllowedNumber> FlatBush<T> {
    /// Scans the node window that starts at offset `c` (on level `l`):
    /// emits the items there that meet the query, then descends, last child
    /// first, into the nodes there that meet it. This is the order in which
    /// a last-in first-out queue of node offsets visits them.
    #[verifier::rlimit(60)]
    #[verifier::spinoff_prover]
    fn visit(
        &self,
        c: usize,
        Ghost(l): Ghost<int>,
        min_x: T,
        min_y: T,
        max_x: T,
        max_y: T,
        out: &mut Vec<usize>,
    )
        requires
            self.num_items > 0,
            0 <= l < self.level_bounds@.len(),
            lstart(self.level_bounds@, l) <= c < self.level_bounds@[l],
            c % 4 == 0,
            old(out)@.no_duplicates(),
            forall|k: int|
                0 <= k < old(out)@.len() ==> !id_under(
                    self.level_bounds@,
                    self.node_size as int,
                    self.num_items as int,
                    self.indices@,
                    c as int,
                    l,
                    #[trigger] old(out)@[k],
                ),
        ensures
            final(out)@.len() >= old(out)@.len(),
            forall|k: int| 0 <= k < old(out)@.len() ==> final(out)@[k] == old(out)@[k],
            forall|k: int|
                old(out)@.len() <= k < final(out)@.len() ==> #[trigger] final(out)@[k] < self.items().len()
                    && overlaps(self.items()[final(out)@[k] as int], min_x, min_y, max_x, max_y) && id_under(
                    self.level_bounds@,
                    self.node_size as int,
                    self.num_items as int,
                    self.indices@,
                    c as int,
                    l,
                    final(out)@[k],
                ),
            final(out)@.no_duplicates(),
            forall|x: int|
                #[trigger] under(self.level_bounds@, self.node_size as int, self.num_items as int, c as int, l, x)
                    && overlaps(slot(self.boxes@, x), min_x, min_y, max_x, max_y) ==> final(out)@.contains(
                    self.indices@[x] as usize,
                ),
        decreases c,
    {
        proof {
            use_type_invariant(self);
            reveal(FlatBush::tree_ok);
        }
        let ghost lb = self.level_bounds@;
        let ghost n = self.num_items as int;
        let ghost items = self.items@;
        let ghost ns = self.node_size as int;
        let ghost idx = self.indices@;
        let ghost bx = self.boxes@;
        proof {
            lemma_levels_sorted(lb, n, ns);
            if l > 0 {
                assert(lb[0] <= lb[l - 1]);
            }
            assert(lb[l] <= lb[lb.len() - 1]);
        }
        let ub = upper_bound(c, &self.level_bounds);
        proof {
            let k = choose|k: int| 0 <= k < lb.len() && lb[k] == ub;
            if k < l {
                assert(lb[k] <= lstart(lb, l));
            }
            if k > l {
                assert(lb[l] < lb[k]);
            }
        }
        let end = if c + self.node_size * 4 < ub {
            c + self.node_size * 4
        } else {
            ub
        };
        assert(end == wend(lb, ns, c as int, l));
        let ghost out0 = out@;
        let mut children: Vec<usize> = Vec::new();
        let ghost mut ys: Seq<int> = Seq::empty();
        let ghost mut ws: Seq<int> = Seq::empty();
        let mut pos: usize = c;
        while pos < end
            invariant
                c <= pos,
                pos <= end,
                pos % 4 == 0,
                end % 4 == 0,
                end == wend(lb, ns, c as int, l),
                end <= lb[l],
                lb == self.level_bounds@,
                0 <= l < lb.len(),
                lb.len() >= 2,
                lb[l] <= self.boxes@.len(),
                lstart(lb, l) <= c,
                self.boxes@.len() <= 0xC000_0010,
                self.indices@.len() == self.boxes@.len() / 4,
                n == self.num_items,
                n > 0,
                ns == self.node_size,
                ns >= 2,
                idx == self.indices@,
                bx == self.boxes@,
                items == self.items@,
                lb.last() == bx.len(),
                c < 4 * n ==> end <= 4 * n && l == 0,
                c >= 4 * n ==> l >= 1 && lstart(lb, l) >= 4 * n,
                forall|q: int| n <= q < bx.len() / 4 ==> #[trigger] child_ok(lb, idx, q),
                forall|q: int| n <= q < bx.len() / 4 ==> #[trigger] node_ok(lb, ns, idx, bx, q),
                mapped(bx, idx, items, n),
                out@.len() >= out0.len(),
                forall|k: int| 0 <= k < out0.len() ==> out@[k] == out0[k],
                forall|k: int|
                    0 <= k < out0.len() ==> !id_under(lb, ns, n, idx, c as int, l, #[trigger] out0[k]),
                out0.no_duplicates(),
                out@.no_duplicates(),
                ws.len() == out@.len() - out0.len(),
                forall|k: int|
                    0 <= k < ws.len() ==> c <= 4 * #[trigger] ws[k] < pos && 0 <= ws[k] < n && out@[out0.len() + k]
                        == idx[ws[k]] as usize && overlaps(slot(bx, ws[k]), min_x, min_y, max_x, max_y),
                l == 0 ==> forall|y: int|
                    c <= 4 * y < pos && overlaps(slot(bx, y), min_x, min_y, max_x, max_y) ==> out@.contains(
                        #[trigger] idx[y] as usize,
                    ),
                l >= 1 ==> out@ == out0,
                ys.len() == children@.len(),
                forall|k: int|
                    0 <= k < ys.len() ==> c <= 4 * #[trigger] ys[k] < pos && 0 <= ys[k] < idx.len() && children@[k]
                        == idx[ys[k]] as usize,
                forall|a: int, b: int| 0 <= a < b < ys.len() ==> ys[a] < ys[b],
                l >= 1 ==> forall|y: int|
                    c <= 4 * y < pos && overlaps(slot(bx, y), min_x, min_y, max_x, max_y) ==> #[trigger] ys.contains(y),
                l >= 1 ==> forall|k: int|
                    0 <= k < children@.len() ==> lstart(lb, l - 1) <= #[trigger] children@[k] < lb[l - 1]
                        && children@[k] % 4 == 0,
                l == 0 ==> children@.len() == 0,
            decreases end - pos,
        {
            let index = self.indices.get(pos / 4) as usize;
            let b0 = self.boxes[pos].to_i64();
            let b1 = self.boxes[pos + 1].to_i64();
            let b2 = self.boxes[pos + 2].to_i64();
            let b3 = self.boxes[pos + 3].to_i64();
            let ghost x = pos as int / 4;
            proof {
                assert(4 * x == pos);
                assert(slot(bx, x) == (bx[pos as int], bx[pos + 1], bx[pos + 2], bx[pos + 3]));
            }
            if !(max_x.to_i64() < b0 || max_y.to_i64() < b1 || min_x.to_i64() > b2 || min_y.to_i64() > b3) {
                if c < self.num_items * 4 {
                    let ghost o1 = out@;
                    proof {
                        assert(x < n);
                        assert(slot(bx, x) == items[idx[x] as int]);
                        assert(under(lb, ns, n, c as int, 0, x));
                        assert(id_under(lb, ns, n, idx, c as int, l, index));
                        assert forall|k: int| 0 <= k < o1.len() implies o1[k] != index by {
                            if k < out0.len() {
                                assert(!id_under(lb, ns, n, idx, c as int, l, out0[k]));
                            } else {
                                let w = ws[k - out0.len()];
                                assert(o1[k] == idx[w] as usize);
                                assert(w != x);
                                assert(idx[w] != idx[x]);
                            }
                        }
                    }
                    out.push(index);
                    proof {
                        ws = ws.push(x);
                        assert(out@ == o1.push(index));
                        assert forall|y: int|
                            c <= 4 * y < pos + 4 && overlaps(slot(bx, y), min_x, min_y, max_x, max_y) implies out@.contains(
                            #[trigger] idx[y] as usize,
                        ) by {
                            if y == x {
                                assert(out@[out@.len() - 1] == index);
                            } else {
                                assert(o1.contains(idx[y] as usize));
                                let k = choose|k: int| 0 <= k < o1.len() && o1[k] == idx[y] as usize;
                                assert(out@[k] == o1[k]);
                            }
                        }
                    }
                } else {
                    proof {
                        assert(child_ok(lb, idx, x));
                        assert(lstart(lb, l) <= 4 * x < lb[l]);
                        assert(lstart(lb, l - 1) <= idx[x] < lb[l - 1]);
                    }
                    let ghost ch0 = children@;
                    let ghost ys0 = ys;
                    children.push(index);
                    proof {
                        ys = ys0.push(x);
                        assert(children@ == ch0.push(index));
                        assert forall|y: int|
                            c <= 4 * y < pos + 4 && overlaps(slot(bx, y), min_x, min_y, max_x, max_y) implies #[trigger] ys.contains(y) by {
                            if y == x {
                                assert(ys[ys.len() - 1] == x);
                            } else {
                                assert(4 * y < pos);
                                assert(ys0.contains(y));
                                let k = choose|k: int| 0 <= k < ys0.len() && ys0[k] == y;
                                assert(ys[k] == y);
                            }
                        }
                    }
                }
            } else {
                proof {
                    assert(!overlaps(slot(bx, x), min_x, min_y, max_x, max_y));
                }
            }
            pos = pos + 4;
        }
        proof {
            assert forall|j: int| out0.len() <= j < out@.len() implies #[trigger] out@[j] < items.len() && overlaps(
                items[out@[j] as int],
                min_x,
                min_y,
                max_x,
                max_y,
            ) && id_under(lb, ns, n, idx, c as int, l, out@[j]) by {
                let w = ws[j - out0.len()];
                assert(out@[j] == idx[w] as usize);
                assert(slot(bx, w) == items[idx[w] as int]);
                assert(anc(lb, ns, w, l) == w) by {
                    if l > 0 {
                        assert(out@ == out0);
                    }
                }
                assert(under(lb, ns, n, c as int, l, w));
            }
        }
        let mut k = children.len();
        while k > 0
            invariant
                k <= children@.len(),
                ys.len() == children@.len(),
                forall|j: int|
                    0 <= j < ys.len() ==> c <= 4 * #[trigger] ys[j] < end && 0 <= ys[j] < idx.len() && children@[j]
                        == idx[ys[j]] as usize,
                forall|a: int, b: int| 0 <= a < b < lb.len() ==> lb[a] < lb[b],
                lb[0] == 4 * n,
                end <= lb[l],
                lb[l] <= lb.last(),
                bx.len() % 4 == 0,
                l == 0 ==> forall|y: int|
                    c <= 4 * y < end && overlaps(slot(bx, y), min_x, min_y, max_x, max_y) ==> out@.contains(
                        #[trigger] idx[y] as usize,
                    ),
                l >= 1 ==> forall|y: int|
                    c <= 4 * y < end && overlaps(slot(bx, y), min_x, min_y, max_x, max_y) ==> #[trigger] ys.contains(y),
                forall|a: int, b: int| 0 <= a < b < ys.len() ==> ys[a] < ys[b],
                l >= 1 ==> forall|j: int|
                    0 <= j < children@.len() ==> lstart(lb, l - 1) <= #[trigger] children@[j] < lb[l - 1]
                        && children@[j] % 4 == 0,
                l == 0 ==> children@.len() == 0,
                end == wend(lb, ns, c as int, l),
                lb == self.level_bounds@,
                0 <= l < lb.len(),
                lstart(lb, l) <= c,
                n == self.num_items,
                n > 0,
                ns == self.node_size,
                ns >= 2,
                idx == self.indices@,
                bx == self.boxes@,
                items == self.items@,
                levels_ok(lb, n, ns),
                lb.last() == bx.len(),
                forall|q: int| n <= q < bx.len() / 4 ==> #[trigger] node_ok(lb, ns, idx, bx, q),
                mapped(bx, idx, items, n),
                out@.len() >= out0.len(),
                forall|j: int| 0 <= j < out0.len() ==> out@[j] == out0[j],
                forall|j: int|
                    0 <= j < out0.len() ==> !id_under(lb, ns, n, idx, c as int, l, #[trigger] out0[j]),
                out@.no_duplicates(),
                forall|j: int|
                    out0.len() <= j < out@.len() ==> #[trigger] out@[j] < items.len() && overlaps(
                        items[out@[j] as int],
                        min_x,
                        min_y,
                        max_x,
                        max_y,
                    ) && id_under(lb, ns, n, idx, c as int, l, out@[j]),
                l >= 1 ==> forall|j: int|
                    out0.len() <= j < out@.len() ==> id_under_some(lb, ns, n, idx, children@, k as int, l, #[trigger] out@[j]),
                forall|j: int, x: int|
                    k <= j < children@.len() && #[trigger] under(lb, ns, n, children@[j] as int, l - 1, x)
                        && overlaps(slot(bx, x), min_x, min_y, max_x, max_y) ==> out@.contains(idx[x] as usize),
            decreases k,
        {
            k = k - 1;
            let child = children[k];
            let ghost o1 = out@;
            proof {
                assert(lstart(lb, l - 1) <= child < lb[l - 1]);
                let yk = ys[k as int];
                assert(node_ok(lb, ns, idx, bx, yk)) by {
                    assert(lb[0] <= lb[l - 1]);
                }
                assert forall|j: int| 0 <= j < o1.len() implies !id_under(lb, ns, n, idx, child as int, l - 1, #[trigger] o1[j]) by {
                    if id_under(lb, ns, n, idx, child as int, l - 1, o1[j]) {
                        let x = choose|x: int| #[trigger] under(lb, ns, n, child as int, l - 1, x) && o1[j] == idx[x] as usize;
                        lemma_child_under(lb, ns, n, idx, bx, c as int, l, yk, x);
                        if j < out0.len() {
                            assert(id_under(lb, ns, n, idx, c as int, l, out0[j]));
                        } else {
                            assert(id_under_some(lb, ns, n, idx, children@, k + 1, l, o1[j]));
                            let jj = choose|jj: int| k + 1 <= jj < children@.len() && #[trigger] id_under(lb, ns, n, idx, children@[jj] as int, l - 1, o1[j]);
                            let x2 = choose|x2: int| #[trigger] under(lb, ns, n, children@[jj] as int, l - 1, x2) && o1[j] == idx[x2] as usize;
                            assert(node_ok(lb, ns, idx, bx, ys[jj])) by {
                                assert(lb[0] <= lb[l - 1]);
                            }
                            lemma_child_under(lb, ns, n, idx, bx, c as int, l, ys[jj], x2);
                            assert(x == x2);
                            assert(ys[k as int] < ys[jj]);
                        }
                    }
                }
            }
            self.visit(child, Ghost(l - 1), min_x, min_y, max_x, max_y, out);
            proof {
                let yk = ys[k as int];
                assert forall|j: int| o1.len() <= j < out@.len() implies #[trigger] id_under(lb, ns, n, idx, c as int, l, out@[j]) by {
                    assert(out@[j] < items.len());
                    assert(id_under(lb, ns, n, idx, child as int, l - 1, out@[j]));
                    let x = choose|x: int| #[trigger] under(lb, ns, n, child as int, l - 1, x) && out@[j] == idx[x] as usize;
                    lemma_child_under(lb, ns, n, idx, bx, c as int, l, yk, x);
                }
                assert forall|j: int| out0.len() <= j < out@.len() implies id_under_some(lb, ns, n, idx, children@, k as int, l, #[trigger] out@[j]) by {
                    if j >= o1.len() {
                        assert(out@[j] < items.len());
                        assert(id_under(lb, ns, n, idx, children@[k as int] as int, l - 1, out@[j]));
                    } else {
                        assert(out@[j] == o1[j]);
                        assert(id_under_some(lb, ns, n, idx, children@, k + 1, l, o1[j]));
                        let jj = choose|jj: int| k + 1 <= jj < children@.len() && #[trigger] id_under(lb, ns, n, idx, children@[jj] as int, l - 1, o1[j]);
                        assert(id_under(lb, ns, n, idx, children@[jj] as int, l - 1, out@[j]));
                    }
                }
                assert forall|j: int, x: int|
                    k <= j < children@.len() && #[trigger] under(lb, ns, n, children@[j] as int, l - 1, x)
                        && overlaps(slot(bx, x), min_x, min_y, max_x, max_y) implies out@.contains(idx[x] as usize) by {
                    if j > k {
                        assert(o1.contains(idx[x] as usize));
                        let t = choose|t: int| 0 <= t < o1.len() && o1[t] == idx[x] as usize;
                        assert(out@[t] == o1[t]);
                    }
                }
            }
        }
        proof {
            assert forall|x: int|
                #[trigger] under(lb, ns, n, c as int, l, x) && overlaps(slot(bx, x), min_x, min_y, max_x, max_y) implies out@.contains(
                idx[x] as usize,
            ) by {
                if l == 0 {
                    assert(anc(lb, ns, x, 0) == x);
                } else {
                    let y = anc(lb, ns, x, l);
                    lemma_overlap_up(lb, ns, n, idx, bx, x, l, min_x, min_y, max_x, max_y);
                    assert(ys.contains(y));
                    let j = choose|j: int| 0 <= j < ys.len() && ys[j] == y;
                    assert(node_ok(lb, ns, idx, bx, y)) by {
                        assert(lb[0] <= lb[l - 1]);
                    }
                    lemma_child_under(lb, ns, n, idx, bx, c as int, l, y, x);
                    assert(under(lb, ns, n, children@[j] as int, l - 1, x));
                }
            }
        }
    }

    /// The identifiers of the boxes that meet the rectangle `[min_x, max_x] x
    /// [min_y, max_y]` (touching counts), each once, in traversal order.
    pub fn search_range(&self, min_x: T, min_y: T, max_x: T, max_y: T) -> (r: Vec<usize>)
        ensures
            lists_exactly(r@, self.items(), |b: Rect<T>| overlaps(b, min_x, min_y, max_x, max_y)),
    {
        proof {
            use_type_invariant(self);
            reveal(FlatBush::tree_ok);
            lemma_levels_sorted(self.level_bounds@, self.num_items as int, self.node_size as int);
        }
        let mut out: Vec<usize> = Vec::new();
        if self.num_items == 0 {
            assert(out@.no_duplicates());
            return out;
        }
        let root = self.boxes.len() - 4;
        let ghost top = self.level_bounds@.len() - 1;
        self.visit(root, Ghost(top), min_x, min_y, max_x, max_y, &mut out);
        proof {
            let lb = self.level_bounds@;
            let n = self.num_items as int;
            let ns = self.node_size as int;
            let idx = self.indices@;
            let items = self.items@;
            lemma_onto(idx.subrange(0, n), n as nat);
            assert forall|id: int| 0 <= id < items.len() && overlaps(items[id], min_x, min_y, max_x, max_y) implies #[trigger] out@.contains(id as usize) by {
                assert(idx.subrange(0, n).contains(id as u32));
                let x = choose|x: int| 0 <= x < n && idx.subrange(0, n)[x] == id as u32;
                assert(idx[x] == id as u32);
                assert(slot(self.boxes@, x) == items[id]);
                lemma_anc_level(lb, n, ns, x, top);
                assert(under(lb, ns, n, root as int, top, x));
            }
        }
        out
    }
}

/// A query by the index's own bounds lists every box exactly once, when no
/// box has a minimum above its maximum.
pub proof fn lemma_bounds_query_lists_all<T: AllowedNumber>(
    r: Seq<usize>,
    items: Seq<Rect<T>>,
    min_x: T,
    min_y: T,
    max_x: T,
    max_y: T,
)
    requires
        lists_exactly(r, items, |b: Rect<T>| overlaps(b, min_x, min_y, max_x, max_y)),
        min_x.value() == least(items, 0),
        min_y.value() == least(items, 1),
        max_x.value() == greatest(items, 2),
        max_y.value() == greatest(items, 3),
        forall|i: int|
            0 <= i < items.len() ==> (#[trigger] items[i]).0.value() <= items[i].2.value()
                && items[i].1.value() <= items[i].3.value(),
    ensures
        r.no_duplicates(),
        forall|k: int| 0 <= k < r.len() ==> #[trigger] r[k] < items.len(),
        forall|id: int| 0 <= id < items.len() ==> #[trigger] r.contains(id as usize),
{
    assert forall|id: int| 0 <= id < items.len() implies #[trigger] r.contains(id as usize) by {
        lemma_bounds_cover(items, id);
        assert(overlaps(items[id], min_x, min_y, max_x, max_y));
    }
}

} // verus!
