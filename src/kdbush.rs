//! A static k-d tree over points: built once from a list of points, then
//! queried for the points in a rectangle, in a circle or at a location.
use vstd::prelude::*;

use crate::coord::AllowedNumber;
use crate::kd_sort::{drawn_from, came_from, item, kd_ok, key, paired, same_outside, sort_kd};
use crate::util::{covers, lemma_onto, lists_exactly, IndexVec};

verus! {

/// The leaf size used when none is given.
pub const DEFAULT_NODE_SIZE: usize = 64;

/// Collects points; `finish` turns them into a `KDBush`.
pub struct KDBushBuilder<T: AllowedNumber> {
    node_size: usize,
    coords: Vec<T>,
}

/// A static k-d tree over points. Point `i` (in the order they were added)
/// has identifier `i`; the points are stored permuted so that the tree is
/// implicit in their positions.
pub struct KDBush<T: AllowedNumber> {
    node_size: usize,
    coords: Vec<T>,
    ids: IndexVec,
    points: Ghost<Seq<(T, T)>>,
}

impl<T: AllowedNumber> KDBushBuilder<T> {
    /// The builder's own consistency: two coordinates per point and a
    /// positive leaf size.
    pub closed spec fn wf(&self) -> bool {
        &&& self.coords@.len() % 2 == 0
        &&& self.node_size >= 1
    }

    /// The points added so far, in order.
    pub closed spec fn points(&self) -> Seq<(T, T)> {
        Seq::new((self.coords@.len() / 2) as nat, |i: int| (self.coords@[2 * i], self.coords@[2 * i + 1]))
    }

    /// The leaf size the index will have.
    pub closed spec fn spec_node_size(&self) -> usize {
        self.node_size
    }

    /// A builder with the default leaf size.
    pub fn new() -> (r: KDBushBuilder<T>)
        ensures
            r.wf(),
            r.points() == Seq::<(T, T)>::empty(),
            r.spec_node_size() == DEFAULT_NODE_SIZE,
    {
        KDBushBuilder::new_with_node_size(DEFAULT_NODE_SIZE)
    }

    /// A builder whose index scans ranges of at most `node_size + 1` points
    /// linearly.
    pub fn new_with_node_size(node_size: usize) -> (r: KDBushBuilder<T>)
        requires
            node_size >= 1,
        ensures
            r.wf(),
            r.points() == Seq::<(T, T)>::empty(),
            r.spec_node_size() == node_size,
    {
        let r = KDBushBuilder { coords: Vec::new(), node_size };
        assert(r.points() =~= Seq::<(T, T)>::empty());
        r
    }

    /// Appends a point; its identifier is the number of points before it.
    pub fn add(&mut self, point: [T; 2])
        requires
            old(self).wf(),
        ensures
            final(self).wf(),
            final(self).points() == old(self).points().push((point@[0], point@[1])),
            final(self).spec_node_size() == old(self).spec_node_size(),
    {
        self.coords.push(point[0]);
        self.coords.push(point[1]);
        assert(self.points() =~= old(self).points().push((point@[0], point@[1])));
    }

    /// Appends the points in order.
    pub fn extend(&mut self, points: &[[T; 2]])
        requires
            old(self).wf(),
        ensures
            final(self).wf(),
            final(self).points() == old(self).points() + points@.map_values(
                |p: [T; 2]| (p@[0], p@[1]),
            ),
            final(self).spec_node_size() == old(self).spec_node_size(),
    {
        let mut i: usize = 0;
        while i < points.len()
            invariant
                self.wf(),
                i <= points@.len(),
                self.points() == old(self).points() + points@.subrange(0, i as int).map_values(
                    |p: [T; 2]| (p@[0], p@[1]),
                ),
                self.spec_node_size() == old(self).spec_node_size(),
            decreases points@.len() - i,
        {
            self.add(points[i]);
            i = i + 1;
            assert(points@.subrange(0, i as int).map_values(|p: [T; 2]| (p@[0], p@[1])) =~= points@.subrange(
                0,
                i - 1,
            ).map_values(|p: [T; 2]| (p@[0], p@[1])).push((points@[i - 1]@[0], points@[i - 1]@[1])));
        }
        assert(points@.subrange(0, i as int) =~= points@);
    }

    /// Builds the index: identifiers `0..n` in the order of insertion,
    /// stored in 16 bits when `n < 65536`, then sorted into a k-d tree.
    pub fn finish(self) -> (r: KDBush<T>)
        requires
            self.wf(),
            self.points().len() <= 0x1_0000_0000,
        ensures
            r.points() == self.points(),
            r.spec_node_size() == self.spec_node_size(),
            r.ids_view().len() == self.points().len(),
            r.ids_view().no_duplicates(),
            forall|i: int| 0 <= i < r.ids_view().len() ==> r.ids_view()[i] < self.points().len(),
            forall|id: int|
                0 <= id < self.points().len() ==> #[trigger] r.ids_view().contains(id as u32),
            r.ids_narrow() == (self.points().len() < 65536),
            r.coords_view().len() == 2 * r.ids_view().len(),
            forall|p: int|
                0 <= p < r.ids_view().len() ==> r.coords_view()[2 * p] == self.points()[#[trigger] r.ids_view()[p] as int].0
                    && r.coords_view()[2 * p + 1] == self.points()[r.ids_view()[p] as int].1,
            self.points().len() > 0 ==> kd_ok(
                r.coords_view(),
                r.spec_node_size() as nat,
                0,
                self.points().len() - 1,
                0,
            ),
    {
        let KDBushBuilder { node_size, coords } = self;
        let mut coords = coords;
        let ghost pts = self.points();
        let num_points = coords.len() / 2;
        let mut ids = IndexVec::new_counting(num_points, num_points, num_points < 65536);
        proof {
            assert forall|p: int| 0 <= p < num_points implies item(coords@, ids@, p).0 == pts[ids@[p] as int].0
                && item(coords@, ids@, p).1 == pts[ids@[p] as int].1 by {}
            assert(ids@.no_duplicates());
        }
        if num_points > 0 {
            let ghost c0 = coords@;
            let ghost i0 = ids@;
            sort_kd(&mut ids, &mut coords, node_size, 0, num_points - 1, 0);
            proof {
                assert forall|p: int| 0 <= p < num_points implies (ids@[p] < num_points
                    && coords@[2 * p] == pts[ids@[p] as int].0 && coords@[2 * p + 1] == pts[ids@[p] as int].1) by {
                    assert(came_from(coords@, ids@, c0, i0, 0, num_points - 1, p));
                    let q = choose|q: int| #![trigger item(c0, i0, q)] 0 <= q <= num_points - 1 && item(coords@, ids@, p) == item(c0, i0, q);
                    assert(item(coords@, ids@, p) == item(c0, i0, q));
                }
            }
        }
        proof {
            lemma_onto(ids@, num_points as nat);
        }
        let r = KDBush { node_size, coords, ids, points: Ghost(pts) };
        r
    }
}

impl<T: AllowedNumber> KDBush<T> {
    #[verifier::type_invariant]
    spec fn inv(&self) -> bool {
        let n = self.ids@.len();
        &&& self.node_size >= 1
        &&& paired(self.coords@, self.ids@)
        &&& self.points@.len() == n
        &&& n <= 0x1_0000_0000
        &&& self.ids@.no_duplicates()
        &&& forall|p: int|
            0 <= p < n ==> #[trigger] self.ids@[p] < n && self.coords@[2 * p] == self.points@[self.ids@[p] as int].0
                && self.coords@[2 * p + 1] == self.points@[self.ids@[p] as int].1
        &&& covers(self.ids@, n as int)
        &&& n > 0 ==> kd_ok(self.coords@, self.node_size as nat, 0, n - 1, 0)
    }

    /// The indexed points: identifier `i` is the `i`-th point added.
    pub closed spec fn points(&self) -> Seq<(T, T)> {
        self.points@
    }

    /// The leaf size.
    pub closed spec fn spec_node_size(&self) -> usize {
        self.node_size
    }

    /// The identifiers in their stored order.
    pub closed spec fn ids_view(&self) -> Seq<u32> {
        self.ids@
    }

    /// Whether the identifiers are stored in 16 bits.
    pub closed spec fn ids_narrow(&self) -> bool {
        self.ids.is_narrow()
    }

    /// The coordinates in their stored order.
    pub closed spec fn coords_view(&self) -> Seq<T> {
        self.coords@
    }

    /// Builds an index over `points` with the given leaf size (default 64).
    pub fn new(points: &[[T; 2]], node_size: Option<usize>) -> (r: KDBush<T>)
        requires
            node_size is Some ==> node_size.unwrap() >= 1,
            points@.len() <= 0x1_0000_0000,
        ensures
            r.points() == points@.map_values(|p: [T; 2]| (p@[0], p@[1])),
            r.spec_node_size() == match node_size {
                Some(s) => s,
                None => DEFAULT_NODE_SIZE,
            },
            r.ids_view().len() == points@.len(),
            r.ids_view().no_duplicates(),
            forall|i: int| 0 <= i < r.ids_view().len() ==> r.ids_view()[i] < points@.len(),
            forall|id: int| 0 <= id < points@.len() ==> #[trigger] r.ids_view().contains(id as u32),
            r.ids_narrow() == (points@.len() < 65536),
            r.coords_view().len() == 2 * r.ids_view().len(),
            forall|p: int|
                0 <= p < r.ids_view().len() ==> r.coords_view()[2 * p] == r.points()[#[trigger] r.ids_view()[p] as int].0
                    && r.coords_view()[2 * p + 1] == r.points()[r.ids_view()[p] as int].1,
            points@.len() > 0 ==> kd_ok(
                r.coords_view(),
                r.spec_node_size() as nat,
                0,
                points@.len() - 1,
                0,
            ),
    {
        let size = match node_size {
            Some(s) => s,
            None => DEFAULT_NODE_SIZE,
        };
        let mut builder = KDBushBuilder::new_with_node_size(size);
        builder.extend(points);
        assert(builder.points() =~= points@.map_values(|p: [T; 2]| (p@[0], p@[1])));
        builder.finish()
    }

    /// The identifiers in their stored order: entry `i` is the identifier of
    /// the point stored at position `i`.
    pub fn ids(&self) -> (r: &IndexVec)
        ensures
            r@ == self.ids_view(),
            r.is_narrow() == self.ids_narrow(),
    {
        &self.ids
    }

    /// The coordinates in their stored order, two per point.
    pub fn coords(&self) -> (r: &Vec<T>)
        ensures
            r@ == self.coords_view(),
    {
        &self.coords
    }

    /// The leaf size.
    pub fn node_size(&self) -> (r: usize)
        ensures
            r == self.spec_node_size(),
    {
        self.node_size
    }
}

/// `p` lies in the rectangle `[min_x, max_x] x [min_y, max_y]`, bounds included.
pub open spec fn in_rect<T: AllowedNumber>(p: (T, T), min_x: T, min_y: T, max_x: T, max_y: T) -> bool {
    &&& min_x.value() <= p.0.value() <= max_x.value()
    &&& min_y.value() <= p.1.value() <= max_y.value()
}

/// The squared Euclidean distance between `(ax, ay)` and `(bx, by)`.
pub open spec fn sq_dist_spec(ax: int, ay: int, bx: int, by: int) -> int {
    (ax - bx) * (ax - bx) + (ay - by) * (ay - by)
}

/// `p` lies within distance `r` of `(qx, qy)`: its squared distance is at
/// most `r * r` (so a negative radius acts as its absolute value).
pub open spec fn in_circle<T: AllowedNumber>(p: (T, T), qx: T, qy: T, r: T) -> bool {
    sq_dist_spec(p.0.value(), p.1.value(), qx.value(), qy.value()) <= r.value() * r.value()
}

/// The absolute value of `x`.
pub open spec fn abs_int(x: int) -> int {
    if x < 0 {
        -x
    } else {
        x
    }
}

/// `p` is the point `(qx, qy)`.
pub open spec fn at_spot<T: AllowedNumber>(p: (T, T), qx: T, qy: T) -> bool {
    p.0.value() == qx.value() && p.1.value() == qy.value()
}

/// What a traversal of the tree looks for.
enum Shape<T> {
    Rect(T, T, T, T),
    Circle(T, T, T),
    Spot(T, T),
}

spec fn wants<T: AllowedNumber>(s: Shape<T>, p: (T, T)) -> bool {
    match s {
        Shape::Rect(a, b, c, d) => in_rect(p, a, b, c, d),
        Shape::Circle(qx, qy, r) => in_circle(p, qx, qy, r),
        Shape::Spot(qx, qy) => at_spot(p, qx, qy),
    }
}

/// The lower half under a split at value `v` on `axis` may hold wanted points.
spec fn go_low<T: AllowedNumber>(s: Shape<T>, axis: int, v: int) -> bool {
    match s {
        Shape::Rect(a, b, _, _) => if axis == 0 { a.value() <= v } else { b.value() <= v },
        Shape::Circle(qx, qy, r) => if axis == 0 {
            qx.value() - abs_int(r.value()) <= v
        } else {
            qy.value() - abs_int(r.value()) <= v
        },
        Shape::Spot(qx, qy) => if axis == 0 { qx.value() <= v } else { qy.value() <= v },
    }
}

/// The upper half under a split at value `v` on `axis` may hold wanted points.
spec fn go_high<T: AllowedNumber>(s: Shape<T>, axis: int, v: int) -> bool {
    match s {
        Shape::Rect(_, _, c, d) => if axis == 0 { c.value() >= v } else { d.value() >= v },
        Shape::Circle(qx, qy, r) => if axis == 0 {
            qx.value() + abs_int(r.value()) >= v
        } else {
            qy.value() + abs_int(r.value()) >= v
        },
        Shape::Spot(qx, qy) => if axis == 0 { qx.value() >= v } else { qy.value() >= v },
    }
}

/// No wanted point lies beyond a side that the traversal skips.
proof fn lemma_prune<T: AllowedNumber>(s: Shape<T>, axis: int, v: int, p: (T, T))
    requires
        0 <= axis <= 1,
    ensures
        !go_low(s, axis, v) && (if axis == 0 { p.0.value() } else { p.1.value() }) <= v ==> !wants(s, p),
        !go_high(s, axis, v) && (if axis == 0 { p.0.value() } else { p.1.value() }) >= v ==> !wants(s, p),
{
    match s {
        Shape::Circle(qx, qy, r) => {
            let dx = p.0.value() - qx.value();
            let dy = p.1.value() - qy.value();
            let rr = abs_int(r.value());
            assert(rr * rr == r.value() * r.value()) by (nonlinear_arith)
                requires
                    rr == r.value() || rr == -r.value(),
            ;
            assert(dx * dx >= 0 && dy * dy >= 0) by (nonlinear_arith);
            if dx > rr || -dx > rr {
                assert(dx * dx > rr * rr) by (nonlinear_arith)
                    requires
                        dx > rr || -dx > rr,
                        rr >= 0,
                ;
            }
            if dy > rr || -dy > rr {
                assert(dy * dy > rr * rr) by (nonlinear_arith)
                    requires
                        dy > rr || -dy > rr,
                        rr >= 0,
                ;
            }
        },
        _ => {},
    }
}

/// The squared Euclidean distance between `(ax, ay)` and `(bx, by)`, exact.
fn sq_dist<T: AllowedNumber>(ax: T, ay: T, bx: T, by: T) -> (r: i128)
    ensures
        r == sq_dist_spec(ax.value(), ay.value(), bx.value(), by.value()),
{
    proof {
        ax.lemma_range();
        ay.lemma_range();
        bx.lemma_range();
        by.lemma_range();
        T::lemma_limits();
    }
    let dx: i128 = ax.to_i64() as i128 - bx.to_i64() as i128;
    let dy: i128 = ay.to_i64() as i128 - by.to_i64() as i128;
    assert(dx * dx <= 0x2_0000_0000 * 0x2_0000_0000 && dy * dy <= 0x2_0000_0000 * 0x2_0000_0000)
        by (nonlinear_arith)
        requires
            -0x2_0000_0000 <= dx <= 0x2_0000_0000,
            -0x2_0000_0000 <= dy <= 0x2_0000_0000,
    ;
    assert(dx * dx >= 0 && dy * dy >= 0) by (nonlinear_arith);
    dx * dx + dy * dy
}

fn test_point<T: AllowedNumber>(s: &Shape<T>, x: T, y: T) -> (b: bool)
    ensures
        b == wants(*s, (x, y)),
{
    proof {
        x.lemma_range();
        y.lemma_range();
        T::lemma_limits();
    }
    match s {
        Shape::Rect(min_x, min_y, max_x, max_y) => {
            let (xv, yv) = (x.to_i64(), y.to_i64());
            xv >= min_x.to_i64() && xv <= max_x.to_i64() && yv >= min_y.to_i64() && yv
                <= max_y.to_i64()
        },
        Shape::Circle(qx, qy, r) => {
            proof {
                r.lemma_range();
            }
            let rv = r.to_i64() as i128;
            assert(rv * rv <= 0x1_0000_0000 * 0x1_0000_0000) by (nonlinear_arith)
                requires
                    -0x1_0000_0000 <= rv <= 0x1_0000_0000,
            ;
            assert(rv * rv >= 0) by (nonlinear_arith);
            sq_dist(x, y, *qx, *qy) <= rv * rv
        },
        Shape::Spot(qx, qy) => x.to_i64() == qx.to_i64() && y.to_i64() == qy.to_i64(),
    }
}

/// Which halves under a split at `(x, y)` on `axis` the traversal visits.
fn descend<T: AllowedNumber>(s: &Shape<T>, axis: usize, x: T, y: T) -> (r: (bool, bool))
    requires
        axis <= 1,
    ensures
        r.0 == go_low(*s, axis as int, if axis == 0 { x.value() } else { y.value() }),
        r.1 == go_high(*s, axis as int, if axis == 0 { x.value() } else { y.value() }),
{
    proof {
        x.lemma_range();
        y.lemma_range();
        T::lemma_limits();
    }
    let v = if axis == 0 { x.to_i64() } else { y.to_i64() };
    match s {
        Shape::Rect(min_x, min_y, max_x, max_y) => if axis == 0 {
            (min_x.to_i64() <= v, max_x.to_i64() >= v)
        } else {
            (min_y.to_i64() <= v, max_y.to_i64() >= v)
        },
        Shape::Circle(qx, qy, r) => {
            proof {
                qx.lemma_range();
                qy.lemma_range();
                r.lemma_range();
            }
            let ra = if r.to_i64() < 0 {
                -r.to_i64()
            } else {
                r.to_i64()
            };
            if axis == 0 {
                (qx.to_i64() - ra <= v, qx.to_i64() + ra >= v)
            } else {
                (qy.to_i64() - ra <= v, qy.to_i64() + ra >= v)
            }
        },
        Shape::Spot(qx, qy) => if axis == 0 {
            (qx.to_i64() <= v, qx.to_i64() >= v)
        } else {
            (qy.to_i64() <= v, qy.to_i64() >= v)
        },
    }
}

/// Position `p` lies in one of the ranges on the stack.
spec fn in_stack(st: Seq<(usize, usize, usize)>, p: int) -> bool {
    exists|j: int| 0 <= j < st.len() && #[trigger] st[j].0 <= p <= st[j].1
}

/// The number of positions in a range.
spec fn span(e: (usize, usize, usize)) -> nat {
    if e.0 <= e.1 {
        (e.1 - e.0 + 1) as nat
    } else {
        0
    }
}

/// The number of positions in the ranges on the stack.
spec fn pending(st: Seq<(usize, usize, usize)>) -> nat
    decreases st.len(),
{
    if st.len() == 0 {
        0
    } else {
        pending(st.drop_last()) + span(st.last())
    }
}

impl<T: AllowedNumber> KDBush<T> {
    /// The point stored at position `p` wanted by `s`.
    spec fn wanted_at(&self, s: Shape<T>, p: int) -> bool {
        wants(s, (self.coords@[2 * p], self.coords@[2 * p + 1]))
    }

    /// Walks the implicit tree from the root with a stack of
    /// `(left, right, axis)` ranges, scanning leaves linearly and skipping
    /// the halves that cannot hold a wanted point.
    #[verifier::rlimit(40)]
    #[verifier::spinoff_prover]
    fn search(&self, s: &Shape<T>) -> (out: Vec<usize>)
        ensures
            lists_exactly(out@, self.points(), |p: (T, T)| wants(*s, p)),
    {
        proof {
            use_type_invariant(self);
        }
        let n = self.ids.len();
        let mut out: Vec<usize> = Vec::new();
        if n == 0 {
            return out;
        }
        let ns = self.node_size;
        let clen = self.coords.len();
        let ghost c = self.coords@;
        let ghost ids = self.ids@;
        let mut stack: Vec<(usize, usize, usize)> = Vec::new();
        stack.push((0, n - 1, 0));
        let ghost mut seen: Seq<int> = Seq::empty();
        proof {
            assert forall|p: int| 0 <= p < n implies in_stack(stack@, p) by {
                assert(stack@[0].0 <= p <= stack@[0].1);
            }
            assert(pending(stack@.drop_last()) == 0);
        }
        while stack.len() > 0
            invariant
                n == ids.len(),
                n > 0,
                clen == c.len(),
                c == self.coords@,
                ids == self.ids@,
                ns == self.node_size,
                ns >= 1,
                paired(c, ids),
                forall|j: int|
                    0 <= j < stack@.len() ==> (#[trigger] stack@[j]).0 <= stack@[j].1 < n
                        && stack@[j].2 <= 1 && kd_ok(c, ns as nat, stack@[j].0 as int, stack@[j].1 as int, stack@[j].2 as int),
                forall|j1: int, j2: int|
                    0 <= j1 < stack@.len() && 0 <= j2 < stack@.len() && j1 != j2 ==> (#[trigger] stack@[j1]).1
                        < (#[trigger] stack@[j2]).0 || stack@[j2].1 < stack@[j1].0,
                out@.len() == seen.len(),
                forall|k: int|
                    0 <= k < seen.len() ==> 0 <= #[trigger] seen[k] < n && out@[k] == ids[seen[k]] as usize
                        && self.wanted_at(*s, seen[k]) && !in_stack(stack@, seen[k]),
                seen.no_duplicates(),
                forall|p: int|
                    0 <= p < n && #[trigger] self.wanted_at(*s, p) ==> seen.contains(p) || in_stack(stack@, p),
            decreases pending(stack@),
        {
            let ghost st0 = stack@;
            let (left, right, axis) = match stack.pop() {
                Some(e) => e,
                None => (0, 0, 0),
            };
            let ghost st1 = stack@;
            proof {
                assert(st1 =~= st0.drop_last());
                assert(pending(st0) == pending(st1) + span(st0.last()));
                assert forall|q: int| in_stack(st1, q) implies in_stack(st0, q) by {
                    let j = choose|j: int| 0 <= j < st1.len() && #[trigger] st1[j].0 <= q <= st1[j].1;
                    assert(st0[j] == st1[j]);
                }
                assert forall|q: int| in_stack(st0, q) && !(left <= q <= right) implies in_stack(st1, q) by {
                    let j = choose|j: int| 0 <= j < st0.len() && #[trigger] st0[j].0 <= q <= st0[j].1;
                    assert(j != st0.len() - 1);
                    assert(st0[j] == st1[j]);
                }
                assert forall|q: int| left <= q <= right implies !in_stack(st1, q) by {
                    if in_stack(st1, q) {
                        let j = choose|j: int| 0 <= j < st1.len() && #[trigger] st1[j].0 <= q <= st1[j].1;
                        assert(st0[j] == st1[j]);
                        assert(st0[st0.len() - 1] == (left, right, axis));
                    }
                }
            }
            if right - left <= ns {
                let mut i: usize = left;
                while i <= right
                    invariant
                        n == ids.len(),
                        clen == c.len(),
                        c == self.coords@,
                        ids == self.ids@,
                        paired(c, ids),
                        left <= i <= right + 1,
                        right < n,
                        stack@ == st1,
                        out@.len() == seen.len(),
                        forall|k: int|
                            0 <= k < seen.len() ==> 0 <= #[trigger] seen[k] < n && out@[k] == ids[seen[k]] as usize
                                && self.wanted_at(*s, seen[k]) && !in_stack(stack@, seen[k]) && !(i <= seen[k] <= right),
                        seen.no_duplicates(),
                        forall|p: int|
                            0 <= p < n && #[trigger] self.wanted_at(*s, p) ==> seen.contains(p) || in_stack(stack@, p) || (i <= p <= right),
                        forall|q: int| left <= q <= right ==> !in_stack(st1, q),
                    decreases right + 1 - i,
                {
                    let ghost seen0 = seen;
                    if test_point(s, self.coords[2 * i], self.coords[2 * i + 1]) {
                        out.push(self.ids.get(i) as usize);
                        proof {
                            seen = seen.push(i as int);
                            assert(seen[seen.len() - 1] == i);
                            assert forall|q: int| seen0.contains(q) implies seen.contains(q) by {
                                let k = choose|k: int| 0 <= k < seen0.len() && seen0[k] == q;
                                assert(seen[k] == seen0[k]);
                            }
                        }
                    } else {
                        assert(!self.wanted_at(*s, i as int));
                    }
                    i = i + 1;
                }
                proof {
                    assert(pending(st0) == pending(st1) + (right - left + 1));
                }
                continue;
            }
            let m = left + (right - left) / 2;
            let x = self.coords[2 * m];
            let y = self.coords[2 * m + 1];
            let ghost seen0 = seen;
            if test_point(s, x, y) {
                out.push(self.ids.get(m) as usize);
                proof {
                    seen = seen.push(m as int);
                    assert(seen[seen.len() - 1] == m);
                    assert forall|q: int| seen0.contains(q) implies seen.contains(q) by {
                        let k = choose|k: int| 0 <= k < seen0.len() && seen0[k] == q;
                        assert(seen[k] == seen0[k]);
                    }
                }
            } else {
                assert(!self.wanted_at(*s, m as int));
            }
            let (low, high) = descend(s, axis, x, y);
            proof {
                assert(kd_ok(c, ns as nat, left as int, right as int, axis as int));
                assert forall|p: int| left <= p < m && !low implies !#[trigger] self.wanted_at(*s, p) by {
                    assert(key(c, p, axis as int) <= key(c, m as int, axis as int));
                    lemma_prune(*s, axis as int, if axis == 0 { x.value() } else { y.value() }, (c[2 * p], c[2 * p + 1]));
                }
                assert forall|p: int| m < p <= right && !high implies !#[trigger] self.wanted_at(*s, p) by {
                    assert(key(c, m as int, axis as int) <= key(c, p, axis as int));
                    lemma_prune(*s, axis as int, if axis == 0 { x.value() } else { y.value() }, (c[2 * p], c[2 * p + 1]));
                }
            }
            let ghost st2 = stack@;
            if low {
                stack.push((left, m - 1, 1 - axis));
            }
            let ghost st3 = stack@;
            if high {
                stack.push((m + 1, right, 1 - axis));
            }
            proof {
                let st4 = stack@;
                assert forall|q: int| in_stack(st4, q) implies (in_stack(st1, q) || (left <= q <= right && q != m)) by {
                    let j = choose|j: int| 0 <= j < st4.len() && #[trigger] st4[j].0 <= q <= st4[j].1;
                    if j < st1.len() {
                        assert(st1[j] == st4[j]);
                    }
                }
                assert forall|q: int| in_stack(st1, q) implies in_stack(st4, q) by {
                    let j = choose|j: int| 0 <= j < st1.len() && #[trigger] st1[j].0 <= q <= st1[j].1;
                    assert(st1[j] == st4[j]);
                }
                if low {
                    assert forall|q: int| left <= q <= m - 1 implies in_stack(st4, q) by {
                        assert(st4[st1.len() as int] == (left, (m - 1) as usize, (1 - axis) as usize));
                        assert(st4[st1.len() as int].0 <= q <= st4[st1.len() as int].1);
                    }
                }
                if high {
                    assert forall|q: int| m + 1 <= q <= right implies in_stack(st4, q) by {
                        assert(st4[st4.len() - 1] == ((m + 1) as usize, right, (1 - axis) as usize));
                        assert(st4[st4.len() - 1].0 <= q <= st4[st4.len() - 1].1);
                    }
                }
                if low && high {
                    assert(st4.drop_last() =~= st3);
                    assert(st3.drop_last() =~= st1);
                    assert(pending(st4) == pending(st3) + span(st4.last()));
                    assert(pending(st3) == pending(st1) + span(st3.last()));
                } else if low {
                    assert(st4.drop_last() =~= st1);
                    assert(pending(st4) == pending(st1) + span(st4.last()));
                } else if high {
                    assert(st4.drop_last() =~= st1);
                    assert(pending(st4) == pending(st1) + span(st4.last()));
                }
            }
        }
        proof {
            use_type_invariant(self);
            let pts = self.points();
            assert forall|k: int| 0 <= k < out@.len() implies #[trigger] out@[k] < pts.len() && wants(*s, pts[out@[k] as int]) by {
                let p = seen[k];
                assert(ids[p] < n);
                assert((c[2 * p], c[2 * p + 1]) == pts[ids[p] as int]);
            }
            assert forall|id: int| 0 <= id < pts.len() && wants(*s, pts[id]) implies #[trigger] out@.contains(id as usize) by {
                assert(self.ids@.contains(id as u32));
                let p = choose|p: int| 0 <= p < ids.len() && ids[p] == id as u32;
                assert(ids[p] < n);
                assert((c[2 * p], c[2 * p + 1]) == pts[id]);
                assert(self.wanted_at(*s, p));
                assert(seen.contains(p));
                let k = choose|k: int| 0 <= k < seen.len() && seen[k] == p;
                assert(out@[k] == id as usize);
            }
            assert forall|k1: int, k2: int| 0 <= k1 < out@.len() && 0 <= k2 < out@.len() && k1 != k2 implies out@[k1] != out@[k2] by {
                assert(seen[k1] != seen[k2]);
                assert(ids[seen[k1]] != ids[seen[k2]]);
            }
        }
        out
    }

    /// The identifiers of the points in the rectangle `[min_x, max_x] x
    /// [min_y, max_y]`, bounds included, each once, in traversal order.
    pub fn search_range(&self, min_x: T, min_y: T, max_x: T, max_y: T) -> (r: Vec<usize>)
        ensures
            lists_exactly(r@, self.points(), |p: (T, T)| in_rect(p, min_x, min_y, max_x, max_y)),
    {
        let s = Shape::Rect(min_x, min_y, max_x, max_y);
        self.search(&s)
    }

    /// The identifiers of the points within distance `r` of `(qx, qy)`,
    /// each once, in traversal order: those whose squared distance is at
    /// most `r * r`.
    pub fn within(&self, qx: T, qy: T, r: T) -> (res: Vec<usize>)
        ensures
            lists_exactly(res@, self.points(), |p: (T, T)| in_circle(p, qx, qy, r)),
    {
        let s = Shape::Circle(qx, qy, r);
        self.search(&s)
    }

    /// The identifiers of the points equal to `(qx, qy)`, each once, in
    /// traversal order.
    pub fn exact(&self, qx: T, qy: T) -> (r: Vec<usize>)
        ensures
            lists_exactly(r@, self.points(), |p: (T, T)| at_spot(p, qx, qy)),
    {
        let s = Shape::Spot(qx, qy);
        self.search(&s)
    }
}

/// A rectangle query whose rectangle holds every point, such as the points'
/// own bounds, lists every identifier exactly once.
pub proof fn lemma_covering_range_lists_all<T: AllowedNumber>(
    r: Seq<usize>,
    points: Seq<(T, T)>,
    min_x: T,
    min_y: T,
    max_x: T,
    max_y: T,
)
    requires
        lists_exactly(r, points, |p: (T, T)| in_rect(p, min_x, min_y, max_x, max_y)),
        forall|i: int| 0 <= i < points.len() ==> in_rect(#[trigger] points[i], min_x, min_y, max_x, max_y),
    ensures
        r.no_duplicates(),
        forall|k: int| 0 <= k < r.len() ==> #[trigger] r[k] < points.len(),
        forall|id: int| 0 <= id < points.len() ==> #[trigger] r.contains(id as usize),
{
    assert forall|id: int| 0 <= id < points.len() implies #[trigger] r.contains(id as usize) by {
        assert(in_rect(points[id], min_x, min_y, max_x, max_y));
    }
}

} // verus!
