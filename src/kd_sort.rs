//! In-place k-d sort of points: a median selection on alternating axes that
//! leaves an implicit k-d tree in the arrays.
use vstd::prelude::*;

use crate::coord::AllowedNumber;
use crate::util::{lemma_swap_multiset, IndexVec};

verus! {

/// The coordinate of the point at position `p` on `axis` (0 for x, 1 for y).
pub open spec fn key<T: AllowedNumber>(c: Seq<T>, p: int, axis: int) -> int {
    c[2 * p + axis].value()
}

/// The point at position `p` together with its identifier.
pub open spec fn item<T: AllowedNumber>(c: Seq<T>, ids: Seq<u32>, p: int) -> (T, T, u32) {
    (c[2 * p], c[2 * p + 1], ids[p])
}

/// The points with their identifiers, position by position.
pub open spec fn items_of<T: AllowedNumber>(c: Seq<T>, ids: Seq<u32>) -> Seq<(T, T, u32)> {
    Seq::new(ids.len(), |p: int| item(c, ids, p))
}

/// `c` holds two coordinates for each identifier.
pub open spec fn paired<T: AllowedNumber>(c: Seq<T>, ids: Seq<u32>) -> bool {
    c.len() == 2 * ids.len()
}

/// The points in `[left, right]` form an implicit k-d tree: unless the range
/// is a leaf (at most `ns + 1` points), its middle point splits it on `axis`,
/// and both halves are such trees on the other axis.
pub open spec fn kd_ok<T: AllowedNumber>(c: Seq<T>, ns: nat, left: int, right: int, axis: int) -> bool
    decreases right + 1 - left,
{
    if right - left <= ns {
        true
    } else {
        let m = (left + right) / 2;
        &&& forall|p: int| left <= p < m ==> #[trigger] key(c, p, axis) <= key(c, m, axis)
        &&& forall|p: int| m < p <= right ==> key(c, m, axis) <= #[trigger] key(c, p, axis)
        &&& kd_ok(c, ns, left, m - 1, 1 - axis)
        &&& kd_ok(c, ns, m + 1, right, 1 - axis)
    }
}

/// The item now at `p` was somewhere in `[lo, hi]` before.
pub open spec fn came_from<T: AllowedNumber>(
    c2: Seq<T>,
    i2: Seq<u32>,
    c1: Seq<T>,
    i1: Seq<u32>,
    lo: int,
    hi: int,
    p: int,
) -> bool {
    exists|q: int| #![trigger item(c1, i1, q)] lo <= q <= hi && item(c2, i2, p) == item(c1, i1, q)
}

/// Every item now in `[lo, hi]` was somewhere in `[lo, hi]` before.
pub open spec fn drawn_from<T: AllowedNumber>(
    c2: Seq<T>,
    i2: Seq<u32>,
    c1: Seq<T>,
    i1: Seq<u32>,
    lo: int,
    hi: int,
) -> bool {
    forall|p: int| lo <= p <= hi ==> #[trigger] came_from(c2, i2, c1, i1, lo, hi, p)
}

/// Nothing outside `[lo, hi]` has moved.
pub open spec fn same_outside<T: AllowedNumber>(
    c2: Seq<T>,
    i2: Seq<u32>,
    c1: Seq<T>,
    i1: Seq<u32>,
    lo: int,
    hi: int,
) -> bool {
    &&& c2.len() == c1.len()
    &&& i2.len() == i1.len()
    &&& forall|p: int|
        0 <= p < i1.len() && !(lo <= p <= hi) ==> #[trigger] item(c2, i2, p) == item(c1, i1, p)
}

/// Every key in `[lo, b)` is at most every key in `[b, hi]`.
pub open spec fn split_at<T: AllowedNumber>(c: Seq<T>, axis: int, lo: int, hi: int, b: int) -> bool {
    forall|p: int, q: int|
        lo <= p < b && b <= q <= hi ==> #[trigger] key(c, p, axis) <= #[trigger] key(c, q, axis)
}

/// The items at `a` and `b` were exchanged; nothing else moved.
pub open spec fn swapped<T: AllowedNumber>(
    c2: Seq<T>,
    i2: Seq<u32>,
    c1: Seq<T>,
    i1: Seq<u32>,
    a: int,
    b: int,
) -> bool {
    &&& c2.len() == c1.len()
    &&& i2.len() == i1.len()
    &&& forall|p: int|
        0 <= p < i1.len() ==> #[trigger] item(c2, i2, p) == item(
            c1,
            i1,
            if p == a {
                b
            } else if p == b {
                a
            } else {
                p
            },
        )
}

proof fn lemma_drawn_refl<T: AllowedNumber>(c: Seq<T>, ids: Seq<u32>, lo: int, hi: int)
    ensures
        drawn_from(c, ids, c, ids, lo, hi),
        same_outside(c, ids, c, ids, lo, hi),
{
    assert forall|p: int| lo <= p <= hi implies #[trigger] came_from(c, ids, c, ids, lo, hi, p) by {
        assert(item(c, ids, p) == (c[2 * p], c[2 * p + 1], ids[p]));
    }
}

/// Rearranging a part `[lo1, hi1]` of `[lo, hi]` keeps what was drawn from
/// `[lo, hi]` drawn from it.
proof fn lemma_drawn_step<T: AllowedNumber>(
    c2: Seq<T>,
    i2: Seq<u32>,
    c1: Seq<T>,
    i1: Seq<u32>,
    c0: Seq<T>,
    i0: Seq<u32>,
    lo: int,
    hi: int,
    lo1: int,
    hi1: int,
)
    requires
        0 <= lo <= lo1,
        hi1 <= hi < i0.len(),
        drawn_from(c1, i1, c0, i0, lo, hi),
        same_outside(c1, i1, c0, i0, lo, hi),
        drawn_from(c2, i2, c1, i1, lo1, hi1),
        same_outside(c2, i2, c1, i1, lo1, hi1),
    ensures
        drawn_from(c2, i2, c0, i0, lo, hi),
        same_outside(c2, i2, c0, i0, lo, hi),
{
    assert forall|p: int| lo <= p <= hi implies #[trigger] came_from(c2, i2, c0, i0, lo, hi, p) by {
        if lo1 <= p <= hi1 {
            assert(came_from(c2, i2, c1, i1, lo1, hi1, p));
        }
        let q1 = if lo1 <= p <= hi1 {
            choose|q: int| #![trigger item(c1, i1, q)] lo1 <= q <= hi1 && item(c2, i2, p) == item(c1, i1, q)
        } else {
            p
        };
        assert(item(c2, i2, p) == item(c1, i1, q1));
        assert(came_from(c1, i1, c0, i0, lo, hi, q1));
        let q0 = choose|q: int| #![trigger item(c0, i0, q)] lo <= q <= hi && item(c1, i1, q1) == item(c0, i0, q);
        assert(item(c2, i2, p) == item(c0, i0, q0));
    }
}

/// An exchange of two items in `[lo, hi]` keeps the items drawn from `[lo, hi]`
/// and the identifiers distinct.
proof fn lemma_swap_keeps<T: AllowedNumber>(
    c2: Seq<T>,
    i2: Seq<u32>,
    c1: Seq<T>,
    i1: Seq<u32>,
    c0: Seq<T>,
    i0: Seq<u32>,
    lo: int,
    hi: int,
    a: int,
    b: int,
)
    requires
        0 <= lo <= a <= hi,
        lo <= b <= hi,
        hi < i0.len(),
        drawn_from(c1, i1, c0, i0, lo, hi),
        same_outside(c1, i1, c0, i0, lo, hi),
        swapped(c2, i2, c1, i1, a, b),
    ensures
        drawn_from(c2, i2, c0, i0, lo, hi),
        same_outside(c2, i2, c0, i0, lo, hi),
        i1.no_duplicates() ==> i2.no_duplicates(),
{
    assert forall|p: int| lo <= p <= hi implies #[trigger] came_from(c2, i2, c1, i1, lo, hi, p) by {
        let q = if p == a {
            b
        } else if p == b {
            a
        } else {
            p
        };
        assert(item(c2, i2, p) == item(c1, i1, q));
    }
    assert forall|p: int| 0 <= p < i1.len() && !(lo <= p <= hi) implies #[trigger] item(c2, i2, p)
        == item(c1, i1, p) by {
        assert(item(c2, i2, p) == item(c1, i1, p));
    }
    lemma_drawn_step(c2, i2, c1, i1, c0, i0, lo, hi, lo, hi);
    assert forall|p: int, q: int| 0 <= p < i2.len() && 0 <= q < i2.len() && p != q && i1.no_duplicates() implies i2[p]
        != i2[q] by {
        let sp = if p == a {
            b
        } else if p == b {
            a
        } else {
            p
        };
        let sq = if q == a {
            b
        } else if q == b {
            a
        } else {
            q
        };
        assert(item(c2, i2, p) == item(c1, i1, sp));
        assert(item(c2, i2, q) == item(c1, i1, sq));
    }
}

/// A split of `[lo, hi]` at `x` survives a rearrangement of a part `[a, b]`
/// that lies wholly on one side of `x`.
proof fn lemma_split_keeps<T: AllowedNumber>(
    c2: Seq<T>,
    i2: Seq<u32>,
    c1: Seq<T>,
    i1: Seq<u32>,
    axis: int,
    lo: int,
    hi: int,
    x: int,
    a: int,
    b: int,
)
    requires
        0 <= lo <= a,
        b <= hi < i1.len(),
        paired(c1, i1),
        x <= a || b < x,
        drawn_from(c2, i2, c1, i1, a, b),
        same_outside(c2, i2, c1, i1, a, b),
        split_at(c1, axis, lo, hi, x),
        0 <= axis <= 1,
    ensures
        split_at(c2, axis, lo, hi, x),
{
    assert forall|p: int, q: int| lo <= p < x && x <= q <= hi implies #[trigger] key(c2, p, axis)
        <= #[trigger] key(c2, q, axis) by {
        if a <= p <= b {
            assert(came_from(c2, i2, c1, i1, a, b, p));
        }
        if a <= q <= b {
            assert(came_from(c2, i2, c1, i1, a, b, q));
        }
        let sp = if a <= p <= b {
            choose|s: int| #![trigger item(c1, i1, s)] a <= s <= b && item(c2, i2, p) == item(c1, i1, s)
        } else {
            p
        };
        let sq = if a <= q <= b {
            choose|s: int| #![trigger item(c1, i1, s)] a <= s <= b && item(c2, i2, q) == item(c1, i1, s)
        } else {
            q
        };
        assert(item(c2, i2, p) == item(c1, i1, sp));
        assert(item(c2, i2, q) == item(c1, i1, sq));
        assert(key(c2, p, axis) == key(c1, sp, axis));
        assert(key(c2, q, axis) == key(c1, sq, axis));
    }
}

/// Exchanges the points (and identifiers) at positions `i` and `j`.
fn swap_item<T: AllowedNumber>(ids: &mut IndexVec, coords: &mut Vec<T>, i: usize, j: usize)
    requires
        paired(old(coords)@, old(ids)@),
        i < old(ids)@.len(),
        j < old(ids)@.len(),
    ensures
        final(ids).is_narrow() == old(ids).is_narrow(),
        swapped(final(coords)@, final(ids)@, old(coords)@, old(ids)@, i as int, j as int),
        paired(final(coords)@, final(ids)@),
{
    let len = coords.len();
    assert(2 * i + 1 < len && 2 * j + 1 < len);
    ids.swap(i, j);
    let a = coords[2 * i];
    let b = coords[2 * j];
    coords.set(2 * i, b);
    coords.set(2 * j, a);
    let a = coords[2 * i + 1];
    let b = coords[2 * j + 1];
    coords.set(2 * i + 1, b);
    coords.set(2 * j + 1, a);
    assert forall|p: int| 0 <= p < old(ids)@.len() implies #[trigger] item(coords@, ids@, p) == item(
        old(coords)@,
        old(ids)@,
        if p == i {
            j as int
        } else if p == j {
            i as int
        } else {
            p
        },
    ) by {}
}

/// One exchange of `swap_item` inside `[lo, hi]`, as the proofs below need it.
proof fn lemma_one_swap<T: AllowedNumber>(
    c2: Seq<T>,
    i2: Seq<u32>,
    c1: Seq<T>,
    i1: Seq<u32>,
    c0: Seq<T>,
    i0: Seq<u32>,
    lo: int,
    hi: int,
    a: int,
    b: int,
)
    requires
        0 <= lo <= a <= hi,
        lo <= b <= hi,
        hi < i0.len(),
        paired(c0, i0),
        drawn_from(c1, i1, c0, i0, lo, hi),
        same_outside(c1, i1, c0, i0, lo, hi),
        swapped(c2, i2, c1, i1, a, b),
        paired(c1, i1),
    ensures
        drawn_from(c2, i2, c0, i0, lo, hi),
        same_outside(c2, i2, c0, i0, lo, hi),
        i1.no_duplicates() ==> i2.no_duplicates(),
        items_of(c2, i2).to_multiset() == items_of(c1, i1).to_multiset(),
        paired(c2, i2),
        forall|p: int, axis: int|
            0 <= p < i1.len() && 0 <= axis <= 1 ==> #[trigger] key(c2, p, axis) == key(
                c1,
                if p == a {
                    b
                } else if p == b {
                    a
                } else {
                    p
                },
                axis,
            ),
{
    lemma_swap_keeps(c2, i2, c1, i1, c0, i0, lo, hi, a, b);
    let t1 = items_of(c1, i1);
    assert(items_of(c2, i2) =~= t1.update(a, t1[b]).update(b, t1[a])) by {
        assert forall|p: int| 0 <= p < i2.len() implies items_of(c2, i2)[p] == t1.update(a, t1[b]).update(b, t1[a])[p] by {
            assert(item(c2, i2, p) == item(c1, i1, if p == a { b } else if p == b { a } else { p }));
        }
    }
    lemma_swap_multiset(t1, a, b);
    assert forall|p: int, axis: int| 0 <= p < i1.len() && 0 <= axis <= 1 implies #[trigger] key(
        c2,
        p,
        axis,
    ) == key(
        c1,
        if p == a {
            b
        } else if p == b {
            a
        } else {
            p
        },
        axis,
    ) by {
        let s = if p == a {
            b
        } else if p == b {
            a
        } else {
            p
        };
        assert(item(c2, i2, p) == item(c1, i1, s));
    }
}

/// Partitions `[left, right]` around the key `t` that position `k` holds on
/// `axis`: returns the position `j` where a point with key `t` ends up, with
/// no greater key before it and no smaller key after it.
#[verifier::spinoff_prover]
fn partition<T: AllowedNumber>(
    ids: &mut IndexVec,
    coords: &mut Vec<T>,
    k: usize,
    left: usize,
    right: usize,
    axis: usize,
) -> (j: usize)
    requires
        paired(old(coords)@, old(ids)@),
        left < right,
        left <= k <= right,
        right < old(ids)@.len(),
        axis <= 1,
    ensures
        left <= j <= right,
        final(ids).is_narrow() == old(ids).is_narrow(),
        paired(final(coords)@, final(ids)@),
        old(ids)@.no_duplicates() ==> final(ids)@.no_duplicates(),
        items_of(final(coords)@, final(ids)@).to_multiset() == items_of(old(coords)@, old(ids)@).to_multiset(),
        drawn_from(final(coords)@, final(ids)@, old(coords)@, old(ids)@, left as int, right as int),
        same_outside(final(coords)@, final(ids)@, old(coords)@, old(ids)@, left as int, right as int),
        key(final(coords)@, j as int, axis as int) == key(old(coords)@, k as int, axis as int),
        forall|p: int|
            left <= p < j ==> #[trigger] key(final(coords)@, p, axis as int) <= key(
                old(coords)@,
                k as int,
                axis as int,
            ),
        forall|p: int|
            j < p <= right ==> key(old(coords)@, k as int, axis as int) <= #[trigger] key(
                final(coords)@,
                p,
                axis as int,
            ),
{
    let ghost c0 = coords@;
    let ghost i0 = ids@;
    let ghost ax = axis as int;
    let ghost lo = left as int;
    let ghost hi = right as int;
    proof {
        lemma_drawn_refl(c0, i0, lo, hi);
    }
    let n2 = coords.len();
    let t = coords[2 * k + axis].to_i64();
    let mut i: usize = left;
    let mut j: usize = right;

    let ghost c1 = coords@;
    let ghost i1 = ids@;
    swap_item(ids, coords, left, k);
    proof {
        lemma_one_swap(coords@, ids@, c1, i1, c0, i0, lo, hi, lo, k as int);
    }
    if coords[2 * right + axis].to_i64() > t {
        let ghost c1 = coords@;
        let ghost i1 = ids@;
        swap_item(ids, coords, left, right);
        proof {
            lemma_one_swap(coords@, ids@, c1, i1, c0, i0, lo, hi, lo, hi);
        }
    }
    // the first exchange always happens, as left < right

    let ghost c1 = coords@;
    let ghost i1 = ids@;
    swap_item(ids, coords, i, j);
    proof {
        lemma_one_swap(coords@, ids@, c1, i1, c0, i0, lo, hi, i as int, j as int);
    }
    i = i + 1;
    j = j - 1;
    assert(key(coords@, lo, ax) <= t && key(coords@, hi, ax) >= t);
    assert(key(coords@, lo, ax) == t || key(coords@, hi, ax) == t);
    while coords[2 * i + axis].to_i64() < t
        invariant
            paired(coords@, ids@),
            coords@.len() == n2,
            ids@.len() == i0.len(),
            lo == left,
            hi == right,
            lo < i <= j + 1,
            j < hi,
            hi < i0.len(),
            ax == axis,
            ax <= 1,
            forall|p: int| lo <= p < i ==> #[trigger] key(coords@, p, ax) <= t,
            forall|p: int| j < p <= hi ==> #[trigger] key(coords@, p, ax) >= t,
        decreases j + 1 - i,
    {
        assert(key(coords@, i as int, ax) < t);
        i = i + 1;
    }
    while coords[2 * j + axis].to_i64() > t
        invariant
            paired(coords@, ids@),
            coords@.len() == n2,
            ids@.len() == i0.len(),
            lo == left,
            hi == right,
            lo < i <= j + 1,
            j < hi,
            hi < i0.len(),
            ax == axis,
            ax <= 1,
            forall|p: int| lo <= p < i ==> #[trigger] key(coords@, p, ax) <= t,
            forall|p: int| j < p <= hi ==> #[trigger] key(coords@, p, ax) >= t,
        decreases j,
    {
        assert(key(coords@, j as int, ax) > t);
        j = j - 1;
    }
    while i < j
        invariant
            paired(coords@, ids@),
            coords@.len() == n2,
            ids@.len() == i0.len(),
            lo == left,
            hi == right,
            lo < i <= j + 1,
            j < hi,
            hi < i0.len(),
            ax == axis,
            ax <= 1,
            t == key(c0, k as int, ax),
            key(coords@, j as int, ax) <= t,
            key(coords@, i as int, ax) >= t,
            forall|p: int| lo <= p < i ==> #[trigger] key(coords@, p, ax) <= t,
            forall|p: int| j < p <= hi ==> #[trigger] key(coords@, p, ax) >= t,
            key(coords@, lo, ax) == t || key(coords@, hi, ax) == t,
            i0.no_duplicates() ==> ids@.no_duplicates(),
            items_of(coords@, ids@).to_multiset() == items_of(c0, i0).to_multiset(),
            ids.is_narrow() == old(ids).is_narrow(),
            drawn_from(coords@, ids@, c0, i0, lo, hi),
            same_outside(coords@, ids@, c0, i0, lo, hi),
        decreases j + 1 - i,
    {
        let ghost i_top = i;
        let ghost j_top = j;
        let ghost c1 = coords@;
        let ghost i1 = ids@;
        swap_item(ids, coords, i, j);
        proof {
            lemma_one_swap(coords@, ids@, c1, i1, c0, i0, lo, hi, i as int, j as int);
        }
        i = i + 1;
        j = j - 1;
        while coords[2 * i + axis].to_i64() < t
            invariant
                paired(coords@, ids@),
                coords@.len() == n2,
                ids@.len() == i0.len(),
                i_top < i,
                j < j_top,
                lo == left,
            hi == right,
            lo < i <= j + 1,
                j < hi,
                hi < i0.len(),
                ax == axis,
                ax <= 1,
                forall|p: int| lo <= p < i ==> #[trigger] key(coords@, p, ax) <= t,
                forall|p: int| j < p <= hi ==> #[trigger] key(coords@, p, ax) >= t,
            decreases j + 1 - i,
        {
            assert(key(coords@, i as int, ax) < t);
            i = i + 1;
        }
        while coords[2 * j + axis].to_i64() > t
            invariant
                paired(coords@, ids@),
                coords@.len() == n2,
                ids@.len() == i0.len(),
                i_top < i,
                j < j_top,
                lo == left,
            hi == right,
            lo < i <= j + 1,
                j < hi,
                hi < i0.len(),
                ax == axis,
                ax <= 1,
                forall|p: int| lo <= p < i ==> #[trigger] key(coords@, p, ax) <= t,
                forall|p: int| j < p <= hi ==> #[trigger] key(coords@, p, ax) >= t,
            decreases j,
        {
            assert(key(coords@, j as int, ax) > t);
            j = j - 1;
        }
    }

    if coords[2 * left + axis].to_i64() == t {
        let ghost c1 = coords@;
        let ghost i1 = ids@;
        swap_item(ids, coords, left, j);
        proof {
            lemma_one_swap(coords@, ids@, c1, i1, c0, i0, lo, hi, lo, j as int);
        }
    } else {
        j = j + 1;
        let ghost c1 = coords@;
        let ghost i1 = ids@;
        swap_item(ids, coords, j, right);
        proof {
            lemma_one_swap(coords@, ids@, c1, i1, c0, i0, lo, hi, j as int, hi);
        }
    }
    j
}

/// After a partition of `[left, right]` at `j` inside a range `[lo, hi]` that
/// is already split at `left` and at `right + 1`, it is split at `j` and at
/// `j + 1` too.
proof fn lemma_split_new<T: AllowedNumber>(
    c: Seq<T>,
    axis: int,
    lo: int,
    hi: int,
    left: int,
    right: int,
    j: int,
    t: int,
)
    requires
        lo <= left <= j <= right <= hi,
        split_at(c, axis, lo, hi, left),
        split_at(c, axis, lo, hi, right + 1),
        key(c, j, axis) == t,
        forall|p: int| left <= p < j ==> #[trigger] key(c, p, axis) <= t,
        forall|p: int| j < p <= right ==> t <= #[trigger] key(c, p, axis),
    ensures
        split_at(c, axis, lo, hi, j),
        split_at(c, axis, lo, hi, j + 1),
{
    assert forall|p: int, q: int| lo <= p < j + 1 && j + 1 <= q <= hi implies #[trigger] key(
        c,
        p,
        axis,
    ) <= #[trigger] key(c, q, axis) by {
        if p < left {
        } else if q > right {
        } else {
            assert(key(c, p, axis) <= t);
        }
    }
    assert forall|p: int, q: int| lo <= p < j && j <= q <= hi implies #[trigger] key(c, p, axis)
        <= #[trigger] key(c, q, axis) by {
        if p < left {
        } else if q > right {
        } else {
            assert(key(c, p, axis) <= t);
        }
    }
}

/// The integer square root of `v`.
fn isqrt(v: u64) -> (r: u64)
    ensures
        r * r <= v,
{
    let mut r: u64 = 0;
    while r < 0xffff_ffff
        invariant
            r <= 0xffff_ffff,
            r * r <= v,
        decreases 0xffff_ffff - r,
    {
        let r1: u128 = r as u128 + 1;
        assert(r1 * r1 <= 0x1_0000_0000 * 0x1_0000_0000) by (nonlinear_arith)
            requires
                r1 <= 0x1_0000_0000,
        ;
        if r1 * r1 > v as u128 {
            break;
        }
        r = r + 1;
    }
    r
}

/// The integer cube root of `v`.
fn icbrt(v: u64) -> (r: u64)
    ensures
        r * r * r <= v,
        r <= 0x20_0000,
{
    let mut r: u64 = 0;
    while r < 0x20_0000
        invariant
            r <= 0x20_0000,
            r * r * r <= v,
        decreases 0x20_0000 - r,
    {
        let r1: u128 = r as u128 + 1;
        assert(r1 * r1 <= 0x20_0000 * 0x20_0000) by (nonlinear_arith)
            requires
                r1 <= 0x20_0000,
        ;
        assert(r1 * r1 * r1 <= 0x20_0000 * 0x20_0000 * 0x20_0000) by (nonlinear_arith)
            requires
                r1 <= 0x20_0000,
        ;
        if r1 * r1 * r1 > v as u128 {
            break;
        }
        r = r + 1;
    }
    r
}

/// The range that the sampling step of Floyd-Rivest selection narrows
/// `[left, right]` to before it partitions: about `n^(2/3)` elements around
/// `k`, shifted towards the nearer end by a deviation of order
/// `sqrt(ln(n) * n^(2/3))`. It is computed in integers; whatever it returns,
/// it lies in `[left, right]`, holds `k` and is shorter than `[left, right]`.
fn sample_window(k: usize, left: usize, right: usize) -> (r: (usize, usize))
    requires
        left <= k <= right,
        right - left > 600,
    ensures
        left <= r.0 <= k <= r.1 <= right,
        r.1 - r.0 < right - left,
{
    let n: u64 = if ((right - left) as u64) < 0xffff_ffff_ffff_fffe {
        (right - left) as u64 + 1
    } else {
        0xffff_ffff_ffff_ffff
    };
    let m: u64 = if ((k - left) as u64) < 0xffff_ffff_ffff_fffe {
        (k - left) as u64 + 1
    } else {
        0xffff_ffff_ffff_ffff
    };
    // z = ln(n), from the position of the highest bit
    let mut bits: u64 = 0;
    let mut v: u64 = n;
    while v > 1
        invariant
            bits <= 64,
            v <= n,
            bits + (v as int) <= 64 + n,
        decreases v,
    {
        v = v / 2;
        if bits < 64 {
            bits = bits + 1;
        }
    }
    let z: u128 = (bits as u128) * 693 / 1000;
    // s = n^(2/3) / 2
    let c = icbrt(n);
    assert((c as u128) * (c as u128) <= 0x20_0000 * 0x20_0000) by (nonlinear_arith)
        requires
            c <= 0x20_0000,
    ;
    let s: u128 = (c as u128) * (c as u128) / 2;
    let nn: u128 = n as u128;
    let mm: u128 = if (m as u128) <= nn {
        m as u128
    } else {
        nn
    };
    let spread: u128 = if s < nn {
        assert(z * s <= 64 * (0x20_0000 * 0x20_0000)) by (nonlinear_arith)
            requires
                z <= 64,
                s <= 0x20_0000 * 0x20_0000,
        ;
        assert(z * s * (nn - s) <= 64 * (0x20_0000 * 0x20_0000) * 0x1_0000_0000_0000_0000)
            by (nonlinear_arith)
            requires
                z <= 64,
                s <= 0x20_0000 * 0x20_0000,
                nn - s <= 0x1_0000_0000_0000_0000,
        ;
        z * s * (nn - s) / nn
    } else {
        0
    };
    let sd: u128 = (isqrt(if spread <= 0xffff_ffff_ffff_ffff {
        spread as u64
    } else {
        0xffff_ffff_ffff_ffff
    }) / 2) as u128;
    assert(mm * s <= 0x1_0000_0000_0000_0000 * (0x20_0000 * 0x20_0000)) by (nonlinear_arith)
        requires
            mm <= 0x1_0000_0000_0000_0000,
            s <= 0x20_0000 * 0x20_0000,
    ;
    assert((nn - mm) * s <= 0x1_0000_0000_0000_0000 * (0x20_0000 * 0x20_0000)) by (nonlinear_arith)
        requires
            nn - mm <= 0x1_0000_0000_0000_0000,
            s <= 0x20_0000 * 0x20_0000,
    ;
    let below: u128 = mm * s / nn;
    let above: u128 = (nn - mm) * s / nn;
    let kk: u128 = k as u128;
    // new_left = k - m*s/n + sd and new_right = k + (n-m)*s/n + sd, with sd
    // negative when k lies in the lower half
    let upper_half = 2 * mm >= nn;
    let lo: u128 = if upper_half {
        if kk + sd >= below {
            kk + sd - below
        } else {
            0
        }
    } else {
        if kk >= below + sd {
            kk - below - sd
        } else {
            0
        }
    };
    let hi: u128 = if upper_half {
        kk + above + sd
    } else {
        if kk + above >= sd {
            kk + above - sd
        } else {
            0
        }
    };
    let new_left: usize = if lo <= left as u128 {
        left
    } else if lo >= kk {
        k
    } else {
        lo as usize
    };
    let new_right: usize = if hi >= right as u128 {
        right
    } else if hi <= kk {
        k
    } else {
        hi as usize
    };
    if new_right - new_left >= right - left {
        (k, k)
    } else {
        (new_left, new_right)
    }
}

/// Floyd-Rivest selection on `axis`: rearranges `[left, right]` so that the
/// point at `k` has no greater key before it and no smaller key after it.
#[verifier::spinoff_prover]
fn select<T: AllowedNumber>(
    ids: &mut IndexVec,
    coords: &mut Vec<T>,
    k: usize,
    left: usize,
    right: usize,
    axis: usize,
)
    requires
        paired(old(coords)@, old(ids)@),
        left <= k <= right,
        right < old(ids)@.len(),
        axis <= 1,
    ensures
        final(ids).is_narrow() == old(ids).is_narrow(),
        paired(final(coords)@, final(ids)@),
        old(ids)@.no_duplicates() ==> final(ids)@.no_duplicates(),
        items_of(final(coords)@, final(ids)@).to_multiset() == items_of(old(coords)@, old(ids)@).to_multiset(),
        drawn_from(final(coords)@, final(ids)@, old(coords)@, old(ids)@, left as int, right as int),
        same_outside(final(coords)@, final(ids)@, old(coords)@, old(ids)@, left as int, right as int),
        forall|p: int|
            left <= p < k ==> #[trigger] key(final(coords)@, p, axis as int) <= key(
                final(coords)@,
                k as int,
                axis as int,
            ),
        forall|p: int|
            k < p <= right ==> key(final(coords)@, k as int, axis as int) <= #[trigger] key(
                final(coords)@,
                p,
                axis as int,
            ),
    decreases right - left,
{
    let ghost c0 = coords@;
    let ghost i0 = ids@;
    let ghost ax = axis as int;
    let ghost lo0 = left as int;
    let ghost hi0 = right as int;
    proof {
        lemma_drawn_refl(c0, i0, lo0, hi0);
    }
    let len = ids.len();
    let mut lo: usize = left;
    let mut hi: usize = right;
    while hi > lo
        invariant
            len == i0.len(),
            paired(coords@, ids@),
            ids@.len() == i0.len(),
            hi0 < i0.len(),
            lo0 == left,
            hi0 == right,
            ax == axis,
            ax <= 1,
            lo0 <= lo <= k + 1,
            k <= hi + 1,
            hi <= hi0,
            (lo <= k <= hi) || (lo == k + 1 && hi + 1 == k) || (k == 0 && lo == 1 && hi == 0),
            split_at(coords@, ax, lo0, hi0, lo as int),
            split_at(coords@, ax, lo0, hi0, hi + 1),
            i0.no_duplicates() ==> ids@.no_duplicates(),
            items_of(coords@, ids@).to_multiset() == items_of(c0, i0).to_multiset(),
            ids.is_narrow() == old(ids).is_narrow(),
            drawn_from(coords@, ids@, c0, i0, lo0, hi0),
            same_outside(coords@, ids@, c0, i0, lo0, hi0),
        decreases hi + 2 - lo,
    {
        if hi - lo > 600 {
            let (new_lo, new_hi) = sample_window(k, lo, hi);
            let ghost c1 = coords@;
            let ghost i1 = ids@;
            select(ids, coords, k, new_lo, new_hi, axis);
            proof {
                lemma_drawn_step(
                    coords@,
                    ids@,
                    c1,
                    i1,
                    c0,
                    i0,
                    lo0,
                    hi0,
                    new_lo as int,
                    new_hi as int,
                );
                lemma_split_keeps(
                    coords@,
                    ids@,
                    c1,
                    i1,
                    ax,
                    lo0,
                    hi0,
                    lo as int,
                    new_lo as int,
                    new_hi as int,
                );
                lemma_split_keeps(
                    coords@,
                    ids@,
                    c1,
                    i1,
                    ax,
                    lo0,
                    hi0,
                    hi + 1,
                    new_lo as int,
                    new_hi as int,
                );
            }
        }
        let ghost c1 = coords@;
        let ghost i1 = ids@;
        let j = partition(ids, coords, k, lo, hi, axis);
        proof {
            lemma_drawn_step(coords@, ids@, c1, i1, c0, i0, lo0, hi0, lo as int, hi as int);
            lemma_split_keeps(coords@, ids@, c1, i1, ax, lo0, hi0, lo as int, lo as int, hi as int);
            lemma_split_keeps(coords@, ids@, c1, i1, ax, lo0, hi0, hi + 1, lo as int, hi as int);
            lemma_split_new(
                coords@,
                ax,
                lo0,
                hi0,
                lo as int,
                hi as int,
                j as int,
                key(c1, k as int, ax),
            );
        }
        if j <= k {
            lo = j + 1;
        }
        if k <= j {
            hi = if j == 0 {
                0
            } else {
                j - 1
            };
        }
    }
    assert(split_at(coords@, ax, lo0, hi0, k as int));
    assert(split_at(coords@, ax, lo0, hi0, k + 1));
}

/// Sorts `[left, right]` into an implicit k-d tree whose top split is on
/// `axis`: the middle point of each range longer than `node_size + 1` points
/// splits it, on alternating axes.
#[verifier::spinoff_prover]
pub fn sort_kd<T: AllowedNumber>(
    ids: &mut IndexVec,
    coords: &mut Vec<T>,
    node_size: usize,
    left: usize,
    right: usize,
    axis: usize,
)
    requires
        paired(old(coords)@, old(ids)@),
        left <= right,
        right < old(ids)@.len(),
        1 <= node_size,
        axis <= 1,
    ensures
        final(ids).is_narrow() == old(ids).is_narrow(),
        paired(final(coords)@, final(ids)@),
        old(ids)@.no_duplicates() ==> final(ids)@.no_duplicates(),
        items_of(final(coords)@, final(ids)@).to_multiset() == items_of(old(coords)@, old(ids)@).to_multiset(),
        drawn_from(final(coords)@, final(ids)@, old(coords)@, old(ids)@, left as int, right as int),
        same_outside(final(coords)@, final(ids)@, old(coords)@, old(ids)@, left as int, right as int),
        kd_ok(final(coords)@, node_size as nat, left as int, right as int, axis as int),
    decreases right - left,
{
    let ghost c0 = coords@;
    let ghost i0 = ids@;
    if right - left <= node_size {
        proof {
            lemma_drawn_refl(c0, i0, left as int, right as int);
        }
        return;
    }
    let m = left + (right - left) / 2;
    let ghost ax = axis as int;
    let ghost ns = node_size as nat;

    select(ids, coords, m, left, right, axis);
    let ghost c1 = coords@;
    let ghost i1 = ids@;

    sort_kd(ids, coords, node_size, left, m - 1, 1 - axis);
    let ghost c2 = coords@;
    let ghost i2 = ids@;
    proof {
        lemma_drawn_step(c2, i2, c1, i1, c0, i0, left as int, right as int, left as int, m - 1);
        assert forall|p: int| left <= p < m implies #[trigger] key(c2, p, ax) <= key(c2, m as int, ax) by {
            assert(came_from(c2, i2, c1, i1, left as int, m - 1, p));
            let q = choose|q: int| #![trigger item(c1, i1, q)] left <= q <= m - 1 && item(c2, i2, p) == item(c1, i1, q);
            assert(item(c2, i2, p) == item(c1, i1, q));
            assert(key(c2, p, ax) == key(c1, q, ax));
            assert(item(c2, i2, m as int) == item(c1, i1, m as int));
            assert(key(c2, m as int, ax) == key(c1, m as int, ax));
        }
        assert forall|p: int| m < p <= right implies key(c2, m as int, ax) <= #[trigger] key(c2, p, ax) by {
            assert(item(c2, i2, p) == item(c1, i1, p));
            assert(key(c2, p, ax) == key(c1, p, ax));
            assert(item(c2, i2, m as int) == item(c1, i1, m as int));
            assert(key(c2, m as int, ax) == key(c1, m as int, ax));
        }
    }

    sort_kd(ids, coords, node_size, m + 1, right, 1 - axis);
    let ghost c3 = coords@;
    let ghost i3 = ids@;
    proof {
        lemma_drawn_step(c3, i3, c2, i2, c0, i0, left as int, right as int, m + 1, right as int);
        assert forall|p: int| left <= p < m implies #[trigger] key(c3, p, ax) <= key(c3, m as int, ax) by {
            assert(item(c3, i3, p) == item(c2, i2, p));
            assert(key(c3, p, ax) == key(c2, p, ax));
            assert(item(c3, i3, m as int) == item(c2, i2, m as int));
            assert(key(c3, m as int, ax) == key(c2, m as int, ax));
        }
        assert forall|p: int| m < p <= right implies key(c3, m as int, ax) <= #[trigger] key(c3, p, ax) by {
            assert(came_from(c3, i3, c2, i2, m + 1, right as int, p));
            let q = choose|q: int| #![trigger item(c2, i2, q)] m + 1 <= q <= right && item(c3, i3, p) == item(c2, i2, q);
            assert(item(c3, i3, p) == item(c2, i2, q));
            assert(key(c3, p, ax) == key(c2, q, ax));
            assert(item(c3, i3, m as int) == item(c2, i2, m as int));
            assert(key(c3, m as int, ax) == key(c2, m as int, ax));
        }
        lemma_kd_frame(c3, i3, c2, i2, ns, left as int, m - 1, 1 - ax, m + 1, right as int);
    }
}

/// A k-d tree over `[left, right]` does not depend on the points outside it.
proof fn lemma_kd_frame<T: AllowedNumber>(
    c2: Seq<T>,
    i2: Seq<u32>,
    c1: Seq<T>,
    i1: Seq<u32>,
    ns: nat,
    left: int,
    right: int,
    axis: int,
    lo: int,
    hi: int,
)
    requires
        0 <= left,
        right < i1.len(),
        right < lo || hi < left,
        0 <= axis <= 1,
        same_outside(c2, i2, c1, i1, lo, hi),
        paired(c1, i1),
        kd_ok(c1, ns, left, right, axis),
    ensures
        kd_ok(c2, ns, left, right, axis),
    decreases right + 1 - left,
{
    if right - left > ns {
        let m = (left + right) / 2;
        assert forall|p: int| left <= p <= right implies #[trigger] key(c2, p, axis) == key(c1, p, axis) by {
            assert(item(c2, i2, p) == item(c1, i1, p));
        }
        lemma_kd_frame(c2, i2, c1, i1, ns, left, m - 1, 1 - axis, lo, hi);
        lemma_kd_frame(c2, i2, c1, i1, ns, m + 1, right, 1 - axis, lo, hi);
    }
}

} // verus!
