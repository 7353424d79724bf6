//! A dense vector of identifiers, stored in 16 or 32 bits per entry.
use vstd::prelude::*;
use vstd::set_lib::{lemma_int_range, lemma_subset_equality, set_int_range};

verus! {

/// Identifiers stored as `u16` when all of them fit, else as `u32`. The width
/// is chosen when the vector is made and never changes.
#[derive(Debug, PartialEq, Eq)]
pub enum IndexVec {
    U16(Vec<u16>),
    U32(Vec<u32>),
}

/// `r` lists, once each, exactly the identifiers `i` of `items` for which
/// `pred(items[i])` holds.
pub open spec fn lists_exactly<A>(r: Seq<usize>, items: Seq<A>, pred: spec_fn(A) -> bool) -> bool {
    &&& r.no_duplicates()
    &&& forall|k: int| 0 <= k < r.len() ==> #[trigger] r[k] < items.len() && pred(items[r[k] as int])
    &&& forall|id: int| 0 <= id < items.len() && pred(items[id]) ==> #[trigger] r.contains(id as usize)
}

/// Each identifier below `n` occurs in `ids`.
pub open spec fn covers(ids: Seq<u32>, n: int) -> bool {
    forall|id: int| 0 <= id < n ==> #[trigger] ids.contains(id as u32)
}

/// A sequence of `n` distinct identifiers below `n` holds each of them.
pub proof fn lemma_onto(s: Seq<u32>, n: nat)
    requires
        s.len() == n,
        s.no_duplicates(),
        forall|i: int| 0 <= i < n ==> s[i] < n,
    ensures
        covers(s, n as int),
{
    let t = s.map_values(|x: u32| x as int);
    assert(t.no_duplicates()) by {
        assert forall|i: int, j: int| 0 <= i < t.len() && 0 <= j < t.len() && i != j implies t[i]
            != t[j] by {
            assert(s[i] != s[j]);
        }
    }
    t.unique_seq_to_set();
    lemma_int_range(0, n as int);
    assert(t.to_set().subset_of(set_int_range(0, n as int))) by {
        assert forall|x: int| t.to_set().contains(x) implies set_int_range(0, n as int).contains(x) by {
            assert(t.contains(x));
            let i = choose|i: int| 0 <= i < t.len() && t[i] == x;
            assert(s[i] < n);
        }
    }
    vstd::seq_lib::seq_to_set_is_finite(t);
    lemma_subset_equality(t.to_set(), set_int_range(0, n as int));
    assert forall|id: int| 0 <= id < n implies #[trigger] s.contains(id as u32) by {
        assert(set_int_range(0, n as int).contains(id));
        assert(t.to_set().contains(id));
        assert(t.contains(id));
        let p = choose|p: int| 0 <= p < t.len() && t[p] == id;
        assert(s[p] == id as u32);
    }
}

/// Exchanging two entries keeps the multiset of a sequence.
pub proof fn lemma_swap_multiset<A>(s: Seq<A>, a: int, b: int)
    requires
        0 <= a < s.len(),
        0 <= b < s.len(),
    ensures
        s.update(a, s[b]).update(b, s[a]).to_multiset() == s.to_multiset(),
{
    if a == b {
        assert(s.update(a, s[b]).update(b, s[a]) =~= s);
    } else {
        let s1 = s.update(a, s[b]);
        vstd::seq_lib::to_multiset_update(s, a, s[b]);
        vstd::seq_lib::to_multiset_update(s1, b, s[a]);
        assert(s1[b] == s[b]);
        s.to_multiset_ensures();
        assert(s.contains(s[a]));
        let m = s.to_multiset();
        assert(m.count(s[a]) > 0);
        assert(m.insert(s[b]).remove(s[a]).insert(s[a]).remove(s[b]) =~= m) by {
            broadcast use vstd::multiset::group_multiset_axioms;
        }
    }
}

impl View for IndexVec {
    type V = Seq<u32>;

    open spec fn view(&self) -> Seq<u32> {
        match self {
            IndexVec::U16(v) => v@.map_values(|x: u16| x as u32),
            IndexVec::U32(v) => v@,
        }
    }
}

impl IndexVec {
    /// Whether the entries are stored in 16 bits.
    pub open spec fn is_narrow(&self) -> bool {
        self is U16
    }

    /// What storing `val` keeps of it: its low 16 bits in a narrow vector.
    pub open spec fn stored(&self, val: u32) -> u32 {
        if self.is_narrow() {
            (val % 0x10000) as u32
        } else {
            val
        }
    }

    /// A vector of `len` entries where entry `i` is `i` for `i < count` and
    /// zero after; narrow when `narrow` is set.
    pub(crate) fn new_counting(len: usize, count: usize, narrow: bool) -> (r: IndexVec)
        requires
            count <= len,
            narrow ==> count <= 0x10000,
            !narrow ==> count <= 0x1_0000_0000,
        ensures
            r.is_narrow() == narrow,
            r@.len() == len,
            forall|i: int| 0 <= i < count ==> r@[i] == i,
            forall|i: int| count <= i < len ==> r@[i] == 0,
    {
        if narrow {
            let mut v: Vec<u16> = Vec::new();
            let mut i: usize = 0;
            while i < len
                invariant
                    i <= len,
                    count <= len,
                    count <= 0x10000,
                    v@.len() == i,
                    forall|k: int| 0 <= k < i && k < count ==> v@[k] == k,
                    forall|k: int| count <= k < i ==> v@[k] == 0,
                decreases len - i,
            {
                if i < count {
                    v.push(i as u16);
                } else {
                    v.push(0);
                }
                i = i + 1;
            }
            IndexVec::U16(v)
        } else {
            let mut v: Vec<u32> = Vec::new();
            let mut i: usize = 0;
            while i < len
                invariant
                    i <= len,
                    count <= len,
                    count <= 0x1_0000_0000,
                    v@.len() == i,
                    forall|k: int| 0 <= k < i && k < count ==> v@[k] == k,
                    forall|k: int| count <= k < i ==> v@[k] == 0,
                decreases len - i,
            {
                if i < count {
                    v.push(i as u32);
                } else {
                    v.push(0);
                }
                i = i + 1;
            }
            IndexVec::U32(v)
        }
    }

    /// The identifier at `idx`.
    pub fn get(&self, idx: usize) -> (r: u32)
        requires
            idx < self@.len(),
        ensures
            r == self@[idx as int],
    {
        match self {
            IndexVec::U16(v) => v[idx] as u32,
            IndexVec::U32(v) => v[idx],
        }
    }

    /// Stores `val` at `idx`, truncated to 16 bits in a narrow vector.
    pub fn set(&mut self, idx: usize, val: u32)
        requires
            idx < old(self)@.len(),
        ensures
            final(self).is_narrow() == old(self).is_narrow(),
            final(self)@ == old(self)@.update(idx as int, old(self).stored(val)),
    {
        match self {
            IndexVec::U16(v) => {
                v.set(idx, (val % 0x10000) as u16);
                assert(self@ =~= old(self)@.update(idx as int, old(self).stored(val)));
            },
            IndexVec::U32(v) => {
                v.set(idx, val);
            },
        }
    }

    /// Exchanges the entries at `i` and `j`.
    pub fn swap(&mut self, i: usize, j: usize)
        requires
            i < old(self)@.len(),
            j < old(self)@.len(),
        ensures
            final(self).is_narrow() == old(self).is_narrow(),
            final(self)@ == old(self)@.update(i as int, old(self)@[j as int]).update(
                j as int,
                old(self)@[i as int],
            ),
    {
        match self {
            IndexVec::U16(v) => {
                let a = v[i];
                let b = v[j];
                v.set(i, b);
                v.set(j, a);
                assert(self@ =~= old(self)@.update(i as int, old(self)@[j as int]).update(
                    j as int,
                    old(self)@[i as int],
                ));
            },
            IndexVec::U32(v) => {
                let a = v[i];
                let b = v[j];
                v.set(i, b);
                v.set(j, a);
            },
        }
    }

    /// The number of entries.
    pub fn len(&self) -> (r: usize)
        ensures
            r == self@.len(),
    {
        match self {
            IndexVec::U16(v) => v.len(),
            IndexVec::U32(v) => v.len(),
        }
    }

    /// The entries, widened to `u32`, in order.
    pub fn iter(&self) -> (r: Vec<u32>)
        ensures
            r@ == self@,
    {
        let n = self.len();
        let mut out: Vec<u32> = Vec::new();
        let mut i: usize = 0;
        while i < n
            invariant
                n == self@.len(),
                i <= n,
                out@ == self@.subrange(0, i as int),
            decreases n - i,
        {
            out.push(self.get(i));
            i = i + 1;
            assert(out@ =~= self@.subrange(0, i as int));
        }
        assert(out@ =~= self@);
        out
    }
}

} // verus!
