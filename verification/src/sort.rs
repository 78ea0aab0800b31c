//! A stable merge sort that orders positions instead of moving items.

use vstd::prelude::*;

verus! {

/// Items that can be put in order.
pub trait Ranked: Sized {
    /// This item may stand before `other`.
    spec fn upto(&self, other: &Self) -> bool;

    /// Of two items one may stand before the other.
    proof fn total(a: &Self, b: &Self)
        ensures
            a.upto(b) || b.upto(a),
    ;

    /// What may stand before `b` may stand before what `b` may stand before.
    proof fn transitive(a: &Self, b: &Self, c: &Self)
        requires
            a.upto(b),
            b.upto(c),
        ensures
            a.upto(c),
    ;

    /// Whether this item may stand before `other`.
    fn is_upto(&self, other: &Self) -> (r: bool)
        ensures
            r == self.upto(other),
    ;
}

/// Item `i` comes before item `j` in the order that keeps equals in place.
pub open spec fn precedes<T: Ranked>(v: Seq<T>, i: int, j: int) -> bool {
    v[i].upto(&v[j]) && (v[j].upto(&v[i]) ==> i <= j)
}

/// Position `x` is among those that `p` lists.
pub open spec fn listed(p: Seq<usize>, x: int) -> bool {
    exists|k: int| 0 <= k < p.len() && #[trigger] p[k] == x
}

/// `p` lists the positions from `lo` to below `hi`, each once.
pub open spec fn lists(p: Seq<usize>, lo: int, hi: int) -> bool {
    &&& p.len() == hi - lo
    &&& forall|k: int| 0 <= k < p.len() ==> lo <= #[trigger] p[k] < hi
    &&& forall|k: int, m: int| 0 <= k < m < p.len() ==> p[k] != p[m]
    &&& forall|x: int| lo <= x < hi ==> #[trigger] listed(p, x)
}

/// The items of `v` at the positions `p` stand in order, equals in place.
pub open spec fn ordered<T: Ranked>(v: Seq<T>, p: Seq<usize>) -> bool {
    forall|k: int, m: int|
        0 <= k < m < p.len() ==> precedes(v, #[trigger] p[k] as int, #[trigger] p[m] as int)
}

/// `a` holds what `b` holds, in another order perhaps.
pub open spec fn rearranged<T>(a: Seq<T>, b: Seq<T>) -> bool {
    exists|p: Seq<usize>| #[trigger]
        lists(p, 0, b.len() as int) && a == Seq::new(p.len(), |k: int| b[p[k] as int])
}

fn merge<T: Ranked>(v: &Vec<T>, a: &Vec<usize>, b: &Vec<usize>, Ghost(lo): Ghost<int>, Ghost(mid): Ghost<int>, Ghost(hi): Ghost<int>) -> (r: Vec<usize>)
    requires
        0 <= lo <= mid <= hi <= v@.len(),
        lists(a@, lo, mid),
        lists(b@, mid, hi),
        ordered(v@, a@),
        ordered(v@, b@),
    ensures
        lists(r@, lo, hi),
        ordered(v@, r@),
{
    let mut r: Vec<usize> = Vec::new();
    let mut i: usize = 0;
    let mut j: usize = 0;
    while i < a.len() || j < b.len()
        invariant
            0 <= lo <= mid <= hi <= v@.len(),
            lists(a@, lo, mid),
            lists(b@, mid, hi),
            ordered(v@, a@),
            ordered(v@, b@),
            i <= a@.len(),
            j <= b@.len(),
            r@.len() == i + j,
            ordered(v@, r@),
            forall|k: int| 0 <= k < r@.len() ==> lo <= #[trigger] r@[k] < hi,
            forall|k: int, m: int| 0 <= k < r@.len() && i <= m < a@.len() ==> #[trigger] r@[k] != #[trigger] a@[m] && precedes(v@, r@[k] as int, a@[m] as int),
            forall|k: int, m: int| 0 <= k < r@.len() && j <= m < b@.len() ==> #[trigger] r@[k] != #[trigger] b@[m] && precedes(v@, r@[k] as int, b@[m] as int),
            forall|k: int, m: int| 0 <= k < m < r@.len() ==> r@[k] != r@[m],
            forall|m: int| 0 <= m < i ==> listed(r@, #[trigger] a@[m] as int),
            forall|m: int| 0 <= m < j ==> listed(r@, #[trigger] b@[m] as int),
        decreases a@.len() - i + b@.len() - j,
    {
        let ghost was = r@;
        let ghost (i0, j0) = (i, j);
        let left: bool = if i == a.len() {
            false
        } else if j == b.len() {
            true
        } else {
            v[a[i]].is_upto(&v[b[j]])
        };
        if left {
            let x: usize = a[i];
            r.push(x);
            i += 1;
            assert forall|m: int| j <= m < b@.len() implies precedes(v@, x as int, #[trigger] b@[m] as int) by {
                T::total(&v@[x as int], &v@[b@[m] as int]);
                if m > j {
                    T::transitive(&v@[x as int], &v@[b@[j as int] as int], &v@[b@[m] as int]);
                }
            }
        } else {
            let x: usize = b[j];
            r.push(x);
            j += 1;
            assert forall|m: int| i <= m < a@.len() implies precedes(v@, x as int, #[trigger] a@[m] as int) by {
                T::total(&v@[a@[i as int] as int], &v@[x as int]);
                if m > i {
                    T::transitive(&v@[x as int], &v@[a@[i as int] as int], &v@[a@[m] as int]);
                    if v@[a@[m] as int].upto(&v@[x as int]) {
                        T::transitive(&v@[a@[i as int] as int], &v@[a@[m] as int], &v@[x as int]);
                    }
                }
            }
        }
        assert(r@.drop_last() =~= was);
        assert forall|m: int| 0 <= m < i implies listed(r@, #[trigger] a@[m] as int) by {
            if m < i0 {
                let k = choose|k: int| 0 <= k < was.len() && #[trigger] was[k] == a@[m];
                assert(r@[k] == a@[m]);
            } else {
                assert(r@[r@.len() - 1] == a@[m]);
            }
        }
        assert forall|m: int| 0 <= m < j implies listed(r@, #[trigger] b@[m] as int) by {
            if m < j0 {
                let k = choose|k: int| 0 <= k < was.len() && #[trigger] was[k] == b@[m];
                assert(r@[k] == b@[m]);
            } else {
                assert(r@[r@.len() - 1] == b@[m]);
            }
        }
    }
    assert forall|x: int| lo <= x < hi implies #[trigger] listed(r@, x) by {
        if x < mid {
            assert(listed(a@, x));
            let m = choose|m: int| 0 <= m < a@.len() && #[trigger] a@[m] == x;
            assert(a@[m] == x);
        } else {
            assert(listed(b@, x));
            let m = choose|m: int| 0 <= m < b@.len() && #[trigger] b@[m] == x;
            assert(b@[m] == x);
        }
    }
    r
}

fn sort_range<T: Ranked>(v: &Vec<T>, lo: usize, hi: usize) -> (r: Vec<usize>)
    requires
        lo <= hi <= v@.len(),
    ensures
        lists(r@, lo as int, hi as int),
        ordered(v@, r@),
    decreases hi - lo,
{
    if hi - lo == 0 {
        Vec::new()
    } else if hi - lo == 1 {
        let mut r: Vec<usize> = Vec::new();
        r.push(lo);
        assert(r@[0] == lo);
        r
    } else {
        let mid: usize = lo + (hi - lo) / 2;
        let a: Vec<usize> = sort_range(v, lo, mid);
        let b: Vec<usize> = sort_range(v, mid, hi);
        merge(v, &a, &b, Ghost(lo as int), Ghost(mid as int), Ghost(hi as int))
    }
}

/// The positions of `v` in the order of its items; equals keep their order.
pub fn sorted_positions<T: Ranked>(v: &Vec<T>) -> (r: Vec<usize>)
    ensures
        lists(r@, 0, v@.len() as int),
        ordered(v@, r@),
{
    sort_range(v, 0, v.len())
}

} // verus!
