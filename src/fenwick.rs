use vstd::prelude::*;

use crate::group::GroupValue;

verus! {

/// The lowest set bit of `i`, for `0 < i < 2^64`.
pub open spec fn lowbit(i: int) -> int {
    ((i as u64) & !((i - 1) as u64)) as int
}

/// The lowest set bit of a positive number is positive and no larger than it.
proof fn lemma_lowbit_basic(i: u64)
    requires
        i > 0,
    ensures
        0 < lowbit(i as int) <= i,
{
    assert(0 < i & !((i - 1) as u64) <= i) by (bit_vector)
        requires
            i > 0,
    ;
}

/// Stepping up from `j` by its lowest set bit reaches a node whose range
/// starts no later than the range of `j`.
proof fn lemma_lowbit_up(j: u64)
    requires
        0 < j <= 0x7fff_ffff_ffff_ffff,
    ensures
        j + lowbit(j as int) - lowbit(j + lowbit(j as int)) <= j - lowbit(j as int),
{
    let l = j & !((j - 1) as u64);
    assert(l == lowbit(j as int));
    assert(((j + (j & !((j - 1) as u64))) as u64) - (((j + (j & !((j - 1) as u64))) as u64) & !((((j + (j & !((j - 1) as u64))) as u64) - 1) as u64)) <= j - (j & !((j - 1) as u64))) by (bit_vector)
        requires
            0 < j <= 0x7fff_ffff_ffff_ffff,
    ;
    assert(0 < l <= j) by (bit_vector)
        requires
            l == j & !((j - 1) as u64),
            j > 0,
    ;
    let k = (j + l) as u64;
    assert(k & !((k - 1) as u64) == lowbit(k as int));
}

/// The nodes strictly between `j` and `j + lowbit(j)` cover only indices past `j`.
proof fn lemma_lowbit_skip(j: u64, t: u64)
    requires
        0 < t < lowbit(j as int),
        0 < j <= 0x7fff_ffff_ffff_ffff,
    ensures
        j + t - lowbit(j + t) >= j,
{
    assert(((j + t) as u64) - (((j + t) as u64) & !((((j + t) as u64) - 1) as u64)) >= j) by (bit_vector)
        requires
            0 < t < (j & !((j - 1) as u64)),
            j <= 0x7fff_ffff_ffff_ffff,
    ;
    lemma_lowbit_basic(j);
    let k = (j + t) as u64;
    assert(k & !((k - 1) as u64) == lowbit(k as int));
}

/// The sum of `s[lo..hi)`, added from the left.
pub open spec fn range_sum<T: GroupValue>(s: Seq<T>, lo: int, hi: int) -> T
    decreases hi - lo,
{
    if hi <= lo {
        T::zero_spec()
    } else {
        range_sum(s, lo, hi - 1).plus_spec(s[hi - 1])
    }
}

/// `s` with `v` added to the point at 1-based index `x`; unchanged when `x`
/// lies outside `[1, s.len()]`.
pub open spec fn point_add<T: GroupValue>(s: Seq<T>, x: int, v: T) -> Seq<T> {
    if 1 <= x <= s.len() {
        s.update(x - 1, s[x - 1].plus_spec(v))
    } else {
        s
    }
}

/// Every element of `s` is a valid group value.
pub open spec fn all_valid<T: GroupValue>(s: Seq<T>) -> bool {
    forall|i: int| 0 <= i < s.len() ==> (#[trigger] s[i]).valid()
}

/// Node `i` of the tree holds the points `[i - lowbit(i), i)` (0-based), so it
/// covers the 1-based index `x` when `i - lowbit(i) < x <= i`.
pub open spec fn covers(i: int, x: int) -> bool {
    i - lowbit(i) < x <= i
}

/// Range sums of valid values are valid.
proof fn lemma_range_valid<T: GroupValue>(s: Seq<T>, lo: int, hi: int)
    requires
        all_valid(s),
        0 <= lo,
        hi <= s.len(),
    ensures
        range_sum(s, lo, hi).valid(),
    decreases hi - lo,
{
    if hi <= lo {
        T::lemma_zero_valid();
    } else {
        lemma_range_valid(s, lo, hi - 1);
        T::lemma_group_laws(range_sum(s, lo, hi - 1), s[hi - 1], s[hi - 1]);
    }
}

/// A range sum splits at any point inside the range.
proof fn lemma_range_split<T: GroupValue>(s: Seq<T>, lo: int, mid: int, hi: int)
    requires
        all_valid(s),
        0 <= lo <= mid <= hi <= s.len(),
    ensures
        range_sum(s, lo, hi) == range_sum(s, lo, mid).plus_spec(range_sum(s, mid, hi)),
    decreases hi - mid,
{
    lemma_range_valid(s, lo, mid);
    if hi == mid {
        T::lemma_group_laws(range_sum(s, lo, mid), range_sum(s, lo, mid), range_sum(s, lo, mid));
    } else {
        lemma_range_split(s, lo, mid, hi - 1);
        lemma_range_valid(s, mid, hi - 1);
        T::lemma_group_laws(range_sum(s, lo, mid), range_sum(s, mid, hi - 1), s[hi - 1]);
    }
}

/// Adding `v` at one point adds `v` to exactly the range sums that contain it.
proof fn lemma_range_point_add<T: GroupValue>(s: Seq<T>, x: int, v: T, lo: int, hi: int)
    requires
        all_valid(s),
        v.valid(),
        1 <= x <= s.len(),
        0 <= lo,
        hi <= s.len(),
    ensures
        range_sum(point_add(s, x, v), lo, hi) == if lo <= x - 1 < hi {
            range_sum(s, lo, hi).plus_spec(v)
        } else {
            range_sum(s, lo, hi)
        },
    decreases hi - lo,
{
    let t = point_add(s, x, v);
    if hi > lo {
        lemma_range_point_add(s, x, v, lo, hi - 1);
        lemma_range_valid(s, lo, hi - 1);
        let r = range_sum(s, lo, hi - 1);
        if hi - 1 == x - 1 {
            T::lemma_group_laws(r, s[x - 1], v);
        } else if lo <= x - 1 < hi - 1 {
            T::lemma_group_laws(r, v, s[hi - 1]);
            T::lemma_group_laws(r, s[hi - 1], v);
            T::lemma_group_laws(v, s[hi - 1], v);
        }
    }
}

/// A sequence of identities sums to the identity.
proof fn lemma_range_zero<T: GroupValue>(s: Seq<T>, lo: int, hi: int)
    requires
        forall|i: int| 0 <= i < s.len() ==> s[i] == T::zero_spec(),
        0 <= lo,
        hi <= s.len(),
    ensures
        range_sum(s, lo, hi) == T::zero_spec(),
    decreases hi - lo,
{
    if hi > lo {
        lemma_range_zero(s, lo, hi - 1);
        T::lemma_zero_valid();
        T::lemma_group_laws(T::zero_spec(), T::zero_spec(), T::zero_spec());
    }
}

/// The lowest set bit of `i`.
fn lowbit_of(i: usize) -> (r: usize)
    requires
        i > 0,
    ensures
        r as int == lowbit(i as int),
        0 < r <= i,
{
    let w = i as u64;
    proof {
        lemma_lowbit_basic(w);
    }
    (w & !(w - 1)) as usize
}

/// A binary indexed (Fenwick) tree over `n` points, 1-based, supporting
/// point updates and prefix sums in `O(log n)` steps.
///
/// Its view is the sequence of the `n` point values: point `x` is `self@[x - 1]`.
/// Range updates (`add_range`) store differences: after only range updates,
/// the prefix sum `get(x)` is the value accumulated at point `x`.
pub struct Fenwick<T> {
    sum: Vec<T>,
    n: usize,
    points: Ghost<Seq<T>>,
}

impl<T> View for Fenwick<T> {
    type V = Seq<T>;

    closed spec fn view(&self) -> Seq<T> {
        self.points@
    }
}

impl<T: GroupValue> Fenwick<T> {
    /// The number of points.
    pub closed spec fn size(&self) -> nat {
        self.n as nat
    }

    /// Node `i` holds the sum of the points it covers.
    pub closed spec fn wf(&self) -> bool {
        &&& self.sum@.len() == self.n + 1
        &&& self.points@.len() == self.n
        &&& self.n <= usize::MAX / 2
        &&& all_valid(self.points@)
        &&& forall|i: int|
            1 <= i <= self.n ==> #[trigger] self.sum@[i] == range_sum(
                self.points@,
                i - lowbit(i),
                i,
            )
    }

    /// The view has one entry per point, and there are at most `usize::MAX / 2`
    /// points.
    pub proof fn lemma_view_len(&self)
        requires
            self.wf(),
        ensures
            self@.len() == self.size(),
            self.size() <= usize::MAX / 2,
            all_valid(self@),
    {
    }

    /// A tree of `n` points, all equal to the identity.
    pub fn new(n: usize) -> (r: Self)
        requires
            n <= usize::MAX / 2,
        ensures
            r.wf(),
            r.size() == n,
            r@ == Seq::new(n as nat, |i: int| T::zero_spec()),
    {
        let mut sum: Vec<T> = Vec::new();
        let ghost points = Seq::new(n as nat, |i: int| T::zero_spec());
        let mut k: usize = 0;
        while k <= n
            invariant
                k <= n + 1,
                n <= usize::MAX / 2,
                sum@.len() == k,
                forall|i: int| 0 <= i < k ==> sum@[i] == T::zero_spec(),
            decreases n + 1 - k,
        {
            sum.push(T::zero());
            k = k + 1;
        }
        proof {
            T::lemma_zero_valid();
            assert forall|i: int| 1 <= i <= n implies #[trigger] sum@[i] == range_sum(
                points,
                i - lowbit(i),
                i,
            ) by {
                lemma_lowbit_basic(i as u64);
                lemma_range_zero(points, i - lowbit(i), i);
            }
        }
        Fenwick { sum, n, points: Ghost(points) }
    }

    /// Adds `v` to point `x`; does nothing when `x` is past the last point.
    pub fn add(&mut self, x: usize, v: T)
        requires
            old(self).wf(),
            x >= 1,
        ensures
            final(self).wf(),
            final(self).size() == old(self).size(),
            final(self)@ == point_add(old(self)@, x as int, v),
    {
        let ghost old_sum = self.sum@;
        let ghost pts = self.points@;
        let mut j: usize = x;
        proof {
            lemma_lowbit_basic(x as u64);
        }
        while j <= self.n
            invariant
                self.n == old(self).n,
                self.points == old(self).points,
                self.sum@.len() == self.n + 1,
                pts == self.points@,
                self.n <= usize::MAX / 2,
                1 <= x <= j,
                j <= 2 * self.n || j == x,
                covers(j as int, x as int),
                j > x ==> v.valid(),
                forall|i: int|
                    1 <= i <= self.n ==> #[trigger] self.sum@[i] == if i < j && covers(i, x as int) {
                        old_sum[i].plus_spec(v)
                    } else {
                        old_sum[i]
                    },
            decreases 2 * self.n + 1 - j,
        {
            let lb = lowbit_of(j);
            let cur = self.sum[j].plus(v);
            self.sum.set(j, cur);
            let ghost jj = j;
            proof {
                lemma_lowbit_up(j as u64);
                assert forall|i: int| jj < i < jj + lb implies !covers(i, x as int) by {
                    lemma_lowbit_skip(jj as u64, (i - jj) as u64);
                }
            }
            j = j + lb;
        }
        let ghost new_pts = point_add(pts, x as int, v);
        proof {
            if x <= self.n {
                assert forall|i: int| 1 <= i <= self.n implies #[trigger] self.sum@[i] == range_sum(
                    new_pts,
                    i - lowbit(i),
                    i,
                ) by {
                    lemma_lowbit_basic(i as u64);
                    lemma_range_point_add(pts, x as int, v, i - lowbit(i), i);
                }
                assert forall|i: int| 0 <= i < new_pts.len() implies (#[trigger] new_pts[i]).valid() by {
                    T::lemma_group_laws(pts[i], v, v);
                }
            }
        }
        self.points = Ghost(new_pts);
    }

    /// The sum of points `1..=x`; the identity for `x == 0`.
    pub fn get(&self, x: usize) -> (r: T)
        requires
            self.wf(),
            x <= self.size(),
        ensures
            r == range_sum(self@, 0, x as int),
            r.valid(),
    {
        let mut ans = T::zero();
        let mut j: usize = x;
        while j > 0
            invariant
                self.wf(),
                x <= self.n,
                j <= x,
                ans == range_sum(self.points@, j as int, x as int),
            decreases j,
        {
            let lb = lowbit_of(j);
            let ghost lo = j - lb;
            proof {
                lemma_range_split(self.points@, lo, j as int, x as int);
                lemma_range_valid(self.points@, lo, j as int);
                lemma_range_valid(self.points@, j as int, x as int);
                T::lemma_group_laws(range_sum(self.points@, lo, j as int), ans, ans);
                assert(self.sum@[j as int] == range_sum(self.points@, lo, j as int));
            }
            ans = ans.plus(self.sum[j]);
            j = j - lb;
        }
        proof {
            lemma_range_valid(self.points@, 0, x as int);
        }
        ans
    }

    /// Adds `v` to every point of `l..=r`, stored as differences: `v` at
    /// point `l` and `-v` at point `r + 1`.
    pub fn add_range(&mut self, l: usize, r: usize, v: T)
        requires
            old(self).wf(),
            1 <= l <= r,
            r < usize::MAX,
        ensures
            final(self).wf(),
            final(self).size() == old(self).size(),
            final(self)@ == point_add(
                point_add(old(self)@, l as int, v),
                r + 1,
                v.negate_spec(),
            ),
    {
        self.add(l, v);
        let neg = v.negate();
        self.add(r + 1, neg);
    }

    /// The sum of points `l..=r`.
    pub fn get_range(&self, l: usize, r: usize) -> (s: T)
        requires
            self.wf(),
            1 <= l <= r <= self.size(),
        ensures
            s == range_sum(self@, l - 1, r as int),
    {
        let whole = self.get(r);
        let before = self.get(l - 1);
        let s = whole.plus(before.negate());
        proof {
            let c = range_sum(self.points@, l - 1, r as int);
            lemma_range_split(self.points@, 0, l - 1, r as int);
            lemma_range_valid(self.points@, l - 1, r as int);
            T::lemma_group_laws(before, c, before.negate_spec());
            T::lemma_group_laws(c, before, before.negate_spec());
            T::lemma_group_laws(before, before.negate_spec(), c);
            T::lemma_group_laws(c, before.plus_spec(before.negate_spec()), c);
            T::lemma_group_laws(before.negate_spec(), before, c);
        }
        s
    }
}

} // verus!
