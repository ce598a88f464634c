use vstd::prelude::*;

use crate::moves::{inverted, swapped};
use crate::perm::{is_last_perm, is_perm, step_result};

verus! {

/// `n!`.
pub open spec fn fact(n: nat) -> nat
    decreases n,
{
    if n == 0 {
        1
    } else {
        n * fact((n - 1) as nat)
    }
}

/// The number of positions `t` in `lo..hi` with `s[t] < v`.
pub open spec fn count_below(s: Seq<usize>, lo: int, hi: int, v: usize) -> nat
    decreases hi - lo,
{
    if hi <= lo {
        0
    } else {
        count_below(s, lo, hi - 1, v) + (if s[hi - 1] < v {
            1nat
        } else {
            0nat
        })
    }
}

/// Digit `i` of the Lehmer code of `p`: how many later entries are smaller than `p[i]`.
pub open spec fn lehmer(p: Seq<usize>, i: int) -> nat {
    count_below(p, i + 1, p.len() as int, p[i])
}

/// The first `i` digits of the Lehmer code, each weighted by the factorial of its place.
pub open spec fn rank_upto(p: Seq<usize>, i: int) -> nat
    decreases i,
{
    if i <= 0 {
        0
    } else {
        rank_upto(p, i - 1) + lehmer(p, i - 1) * fact((p.len() - i) as nat)
    }
}

/// The position of `p` in the lexicographic order of the permutations of its length,
/// counted from 0.
pub open spec fn rank(p: Seq<usize>) -> nat {
    rank_upto(p, p.len() as int)
}

proof fn lemma_count_split(s: Seq<usize>, lo: int, mid: int, hi: int, v: usize)
    requires
        lo <= mid <= hi,
    ensures
        count_below(s, lo, hi, v) == count_below(s, lo, mid, v) + count_below(s, mid, hi, v),
    decreases hi - mid,
{
    if hi > mid {
        lemma_count_split(s, lo, mid, hi - 1, v);
    }
}

proof fn lemma_count_same(s: Seq<usize>, r: Seq<usize>, lo: int, hi: int, v: usize)
    requires
        forall|t: int| lo <= t < hi ==> s[t] == r[t],
    ensures
        count_below(s, lo, hi, v) == count_below(r, lo, hi, v),
    decreases hi - lo,
{
    if hi > lo {
        lemma_count_same(s, r, lo, hi - 1, v);
    }
}

proof fn lemma_count_all(s: Seq<usize>, lo: int, hi: int, v: usize)
    requires
        lo <= hi,
        forall|t: int| lo <= t < hi ==> s[t] < v,
    ensures
        count_below(s, lo, hi, v) == hi - lo,
    decreases hi - lo,
{
    if hi > lo {
        lemma_count_all(s, lo, hi - 1, v);
    }
}

proof fn lemma_count_none(s: Seq<usize>, lo: int, hi: int, v: usize)
    requires
        forall|t: int| lo <= t < hi ==> s[t] >= v,
    ensures
        count_below(s, lo, hi, v) == 0,
    decreases hi - lo,
{
    if hi > lo {
        lemma_count_none(s, lo, hi - 1, v);
    }
}

proof fn lemma_count_one(s: Seq<usize>, x: int, v: usize)
    ensures
        count_below(s, x, x + 1, v) == (if s[x] < v {
            1nat
        } else {
            0nat
        }),
{
    assert(count_below(s, x, x, v) == 0);
}

/// Exchanging two entries inside a range keeps the count over the range.
proof fn lemma_count_swap(s: Seq<usize>, lo: int, hi: int, x: int, y: int, v: usize)
    requires
        0 <= lo <= x < y < hi <= s.len(),
    ensures
        count_below(swapped(s, x, y), lo, hi, v) == count_below(s, lo, hi, v),
{
    let r = swapped(s, x, y);
    lemma_count_split(s, lo, x, hi, v);
    lemma_count_split(s, x, x + 1, hi, v);
    lemma_count_split(s, x + 1, y, hi, v);
    lemma_count_split(s, y, y + 1, hi, v);
    lemma_count_split(r, lo, x, hi, v);
    lemma_count_split(r, x, x + 1, hi, v);
    lemma_count_split(r, x + 1, y, hi, v);
    lemma_count_split(r, y, y + 1, hi, v);
    lemma_count_same(s, r, lo, x, v);
    lemma_count_same(s, r, x + 1, y, v);
    lemma_count_same(s, r, y + 1, hi, v);
    lemma_count_one(s, x, v);
    lemma_count_one(s, y, v);
    lemma_count_one(r, x, v);
    lemma_count_one(r, y, v);
}

/// Reversing a range keeps the count over it.
proof fn lemma_count_reverse(s: Seq<usize>, lo: int, hi: int, v: usize)
    requires
        0 <= lo <= hi <= s.len(),
    ensures
        count_below(inverted(s, lo, hi - 1), lo, hi, v) == count_below(s, lo, hi, v),
    decreases hi - lo,
{
    let r = inverted(s, lo, hi - 1);
    if hi - lo >= 2 {
        lemma_count_reverse(s, lo + 1, hi - 1, v);
        let r2 = inverted(s, lo + 1, hi - 2);
        lemma_count_same(r, r2, lo + 1, hi - 1, v);
        lemma_count_split(r, lo, lo + 1, hi, v);
        lemma_count_split(r, lo + 1, hi - 1, hi, v);
        lemma_count_split(s, lo, lo + 1, hi, v);
        lemma_count_split(s, lo + 1, hi - 1, hi, v);
        lemma_count_one(r, lo, v);
        lemma_count_one(s, lo, v);
        lemma_count_one(r, hi - 1, v);
        lemma_count_one(s, hi - 1, v);
    } else if hi - lo == 1 {
        lemma_count_one(r, lo, v);
        lemma_count_one(s, lo, v);
    }
}

proof fn lemma_rank_prefix(a: Seq<usize>, b: Seq<usize>, i: int)
    requires
        a.len() == b.len(),
        0 <= i <= a.len(),
        forall|t: int| 0 <= t < i ==> lehmer(a, t) == lehmer(b, t),
    ensures
        rank_upto(a, i) == rank_upto(b, i),
    decreases i,
{
    if i > 0 {
        lemma_rank_prefix(a, b, i - 1);
    }
}

/// Where the Lehmer digits from `lo` on are zero, the rank stops growing.
proof fn lemma_rank_flat(p: Seq<usize>, lo: int, i: int)
    requires
        0 <= lo <= i <= p.len(),
        forall|t: int| lo <= t < p.len() ==> lehmer(p, t) == 0,
    ensures
        rank_upto(p, i) == rank_upto(p, lo),
    decreases i,
{
    if i > lo {
        lemma_rank_flat(p, lo, i - 1);
    }
}

/// Where the Lehmer digits from `lo` on are as large as they can be, the rank grows to one
/// less than the next multiple of the factorial.
proof fn lemma_rank_full(p: Seq<usize>, lo: int, i: int)
    requires
        0 <= lo <= i <= p.len(),
        forall|t: int| lo <= t < p.len() ==> lehmer(p, t) == p.len() - 1 - t,
    ensures
        rank_upto(p, i) + fact((p.len() - i) as nat) == rank_upto(p, lo) + fact(
            (p.len() - lo) as nat,
        ),
    decreases i,
{
    if i > lo {
        lemma_rank_full(p, lo, i - 1);
        let n = p.len() as int;
        let m = (n - i) as nat;
        assert(fact(m + 1) == (m + 1) * fact(m));
        assert((m + 1) * fact(m) == m * fact(m) + fact(m)) by (nonlinear_arith);
        assert(lehmer(p, i - 1) == m);
    }
}

proof fn lemma_ascending_digits(p: Seq<usize>, lo: int)
    requires
        0 <= lo,
        forall|u: int, v: int| lo <= u < v < p.len() ==> p[u] < p[v],
    ensures
        forall|t: int| lo <= t < p.len() ==> lehmer(p, t) == 0,
{
    assert forall|t: int| lo <= t < p.len() implies lehmer(p, t) == 0 by {
        lemma_count_none(p, t + 1, p.len() as int, p[t]);
    }
}

proof fn lemma_descending_digits(p: Seq<usize>, lo: int)
    requires
        0 <= lo,
        forall|u: int, v: int| lo <= u < v < p.len() ==> p[u] > p[v],
    ensures
        forall|t: int| lo <= t < p.len() ==> lehmer(p, t) == p.len() - 1 - t,
{
    assert forall|t: int| lo <= t < p.len() implies lehmer(p, t) == p.len() - 1 - t by {
        lemma_count_all(p, t + 1, p.len() as int, p[t]);
    }
}

/// The identity permutation has rank 0.
pub proof fn lemma_rank_first(p: Seq<usize>)
    requires
        forall|u: int, v: int| 0 <= u < v < p.len() ==> p[u] < p[v],
    ensures
        rank(p) == 0,
{
    lemma_ascending_digits(p, 0);
    lemma_rank_flat(p, 0, p.len() as int);
}

/// The last permutation of `n` has rank `n! - 1`.
pub proof fn lemma_rank_last(p: Seq<usize>, n: nat)
    requires
        is_perm(p, n),
        is_last_perm(p),
    ensures
        rank(p) + 1 == fact(n),
{
    assert forall|u: int, v: int| 0 <= u < v < p.len() implies p[u] > p[v] by {
        crate::perm::lemma_desc_pair(p, 0, u, v);
    }
    lemma_descending_digits(p, 0);
    lemma_rank_full(p, 0, n as int);
    assert(fact(0) == 1);
}

/// One step of the standard algorithm raises the rank by exactly one.
pub proof fn lemma_rank_step(a: Seq<usize>, n: nat, k: int, l: int)
    requires
        is_perm(a, n),
        0 <= k < n - 1,
        a[k] < a[k + 1],
        forall|t: int| k + 1 <= t < n - 1 ==> a[t] > #[trigger] a[t + 1],
        k < l < n,
        a[l] > a[k],
        forall|t: int| l < t < n ==> #[trigger] a[t] < a[k],
    ensures
        rank(step_result(a, k, l)) == rank(a) + 1,
{
    let sw = swapped(a, k, l);
    let b = step_result(a, k, l);
    let ni = n as int;
    assert forall|u: int, v: int| k + 1 <= u < v < n implies a[u] > a[v] by {
        crate::perm::lemma_desc_pair(a, k + 1, u, v);
    }
    assert forall|u: int, v: int| k + 1 <= u < v < n implies sw[u] > sw[v] by {
        if u == l {
            assert(a[v] < a[k]);
        } else if v == l {
            assert(a[u] > a[l]);
        }
    }
    assert forall|u: int, v: int| k + 1 <= u < v < n implies b[u] < b[v] by {
        assert(b[u] == sw[n - 1 - (u - (k + 1))]);
        assert(b[v] == sw[n - 1 - (v - (k + 1))]);
    }
    // the entries after k, as a multiset, are the same in a, sw and b
    assert forall|t: int| 0 <= t < k implies lehmer(b, t) == lehmer(a, t) by {
        let v = a[t];
        assert(b[t] == v);
        lemma_count_split(b, t + 1, k, ni, v);
        lemma_count_split(a, t + 1, k, ni, v);
        lemma_count_same(a, b, t + 1, k, v);
        lemma_count_split(b, k, k + 1, ni, v);
        lemma_count_split(sw, k, k + 1, ni, v);
        lemma_count_one(b, k, v);
        lemma_count_one(sw, k, v);
        lemma_count_reverse(sw, k + 1, ni, v);
        lemma_count_same(b, inverted(sw, k + 1, ni - 1), k + 1, ni, v);
        lemma_count_swap(a, k, ni, k, l, v);
    }
    // digit k grows by one
    let vk = a[k];
    let vl = a[l];
    lemma_count_split(a, k + 1, l + 1, ni, vk);
    lemma_count_none(a, k + 1, l + 1, vk);
    lemma_count_all(a, l + 1, ni, vk);
    assert(lehmer(a, k) == ni - 1 - l);
    assert(b[k] == vl);
    lemma_count_reverse(sw, k + 1, ni, vl);
    lemma_count_same(b, inverted(sw, k + 1, ni - 1), k + 1, ni, vl);
    lemma_count_split(sw, k + 1, l, ni, vl);
    lemma_count_split(sw, l, l + 1, ni, vl);
    assert forall|t: int| k + 1 <= t < l implies sw[t] >= vl by {
        assert(a[t] > a[l]);
    }
    lemma_count_none(sw, k + 1, l, vl);
    lemma_count_one(sw, l, vl);
    lemma_count_all(sw, l + 1, ni, vl);
    assert(lehmer(b, k) == lehmer(a, k) + 1);
    // the digits after k: all zero in b, all full in a
    lemma_ascending_digits(b, k + 1);
    lemma_descending_digits(a, k + 1);
    lemma_rank_flat(b, k + 1, ni);
    lemma_rank_full(a, k + 1, ni);
    lemma_rank_prefix(a, b, k);
    assert(fact(0) == 1);
    let f = fact((ni - 1 - k) as nat);
    let d = lehmer(a, k);
    assert((d + 1) * f == d * f + f) by (nonlinear_arith);
}

} // verus!
