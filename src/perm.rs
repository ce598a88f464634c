use vstd::prelude::*;

use crate::lehmer::{fact, lemma_rank_last, lemma_rank_step, rank};
use crate::moves::{inverted, swap, swapped};

verus! {

/// `p` lists each of the cities `0..n` exactly once.
pub open spec fn is_perm(p: Seq<usize>, n: nat) -> bool {
    &&& p.len() == n
    &&& forall|i: int| 0 <= i < n ==> #[trigger] p[i] < n
    &&& forall|i: int, j: int|
        0 <= i < n && 0 <= j < n && i != j ==> #[trigger] p[i] != #[trigger] p[j]
}

/// `a` and `b` have one length, agree before position `j` and differ at it.
pub open spec fn first_diff(a: Seq<usize>, b: Seq<usize>, j: int) -> bool {
    &&& a.len() == b.len()
    &&& 0 <= j < a.len()
    &&& a[j] != b[j]
    &&& forall|i: int| 0 <= i < j ==> a[i] == b[i]
}

/// `a` comes strictly before `b` in lexicographic order.
pub open spec fn lex_lt(a: Seq<usize>, b: Seq<usize>) -> bool {
    exists|j: int| #[trigger] first_diff(a, b, j) && a[j] < b[j]
}

/// No entry of `p` is smaller than the one after it: the last permutation in lexicographic order.
pub open spec fn is_last_perm(p: Seq<usize>) -> bool {
    forall|i: int| 0 <= i < p.len() - 1 ==> p[i] > #[trigger] p[i + 1]
}

/// `b` is the permutation of `0..n` that immediately follows `a` in lexicographic order.
pub open spec fn is_next_perm(a: Seq<usize>, b: Seq<usize>, n: nat) -> bool {
    &&& is_perm(b, n)
    &&& lex_lt(a, b)
    &&& forall|q: Seq<usize>| is_perm(q, n) && #[trigger] lex_lt(a, q) ==> !#[trigger] lex_lt(q, b)
}

/// Each of the cities `0..n` has a position in a permutation of them.
pub proof fn lemma_perm_onto(p: Seq<usize>, n: nat, v: int) -> (i: int)
    requires
        is_perm(p, n),
        0 <= v < n,
    ensures
        0 <= i < n,
        p[i] == v,
{
    let q = p.map_values(|x: usize| x as int);
    assert(q.no_duplicates()) by {
        assert forall|i: int, j: int| 0 <= i < q.len() && 0 <= j < q.len() && i != j implies q[i]
            != q[j] by {
            assert(p[i] != p[j]);
        }
    }
    q.unique_seq_to_set();
    vstd::set_lib::lemma_int_range(0, n as int);
    let r = vstd::set_lib::set_int_range(0, n as int);
    assert(q.to_set().subset_of(r)) by {
        assert forall|x: int| q.to_set().contains(x) implies r.contains(x) by {
            let k = choose|k: int| 0 <= k < q.len() && q[k] == x;
            assert(p[k] < n);
        }
    }
    vstd::seq_lib::seq_to_set_is_finite(q);
    vstd::set_lib::lemma_subset_equality(q.to_set(), r);
    assert(r.contains(v));
    assert(q.to_set().contains(v));
    let i = choose|i: int| 0 <= i < q.len() && q[i] == v;
    i
}

pub proof fn lemma_desc_pair(a: Seq<usize>, lo: int, u: int, v: int)
    requires
        forall|t: int| lo <= t < a.len() - 1 ==> #[trigger] a[t] > a[t + 1],
        0 <= lo <= u < v < a.len(),
    ensures
        a[u] > a[v],
    decreases v - u,
{
    if v > u + 1 {
        lemma_desc_pair(a, lo, u, v - 1);
        assert(a[v - 1] > a[v]);
    } else {
        assert(a[u] > a[u + 1]);
    }
}

/// The result of the standard step, built from the last ascent `k` and the swap partner `l`.
pub open spec fn step_result(a: Seq<usize>, k: int, l: int) -> Seq<usize> {
    inverted(swapped(a, k, l), k + 1, a.len() - 1)
}

proof fn lemma_step_is_next(a: Seq<usize>, n: nat, k: int, l: int)
    requires
        is_perm(a, n),
        0 <= k < n - 1,
        a[k] < a[k + 1],
        forall|t: int| k + 1 <= t < n - 1 ==> a[t] > #[trigger] a[t + 1],
        k < l < n,
        a[l] > a[k],
        forall|t: int| l < t < n ==> #[trigger] a[t] < a[k],
    ensures
        is_next_perm(a, step_result(a, k, l), n),
{
    let sw = swapped(a, k, l);
    let b = step_result(a, k, l);
    crate::moves::lemma_swap_perm(a, n, k, l);
    crate::moves::lemma_invert_perm(sw, n, k + 1, n - 1);
    // a is strictly decreasing after k
    assert forall|u: int, v: int| k + 1 <= u < v < n implies a[u] > a[v] by {
        lemma_desc_pair(a, k + 1, u, v);
    }
    // sw is strictly decreasing after k
    assert forall|u: int, v: int| k + 1 <= u < v < n implies sw[u] > sw[v] by {
        if u == l {
            assert(sw[u] == a[k]);
            assert(a[v] < a[k]);
        } else if v == l {
            assert(sw[v] == a[k]);
            assert(a[u] > a[l]);
        }
    }
    // b is strictly increasing after k
    assert forall|u: int, v: int| k + 1 <= u < v < n implies b[u] < b[v] by {
        assert(b[u] == sw[n - 1 - (u - (k + 1))]);
        assert(b[v] == sw[n - 1 - (v - (k + 1))]);
    }
    assert(b[k] == a[l]);
    assert(forall|i: int| 0 <= i < k ==> b[i] == a[i]);
    assert(first_diff(a, b, k));
    assert(lex_lt(a, b));
    assert forall|q: Seq<usize>| is_perm(q, n) && #[trigger] lex_lt(a, q) implies !#[trigger] lex_lt(
        q,
        b,
    ) by {
        let j = choose|j: int| #[trigger] first_diff(a, q, j) && a[j] < q[j];
        if lex_lt(q, b) {
            let j2 = choose|j2: int| #[trigger] first_diff(q, b, j2) && q[j2] < b[j2];
            if j < k {
                if j2 < j {
                    assert(q[j2] == a[j2]);
                } else if j2 > j {
                    assert(q[j] == b[j]);
                }
                assert(b[j] == a[j]);
            } else if j > k {
                let m = lemma_perm_onto(a, n, q[j] as int);
                if m < j {
                    assert(q[m] == a[m]);
                } else if m > j {
                    assert(a[m] < a[j]);
                }
            } else {
                let m = lemma_perm_onto(a, n, q[k] as int);
                if m < k {
                    assert(q[m] == a[m]);
                }
                assert(m > k);
                if m > l {
                    assert(a[m] < a[k]);
                }
                if m < l {
                    assert(a[m] > a[l]);
                }
                assert(q[k] >= b[k]);
                if j2 < k {
                    assert(q[j2] == a[j2]);
                    assert(b[j2] == a[j2]);
                } else if j2 > k {
                    let m2 = lemma_perm_onto(b, n, q[j2] as int);
                    if m2 < j2 {
                        assert(q[m2] == b[m2]);
                    } else if m2 > j2 {
                        assert(b[m2] > b[j2]);
                    }
                }
            }
        }
    }
}

/// `a` equals `b` or comes before it in lexicographic order.
pub open spec fn lex_le(a: Seq<usize>, b: Seq<usize>) -> bool {
    a == b || lex_lt(a, b)
}

proof fn lemma_lex_total_from(a: Seq<usize>, b: Seq<usize>, i: int)
    requires
        a.len() == b.len(),
        a != b,
        0 <= i <= a.len(),
        forall|t: int| 0 <= t < i ==> a[t] == b[t],
    ensures
        lex_lt(a, b) || lex_lt(b, a),
    decreases a.len() - i,
{
    if i == a.len() {
        assert(a =~= b);
    } else if a[i] != b[i] {
        assert(first_diff(a, b, i));
        assert(first_diff(b, a, i));
    } else {
        lemma_lex_total_from(a, b, i + 1);
    }
}

/// Of two different sequences of one length, one comes before the other.
pub proof fn lemma_lex_total(a: Seq<usize>, b: Seq<usize>)
    requires
        a.len() == b.len(),
    ensures
        lex_le(a, b) || lex_lt(b, a),
{
    if a != b {
        lemma_lex_total_from(a, b, 0);
    }
}

/// Lexicographic order is transitive.
pub proof fn lemma_lex_trans(a: Seq<usize>, b: Seq<usize>, c: Seq<usize>)
    requires
        lex_lt(a, b),
        lex_lt(b, c),
    ensures
        lex_lt(a, c),
{
    let j1 = choose|j: int| #[trigger] first_diff(a, b, j) && a[j] < b[j];
    let j2 = choose|j: int| #[trigger] first_diff(b, c, j) && b[j] < c[j];
    let j = if j1 < j2 { j1 } else { j2 };
    assert(first_diff(a, c, j));
}

/// The last permutation comes after every other one.
pub proof fn lemma_last_is_greatest(a: Seq<usize>, q: Seq<usize>, n: nat)
    requires
        is_perm(a, n),
        is_perm(q, n),
        is_last_perm(a),
    ensures
        lex_le(q, a),
{
    lemma_lex_total(q, a);
    if lex_lt(a, q) {
        let j = choose|j: int| #[trigger] first_diff(a, q, j) && a[j] < q[j];
        let m = lemma_perm_onto(a, n, q[j] as int);
        if m < j {
            assert(q[m] == a[m]);
        } else if m > j {
            lemma_desc_pair(a, 0, j, m);
        }
    }
}

/// The number whose base-`b` digits are the first `k` entries of `p`.
pub open spec fn digits(p: Seq<usize>, b: nat, k: int) -> nat
    decreases k,
{
    if k <= 0 {
        0
    } else {
        digits(p, b, k - 1) * b + p[k - 1] as nat
    }
}

/// `b` to the power `e`.
pub open spec fn power(b: nat, e: nat) -> nat
    decreases e,
{
    if e == 0 {
        1
    } else {
        b * power(b, (e - 1) as nat)
    }
}

/// A sequence of digits below `b` reads as a number below `b` to the power of its length.
pub proof fn lemma_digits_bound(p: Seq<usize>, b: nat, k: int)
    requires
        0 <= k <= p.len(),
        forall|i: int| 0 <= i < p.len() ==> #[trigger] p[i] < b,
    ensures
        digits(p, b, k) < power(b, k as nat),
    decreases k,
{
    if k > 0 {
        lemma_digits_bound(p, b, k - 1);
        let d = digits(p, b, k - 1);
        let w = power(b, (k - 1) as nat);
        let x = p[k - 1] as nat;
        assert(x < b);
        assert(d * b + x < b * w) by (nonlinear_arith)
            requires
                d < w,
                x < b,
        ;
    } else {
        assert(power(b, 0) == 1);
    }
}

proof fn lemma_digits_order(a: Seq<usize>, c: Seq<usize>, b: nat, j: int, k: int)
    requires
        first_diff(a, c, j),
        a[j] < c[j],
        j < k <= a.len(),
        forall|i: int| 0 <= i < a.len() ==> #[trigger] a[i] < b,
    ensures
        digits(a, b, k) < digits(c, b, k),
    decreases k,
{
    if k == j + 1 {
        assert(digits(a, b, j) == digits(c, b, j)) by {
            lemma_digits_prefix(a, c, b, j);
        }
    } else {
        lemma_digits_order(a, c, b, j, k - 1);
        let da = digits(a, b, k - 1);
        let dc = digits(c, b, k - 1);
        let x = a[k - 1] as nat;
        let y = c[k - 1] as nat;
        assert(x < b);
        assert(da * b + x < dc * b + y) by (nonlinear_arith)
            requires
                da < dc,
                x < b,
        ;
    }
}

proof fn lemma_digits_prefix(a: Seq<usize>, c: Seq<usize>, b: nat, k: int)
    requires
        0 <= k <= a.len(),
        k <= c.len(),
        forall|i: int| 0 <= i < k ==> a[i] == c[i],
    ensures
        digits(a, b, k) == digits(c, b, k),
    decreases k,
{
    if k > 0 {
        lemma_digits_prefix(a, c, b, k - 1);
    }
}

/// The later of two permutations in lexicographic order reads as the larger base-`n` number.
pub proof fn lemma_lex_digits(a: Seq<usize>, c: Seq<usize>, n: nat)
    requires
        is_perm(a, n),
        is_perm(c, n),
        lex_lt(a, c),
    ensures
        digits(a, n, n as int) < digits(c, n, n as int),
        digits(c, n, n as int) < power(n, n),
{
    let j = choose|j: int| #[trigger] first_diff(a, c, j) && a[j] < c[j];
    lemma_digits_order(a, c, n, j, n as int);
    lemma_digits_bound(c, n, n as int);
}

/// Insertion positions for cities `0, 1, ...`: city `i` goes to a position at most `i`.
pub open spec fn insertion_positions(pos: Seq<usize>) -> bool {
    forall|i: int| 0 <= i < pos.len() ==> #[trigger] pos[i] <= i
}

/// The tour built by inserting cities `0, 1, ...` in turn, city `i` at position `pos[i]`.
pub open spec fn inserted_tour(pos: Seq<usize>) -> Seq<usize>
    decreases pos.len(),
{
    if pos.len() == 0 {
        Seq::empty()
    } else {
        inserted_tour(pos.drop_last()).insert(pos.last() as int, (pos.len() - 1) as usize)
    }
}

/// Inserting cities in turn at valid positions gives a permutation.
pub proof fn lemma_inserted_perm(pos: Seq<usize>)
    requires
        insertion_positions(pos),
        pos.len() <= usize::MAX,
    ensures
        is_perm(inserted_tour(pos), pos.len()),
    decreases pos.len(),
{
    if pos.len() > 0 {
        let i = pos.len() - 1;
        let prev = pos.drop_last();
        assert(insertion_positions(prev));
        lemma_inserted_perm(prev);
        let before = inserted_tour(prev);
        let at = pos.last() as int;
        assert(pos[i as int] <= i);
        before.insert_ensures(at, i as usize);
        let p = inserted_tour(pos);
        assert forall|a: int| 0 <= a < i + 1 implies #[trigger] p[a] < i + 1 by {
            if a > at {
                assert(p[a] == before[a - 1]);
            }
        }
        assert forall|a: int, b: int|
            0 <= a < i + 1 && 0 <= b < i + 1 && a != b implies #[trigger] p[a]
            != #[trigger] p[b] by {
            let sa = if a < at { a } else { a - 1 };
            let sb = if b < at { b } else { b - 1 };
            if a != at {
                assert(p[a] == before[sa]);
            }
            if b != at {
                assert(p[b] == before[sb]);
            }
        }
    }
}

/// Different insertion positions give different tours, so equally likely positions give
/// equally likely tours.
pub proof fn lemma_insertion_injective(p1: Seq<usize>, p2: Seq<usize>)
    requires
        insertion_positions(p1),
        insertion_positions(p2),
        p1.len() == p2.len(),
        p1.len() <= usize::MAX,
        inserted_tour(p1) == inserted_tour(p2),
    ensures
        p1 == p2,
    decreases p1.len(),
{
    if p1.len() > 0 {
        let n = p1.len();
        let i = n - 1;
        let t = inserted_tour(p1);
        let (d1, d2) = (p1.drop_last(), p2.drop_last());
        assert(insertion_positions(d1));
        assert(insertion_positions(d2));
        lemma_inserted_perm(p1);
        lemma_inserted_perm(d1);
        lemma_inserted_perm(d2);
        let a = inserted_tour(d1);
        let b = inserted_tour(d2);
        let k1 = p1.last() as int;
        let k2 = p2.last() as int;
        assert(p1[i as int] <= i && p2[i as int] <= i);
        a.insert_ensures(k1, i as usize);
        b.insert_ensures(k2, i as usize);
        assert(t[k1] == i && t[k2] == i);
        assert(k1 == k2);
        assert forall|j: int| 0 <= j < i implies a[j] == b[j] by {
            if j >= k1 {
                assert(t[j + 1] == a[j]);
                assert(t[j + 1] == b[j]);
            } else {
                assert(t[j] == a[j]);
                assert(t[j] == b[j]);
            }
        }
        assert(a =~= b);
        lemma_insertion_injective(d1, d2);
        assert(p1 =~= d1.push(p1.last()));
        assert(p2 =~= d2.push(p2.last()));
    }
}

/// Builds a tour by inserting cities `0, 1, ...` in turn, city `i` at position
/// `positions[i]` among those already placed.
pub fn insert_tour(positions: &Vec<usize>) -> (r: Vec<usize>)
    requires
        insertion_positions(positions@),
    ensures
        r@ == inserted_tour(positions@),
        is_perm(r@, positions@.len()),
{
    let n = positions.len();
    let mut path: Vec<usize> = Vec::with_capacity(n);
    let mut i: usize = 0;
    while i < n
        invariant
            n == positions@.len(),
            insertion_positions(positions@),
            i <= n,
            path@ == inserted_tour(positions@.subrange(0, i as int)),
        decreases n - i,
    {
        proof {
            let sub = positions@.subrange(0, i as int);
            assert(insertion_positions(sub));
            lemma_inserted_perm(sub);
        }
        let at = positions[i];
        assert(at <= i);
        path.insert(at, i);
        proof {
            let sub = positions@.subrange(0, i + 1);
            assert(sub.drop_last() =~= positions@.subrange(0, i as int));
            assert(sub.last() == at);
        }
        i += 1;
    }
    assert(positions@.subrange(0, n as int) =~= positions@);
    proof {
        lemma_inserted_perm(positions@);
    }
    path
}

/// Advances `perm` to the next permutation in lexicographic order. Returns false, leaving
/// `perm` as it is, when `perm` is already the last one.
pub fn next_permutation(perm: &mut Vec<usize>) -> (changed: bool)
    requires
        is_perm(old(perm)@, old(perm)@.len()),
    ensures
        changed == !is_last_perm(old(perm)@),
        !changed ==> final(perm)@ == old(perm)@,
        changed ==> is_next_perm(old(perm)@, final(perm)@, old(perm)@.len()),
        changed ==> rank(final(perm)@) == rank(old(perm)@) + 1,
        !changed ==> rank(old(perm)@) + 1 == fact(old(perm)@.len()),
{
    let len = perm.len();
    let ghost a = perm@;
    if len < 2 {
        proof {
            lemma_rank_last(a, len as nat);
        }
        return false;
    }
    // the last position whose entry is smaller than the next one
    let mut found = false;
    let mut k: usize = 0;
    let mut i: usize = 0;
    while i < len - 1
        invariant
            perm@ == a,
            len == a.len(),
            len >= 2,
            i <= len - 1,
            found ==> k < i && a[k as int] < a[k + 1],
            forall|t: int| (if found { k + 1 } else { 0 }) <= t < i ==> a[t] >= #[trigger] a[t + 1],
        decreases len - 1 - i,
    {
        if perm[i] < perm[i + 1] {
            k = i;
            found = true;
        }
        i += 1;
    }
    if !found {
        assert forall|t: int| 0 <= t < a.len() - 1 implies a[t] > #[trigger] a[t + 1] by {
            assert(a[t] >= a[t + 1]);
            assert(a[t] != a[t + 1]);
        }
        proof {
            lemma_rank_last(a, len as nat);
        }
        return false;
    }
    assert(!is_last_perm(a)) by {
        assert(a[k as int] < a[k + 1]);
    }
    assert forall|t: int| k + 1 <= t < len - 1 implies a[t] > #[trigger] a[t + 1] by {
        assert(a[t] >= a[t + 1]);
        assert(a[t] != a[t + 1]);
    }
    // the last position after k whose entry exceeds the one at k
    let mut l: usize = k + 1;
    let mut i: usize = k + 2;
    while i < len
        invariant
            perm@ == a,
            len == a.len(),
            k + 1 <= l < i <= len,
            a[l as int] > a[k as int],
            forall|t: int| l < t < i ==> #[trigger] a[t] <= a[k as int],
        decreases len - i,
    {
        if perm[i] > perm[k] {
            l = i;
        }
        i += 1;
    }
    assert forall|t: int| l < t < len implies #[trigger] a[t] < a[k as int] by {
        assert(a[t] <= a[k as int]);
        assert(a[t] != a[k as int]);
    }
    swap(perm.as_mut_slice(), k, l);
    let ghost sw = perm@;
    // reverse the entries after k
    let mut lo: usize = k + 1;
    let mut hi: usize = len - 1;
    while lo < hi
        invariant
            sw == swapped(a, k as int, l as int),
            k < l < len,
            perm@.len() == len,
            len == a.len(),
            k + 1 <= lo,
            hi <= len - 1,
            lo + hi == k + len,
            lo <= hi + 1,
            forall|t: int|
                0 <= t < len ==> #[trigger] perm@[t] == (if lo <= t <= hi || t <= k {
                    sw[t]
                } else {
                    inverted(sw, k + 1, len - 1)[t]
                }),
        decreases len - lo,
    {
        let ghost before = perm@;
        swap(perm.as_mut_slice(), lo, hi);
        proof {
            let inv = inverted(sw, k + 1, len - 1);
            assert(inv[lo as int] == sw[hi as int]);
            assert(inv[hi as int] == sw[lo as int]);
            assert forall|t: int| 0 <= t < len implies #[trigger] perm@[t] == (if lo + 1 <= t
                <= hi - 1 || t <= k {
                sw[t]
            } else {
                inv[t]
            }) by {
                if t != lo && t != hi {
                    assert(perm@[t] == before[t]);
                }
            }
        }
        lo += 1;
        hi -= 1;
    }
    assert(perm@ =~= step_result(a, k as int, l as int));
    proof {
        lemma_step_is_next(a, len as nat, k as int, l as int);
        lemma_rank_step(a, len as nat, k as int, l as int);
    }
    true
}

} // verus!
