use vstd::prelude::*;

use crate::perm::is_perm;

verus! {

/// `p` with the entries at positions `x` and `y` exchanged.
pub open spec fn swapped(p: Seq<usize>, x: int, y: int) -> Seq<usize> {
    p.update(x, p[y]).update(y, p[x])
}

/// `p` rotated by one position to the right: the last entry comes first.
pub open spec fn rotated_right(p: Seq<usize>) -> Seq<usize> {
    seq![p.last()] + p.drop_last()
}

/// `p` rotated by one position to the left: the first entry goes last.
pub open spec fn rotated_left(p: Seq<usize>) -> Seq<usize> {
    p.subrange(1, p.len() as int).push(p[0])
}

/// `p` with the section between positions `s` and `e` (both included) in reverse order.
pub open spec fn inverted(p: Seq<usize>, s: int, e: int) -> Seq<usize> {
    Seq::new(p.len(), |i: int| if s <= i <= e { p[e - (i - s)] } else { p[i] })
}

/// Swaps two entries of a slice in place.
pub fn swap(arr: &mut [usize], x: usize, y: usize)
    requires
        x < old(arr)@.len(),
        y < old(arr)@.len(),
    ensures
        final(arr)@ == swapped(old(arr)@, x as int, y as int),
{
    let h = arr[x];
    arr[x] = arr[y];
    arr[y] = h;
}

/// A new vector holding the entries of `arr` shifted circularly one place to the right.
pub fn shift_right(arr: &[usize]) -> (res: Vec<usize>)
    requires
        arr@.len() > 0,
    ensures
        res@ == rotated_right(arr@),
{
    let n = arr.len();
    let mut res: Vec<usize> = Vec::with_capacity(n);
    res.push(arr[n - 1]);
    let mut i: usize = 0;
    while i < n - 1
        invariant
            n == arr@.len(),
            n > 0,
            i <= n - 1,
            res@ == seq![arr@[n - 1]] + arr@.subrange(0, i as int),
        decreases n - 1 - i,
    {
        res.push(arr[i]);
        i += 1;
        assert(res@ =~= seq![arr@[n - 1]] + arr@.subrange(0, i as int));
    }
    assert(arr@.drop_last() =~= arr@.subrange(0, n - 1));
    res
}

/// A new vector holding the entries of `arr` shifted circularly one place to the left.
pub fn shift_left(arr: &[usize]) -> (res: Vec<usize>)
    requires
        arr@.len() > 0,
    ensures
        res@ == rotated_left(arr@),
{
    let n = arr.len();
    let mut res: Vec<usize> = Vec::with_capacity(n);
    let mut i: usize = 1;
    while i < n
        invariant
            n == arr@.len(),
            1 <= i <= n,
            res@ == arr@.subrange(1, i as int),
        decreases n - i,
    {
        res.push(arr[i]);
        i += 1;
        assert(res@ =~= arr@.subrange(1, i as int));
    }
    res.push(arr[0]);
    res
}

/// A copy of `path` with the entries at positions `x` and `y` exchanged.
pub fn swapped_copy(path: &Vec<usize>, x: usize, y: usize) -> (res: Vec<usize>)
    requires
        x < path@.len(),
        y < path@.len(),
    ensures
        res@ == swapped(path@, x as int, y as int),
{
    let mut res = path.clone();
    assert(res@ =~= path@);
    swap(res.as_mut_slice(), x, y);
    res
}

/// A copy of `path` with the section from `s` to `e` (both included) reversed.
pub fn invert(path: &Vec<usize>, s: usize, e: usize) -> (res: Vec<usize>)
    requires
        s <= e < path@.len(),
    ensures
        res@ == inverted(path@, s as int, e as int),
{
    let n = path.len();
    let mut res: Vec<usize> = Vec::with_capacity(n);
    let mut i: usize = 0;
    while i < n
        invariant
            n == path@.len(),
            s <= e < n,
            i <= n,
            res@ =~= inverted(path@, s as int, e as int).subrange(0, i as int),
        decreases n - i,
    {
        if i >= s && i <= e {
            res.push(path[e - (i - s)]);
        } else {
            res.push(path[i]);
        }
        i += 1;
    }
    res
}

/// Exchanging the same two entries twice gives back the tour it started from.
pub proof fn lemma_swap_involution(p: Seq<usize>, x: int, y: int)
    requires
        0 <= x < p.len(),
        0 <= y < p.len(),
    ensures
        swapped(swapped(p, x, y), x, y) == p,
{
    assert(swapped(swapped(p, x, y), x, y) =~= p);
}

/// Reversing the same section twice gives back the tour it started from.
pub proof fn lemma_invert_involution(p: Seq<usize>, s: int, e: int)
    requires
        0 <= s <= e < p.len(),
    ensures
        inverted(inverted(p, s, e), s, e) == p,
{
    assert(inverted(inverted(p, s, e), s, e) =~= p);
}

/// Exchanging two entries of a permutation gives a permutation.
pub proof fn lemma_swap_perm(p: Seq<usize>, n: nat, x: int, y: int)
    requires
        is_perm(p, n),
        0 <= x < n,
        0 <= y < n,
    ensures
        is_perm(swapped(p, x, y), n),
{
    let q = swapped(p, x, y);
    assert forall|i: int, j: int| 0 <= i < n && 0 <= j < n && i != j implies #[trigger] q[i]
        != #[trigger] q[j] by {
        let si = if i == y { x } else if i == x { y } else { i };
        let sj = if j == y { x } else if j == x { y } else { j };
        assert(q[i] == p[si]);
        assert(q[j] == p[sj]);
    }
}

/// Reversing a section of a permutation gives a permutation.
pub proof fn lemma_invert_perm(p: Seq<usize>, n: nat, s: int, e: int)
    requires
        is_perm(p, n),
        0 <= s <= e < n,
    ensures
        is_perm(inverted(p, s, e), n),
{
    let q = inverted(p, s, e);
    assert forall|i: int, j: int| 0 <= i < n && 0 <= j < n && i != j implies #[trigger] q[i]
        != #[trigger] q[j] by {
        let si = if s <= i <= e { e - (i - s) } else { i };
        let sj = if s <= j <= e { e - (j - s) } else { j };
        assert(q[i] == p[si]);
        assert(q[j] == p[sj]);
    }
}

/// Rotating a permutation by one place either way gives a permutation.
pub proof fn lemma_rotate_perm(p: Seq<usize>, n: nat)
    requires
        is_perm(p, n),
        n > 0,
    ensures
        is_perm(rotated_left(p), n),
        is_perm(rotated_right(p), n),
{
    let l = rotated_left(p);
    let r = rotated_right(p);
    assert forall|i: int, j: int| 0 <= i < n && 0 <= j < n && i != j implies #[trigger] l[i]
        != #[trigger] l[j] by {
        let si = if i == n - 1 { 0 } else { i + 1 };
        let sj = if j == n - 1 { 0 } else { j + 1 };
        assert(l[i] == p[si]);
        assert(l[j] == p[sj]);
    }
    assert forall|i: int, j: int| 0 <= i < n && 0 <= j < n && i != j implies #[trigger] r[i]
        != #[trigger] r[j] by {
        let si = if i == 0 { n - 1 } else { i - 1 };
        let sj = if j == 0 { n - 1 } else { j - 1 };
        assert(r[i] == p[si]);
        assert(r[j] == p[sj]);
    }
}

} // verus!
