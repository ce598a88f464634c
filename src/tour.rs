use vstd::prelude::*;

use crate::perm::is_perm;

verus! {

/// A city on the plane, with integer coordinates. Lengths come out in the same unit; the
/// default annealing settings take it to be a thousandth.
#[derive(Clone, Copy, Debug, PartialEq, Eq)]
pub struct City {
    pub x: i32,
    pub y: i32,
}

/// Squared Euclidean distance between two cities.
pub open spec fn sq_dist(a: City, b: City) -> nat {
    ((b.x - a.x) * (b.x - a.x) + (b.y - a.y) * (b.y - a.y)) as nat
}

/// `r` is the integer square root of `s`, rounded down.
pub open spec fn is_root(s: nat, r: nat) -> bool {
    r * r <= s < (r + 1) * (r + 1)
}

/// Euclidean distance between two cities, rounded down to an integer.
pub open spec fn euclid(a: City, b: City) -> nat {
    choose|r: nat| is_root(sq_dist(a, b), r)
}

/// The integer square root is unique.
pub proof fn lemma_root_unique(s: nat, r1: nat, r2: nat)
    requires
        is_root(s, r1),
        is_root(s, r2),
    ensures
        r1 == r2,
{
    if r1 < r2 {
        assert((r1 + 1) * (r1 + 1) <= r2 * r2) by (nonlinear_arith)
            requires
                r1 + 1 <= r2,
        ;
    } else if r2 < r1 {
        assert((r2 + 1) * (r2 + 1) <= r1 * r1) by (nonlinear_arith)
            requires
                r2 + 1 <= r1,
        ;
    }
}

/// Squared Euclidean distance between two cities.
pub fn dist_sqr(a: &City, b: &City) -> (r: u128)
    ensures
        r == sq_dist(*a, *b),
        r <= 0x2_0000_0000_0000_0000u128,
{
    let dx: i64 = b.x as i64 - a.x as i64;
    let dy: i64 = b.y as i64 - a.y as i64;
    let ux: u128 = if dx < 0 { (-dx) as u128 } else { dx as u128 };
    let uy: u128 = if dy < 0 { (-dy) as u128 } else { dy as u128 };
    assert(ux * ux == dx * dx) by (nonlinear_arith)
        requires
            ux == dx || ux == -dx,
    ;
    assert(uy * uy == dy * dy) by (nonlinear_arith)
        requires
            uy == dy || uy == -dy,
    ;
    assert(ux * ux <= 0x1_0000_0000u128 * 0x1_0000_0000u128) by (nonlinear_arith)
        requires
            ux <= 0x1_0000_0000u128,
    ;
    assert(uy * uy <= 0x1_0000_0000u128 * 0x1_0000_0000u128) by (nonlinear_arith)
        requires
            uy <= 0x1_0000_0000u128,
    ;
    ux * ux + uy * uy
}

/// Integer square root, rounded down, of a value below 2^66.
fn floor_sqrt(s: u128) -> (r: u64)
    requires
        s < 0x4_0000_0000_0000_0000u128,
    ensures
        is_root(s as nat, r as nat),
{
    let mut lo: u128 = 0;
    let mut hi: u128 = 0x2_0000_0000;
    assert(hi * hi == 0x4_0000_0000_0000_0000u128) by (nonlinear_arith)
        requires
            hi == 0x2_0000_0000u128,
    ;
    while lo + 1 < hi
        invariant
            lo < hi <= 0x2_0000_0000,
            lo * lo <= s,
            s < hi * hi,
        decreases hi - lo,
    {
        let mid = lo + (hi - lo) / 2;
        assert(mid * mid <= 0x2_0000_0000u128 * 0x2_0000_0000u128) by (nonlinear_arith)
            requires
                mid <= 0x2_0000_0000u128,
        ;
        if mid * mid <= s {
            lo = mid;
        } else {
            hi = mid;
        }
    }
    lo as u64
}

/// Euclidean distance between two cities, rounded down.
pub fn distance(a: &City, b: &City) -> (r: u64)
    ensures
        r == euclid(*a, *b),
{
    let s = dist_sqr(a, b);
    let r = floor_sqrt(s);
    proof {
        let w = r as nat;
        assert(is_root(sq_dist(*a, *b), w));
        lemma_root_unique(sq_dist(*a, *b), w, euclid(*a, *b));
    }
    r
}


/// A square table with `m[i][j] == m[j][i]` and zeros on its diagonal.
pub open spec fn is_distance_table(m: Seq<Seq<u64>>) -> bool {
    &&& forall|i: int| 0 <= i < m.len() ==> #[trigger] m[i].len() == m.len()
    &&& forall|i: int, j: int|
        0 <= i < m.len() && 0 <= j < m.len() ==> #[trigger] m[i][j] == m[j][i]
    &&& forall|i: int| 0 <= i < m.len() ==> #[trigger] m[i][i] == 0
}

/// `m` holds the distance between each two of `cities`.
pub open spec fn measures(m: Seq<Seq<u64>>, cities: Seq<City>) -> bool {
    &&& m.len() == cities.len()
    &&& forall|i: int| 0 <= i < m.len() ==> #[trigger] m[i].len() == m.len()
    &&& forall|i: int, j: int|
        0 <= i < m.len() && 0 <= j < m.len() ==> #[trigger] m[i][j] == euclid(
            cities[i],
            cities[j],
        )
}

/// Every entry of `p` names one of `n` cities.
pub open spec fn in_range(p: Seq<usize>, n: nat) -> bool {
    forall|i: int| 0 <= i < p.len() ==> #[trigger] p[i] < n
}

/// Length of the leg that leaves position `i` of the closed tour `p`.
pub open spec fn leg(m: Seq<Seq<u64>>, p: Seq<usize>, i: int) -> int {
    m[p[i] as int][p[(i + 1) % (p.len() as int)] as int] as int
}

/// Total length of the first `k` legs of the closed tour `p`.
pub open spec fn partial_len(m: Seq<Seq<u64>>, p: Seq<usize>, k: int) -> int
    decreases k,
{
    if k <= 0 {
        0
    } else {
        partial_len(m, p, k - 1) + leg(m, p, k - 1)
    }
}

/// Length of the closed tour `p`, the leg from its last city back to its first included.
pub open spec fn tour_len(m: Seq<Seq<u64>>, p: Seq<usize>) -> int {
    partial_len(m, p, p.len() as int)
}

/// The precomputed pairwise distances between the cities of one problem.
pub struct DistanceMatrix {
    rows: Vec<Vec<u64>>,
}

impl View for DistanceMatrix {
    type V = Seq<Seq<u64>>;

    closed spec fn view(&self) -> Seq<Seq<u64>> {
        self.rows@.map_values(|r: Vec<u64>| r@)
    }
}

proof fn lemma_euclid_symmetric(a: City, b: City)
    ensures
        euclid(a, b) == euclid(b, a),
        euclid(a, a) == 0,
{
    assert(sq_dist(a, b) == sq_dist(b, a)) by (nonlinear_arith);
    assert(sq_dist(a, a) == 0) by (nonlinear_arith);
    assert(is_root(0, 0)) by (nonlinear_arith);
    lemma_root_unique(0, 0, euclid(a, a));
}

impl DistanceMatrix {
    /// Measures the distance between each two of `cities`.
    pub fn new(cities: &Vec<City>) -> (res: DistanceMatrix)
        ensures
            measures(res@, cities@),
            is_distance_table(res@),
    {
        let n = cities.len();
        let mut rows: Vec<Vec<u64>> = Vec::with_capacity(n);
        let mut i: usize = 0;
        while i < n
            invariant
                n == cities@.len(),
                i <= n,
                rows@.len() == i,
                forall|a: int| 0 <= a < i ==> #[trigger] rows@[a]@.len() == n,
                forall|a: int, b: int|
                    0 <= a < i && 0 <= b < n ==> #[trigger] rows@[a]@[b] == euclid(
                        cities@[a],
                        cities@[b],
                    ),
            decreases n - i,
        {
            let mut row: Vec<u64> = Vec::with_capacity(n);
            let mut j: usize = 0;
            while j < n
                invariant
                    n == cities@.len(),
                    i < n,
                    j <= n,
                    row@.len() == j,
                    forall|b: int| 0 <= b < j ==> #[trigger] row@[b] == euclid(
                        cities@[i as int],
                        cities@[b],
                    ),
                decreases n - j,
            {
                row.push(distance(&cities[i], &cities[j]));
                j += 1;
            }
            rows.push(row);
            i += 1;
        }
        let res = DistanceMatrix { rows };
        assert forall|a: int, b: int| 0 <= a < n && 0 <= b < n implies #[trigger] res@[a][b]
            == res@[b][a] by {
            lemma_euclid_symmetric(cities@[a], cities@[b]);
        }
        assert forall|a: int| 0 <= a < n implies #[trigger] res@[a][a] == 0 by {
            lemma_euclid_symmetric(cities@[a], cities@[a]);
        }
        res
    }

    /// Number of cities.
    pub fn size(&self) -> (r: usize)
        ensures
            r == self@.len(),
    {
        self.rows.len()
    }

    /// Distance between cities `i` and `j`.
    pub fn get(&self, i: usize, j: usize) -> (r: u64)
        requires
            i < self@.len(),
            j < self@[i as int].len(),
        ensures
            r == self@[i as int][j as int],
    {
        self.rows[i][j]
    }

    /// Length of the closed tour `path`.
    pub fn tour_length(&self, path: &Vec<usize>) -> (r: u128)
        requires
            is_distance_table(self@),
            in_range(path@, self@.len()),
        ensures
            r == tour_len(self@, path@),
    {
        let n = path.len();
        let mut length: u128 = 0;
        let mut i: usize = 0;
        while i < n
            invariant
                n == path@.len(),
                is_distance_table(self@),
                in_range(path@, self@.len()),
                i <= n,
                length == partial_len(self@, path@, i as int),
                length <= i * 0xffff_ffff_ffff_ffffu128,
            decreases n - i,
        {
            let x = path[i];
            let y = path[(i + 1) % n];
            length = length + self.get(x, y) as u128;
            i += 1;
        }
        length
    }
}

proof fn lemma_wrap(a: int, n: int)
    requires
        0 <= a <= n,
        n > 0,
    ensures
        a % n == (if a == n { 0 } else { a }),
{
    if a == n {
        vstd::arithmetic::div_mod::lemma_mod_self_0(n);
    } else {
        vstd::arithmetic::div_mod::lemma_small_mod(a as nat, n as nat);
    }
}

/// `p` turned around: its last entry comes first.
pub open spec fn reversed(p: Seq<usize>) -> Seq<usize> {
    Seq::new(p.len(), |i: int| p[p.len() - 1 - i])
}

/// `p` rotated left by `r` places.
pub open spec fn rotated(p: Seq<usize>, r: int) -> Seq<usize> {
    p.subrange(r, p.len() as int) + p.subrange(0, r)
}

proof fn lemma_rotate_one_partial(m: Seq<Seq<u64>>, p: Seq<usize>, k: int)
    requires
        p.len() > 0,
        0 <= k <= p.len() - 1,
    ensures
        partial_len(m, crate::moves::rotated_left(p), k) == partial_len(m, p, k + 1) - leg(m, p, 0),
    decreases k,
{
    let q = crate::moves::rotated_left(p);
    let n = p.len() as int;
    if k > 0 {
        lemma_rotate_one_partial(m, p, k - 1);
        let i = k - 1;
        assert(q[i] == p[i + 1]);
        lemma_wrap(i + 1, n);
        lemma_wrap(i + 2, n);
        assert(leg(m, q, i) == leg(m, p, i + 1));
    } else {
        assert(partial_len(m, p, 0) == 0);
        assert(partial_len(m, p, 1) == leg(m, p, 0));
    }
}

/// Rotating a tour one place to the left keeps its length.
pub proof fn lemma_rotate_one(m: Seq<Seq<u64>>, p: Seq<usize>)
    requires
        p.len() > 0,
    ensures
        tour_len(m, crate::moves::rotated_left(p)) == tour_len(m, p),
{
    let q = crate::moves::rotated_left(p);
    let n = p.len() as int;
    lemma_rotate_one_partial(m, p, n - 1);
    if n == 1 {
        assert(q =~= p);
    } else {
        assert(q[n - 1] == p[0]);
        assert(q[0] == p[1]);
        lemma_wrap(n, n);
        lemma_wrap(1, n);
        assert(leg(m, q, n - 1) == leg(m, p, 0));
    }
}

/// A tour's length does not depend on the position it is started from.
pub proof fn lemma_rotation_keeps_length(m: Seq<Seq<u64>>, p: Seq<usize>, r: int)
    requires
        0 <= r <= p.len(),
    ensures
        tour_len(m, rotated(p, r)) == tour_len(m, p),
    decreases r,
{
    if r == 0 {
        assert(rotated(p, 0) =~= p);
    } else {
        lemma_rotation_keeps_length(m, p, r - 1);
        let q = rotated(p, r - 1);
        lemma_rotate_one(m, q);
        assert(crate::moves::rotated_left(q) =~= rotated(p, r));
    }
}

proof fn lemma_reverse_partial(m: Seq<Seq<u64>>, p: Seq<usize>, k: int)
    requires
        is_distance_table(m),
        in_range(p, m.len()),
        p.len() > 0,
        0 <= k <= p.len() - 1,
    ensures
        partial_len(m, reversed(p), k) == partial_len(m, p, p.len() - 1) - partial_len(
            m,
            p,
            p.len() - 1 - k,
        ),
    decreases k,
{
    let q = reversed(p);
    let n = p.len() as int;
    if k > 0 {
        lemma_reverse_partial(m, p, k - 1);
        let i = k - 1;
        let j = n - 2 - i;
        lemma_wrap(i + 1, n);
        lemma_wrap(j + 1, n);
        assert(q[i] == p[j + 1]);
        assert(q[i + 1] == p[j]);
        assert(p[j] < m.len() && p[j + 1] < m.len());
        assert(m[p[j] as int][p[j + 1] as int] == m[p[j + 1] as int][p[j] as int]);
        assert(leg(m, q, i) == leg(m, p, j));
    }
}

/// A tour's length does not depend on the direction it is travelled in.
pub proof fn lemma_reversal_keeps_length(m: Seq<Seq<u64>>, p: Seq<usize>)
    requires
        is_distance_table(m),
        in_range(p, m.len()),
    ensures
        tour_len(m, reversed(p)) == tour_len(m, p),
{
    let n = p.len() as int;
    if n > 0 {
        let q = reversed(p);
        lemma_reverse_partial(m, p, n - 1);
        lemma_wrap(n, n);
        assert(q[n - 1] == p[0]);
        assert(q[0] == p[n - 1]);
        assert(p[0] < m.len() && p[n - 1] < m.len());
        assert(m[p[0] as int][p[n - 1] as int] == m[p[n - 1] as int][p[0] as int]);
        assert(leg(m, q, n - 1) == leg(m, p, n - 1));
    }
}

/// With two cities every tour goes there and back: its length is twice their distance.
pub proof fn lemma_two_cities(m: Seq<Seq<u64>>, p: Seq<usize>)
    requires
        is_distance_table(m),
        m.len() == 2,
        is_perm(p, 2),
    ensures
        tour_len(m, p) == 2 * m[0][1],
{
    lemma_wrap(1, 2);
    lemma_wrap(2, 2);
    assert(partial_len(m, p, 0) == 0);
    assert(partial_len(m, p, 1) == leg(m, p, 0));
    assert(partial_len(m, p, 2) == leg(m, p, 0) + leg(m, p, 1));
    assert(p[0] != p[1]);
    assert(m[0][1] == m[1][0]);
}

/// The position of city 0 in `p`.
pub open spec fn zero_at(p: Seq<usize>) -> int {
    choose|z: int| 0 <= z < p.len() && p[z] == 0
}

/// `p` started from city 0, and travelled in the direction whose second city has the
/// smaller index.
pub open spec fn oriented(p: Seq<usize>) -> Seq<usize> {
    let q = rotated(p, zero_at(p));
    if q[q.len() - 1] < q[1] {
        crate::moves::rotated_right(reversed(q))
    } else {
        q
    }
}

/// The same closed tour as `path`, written from city 0 and in the direction whose second city
/// has the smaller index.
pub fn orient_tour(path: &Vec<usize>) -> (r: Vec<usize>)
    requires
        path@.len() >= 2,
        is_perm(path@, path@.len()),
    ensures
        r@ == oriented(path@),
        r@.len() == path@.len(),
        r@[0] == 0,
        r@[1] <= r@[r@.len() - 1],
{
    let n = path.len();
    let ghost p = path@;
    let ghost z0 = crate::perm::lemma_perm_onto(p, n as nat, 0);
    let mut z: usize = 0;
    while path[z] != 0
        invariant
            n == p.len(),
            p == path@,
            0 <= z <= z0 < n,
            p[z0] == 0,
            is_perm(p, n as nat),
        decreases z0 - z,
    {
        z += 1;
    }
    proof {
        let c = zero_at(p);
        assert(0 <= c < n && p[c] == 0);
        if c != z as int {
            assert(p[c] != p[z as int]);
        }
    }
    let mut q: Vec<usize> = Vec::with_capacity(n);
    let mut i: usize = z;
    while i < n
        invariant
            n == p.len(),
            p == path@,
            z <= i <= n,
            q@ =~= p.subrange(z as int, i as int),
        decreases n - i,
    {
        q.push(path[i]);
        i += 1;
    }
    let mut i: usize = 0;
    while i < z
        invariant
            n == p.len(),
            p == path@,
            z < n,
            i <= z,
            q@ =~= p.subrange(z as int, n as int) + p.subrange(0, i as int),
        decreases z - i,
    {
        q.push(path[i]);
        i += 1;
    }
    assert(q@ =~= rotated(p, z as int));
    if q[n - 1] < q[1] {
        let mut r: Vec<usize> = Vec::with_capacity(n);
        r.push(q[0]);
        let mut i: usize = n - 1;
        while i >= 1
            invariant
                n == q@.len(),
                n >= 2,
                i <= n - 1,
                r@ =~= crate::moves::rotated_right(reversed(q@)).subrange(0, (n - i) as int),
            decreases i,
        {
            r.push(q[i]);
            i -= 1;
        }
        r
    } else {
        q
    }
}

/// Orienting a tour keeps its length.
pub proof fn lemma_orient_keeps_length(m: Seq<Seq<u64>>, p: Seq<usize>)
    requires
        is_distance_table(m),
        p.len() >= 2,
        is_perm(p, p.len()),
        p.len() == m.len(),
    ensures
        tour_len(m, oriented(p)) == tour_len(m, p),
{
    let n = p.len();
    crate::perm::lemma_perm_onto(p, n, 0);
    let c = zero_at(p);
    assert(0 <= c < n && p[c] == 0);
    let q = rotated(p, c);
    lemma_rotation_keeps_length(m, p, c);
    if q[q.len() - 1] < q[1] {
        assert(in_range(q, m.len())) by {
            assert forall|i: int| 0 <= i < q.len() implies #[trigger] q[i] < m.len() by {
                if i < n - c {
                    assert(q[i] == p[i + c]);
                } else {
                    assert(q[i] == p[i - (n - c)]);
                }
            }
        }
        lemma_reversal_keeps_length(m, q);
        let rq = reversed(q);
        lemma_rotation_keeps_length(m, rq, n - 1);
        assert(rotated(rq, n - 1) =~= crate::moves::rotated_right(rq));
    }
}

} // verus!
