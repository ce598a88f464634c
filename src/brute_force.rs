use vstd::prelude::*;

use crate::algorithm::{TspAlgorithm, TspState};
use crate::lehmer::{fact, lemma_rank_first, rank};
use crate::perm::{
    digits, is_last_perm, is_next_perm, is_perm, lemma_last_is_greatest, lemma_lex_digits,
    lemma_lex_total, lex_le, lex_lt, next_permutation, power,
};
use crate::tour::{City, DistanceMatrix, in_range, is_distance_table, tour_len};

verus! {

/// The tour `0, 1, ..., n - 1`.
pub open spec fn identity(n: nat) -> Seq<usize> {
    Seq::new(n, |i: int| i as usize)
}

/// Exhaustive search: visits every tour, in lexicographic order, and keeps the shortest.
pub struct BruteForce {
    dist: DistanceMatrix,
    perm: Vec<usize>,
    p_count: u128,
    max: u128,
    length: u128,
    path: Vec<usize>,
}

/// `n!`, or `None` when it does not fit in a `u128`.
pub fn factorial(n: u128) -> (r: Option<u128>)
    ensures
        r matches Some(v) ==> v == fact(n as nat),
        r is None ==> fact(n as nat) > u128::MAX,
{
    let mut acc: u128 = 1;
    let mut i: u128 = 0;
    while i < n
        invariant
            i <= n,
            acc == fact(i as nat),
        decreases n - i,
    {
        i += 1;
        proof {
            assert(acc * i == i * acc) by (nonlinear_arith);
            assert(fact(i as nat) == i * fact((i - 1) as nat));
        }
        match acc.checked_mul(i) {
            Some(v) => {
                acc = v;
            },
            None => {
                proof {
                    lemma_fact_grows(i as nat, n as nat);
                }
                return None;
            },
        }
    }
    Some(acc)
}

proof fn lemma_fact_grows(i: nat, n: nat)
    requires
        1 <= i <= n,
    ensures
        fact(i) <= fact(n),
    decreases n - i,
{
    if i < n {
        lemma_fact_grows(i, (n - 1) as nat);
        assert(fact((n - 1) as nat) <= n * fact((n - 1) as nat)) by (nonlinear_arith)
            requires
                n >= 1,
        ;
    }
}

/// The progress line of an exhaustive search, as `format!` writes it.
pub uninterp spec fn progress_line(count: u128, percent: u128) -> Seq<char>;

/// `n!`, or `u128::MAX` when it does not fit.
pub open spec fn capped_fact(n: nat) -> u128 {
    if fact(n) <= u128::MAX {
        fact(n) as u128
    } else {
        u128::MAX
    }
}

/// The share, in percent, of `total` that `count` makes up; 100 when `count * 100` does not
/// fit in a `u128`.
pub open spec fn percent_of(count: u128, total: u128) -> u128 {
    if count * 100 > u128::MAX {
        100
    } else if total > 0 {
        ((count * 100) as u128 / total) as u128
    } else {
        0
    }
}

/// Relies on `format!`: the progress line of an exhaustive search, a function of its values
/// alone.
#[verifier::external_body]
fn progress_text(count: u128, percent: u128) -> (r: String)
    ensures
        r@ == progress_line(count, percent),
{
    format!("P: {} {}%", count, percent)
}

/// The identity permutation is the first in lexicographic order.
proof fn lemma_identity_first(q: Seq<usize>, n: nat)
    requires
        is_perm(q, n),
    ensures
        !lex_lt(q, identity(n)),
{
    if lex_lt(q, identity(n)) {
        let j = choose|j: int| #[trigger]
            crate::perm::first_diff(q, identity(n), j) && q[j] < identity(n)[j];
        let t = q[j] as int;
        assert(q[t] == identity(n)[t]);
    }
}

impl BruteForce {
    /// The distance table searched.
    pub closed spec fn table(&self) -> Seq<Seq<u64>> {
        self.dist@
    }

    /// The permutation under evaluation.
    pub closed spec fn current(&self) -> Seq<usize> {
        self.perm@
    }

    /// The best tour found so far.
    pub closed spec fn best(&self) -> Seq<usize> {
        self.path@
    }

    /// The length of the best tour found so far.
    pub closed spec fn best_length(&self) -> nat {
        self.length as nat
    }

    /// The number of tours visited after the first, capped at `u128::MAX`.
    pub closed spec fn count(&self) -> nat {
        self.p_count as nat
    }

    /// The number of tours, capped at `u128::MAX`.
    pub closed spec fn total(&self) -> u128 {
        self.max
    }

    /// The number of cities.
    pub open spec fn cities(&self) -> nat {
        self.table().len()
    }

    /// The search's invariant: the best tour is the shortest of all it has visited.
    pub open spec fn wf(&self) -> bool {
        &&& is_distance_table(self.table())
        &&& is_perm(self.current(), self.cities())
        &&& is_perm(self.best(), self.cities())
        &&& self.best_length() == tour_len(self.table(), self.best())
        &&& lex_le(self.best(), self.current())
        &&& self.total() == capped_fact(self.cities())
        &&& self.count() == if rank(self.current()) < u128::MAX {
            rank(self.current())
        } else {
            u128::MAX as nat
        }
        &&& forall|q: Seq<usize>|
            is_perm(q, self.cities()) && #[trigger] lex_le(q, self.current()) ==> self.best_length()
                <= tour_len(self.table(), q)
    }

    /// Starts the search from the identity tour.
    pub fn new(cities: Vec<City>) -> (r: BruteForce)
        ensures
            r.wf(),
            r.cities() == cities@.len(),
            crate::tour::measures(r.table(), cities@),
            r.current() == identity(cities@.len()),
            r.best() == identity(cities@.len()),
            rank(r.current()) == 0,
    {
        let dist = DistanceMatrix::new(&cities);
        let n = cities.len();
        let mut path: Vec<usize> = Vec::with_capacity(n);
        let mut i: usize = 0;
        while i < n
            invariant
                i <= n,
                path@ =~= identity(n as nat).subrange(0, i as int),
            decreases n - i,
        {
            path.push(i);
            i += 1;
        }
        let max = match factorial(n as u128) {
            Some(v) => v,
            None => u128::MAX,
        };
        proof {
            assert(path@ =~= identity(n as nat));
            assert(in_range(path@, n as nat));
        }
        let length = dist.tour_length(&path);
        let r = BruteForce { dist, perm: path.clone(), p_count: 0, max, length, path };
        proof {
            assert(r.current() =~= r.best());
            lemma_rank_first(r.current());
            assert forall|q: Seq<usize>|
                is_perm(q, r.cities()) && #[trigger] lex_le(q, r.current()) implies r.best_length()
                <= tour_len(r.table(), q) by {
                lemma_identity_first(q, n as nat);
            }
        }
        r
    }

    /// Moves on to the next tour in lexicographic order and keeps it if it is shorter than
    /// the best so far. Returns true, changing nothing, when every tour has been visited; the
    /// best tour is then a shortest one.
    pub fn step(&mut self) -> (done: bool)
        requires
            old(self).wf(),
        ensures
            final(self).wf(),
            final(self).table() == old(self).table(),
            done == is_last_perm(old(self).current()),
            done ==> rank(old(self).current()) + 1 == fact(old(self).cities()),
            !done ==> rank(final(self).current()) == rank(old(self).current()) + 1,
            done ==> final(self).current() == old(self).current() && final(self).best()
                == old(self).best() && final(self).best_length() == old(self).best_length(),
            done ==> forall|q: Seq<usize>|
                is_perm(q, final(self).cities()) ==> final(self).best_length() <= #[trigger] tour_len(
                    final(self).table(),
                    q,
                ),
            !done ==> is_next_perm(old(self).current(), final(self).current(), old(self).cities()),
            !done ==> if tour_len(final(self).table(), final(self).current())
                < old(self).best_length() {
                final(self).best() == final(self).current() && final(self).best_length()
                    == tour_len(final(self).table(), final(self).current())
            } else {
                final(self).best() == old(self).best() && final(self).best_length()
                    == old(self).best_length()
            },
    {
        let ghost n = self.cities();
        let ghost a = self.perm@;
        if !next_permutation(&mut self.perm) {
            proof {
                assert forall|q: Seq<usize>| is_perm(q, n) implies self.best_length()
                    <= #[trigger] tour_len(self.table(), q) by {
                    lemma_last_is_greatest(a, q, n);
                    assert(lex_le(q, self.current()));
                }
            }
            return true;
        }
        if self.p_count < u128::MAX {
            self.p_count += 1;
        }
        let new_length = self.dist.tour_length(&self.perm);
        if new_length < self.length {
            self.length = new_length;
            self.path = self.perm.clone();
            proof {
                assert(self.path@ =~= self.perm@);
            }
        }
        proof {
            let b = self.perm@;
            // what was at most the old permutation is now strictly before the new one
            assert forall|q: Seq<usize>| is_perm(q, n) && #[trigger] lex_le(q, b) implies self.best_length()
                <= tour_len(self.table(), q) by {
                if q != b {
                    lemma_lex_total(q, a);
                    assert(lex_le(q, a));
                }
            }
            if self.path@ != b && self.path@ != a {
                crate::perm::lemma_lex_trans(self.path@, a, b);
            }
        }
        false
    }

    /// Visits every remaining tour and returns the shortest one with its length.
    pub fn run(self) -> (r: (u128, Vec<usize>))
        requires
            self.wf(),
        ensures
            is_perm(r.1@, self.cities()),
            r.0 == tour_len(self.table(), r.1@),
            forall|q: Seq<usize>| is_perm(q, self.cities()) ==> r.0 <= #[trigger] tour_len(self.table(), q),
    {
        let ghost table = self.table();
        let mut search = self;
        loop
            invariant
                search.wf(),
                search.table() == table,
                table == self.table(),
            decreases power(search.cities(), search.cities()) - digits(
                search.current(),
                search.cities(),
                search.cities() as int,
            ),
        {
            let ghost a = search.current();
            if search.step() {
                let length = search.length;
                let path = search.path;
                return (length, path);
            }
            proof {
                lemma_lex_digits(a, search.current(), search.cities());
            }
        }
    }

    /// The number of tours visited so far, the first included, capped at `u128::MAX`.
    pub fn visited(&self) -> (r: u128)
        requires
            self.wf(),
        ensures
            r == if rank(self.current()) + 1 < u128::MAX {
                rank(self.current()) + 1
            } else {
                u128::MAX as nat
            },
    {
        if self.p_count < u128::MAX {
            self.p_count + 1
        } else {
            self.p_count
        }
    }

    /// A snapshot of the search.
    pub fn state(&self) -> (r: TspState)
        requires
            self.wf(),
        ensures
            r.length == self.best_length(),
            r.path@ == self.best(),
            r.sample@ == self.current(),
            r.status@ == progress_line(self.count() as u128, percent_of(self.count() as u128, self.total())),
    {
        let percent = match self.p_count.checked_mul(100) {
            Some(v) => if self.max > 0 { v / self.max } else { 0 },
            None => 100,
        };
        let path = self.path.clone();
        let sample = self.perm.clone();
        proof {
            assert(path@ =~= self.path@);
            assert(sample@ =~= self.perm@);
        }
        TspState { length: self.length, path, sample, status: progress_text(self.p_count, percent) }
    }
}

/// With two cities the search holds a tour of twice their distance, from its start on.
pub proof fn lemma_brute_force_two_cities(b: &BruteForce)
    requires
        b.wf(),
        b.cities() == 2,
    ensures
        b.best_length() == 2 * b.table()[0][1],
{
    crate::tour::lemma_two_cities(b.table(), b.best());
}

impl TspAlgorithm for BruteForce {
    open spec fn inv(&self) -> bool {
        self.wf()
    }

    open spec fn finished(&self) -> bool {
        &&& is_last_perm(self.current())
        &&& forall|q: Seq<usize>|
            is_perm(q, self.cities()) ==> self.best_length() <= #[trigger] tour_len(self.table(), q)
    }

    open spec fn distances(&self) -> Seq<Seq<u64>> {
        self.table()
    }

    open spec fn reported_tour(&self) -> Seq<usize> {
        self.best()
    }

    open spec fn reported_length(&self) -> nat {
        self.best_length()
    }

    proof fn lemma_reported(&self) {
    }

    open spec fn remaining(&self) -> nat {
        (power(self.cities(), self.cities()) - digits(self.current(), self.cities(), self.cities() as int)) as nat
    }

    fn step(&mut self) -> (done: bool) {
        let ghost a = self.current();
        let done = BruteForce::step(self);
        proof {
            if !done {
                lemma_lex_digits(a, self.current(), self.cities());
            }
        }
        done
    }

    fn state(&self) -> (r: TspState) {
        BruteForce::state(self)
    }
}

} // verus!
