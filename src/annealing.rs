use vstd::prelude::*;

use rand::rngs::StdRng;

use crate::algorithm::{TspAlgorithm, TspState};
use crate::moves::{
    inverted, invert, lemma_invert_perm, lemma_rotate_perm, lemma_swap_perm, rotated_left,
    rotated_right, shift_left, shift_right, swapped, swapped_copy,
};
use crate::perm::{insert_tour, inserted_tour, insertion_positions, is_perm};
use crate::random::{draw_below, seeded_rng};
use crate::tour::{City, DistanceMatrix, is_distance_table, tour_len};

verus! {

/// The cooling multiplier is counted in millionths.
pub const MULT_ONE: u64 = 1_000_000;

/// Settings of an annealing run. Temperatures are in the unit of the distances.
#[derive(Clone, Copy, Debug)]
pub struct Params {
    /// The temperature at the start.
    pub start_temp: u64,
    /// The factor applied to the temperature after each batch, in millionths.
    pub temp_mult: u64,
    /// The number of batches after which the run stops.
    pub max_steps: usize,
    /// The number of candidates evaluated in each batch.
    pub candidates: usize,
    /// The number of batches without a shorter tour after which the run stops.
    pub max_nodecrease: usize,
}

impl Params {
    /// All settings are positive, the multiplier lies strictly between zero and one, and
    /// the batch count leaves room to count one past it.
    pub open spec fn valid(&self) -> bool {
        &&& self.start_temp > 0
        &&& 0 < self.temp_mult < MULT_ONE
        &&& 0 < self.max_steps < usize::MAX
        &&& self.candidates > 0
        &&& self.max_nodecrease > 0
    }

    /// Settings from their values, or `None` when they are not valid.
    pub fn new(
        start_temp: u64,
        temp_mult: u64,
        max_steps: usize,
        candidates: usize,
        max_nodecrease: usize,
    ) -> (r: Option<Params>)
        ensures
            r is Some <==> (Params {
                start_temp,
                temp_mult,
                max_steps,
                candidates,
                max_nodecrease,
            }).valid(),
            r matches Some(p) ==> p == (Params {
                start_temp,
                temp_mult,
                max_steps,
                candidates,
                max_nodecrease,
            }),
    {
        let p = Params { start_temp, temp_mult, max_steps, candidates, max_nodecrease };
        if start_temp > 0 && temp_mult > 0 && temp_mult < MULT_ONE && max_steps > 0 && max_steps
            < usize::MAX && candidates > 0 && max_nodecrease > 0 {
            Some(p)
        } else {
            None
        }
    }
}

impl Default for Params {
    /// Start at 30 units (distances counted in thousandths), cool by 5% per batch of 200
    /// candidates, stop after 200 batches or 50 batches without a shorter tour.
    fn default() -> (r: Params)
        ensures
            r.valid(),
            r.start_temp == 30_000,
            r.temp_mult == 950_000,
            r.candidates == 200,
            r.max_steps == 200,
            r.max_nodecrease == 50,
    {
        Params {
            start_temp: 30_000,
            temp_mult: 950_000,
            candidates: 200,
            max_steps: 200,
            max_nodecrease: 50,
        }
    }
}

/// The temperature after one more batch.
pub open spec fn cooled(t: u64, mult: u64) -> u64 {
    (t * mult / (MULT_ONE as int)) as u64
}

/// `q` is `p` after one of the annealing moves: a swap of two entries, the reversal of a
/// section, or a rotation by one place.
pub open spec fn is_neighbour(p: Seq<usize>, q: Seq<usize>) -> bool {
    ||| exists|x: int, y: int|
        0 <= x < p.len() && 0 <= y < p.len() && x != y && q == #[trigger] swapped(p, x, y)
    ||| exists|s: int, e: int| 0 <= s < e < p.len() && q == #[trigger] inverted(p, s, e)
    ||| q == rotated_left(p)
    ||| q == rotated_right(p)
}

/// Draws two different positions below `max`, each pair equally likely.
fn distinct_indices(rng: &mut StdRng, max: usize) -> (r: (usize, usize))
    requires
        max >= 2,
    ensures
        r.0 < max,
        r.1 < max,
        r.0 != r.1,
{
    let x = draw_below(rng, max);
    // a draw among the other positions, so that no pair of equal positions ever comes out
    let y = draw_below(rng, max - 1);
    if y >= x {
        (x, y + 1)
    } else {
        (x, y)
    }
}

/// Exchanges the cities at two random positions.
fn swap_cities(path: &Vec<usize>, rng: &mut StdRng) -> (r: Vec<usize>)
    requires
        path@.len() >= 2,
    ensures
        exists|x: int, y: int|
            0 <= x < path@.len() && 0 <= y < path@.len() && x != y && r@ == #[trigger] swapped(
                path@,
                x,
                y,
            ),
{
    let (x, y) = distinct_indices(rng, path.len());
    let r = swapped_copy(path, x, y);
    assert(r@ == swapped(path@, x as int, y as int));
    r
}

/// Reverses the section between two random positions.
fn invert_section(path: &Vec<usize>, rng: &mut StdRng) -> (r: Vec<usize>)
    requires
        path@.len() >= 2,
    ensures
        exists|s: int, e: int| 0 <= s < e < path@.len() && r@ == #[trigger] inverted(path@, s, e),
{
    let (x, y) = distinct_indices(rng, path.len());
    let (s, e) = if x < y {
        (x, y)
    } else {
        (y, x)
    };
    let r = invert(path, s, e);
    assert(r@ == inverted(path@, s as int, e as int));
    r
}

/// Rotates the tour by one place, to the right or to the left with equal chance.
fn shift(path: &Vec<usize>, rng: &mut StdRng) -> (r: Vec<usize>)
    requires
        path@.len() >= 1,
    ensures
        r@ == rotated_left(path@) || r@ == rotated_right(path@),
{
    if draw_below(rng, 2) == 0 {
        shift_right(path.as_slice())
    } else {
        shift_left(path.as_slice())
    }
}

/// The progress line of an annealing run, as `format!` writes it.
pub uninterp spec fn annealing_line(step: usize, candidate: usize, whole: u64, thousandths: u64) -> Seq<char>;

/// Relies on `format!`: the progress line of an annealing run, a function of its values alone.
#[verifier::external_body]
fn annealing_text(step: usize, candidate: usize, whole: u64, thousandths: u64) -> (r: String)
    ensures
        r@ == annealing_line(step, candidate, whole, thousandths),
{
    format!("S={:<3} C={:<3}  T={}.{:03}", step, candidate, whole, thousandths)
}

/// Simulated annealing. A worse candidate is accepted when `accept_uphill`, asked with the
/// increase in length and the temperature, says so.
pub struct Annealing<F> {
    param: Params,
    dist: DistanceMatrix,
    temperature: u64,
    step: usize,
    candidate: usize,
    last_decrease: usize,
    path: Vec<usize>,
    sample: Vec<usize>,
    length: u128,
    rng: StdRng,
    accept_uphill: F,
}

impl<F: Fn(u128, u64) -> bool> Annealing<F> {
    /// The distance table of the problem.
    pub closed spec fn table(&self) -> Seq<Seq<u64>> {
        self.dist@
    }

    /// The settings of the run.
    pub closed spec fn params(&self) -> Params {
        self.param
    }

    /// The present temperature.
    pub closed spec fn temperature(&self) -> u64 {
        self.temperature
    }

    /// The number of batches completed.
    pub closed spec fn steps(&self) -> usize {
        self.step
    }

    /// The number of candidates evaluated in the present batch.
    pub closed spec fn candidate(&self) -> usize {
        self.candidate
    }

    /// The batch in which the tour last became shorter.
    pub closed spec fn last_decrease(&self) -> usize {
        self.last_decrease
    }

    /// The accepted tour.
    pub closed spec fn current(&self) -> Seq<usize> {
        self.path@
    }

    /// The tour most recently proposed.
    pub closed spec fn sample(&self) -> Seq<usize> {
        self.sample@
    }

    /// The length of the accepted tour.
    pub closed spec fn current_length(&self) -> nat {
        self.length as nat
    }

    /// The test that decides on a worse candidate.
    pub closed spec fn oracle(&self) -> F {
        self.accept_uphill
    }

    /// The number of cities.
    pub open spec fn cities(&self) -> nat {
        self.table().len()
    }

    /// The run's invariant.
    pub open spec fn wf(&self) -> bool {
        &&& self.params().valid()
        &&& is_distance_table(self.table())
        &&& self.cities() >= 2
        &&& is_perm(self.current(), self.cities())
        &&& is_perm(self.sample(), self.cities())
        &&& self.current_length() == tour_len(self.table(), self.current())
        &&& self.steps() <= self.params().max_steps + 1
        &&& self.last_decrease() <= self.steps()
        &&& self.candidate() <= self.params().candidates
        &&& self.temperature() <= self.params().start_temp
        &&& forall|d: u128, t: u64| #[trigger] self.oracle().requires((d, t))
    }

    /// Starts a run on `cities` from a random tour, drawn with a generator seeded by `seed`.
    pub fn new(cities: Vec<City>, param: Params, seed: u64, accept_uphill: F) -> (r: Self)
        requires
            cities@.len() >= 2,
            param.valid(),
            forall|d: u128, t: u64| #[trigger] accept_uphill.requires((d, t)),
        ensures
            r.wf(),
            crate::tour::measures(r.table(), cities@),
            r.params() == param,
            r.oracle() == accept_uphill,
            r.temperature() == param.start_temp,
            r.steps() == 0,
            r.candidate() == 0,
            r.last_decrease() == 0,
            r.sample() == r.current(),
            exists|pos: Seq<usize>|
                pos.len() == cities@.len() && insertion_positions(pos) && r.current()
                    == #[trigger] inserted_tour(pos),
    {
        let mut rng = seeded_rng(seed);
        let dist = DistanceMatrix::new(&cities);
        let n = cities.len();
        // each city in turn goes to a random place among those already placed
        let mut positions: Vec<usize> = Vec::with_capacity(n);
        let mut i: usize = 0;
        while i < n
            invariant
                i <= n,
                positions@.len() == i,
                insertion_positions(positions@),
            decreases n - i,
        {
            positions.push(draw_below(&mut rng, i + 1));
            i += 1;
        }
        let path = insert_tour(&positions);
        let length = dist.tour_length(&path);
        let sample = path.clone();
        proof {
            assert(sample@ =~= path@);
        }
        Annealing {
            param,
            dist,
            temperature: param.start_temp,
            step: 0,
            candidate: 0,
            last_decrease: 0,
            path,
            sample,
            length,
            rng,
            accept_uphill,
        }
    }

    /// Evaluates one candidate, or closes a batch when all of its candidates are done.
    ///
    /// A candidate is a random neighbour of the accepted tour. One that is no longer is
    /// always accepted; a longer one only when the acceptance test says so. A batch closes
    /// by cooling, or by reporting that the run is over once the batch count passes its
    /// limit or too many batches went by without a shorter tour.
    pub fn step(&mut self) -> (done: bool)
        requires
            old(self).wf(),
        ensures
            final(self).wf(),
            final(self).table() == old(self).table(),
            final(self).params() == old(self).params(),
            final(self).oracle() == old(self).oracle(),
            final(self).temperature() <= old(self).temperature(),
            old(self).candidate() < old(self).params().candidates ==> {
                &&& !done
                &&& final(self).candidate() == old(self).candidate() + 1
                &&& final(self).steps() == old(self).steps()
                &&& final(self).temperature() == old(self).temperature()
                &&& is_neighbour(old(self).current(), final(self).sample())
                &&& final(self).current() == final(self).sample() || final(self).current() == old(
                    self,
                ).current()
                &&& final(self).current_length() == tour_len(final(self).table(), final(self).current())
                &&& tour_len(final(self).table(), final(self).sample()) <= old(self).current_length()
                    ==> final(self).current() == final(self).sample()
                &&& tour_len(final(self).table(), final(self).sample()) > old(self).current_length()
                    ==> old(self).oracle().ensures(
                    (
                        (tour_len(final(self).table(), final(self).sample()) - old(
                            self,
                        ).current_length()) as u128,
                        old(self).temperature(),
                    ),
                    final(self).current() == final(self).sample(),
                )
                &&& final(self).last_decrease() == if final(self).current_length() < old(
                    self,
                ).current_length() {
                    old(self).steps()
                } else {
                    old(self).last_decrease()
                }
            },
            old(self).candidate() == old(self).params().candidates ==> {
                &&& final(self).candidate() == 0
                &&& done == (old(self).steps() > old(self).params().max_steps || old(self).steps()
                    - old(self).last_decrease() > old(self).params().max_nodecrease)
                &&& done ==> final(self).steps() == old(self).steps() && final(self).temperature()
                    == old(self).temperature()
                &&& !done ==> final(self).steps() == old(self).steps() + 1 && final(self).temperature()
                    == cooled(old(self).temperature(), old(self).params().temp_mult)
                &&& final(self).current() == old(self).current()
                &&& final(self).sample() == old(self).sample()
                &&& final(self).current_length() == old(self).current_length()
                &&& final(self).last_decrease() == old(self).last_decrease()
            },
    {
        let ghost n = self.cities();
        let ghost oracle = self.oracle();
        if self.candidate < self.param.candidates {
            let kind = draw_below(&mut self.rng, 3);
            let cand = if kind == 0 {
                swap_cities(&self.path, &mut self.rng)
            } else if kind == 1 {
                invert_section(&self.path, &mut self.rng)
            } else {
                shift(&self.path, &mut self.rng)
            };
            proof {
                let p = self.path@;
                if kind == 0 {
                    let (x, y) = choose|x: int, y: int|
                        0 <= x < p.len() && 0 <= y < p.len() && x != y && cand@ == #[trigger] swapped(
                            p,
                            x,
                            y,
                        );
                    lemma_swap_perm(p, n, x, y);
                } else if kind == 1 {
                    let (s, e) = choose|s: int, e: int|
                        0 <= s < e < p.len() && cand@ == #[trigger] inverted(p, s, e);
                    lemma_invert_perm(p, n, s, e);
                } else {
                    lemma_rotate_perm(p, n);
                }
            }
            let new_length = self.dist.tour_length(&cand);
            let accept = if new_length <= self.length {
                true
            } else {
                proof {
                    assert(old(self).oracle().requires(
                        ((new_length - self.length) as u128, self.temperature),
                    ));
                }
                (self.accept_uphill)(new_length - self.length, self.temperature)
            };
            if accept {
                if new_length < self.length {
                    self.last_decrease = self.step;
                }
                self.path = cand.clone();
                self.length = new_length;
                proof {
                    assert(self.path@ =~= cand@);
                }
            }
            self.sample = cand;
            self.candidate += 1;
            proof {
                assert forall|d: u128, t: u64| #[trigger] self.oracle().requires((d, t)) by {
                    assert(oracle.requires((d, t)));
                }
            }
            false
        } else {
            self.candidate = 0;
            proof {
                assert forall|d: u128, t: u64| #[trigger] self.oracle().requires((d, t)) by {
                    assert(oracle.requires((d, t)));
                }
            }
            if self.step > self.param.max_steps || self.step - self.last_decrease
                > self.param.max_nodecrease {
                return true;
            }
            proof {
                assert(self.temperature * self.param.temp_mult <= self.temperature * MULT_ONE)
                    by (nonlinear_arith)
                    requires
                        self.param.temp_mult < MULT_ONE,
                ;
                assert(self.temperature * MULT_ONE <= 0xffff_ffff_ffff_ffffu64 * MULT_ONE)
                    by (nonlinear_arith);
            }
            let t = (self.temperature as u128 * self.param.temp_mult as u128) / (MULT_ONE as u128);
            proof {
                let a = self.temperature * self.param.temp_mult;
                let b = self.temperature as int;
                assert(a / 1_000_000 <= b) by (nonlinear_arith)
                    requires
                        0 <= a <= b * 1_000_000,
                ;
            }
            self.temperature = t as u64;
            self.step += 1;
            false
        }
    }

    /// The present temperature.
    pub fn current_temperature(&self) -> (r: u64)
        ensures
            r == self.temperature(),
    {
        self.temperature
    }

    /// The number of batches completed.
    pub fn batches_done(&self) -> (r: usize)
        ensures
            r == self.steps(),
    {
        self.step
    }

    /// A snapshot of the run: the accepted tour, its length, and the last candidate.
    pub fn state(&self) -> (r: TspState)
        requires
            self.wf(),
        ensures
            r.length == self.current_length(),
            r.path@ == self.current(),
            r.sample@ == self.sample(),
            r.status@ == annealing_line(
                self.steps(),
                self.candidate(),
                self.temperature() / 1000,
                self.temperature() % 1000,
            ),
    {
        let path = self.path.clone();
        let sample = self.sample.clone();
        proof {
            assert(path@ =~= self.path@);
            assert(sample@ =~= self.sample@);
        }
        TspState {
            length: self.length,
            path,
            sample,
            status: annealing_text(
                self.step,
                self.candidate,
                self.temperature / 1000,
                self.temperature % 1000,
            ),
        }
    }
}

/// With two cities a run holds a tour of twice their distance, whatever its settings.
pub proof fn lemma_annealing_two_cities<F: Fn(u128, u64) -> bool>(a: &Annealing<F>)
    requires
        a.wf(),
        a.cities() == 2,
    ensures
        a.current_length() == 2 * a.table()[0][1],
{
    crate::tour::lemma_two_cities(a.table(), a.current());
}

impl<F: Fn(u128, u64) -> bool> TspAlgorithm for Annealing<F> {
    open spec fn inv(&self) -> bool {
        self.wf()
    }

    open spec fn finished(&self) -> bool {
        &&& self.candidate() == 0
        &&& (self.steps() > self.params().max_steps || self.steps() - self.last_decrease()
            > self.params().max_nodecrease)
    }

    open spec fn distances(&self) -> Seq<Seq<u64>> {
        self.table()
    }

    open spec fn reported_tour(&self) -> Seq<usize> {
        self.current()
    }

    open spec fn reported_length(&self) -> nat {
        self.current_length()
    }

    proof fn lemma_reported(&self) {
    }

    open spec fn remaining(&self) -> nat {
        ((self.params().max_steps + 1 - self.steps()) * (self.params().candidates + 1) + (
        self.params().candidates - self.candidate())) as nat
    }

    fn step(&mut self) -> (done: bool) {
        let ghost s = self.steps() as int;
        let ghost c = self.candidate() as int;
        let ghost m = self.params().max_steps as int;
        let ghost k = self.params().candidates as int;
        let done = Annealing::step(self);
        proof {
            if !done && c == k {
                assert((m + 1 - s) * (k + 1) == (m + 1 - (s + 1)) * (k + 1) + (k + 1))
                    by (nonlinear_arith);
            }
            assert(0 <= (m + 1 - self.steps()) * (k + 1)) by (nonlinear_arith)
                requires
                    self.steps() <= m + 1,
                    k >= 0,
            ;
        }
        done
    }

    fn state(&self) -> (r: TspState) {
        Annealing::state(self)
    }
}

} // verus!
