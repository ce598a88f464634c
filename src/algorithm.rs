use vstd::prelude::*;

use crate::perm::is_perm;
use crate::tour::tour_len;

verus! {

/// What a solver reports after a step.
pub struct TspState {
    /// Length of the best tour held.
    pub length: u128,
    /// The best tour held.
    pub path: Vec<usize>,
    /// The tour most recently looked at.
    pub sample: Vec<usize>,
    /// Progress, in words.
    pub status: String,
}

/// A solver that advances one bounded unit of work per step.
pub trait TspAlgorithm: Sized {
    /// The solver's internal invariant.
    spec fn inv(&self) -> bool;

    /// A bound on the number of steps before the solver reports that it is done.
    spec fn remaining(&self) -> nat;

    /// The solver has nothing left to do; what this promises depends on the solver.
    spec fn finished(&self) -> bool;

    /// The distances between the cities of the problem.
    spec fn distances(&self) -> Seq<Seq<u64>>;

    /// The tour the solver reports.
    spec fn reported_tour(&self) -> Seq<usize>;

    /// The length the solver reports.
    spec fn reported_length(&self) -> nat;

    /// The reported tour visits every city once, and the reported length is its length.
    proof fn lemma_reported(&self)
        requires
            self.inv(),
        ensures
            is_perm(self.reported_tour(), self.distances().len()),
            self.reported_length() == tour_len(self.distances(), self.reported_tour()),
    ;

    /// Does one unit of work; true when there is nothing left to do.
    fn step(&mut self) -> (done: bool)
        requires
            old(self).inv(),
        ensures
            final(self).inv(),
            final(self).distances() == old(self).distances(),
            done ==> final(self).finished(),
            !done ==> final(self).remaining() < old(self).remaining(),
    ;

    /// A snapshot of the solver's progress.
    fn state(&self) -> (r: TspState)
        requires
            self.inv(),
        ensures
            r.length == self.reported_length(),
            r.path@ == self.reported_tour(),
    ;
}

/// Steps `algo` until it is done and reports its final state: a tour through every city,
/// with its length, as reported by the solver once finished.
pub fn run<T: TspAlgorithm>(algo: T) -> (r: TspState)
    requires
        algo.inv(),
    ensures
        is_perm(r.path@, algo.distances().len()),
        r.length == tour_len(algo.distances(), r.path@),
        exists|f: T|
            #[trigger] f.finished() && f.inv() && f.distances() == algo.distances() && r.length
                == f.reported_length() && r.path@ == f.reported_tour(),
{
    let ghost table = algo.distances();
    let mut solver = algo;
    loop
        invariant
            solver.inv(),
            solver.distances() == table,
            table == algo.distances(),
        decreases solver.remaining(),
    {
        if solver.step() {
            proof {
                solver.lemma_reported();
            }
            let r = solver.state();
            assert(solver.finished() && solver.inv() && solver.distances() == table && r.length
                == solver.reported_length() && r.path@ == solver.reported_tour());
            return r;
        }
    }
}

} // verus!
