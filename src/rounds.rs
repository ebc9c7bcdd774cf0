//! Keeping the best result across rounds of library learning: a round whose
//! result is larger than the one kept does not replace it.

use vstd::prelude::*;
use crate::lib_sel::{LibSel, has_lib};

verus! {

/// The sum of the sizes in `s`.
pub open spec fn sum_sizes(s: Seq<usize>) -> nat
    decreases s.len(),
{
    if s.len() == 0 {
        0
    } else {
        sum_sizes(s.drop_last()) + s.last() as nat
    }
}

/// The cost of a round's input: the sizes of its programs, plus one for the
/// `list` node that packs them.
pub fn initial_cost(sizes: &Vec<usize>) -> (r: usize)
    requires
        sum_sizes(sizes@) + 1 <= usize::MAX,
    ensures
        r == sum_sizes(sizes@) + 1,
{
    let mut total: usize = 1;
    let mut i: usize = 0;
    while i < sizes.len()
        invariant
            i <= sizes@.len(),
            total == sum_sizes(sizes@.take(i as int)) + 1,
            sum_sizes(sizes@) + 1 <= usize::MAX,
        decreases sizes@.len() - i,
    {
        proof {
            assert(sizes@.take(i + 1).drop_last() =~= sizes@.take(i as int));
            lemma_sum_sizes_prefix(sizes@, i + 1);
        }
        total = total + sizes[i];
        i += 1;
    }
    assert(sizes@.take(i as int) =~= sizes@);
    total
}

proof fn lemma_sum_sizes_prefix(s: Seq<usize>, j: int)
    requires
        0 <= j <= s.len(),
    ensures
        sum_sizes(s.take(j)) <= sum_sizes(s),
    decreases s.len() - j,
{
    if j < s.len() {
        assert(s.take(j + 1).drop_last() =~= s.take(j));
        lemma_sum_sizes_prefix(s, j + 1);
    } else {
        assert(s.take(j) =~= s);
    }
}

/// The ids below `n_rewrites` of the libraries that `best` uses, ascending:
/// the library rewrites that a round keeps for extraction.
pub fn chosen_libs(best: &LibSel, n_rewrites: usize) -> (r: Vec<usize>)
    ensures
        forall|i: int, j: int| 0 <= i < j < r@.len() ==> r@[i] < r@[j],
        forall|x: usize| r@.contains(x) <==> (x < n_rewrites && has_lib(best@.libs, x)),
{
    let libs = best.libs();
    let mut r: Vec<usize> = Vec::new();
    let mut x: usize = 0;
    while x < n_rewrites
        invariant
            x <= n_rewrites,
            libs@ == best@.libs,
            forall|i: int, j: int| 0 <= i < j < r@.len() ==> r@[i] < r@[j],
            forall|i: int| 0 <= i < r@.len() ==> r@[i] < x,
            forall|y: usize| r@.contains(y) <==> (y < x && has_lib(best@.libs, y)),
        decreases n_rewrites - x,
    {
        let mut found = false;
        let mut k: usize = 0;
        while k < libs.len()
            invariant
                k <= libs@.len(),
                found == exists|m: int| 0 <= m < k && #[trigger] libs@[m].0 == x,
            decreases libs@.len() - k,
        {
            if libs[k].0 == x {
                found = true;
            }
            k += 1;
        }
        let ghost before = r@;
        if found {
            r.push(x);
        }
        proof {
            assert forall|y: usize| r@.contains(y) <==> (y < x + 1 && has_lib(best@.libs, y)) by {
                if r@.contains(y) {
                    let m = choose|m: int| 0 <= m < r@.len() && r@[m] == y;
                    if m < before.len() {
                        assert(before.contains(y));
                    }
                }
                if y < x + 1 && has_lib(best@.libs, y) {
                    if y < x {
                        assert(before.contains(y));
                        let m = choose|m: int| 0 <= m < before.len() && before[m] == y;
                        assert(r@[m] == y);
                    } else {
                        assert(r@[before.len() as int] == y);
                    }
                }
            }
        }
        x += 1;
    }
    r
}

/// The cost kept after rounds whose final costs are `costs`, starting from
/// an input of cost `initial`: a round replaces the kept result when its
/// cost is no greater.
pub open spec fn kept_cost(initial: nat, costs: Seq<nat>) -> nat
    decreases costs.len(),
{
    if costs.len() == 0 {
        initial
    } else {
        let before = kept_cost(initial, costs.drop_last());
        if costs.last() <= before {
            costs.last()
        } else {
            before
        }
    }
}

/// The kept cost never grows from one round to a later one, and never
/// exceeds the cost of the input.
pub proof fn lemma_kept_cost_monotone(initial: nat, costs: Seq<nat>, i: int, j: int)
    requires
        0 <= i <= j <= costs.len(),
    ensures
        kept_cost(initial, costs.take(j)) <= kept_cost(initial, costs.take(i)),
        kept_cost(initial, costs.take(j)) <= initial,
    decreases j - i,
{
    if i < j {
        lemma_kept_cost_monotone(initial, costs, i, j - 1);
        assert(costs.take(j).drop_last() =~= costs.take(j - 1));
    } else {
        lemma_kept_cost_initial(initial, costs.take(j));
    }
}

proof fn lemma_kept_cost_initial(initial: nat, costs: Seq<nat>)
    ensures
        kept_cost(initial, costs) <= initial,
    decreases costs.len(),
{
    if costs.len() > 0 {
        lemma_kept_cost_initial(initial, costs.drop_last());
    }
}

/// The result kept across rounds: its cost, the round that produced it
/// (zero for the input itself), and the number of rounds seen.
pub struct RoundBest {
    best_cost: usize,
    best_round: usize,
    rounds: usize,
    costs: Ghost<Seq<nat>>,
    initial: Ghost<nat>,
}

impl RoundBest {
    /// The final costs of the rounds seen so far, in order.
    pub closed spec fn costs(&self) -> Seq<nat> {
        self.costs@
    }

    /// The cost of the input.
    pub closed spec fn initial(&self) -> nat {
        self.initial@
    }

    /// The cost of the kept result.
    pub closed spec fn spec_best_cost(&self) -> nat {
        self.best_cost as nat
    }

    /// The round that produced the kept result.
    pub closed spec fn spec_best_round(&self) -> nat {
        self.best_round as nat
    }

    /// The kept cost is the one that the rounds seen so far give, and the
    /// round count is their number.
    pub closed spec fn wf(&self) -> bool {
        &&& self.best_cost as nat == kept_cost(self.initial@, self.costs@)
        &&& self.rounds as nat == self.costs@.len()
        &&& self.best_round <= self.rounds
    }

    /// Starts from an input of cost `initial_cost`, before any round.
    pub fn new(initial_cost: usize) -> (r: RoundBest)
        ensures
            r.wf(),
            r.costs() == Seq::<nat>::empty(),
            r.initial() == initial_cost as nat,
            r.spec_best_cost() == initial_cost as nat,
            r.spec_best_round() == 0,
    {
        RoundBest {
            best_cost: initial_cost,
            best_round: 0,
            rounds: 0,
            costs: Ghost(Seq::empty()),
            initial: Ghost(initial_cost as nat),
        }
    }

    /// Takes in the final cost of the next round; returns whether its
    /// result replaces the kept one, which it does when it costs no more.
    pub fn observe(&mut self, final_cost: usize) -> (r: bool)
        requires
            old(self).wf(),
            old(self).costs().len() < usize::MAX,
        ensures
            final(self).wf(),
            final(self).costs() == old(self).costs().push(final_cost as nat),
            final(self).initial() == old(self).initial(),
            r == (final_cost as nat <= old(self).spec_best_cost()),
            r ==> final(self).spec_best_round() == final(self).costs().len(),
            !r ==> final(self).spec_best_round() == old(self).spec_best_round(),
            final(self).spec_best_cost() == kept_cost(final(self).initial(), final(self).costs()),
            final(self).spec_best_cost() <= old(self).spec_best_cost(),
    {
        let ghost old_costs = self.costs@;
        self.rounds = self.rounds + 1;
        self.costs = Ghost(self.costs@.push(final_cost as nat));
        proof {
            assert(self.costs@.drop_last() =~= old_costs);
        }
        if final_cost <= self.best_cost {
            self.best_cost = final_cost;
            self.best_round = self.rounds;
            true
        } else {
            false
        }
    }

    /// The cost of the kept result.
    pub fn best_cost(&self) -> (r: usize)
        ensures
            r == self.spec_best_cost(),
    {
        self.best_cost
    }

    /// The round that produced the kept result; zero for the input.
    pub fn best_round(&self) -> (r: usize)
        ensures
            r == self.spec_best_round(),
    {
        self.best_round
    }
}

} // verus!
