//! A rule scheduler that fires at most `n` matches of a rule per iteration.
use vstd::prelude::*;
use egglog_experimental::EGraph;
use egglog_experimental::ast::Expr;
use egglog_experimental::scheduler::Matches;
use crate::egglog_api::{
    egglog_int_literal, egglog_int_literal_of, matches_all_chosen, matches_choose,
    matches_choose_all, matches_chosen, matches_count, matches_size,
};

verus! {

/// Applies at most `n` matches of a rule in each iteration, so that the
/// e-graph grows more gently than under the default scheduler.
#[derive(Clone, Copy, Debug)]
pub struct FirstNScheduler {
    pub n: usize,
}

/// The indices `0, 1, ..., n - 1`.
pub open spec fn first_indices(n: nat) -> Seq<usize> {
    Seq::new(n, |i: int| i as usize)
}

/// `first_indices(n)` holds exactly `n` indices, the `i`-th being `i`.
pub proof fn lemma_first_indices(n: nat)
    requires
        n <= usize::MAX,
    ensures
        first_indices(n).len() == n,
        forall|i: int| 0 <= i < n ==> #[trigger] first_indices(n)[i] == i,
{
}

impl FirstNScheduler {
    /// Chooses the matches to fire: all of them when there are at most `n`,
    /// and otherwise the first `n`. Returns whether matches remain, that is
    /// whether the rule should be fed a new iteration of matches.
    pub fn filter_matches(&mut self, _rule: &str, _ruleset: &str, matches: &mut Matches) -> (more:
        bool)
        ensures
            *final(self) == *old(self),
            matches_count(*final(matches)) == matches_count(*old(matches)),
            matches_count(*old(matches)) <= old(self).n ==> {
                &&& matches_all_chosen(*final(matches))
                &&& matches_chosen(*final(matches)) == matches_chosen(*old(matches))
            },
            matches_count(*old(matches)) > old(self).n ==> {
                &&& matches_all_chosen(*final(matches)) == matches_all_chosen(*old(matches))
                &&& matches_chosen(*final(matches)) == matches_chosen(*old(matches)) + first_indices(
                    old(self).n as nat,
                )
                &&& matches_chosen(*final(matches)).len() == matches_chosen(*old(matches)).len()
                    + old(self).n
                &&& forall|i: int|
                    0 <= i < matches_chosen(*old(matches)).len() ==> #[trigger] matches_chosen(
                        *final(matches),
                    )[i] == matches_chosen(*old(matches))[i]
                &&& forall|i: int|
                    0 <= i < old(self).n ==> #[trigger] matches_chosen(*final(matches))[matches_chosen(
                        *old(matches),
                    ).len() + i] == i
            },
            more == (matches_count(*old(matches)) > old(self).n),
    {
        let size = matches_size(matches);
        if size <= self.n {
            matches_choose_all(matches);
            false
        } else {
            let ghost chosen0 = matches_chosen(*matches);
            let mut i: usize = 0;
            while i < self.n
                invariant
                    i <= self.n,
                    matches_count(*matches) == size,
                    matches_all_chosen(*matches) == matches_all_chosen(*old(matches)),
                    matches_chosen(*matches) == chosen0 + first_indices(i as nat),
                decreases self.n - i,
            {
                matches_choose(matches, i);
                i = i + 1;
                assert(matches_chosen(*matches) =~= chosen0 + first_indices(i as nat));
            }
            proof {
                lemma_first_indices(self.n as nat);
                let fin = matches_chosen(*matches);
                assert forall|k: int| 0 <= k < self.n implies #[trigger] fin[chosen0.len() + k]
                    == k by {
                    assert(fin[chosen0.len() + k] == first_indices(self.n as nat)[k]);
                }
            }
            true
        }
    }
}

/// Builds a first-n scheduler from its arguments in an egglog schedule: a
/// single integer literal, the number of matches to fire per iteration.
pub fn new_first_n_scheduler(_egraph: &EGraph, exprs: &[Expr]) -> (s: FirstNScheduler)
    requires
        exprs@.len() == 1,
        egglog_int_literal(exprs@[0]) is Some,
    ensures
        s.n == egglog_int_literal(exprs@[0])->0 as usize,
{
    let lit = egglog_int_literal_of(&exprs[0]);
    match lit {
        Some(n) => FirstNScheduler { n: n as usize },
        None => {
            proof {
                assert(false);
            }
            FirstNScheduler { n: 0 }
        },
    }
}

/// Builds a first-n scheduler when the arguments are a single integer
/// literal, and gives `None` otherwise.
pub fn try_new_first_n_scheduler(egraph: &EGraph, exprs: &[Expr]) -> (s: Option<FirstNScheduler>)
    ensures
        s is Some <==> exprs@.len() == 1 && egglog_int_literal(exprs@[0]) is Some,
        s matches Some(sched) ==> sched.n == egglog_int_literal(exprs@[0])->0 as usize,
{
    if exprs.len() != 1 {
        return None;
    }
    match egglog_int_literal_of(&exprs[0]) {
        Some(_) => Some(new_first_n_scheduler(egraph, exprs)),
        None => None,
    }
}

} // verus!
