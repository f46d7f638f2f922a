//! A cost model under which the cost of a term is its depth.
use vstd::prelude::*;

verus! {

/// The cost type of the depth cost model.
pub type C = usize;

/// Assigns a term its depth as cost, so that an extractor using it picks a
/// shallowest term.
#[derive(Clone, Copy, Debug)]
pub struct AstDepthCostModel;

/// The largest element of `s`, or 0 when `s` is empty.
pub open spec fn seq_max(s: Seq<usize>) -> nat
    decreases s.len(),
{
    if s.len() == 0 {
        0
    } else {
        let rest = seq_max(s.drop_last());
        if s.last() > rest {
            s.last() as nat
        } else {
            rest
        }
    }
}

/// The largest element bounds every element.
pub proof fn lemma_seq_max_bound(s: Seq<usize>, i: int)
    requires
        0 <= i < s.len(),
    ensures
        s[i] <= seq_max(s),
    decreases s.len(),
{
    if i < s.len() - 1 {
        lemma_seq_max_bound(s.drop_last(), i);
    }
}

/// A non-empty sequence reaches its largest element.
pub proof fn lemma_seq_max_attained(s: Seq<usize>)
    requires
        s.len() > 0,
    ensures
        exists|i: int| 0 <= i < s.len() && s[i] == seq_max(s),
    decreases s.len(),
{
    if s.len() > 1 {
        let p = s.drop_last();
        lemma_seq_max_attained(p);
        let i = choose|i: int| 0 <= i < p.len() && p[i] == seq_max(p);
        assert(s[i] == p[i]);
        if !(s.last() > seq_max(p)) {
            assert(s[i] == seq_max(s));
        } else {
            assert(s[s.len() - 1] == seq_max(s));
        }
    } else {
        assert(s.drop_last().len() == 0);
        assert(seq_max(s.drop_last()) == 0);
        assert(s.last() == s[0]);
        assert(s[0] == seq_max(s));
    }
}

/// `seq_max` is the largest element: no element exceeds it, a non-empty
/// sequence reaches it, and the empty sequence has 0.
pub proof fn lemma_seq_max_is_max(s: Seq<usize>)
    ensures
        forall|i: int| 0 <= i < s.len() ==> #[trigger] s[i] <= seq_max(s),
        s.len() > 0 ==> exists|i: int| 0 <= i < s.len() && s[i] == seq_max(s),
        s.len() == 0 ==> seq_max(s) == 0,
{
    assert forall|i: int| 0 <= i < s.len() implies #[trigger] s[i] <= seq_max(s) by {
        lemma_seq_max_bound(s, i);
    }
    if s.len() > 0 {
        lemma_seq_max_attained(s);
    }
}

fn max_of(costs: &[usize]) -> (r: usize)
    ensures
        r == seq_max(costs@),
{
    let mut best: usize = 0;
    let mut i: usize = 0;
    while i < costs.len()
        invariant
            i <= costs.len(),
            best == seq_max(costs@.subrange(0, i as int)),
        decreases costs.len() - i,
    {
        assert(costs@.subrange(0, i + 1).drop_last() =~= costs@.subrange(0, i as int));
        if costs[i] > best {
            best = costs[i];
        }
        i = i + 1;
    }
    assert(costs@.subrange(0, costs.len() as int) =~= costs@);
    best
}

impl AstDepthCostModel {
    /// The cost of a compound term: the largest cost of its children plus
    /// the cost of its head, saturating at `usize::MAX` as egglog's costs
    /// combine.
    pub fn fold(&self, _head: &str, children_cost: &[C], head_cost: C) -> (c: C)
        ensures
            c == if seq_max(children_cost@) + head_cost <= usize::MAX {
                seq_max(children_cost@) + head_cost
            } else {
                usize::MAX as int
            },
            forall|i: int| 0 <= i < children_cost@.len() ==> c >= #[trigger] children_cost@[i],
            forall|i: int|
                0 <= i < children_cost@.len() ==> c >= if #[trigger] children_cost@[i] + head_cost
                    <= usize::MAX {
                    children_cost@[i] + head_cost
                } else {
                    usize::MAX as int
                },
            children_cost@.len() == 0 ==> c == head_cost,
            children_cost@.len() > 0 ==> exists|i: int|
                0 <= i < children_cost@.len() && c == if #[trigger] children_cost@[i] + head_cost
                    <= usize::MAX {
                    children_cost@[i] + head_cost
                } else {
                    usize::MAX as int
                },
    {
        proof {
            lemma_seq_max_is_max(children_cost@);
        }
        max_of(children_cost).saturating_add(head_cost)
    }

    /// The cost of an e-node without its children: one level of depth.
    pub fn enode_cost(&self) -> (c: C)
        ensures
            c == 1,
    {
        1
    }

    /// The cost of a container value: the largest cost of its elements.
    pub fn container_cost(&self, element_costs: &[C]) -> (c: C)
        ensures
            c == seq_max(element_costs@),
            forall|i: int| 0 <= i < element_costs@.len() ==> c >= #[trigger] element_costs@[i],
            element_costs@.len() > 0 ==> exists|i: int|
                0 <= i < element_costs@.len() && c == #[trigger] element_costs@[i],
            element_costs@.len() == 0 ==> c == 0,
    {
        proof {
            lemma_seq_max_is_max(element_costs@);
        }
        max_of(element_costs)
    }

    /// The cost of a primitive value, a leaf: zero.
    pub fn base_value_cost(&self) -> (c: C)
        ensures
            c == 0,
    {
        0
    }
}

} // verus!
