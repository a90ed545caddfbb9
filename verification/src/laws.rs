//! The engine's cross-cutting guarantees, each stated once as a public
//! proof function over the tree's invariants.

use crate::state::State;
use crate::tree::Tree;
use vstd::prelude::*;

verus! {

/// A node can only have positive visits if its parent also has positive
/// visits, wherever the parent is itself a non-root node: backpropagation
/// updates a node only together with all of its ancestors.  The root
/// carries no edge, is never updated, and so says nothing about its
/// children.  `Searcher::search` leaves its tree satisfying both `wf` and
/// `sims_monotone`.
pub proof fn lemma_visits_need_visited_parent<T: State>(t: &Tree<T>, i: int)
    requires
        t.wf(),
        t.sims_monotone(),
        0 <= i < t.spec_len(),
        t.node_at(i).spec_parent_id() is Some,
        t.node_at(t.node_at(i).spec_parent_id().unwrap() as int).spec_edge() is Some,
        t.node_at(i).spec_sims() > 0,
    ensures
        t.node_at(t.node_at(i).spec_parent_id().unwrap() as int).spec_sims() > 0,
{
    let p = t.node_at(i).spec_parent_id().unwrap() as int;
    assert(t.node_at(i).spec_sims() <= t.node_at(p).spec_sims());
}

/// Availability never falls below one for any node ever created: it is
/// initialized to one and never decremented.
pub proof fn lemma_availability_at_least_one<T: State>(t: &Tree<T>, i: int)
    requires
        t.wf(),
        0 <= i < t.spec_len(),
    ensures
        t.node_at(i).spec_avails() >= 1,
{
    assert(t.wf_at(i));
}

/// Exhaustion of the untried-action computation: the difference of the
/// legal set and the tried set is empty exactly when every legal action
/// has been tried.  `Node::pop_action` answers `None` exactly when that
/// difference is empty, and each `Some` inserts exactly the one untried
/// legal action it returns, so repeated calls until `None` leave the tried
/// set holding every legal action observed, each once, with nothing else
/// added.
pub proof fn lemma_pop_action_exhaustion<A>(legal: Set<A>, tried: Set<A>)
    ensures
        legal.difference(tried).is_empty() <==> legal.subset_of(tried),
{
    if legal.difference(tried).is_empty() {
        assert forall|a: A| legal.contains(a) implies tried.contains(a) by {
            if !tried.contains(a) {
                assert(legal.difference(tried).contains(a));
                assert(Set::<A>::empty().contains(a));
            }
        }
    }
    if legal.subset_of(tried) {
        assert forall|a: A| !legal.difference(tried).contains(a) by {}
        assert(legal.difference(tried) =~= Set::<A>::empty());
    }
}

} // verus!
