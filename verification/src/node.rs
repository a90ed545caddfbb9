//! One vertex of the search tree: the edge that led to it, its parent and
//! children, the actions already tried from it, and its running statistics.

use crate::actions::ActionList;
use crate::edge::Edge;
use crate::fixed::{div_trunc, div_trunc_i64, sat_add_i64, sat_i64, sat_usize, uct_fp, uct_fp_exec};
use crate::state::State;
use vstd::prelude::*;

verus! {

/// A search-tree node.  `visits` (here `num_sims`) counts completed
/// simulations backpropagated through the node; `num_avails` counts the
/// selection passes in which the node's action was a legal candidate at its
/// parent, and starts at one for the node's own creation.  Both counters
/// saturate at `usize::MAX` instead of wrapping.
pub struct Node<T: State> {
    edge: Option<Edge<T::Action>>,
    parent_id: Option<usize>,
    child_ids: Vec<usize>,
    tried_actions: T::ActionList,
    num_sims: usize,
    num_avails: usize,
    score: i64,
}

/// A diagnostic snapshot of one node's statistics.  For a node that was
/// never visited the average is reported as zero.
#[derive(Debug, Clone, Copy)]
pub struct NodeStats {
    pub avg_score: i64,
    pub num_sims: usize,
    pub num_avails: usize,
}

impl<T: State> Node<T> {
    pub closed spec fn spec_edge(&self) -> Option<Edge<T::Action>> {
        self.edge
    }

    pub closed spec fn spec_parent_id(&self) -> Option<usize> {
        self.parent_id
    }

    pub closed spec fn spec_children(&self) -> Seq<usize> {
        self.child_ids@
    }

    pub closed spec fn spec_tried(&self) -> Set<T::Action> {
        self.tried_actions.actions()
    }

    pub closed spec fn spec_sims(&self) -> usize {
        self.num_sims
    }

    pub closed spec fn spec_avails(&self) -> usize {
        self.num_avails
    }

    pub closed spec fn spec_score(&self) -> i64 {
        self.score
    }

    /// Every node ever created has been offered at least once.
    pub open spec fn wf(&self) -> bool {
        self.spec_avails() >= 1
    }

    /// The structure of the node: everything except the three statistics
    /// counters and the tried actions.
    pub open spec fn same_shape(a: &Self, b: &Self) -> bool {
        &&& a.spec_edge() == b.spec_edge()
        &&& a.spec_parent_id() == b.spec_parent_id()
        &&& a.spec_children() == b.spec_children()
    }

    /// Everything equal except possibly the availability count.
    pub open spec fn same_but_avails(a: &Self, b: &Self) -> bool {
        &&& Self::same_shape(a, b)
        &&& a.spec_tried() == b.spec_tried()
        &&& a.spec_sims() == b.spec_sims()
        &&& a.spec_score() == b.spec_score()
    }

    pub fn new(edge: Option<Edge<T::Action>>, parent_id: Option<usize>) -> (r: Self)
        ensures
            r.spec_edge() == edge,
            r.spec_parent_id() == parent_id,
            r.spec_children() == Seq::<usize>::empty(),
            r.spec_tried() == Set::<T::Action>::empty(),
            r.spec_sims() == 0,
            r.spec_avails() == 1,
            r.spec_score() == 0,
            r.wf(),
    {
        let child_ids: Vec<usize> = Vec::new();
        proof {
            assert(child_ids@ =~= Seq::<usize>::empty());
        }
        Node {
            edge,
            parent_id,
            child_ids,
            tried_actions: <T::ActionList as ActionList<T::Action>>::uninit(),
            num_sims: 0,
            num_avails: 1,
            score: 0,
        }
    }

    pub fn add_child(&mut self, child_id: usize)
        ensures
            final(self).spec_children() == old(self).spec_children().push(child_id),
            final(self).spec_edge() == old(self).spec_edge(),
            final(self).spec_parent_id() == old(self).spec_parent_id(),
            final(self).spec_tried() == old(self).spec_tried(),
            final(self).spec_sims() == old(self).spec_sims(),
            final(self).spec_avails() == old(self).spec_avails(),
            final(self).spec_score() == old(self).spec_score(),
    {
        self.child_ids.push(child_id)
    }

    /// Whether at least one action legal right now has not been tried here.
    pub fn has_untried_actions(&self, legal_actions: &T::ActionList) -> (r: bool)
        ensures
            r == !legal_actions.actions().difference(self.spec_tried()).is_empty(),
    {
        !legal_actions.without(&self.tried_actions).is_empty()
    }

    /// Extracts one untried legal action, records it as tried, and returns
    /// it; returns `None` exactly when every legal action was already
    /// tried.
    pub fn pop_action(&mut self, legal_actions: &T::ActionList) -> (r: Option<T::Action>)
        ensures
            final(self).spec_edge() == old(self).spec_edge(),
            final(self).spec_parent_id() == old(self).spec_parent_id(),
            final(self).spec_children() == old(self).spec_children(),
            final(self).spec_sims() == old(self).spec_sims(),
            final(self).spec_avails() == old(self).spec_avails(),
            final(self).spec_score() == old(self).spec_score(),
            match r {
                Option::Some(a) => legal_actions.actions().contains(a) && !old(
                    self,
                ).spec_tried().contains(a) && final(self).spec_tried() == old(
                    self,
                ).spec_tried().insert(a),
                Option::None => final(self).spec_tried() == old(self).spec_tried()
                    && legal_actions.actions().difference(old(self).spec_tried()).is_empty(),
            },
    {
        let mut candidates = legal_actions.without(&self.tried_actions);
        let action = candidates.pop_random();
        if let Some(a) = action {
            self.tried_actions.push(a);
        }
        action
    }

    /// One more selection pass offered this node's action as a candidate.
    pub fn increase_availability(&mut self)
        ensures
            final(self).spec_avails() == sat_usize(old(self).spec_avails() + 1),
            final(self).spec_edge() == old(self).spec_edge(),
            final(self).spec_parent_id() == old(self).spec_parent_id(),
            final(self).spec_children() == old(self).spec_children(),
            final(self).spec_tried() == old(self).spec_tried(),
            final(self).spec_sims() == old(self).spec_sims(),
            final(self).spec_score() == old(self).spec_score(),
            old(self).wf() ==> final(self).wf(),
    {
        if self.num_avails < usize::MAX {
            self.num_avails = self.num_avails + 1;
        }
    }

    /// Credits one completed simulation to this node.
    pub fn update(&mut self, reward: i64)
        ensures
            final(self).spec_sims() == sat_usize(old(self).spec_sims() + 1),
            final(self).spec_score() == sat_i64(old(self).spec_score() + reward),
            final(self).spec_edge() == old(self).spec_edge(),
            final(self).spec_parent_id() == old(self).spec_parent_id(),
            final(self).spec_children() == old(self).spec_children(),
            final(self).spec_tried() == old(self).spec_tried(),
            final(self).spec_avails() == old(self).spec_avails(),
    {
        if self.num_sims < usize::MAX {
            self.num_sims = self.num_sims + 1;
        }
        self.score = sat_add_i64(self.score, reward);
    }

    pub fn edge(&self) -> (r: Option<Edge<T::Action>>)
        ensures
            r == self.spec_edge(),
    {
        self.edge
    }

    pub fn child_ids_ref(&self) -> (r: &Vec<usize>)
        ensures
            r@ == self.spec_children(),
    {
        &self.child_ids
    }

    pub fn parent_id(&self) -> (r: Option<usize>)
        ensures
            r == self.spec_parent_id(),
    {
        self.parent_id
    }

    pub fn num_sims(&self) -> (r: usize)
        ensures
            r == self.spec_sims(),
    {
        self.num_sims
    }

    /// The average reward per visit, truncated toward zero.  Meaningless
    /// before the first visit, hence the precondition.
    pub fn avg_score(&self) -> (r: i64)
        requires
            self.spec_sims() >= 1,
        ensures
            r == div_trunc(self.spec_score() as int, self.spec_sims() as int),
    {
        div_trunc_i64(self.score, self.num_sims as u64)
    }

    /// The UCT score with exploration constant `c`: the average score plus
    /// `c * sqrt(ln(availability) / visits)`, in fixed point.  An unvisited
    /// node scores `i64::MAX`.
    pub fn uct_score(&self, c: i64) -> (r: i64)
        requires
            self.wf(),
        ensures
            r == uct_fp(
                self.spec_score() as int,
                self.spec_sims() as int,
                self.spec_avails() as int,
                c as int,
            ),
    {
        uct_fp_exec(self.score, self.num_sims, self.num_avails, c)
    }

    /// A statistics snapshot; the average of an unvisited node reads zero.
    pub fn stats(&self) -> (r: NodeStats)
        ensures
            r.num_sims == self.spec_sims(),
            r.num_avails == self.spec_avails(),
            r.avg_score == if self.spec_sims() == 0 {
                0int
            } else {
                div_trunc(self.spec_score() as int, self.spec_sims() as int)
            },
    {
        let avg_score: i64 = if self.num_sims == 0 {
            0
        } else {
            div_trunc_i64(self.score, self.num_sims as u64)
        };
        NodeStats { avg_score, num_sims: self.num_sims, num_avails: self.num_avails }
    }
}

} // verus!
