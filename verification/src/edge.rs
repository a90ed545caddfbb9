//! The immutable record of how a node was reached: an action together with
//! the player who took it.

use vstd::prelude::*;

verus! {

/// Identifies one player of the game; the engine never interprets it beyond
/// handing it back to the state's reward function.
pub type PlayerId = usize;

/// "This node was reached by `actor` taking `action` from its parent."
/// Immutable once created.
#[derive(Clone, Copy)]
pub struct Edge<A> {
    action: A,
    actor: PlayerId,
}

impl<A: Copy> Edge<A> {
    pub closed spec fn spec_action(&self) -> A {
        self.action
    }

    pub closed spec fn spec_actor(&self) -> PlayerId {
        self.actor
    }

    pub fn new(action: A, actor: PlayerId) -> (r: Self)
        ensures
            r.spec_action() == action,
            r.spec_actor() == actor,
    {
        Edge { action, actor }
    }

    pub fn action(&self) -> (r: A)
        ensures
            r == self.spec_action(),
    {
        self.action
    }

    pub fn actor(&self) -> (r: PlayerId)
        ensures
            r == self.spec_actor(),
    {
        self.actor
    }
}

} // verus!
