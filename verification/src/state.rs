//! The abstract game capability the engine searches over.

use crate::actions::ActionList;
use crate::edge::PlayerId;
use vstd::prelude::*;

verus! {

/// What a game must supply: turn order, legality, terminal test, action
/// application, determinization, random playout, and reward.
///
/// The methods carry no contracts: the engine assumes nothing about the
/// game, and everything it promises about its own tree holds whatever these
/// methods return.  The collection returned by `possible_actions` is
/// consumed through the [`ActionList`] contract alone.
pub trait State: Sized {
    /// One legal move; small enough to copy freely.
    type Action: Copy;

    /// The action collection this game hands out.
    type ActionList: ActionList<Self::Action>;

    /// An opaque side-channel hint passed through to `randomize`; the
    /// engine neither interprets nor stores it.
    type Inference;

    /// The player whose turn it is.
    fn turn(&self) -> PlayerId;

    /// The legal actions of the current, possibly determinized, state.
    fn possible_actions(&self) -> Self::ActionList;

    /// Whether the game is over.
    fn is_terminal(&self) -> bool;

    /// Plays one action, mutating the state in place.
    fn apply_action(&mut self, action: Self::Action);

    /// A fully observed state consistent with what `perspective` knows,
    /// freshly sampled; called once per search iteration.
    fn randomize(&self, perspective: PlayerId, inference: &Self::Inference) -> Self;

    /// Advances the state to a terminal one by the game's own random
    /// playout policy.
    fn do_rollout(&mut self);

    /// The terminal-state payoff for `actor`, as a fixed-point score in
    /// units of `1 / crate::fixed::FP_ONE`.
    fn reward(&self, actor: PlayerId) -> i64;
}

} // verus!
