//! The per-iteration loop: determinize, select, expand, roll out,
//! backpropagate, under a wall-clock time budget.

use crate::fixed::sat_usize;
use crate::node::{Node, NodeStats};
use crate::state::State;
use crate::tree::Tree;
use vstd::prelude::*;

verus! {

#[verifier::external_type_specification]
#[verifier::external_body]
pub struct ExInstant(std::time::Instant);

/// Relies on std::time::Instant::now: a reading of the monotonic wall
/// clock, about which nothing can be promised.
#[verifier::external_body]
fn clock_now() -> std::time::Instant {
    std::time::Instant::now()
}

/// Relies on std::time::Instant::elapsed: the time since `started`, which
/// depends on the wall clock, so nothing is promised of it.
#[verifier::external_body]
fn elapsed_since(started: &std::time::Instant) -> std::time::Duration {
    started.elapsed()
}

/// Relies on std::time::Duration::as_millis: the duration in whole
/// milliseconds.
#[verifier::external_body]
fn duration_millis(duration: &std::time::Duration) -> u128 {
    duration.as_millis()
}

/// The time budget is consulted once per `CHECK_INTERVAL` iterations, so
/// that the clock is not read in the hot loop.
pub const CHECK_INTERVAL: usize = 2048;

/// A hard ceiling on the iteration counter, far beyond anything a time
/// budget can reach, so that the counter provably never overflows.
pub const SIM_LIMIT: usize = usize::MAX / 4;

/// What one `search` call returns: the recommendation and its diagnostics.
pub struct SearchResult<T: State> {
    pub num_simulations: usize,
    pub duration: std::time::Duration,
    pub best_action: Option<T::Action>,
    pub child_stats: Vec<(NodeStats, T::Action)>,
    pub tree_size: usize,
}

/// Orchestrates the search: owns the tree and runs the iteration loop.
pub struct Searcher<T: State> {
    tree: Tree<T>,
}

impl<T: State> Searcher<T> {
    pub closed spec fn spec_tree(&self) -> Tree<T> {
        self.tree
    }

    pub fn new(c: i64, default_capacity: usize) -> (r: Self)
        ensures
            r.spec_tree().wf(),
            r.spec_tree().spec_len() == 0,
            r.spec_tree().spec_c() == c,
            r.spec_tree().spec_capacity() == default_capacity,
    {
        Searcher { tree: Tree::new(c, default_capacity) }
    }

    /// Read access to the tree of the most recent search, for diagnostics.
    pub fn tree(&self) -> (r: &Tree<T>)
        ensures
            *r == self.spec_tree(),
    {
        &self.tree
    }

    /// One full search over `state` under a time budget of `time`
    /// milliseconds.  The budget is checked every `CHECK_INTERVAL`
    /// iterations, so the simulation count is always a multiple of it; a
    /// budget of zero still runs whole batches until the clock reports a
    /// positive elapsed time.  After the call the tree is well formed,
    /// every node's availability is at least one, and visit counts are
    /// monotone along every parent chain below the root.
    pub fn search(&mut self, state: &T, inference: &T::Inference, time: u128) -> (r: SearchResult<
        T,
    >)
        ensures
            final(self).spec_tree().wf(),
            final(self).spec_tree().sims_monotone(),
            final(self).spec_tree().spec_len() >= 1,
            final(self).spec_tree().spec_c() == old(self).spec_tree().spec_c(),
            final(self).spec_tree().spec_capacity() == old(self).spec_tree().spec_capacity(),
            final(self).spec_tree().node_at(0).spec_edge() is None,
            final(self).spec_tree().node_at(0).spec_parent_id() is None,
            r.tree_size == final(self).spec_tree().spec_len(),
            r.tree_size <= r.num_simulations + 1,
            forall|n: int|
                #![trigger final(self).spec_tree().node_at(n)]
                0 <= n < final(self).spec_tree().spec_len() ==> final(self).spec_tree().node_at(
                    n,
                ).spec_sims() <= r.num_simulations,
            r.num_simulations as int % CHECK_INTERVAL as int == 0,
            r.best_action is Some ==> exists|k: int|
                0 <= k < final(self).spec_tree().node_at(0).spec_children().len() && r.best_action.unwrap()
                    == #[trigger] final(self).spec_tree().child_action(0, k),
            forall|m: int|
                0 <= m < r.child_stats@.len() ==> final(self).spec_tree().stats_entry_ok(
                    0,
                    #[trigger] r.child_stats@[m],
                ),
    {
        self.tree.reset();
        let root_id = self.tree.add_node(None, None);
        let mut i: usize = 0;
        let started = clock_now();
        loop
            invariant_except_break
                self.tree.wf(),
                self.tree.sims_monotone(),
                self.tree.spec_len() >= 1,
                self.tree.spec_len() <= i + 1,
                self.tree.spec_c() == old(self).spec_tree().spec_c(),
                self.tree.spec_capacity() == old(self).spec_tree().spec_capacity(),
                self.tree.node_at(0).spec_edge() is None,
                self.tree.node_at(0).spec_parent_id() is None,
                forall|n: int|
                    0 <= n < self.tree.spec_len() ==> (#[trigger] self.tree.node_at(
                        n,
                    )).spec_sims() <= i,
                root_id == 0,
                i <= SIM_LIMIT + CHECK_INTERVAL,
                i as int % CHECK_INTERVAL as int != 0 ==> i as int - (i as int
                    % CHECK_INTERVAL as int) < SIM_LIMIT as int,
            ensures
                self.tree.wf(),
                self.tree.sims_monotone(),
                self.tree.spec_len() >= 1,
                self.tree.spec_len() <= i + 1,
                self.tree.spec_c() == old(self).spec_tree().spec_c(),
                self.tree.spec_capacity() == old(self).spec_tree().spec_capacity(),
                self.tree.node_at(0).spec_edge() is None,
                self.tree.node_at(0).spec_parent_id() is None,
                forall|n: int|
                    0 <= n < self.tree.spec_len() ==> (#[trigger] self.tree.node_at(
                        n,
                    )).spec_sims() <= i,
                root_id == 0,
                i as int % CHECK_INTERVAL as int == 0,
            decreases SIM_LIMIT + 2 * CHECK_INTERVAL - i,
        {
            if i % CHECK_INTERVAL == 0 {
                if i >= SIM_LIMIT {
                    break ;
                }
                let elapsed = elapsed_since(&started);
                if duration_millis(&elapsed) > time {
                    break ;
                }
            }
            let ghost t0 = self.tree;
            let mut determinized = state.randomize(state.turn(), inference);
            let node_id = self.tree.select(root_id, &mut determinized);
            let ghost t1 = self.tree;
            let node_id = self.tree.expand(node_id, &mut determinized);
            let ghost t2 = self.tree;
            determinized.do_rollout();
            self.backpropagate(&determinized, node_id);
            proof {
                assert forall|n: int|
                    0 <= n < self.tree.spec_len() implies (#[trigger] self.tree.node_at(
                    n,
                )).spec_sims() <= i + 1 by {
                    assert(t2.node_at(n).spec_sims() <= i) by {
                        if n < t0.spec_len() {
                            assert(t1.node_at(n).spec_sims() == t0.node_at(n).spec_sims());
                            assert(t2.node_at(n).spec_sims() == t1.node_at(n).spec_sims());
                        } else {
                            assert(t2.node_at(n).spec_sims() == 0);
                        }
                    }
                }
                assert(self.tree.node_at(0).spec_edge() is None) by {
                    assert(t1.node_at(0).spec_edge() == t0.node_at(0).spec_edge());
                    assert(t2.node_at(0).spec_edge() == t1.node_at(0).spec_edge());
                }
                assert(self.tree.node_at(0).spec_parent_id() is None) by {
                    assert(t1.node_at(0).spec_parent_id() == t0.node_at(0).spec_parent_id());
                    assert(t2.node_at(0).spec_parent_id() == t1.node_at(0).spec_parent_id());
                }
            }
            i = i + 1;
        }
        let duration = elapsed_since(&started);
        SearchResult {
            num_simulations: i,
            duration,
            best_action: self.tree.best_action(root_id, state),
            child_stats: self.tree.child_stats(root_id, state),
            tree_size: self.tree.get_size(),
        }
    }

    /// Credits the rolled-out state's reward to every node on the path
    /// from `node_id` to the root that carries an edge, attributing each
    /// node's share to the actor recorded on its edge: each such node's
    /// visit count grows by exactly one (saturating), with its shape, tried
    /// set and availability untouched.  Every other node is untouched
    /// entirely; in particular the root, which has no edge, is skipped.
    /// Only the updated nodes' scores are open, since the reward values
    /// come from the uncontracted game.
    fn backpropagate(&mut self, state: &T, node_id: usize)
        requires
            old(self).spec_tree().wf(),
            node_id < old(self).spec_tree().spec_len(),
        ensures
            final(self).spec_tree().wf(),
            final(self).spec_tree().spec_len() == old(self).spec_tree().spec_len(),
            final(self).spec_tree().spec_c() == old(self).spec_tree().spec_c(),
            final(self).spec_tree().spec_capacity() == old(self).spec_tree().spec_capacity(),
            old(self).spec_tree().sims_monotone() ==> final(self).spec_tree().sims_monotone(),
            forall|n: int|
                #![trigger final(self).spec_tree().node_at(n)]
                0 <= n < old(self).spec_tree().spec_len() ==> if old(self).spec_tree().on_path(
                    n,
                    node_id as int,
                ) && old(self).spec_tree().node_at(n).spec_edge() is Some {
                    &&& Node::same_shape(
                        &final(self).spec_tree().node_at(n),
                        &old(self).spec_tree().node_at(n),
                    )
                    &&& final(self).spec_tree().node_at(n).spec_tried() == old(
                        self,
                    ).spec_tree().node_at(n).spec_tried()
                    &&& final(self).spec_tree().node_at(n).spec_avails() == old(
                        self,
                    ).spec_tree().node_at(n).spec_avails()
                    &&& final(self).spec_tree().node_at(n).spec_sims() == sat_usize(
                        old(self).spec_tree().node_at(n).spec_sims() + 1,
                    )
                } else {
                    final(self).spec_tree().node_at(n) == old(self).spec_tree().node_at(n)
                },
    {
        let ghost orig = old(self).spec_tree();
        let ghost leaf = node_id as int;
        let mut cur: usize = node_id;
        proof {
            assert forall|n: int|
                0 <= n < orig.spec_len() && #[trigger] orig.on_path(n, leaf) implies n <= leaf by {
                orig.lemma_on_path_bounds(n, leaf);
            }
        }
        loop
            invariant_except_break
                orig.wf(),
                0 <= leaf < orig.spec_len(),
                self.tree.wf(),
                self.tree.spec_len() == orig.spec_len(),
                self.tree.spec_c() == orig.spec_c(),
                self.tree.spec_capacity() == orig.spec_capacity(),
                cur < orig.spec_len(),
                orig.on_path(cur as int, leaf),
                forall|n: int|
                    #![trigger self.tree.node_at(n)]
                    0 <= n < orig.spec_len() ==> if orig.on_path(n, leaf) && n > cur as int
                        && orig.node_at(n).spec_edge() is Some {
                        &&& Node::same_shape(&self.tree.node_at(n), &orig.node_at(n))
                        &&& self.tree.node_at(n).spec_tried() == orig.node_at(n).spec_tried()
                        &&& self.tree.node_at(n).spec_avails() == orig.node_at(n).spec_avails()
                        &&& self.tree.node_at(n).spec_sims() == sat_usize(
                            orig.node_at(n).spec_sims() + 1,
                        )
                    } else {
                        self.tree.node_at(n) == orig.node_at(n)
                    },
            ensures
                self.tree.wf(),
                self.tree.spec_len() == orig.spec_len(),
                self.tree.spec_c() == orig.spec_c(),
                self.tree.spec_capacity() == orig.spec_capacity(),
                forall|n: int|
                    #![trigger self.tree.node_at(n)]
                    0 <= n < orig.spec_len() ==> if orig.on_path(n, leaf) && orig.node_at(
                        n,
                    ).spec_edge() is Some {
                        &&& Node::same_shape(&self.tree.node_at(n), &orig.node_at(n))
                        &&& self.tree.node_at(n).spec_tried() == orig.node_at(n).spec_tried()
                        &&& self.tree.node_at(n).spec_avails() == orig.node_at(n).spec_avails()
                        &&& self.tree.node_at(n).spec_sims() == sat_usize(
                            orig.node_at(n).spec_sims() + 1,
                        )
                    } else {
                        self.tree.node_at(n) == orig.node_at(n)
                    },
            decreases cur,
        {
            let ghost pre_iter = self.tree;
            let edge = self.tree.get_edge(cur);
            if let Some(e) = edge {
                let reward = state.reward(e.actor());
                self.tree.update_node(cur, reward);
            }
            let parent = self.tree.get_parent_id(cur);
            proof {
                assert(self.tree.node_at(cur as int).spec_parent_id() == orig.node_at(
                    cur as int,
                ).spec_parent_id());
                assert(orig.wf_at(cur as int));
            }
            match parent {
                Some(p) => {
                    proof {
                        orig.lemma_on_path_parent(cur as int, leaf);
                        assert(orig.on_path(p as int, leaf));
                        assert(p < cur);
                        assert forall|n: int|
                            #![trigger self.tree.node_at(n)]
                            0 <= n < orig.spec_len() implies if orig.on_path(n, leaf) && n
                            > p as int && orig.node_at(n).spec_edge() is Some {
                            &&& Node::same_shape(&self.tree.node_at(n), &orig.node_at(n))
                            &&& self.tree.node_at(n).spec_tried() == orig.node_at(n).spec_tried()
                            &&& self.tree.node_at(n).spec_avails() == orig.node_at(
                                n,
                            ).spec_avails()
                            &&& self.tree.node_at(n).spec_sims() == sat_usize(
                                orig.node_at(n).spec_sims() + 1,
                            )
                        } else {
                            self.tree.node_at(n) == orig.node_at(n)
                        } by {
                            if orig.on_path(n, leaf) && n != cur as int && (p as int) < n {
                                if n < cur as int {
                                    orig.lemma_on_path_linear(n, cur as int, leaf);
                                    orig.lemma_on_path_bounds(n, p as int);
                                    assert(false);
                                }
                            }
                        }
                    }
                    cur = p;
                },
                None => {
                    proof {
                        assert forall|n: int|
                            #![trigger self.tree.node_at(n)]
                            0 <= n < orig.spec_len() implies if orig.on_path(n, leaf)
                            && orig.node_at(n).spec_edge() is Some {
                            &&& Node::same_shape(&self.tree.node_at(n), &orig.node_at(n))
                            &&& self.tree.node_at(n).spec_tried() == orig.node_at(n).spec_tried()
                            &&& self.tree.node_at(n).spec_avails() == orig.node_at(
                                n,
                            ).spec_avails()
                            &&& self.tree.node_at(n).spec_sims() == sat_usize(
                                orig.node_at(n).spec_sims() + 1,
                            )
                        } else {
                            self.tree.node_at(n) == orig.node_at(n)
                        } by {
                            if orig.on_path(n, leaf) && n < cur as int {
                                orig.lemma_on_path_linear(n, cur as int, leaf);
                                assert(false);
                            }
                        }
                    }
                    break ;
                },
            }
        }
        proof {
            if orig.sims_monotone() {
                let post = self.tree;
                assert forall|n: int| 0 <= n < post.spec_len() implies match (
                #[trigger] post.node_at(n)).spec_parent_id() {
                    Option::Some(p) => post.node_at(p as int).spec_edge() is Some
                        ==> post.node_at(n).spec_sims() <= post.node_at(p as int).spec_sims(),
                    Option::None => true,
                } by {
                    assert(orig.wf_at(n));
                    if post.node_at(n).spec_parent_id() is Some {
                        let p = post.node_at(n).spec_parent_id().unwrap() as int;
                        assert(post.node_at(n).spec_parent_id() == orig.node_at(
                            n,
                        ).spec_parent_id());
                        assert(post.node_at(p).spec_edge() == orig.node_at(p).spec_edge());
                        if post.node_at(p).spec_edge() is Some {
                            if orig.on_path(n, leaf) && orig.node_at(n).spec_edge() is Some {
                                orig.lemma_on_path_parent(n, leaf);
                                assert(orig.on_path(p, leaf));
                                assert(post.node_at(p).spec_sims() == sat_usize(
                                    orig.node_at(p).spec_sims() + 1,
                                ));
                            }
                        }
                    }
                }
            }
        }
    }
}

impl<T: State> Default for Searcher<T> {
    /// An exploration constant of `sqrt(2)` in fixed point, and room for
    /// half a million nodes.
    fn default() -> (r: Self)
        ensures
            r.spec_tree().wf(),
            r.spec_tree().spec_len() == 0,
            r.spec_tree().spec_c() == 92682,
            r.spec_tree().spec_capacity() == 500000,
    {
        Searcher { tree: Tree::new(92682, 500000) }
    }
}

} // verus!
