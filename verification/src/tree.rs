//! The search tree: an arena of nodes addressed by dense integer
//! identifiers, owning selection, expansion and the final recommendation.
//!
//! The structural invariant the whole engine rests on: identifiers are
//! assigned in allocation order, so a child's identifier is strictly greater
//! than its parent's, every child list points forward into the arena, and
//! every node but the root carries the edge it was reached by.

use crate::actions::ActionList;
use crate::edge::Edge;
use crate::fixed::{div_trunc, sat_usize, uct_fp};
use crate::node::{Node, NodeStats};
use crate::state::State;
use vstd::prelude::*;

verus! {

pub struct Tree<T: State> {
    nodes: Vec<Node<T>>,
    index: usize,
    c: i64,
    default_capacity: usize,
}

impl<T: State> Tree<T> {
    pub closed spec fn spec_nodes(&self) -> Seq<Node<T>> {
        self.nodes@
    }

    pub open spec fn spec_len(&self) -> nat {
        self.spec_nodes().len()
    }

    pub open spec fn node_at(&self, i: int) -> Node<T> {
        self.spec_nodes()[i]
    }

    pub closed spec fn spec_index(&self) -> usize {
        self.index
    }

    pub closed spec fn spec_c(&self) -> i64 {
        self.c
    }

    pub closed spec fn spec_capacity(&self) -> usize {
        self.default_capacity
    }

    /// Well-formedness of one node in its arena: availability at least one,
    /// parent strictly earlier, an edge on every non-root node, and child
    /// pointers strictly later, in range, and owned (each child names this
    /// node as its parent).
    pub open spec fn wf_at(&self, i: int) -> bool {
        &&& self.node_at(i).wf()
        &&& match self.node_at(i).spec_parent_id() {
            Option::Some(p) => 0 <= p < i && self.node_at(i).spec_edge() is Some,
            Option::None => true,
        }
        &&& forall|k: int|
            0 <= k < self.node_at(i).spec_children().len() ==> {
                &&& i < #[trigger] self.node_at(i).spec_children()[k] < self.spec_len()
                &&& self.node_at(
                    self.node_at(i).spec_children()[k] as int,
                ).spec_parent_id() == Option::Some(i as usize)
            }
        &&& forall|k1: int, k2: int|
            0 <= k1 < k2 < self.node_at(i).spec_children().len()
                ==> #[trigger] self.node_at(i).spec_children()[k1]
                < #[trigger] self.node_at(i).spec_children()[k2]
    }

    /// The action on the edge of the `j`-th child of `node_id`.
    pub open spec fn child_action(&self, node_id: int, j: int) -> T::Action {
        self.node_at(
            self.node_at(node_id).spec_children()[j] as int,
        ).spec_edge().unwrap().spec_action()
    }

    /// Whether the `j`-th child's action is legal under `legal`.
    pub open spec fn child_legal(&self, node_id: int, j: int, legal: Set<T::Action>) -> bool {
        legal.contains(self.child_action(node_id, j))
    }

    /// The UCT score of the `j`-th child of `node_id`, over this tree's
    /// statistics and exploration constant.
    pub open spec fn child_uct(&self, node_id: int, j: int) -> int {
        let n = self.node_at(self.node_at(node_id).spec_children()[j] as int);
        uct_fp(
            n.spec_score() as int,
            n.spec_sims() as int,
            n.spec_avails() as int,
            self.spec_c() as int,
        )
    }

    /// Whether `i` lies on the parent chain that starts at `start` and
    /// climbs to the root (inclusive of `start` itself).
    pub open spec fn on_path(&self, i: int, start: int) -> bool
        decreases (if start >= 0 { start } else { 0 }),
    {
        if i == start {
            true
        } else if 0 <= start < self.spec_len() {
            match self.node_at(start).spec_parent_id() {
                Option::Some(p) => if (p as int) < start {
                    self.on_path(i, p as int)
                } else {
                    false
                },
                Option::None => false,
            }
        } else {
            false
        }
    }

    /// A path member's identifier never exceeds the start of the path.
    pub proof fn lemma_on_path_bounds(&self, i: int, start: int)
        requires
            self.wf(),
            0 <= start < self.spec_len(),
            self.on_path(i, start),
        ensures
            0 <= i <= start,
        decreases start,
    {
        if i != start {
            assert(self.wf_at(start));
            let p = self.node_at(start).spec_parent_id().unwrap() as int;
            self.lemma_on_path_bounds(i, p);
        }
    }

    /// The parent of a path member is a path member.
    pub proof fn lemma_on_path_parent(&self, i: int, start: int)
        requires
            self.wf(),
            0 <= start < self.spec_len(),
            0 <= i < self.spec_len(),
            self.on_path(i, start),
            self.node_at(i).spec_parent_id() is Some,
        ensures
            self.on_path(self.node_at(i).spec_parent_id().unwrap() as int, start),
        decreases start,
    {
        assert(self.wf_at(i));
        let q = self.node_at(i).spec_parent_id().unwrap() as int;
        if i == start {
            assert(self.on_path(q, q));
        } else {
            assert(self.wf_at(start));
            let p = self.node_at(start).spec_parent_id().unwrap() as int;
            self.lemma_on_path_parent(i, p);
        }
    }

    /// The parent chain is linear: of two members of one path, the smaller
    /// lies on the path that starts at the larger.
    pub proof fn lemma_on_path_linear(&self, i: int, c: int, start: int)
        requires
            self.wf(),
            0 <= start < self.spec_len(),
            self.on_path(i, start),
            self.on_path(c, start),
            i <= c,
        ensures
            self.on_path(i, c),
        decreases start,
    {
        if c != start {
            self.lemma_on_path_bounds(c, start);
            if i == start {
                assert(false);
            } else {
                assert(self.wf_at(start));
                let p = self.node_at(start).spec_parent_id().unwrap() as int;
                self.lemma_on_path_linear(i, c, p);
            }
        }
    }

    pub open spec fn wf(&self) -> bool {
        &&& self.spec_index() == self.spec_len()
        &&& forall|i: int| 0 <= i < self.spec_len() ==> #[trigger] self.wf_at(i)
    }

    /// Visit counts never exceed the parent's, wherever the parent is a
    /// non-root node: backpropagation updates a node only together with all
    /// of its ancestors.  The root itself carries no edge and is never
    /// updated, so its own count stays at zero and says nothing about its
    /// children.
    pub open spec fn sims_monotone(&self) -> bool {
        forall|i: int|
            0 <= i < self.spec_len() ==> match (#[trigger] self.node_at(i)).spec_parent_id() {
                Option::Some(p) => self.node_at(p as int).spec_edge() is Some ==> self.node_at(
                    i,
                ).spec_sims() <= self.node_at(p as int).spec_sims(),
                Option::None => true,
            }
    }

    /// `post` is `pre` with some availability counts grown and nothing else
    /// touched.
    pub open spec fn avails_only_grew(pre: &Self, post: &Self) -> bool {
        &&& post.spec_len() == pre.spec_len()
        &&& forall|i: int|
            0 <= i < pre.spec_len() ==> {
                &&& Node::same_shape(&#[trigger] post.node_at(i), &pre.node_at(i))
                &&& post.node_at(i).spec_tried() == pre.node_at(i).spec_tried()
                &&& post.node_at(i).spec_sims() == pre.node_at(i).spec_sims()
                &&& post.node_at(i).spec_score() == pre.node_at(i).spec_score()
                &&& post.node_at(i).spec_avails() >= pre.node_at(i).spec_avails()
            }
    }

    pub fn new(c: i64, default_capacity: usize) -> (r: Self)
        ensures
            r.wf(),
            r.spec_len() == 0,
            r.spec_c() == c,
            r.spec_capacity() == default_capacity,
    {
        Tree { nodes: Vec::with_capacity(default_capacity), index: 0, c, default_capacity }
    }

    /// Discards the whole arena; the next search starts from nothing.
    pub fn reset(&mut self)
        ensures
            final(self).wf(),
            final(self).spec_len() == 0,
            final(self).spec_c() == old(self).spec_c(),
            final(self).spec_capacity() == old(self).spec_capacity(),
    {
        self.index = 0;
        self.nodes = Vec::with_capacity(self.default_capacity);
    }

    /// Allocates the next identifier, registers the node as a child of
    /// `parent_id` if there is one, and stores it.  Only the root may lack
    /// an edge or a parent.
    pub fn add_node(&mut self, edge: Option<Edge<T::Action>>, parent_id: Option<usize>) -> (r:
        usize)
        requires
            old(self).wf(),
            parent_id is Some ==> parent_id.unwrap() < old(self).spec_len(),
            parent_id is Some ==> edge is Some,
        ensures
            final(self).wf(),
            old(self).sims_monotone() ==> final(self).sims_monotone(),
            r == old(self).spec_len(),
            final(self).spec_len() == old(self).spec_len() + 1,
            final(self).spec_c() == old(self).spec_c(),
            final(self).spec_capacity() == old(self).spec_capacity(),
            final(self).node_at(r as int).spec_edge() == edge,
            final(self).node_at(r as int).spec_parent_id() == parent_id,
            final(self).node_at(r as int).spec_children() == Seq::<usize>::empty(),
            final(self).node_at(r as int).spec_tried() == Set::<T::Action>::empty(),
            final(self).node_at(r as int).spec_sims() == 0,
            final(self).node_at(r as int).spec_avails() == 1,
            final(self).node_at(r as int).spec_score() == 0,
            forall|i: int|
                0 <= i < old(self).spec_len() && (parent_id is Some ==> i != parent_id.unwrap())
                    ==> final(self).node_at(i) == old(self).node_at(i),
            parent_id is Some ==> {
                let p = parent_id.unwrap() as int;
                &&& final(self).node_at(p).spec_children() == old(self).node_at(
                    p,
                ).spec_children().push(r)
                &&& final(self).node_at(p).spec_edge() == old(self).node_at(p).spec_edge()
                &&& final(self).node_at(p).spec_parent_id() == old(self).node_at(
                    p,
                ).spec_parent_id()
                &&& final(self).node_at(p).spec_tried() == old(self).node_at(p).spec_tried()
                &&& final(self).node_at(p).spec_sims() == old(self).node_at(p).spec_sims()
                &&& final(self).node_at(p).spec_avails() == old(self).node_at(p).spec_avails()
                &&& final(self).node_at(p).spec_score() == old(self).node_at(p).spec_score()
            },
    {
        let node_id = self.index;
        if let Some(p) = parent_id {
            self.nodes[p].add_child(node_id);
        }
        let node = Node::new(edge, parent_id);
        self.nodes.push(node);
        self.index = self.nodes.len();
        proof {
            let pre = old(self);
            let post = self;
            let n = pre.spec_len() as int;
            assert forall|i: int| 0 <= i < post.spec_len() implies #[trigger] post.wf_at(i) by {
                if i < n {
                    assert(pre.wf_at(i));
                    if parent_id is Some && i == parent_id.unwrap() {
                        let ch = post.node_at(i).spec_children();
                        let old_ch = pre.node_at(i).spec_children();
                        assert forall|k: int| 0 <= k < ch.len() implies {
                            &&& i < #[trigger] ch[k] < post.spec_len()
                            &&& post.node_at(ch[k] as int).spec_parent_id() == Option::Some(
                                i as usize,
                            )
                        } by {
                            if k < old_ch.len() {
                                assert(ch[k] == old_ch[k]);
                                assert(i < old_ch[k] < n);
                            } else {
                                assert(ch[k] == node_id);
                            }
                        }
                        assert forall|k1: int, k2: int|
                            0 <= k1 < k2 < ch.len() implies #[trigger] ch[k1]
                            < #[trigger] ch[k2] by {
                            if k2 < old_ch.len() {
                                assert(ch[k1] == old_ch[k1] && ch[k2] == old_ch[k2]);
                            } else {
                                assert(ch[k2] == node_id);
                                assert(ch[k1] == old_ch[k1]);
                                assert(i < old_ch[k1] < n);
                            }
                        }
                    } else {
                        assert(post.node_at(i) == pre.node_at(i));
                        assert forall|k: int|
                            0 <= k < post.node_at(i).spec_children().len() implies {
                            &&& i < #[trigger] post.node_at(i).spec_children()[k]
                                < post.spec_len()
                            &&& post.node_at(
                                post.node_at(i).spec_children()[k] as int,
                            ).spec_parent_id() == Option::Some(i as usize)
                        } by {
                            assert(i < pre.node_at(i).spec_children()[k] < n);
                        }
                    }
                } else {
                    assert(i == n);
                    assert(post.node_at(i).spec_children().len() == 0);
                }
            }
            if pre.sims_monotone() {
                assert forall|i: int| 0 <= i < post.spec_len() implies match (
                #[trigger] post.node_at(i)).spec_parent_id() {
                    Option::Some(p) => post.node_at(p as int).spec_edge() is Some ==> post.node_at(
                        i,
                    ).spec_sims() <= post.node_at(p as int).spec_sims(),
                    Option::None => true,
                } by {
                    if i < n {
                        assert(pre.wf_at(i));
                    }
                }
            }
        }
        node_id
    }

    /// Credits one simulation outcome to one node.
    pub fn update_node(&mut self, node_id: usize, reward: i64)
        requires
            old(self).wf(),
            node_id < old(self).spec_len(),
        ensures
            final(self).wf(),
            final(self).spec_len() == old(self).spec_len(),
            final(self).spec_c() == old(self).spec_c(),
            final(self).spec_capacity() == old(self).spec_capacity(),
            forall|i: int|
                0 <= i < old(self).spec_len() && i != node_id ==> final(self).node_at(i) == old(
                    self,
                ).node_at(i),
            final(self).node_at(node_id as int).spec_sims() == sat_usize(
                old(self).node_at(node_id as int).spec_sims() + 1,
            ),
            final(self).node_at(node_id as int).spec_score() == crate::fixed::sat_i64(
                old(self).node_at(node_id as int).spec_score() + reward,
            ),
            Node::same_shape(
                &final(self).node_at(node_id as int),
                &old(self).node_at(node_id as int),
            ),
            final(self).node_at(node_id as int).spec_tried() == old(self).node_at(
                node_id as int,
            ).spec_tried(),
            final(self).node_at(node_id as int).spec_avails() == old(self).node_at(
                node_id as int,
            ).spec_avails(),
    {
        self.nodes[node_id].update(reward);
        proof {
            let pre = old(self);
            let post = self;
            assert forall|i: int| 0 <= i < post.spec_len() implies #[trigger] post.wf_at(i) by {
                assert(pre.wf_at(i));
                assert forall|k: int| 0 <= k < post.node_at(i).spec_children().len() implies {
                    &&& i < #[trigger] post.node_at(i).spec_children()[k] < post.spec_len()
                    &&& post.node_at(post.node_at(i).spec_children()[k] as int).spec_parent_id()
                        == Option::Some(i as usize)
                } by {
                    assert(i < pre.node_at(i).spec_children()[k] < pre.spec_len());
                }
            }
        }
    }

    /// Whether `node_id` has no untried action against `legal_actions`.
    pub fn is_fully_expanded(&self, node_id: usize, legal_actions: &T::ActionList) -> (r: bool)
        requires
            node_id < self.spec_len(),
        ensures
            r == legal_actions.actions().difference(
                self.node_at(node_id as int).spec_tried(),
            ).is_empty(),
    {
        !self.nodes[node_id].has_untried_actions(legal_actions)
    }

    pub fn get_parent_id(&self, node_id: usize) -> (r: Option<usize>)
        requires
            node_id < self.spec_len(),
        ensures
            r == self.node_at(node_id as int).spec_parent_id(),
    {
        self.nodes[node_id].parent_id()
    }

    pub fn get_edge(&self, node_id: usize) -> (r: Option<Edge<T::Action>>)
        requires
            node_id < self.spec_len(),
        ensures
            r == self.node_at(node_id as int).spec_edge(),
    {
        self.nodes[node_id].edge()
    }

    /// How many nodes the arena holds.
    pub fn get_size(&self) -> (r: usize)
        ensures
            r == self.spec_len(),
    {
        self.nodes.len()
    }

    /// Picks the legal child of `node_id` with the highest UCT score, ties
    /// broken in favor of the first child scanned, and increments the
    /// availability count of every legal child examined, chosen or not:
    /// availability records "this action was offered", not "this action was
    /// chosen".  Returns `None` exactly when no child's action is legal.
    fn uct_select_child(&mut self, node_id: usize, legal_actions: &T::ActionList) -> (r: Option<
        usize,
    >)
        requires
            old(self).wf(),
            node_id < old(self).spec_len(),
        ensures
            final(self).wf(),
            final(self).spec_c() == old(self).spec_c(),
            final(self).spec_capacity() == old(self).spec_capacity(),
            Self::avails_only_grew(old(self), final(self)),
            old(self).sims_monotone() ==> final(self).sims_monotone(),
            final(self).node_at(node_id as int).spec_children() == old(self).node_at(
                node_id as int,
            ).spec_children(),
            ({
                let ch = old(self).node_at(node_id as int).spec_children();
                let legal = legal_actions.actions();
                match r {
                    Option::None => forall|j: int|
                        0 <= j < ch.len() ==> !old(self).child_legal(node_id as int, j, legal),
                    Option::Some(cid) => exists|k: int|
                        {
                            &&& 0 <= k < ch.len()
                            &&& ch[k] == cid
                            &&& #[trigger] old(self).child_legal(node_id as int, k, legal)
                            &&& forall|j: int|
                                0 <= j < ch.len() && #[trigger] old(self).child_legal(
                                    node_id as int,
                                    j,
                                    legal,
                                ) ==> old(self).child_uct(node_id as int, j) <= old(
                                    self,
                                ).child_uct(node_id as int, k) && (j < k ==> old(self).child_uct(
                                    node_id as int,
                                    j,
                                ) < old(self).child_uct(node_id as int, k))
                        },
                }
            }),
            ({
                let ch = old(self).node_at(node_id as int).spec_children();
                let legal = legal_actions.actions();
                forall|j: int|
                    0 <= j < ch.len() ==> final(self).node_at(ch[j] as int).spec_avails() == (
                    if old(self).child_legal(node_id as int, j, legal) {
                        sat_usize(old(self).node_at(ch[j] as int).spec_avails() + 1)
                    } else {
                        old(self).node_at(ch[j] as int).spec_avails() as int
                    })
            }),
            forall|i: int|
                0 <= i < old(self).spec_len() && !old(self).node_at(
                    node_id as int,
                ).spec_children().contains(i as usize) ==> final(self).node_at(i) == old(
                    self,
                ).node_at(i),
    {
        let ghost orig = *self;
        let ghost nid = node_id as int;
        let ghost ch = orig.node_at(nid).spec_children();
        let ghost legal = legal_actions.actions();
        let n = self.nodes[node_id].child_ids_ref().len();
        let mut best_child: Option<usize> = None;
        let mut best_score: i64 = i64::MIN;
        let ghost mut best_k: int = -1;
        let mut k: usize = 0;
        while k < n
            invariant
                orig.wf(),
                self.wf(),
                0 <= nid < orig.spec_len(),
                nid == node_id as int,
                ch == orig.node_at(nid).spec_children(),
                legal == legal_actions.actions(),
                n == ch.len(),
                k <= n,
                self.spec_len() == orig.spec_len(),
                self.spec_c() == orig.spec_c(),
                self.spec_capacity() == orig.spec_capacity(),
                forall|i: int|
                    0 <= i < orig.spec_len() && !ch.contains(i as usize) ==> self.node_at(i)
                        == orig.node_at(i),
                forall|j: int|
                    0 <= j < n ==> Node::same_but_avails(
                        &#[trigger] self.node_at(ch[j] as int),
                        &orig.node_at(ch[j] as int),
                    ),
                forall|j: int|
                    k <= j < n ==> #[trigger] self.node_at(ch[j] as int) == orig.node_at(
                        ch[j] as int,
                    ),
                forall|j: int|
                    0 <= j < k ==> #[trigger] self.node_at(ch[j] as int).spec_avails() == (
                    if orig.child_legal(nid, j, legal) {
                        sat_usize(orig.node_at(ch[j] as int).spec_avails() + 1)
                    } else {
                        orig.node_at(ch[j] as int).spec_avails() as int
                    }),
                match best_child {
                    Option::None => best_k == -1 && forall|j: int|
                        0 <= j < k ==> !orig.child_legal(nid, j, legal),
                    Option::Some(b) => {
                        &&& 0 <= best_k < k
                        &&& ch[best_k] == b
                        &&& orig.child_legal(nid, best_k, legal)
                        &&& best_score == orig.child_uct(nid, best_k)
                        &&& forall|j: int|
                            0 <= j < k && #[trigger] orig.child_legal(nid, j, legal)
                                ==> orig.child_uct(nid, j) <= best_score && (j < best_k
                                ==> orig.child_uct(nid, j) < best_score)
                    },
                },
            decreases n - k,
        {
            proof {
                assert(orig.wf_at(nid));
            }
            let cid = self.nodes[node_id].child_ids_ref()[k];
            proof {
                assert(self.node_at(nid).spec_children() == ch);
                assert(nid < cid as int && (cid as int) < self.spec_len());
                assert(self.wf_at(cid as int));
                assert(self.node_at(cid as int) == orig.node_at(cid as int));
            }
            let edge = self.nodes[cid].edge();
            let action = edge.unwrap().action();
            if legal_actions.has(&action) {
                let uct = self.nodes[cid].uct_score(self.c);
                proof {
                    assert(uct == orig.child_uct(nid, k as int));
                }
                if best_child.is_none() || uct > best_score {
                    best_child = Some(cid);
                    best_score = uct;
                    proof {
                        best_k = k as int;
                    }
                }
                let ghost before = *self;
                self.nodes[cid].increase_availability();
                proof {
                    assert forall|i: int| 0 <= i < self.spec_len() implies #[trigger] self.wf_at(
                        i,
                    ) by {
                        assert(before.wf_at(i));
                        assert(Node::same_but_avails(&self.node_at(i), &before.node_at(i)));
                        assert forall|kk: int|
                            0 <= kk < self.node_at(i).spec_children().len() implies {
                            &&& i < #[trigger] self.node_at(i).spec_children()[kk]
                                < self.spec_len()
                            &&& self.node_at(
                                self.node_at(i).spec_children()[kk] as int,
                            ).spec_parent_id() == Option::Some(i as usize)
                        } by {
                            assert(i < before.node_at(i).spec_children()[kk] < before.spec_len());
                        }
                    }
                    assert forall|j: int|
                        k + 1 <= j < n implies #[trigger] self.node_at(ch[j] as int)
                        == orig.node_at(ch[j] as int) by {
                        assert(ch[j] != ch[k as int]);
                    }
                }
            } else {
                proof {
                    assert(!orig.child_legal(nid, k as int, legal));
                }
            }
            k += 1;
        }
        proof {
            if orig.sims_monotone() {
                assert forall|i: int| 0 <= i < self.spec_len() implies match (
                #[trigger] self.node_at(i)).spec_parent_id() {
                    Option::Some(p) => self.node_at(p as int).spec_edge() is Some ==> self.node_at(
                        i,
                    ).spec_sims() <= self.node_at(p as int).spec_sims(),
                    Option::None => true,
                } by {
                    assert(orig.wf_at(i));
                    assert(Node::same_but_avails(&self.node_at(i), &orig.node_at(i)));
                    if self.node_at(i).spec_parent_id() is Some {
                        let p = self.node_at(i).spec_parent_id().unwrap() as int;
                        assert(Node::same_but_avails(&self.node_at(p), &orig.node_at(p)));
                    }
                }
            }
            assert forall|i: int| 0 <= i < orig.spec_len() implies {
                &&& Node::same_shape(&#[trigger] self.node_at(i), &orig.node_at(i))
                &&& self.node_at(i).spec_tried() == orig.node_at(i).spec_tried()
                &&& self.node_at(i).spec_sims() == orig.node_at(i).spec_sims()
                &&& self.node_at(i).spec_score() == orig.node_at(i).spec_score()
                &&& self.node_at(i).spec_avails() >= orig.node_at(i).spec_avails()
            } by {
                if ch.contains(i as usize) {
                    let j = choose|j: int| 0 <= j < ch.len() && ch[j] == i as usize;
                    assert(Node::same_but_avails(&self.node_at(i), &orig.node_at(i)));
                    assert(self.node_at(ch[j] as int).spec_avails() >= orig.node_at(
                        ch[j] as int,
                    ).spec_avails());
                } else {
                    assert(self.node_at(i) == orig.node_at(i));
                }
            }
        }
        best_child
    }

    /// The visit count of the `j`-th child of `node_id`.
    pub open spec fn child_sims(&self, node_id: int, j: int) -> usize {
        self.node_at(self.node_at(node_id).spec_children()[j] as int).spec_sims()
    }

    /// One diagnostic entry pairs the UCT score and the action of some
    /// child of `node_id`.
    pub open spec fn scored_entry_ok(&self, node_id: int, t: (i64, T::Action)) -> bool {
        exists|j: int|
            #![trigger self.child_action(node_id, j)]
            {
                &&& 0 <= j < self.node_at(node_id).spec_children().len()
                &&& t.1 == self.child_action(node_id, j)
                &&& t.0 == self.child_uct(node_id, j)
            }
    }

    /// One diagnostic entry pairs a statistics snapshot and the action of
    /// some child of `node_id`, with every field of the snapshot that
    /// child's.
    pub open spec fn stats_entry_ok(&self, node_id: int, t: (NodeStats, T::Action)) -> bool {
        exists|j: int|
            #![trigger self.child_action(node_id, j)]
            {
                &&& 0 <= j < self.node_at(node_id).spec_children().len()
                &&& t.1 == self.child_action(node_id, j)
                &&& t.0 == self.child_snapshot(node_id, j)
            }
    }

    /// The statistics snapshot of the `j`-th child of `node_id`, as
    /// `Node::stats` reports it: an unvisited child's average reads zero.
    pub open spec fn child_snapshot(&self, node_id: int, j: int) -> NodeStats {
        let n = self.node_at(self.node_at(node_id).spec_children()[j] as int);
        NodeStats {
            avg_score: (if n.spec_sims() == 0 {
                0int
            } else {
                div_trunc(n.spec_score() as int, n.spec_sims() as int)
            }) as i64,
            num_sims: n.spec_sims(),
            num_avails: n.spec_avails(),
        }
    }

    /// The scored rows of the first `upto` children of `node_id` whose
    /// action is in `legal`, in child order: each row pairs the child's UCT
    /// score with its action.  `scored_actions_among` returns exactly this.
    pub open spec fn legal_scored_rows(&self, node_id: int, upto: int, legal: Set<T::Action>)
        -> Seq<(i64, T::Action)>
        decreases (if upto >= 0 { upto } else { 0 }),
    {
        if upto <= 0 {
            Seq::empty()
        } else {
            let prev = self.legal_scored_rows(node_id, upto - 1, legal);
            if self.child_legal(node_id, upto - 1, legal) {
                prev.push(
                    (
                        self.child_uct(node_id, upto - 1) as i64,
                        self.child_action(node_id, upto - 1),
                    ),
                )
            } else {
                prev
            }
        }
    }

    /// The statistics rows of the first `upto` children of `node_id` whose
    /// action is in `legal`, in child order.  `child_stats_among` returns
    /// exactly this.
    pub open spec fn legal_stats_rows(&self, node_id: int, upto: int, legal: Set<T::Action>)
        -> Seq<(NodeStats, T::Action)>
        decreases (if upto >= 0 { upto } else { 0 }),
    {
        if upto <= 0 {
            Seq::empty()
        } else {
            let prev = self.legal_stats_rows(node_id, upto - 1, legal);
            if self.child_legal(node_id, upto - 1, legal) {
                prev.push((self.child_snapshot(node_id, upto - 1), self.child_action(node_id, upto - 1)))
            } else {
                prev
            }
        }
    }

    /// Whether some entry of `r` carries the action `a`.
    pub open spec fn action_listed<S>(r: Seq<(S, T::Action)>, a: T::Action) -> bool {
        exists|m: int| 0 <= m < r.len() && (#[trigger] r[m]).1 == a
    }

    /// Descends from `node_id` while the state is non-terminal and the
    /// current node is fully expanded against the live legal-action set,
    /// stepping into the legal child with the highest UCT score and
    /// applying its action to the determinized state.  Only availability
    /// counts change; the rest of the tree is untouched.
    pub fn select(&mut self, node_id: usize, state: &mut T) -> (r: usize)
        requires
            old(self).wf(),
            node_id < old(self).spec_len(),
        ensures
            final(self).wf(),
            final(self).spec_c() == old(self).spec_c(),
            final(self).spec_capacity() == old(self).spec_capacity(),
            Self::avails_only_grew(old(self), final(self)),
            old(self).sims_monotone() ==> final(self).sims_monotone(),
            r < final(self).spec_len(),
            old(self).on_path(node_id as int, r as int),
    {
        let mut current = node_id;
        let mut legal_actions = state.possible_actions();
        while !state.is_terminal() && self.is_fully_expanded(current, &legal_actions)
            invariant
                self.wf(),
                current < self.spec_len(),
                self.spec_len() == old(self).spec_len(),
                self.spec_c() == old(self).spec_c(),
                self.spec_capacity() == old(self).spec_capacity(),
                Self::avails_only_grew(old(self), self),
                old(self).sims_monotone() ==> self.sims_monotone(),
                old(self).on_path(node_id as int, current as int),
            decreases self.spec_len() - current,
        {
            let ghost before = *self;
            match self.uct_select_child(current, &legal_actions) {
                None => {
                    proof {
                        Self::lemma_avails_grew_trans(old(self), &before, self);
                    }
                    return current;
                },
                Some(cid) => {
                    proof {
                        Self::lemma_avails_grew_trans(old(self), &before, self);
                        let ch = before.node_at(current as int).spec_children();
                        let legal = legal_actions.actions();
                        let k = choose|k: int|
                            0 <= k < ch.len() && ch[k] == cid && #[trigger] before.child_legal(
                                current as int,
                                k,
                                legal,
                            );
                        assert(before.wf_at(current as int));
                        assert(current < cid && (cid as int) < before.spec_len());
                        assert(self.wf_at(cid as int));
                        assert(before.node_at(cid as int).spec_parent_id() == Option::Some(
                            current,
                        ));
                        assert(old(self).node_at(cid as int).spec_parent_id() == Option::Some(
                            current,
                        ));
                        assert(old(self).on_path(node_id as int, cid as int));
                    }
                    current = cid;
                    let edge = self.get_edge(current);
                    let action = edge.unwrap().action();
                    state.apply_action(action);
                    if state.is_terminal() {
                        return current;
                    }
                    legal_actions = state.possible_actions();
                },
            }
        }
        current
    }

    /// Growth of availability counts composes.
    proof fn lemma_avails_grew_trans(a: &Self, b: &Self, c: &Self)
        requires
            Self::avails_only_grew(a, b),
            Self::avails_only_grew(b, c),
        ensures
            Self::avails_only_grew(a, c),
    {
        assert forall|i: int| 0 <= i < a.spec_len() implies {
            &&& Node::same_shape(&#[trigger] c.node_at(i), &a.node_at(i))
            &&& c.node_at(i).spec_tried() == a.node_at(i).spec_tried()
            &&& c.node_at(i).spec_sims() == a.node_at(i).spec_sims()
            &&& c.node_at(i).spec_score() == a.node_at(i).spec_score()
            &&& c.node_at(i).spec_avails() >= a.node_at(i).spec_avails()
        } by {
            assert(Node::same_shape(&b.node_at(i), &a.node_at(i)));
            assert(Node::same_shape(&c.node_at(i), &b.node_at(i)));
        }
    }

    /// Expansion against a given legal-action set: extracts one untried
    /// action from `legal_actions`, applies it to the state, and grows one
    /// child for it.  Expansion happens exactly when some legal action is
    /// untried at `node_id`; otherwise the tree is unchanged and `node_id`
    /// comes back.
    pub fn expand_among(&mut self, node_id: usize, legal_actions: &T::ActionList, state: &mut T)
        -> (r: usize)
        requires
            old(self).wf(),
            node_id < old(self).spec_len(),
        ensures
            final(self).wf(),
            final(self).spec_c() == old(self).spec_c(),
            final(self).spec_capacity() == old(self).spec_capacity(),
            old(self).sims_monotone() ==> final(self).sims_monotone(),
            r < final(self).spec_len(),
            forall|i: int|
                0 <= i < old(self).spec_len() ==> {
                    &&& (#[trigger] final(self).node_at(i)).spec_sims() == old(self).node_at(
                        i,
                    ).spec_sims()
                    &&& final(self).node_at(i).spec_score() == old(self).node_at(i).spec_score()
                    &&& final(self).node_at(i).spec_avails() == old(self).node_at(
                        i,
                    ).spec_avails()
                    &&& final(self).node_at(i).spec_edge() == old(self).node_at(i).spec_edge()
                    &&& final(self).node_at(i).spec_parent_id() == old(self).node_at(
                        i,
                    ).spec_parent_id()
                },
            forall|i: int|
                0 <= i < old(self).spec_len() && i != node_id ==> {
                    &&& (#[trigger] final(self).node_at(i)).spec_tried() == old(self).node_at(
                        i,
                    ).spec_tried()
                    &&& final(self).node_at(i).spec_children() == old(self).node_at(
                        i,
                    ).spec_children()
                },
            ({
                let pre_len = old(self).spec_len();
                let pre_node = old(self).node_at(node_id as int);
                let post = *final(self);
                if legal_actions.actions().difference(pre_node.spec_tried()).is_empty() {
                    r == node_id && post.spec_len() == pre_len && post.node_at(
                        node_id as int,
                    ).spec_tried() == pre_node.spec_tried() && post.node_at(
                        node_id as int,
                    ).spec_children() == pre_node.spec_children()
                } else {
                    r == pre_len && post.spec_len() == pre_len + 1 && post.node_at(
                        r as int,
                    ).spec_parent_id() == Option::Some(node_id) && post.node_at(
                        r as int,
                    ).spec_edge() is Some && post.node_at(r as int).spec_sims() == 0
                        && post.node_at(r as int).spec_avails() == 1 && post.node_at(
                        r as int,
                    ).spec_children() == Seq::<usize>::empty() && post.node_at(
                        r as int,
                    ).spec_tried() == Set::<T::Action>::empty() && legal_actions.actions().contains(
                        post.node_at(r as int).spec_edge().unwrap().spec_action(),
                    ) && !pre_node.spec_tried().contains(
                        post.node_at(r as int).spec_edge().unwrap().spec_action(),
                    ) && post.node_at(node_id as int).spec_tried() == pre_node.spec_tried().insert(
                        post.node_at(r as int).spec_edge().unwrap().spec_action(),
                    ) && post.node_at(node_id as int).spec_children()
                        == pre_node.spec_children().push(r)
                }
            }),
    {
        let popped = self.nodes[node_id].pop_action(legal_actions);
        proof {
            let pre = old(self);
            let post = self;
            assert forall|i: int| 0 <= i < post.spec_len() implies #[trigger] post.wf_at(i) by {
                assert(pre.wf_at(i));
                assert(Node::same_shape(&post.node_at(i), &pre.node_at(i)));
                assert forall|kk: int| 0 <= kk < post.node_at(i).spec_children().len() implies {
                    &&& i < #[trigger] post.node_at(i).spec_children()[kk] < post.spec_len()
                    &&& post.node_at(post.node_at(i).spec_children()[kk] as int).spec_parent_id()
                        == Option::Some(i as usize)
                } by {
                    assert(i < pre.node_at(i).spec_children()[kk] < pre.spec_len());
                }
            }
            if pre.sims_monotone() {
                assert forall|i: int| 0 <= i < post.spec_len() implies match (
                #[trigger] post.node_at(i)).spec_parent_id() {
                    Option::Some(p) => post.node_at(p as int).spec_edge() is Some ==> post.node_at(
                        i,
                    ).spec_sims() <= post.node_at(p as int).spec_sims(),
                    Option::None => true,
                } by {
                    assert(pre.wf_at(i));
                    assert(Node::same_shape(&post.node_at(i), &pre.node_at(i)));
                    if post.node_at(i).spec_parent_id() is Some {
                        let p = post.node_at(i).spec_parent_id().unwrap() as int;
                        assert(Node::same_shape(&post.node_at(p), &pre.node_at(p)));
                    }
                }
            }
        }
        match popped {
            None => node_id,
            Some(action) => {
                proof {
                    let diff = legal_actions.actions().difference(
                        old(self).node_at(node_id as int).spec_tried(),
                    );
                    assert(diff.contains(action));
                    assert(!diff.is_empty());
                }
                let actor = state.turn();
                let edge = Edge::new(action, actor);
                state.apply_action(action);
                self.add_node(Some(edge), Some(node_id))
            },
        }
    }

    /// If the state is terminal or every legal action was already tried
    /// here, returns `node_id` unchanged; otherwise extracts one untried
    /// legal action, applies it to the state, and grows one child for it.
    /// Which of the two happened is pinned by `expand_among`, which this
    /// function hands the legal actions the state reported.
    pub fn expand(&mut self, node_id: usize, state: &mut T) -> (r: usize)
        requires
            old(self).wf(),
            node_id < old(self).spec_len(),
        ensures
            final(self).wf(),
            final(self).spec_c() == old(self).spec_c(),
            final(self).spec_capacity() == old(self).spec_capacity(),
            old(self).sims_monotone() ==> final(self).sims_monotone(),
            r < final(self).spec_len(),
            forall|i: int|
                0 <= i < old(self).spec_len() ==> {
                    &&& (#[trigger] final(self).node_at(i)).spec_sims() == old(self).node_at(
                        i,
                    ).spec_sims()
                    &&& final(self).node_at(i).spec_score() == old(self).node_at(i).spec_score()
                    &&& final(self).node_at(i).spec_avails() == old(self).node_at(
                        i,
                    ).spec_avails()
                    &&& final(self).node_at(i).spec_edge() == old(self).node_at(i).spec_edge()
                    &&& final(self).node_at(i).spec_parent_id() == old(self).node_at(
                        i,
                    ).spec_parent_id()
                },
            forall|i: int|
                0 <= i < old(self).spec_len() && i != node_id ==> {
                    &&& (#[trigger] final(self).node_at(i)).spec_tried() == old(self).node_at(
                        i,
                    ).spec_tried()
                    &&& final(self).node_at(i).spec_children() == old(self).node_at(
                        i,
                    ).spec_children()
                },
            ({
                let pre_len = old(self).spec_len();
                let pre_node = old(self).node_at(node_id as int);
                let post = *final(self);
                ||| (r == node_id && post.spec_len() == pre_len && post.node_at(
                    node_id as int,
                ).spec_tried() == pre_node.spec_tried() && post.node_at(
                    node_id as int,
                ).spec_children() == pre_node.spec_children())
                ||| (r == pre_len && post.spec_len() == pre_len + 1 && post.node_at(
                    r as int,
                ).spec_parent_id() == Option::Some(node_id) && post.node_at(
                    r as int,
                ).spec_edge() is Some && post.node_at(r as int).spec_sims() == 0 && post.node_at(
                    r as int,
                ).spec_avails() == 1 && post.node_at(r as int).spec_children()
                    == Seq::<usize>::empty() && post.node_at(r as int).spec_tried()
                    == Set::<T::Action>::empty() && !pre_node.spec_tried().contains(
                    post.node_at(r as int).spec_edge().unwrap().spec_action(),
                ) && post.node_at(node_id as int).spec_tried() == pre_node.spec_tried().insert(
                    post.node_at(r as int).spec_edge().unwrap().spec_action(),
                ) && post.node_at(node_id as int).spec_children() == pre_node.spec_children().push(
                    r,
                ))
            }),
    {
        if state.is_terminal() {
            return node_id;
        }
        let legal_actions = state.possible_actions();
        self.expand_among(node_id, &legal_actions, state)
    }

    /// Among the children of `node_id` whose action is in `legal_actions`,
    /// the action of the one with the most visits; ties go to the last such
    /// child in insertion order.  `None` exactly when no child's action is
    /// legal.
    pub fn best_action_among(&self, node_id: usize, legal_actions: &T::ActionList) -> (r: Option<
        T::Action,
    >)
        requires
            self.wf(),
            node_id < self.spec_len(),
        ensures
            ({
                let ch = self.node_at(node_id as int).spec_children();
                let legal = legal_actions.actions();
                match r {
                    Option::None => forall|j: int|
                        0 <= j < ch.len() ==> !self.child_legal(node_id as int, j, legal),
                    Option::Some(a) => exists|k: int|
                        {
                            &&& 0 <= k < ch.len()
                            &&& a == self.child_action(node_id as int, k)
                            &&& #[trigger] self.child_legal(node_id as int, k, legal)
                            &&& forall|j: int|
                                0 <= j < ch.len() && #[trigger] self.child_legal(
                                    node_id as int,
                                    j,
                                    legal,
                                ) ==> self.child_sims(node_id as int, j) <= self.child_sims(
                                    node_id as int,
                                    k,
                                ) && (j > k ==> self.child_sims(node_id as int, j)
                                    < self.child_sims(node_id as int, k))
                        },
                }
            }),
    {
        let ghost nid = node_id as int;
        let ghost ch = self.node_at(nid).spec_children();
        let ghost legal = legal_actions.actions();
        let n = self.nodes[node_id].child_ids_ref().len();
        let mut best: Option<T::Action> = None;
        let mut best_sims: usize = 0;
        let ghost mut best_k: int = -1;
        let mut k: usize = 0;
        while k < n
            invariant
                self.wf(),
                0 <= nid < self.spec_len(),
                nid == node_id as int,
                ch == self.node_at(nid).spec_children(),
                legal == legal_actions.actions(),
                n == ch.len(),
                k <= n,
                match best {
                    Option::None => best_k == -1 && forall|j: int|
                        0 <= j < k ==> !self.child_legal(nid, j, legal),
                    Option::Some(a) => {
                        &&& 0 <= best_k < k
                        &&& a == self.child_action(nid, best_k)
                        &&& self.child_legal(nid, best_k, legal)
                        &&& best_sims == self.child_sims(nid, best_k)
                        &&& forall|j: int|
                            0 <= j < k && #[trigger] self.child_legal(nid, j, legal)
                                ==> self.child_sims(nid, j) <= best_sims && (j > best_k
                                ==> self.child_sims(nid, j) < best_sims)
                    },
                },
            decreases n - k,
        {
            proof {
                assert(self.wf_at(nid));
            }
            let cid = self.nodes[node_id].child_ids_ref()[k];
            proof {
                assert(nid < cid as int && (cid as int) < self.spec_len());
                assert(self.wf_at(cid as int));
            }
            let edge = self.nodes[cid].edge();
            let action = edge.unwrap().action();
            if legal_actions.has(&action) {
                let sims = self.nodes[cid].num_sims();
                if best.is_none() || sims >= best_sims {
                    best = Some(action);
                    best_sims = sims;
                    proof {
                        best_k = k as int;
                    }
                }
            }
            k += 1;
        }
        best
    }

    /// The recommendation after a search: the most-visited child of
    /// `node_id` whose action is legal under the real, non-determinized
    /// state; `None` when no child action is legal, for instance when the
    /// time budget expired before the root grew any child.
    pub fn best_action(&self, node_id: usize, state: &T) -> (r: Option<T::Action>)
        requires
            self.wf(),
            node_id < self.spec_len(),
        ensures
            r is Some ==> exists|k: int|
                0 <= k < self.node_at(node_id as int).spec_children().len() && r.unwrap()
                    == #[trigger] self.child_action(node_id as int, k),
    {
        let legal_actions = state.possible_actions();
        self.best_action_among(node_id, &legal_actions)
    }

    /// The UCT score and action of every child of `node_id` whose action is
    /// in `legal_actions`, in child order: exactly the legal children, no
    /// others.  Purely diagnostic.
    pub fn scored_actions_among(&self, node_id: usize, legal_actions: &T::ActionList) -> (r: Vec<
        (i64, T::Action),
    >)
        requires
            self.wf(),
            node_id < self.spec_len(),
        ensures
            r@ == self.legal_scored_rows(
                node_id as int,
                self.node_at(node_id as int).spec_children().len() as int,
                legal_actions.actions(),
            ),
            forall|m: int|
                0 <= m < r@.len() ==> legal_actions.actions().contains((#[trigger] r@[m]).1),
            forall|m: int|
                0 <= m < r@.len() ==> self.scored_entry_ok(node_id as int, #[trigger] r@[m]),
            forall|j: int|
                0 <= j < self.node_at(node_id as int).spec_children().len()
                    && #[trigger] self.child_legal(node_id as int, j, legal_actions.actions())
                    ==> Self::action_listed(r@, self.child_action(node_id as int, j)),
    {
        let ghost nid = node_id as int;
        let ghost ch = self.node_at(nid).spec_children();
        let ghost legal = legal_actions.actions();
        let mut results: Vec<(i64, T::Action)> = Vec::new();
        proof {
            assert(results@ =~= self.legal_scored_rows(nid, 0, legal));
        }
        let n = self.nodes[node_id].child_ids_ref().len();
        let mut k: usize = 0;
        while k < n
            invariant
                self.wf(),
                0 <= nid < self.spec_len(),
                nid == node_id as int,
                ch == self.node_at(nid).spec_children(),
                legal == legal_actions.actions(),
                n == ch.len(),
                k <= n,
                results@ == self.legal_scored_rows(nid, k as int, legal),
                forall|m: int|
                    0 <= m < results@.len() ==> legal.contains((#[trigger] results@[m]).1),
                forall|m: int|
                    0 <= m < results@.len() ==> self.scored_entry_ok(
                        nid,
                        #[trigger] results@[m],
                    ),
                forall|j: int|
                    0 <= j < k && #[trigger] self.child_legal(nid, j, legal)
                        ==> Self::action_listed(results@, self.child_action(nid, j)),
            decreases n - k,
        {
            proof {
                assert(self.wf_at(nid));
            }
            let cid = self.nodes[node_id].child_ids_ref()[k];
            proof {
                assert(nid < cid as int && (cid as int) < self.spec_len());
                assert(self.wf_at(cid as int));
            }
            let edge = self.nodes[cid].edge();
            let action = edge.unwrap().action();
            if legal_actions.has(&action) {
                let uct = self.nodes[cid].uct_score(self.c);
                let ghost before = results@;
                results.push((uct, action));
                proof {
                    let last = before.len() as int;
                    assert(results@[last].1 == self.child_action(nid, k as int));
                    assert(results@[last].0 == self.child_uct(nid, k as int));
                    assert(results@ == self.legal_scored_rows(nid, k as int + 1, legal)) by {
                        assert(results@ =~= before.push(
                            (
                                self.child_uct(nid, k as int) as i64,
                                self.child_action(nid, k as int),
                            ),
                        ));
                    }
                    assert(self.scored_entry_ok(nid, results@[last]));
                    assert(Self::action_listed(results@, self.child_action(nid, k as int)));
                    assert forall|m: int| 0 <= m < last implies self.scored_entry_ok(
                        nid,
                        #[trigger] results@[m],
                    ) by {
                        assert(results@[m] == before[m]);
                        assert(self.scored_entry_ok(nid, before[m]));
                    }
                    assert forall|j: int|
                        0 <= j < k && #[trigger] self.child_legal(nid, j, legal)
                        implies Self::action_listed(
                        results@,
                        self.child_action(nid, j),
                    ) by {
                        let m = choose|m: int|
                            0 <= m < before.len() && (#[trigger] before[m]).1
                                == self.child_action(nid, j);
                        assert(results@[m] == before[m]);
                        assert(results@[m].1 == self.child_action(nid, j));
                    }
                }
            } else {
                proof {
                    assert(results@ == self.legal_scored_rows(nid, k as int + 1, legal));
                }
            }
            k += 1;
        }
        results
    }

    /// The UCT score and action of every child of `node_id` legal under the
    /// given state.  Every returned entry carries the score and the action
    /// of one of the node's children.
    pub fn scored_actions(&self, node_id: usize, state: &T) -> (r: Vec<(i64, T::Action)>)
        requires
            self.wf(),
            node_id < self.spec_len(),
        ensures
            forall|m: int|
                0 <= m < r@.len() ==> self.scored_entry_ok(node_id as int, #[trigger] r@[m]),
    {
        let legal_actions = state.possible_actions();
        self.scored_actions_among(node_id, &legal_actions)
    }

    /// A full statistics snapshot and the action of every child of
    /// `node_id` whose action is in `legal_actions`.
    pub fn child_stats_among(&self, node_id: usize, legal_actions: &T::ActionList) -> (r: Vec<
        (NodeStats, T::Action),
    >)
        requires
            self.wf(),
            node_id < self.spec_len(),
        ensures
            r@ == self.legal_stats_rows(
                node_id as int,
                self.node_at(node_id as int).spec_children().len() as int,
                legal_actions.actions(),
            ),
            forall|m: int|
                0 <= m < r@.len() ==> legal_actions.actions().contains((#[trigger] r@[m]).1),
            forall|m: int|
                0 <= m < r@.len() ==> self.stats_entry_ok(node_id as int, #[trigger] r@[m]),
            forall|j: int|
                0 <= j < self.node_at(node_id as int).spec_children().len()
                    && #[trigger] self.child_legal(node_id as int, j, legal_actions.actions())
                    ==> Self::action_listed(r@, self.child_action(node_id as int, j)),
    {
        let ghost nid = node_id as int;
        let ghost ch = self.node_at(nid).spec_children();
        let ghost legal = legal_actions.actions();
        let mut results: Vec<(NodeStats, T::Action)> = Vec::new();
        proof {
            assert(results@ =~= self.legal_stats_rows(nid, 0, legal));
        }
        let n = self.nodes[node_id].child_ids_ref().len();
        let mut k: usize = 0;
        while k < n
            invariant
                self.wf(),
                0 <= nid < self.spec_len(),
                nid == node_id as int,
                ch == self.node_at(nid).spec_children(),
                legal == legal_actions.actions(),
                n == ch.len(),
                k <= n,
                results@ == self.legal_stats_rows(nid, k as int, legal),
                forall|m: int|
                    0 <= m < results@.len() ==> legal.contains((#[trigger] results@[m]).1),
                forall|m: int|
                    0 <= m < results@.len() ==> self.stats_entry_ok(
                        nid,
                        #[trigger] results@[m],
                    ),
                forall|j: int|
                    0 <= j < k && #[trigger] self.child_legal(nid, j, legal)
                        ==> Self::action_listed(results@, self.child_action(nid, j)),
            decreases n - k,
        {
            proof {
                assert(self.wf_at(nid));
            }
            let cid = self.nodes[node_id].child_ids_ref()[k];
            proof {
                assert(nid < cid as int && (cid as int) < self.spec_len());
                assert(self.wf_at(cid as int));
            }
            let edge = self.nodes[cid].edge();
            let action = edge.unwrap().action();
            if legal_actions.has(&action) {
                let stats = self.nodes[cid].stats();
                let ghost before = results@;
                results.push((stats, action));
                proof {
                    let last = before.len() as int;
                    assert(results@[last].1 == self.child_action(nid, k as int));
                    assert(results@[last].0 == self.child_snapshot(nid, k as int));
                    assert(results@ == self.legal_stats_rows(nid, k as int + 1, legal)) by {
                        assert(results@ =~= before.push(
                            (self.child_snapshot(nid, k as int), self.child_action(nid, k as int)),
                        ));
                    }
                    assert(self.stats_entry_ok(nid, results@[last]));
                    assert(Self::action_listed(results@, self.child_action(nid, k as int)));
                    assert forall|m: int| 0 <= m < last implies self.stats_entry_ok(
                        nid,
                        #[trigger] results@[m],
                    ) by {
                        assert(results@[m] == before[m]);
                        assert(self.stats_entry_ok(nid, before[m]));
                    }
                    assert forall|j: int|
                        0 <= j < k && #[trigger] self.child_legal(nid, j, legal)
                        implies Self::action_listed(
                        results@,
                        self.child_action(nid, j),
                    ) by {
                        let m = choose|m: int|
                            0 <= m < before.len() && (#[trigger] before[m]).1
                                == self.child_action(nid, j);
                        assert(results@[m] == before[m]);
                        assert(results@[m].1 == self.child_action(nid, j));
                    }
                }
            } else {
                proof {
                    assert(results@ == self.legal_stats_rows(nid, k as int + 1, legal));
                }
            }
            k += 1;
        }
        results
    }

    /// A full statistics snapshot and the action of every child of
    /// `node_id` legal under the given state.
    pub fn child_stats(&self, node_id: usize, state: &T) -> (r: Vec<(NodeStats, T::Action)>)
        requires
            self.wf(),
            node_id < self.spec_len(),
        ensures
            forall|m: int|
                0 <= m < r@.len() ==> self.stats_entry_ok(node_id as int, #[trigger] r@[m]),
    {
        let legal_actions = state.possible_actions();
        self.child_stats_among(node_id, &legal_actions)
    }

    /// A statistics snapshot of one node.
    pub fn node_stats(&self, node_id: usize) -> (r: NodeStats)
        requires
            node_id < self.spec_len(),
        ensures
            r.num_sims == self.node_at(node_id as int).spec_sims(),
            r.num_avails == self.node_at(node_id as int).spec_avails(),
            r.avg_score == if self.node_at(node_id as int).spec_sims() == 0 {
                0int
            } else {
                div_trunc(
                    self.node_at(node_id as int).spec_score() as int,
                    self.node_at(node_id as int).spec_sims() as int,
                )
            },
    {
        self.nodes[node_id].stats()
    }
}

} // verus!
