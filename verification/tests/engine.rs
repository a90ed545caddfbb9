use ismcts::actions::{ActionList, ActionVec};
use ismcts::edge::{Edge, PlayerId};
use ismcts::searcher::Searcher;
use ismcts::state::State;
use ismcts::tree::Tree;

/// One point of reward in fixed point.
const ONE: i64 = 65536;

/// A one-ply game: a single move from {1, 2}; choosing 1 pays one point.
#[derive(Clone)]
struct OnePly {
    played: Option<u64>,
}

impl OnePly {
    fn new() -> Self {
        OnePly { played: None }
    }
}

impl State for OnePly {
    type Action = u64;
    type ActionList = ActionVec<u64>;
    type Inference = ();

    fn turn(&self) -> PlayerId {
        0
    }

    fn possible_actions(&self) -> ActionVec<u64> {
        let mut v: ActionVec<u64> = ActionList::uninit();
        if self.played.is_none() {
            v.push(1);
            v.push(2);
        }
        v
    }

    fn is_terminal(&self) -> bool {
        self.played.is_some()
    }

    fn apply_action(&mut self, action: u64) {
        self.played = Some(action);
    }

    fn randomize(&self, _perspective: PlayerId, _inference: &()) -> Self {
        self.clone()
    }

    fn do_rollout(&mut self) {
        if self.played.is_none() {
            self.played = Some(2);
        }
    }

    fn reward(&self, _actor: PlayerId) -> i64 {
        if self.played == Some(1) {
            ONE
        } else {
            0
        }
    }
}

/// A game that is over before it starts: no legal actions, terminal at once.
#[derive(Clone)]
struct Finished;

impl State for Finished {
    type Action = u64;
    type ActionList = ActionVec<u64>;
    type Inference = ();

    fn turn(&self) -> PlayerId {
        0
    }

    fn possible_actions(&self) -> ActionVec<u64> {
        ActionList::uninit()
    }

    fn is_terminal(&self) -> bool {
        true
    }

    fn apply_action(&mut self, _action: u64) {}

    fn randomize(&self, _perspective: PlayerId, _inference: &()) -> Self {
        Finished
    }

    fn do_rollout(&mut self) {}

    fn reward(&self, _actor: PlayerId) -> i64 {
        0
    }
}

/// Two plies from {1, 2} each; the first move decides the payoff.
#[derive(Clone)]
struct TwoPly {
    played: Vec<u64>,
}

impl State for TwoPly {
    type Action = u64;
    type ActionList = ActionVec<u64>;
    type Inference = ();

    fn turn(&self) -> PlayerId {
        self.played.len()
    }

    fn possible_actions(&self) -> ActionVec<u64> {
        let mut v: ActionVec<u64> = ActionList::uninit();
        if self.played.len() < 2 {
            v.push(1);
            v.push(2);
        }
        v
    }

    fn is_terminal(&self) -> bool {
        self.played.len() >= 2
    }

    fn apply_action(&mut self, action: u64) {
        self.played.push(action);
    }

    fn randomize(&self, _perspective: PlayerId, _inference: &()) -> Self {
        self.clone()
    }

    fn do_rollout(&mut self) {
        while self.played.len() < 2 {
            self.played.push(2);
        }
    }

    fn reward(&self, _actor: PlayerId) -> i64 {
        if !self.played.is_empty() && self.played[0] == 1 {
            ONE
        } else {
            0
        }
    }
}

/// Runs a fixed number of engine iterations by hand, mirroring one search
/// pass per iteration, and returns the tree.
fn run_fixed(state: &TwoPly, iterations: usize) -> (Tree<TwoPly>, usize) {
    let mut tree: Tree<TwoPly> = Tree::new(92682, 64);
    let root = tree.add_node(None, None);
    for _ in 0..iterations {
        let mut det = state.randomize(state.turn(), &());
        let node_id = tree.select(root, &mut det);
        let node_id = tree.expand(node_id, &mut det);
        det.do_rollout();
        let mut cur = Some(node_id);
        while let Some(id) = cur {
            if let Some(e) = tree.get_edge(id) {
                tree.update_node(id, det.reward(e.actor()));
            }
            cur = tree.get_parent_id(id);
        }
    }
    (tree, root)
}

#[test]
fn one_ply_prefers_the_paying_action() {
    let state = OnePly::new();
    let mut searcher: Searcher<OnePly> = Searcher::new(92682, 1024);
    let result = searcher.search(&state, &(), 50);
    assert!(result.num_simulations >= 1000);
    assert_eq!(result.best_action, Some(1));
    assert!(result.tree_size >= 3);
}

#[test]
fn terminal_root_returns_none() {
    let mut searcher: Searcher<Finished> = Searcher::new(92682, 16);
    let result = searcher.search(&Finished, &(), 0);
    assert_eq!(result.best_action, None);
    assert_eq!(result.tree_size, 1);
    assert_eq!(result.num_simulations % 2048, 0);
    assert!(result.child_stats.is_empty());
}

#[test]
fn zero_budget_runs_whole_batches() {
    let state = OnePly::new();
    let mut searcher: Searcher<OnePly> = Searcher::new(92682, 1024);
    let result = searcher.search(&state, &(), 0);
    assert_eq!(result.num_simulations % 2048, 0);
    assert!(result.tree_size <= result.num_simulations + 1);
}

#[test]
fn fixed_seed_runs_are_identical() {
    let state = TwoPly { played: Vec::new() };
    let (tree_a, root_a) = run_fixed(&state, 300);
    let (tree_b, root_b) = run_fixed(&state, 300);
    assert_eq!(tree_a.get_size(), tree_b.get_size());
    assert_eq!(tree_a.best_action(root_a, &state), tree_b.best_action(root_b, &state));
    for id in 0..tree_a.get_size() {
        let sa = tree_a.node_stats(id);
        let sb = tree_b.node_stats(id);
        assert_eq!(sa.num_sims, sb.num_sims);
        assert_eq!(sa.num_avails, sb.num_avails);
        assert_eq!(sa.avg_score, sb.avg_score);
        assert_eq!(tree_a.get_parent_id(id), tree_b.get_parent_id(id));
    }
    let scored_a = tree_a.scored_actions(root_a, &state);
    let scored_b = tree_b.scored_actions(root_b, &state);
    assert_eq!(scored_a.len(), scored_b.len());
    for (a, b) in scored_a.iter().zip(scored_b.iter()) {
        assert_eq!(a, b);
    }
}

#[test]
fn visits_are_monotone_toward_the_root() {
    let state = TwoPly { played: Vec::new() };
    let (tree, _root) = run_fixed(&state, 500);
    assert!(tree.get_size() > 3);
    for id in 0..tree.get_size() {
        if let Some(p) = tree.get_parent_id(id) {
            if tree.get_edge(p).is_some() {
                let child = tree.node_stats(id);
                let parent = tree.node_stats(p);
                assert!(child.num_sims <= parent.num_sims);
                if child.num_sims > 0 {
                    assert!(parent.num_sims > 0);
                }
            }
        }
    }
}

#[test]
fn availability_is_at_least_one_everywhere() {
    let state = TwoPly { played: Vec::new() };
    let (tree, _root) = run_fixed(&state, 500);
    for id in 0..tree.get_size() {
        assert!(tree.node_stats(id).num_avails >= 1);
    }
}

#[test]
fn scored_actions_stay_within_legal_actions() {
    let state = TwoPly { played: Vec::new() };
    let (tree, root) = run_fixed(&state, 200);
    let legal = state.possible_actions();
    let scored = tree.scored_actions(root, &state);
    assert!(!scored.is_empty());
    for (_score, action) in scored.iter() {
        assert!(legal.has(action));
    }
    let mut only_one: ActionVec<u64> = ActionList::uninit();
    only_one.push(1);
    let restricted = tree.scored_actions_among(root, &only_one);
    for (_score, action) in restricted.iter() {
        assert_eq!(*action, 1);
    }
}

#[test]
fn search_after_search_rebuilds_the_tree() {
    let state = OnePly::new();
    let mut searcher: Searcher<OnePly> = Searcher::new(92682, 1024);
    let first = searcher.search(&state, &(), 10);
    let second = searcher.search(&state, &(), 10);
    assert_eq!(second.best_action, Some(1));
    assert!(first.tree_size >= 3 && second.tree_size >= 3);
    assert_eq!(searcher.tree().get_size(), second.tree_size);
}

#[test]
fn default_searcher_searches() {
    let state = OnePly::new();
    let mut searcher: Searcher<OnePly> = Default::default();
    let result = searcher.search(&state, &(), 5);
    assert_eq!(result.best_action, Some(1));
}

#[test]
fn child_stats_cover_the_legal_children() {
    let state = OnePly::new();
    let mut searcher: Searcher<OnePly> = Searcher::new(92682, 1024);
    let result = searcher.search(&state, &(), 10);
    assert_eq!(result.child_stats.len(), 2);
    let legal = state.possible_actions();
    for (stats, action) in result.child_stats.iter() {
        assert!(legal.has(action));
        assert!(stats.num_sims >= 1);
        assert!(stats.num_avails >= 1);
    }
}

#[test]
fn best_action_ties_go_to_the_last_child() {
    let mut tree: Tree<TwoPly> = Tree::new(92682, 8);
    let root = tree.add_node(None, None);
    tree.add_node(Some(Edge::new(1u64, 0)), Some(root));
    tree.add_node(Some(Edge::new(2u64, 0)), Some(root));
    tree.update_node(1, 0);
    tree.update_node(2, 0);
    let mut legal: ActionVec<u64> = ActionList::uninit();
    legal.push(1);
    legal.push(2);
    assert_eq!(tree.best_action_among(root, &legal), Some(2));
    tree.update_node(1, 0);
    assert_eq!(tree.best_action_among(root, &legal), Some(1));
    let mut only_two: ActionVec<u64> = ActionList::uninit();
    only_two.push(2);
    assert_eq!(tree.best_action_among(root, &only_two), Some(2));
    let none: ActionVec<u64> = ActionList::uninit();
    assert_eq!(tree.best_action_among(root, &none), None);
}

#[test]
fn expand_among_grows_until_exhausted() {
    let base = TwoPly { played: Vec::new() };
    let mut tree: Tree<TwoPly> = Tree::new(92682, 8);
    let root = tree.add_node(None, None);
    let legal = base.possible_actions();

    let mut s1 = base.clone();
    let first = tree.expand_among(root, &legal, &mut s1);
    assert_eq!(first, 1);
    let mut s2 = base.clone();
    let second = tree.expand_among(root, &legal, &mut s2);
    assert_eq!(second, 2);
    // Both legal actions are tried now: no further expansion.
    let mut s3 = base.clone();
    let third = tree.expand_among(root, &legal, &mut s3);
    assert_eq!(third, root);
    assert_eq!(tree.get_size(), 3);
    // The two children carry the two distinct legal actions.
    let mut actions: Vec<u64> = Vec::new();
    actions.push(tree.get_edge(1).unwrap().action());
    actions.push(tree.get_edge(2).unwrap().action());
    actions.sort();
    assert_eq!(actions, vec![1, 2]);
}
