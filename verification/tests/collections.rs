use ismcts::actions::{ActionEq, ActionList, ActionVec};
use ismcts::edge::{Edge, PlayerId};
use ismcts::node::Node;
use ismcts::state::State;

/// A minimal game, only here to instantiate `Node`'s type parameter.
#[derive(Clone)]
struct Trivial;

impl State for Trivial {
    type Action = u64;
    type ActionList = ActionVec<u64>;
    type Inference = ();

    fn turn(&self) -> PlayerId {
        0
    }

    fn possible_actions(&self) -> ActionVec<u64> {
        ActionList::uninit()
    }

    fn is_terminal(&self) -> bool {
        true
    }

    fn apply_action(&mut self, _action: u64) {}

    fn randomize(&self, _perspective: PlayerId, _inference: &()) -> Self {
        Trivial
    }

    fn do_rollout(&mut self) {}

    fn reward(&self, _actor: PlayerId) -> i64 {
        0
    }
}

fn list_of(actions: &[u64]) -> ActionVec<u64> {
    let mut v: ActionVec<u64> = ActionList::uninit();
    for a in actions {
        v.push(*a);
    }
    v
}

fn drain(mut v: ActionVec<u64>) -> Vec<u64> {
    let mut out = Vec::new();
    while let Some(a) = v.pop_random() {
        out.push(a);
    }
    out.sort();
    out
}

#[test]
fn uninit_is_empty() {
    let v: ActionVec<u64> = ActionList::uninit();
    assert!(v.is_empty());
    assert_eq!(v.len(), 0);
}

#[test]
fn push_deduplicates() {
    let mut v: ActionVec<u64> = ActionList::uninit();
    v.push(5);
    v.push(5);
    v.push(7);
    assert_eq!(v.len(), 2);
    assert_eq!(drain(v), vec![5, 7]);
}

#[test]
fn without_is_set_difference() {
    let a = list_of(&[1, 2, 3, 4]);
    let b = list_of(&[2, 4]);
    let diff = a.without(&b);
    assert_eq!(drain(diff), vec![1, 3]);
    assert_eq!(drain(a.without(&a)), Vec::<u64>::new());
}

#[test]
fn has_tests_membership() {
    let v = list_of(&[10, 20]);
    assert!(v.has(&10));
    assert!(v.has(&20));
    assert!(!v.has(&30));
    assert!(10u64.action_eq(&10));
    assert!(!10u64.action_eq(&11));
}

#[test]
fn pop_random_empties_exactly_once() {
    let mut v = list_of(&[3, 1, 4]);
    let mut seen = Vec::new();
    while let Some(a) = v.pop_random() {
        seen.push(a);
    }
    seen.sort();
    assert_eq!(seen, vec![1, 3, 4]);
    assert!(v.is_empty());
    assert_eq!(v.pop_random(), None);
}

#[test]
fn edge_records_action_and_actor() {
    let e = Edge::new(7u64, 3);
    assert_eq!(e.action(), 7);
    assert_eq!(e.actor(), 3);
}

#[test]
fn pop_action_exhausts_the_legal_set() {
    let legal = list_of(&[1, 2, 3]);
    let mut node: Node<Trivial> = Node::new(None, None);
    assert!(node.has_untried_actions(&legal));
    let mut tried = Vec::new();
    while let Some(a) = node.pop_action(&legal) {
        tried.push(a);
    }
    tried.sort();
    assert_eq!(tried, vec![1, 2, 3]);
    assert!(!node.has_untried_actions(&legal));
    assert_eq!(node.pop_action(&legal), None);
    assert_eq!(node.pop_action(&legal), None);
}

#[test]
fn node_statistics_update_and_saturate_sensibly() {
    let mut node: Node<Trivial> = Node::new(Some(Edge::new(1u64, 0)), Some(0));
    assert_eq!(node.num_sims(), 0);
    assert_eq!(node.stats().num_avails, 1);
    node.update(65536);
    node.update(0);
    assert_eq!(node.num_sims(), 2);
    assert_eq!(node.avg_score(), 32768);
    node.increase_availability();
    assert_eq!(node.stats().num_avails, 2);
    assert_eq!(node.parent_id(), Some(0));
    assert_eq!(node.edge().map(|e| e.action()), Some(1));
}

#[test]
fn unvisited_node_has_maximal_uct() {
    let node: Node<Trivial> = Node::new(None, None);
    assert_eq!(node.uct_score(92682), i64::MAX);
    assert_eq!(node.stats().avg_score, 0);
}
