//! The action-collection capability consumed by the engine, and a verified
//! vector-backed implementation of it.
//!
//! The engine never inspects a collection beyond this interface: it computes
//! the set difference of the legal and the tried actions, extracts one
//! element from it, and tests membership.  A game is free to bring its own
//! collection; [`ActionVec`] is the implementation the crate's own tests use.

use vstd::prelude::*;

verus! {

/// Decidable equality on actions, with the run-time answer tied to the
/// mathematical one so that membership tests can carry contracts.
pub trait ActionEq: Sized {
    fn action_eq(&self, other: &Self) -> (r: bool)
        ensures
            r == (self == other),
    ;
}

impl ActionEq for u64 {
    fn action_eq(&self, other: &Self) -> (r: bool)
        ensures
            r == (self == other),
    {
        *self == *other
    }
}

impl ActionEq for usize {
    fn action_eq(&self, other: &Self) -> (r: bool)
        ensures
            r == (self == other),
    {
        *self == *other
    }
}

/// A set-like container of actions: the engine uses it for the legal actions
/// of a state and for the actions already tried at a node.
///
/// `pop_random` is the only operation whose result is not pinned down: it may
/// extract any element, but it must extract one whenever the collection is
/// non-empty, and it must remove exactly the element it returns.
pub trait ActionList<A>: Sized {
    /// The mathematical contents of the collection.
    spec fn actions(&self) -> Set<A>;

    /// A collection with no elements.
    fn uninit() -> (r: Self)
        ensures
            r.actions() == Set::<A>::empty(),
    ;

    /// The elements of `self` that are not in `other`.
    fn without(&self, other: &Self) -> (r: Self)
        ensures
            r.actions() == self.actions().difference(other.actions()),
    ;

    fn is_empty(&self) -> (r: bool)
        ensures
            r == self.actions().is_empty(),
    ;

    /// Removes and returns one element, or `None` exactly when the
    /// collection is empty.
    fn pop_random(&mut self) -> (r: Option<A>)
        ensures
            match r {
                Option::Some(a) => old(self).actions().contains(a)
                    && final(self).actions() == old(self).actions().remove(a),
                Option::None => final(self).actions() == old(self).actions()
                    && old(self).actions().is_empty(),
            },
    ;

    /// Adds one element.
    fn push(&mut self, action: A)
        ensures
            final(self).actions() == old(self).actions().insert(action),
    ;

    /// Membership test.
    fn has(&self, action: &A) -> (r: bool)
        ensures
            r == self.actions().contains(*action),
    ;
}

/// A duplicate-free vector of actions with a deterministic pseudo-random
/// extraction order: the generator state lives in the collection and starts
/// from a fixed seed, so that two identical runs extract identically.
pub struct ActionVec<A> {
    items: Vec<A>,
    rng: u64,
}

/// The multiplier and increment of a mixed congruential generator; the
/// low bits cycle quickly, so the index is taken from the value modulo the
/// length after one full step.
pub const LCG_MUL: u64 = 6364136223846793005;

pub const LCG_INC: u64 = 1442695040888963407;

pub const LCG_SEED: u64 = 0x9E3779B97F4A7C15;

impl<A> ActionVec<A> {
    #[verifier::type_invariant]
    spec fn inv(self) -> bool {
        self.items@.no_duplicates()
    }

    /// The elements in extraction-candidate order; duplicate-free.
    pub closed spec fn spec_items(&self) -> Seq<A> {
        self.items@
    }

    pub fn len(&self) -> (r: usize)
        ensures
            r == self.spec_items().len(),
    {
        self.items.len()
    }
}

/// Removing one position from a duplicate-free sequence removes exactly that
/// element from its set of elements.
proof fn lemma_remove_to_set<A>(s: Seq<A>, i: int)
    requires
        s.no_duplicates(),
        0 <= i < s.len(),
    ensures
        s.remove(i).no_duplicates(),
        s.remove(i).to_set() == s.to_set().remove(s[i]),
{
    let t = s.remove(i);
    assert forall|p: int, q: int| 0 <= p < q < t.len() implies t[p] != t[q] by {
        let sp: int = if p < i { p } else { p + 1 };
        let sq: int = if q < i { q } else { q + 1 };
        assert(t[p] == s[sp]);
        assert(t[q] == s[sq]);
    }
    assert forall|x: A| t.to_set().contains(x) implies s.to_set().remove(s[i]).contains(x) by {
        let j = choose|j: int| 0 <= j < t.len() && t[j] == x;
        let sj: int = if j < i { j } else { j + 1 };
        assert(s[sj] == x);
        assert(s.contains(x));
    }
    assert forall|x: A| s.to_set().remove(s[i]).contains(x) implies t.to_set().contains(x) by {
        let j = choose|j: int| 0 <= j < s.len() && s[j] == x;
        assert(j != i);
        let tj: int = if j < i { j } else { j - 1 };
        assert(t[tj] == s[j]);
        assert(t.contains(x));
    }
    assert(t.to_set() =~= s.to_set().remove(s[i]));
}

/// Appending a fresh element to a duplicate-free sequence keeps it
/// duplicate-free and inserts the element into its set of elements.
proof fn lemma_push_to_set<A>(s: Seq<A>, a: A)
    requires
        s.no_duplicates(),
        !s.contains(a),
    ensures
        s.push(a).no_duplicates(),
        s.push(a).to_set() == s.to_set().insert(a),
{
    let t = s.push(a);
    assert forall|p: int, q: int| 0 <= p < q < t.len() implies t[p] != t[q] by {
        if q < s.len() {
            assert(t[p] == s[p] && t[q] == s[q]);
        } else {
            assert(t[q] == a);
            assert(t[p] == s[p]);
            assert(s.contains(s[p]));
        }
    }
    assert forall|x: A| t.to_set().contains(x) implies s.to_set().insert(a).contains(x) by {
        let j = choose|j: int| 0 <= j < t.len() && t[j] == x;
        if j < s.len() {
            assert(s[j] == x);
            assert(s.contains(x));
        }
    }
    assert forall|x: A| s.to_set().insert(a).contains(x) implies t.to_set().contains(x) by {
        if s.contains(x) {
            let j = choose|j: int| 0 <= j < s.len() && s[j] == x;
            assert(t[j] == x);
            assert(t.contains(x));
        } else {
            assert(x == a);
            assert(t[s.len() as int] == a);
            assert(t.contains(x));
        }
    }
    assert(t.to_set() =~= s.to_set().insert(a));
}

impl<A: Copy + ActionEq> ActionVec<A> {
    /// Membership in the underlying duplicate-free vector.
    fn find(&self, action: &A) -> (r: bool)
        ensures
            r == self.items@.contains(*action),
    {
        let n = self.items.len();
        let mut i: usize = 0;
        while i < n
            invariant
                n == self.items@.len(),
                i <= n,
                forall|j: int| 0 <= j < i ==> self.items@[j] != *action,
            decreases n - i,
        {
            if self.items[i].action_eq(action) {
                assert(self.items@[i as int] == *action);
                return true;
            }
            i += 1;
        }
        false
    }
}

impl<A: Copy + ActionEq> ActionList<A> for ActionVec<A> {
    closed spec fn actions(&self) -> Set<A> {
        self.items@.to_set()
    }

    fn uninit() -> (r: Self) {
        let r = ActionVec { items: Vec::new(), rng: LCG_SEED };
        proof {
            assert(r.items@.to_set() =~= Set::<A>::empty());
        }
        r
    }

    fn without(&self, other: &Self) -> (r: Self) {
        proof {
            use_type_invariant(self);
        }
        let mut out: Vec<A> = Vec::new();
        let n = self.items.len();
        let mut i: usize = 0;
        while i < n
            invariant
                n == self.items@.len(),
                i <= n,
                self.items@.no_duplicates(),
                out@.no_duplicates(),
                forall|x: A| #[trigger] out@.contains(x)
                    <==> (self.items@.subrange(0, i as int).contains(x)
                        && !other.actions().contains(x)),
            decreases n - i,
        {
            let a = self.items[i];
            let ghost pre = self.items@.subrange(0, i as int);
            let ghost post = self.items@.subrange(0, i + 1 as int);
            assert(post.drop_last() =~= pre);
            assert(post.last() == self.items@[i as int]);
            if !other.has(&a) {
                proof {
                    if out@.contains(a) {
                        assert(pre.contains(a));
                        let j = choose|j: int| 0 <= j < pre.len() && pre[j] == a;
                        assert(self.items@[j] == self.items@[i as int]);
                        assert(false);
                    }
                    lemma_push_to_set(out@, a);
                }
                let ghost out0 = out@;
                out.push(a);
                proof {
                    assert(out@ == out0.push(a));
                    assert forall|x: A| #[trigger] out@.contains(x) implies (post.contains(x)
                        && !other.actions().contains(x)) by {
                        assert(out@.to_set().contains(x));
                        assert(out0.to_set().insert(a).contains(x));
                        if x == a {
                            assert(post[i as int] == a);
                            assert(post.contains(x));
                        } else {
                            assert(out0.contains(x));
                            assert(pre.contains(x));
                            let j = choose|j: int| 0 <= j < pre.len() && pre[j] == x;
                            assert(post[j] == x);
                            assert(post.contains(x));
                        }
                    }
                    assert forall|x: A| (post.contains(x) && !other.actions().contains(x))
                        implies #[trigger] out@.contains(x) by {
                        let j = choose|j: int| 0 <= j < post.len() && post[j] == x;
                        if j < i as int {
                            assert(pre[j] == x);
                            assert(pre.contains(x));
                            assert(out0.contains(x));
                            let k = choose|k: int| 0 <= k < out0.len() && out0[k] == x;
                            assert(out@[k] == x);
                            assert(out@.contains(x));
                        } else {
                            assert(x == a);
                            assert(out@[out0.len() as int] == a);
                            assert(out@.contains(x));
                        }
                    }
                }
            } else {
                proof {
                    assert forall|x: A| #[trigger] out@.contains(x)
                        <==> (post.contains(x) && !other.actions().contains(x)) by {
                        if post.contains(x) && !other.actions().contains(x) {
                            let j = choose|j: int| 0 <= j < post.len() && post[j] == x;
                            assert(j < i as int);
                            assert(pre[j] == x);
                            assert(pre.contains(x));
                        }
                        if out@.contains(x) {
                            assert(pre.contains(x));
                            let j = choose|j: int| 0 <= j < pre.len() && pre[j] == x;
                            assert(post[j] == x);
                            assert(post.contains(x));
                        }
                    }
                }
            }
            i += 1;
        }
        proof {
            assert(self.items@.subrange(0, n as int) =~= self.items@);
        }
        let r = ActionVec { items: out, rng: self.rng };
        proof {
            assert(r.items@.to_set() =~= self.items@.to_set().difference(
                other.actions(),
            ));
        }
        r
    }

    fn is_empty(&self) -> (r: bool) {
        let r = self.items.len() == 0;
        proof {
            if self.items@.len() == 0 {
                assert(self.items@.to_set() =~= Set::<A>::empty());
            } else {
                assert(self.items@.contains(self.items@[0]));
                assert(self.items@.to_set().contains(self.items@[0]));
            }
        }
        r
    }

    fn pop_random(&mut self) -> (r: Option<A>) {
        proof {
            use_type_invariant(&*self);
        }
        let n = self.items.len();
        if n == 0 {
            proof {
                assert(self.items@.to_set() =~= Set::<A>::empty());
            }
            None
        } else {
            self.rng = self.rng.wrapping_mul(LCG_MUL).wrapping_add(LCG_INC);
            let idx = (self.rng % (n as u64)) as usize;
            assert(idx < n);
            let a = self.items[idx];
            let mut rest: Vec<A> = Vec::new();
            let mut i: usize = 0;
            while i < idx
                invariant
                    idx < n,
                    n == self.items@.len(),
                    i <= idx,
                    rest@ == self.items@.subrange(0, i as int),
                decreases idx - i,
            {
                rest.push(self.items[i]);
                proof {
                    assert(self.items@.subrange(0, i + 1 as int) =~= self.items@.subrange(
                        0,
                        i as int,
                    ).push(self.items@[i as int]));
                }
                i += 1;
            }
            let mut j: usize = idx + 1;
            while j < n
                invariant
                    idx < n,
                    n == self.items@.len(),
                    idx + 1 <= j <= n,
                    rest@ == self.items@.subrange(0, idx as int) + self.items@.subrange(
                        idx + 1 as int,
                        j as int,
                    ),
                decreases n - j,
            {
                rest.push(self.items[j]);
                proof {
                    assert(self.items@.subrange(idx + 1 as int, j + 1 as int)
                        =~= self.items@.subrange(idx + 1 as int, j as int).push(
                        self.items@[j as int],
                    ));
                }
                j += 1;
            }
            proof {
                assert(rest@ =~= self.items@.remove(idx as int));
                lemma_remove_to_set(self.items@, idx as int);
            }
            self.items = rest;
            Some(a)
        }
    }

    fn push(&mut self, action: A) {
        proof {
            use_type_invariant(&*self);
        }
        if self.find(&action) {
            proof {
                assert(self.items@.to_set().contains(action));
                assert(self.items@.to_set().insert(action) =~= self.items@.to_set());
            }
        } else {
            proof {
                lemma_push_to_set(self.items@, action);
            }
            let n = self.items.len();
            let mut out: Vec<A> = Vec::new();
            let mut i: usize = 0;
            while i < n
                invariant
                    n == self.items@.len(),
                    i <= n,
                    out@ == self.items@.subrange(0, i as int),
                decreases n - i,
            {
                out.push(self.items[i]);
                proof {
                    assert(self.items@.subrange(0, i + 1 as int) =~= self.items@.subrange(
                        0,
                        i as int,
                    ).push(self.items@[i as int]));
                }
                i += 1;
            }
            proof {
                assert(out@ =~= self.items@);
            }
            out.push(action);
            self.items = out;
        }
    }

    fn has(&self, action: &A) -> (r: bool) {
        self.find(action)
    }
}

} // verus!
