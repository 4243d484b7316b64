//! The node of a prefix tree and the algorithms that walk and change it.
use vstd::pervasive::VecAdditionalExecFns;
use vstd::prelude::*;

use crate::element::TrieKey;

pub mod debug;
pub mod iter;

use iter::Iter;

verus! {

/// One node of a prefix tree: whether the path that leads here is a stored
/// sequence, and the child nodes keyed by their element.
pub struct TrieNode<T> {
    stop: bool,
    childs: Vec<(T, TrieNode<T>)>,
}

/// Relies on `Vec::shrink_to_fit`: only the capacity changes, not the items.
#[verifier::external_body]
fn shrink_entries<E>(v: &mut Vec<E>)
    ensures
        final(v)@ == old(v)@,
{
    v.shrink_to_fit()
}

/// Entry `i` of a child list exists and carries the key `k`.
pub open spec fn keyed_at<T>(cs: Seq<(T, TrieNode<T>)>, k: T, i: int) -> bool {
    0 <= i < cs.len() && cs[i].0 == k
}

/// No two entries of a child list carry the same key.
pub open spec fn unique_keys<T>(cs: Seq<(T, TrieNode<T>)>) -> bool {
    forall|i: int, j: int| 0 <= i < cs.len() && 0 <= j < cs.len() && i != j ==> cs[i].0 != cs[j].0
}

impl<T> TrieNode<T> {
    /// Whether the path that leads to this node is a stored sequence.
    pub closed spec fn is_terminal(self) -> bool {
        self.stop
    }

    /// The child entries, each an element and the node it leads to.
    pub closed spec fn entries(self) -> Seq<(T, TrieNode<T>)> {
        self.childs@
    }

    /// Whether some child is keyed by `k`.
    pub open spec fn has_child(self, k: T) -> bool {
        exists|i: int| keyed_at(self.entries(), k, i)
    }

    /// The child keyed by `k` (meaningful where `has_child(k)`).
    pub open spec fn child(self, k: T) -> TrieNode<T> {
        self.entries()[choose|i: int| keyed_at(self.entries(), k, i)].1
    }

    /// The node reached from this one by following the elements of `s`.
    pub open spec fn node_at(self, s: Seq<T>) -> Option<TrieNode<T>>
        decreases s.len(),
    {
        if s.len() == 0 {
            Some(self)
        } else if self.has_child(s[0]) {
            self.child(s[0]).node_at(s.drop_first())
        } else {
            None
        }
    }

    /// Whether `s` is stored below this node.
    pub open spec fn contains(self, s: Seq<T>) -> bool {
        self.node_at(s) is Some && self.node_at(s)->0.is_terminal()
    }

    /// The sequences stored below this node.
    pub open spec fn view(self) -> Set<Seq<T>> {
        Set::new(|s: Seq<T>| self.contains(s))
    }

    /// A node that is not terminal and has no children: dead weight.
    pub open spec fn removable(self) -> bool {
        !self.is_terminal() && self.entries().len() == 0
    }

    /// Keys are unique at every node, and no node below this one is dead weight.
    pub closed spec fn wf(self) -> bool
        decreases self,
    {
        &&& unique_keys(self.childs@)
        &&& forall|i: int|
            #![trigger self.childs@[i]]
            0 <= i < self.childs@.len() ==> {
                &&& !self.childs@[i].1.removable()
                &&& self.childs@[i].1.wf()
            }
    }

    /// A node with no children that is not terminal.
    pub fn new() -> (r: Self)
        ensures
            !r.is_terminal(),
            r.entries().len() == 0,
            r.wf(),
            r@ == Set::<Seq<T>>::empty(),
    {
        let r = TrieNode { stop: false, childs: Vec::new() };
        proof {
            assert(r@ =~= Set::<Seq<T>>::empty()) by {
                assert forall|s: Seq<T>| !r.contains(s) by {
                    if s.len() > 0 {
                        assert(!r.has_child(s[0]));
                    }
                }
            }
        }
        r
    }

    /// Whether the path that leads to this node is a stored sequence.
    pub fn stop(&self) -> (r: bool)
        ensures
            r == self.is_terminal(),
    {
        self.stop
    }

    /// The same as `stop`.
    pub fn is_stop(&self) -> (r: bool)
        ensures
            r == self.is_terminal(),
    {
        self.stop()
    }

    /// Whether the node has no children.
    pub fn is_empty(&self) -> (r: bool)
        ensures
            r == (self.entries().len() == 0),
    {
        self.childs.len() == 0
    }

    /// Whether the node is dead weight: not terminal and without children.
    pub fn can_remove(&self) -> (r: bool)
        ensures
            r == self.removable(),
    {
        !self.stop() && self.is_empty()
    }

    /// How many times the first child is taken from this node before a
    /// terminal node or a node without children is reached.
    pub closed spec fn first_depth(self) -> nat
        decreases self,
    {
        if self.stop || self.childs@.len() == 0 {
            0
        } else {
            1 + self.childs@[0].1.first_depth()
        }
    }

    /// A node that is neither terminal nor without children goes one deeper
    /// through its first child.
    pub proof fn lemma_first_depth(self)
        requires
            !self.is_terminal(),
            self.entries().len() > 0,
        ensures
            self.first_depth() == 1 + self.entries()[0].1.first_depth(),
    {
    }

    /// An iterator over the sequences stored below this node.
    pub fn iter(&self) -> (r: Iter<'_, T>)
        requires
            self.wf(),
        ensures
            r.inv(),
            r.remaining() == self@,
            r.path() == Seq::<T>::empty(),
            r.pending() == self.is_terminal(),
    {
        Iter::from_node(self)
    }

    /// The child entries, each an element and the node it leads to.
    pub fn childs(&self) -> (r: &Vec<(T, TrieNode<T>)>)
        ensures
            r@ == self.entries(),
    {
        &self.childs
    }

    /// With unique keys, the entry at `j` is the child of its key.
    proof fn lemma_child_at(self, j: int)
        requires
            unique_keys(self.childs@),
            0 <= j < self.childs@.len(),
        ensures
            self.has_child(self.childs@[j].0),
            self.child(self.childs@[j].0) == self.childs@[j].1,
    {
        assert(keyed_at(self.entries(), self.childs@[j].0, j));
    }

    /// The children of a well-formed node are well-formed and not dead weight.
    proof fn lemma_child_wf(self, k: T)
        requires
            self.wf(),
            self.has_child(k),
        ensures
            self.child(k).wf(),
            !self.child(k).removable(),
    {
        let j = choose|i: int| keyed_at(self.entries(), k, i);
        assert(self.childs@[j].1.wf());
    }

    /// Every node reached from a well-formed node is well-formed.
    pub proof fn lemma_node_at_wf(self, s: Seq<T>)
        requires
            self.wf(),
            self.node_at(s) is Some,
        ensures
            self.node_at(s)->0.wf(),
            s.len() > 0 ==> !self.node_at(s)->0.removable(),
        decreases s.len(),
    {
        if s.len() > 0 {
            self.lemma_child_wf(s[0]);
            self.child(s[0]).lemma_node_at_wf(s.drop_first());
        }
    }
}

impl<T> Default for TrieNode<T> {
    /// A node with no children that is not terminal.
    fn default() -> (r: Self)
        ensures
            !r.is_terminal(),
            r.entries().len() == 0,
            r.wf(),
            r@ == Set::<Seq<T>>::empty(),
    {
        TrieNode::new()
    }
}

impl<T> TrieNode<T> {
    /// Replacing the node of entry `j` keeps the keys and the other children.
    proof fn lemma_replace_child(o: TrieNode<T>, n: TrieNode<T>, j: int, c: TrieNode<T>)
        requires
            unique_keys(o.childs@),
            0 <= j < o.childs@.len(),
            n.stop == o.stop,
            n.childs@ == o.childs@.update(j, (o.childs@[j].0, c)),
        ensures
            unique_keys(n.childs@),
            n.has_child(o.childs@[j].0),
            n.child(o.childs@[j].0) == c,
            forall|k: T| #[trigger] n.has_child(k) == o.has_child(k),
            forall|k: T| k != o.childs@[j].0 && o.has_child(k) ==> #[trigger] n.child(k) == o.child(k),
    {
        assert forall|m: int| 0 <= m < n.childs@.len() implies n.childs@[m].0 == o.childs@[m].0 by {}
        n.lemma_child_at(j);
        assert forall|k: T| #[trigger] n.has_child(k) == o.has_child(k) by {
            if n.has_child(k) {
                let m = choose|i: int| keyed_at(n.entries(), k, i);
                assert(keyed_at(o.entries(), k, m));
            }
            if o.has_child(k) {
                let m = choose|i: int| keyed_at(o.entries(), k, i);
                assert(keyed_at(n.entries(), k, m));
            }
        }
        assert forall|k: T| k != o.childs@[j].0 && o.has_child(k) implies #[trigger] n.child(k)
            == o.child(k) by {
            let m = choose|i: int| keyed_at(o.entries(), k, i);
            o.lemma_child_at(m);
            n.lemma_child_at(m);
        }
    }

    /// Adding an entry under a new key keeps the other children.
    proof fn lemma_push_child(o: TrieNode<T>, n: TrieNode<T>, k: T, c: TrieNode<T>)
        requires
            unique_keys(o.childs@),
            !o.has_child(k),
            n.stop == o.stop,
            n.childs@ == o.childs@.push((k, c)),
        ensures
            unique_keys(n.childs@),
            n.has_child(k),
            n.child(k) == c,
            forall|q: T| q != k ==> #[trigger] n.has_child(q) == o.has_child(q),
            forall|q: T| q != k && o.has_child(q) ==> #[trigger] n.child(q) == o.child(q),
    {
        assert forall|a: int, b: int|
            0 <= a < n.childs@.len() && 0 <= b < n.childs@.len() && a != b implies n.childs@[a].0
            != n.childs@[b].0 by {
            if a == o.childs@.len() as int {
                assert(!keyed_at(o.entries(), k, b));
            } else if b == o.childs@.len() as int {
                assert(!keyed_at(o.entries(), k, a));
            }
        }
        n.lemma_child_at(o.childs@.len() as int);
        assert forall|q: T| q != k implies #[trigger] n.has_child(q) == o.has_child(q) by {
            if n.has_child(q) {
                let m = choose|i: int| keyed_at(n.entries(), q, i);
                assert(keyed_at(o.entries(), q, m));
            }
            if o.has_child(q) {
                let m = choose|i: int| keyed_at(o.entries(), q, i);
                assert(keyed_at(n.entries(), q, m));
            }
        }
        assert forall|q: T| q != k && o.has_child(q) implies #[trigger] n.child(q) == o.child(q) by {
            let m = choose|i: int| keyed_at(o.entries(), q, i);
            o.lemma_child_at(m);
            n.lemma_child_at(m);
        }
    }

    /// Dropping entry `j` by moving the last entry into its place keeps the
    /// other children and loses its key.
    proof fn lemma_drop_child(o: TrieNode<T>, n: TrieNode<T>, j: int)
        requires
            unique_keys(o.childs@),
            0 <= j < o.childs@.len(),
            n.stop == o.stop,
            n.childs@ == o.childs@.update(j, o.childs@.last()).drop_last(),
        ensures
            unique_keys(n.childs@),
            !n.has_child(o.childs@[j].0),
            forall|q: T| q != o.childs@[j].0 ==> #[trigger] n.has_child(q) == o.has_child(q),
            forall|q: T| q != o.childs@[j].0 && o.has_child(q) ==> #[trigger] n.child(q) == o.child(q),
    {
        let last = o.childs@.len() - 1;
        let key = o.childs@[j].0;
        // position in `o` of each entry of `n`
        let pos = |m: int| if m == j { last } else { m };
        assert forall|m: int| 0 <= m < n.childs@.len() implies n.childs@[m] == o.childs@[pos(m)]
            && pos(m) != j by {}
        assert forall|a: int, b: int|
            0 <= a < n.childs@.len() && 0 <= b < n.childs@.len() && a != b implies n.childs@[a].0
            != n.childs@[b].0 by {
            assert(n.childs@[a] == o.childs@[pos(a)]);
            assert(n.childs@[b] == o.childs@[pos(b)]);
        }
        assert(!n.has_child(key)) by {
            if n.has_child(key) {
                let m = choose|i: int| keyed_at(n.entries(), key, i);
                assert(n.childs@[m] == o.childs@[pos(m)]);
            }
        }
        assert forall|q: T| q != key implies #[trigger] n.has_child(q) == o.has_child(q) by {
            if n.has_child(q) {
                let m = choose|i: int| keyed_at(n.entries(), q, i);
                assert(keyed_at(o.entries(), q, pos(m)));
            }
            if o.has_child(q) {
                let m = choose|i: int| keyed_at(o.entries(), q, i);
                if m == last {
                    assert(keyed_at(n.entries(), q, j));
                } else {
                    assert(keyed_at(n.entries(), q, m));
                }
            }
        }
        assert forall|q: T| q != key && o.has_child(q) implies #[trigger] n.child(q) == o.child(q) by {
            assert(n.has_child(q) == o.has_child(q));
            let m = choose|i: int| keyed_at(n.entries(), q, i);
            n.lemma_child_at(m);
            o.lemma_child_at(pos(m));
        }
    }

    /// A well-formed node has unique keys.
    pub proof fn lemma_wf_unique(self)
        requires
            self.wf(),
        ensures
            unique_keys(self.entries()),
    {
    }

    /// In a well-formed node, entries with the same key are the same entry.
    pub proof fn lemma_unique_entries(self, a: int, b: int)
        requires
            self.wf(),
            0 <= a < self.entries().len(),
            0 <= b < self.entries().len(),
            self.entries()[a].0 == self.entries()[b].0,
        ensures
            a == b,
    {
    }

    /// In a well-formed node, entry `j` is the child of its key, well-formed
    /// and not dead weight.
    pub proof fn lemma_entry_is_child(self, j: int)
        requires
            self.wf(),
            0 <= j < self.entries().len(),
        ensures
            self.has_child(self.entries()[j].0),
            self.child(self.entries()[j].0) == self.entries()[j].1,
            self.entries()[j].1.wf(),
            !self.entries()[j].1.removable(),
            unique_keys(self.entries()),
    {
        self.lemma_child_at(j);
        assert(self.childs@[j].1.wf());
    }

    /// Following `s` is following its first `f` elements, then the rest.
    pub proof fn lemma_node_at_split(self, s: Seq<T>, f: int)
        requires
            0 <= f <= s.len(),
            self.node_at(s.take(f)) is Some,
        ensures
            self.node_at(s) == self.node_at(s.take(f))->0.node_at(s.skip(f)),
        decreases f,
    {
        if f == 0 {
            assert(s.skip(0) =~= s);
        } else {
            assert(s.take(f).drop_first() =~= s.drop_first().take(f - 1));
            assert(s.skip(f) =~= s.drop_first().skip(f - 1));
            self.child(s[0]).lemma_node_at_split(s.drop_first(), f - 1);
        }
    }

    /// Following `a` and then one more element.
    pub proof fn lemma_node_at_push(self, a: Seq<T>, x: T)
        requires
            self.node_at(a) is Some,
        ensures
            self.node_at(a.push(x)) == if self.node_at(a)->0.has_child(x) {
                Some(self.node_at(a)->0.child(x))
            } else {
                None
            },
    {
        let s = a.push(x);
        assert(s.take(a.len() as int) =~= a);
        self.lemma_node_at_split(s, a.len() as int);
        let t = s.skip(a.len() as int);
        let n = self.node_at(a)->0;
        assert(t.len() == 1 && t[0] == x);
        assert(t.drop_first() =~= Seq::<T>::empty());
        assert(n.child(x).node_at(Seq::<T>::empty()) == Some(n.child(x)));
    }

    /// Below a node with unique keys, a sequence of one or more elements is
    /// stored exactly where some entry carries its first element and stores
    /// the rest.
    pub proof fn lemma_contains_entry(self, s: Seq<T>)
        requires
            unique_keys(self.entries()),
            s.len() > 0,
        ensures
            self.contains(s) == exists|m: int|
                0 <= m < self.entries().len() && self.entries()[m].0 == s[0]
                    && #[trigger] self.entries()[m].1.contains(s.drop_first()),
    {
        if self.contains(s) {
            let m = choose|i: int| keyed_at(self.entries(), s[0], i);
            self.lemma_child_at(m);
            assert(self.entries()[m].1.contains(s.drop_first()));
        }
        if exists|m: int|
            0 <= m < self.entries().len() && self.entries()[m].0 == s[0]
                && #[trigger] self.entries()[m].1.contains(s.drop_first()) {
            let m = choose|m: int|
                0 <= m < self.entries().len() && self.entries()[m].0 == s[0]
                    && #[trigger] self.entries()[m].1.contains(s.drop_first());
            self.lemma_child_at(m);
        }
    }

    /// A well-formed node that is not dead weight stores some sequence.
    pub proof fn lemma_stores_some(self)
        requires
            self.wf(),
            !self.removable(),
        ensures
            exists|t: Seq<T>| self.contains(t),
        decreases self,
    {
        if !self.stop {
            let k = self.childs@[0].0;
            let c = self.childs@[0].1;
            assert(c.wf() && !c.removable());
            c.lemma_stores_some();
            let t = choose|t: Seq<T>| c.contains(t);
            self.lemma_child_at(0);
            let s = seq![k] + t;
            assert(s.drop_first() =~= t);
            assert(self.contains(s));
        } else {
            assert(self.contains(Seq::<T>::empty()));
        }
    }

    /// A sequence that starts with `k` and goes on with `t`.
    proof fn lemma_contains_cons(self, k: T, t: Seq<T>)
        ensures
            self.contains(seq![k] + t) == (self.has_child(k) && self.child(k).contains(t)),
    {
        let s = seq![k] + t;
        assert(s[0] == k);
        assert(s.drop_first() =~= t);
    }

    /// What is stored below the node reached by `a` is what is stored below
    /// this node and starts with `a`.
    pub proof fn lemma_node_at_concat(self, a: Seq<T>, t: Seq<T>)
        ensures
            self.node_at(a) is Some ==> self.contains(a + t) == self.node_at(a)->0.contains(t),
            self.node_at(a) is None ==> !self.contains(a + t),
        decreases a.len(),
    {
        let s = a + t;
        if a.len() > 0 {
            assert(s[0] == a[0]);
            assert(s.drop_first() =~= a.drop_first() + t);
            if self.has_child(a[0]) {
                self.child(a[0]).lemma_node_at_concat(a.drop_first(), t);
            }
        } else {
            assert(s =~= t);
        }
    }

    /// In a well-formed node, a sequence of one or more elements leads to a
    /// node exactly where some stored sequence starts with it.
    pub proof fn lemma_reach_iff_extends(self, a: Seq<T>)
        requires
            self.wf(),
            a.len() > 0,
        ensures
            (self.node_at(a) is Some) == exists|t: Seq<T>| #[trigger] self@.contains(a + t),
    {
        if self.node_at(a) is Some {
            self.lemma_node_at_wf(a);
            let n = self.node_at(a)->0;
            n.lemma_stores_some();
            let t = choose|t: Seq<T>| n.contains(t);
            self.lemma_node_at_concat(a, t);
            assert(self@.contains(a + t));
        } else {
            assert forall|t: Seq<T>| !#[trigger] self@.contains(a + t) by {
                self.lemma_node_at_concat(a, t);
            }
        }
    }

    /// In a well-formed node, the child of entry `j` is well-formed, stores
    /// something, and stores exactly what this node stores after its key.
    pub proof fn lemma_entry_view(self, j: int)
        requires
            self.wf(),
            0 <= j < self.entries().len(),
        ensures
            self.entries()[j].1.wf(),
            exists|t: Seq<T>| #[trigger] self.entries()[j].1@.contains(t),
            forall|t: Seq<T>| #[trigger]
                self.entries()[j].1@.contains(t) == self@.contains(seq![self.entries()[j].0] + t),
    {
        let k = self.entries()[j].0;
        let c = self.entries()[j].1;
        self.lemma_entry_is_child(j);
        c.lemma_stores_some();
        let t0 = choose|t: Seq<T>| c.contains(t);
        assert(c@.contains(t0));
        assert forall|t: Seq<T>| #[trigger] c@.contains(t) == self@.contains(seq![k] + t) by {
            self.lemma_contains_cons(k, t);
        }
    }

    /// A sequence of one or more elements stored below a well-formed node
    /// starts with the key of one of its entries.
    pub proof fn lemma_stored_has_entry(self, s: Seq<T>)
        requires
            self.wf(),
            self@.contains(s),
            s.len() > 0,
        ensures
            exists|j: int| 0 <= j < self.entries().len() && #[trigger] self.entries()[j].0 == s[0],
    {
        let j = choose|i: int| keyed_at(self.entries(), s[0], i);
        assert(self.entries()[j].0 == s[0]);
    }

    /// The empty sequence is stored below a node exactly where it is terminal.
    pub proof fn lemma_terminal_view(self)
        ensures
            self@.contains(Seq::<T>::empty()) == self.is_terminal(),
    {
    }

    /// A well-formed node that stores nothing has no children.
    pub proof fn lemma_nothing_stored_no_children(self)
        requires
            self.wf(),
            self@ == Set::<Seq<T>>::empty(),
        ensures
            self.entries().len() == 0,
    {
        if self.entries().len() > 0 {
            let k = self.childs@[0].0;
            let c = self.childs@[0].1;
            self.lemma_entry_is_child(0);
            c.lemma_stores_some();
            let t = choose|t: Seq<T>| c.contains(t);
            self.lemma_contains_cons(k, t);
            assert(self@.contains(seq![k] + t));
        }
    }

    /// The stored sequences that go through one of the first `i` entries.
    spec fn stored_through(self, i: int) -> Set<Seq<T>> {
        Set::new(
            |s: Seq<T>|
                s.len() > 0 && exists|m: int|
                    0 <= m < i && m < self.childs@.len() && self.childs@[m].0 == s[0]
                        && #[trigger] self.childs@[m].1.contains(s.drop_first()),
        )
    }

    /// Only finitely many sequences go through the first `i` entries.
    proof fn lemma_finite_through(self, i: nat)
        ensures
            self.stored_through(i as int).finite(),
        decreases self, i,
    {
        broadcast use vstd::set_lib::lemma_set_subset_finite;

        if i == 0 {
            assert(self.stored_through(0) =~= Set::<Seq<T>>::empty());
        } else if i > self.childs@.len() {
            self.lemma_finite_through(self.childs@.len());
            assert(self.stored_through(i as int) =~= self.stored_through(self.childs@.len() as int));
        } else {
            let m = i - 1;
            let k = self.childs@[m].0;
            let c = self.childs@[m].1;
            self.lemma_finite_through((i - 1) as nat);
            c.lemma_finite_through(c.childs@.len());
            let below = c.stored_through(c.childs@.len() as int);
            let all_c = below.insert(Seq::<T>::empty());
            assert(c@.subset_of(all_c)) by {
                assert forall|t: Seq<T>| c@.contains(t) implies all_c.contains(t) by {
                    if t.len() > 0 {
                        c.lemma_contains_entry_any(t);
                    } else {
                        assert(t =~= Seq::<T>::empty());
                    }
                }
            }
            let f = |t: Seq<T>| seq![k] + t;
            c@.lemma_map_finite(f);
            let whole = self.stored_through((i - 1) as int) + c@.map(f);
            assert(self.stored_through(i as int).subset_of(whole)) by {
                assert forall|s: Seq<T>| self.stored_through(i as int).contains(s) implies whole.contains(
                    s,
                ) by {
                    let j = choose|j: int|
                        0 <= j < i && j < self.childs@.len() && self.childs@[j].0 == s[0]
                            && #[trigger] self.childs@[j].1.contains(s.drop_first());
                    if j == m {
                        assert(s =~= seq![k] + s.drop_first());
                        assert(c@.contains(s.drop_first()));
                        assert(c@.map(f).contains(f(s.drop_first())));
                    } else {
                        assert(self.stored_through((i - 1) as int).contains(s));
                    }
                }
            }
        }
    }

    /// Without assuming unique keys: a stored sequence of one or more
    /// elements goes through some entry.
    proof fn lemma_contains_entry_any(self, s: Seq<T>)
        requires
            self.contains(s),
            s.len() > 0,
        ensures
            self.stored_through(self.childs@.len() as int).contains(s),
    {
        let m = choose|i: int| keyed_at(self.entries(), s[0], i);
        assert(self.childs@[m].1.contains(s.drop_first()));
    }

    /// Only finitely many sequences are stored below a node.
    pub proof fn lemma_finite(self)
        ensures
            self@.finite(),
    {
        broadcast use vstd::set_lib::lemma_set_subset_finite;

        self.lemma_finite_through(self.childs@.len());
        let all = self.stored_through(self.childs@.len() as int).insert(Seq::<T>::empty());
        assert forall|s: Seq<T>| self@.contains(s) implies all.contains(s) by {
            if s.len() > 0 {
                self.lemma_contains_entry_any(s);
            } else {
                assert(s =~= Seq::<T>::empty());
            }
        }
        assert(self@.subset_of(all));
    }

    /// Two nodes whose stored sequences differ by `tail` alone.
    proof fn lemma_view_insert(o: TrieNode<T>, n: TrieNode<T>, tail: Seq<T>)
        requires
            forall|s: Seq<T>| #[trigger] n.contains(s) == (o.contains(s) || s == tail),
        ensures
            n@ == o@.insert(tail),
    {
        assert(n@ =~= o@.insert(tail));
    }

    /// Two nodes whose stored sequences differ by the absence of `tail` alone.
    proof fn lemma_view_remove(o: TrieNode<T>, n: TrieNode<T>, tail: Seq<T>)
        requires
            forall|s: Seq<T>| #[trigger] n.contains(s) == (o.contains(s) && s != tail),
        ensures
            n@ == o@.remove(tail),
    {
        assert(n@ =~= o@.remove(tail));
    }

    /// Below a node whose child under `k` changed and whose other children and
    /// flag stayed, a sequence is stored exactly as before unless it starts
    /// with `k`, in which case the new child decides.
    proof fn lemma_contains_after_child_change(o: TrieNode<T>, n: TrieNode<T>, k: T, s: Seq<T>)
        requires
            n.stop == o.stop,
            n.has_child(k),
            forall|q: T| q != k ==> #[trigger] n.has_child(q) == o.has_child(q),
            forall|q: T| q != k && o.has_child(q) ==> #[trigger] n.child(q) == o.child(q),
        ensures
            n.contains(s) == if s.len() > 0 && s[0] == k {
                n.child(k).contains(s.drop_first())
            } else {
                o.contains(s)
            },
    {
    }
}

impl<T: TrieKey> TrieNode<T> {
    /// The position of the child keyed by `k`, if there is one.
    fn find(&self, k: &T) -> (r: Option<usize>)
        ensures
            match r {
                Some(j) => keyed_at(self.entries(), *k, j as int),
                None => !self.has_child(*k),
            },
    {
        let mut j: usize = 0;
        while j < self.childs.len()
            invariant
                j <= self.childs@.len(),
                forall|m: int| 0 <= m < j ==> self.childs@[m].0 != *k,
            decreases self.childs@.len() - j,
        {
            if self.childs[j].0.same_key(k) {
                return Some(j);
            }
            j += 1;
        }
        None
    }

    /// The child keyed by `k`, if there is one.
    pub fn get_child(&self, k: &T) -> (r: Option<&TrieNode<T>>)
        requires
            self.wf(),
        ensures
            match r {
                Some(c) => self.has_child(*k) && *c == self.child(*k),
                None => !self.has_child(*k),
            },
    {
        match self.find(k) {
            Some(j) => {
                proof {
                    self.lemma_child_at(j as int);
                }
                Some(&self.childs[j].1)
            },
            None => None,
        }
    }

    /// Detaches and returns the child keyed by `k`, with everything below it.
    pub fn remove_child(&mut self, k: &T) -> (r: Option<TrieNode<T>>)
        requires
            old(self).wf(),
        ensures
            final(self).wf(),
            match r {
                Some(c) => old(self).has_child(*k) && c == old(self).child(*k),
                None => !old(self).has_child(*k),
            },
            !final(self).has_child(*k),
            final(self).is_terminal() == old(self).is_terminal(),
            forall|s: Seq<T>| #[trigger]
                final(self).contains(s) == (old(self).contains(s) && !(s.len() > 0 && s[0] == *k)),
    {
        let ghost o = *self;
        match self.find(k) {
            None => {
                proof {
                    assert forall|s: Seq<T>| #[trigger]
                        self.contains(s) == (o.contains(s) && !(s.len() > 0 && s[0] == *k)) by {}
                }
                None
            },
            Some(j) => {
                proof {
                    o.lemma_child_at(j as int);
                }
                let e = self.childs.swap_remove(j);
                proof {
                    TrieNode::lemma_drop_child(o, *self, j as int);
                    assert forall|m: int| 0 <= m < self.childs@.len() implies #[trigger] self.childs@[m]
                        == o.childs@[if m == j { o.childs@.len() - 1 } else { m }] by {}
                    assert forall|s: Seq<T>| #[trigger]
                        self.contains(s) == (o.contains(s) && !(s.len() > 0 && s[0] == *k)) by {
                        if s.len() > 0 && s[0] != *k {
                            assert(self.has_child(s[0]) == o.has_child(s[0]));
                        }
                    }
                }
                Some(e.1)
            },
        }
    }

    /// Two nodes with the same flag, the same keys in the same places, and
    /// children that store the same sequences, store the same sequences.
    proof fn lemma_same_shape(o: TrieNode<T>, n: TrieNode<T>)
        requires
            o.wf(),
            n.stop == o.stop,
            n.childs@.len() == o.childs@.len(),
            forall|m: int|
                #![trigger n.childs@[m]]
                0 <= m < n.childs@.len() ==> n.childs@[m].0 == o.childs@[m].0 && n.childs@[m].1@
                    == o.childs@[m].1@,
        ensures
            unique_keys(n.childs@),
            n@ == o@,
    {
        assert forall|a: int, b: int|
            0 <= a < n.childs@.len() && 0 <= b < n.childs@.len() && a != b implies n.childs@[a].0
            != n.childs@[b].0 by {
            assert(n.childs@[a].0 == o.childs@[a].0);
            assert(n.childs@[b].0 == o.childs@[b].0);
        }
        assert forall|s: Seq<T>| n.contains(s) == o.contains(s) by {
            if s.len() > 0 && n.has_child(s[0]) {
                let m = choose|x: int| keyed_at(n.entries(), s[0], x);
                n.lemma_child_at(m);
                o.lemma_entry_is_child(m);
                assert(n.childs@[m].1@.contains(s.drop_first()) == o.childs@[m].1@.contains(
                    s.drop_first(),
                ));
            } else if s.len() > 0 && o.has_child(s[0]) {
                let m = choose|x: int| keyed_at(o.entries(), s[0], x);
                assert(n.childs@[m].0 == o.childs@[m].0);
                assert(keyed_at(n.entries(), s[0], m));
            }
        }
        assert(n@ =~= o@);
    }

    /// Compacts the storage of the child lists of this node and of every
    /// node below it; what is stored does not change.
    pub fn shrink_to_fit(&mut self)
        requires
            old(self).wf(),
        ensures
            final(self).wf(),
            final(self)@ == old(self)@,
            final(self).is_terminal() == old(self).is_terminal(),
            final(self).entries().len() == old(self).entries().len(),
        decreases *old(self),
    {
        let ghost o = *self;
        let n = self.childs.len();
        let mut i: usize = 0;
        while i < n
            invariant
                o == *old(self),
                n == self.childs@.len() == o.childs@.len(),
                i <= n,
                self.stop == o.stop,
                o.wf(),
                forall|m: int|
                    #![trigger self.childs@[m]]
                    0 <= m < n ==> {
                        &&& self.childs@[m].0 == o.childs@[m].0
                        &&& self.childs@[m].1@ == o.childs@[m].1@
                        &&& self.childs@[m].1.wf()
                        &&& !self.childs@[m].1.removable()
                    },
                forall|m: int| #![trigger self.childs@[m]] i <= m < n ==> self.childs@[m] == o.childs@[m],
            decreases n - i,
        {
            let mut e = (self.childs[i].0.copy_key(), TrieNode::new());
            self.childs.set_and_swap(i, &mut e);
            let (key, mut c) = e;
            assert(c == o.childs@[i as int].1);
            assert(decreases_to!(o => o.childs@[i as int].1));
            c.shrink_to_fit();
            self.childs.set(i, (key, c));
            i += 1;
        }
        shrink_entries(&mut self.childs);
        proof {
            TrieNode::lemma_same_shape(o, *self);
        }
    }

    /// A copy of this node and of every node below it.
    pub fn clone(&self) -> (r: TrieNode<T>)
        requires
            self.wf(),
        ensures
            r.wf(),
            r@ == self@,
            r.is_terminal() == self.is_terminal(),
            r.entries().len() == self.entries().len(),
        decreases self,
    {
        let n = self.childs.len();
        let mut childs: Vec<(T, TrieNode<T>)> = Vec::new();
        let mut i: usize = 0;
        while i < n
            invariant
                n == self.childs@.len(),
                i <= n,
                self.wf(),
                childs@.len() == i,
                forall|m: int|
                    #![trigger childs@[m]]
                    0 <= m < i ==> {
                        &&& childs@[m].0 == self.childs@[m].0
                        &&& childs@[m].1@ == self.childs@[m].1@
                        &&& childs@[m].1.wf()
                        &&& !childs@[m].1.removable()
                    },
            decreases n - i,
        {
            let entry = &self.childs[i];
            proof {
                assert(self.childs@[i as int].1.wf());
            }
            let c = entry.1.clone();
            childs.push((entry.0.copy_key(), c));
            i += 1;
        }
        let r = TrieNode { stop: self.stop, childs };
        proof {
            TrieNode::lemma_same_shape(*self, r);
        }
        r
    }

    /// The node reached by following `seq` from this one, if every step
    /// finds a child.
    pub fn query_node(&self, seq: &[T]) -> (r: Option<&TrieNode<T>>)
        requires
            self.wf(),
        ensures
            match r {
                Some(n) => self.node_at(seq@) == Some(*n),
                None => self.node_at(seq@) is None,
            },
    {
        let mut node = self;
        let mut i: usize = 0;
        assert(seq@.skip(0) =~= seq@);
        while i < seq.len()
            invariant
                i <= seq@.len(),
                node.wf(),
                self.node_at(seq@) == node.node_at(seq@.skip(i as int)),
            decreases seq@.len() - i,
        {
            assert(seq@.skip(i as int).drop_first() =~= seq@.skip(i + 1));
            match node.get_child(&seq[i]) {
                Some(c) => {
                    proof {
                        node.lemma_child_wf(seq@[i as int]);
                    }
                    node = c;
                },
                None => {
                    return None;
                },
            }
            i += 1;
        }
        assert(seq@.skip(i as int) =~= Seq::<T>::empty());
        Some(node)
    }

    /// Stores `seq.skip(i)` below this node, creating the missing nodes.
    fn insert_at(&mut self, seq: &[T], i: usize) -> (r: bool)
        requires
            old(self).wf(),
            i <= seq@.len(),
        ensures
            final(self).wf(),
            !final(self).removable(),
            final(self)@ == old(self)@.insert(seq@.skip(i as int)),
            r == !old(self)@.contains(seq@.skip(i as int)),
        decreases seq@.len() - i,
    {
        let ghost o = *self;
        let ghost tail = seq@.skip(i as int);
        if i == seq.len() {
            if self.stop {
                assert(self@ =~= o@.insert(tail));
                false
            } else {
                self.stop = true;
                proof {
                    assert(tail =~= Seq::<T>::empty());
                    assert(self.entries() == o.entries());
                    assert forall|s: Seq<T>| self.contains(s) == (o.contains(s) || s == tail) by {
                        if s.len() == 0 {
                            assert(s =~= tail);
                        }
                    }
                    assert(self@ =~= o@.insert(tail));
                }
                true
            }
        } else {
            let k = &seq[i];
            let ghost next = seq@.skip(i + 1);
            assert(tail.drop_first() =~= next);
            match self.find(k) {
                Some(j) => {
                    proof {
                        o.lemma_child_at(j as int);
                        o.lemma_child_wf(*k);
                    }
                    let mut e = (k.copy_key(), TrieNode::new());
                    self.childs.set_and_swap(j, &mut e);
                    let (key, mut c) = e;
                    let ghost oc = c;
                    assert(key == o.childs@[j as int].0);
                    let r = c.insert_at(seq, i + 1);
                    self.childs.set(j, (key, c));
                    proof {
                        assert(self.stop == o.stop);
                        assert(self.childs@ =~= o.childs@.update(j as int, (o.childs@[j as int].0, c)));
                        TrieNode::lemma_replace_child(o, *self, j as int, c);
                        assert forall|s: Seq<T>| self.contains(s) == (o.contains(s) || s == tail) by {
                            TrieNode::lemma_contains_after_child_change(o, *self, *k, s);
                            if s.len() > 0 && s[0] == *k {
                                assert(s == tail <==> s.drop_first() == next) by {
                                    if s.drop_first() == next {
                                        assert(s =~= seq![s[0]] + s.drop_first());
                                        assert(tail =~= seq![tail[0]] + tail.drop_first());
                                    }
                                }
                                assert(c.contains(s.drop_first()) == c@.contains(s.drop_first()));
                                assert(oc.contains(s.drop_first()) == oc@.contains(s.drop_first()));
                            }
                        }
                        TrieNode::lemma_view_insert(o, *self, tail);
                        assert(o@.contains(tail) == oc@.contains(next));
                    }
                    r
                },
                None => {
                    let mut c = TrieNode::new();
                    let ghost oc = c;
                    let r = c.insert_at(seq, i + 1);
                    let key = k.copy_key();
                    self.childs.push((key, c));
                    proof {
                        assert(oc@ =~= Set::<Seq<T>>::empty());
                        assert(!o@.contains(tail));
                        TrieNode::lemma_push_child(o, *self, *k, c);
                        assert forall|s: Seq<T>| self.contains(s) == (o.contains(s) || s == tail) by {
                            TrieNode::lemma_contains_after_child_change(o, *self, *k, s);
                            if s.len() > 0 && s[0] == *k {
                                assert(s == tail <==> s.drop_first() == next) by {
                                    if s.drop_first() == next {
                                        assert(s =~= seq![s[0]] + s.drop_first());
                                        assert(tail =~= seq![tail[0]] + tail.drop_first());
                                    }
                                }
                                assert(c.contains(s.drop_first()) == c@.contains(s.drop_first()));
                            }
                        }
                        TrieNode::lemma_view_insert(o, *self, tail);
                    }
                    r
                },
            }
        }
    }

    /// Stores `seq` below this node; `true` where it was not stored before.
    pub fn insert(&mut self, seq: &[T]) -> (r: bool)
        requires
            old(self).wf(),
        ensures
            final(self).wf(),
            final(self)@ == old(self)@.insert(seq@),
            r == !old(self)@.contains(seq@),
    {
        assert(seq@.skip(0) =~= seq@);
        self.insert_at(seq, 0)
    }

    /// Removes `seq.skip(i)` from below this node and detaches every child
    /// on its path that is left as dead weight.
    fn remove_at(&mut self, seq: &[T], i: usize) -> (r: bool)
        requires
            old(self).wf(),
            i <= seq@.len(),
        ensures
            final(self).wf(),
            final(self)@ == old(self)@.remove(seq@.skip(i as int)),
            r == old(self)@.contains(seq@.skip(i as int)),
        decreases seq@.len() - i,
    {
        let ghost o = *self;
        let ghost tail = seq@.skip(i as int);
        if i == seq.len() {
            proof {
                assert(tail =~= Seq::<T>::empty());
            }
            if self.stop {
                self.stop = false;
                proof {
                    assert(self.entries() == o.entries());
                    assert forall|s: Seq<T>| self.contains(s) == (o.contains(s) && s != tail) by {
                        if s.len() == 0 {
                            assert(s =~= tail);
                        }
                    }
                    TrieNode::lemma_view_remove(o, *self, tail);
                }
                true
            } else {
                proof {
                    assert(self@ =~= o@.remove(tail));
                }
                false
            }
        } else {
            let k = &seq[i];
            let ghost next = seq@.skip(i + 1);
            assert(tail.drop_first() =~= next);
            match self.find(k) {
                None => {
                    proof {
                        assert(!o.contains(tail));
                        assert(self@ =~= o@.remove(tail));
                    }
                    false
                },
                Some(j) => {
                    proof {
                        o.lemma_child_at(j as int);
                        o.lemma_child_wf(*k);
                    }
                    let mut e = (k.copy_key(), TrieNode::new());
                    self.childs.set_and_swap(j, &mut e);
                    let (key, mut c) = e;
                    let ghost oc = c;
                    assert(key == o.childs@[j as int].0);
                    let r = c.remove_at(seq, i + 1);
                    assert(o@.contains(tail) == oc@.contains(next));
                    if c.can_remove() {
                        self.childs.swap_remove(j);
                        proof {
                            assert(self.childs@ =~= o.childs@.update(j as int, o.childs@.last()).drop_last());
                            TrieNode::lemma_drop_child(o, *self, j as int);
                            assert forall|s: Seq<T>| self.contains(s) == (o.contains(s) && s != tail) by {
                                if s.len() > 0 && s[0] == *k {
                                    if o.contains(s) {
                                        assert(oc@.contains(s.drop_first()));
                                        assert(!c@.contains(s.drop_first()));
                                        assert(s =~= seq![s[0]] + s.drop_first());
                                        assert(tail =~= seq![tail[0]] + tail.drop_first());
                                    }
                                } else if s.len() > 0 {
                                    assert(self.has_child(s[0]) == o.has_child(s[0]));
                                }
                            }
                            TrieNode::lemma_view_remove(o, *self, tail);
                            assert forall|m: int| 0 <= m < self.childs@.len() implies
                                #[trigger] self.childs@[m] == o.childs@[if m == j { o.childs@.len() - 1 } else { m }] by {}
                        }
                    } else {
                        self.childs.set(j, (key, c));
                        proof {
                            assert(self.childs@ =~= o.childs@.update(j as int, (o.childs@[j as int].0, c)));
                            TrieNode::lemma_replace_child(o, *self, j as int, c);
                            assert forall|s: Seq<T>| self.contains(s) == (o.contains(s) && s != tail) by {
                                TrieNode::lemma_contains_after_child_change(o, *self, *k, s);
                                if s.len() > 0 && s[0] == *k {
                                    assert(s == tail <==> s.drop_first() == next) by {
                                        if s.drop_first() == next {
                                            assert(s =~= seq![s[0]] + s.drop_first());
                                            assert(tail =~= seq![tail[0]] + tail.drop_first());
                                        }
                                    }
                                    assert(c.contains(s.drop_first()) == c@.contains(s.drop_first()));
                                    assert(oc.contains(s.drop_first()) == oc@.contains(s.drop_first()));
                                }
                            }
                            TrieNode::lemma_view_remove(o, *self, tail);
                        }
                    }
                    r
                },
            }
        }
    }

    /// Removes `seq` from below this node; `true` where it was stored. Every
    /// node on its path that is left as dead weight is detached, so no node
    /// below this one is ever dead weight.
    pub fn remove_branch(&mut self, seq: &[T]) -> (r: bool)
        requires
            old(self).wf(),
        ensures
            final(self).wf(),
            final(self)@ == old(self)@.remove(seq@),
            r == old(self)@.contains(seq@),
    {
        assert(seq@.skip(0) =~= seq@);
        self.remove_at(seq, 0)
    }

    /// The node reached by following `seq`, and an iterator over the
    /// remainders of the sequences stored below it.
    pub fn query_iter(&self, seq: &[T]) -> (r: Option<Iter<'_, T>>)
        requires
            self.wf(),
        ensures
            match r {
                Some(it) => self.node_at(seq@) is Some && it.inv() && it.remaining()
                    == self.node_at(seq@)->0@ && it.path() == Seq::<T>::empty() && it.pending()
                    == self.node_at(seq@)->0.is_terminal(),
                None => self.node_at(seq@) is None,
            },
    {
        match self.query_node(seq) {
            Some(n) => {
                proof {
                    self.lemma_node_at_wf(seq@);
                }
                Some(n.iter())
            },
            None => None,
        }
    }

    /// Whether keys are unique at every node and no node below this one is
    /// dead weight.
    pub fn is_wf(&self) -> (r: bool)
        ensures
            r == self.wf(),
        decreases self,
    {
        let n = self.childs.len();
        let mut i: usize = 0;
        while i < n
            invariant
                n == self.childs@.len(),
                i <= n,
                forall|m: int|
                    #![trigger self.childs@[m]]
                    0 <= m < i ==> !self.childs@[m].1.removable() && self.childs@[m].1.wf(),
                forall|a: int, b: int| 0 <= a < b < i ==> self.childs@[a].0 != self.childs@[b].0,
            decreases n - i,
        {
            let c = &self.childs[i].1;
            if c.can_remove() || !c.is_wf() {
                return false;
            }
            let mut j: usize = 0;
            while j < i
                invariant
                    n == self.childs@.len(),
                    j <= i < n,
                    forall|a: int| 0 <= a < j ==> self.childs@[a].0 != self.childs@[i as int].0,
                decreases i - j,
            {
                if self.childs[j].0.same_key(&self.childs[i].0) {
                    assert(!unique_keys(self.childs@));
                    return false;
                }
                j += 1;
            }
            i += 1;
        }
        proof {
            assert forall|a: int, b: int|
                0 <= a < self.childs@.len() && 0 <= b < self.childs@.len() && a != b implies self.childs@[a].0
                != self.childs@[b].0 by {
                if a > b {
                    assert(self.childs@[b].0 != self.childs@[a].0);
                }
            }
        }
        true
    }

    /// Whether the two nodes store the same sequences. For well-formed nodes
    /// this is structural equality: the same flag, the same keys, and equal
    /// children under each key, whatever the order of the entries.
    pub fn eq(&self, other: &Self) -> (r: bool)
        requires
            self.wf(),
            other.wf(),
        ensures
            r == (self@ == other@),
        decreases self,
    {
        if self.stop != other.stop {
            proof {
                assert(self.contains(Seq::<T>::empty()) != other.contains(Seq::<T>::empty()));
                assert(self@.contains(Seq::<T>::empty()) != other@.contains(Seq::<T>::empty()));
            }
            return false;
        }
        let mut i: usize = 0;
        while i < self.childs.len()
            invariant
                self.wf(),
                other.wf(),
                i <= self.childs@.len(),
                forall|m: int|
                    0 <= m < i ==> #[trigger] other.has_child(self.childs@[m].0) && self.childs@[m].1@
                        == other.child(self.childs@[m].0)@,
            decreases self.childs@.len() - i,
        {
            let k = &self.childs[i].0;
            let c = &self.childs[i].1;
            proof {
                self.lemma_entry_is_child(i as int);
            }
            match other.get_child(k) {
                None => {
                    proof {
                        c.lemma_stores_some();
                        let t = choose|t: Seq<T>| c.contains(t);
                        self.lemma_contains_cons(*k, t);
                        other.lemma_contains_cons(*k, t);
                        assert(self@.contains(seq![*k] + t) != other@.contains(seq![*k] + t));
                    }
                    return false;
                },
                Some(oc) => {
                    proof {
                        other.lemma_child_wf(*k);
                    }
                    if !c.eq(oc) {
                        proof {
                            assert(!(c@ =~= oc@));
                            let t = choose|t: Seq<T>| c@.contains(t) != oc@.contains(t);
                            self.lemma_contains_cons(*k, t);
                            other.lemma_contains_cons(*k, t);
                            assert(self@.contains(seq![*k] + t) != other@.contains(seq![*k] + t));
                        }
                        return false;
                    }
                    assert(other.has_child(self.childs@[i as int].0) && self.childs@[i as int].1@
                        == other.child(self.childs@[i as int].0)@);
                },
            }
            i += 1;
        }
        let mut j: usize = 0;
        while j < other.childs.len()
            invariant
                self.wf(),
                other.wf(),
                j <= other.childs@.len(),
                forall|m: int| 0 <= m < j ==> #[trigger] self.has_child(other.childs@[m].0),
            decreases other.childs@.len() - j,
        {
            let k = &other.childs[j].0;
            proof {
                other.lemma_entry_is_child(j as int);
            }
            let found = self.find(k);
            if found.is_none() {
                proof {
                    assert(!self.has_child(*k));
                    let c = other.childs@[j as int].1;
                    assert(other.child(*k) == c);
                    c.lemma_stores_some();
                    let t = choose|t: Seq<T>| c.contains(t);
                    self.lemma_contains_cons(*k, t);
                    assert(!self.contains(seq![*k] + t));
                    self.lemma_contains_cons(*k, t);
                    other.lemma_contains_cons(*k, t);
                    assert(other.contains(seq![*k] + t));
                    assert(self@.contains(seq![*k] + t) != other@.contains(seq![*k] + t));
                }
                return false;
            }
            j += 1;
        }
        proof {
            assert forall|s: Seq<T>| self.contains(s) == other.contains(s) by {
                if s.len() > 0 {
                    let k = s[0];
                    if self.has_child(k) {
                        let m = choose|x: int| keyed_at(self.entries(), k, x);
                        self.lemma_child_at(m);
                        assert(other.has_child(self.childs@[m].0));
                        assert(self.child(k)@ == other.child(k)@);
                        assert(self.child(k)@.contains(s.drop_first()) == other.child(k)@.contains(
                            s.drop_first(),
                        ));
                    }
                    if other.has_child(k) {
                        let m = choose|x: int| keyed_at(other.entries(), k, x);
                        assert(self.has_child(other.childs@[m].0));
                    }
                }
            }
            assert(self@ =~= other@);
        }
        true
    }

    /// Whether `seq` is stored below this node.
    pub fn query(&self, seq: &[T]) -> (r: bool)
        requires
            self.wf(),
        ensures
            r == self.contains(seq@),
            r == self@.contains(seq@),
    {
        match self.query_node(seq) {
            Some(n) => n.is_stop(),
            None => false,
        }
    }

    /// `Some(true)` where `seq` is stored, `Some(false)` where it leads to a
    /// node that is not terminal, `None` where some step finds no child.
    pub fn query_nostop(&self, seq: &[T]) -> (r: Option<bool>)
        requires
            self.wf(),
        ensures
            r == match self.node_at(seq@) {
                Some(n) => Some(n.is_terminal()),
                None => None::<bool>,
            },
            r == Some(true) <==> self@.contains(seq@),
    {
        match self.query_node(seq) {
            Some(n) => Some(n.is_stop()),
            None => None,
        }
    }
}

} // verus!
