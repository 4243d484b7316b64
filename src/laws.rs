//! Laws that relate the operations of a tree, stated over the stored
//! sequences that the operations' contracts speak of.
use vstd::prelude::*;

use crate::TrieTree;

verus! {

/// The stored sequences after inserting each of `ys`, in order, into a tree
/// that stores `base`.
pub open spec fn inserted_all<T>(base: Set<Seq<T>>, ys: Seq<Seq<T>>) -> Set<Seq<T>>
    decreases ys.len(),
{
    if ys.len() == 0 {
        base
    } else {
        inserted_all(base.insert(ys[0]), ys.drop_first())
    }
}

/// One step of a history: an insertion (`op.0`) or a removal of the
/// sequence `op.1` that reported `op.2` and took the stored sequences from
/// `before` to `after`, as the contracts of `insert` and `remove` state.
pub open spec fn is_step<T>(before: Set<Seq<T>>, after: Set<Seq<T>>, op: (bool, Seq<T>, bool)) -> bool {
    if op.0 {
        after == before.insert(op.1) && op.2 == !before.contains(op.1)
    } else {
        after == before.remove(op.1) && op.2 == before.contains(op.1)
    }
}

/// The successful insertions of a history less its successful removals.
pub open spec fn net_successes<T>(ops: Seq<(bool, Seq<T>, bool)>) -> int
    decreases ops.len(),
{
    if ops.len() == 0 {
        0
    } else {
        net_successes(ops.drop_last()) + if ops.last().2 {
            if ops.last().0 {
                1int
            } else {
                -1int
            }
        } else {
            0int
        }
    }
}

/// After any history of insertions and removals that starts from an empty
/// tree, the number of stored sequences (the count) is the number of
/// successful insertions less the number of successful removals.
pub proof fn lemma_count_is_net_successes<T>(
    states: Seq<Set<Seq<T>>>,
    ops: Seq<(bool, Seq<T>, bool)>,
)
    requires
        states.len() == ops.len() + 1,
        states[0] == Set::<Seq<T>>::empty(),
        forall|i: int| 0 <= i < ops.len() ==> #[trigger] is_step(states[i], states[i + 1], ops[i]),
    ensures
        states.last().finite(),
        states.last().len() == net_successes(ops),
    decreases ops.len(),
{
    if ops.len() > 0 {
        let n = ops.len() - 1;
        lemma_count_is_net_successes(states.drop_last(), ops.drop_last());
        assert(is_step(states[n], states[n + 1], ops[n]));
        assert(states.drop_last().last() == states[n]);
    }
}

/// Inserting a sequence makes it stored; inserting it a second time stores
/// nothing new, so that second insertion reports failure and the count stays;
/// the first raises the count by one exactly when the sequence was new.
pub proof fn lemma_insert_then_query<T>(t0: TrieTree<T>, t1: TrieTree<T>, t2: TrieTree<T>, s: Seq<T>)
    requires
        t0@.finite(),
        t1@ == t0@.insert(s),
        t2@ == t1@.insert(s),
    ensures
        t1@.contains(s),
        t2@ == t1@,
        t2@.len() == t1@.len(),
        !t0@.contains(s) ==> t1@.len() == t0@.len() + 1,
{
    assert(t2@ =~= t1@);
}

/// Removing a stored sequence succeeds once: afterwards it is no longer
/// stored, so a second removal fails, and the count went down by one.
pub proof fn lemma_remove_once<T>(t0: TrieTree<T>, t1: TrieTree<T>, t2: TrieTree<T>, s: Seq<T>)
    requires
        t0@.finite(),
        t0@.contains(s),
        t1@ == t0@.remove(s),
        t2@ == t1@.remove(s),
    ensures
        !t1@.contains(s),
        t2@ == t1@,
        t1@.len() == t0@.len() - 1,
{
    assert(t2@ =~= t1@);
}

/// Inserting a list of sequences, one after the other, into a tree that
/// stores `base` stores `base` and the sequences of the list, whatever
/// their order: two trees built from the same sequences are equal.
pub proof fn lemma_insert_order<T>(base: Set<Seq<T>>, ys: Seq<Seq<T>>)
    ensures
        inserted_all(base, ys) == base + ys.to_set(),
    decreases ys.len(),
{
    if ys.len() == 0 {
        assert(ys.to_set() =~= Set::<Seq<T>>::empty());
        assert(base + ys.to_set() =~= base);
    } else {
        lemma_insert_order(base.insert(ys[0]), ys.drop_first());
        assert forall|s: Seq<T>| ys.to_set().contains(s) == (s == ys[0] || ys.drop_first().to_set().contains(s)) by {
            if ys.to_set().contains(s) && s != ys[0] {
                let i = choose|i: int| 0 <= i < ys.len() && ys[i] == s;
                assert(ys.drop_first()[i - 1] == s);
            }
            if ys.drop_first().to_set().contains(s) {
                let i = choose|i: int| 0 <= i < ys.drop_first().len() && ys.drop_first()[i] == s;
                assert(ys[i + 1] == s);
            }
            if s == ys[0] {
                assert(ys.contains(s));
            }
        }
        assert(base.insert(ys[0]) + ys.drop_first().to_set() =~= base + ys.to_set());
    }
}

/// Removing a stored sequence makes the tree differ from what it was, and
/// inserting it again makes the two equal once more.
pub proof fn lemma_remove_reinsert<T>(t0: TrieTree<T>, t1: TrieTree<T>, t2: TrieTree<T>, s: Seq<T>)
    requires
        t0@.contains(s),
        t1@ == t0@.remove(s),
        t2@ == t1@.insert(s),
    ensures
        t1@ != t0@,
        t2@ == t0@,
{
    assert(t2@ =~= t0@);
    assert(!t1@.contains(s));
}

/// The empty sequence is stored exactly where the root is terminal.
pub proof fn lemma_empty_sequence_at_root<T>(t: TrieTree<T>)
    ensures
        t@.contains(Seq::<T>::empty()) == t.root_node().is_terminal(),
{
    t.lemma_view_is_root();
}

/// Inserting a sequence into an empty tree and removing it again leaves
/// the root with no children: no dead branch is kept.
pub proof fn lemma_insert_remove_prunes<T>(
    t0: TrieTree<T>,
    t1: TrieTree<T>,
    t2: TrieTree<T>,
    s: Seq<T>,
)
    requires
        t2.root_node().wf(),
        t0@ == Set::<Seq<T>>::empty(),
        t1@ == t0@.insert(s),
        t2@ == t1@.remove(s),
    ensures
        t2@ == Set::<Seq<T>>::empty(),
        t2.root_node().entries().len() == 0,
{
    assert(t2@ =~= Set::<Seq<T>>::empty());
    t2.lemma_empty_tree_has_bare_root();
}

} // verus!
