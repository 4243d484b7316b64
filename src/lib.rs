//! A prefix tree storing finite sequences of elements, with exact and
//! prefix queries, insertion, removal that prunes dead branches, structural
//! equality and enumeration of the stored sequences.
use vstd::prelude::*;

mod element;
mod laws;
mod trie_node;

pub use element::TrieKey;
pub use laws::{
    inserted_all, is_step, lemma_count_is_net_successes, lemma_empty_sequence_at_root,
    lemma_insert_order, lemma_insert_remove_prunes, lemma_insert_then_query, lemma_remove_once,
    lemma_remove_reinsert, net_successes,
};
pub use trie_node::iter::{elems, Iter};
pub use trie_node::TrieNode;

use trie_node::debug::push_decimal;
use vstd::string::StringExecFns;

pub use trie_node::debug::{
    child_indent_text, close_mark, colon_text, decimal, digit_char, gives_texts, line_end,
    open_mark, sep_text, text_fn,
};

verus! {

/// A prefix tree with a running count of the sequences it stores.
pub struct TrieTree<T> {
    root: TrieNode<T>,
    count: usize,
}

impl<T> TrieTree<T> {
    /// The root is well-formed and the count is the number of stored sequences.
    #[verifier::type_invariant]
    spec fn inv(self) -> bool {
        &&& self.root.wf()
        &&& self.root@.finite()
        &&& self.count == self.root@.len()
    }

    /// The stored sequences.
    pub closed spec fn view(self) -> Set<Seq<T>> {
        self.root@
    }

    /// The root node.
    pub closed spec fn root_node(self) -> TrieNode<T> {
        self.root
    }

    /// An empty tree.
    pub fn new() -> (r: Self)
        ensures
            r@ == Set::<Seq<T>>::empty(),
    {
        TrieTree { root: TrieNode::new(), count: 0 }
    }

    /// The number of stored sequences.
    pub fn count(&self) -> (r: usize)
        ensures
            r == self@.len(),
    {
        proof {
            use_type_invariant(self);
        }
        self.count
    }

    /// Removes every stored sequence.
    pub fn clear(&mut self)
        ensures
            final(self)@ == Set::<Seq<T>>::empty(),
    {
        *self = TrieTree::new();
    }

    /// The root node; no node below it is dead weight.
    pub fn root(&self) -> (r: &TrieNode<T>)
        ensures
            *r == self.root_node(),
            r@ == self@,
            r.wf(),
    {
        proof {
            use_type_invariant(self);
        }
        &self.root
    }

    /// An iterator over the stored sequences.
    pub fn iter(&self) -> (r: Iter<'_, T>)
        ensures
            r.inv(),
            r.remaining() == self@,
            r.path() == Seq::<T>::empty(),
            r.pending() == self@.contains(Seq::<T>::empty()),
    {
        proof {
            use_type_invariant(self);
        }
        self.root.iter()
    }

    /// The stored sequences are those stored below the root.
    pub proof fn lemma_view_is_root(self)
        ensures
            self@ == self.root_node()@,
    {
    }

    /// A tree that stores nothing has a root without children: removal
    /// leaves no dead branch behind.
    pub proof fn lemma_empty_tree_has_bare_root(self)
        requires
            self.root_node().wf(),
            self@ == Set::<Seq<T>>::empty(),
        ensures
            self.root_node().entries().len() == 0,
    {
        self.root.lemma_nothing_stored_no_children();
    }
}

impl<T: TrieKey> TrieTree<T> {
    /// Stores `seq`; `true` where it was not stored before, and then the
    /// count goes up by one.
    pub fn insert(&mut self, seq: &[T]) -> (r: bool)
        requires
            old(self)@.len() < usize::MAX,
        ensures
            final(self)@ == old(self)@.insert(seq@),
            r == !old(self)@.contains(seq@),
            final(self)@.len() == old(self)@.len() + if r {
                1int
            } else {
                0int
            },
    {
        let mut tree = TrieTree::new();
        std::mem::swap(&mut tree, self);
        proof {
            use_type_invariant(&tree);
        }
        let TrieTree { mut root, count } = tree;
        let r = root.insert(seq);
        let count = if r {
            count + 1
        } else {
            count
        };
        proof {
            if !r {
                assert(root@ =~= old(self)@);
            }
        }
        *self = TrieTree { root, count };
        r
    }

    /// Removes `seq`; `true` where it was stored, and then the count goes
    /// down by one. Nodes left as dead weight are detached.
    pub fn remove(&mut self, seq: &[T]) -> (r: bool)
        ensures
            final(self)@ == old(self)@.remove(seq@),
            r == old(self)@.contains(seq@),
            final(self)@.len() == old(self)@.len() - if r {
                1int
            } else {
                0int
            },
    {
        let mut tree = TrieTree::new();
        std::mem::swap(&mut tree, self);
        proof {
            use_type_invariant(&tree);
        }
        let TrieTree { mut root, count } = tree;
        let r = root.remove_branch(seq);
        let count = if r {
            count - 1
        } else {
            count
        };
        proof {
            if !r {
                assert(root@ =~= old(self)@);
            }
        }
        *self = TrieTree { root, count };
        r
    }

    /// Whether `seq` is stored.
    pub fn query(&self, seq: &[T]) -> (r: bool)
        ensures
            r == self@.contains(seq@),
    {
        proof {
            use_type_invariant(self);
        }
        self.root.query(seq)
    }

    /// `Some(true)` where `seq` is stored; `Some(false)` where it is not
    /// but is empty or begins some stored sequence; `None` otherwise.
    pub fn query_nostop(&self, seq: &[T]) -> (r: Option<bool>)
        ensures
            r == if self@.contains(seq@) {
                Some(true)
            } else if seq@.len() == 0 || exists|t: Seq<T>| #[trigger] self@.contains(seq@ + t) {
                Some(false)
            } else {
                None::<bool>
            },
    {
        proof {
            use_type_invariant(self);
            if seq@.len() > 0 {
                self.root.lemma_reach_iff_extends(seq@);
            } else {
                assert(seq@ =~= Seq::<T>::empty());
            }
        }
        self.root.query_nostop(seq)
    }

    /// An iterator over the remainders of the stored sequences that begin
    /// with `seq`, or `None` where `seq` is neither empty nor begins a
    /// stored sequence.
    pub fn query_iter(&self, seq: &[T]) -> (r: Option<Iter<'_, T>>)
        ensures
            match r {
                Some(it) => {
                    &&& seq@.len() == 0 || exists|t: Seq<T>| #[trigger] self@.contains(seq@ + t)
                    &&& it.inv()
                    &&& it.path() == Seq::<T>::empty()
                    &&& it.pending() == self@.contains(seq@)
                    &&& forall|t: Seq<T>| #[trigger]
                        it.remaining().contains(t) == self@.contains(seq@ + t)
                },
                None => seq@.len() > 0 && forall|t: Seq<T>| !#[trigger] self@.contains(seq@ + t),
            },
    {
        proof {
            use_type_invariant(self);
            if seq@.len() > 0 {
                self.root.lemma_reach_iff_extends(seq@);
            }
            assert forall|t: Seq<T>| #[trigger] self@.contains(seq@ + t) == (self.root.node_at(seq@) is Some
                && self.root.node_at(seq@)->0.contains(t)) by {
                self.root.lemma_node_at_concat(seq@, t);
            }
        }
        let r = self.root.query_iter(seq);
        proof {
            assert(self@ == self.root@);
            if seq@.len() == 0 {
                assert(seq@ =~= Seq::<T>::empty());
            }
            if r is Some {
                let it = r->0;
                let n = self.root.node_at(seq@)->0;
                assert forall|t: Seq<T>| #[trigger]
                    it.remaining().contains(t) == self@.contains(seq@ + t) by {
                    assert(n@.contains(t) == n.contains(t));
                }
            }
        }
        r
    }
}

impl<T: TrieKey> TrieTree<T> {
    /// Compacts the storage of every node; what is stored does not change.
    pub fn shrink_to_fit(&mut self)
        ensures
            final(self)@ == old(self)@,
    {
        let mut tree = TrieTree::new();
        std::mem::swap(&mut tree, self);
        proof {
            use_type_invariant(&tree);
        }
        let TrieTree { mut root, count } = tree;
        root.shrink_to_fit();
        *self = TrieTree { root, count };
    }

    /// Stores each of `seqs`, in order.
    pub fn extend(&mut self, seqs: &[Vec<T>])
        requires
            old(self)@.len() + seqs@.len() <= usize::MAX,
        ensures
            final(self)@ == inserted_all(old(self)@, seqs@.map_values(|v: Vec<T>| v@)),
            final(self)@ == old(self)@ + seqs@.map_values(|v: Vec<T>| v@).to_set(),
    {
        let ghost ys = seqs@.map_values(|v: Vec<T>| v@);
        let ghost base = self@;
        proof {
            use_type_invariant(&*self);
        }
        let mut i: usize = 0;
        assert(ys.skip(0) =~= ys);
        while i < seqs.len()
            invariant
                i <= seqs@.len(),
                ys == seqs@.map_values(|v: Vec<T>| v@),
                self@.finite(),
                self@.len() <= base.len() + i,
                base.len() + seqs@.len() <= usize::MAX,
                inserted_all(base, ys) == inserted_all(self@, ys.skip(i as int)),
            decreases seqs@.len() - i,
        {
            proof {
                use_type_invariant(&*self);
                assert(ys.skip(i as int).drop_first() =~= ys.skip(i + 1));
                assert(ys.skip(i as int)[0] == seqs@[i as int]@);
            }
            self.insert(seqs[i].as_slice());
            i += 1;
        }
        proof {
            assert(ys.skip(i as int) =~= Seq::<Seq<T>>::empty());
            lemma_insert_order(base, ys);
        }
    }

    /// A tree storing each of `seqs`.
    pub fn from_seqs(seqs: &[Vec<T>]) -> (r: Self)
        ensures
            r@ == seqs@.map_values(|v: Vec<T>| v@).to_set(),
    {
        // a slice's length is a usize, which bounds what `extend` adds
        let len: usize = seqs.len();
        assert(seqs@.len() == len);
        let mut tree = TrieTree::new();
        tree.extend(seqs);
        proof {
            assert(tree@ =~= seqs@.map_values(|v: Vec<T>| v@).to_set());
        }
        tree
    }

    /// A tree with `root` as its root, counting what is stored below it;
    /// `None` where a node below the root is dead weight, keys repeat at some
    /// node, or the count would not fit in a `usize`.
    pub fn from_root(root: TrieNode<T>) -> (r: Option<TrieTree<T>>)
        ensures
            match r {
                Some(t) => t@ == root@ && t.root_node() == root,
                None => !root.wf() || root@.len() > usize::MAX,
            },
    {
        if !root.is_wf() {
            return None;
        }
        proof {
            root.lemma_finite();
        }
        let mut n: usize = 0;
        let mut it = root.iter();
        loop
            invariant
                it.inv(),
                root@.finite(),
                it.remaining().subset_of(root@),
                n + it.remaining().len() == root@.len(),
            ensures
                n == root@.len(),
            decreases it.remaining().len(),
        {
            proof {
                vstd::set_lib::lemma_len_subset(it.remaining(), root@);
            }
            match it.next() {
                Some(_) => {
                    if n == usize::MAX {
                        return None;
                    }
                    n += 1;
                },
                None => {
                    break ;
                },
            }
        }
        Some(TrieTree { root, count: n })
    }

    /// A tree that stores the same sequences as this one, in nodes of its own.
    pub fn clone(&self) -> (r: Self)
        ensures
            r@ == self@,
    {
        proof {
            use_type_invariant(self);
        }
        let mut out = TrieTree::new();
        let mut it = self.root.iter();
        loop
            invariant
                it.inv(),
                self.root.wf(),
                self@.finite(),
                self@.len() <= usize::MAX,
                it.remaining().subset_of(self@),
                out@.disjoint(it.remaining()),
                out@ + it.remaining() == self@,
            ensures
                out@ == self@,
            decreases it.remaining().len(),
        {
            proof {
                vstd::set_lib::lemma_len_subset(it.remaining(), self@);
            }
            let ghost before = it.remaining();
            match it.next() {
                Some(v) => {
                    let owned = owned_elems(&v);
                    proof {
                        assert(before.contains(owned@));
                        assert(!out@.contains(owned@));
                        assert(out@.subset_of(self@));
                        vstd::set_lib::lemma_len_subset(out@, self@);
                        assert(out@.insert(owned@).subset_of(self@));
                        assert(out@.insert(owned@).len() == out@.len() + 1);
                        vstd::set_lib::lemma_len_subset(out@.insert(owned@), self@);
                    }
                    out.insert(&owned);
                    proof {
                        assert(out@ + it.remaining() =~= self@);
                        assert(out@.disjoint(it.remaining()));
                    }
                },
                None => {
                    proof {
                        assert(out@ =~= self@);
                    }
                    break ;
                },
            }
        }
        out
    }
}

/// Copies of the elements that a list of references points to.
fn owned_elems<T: TrieKey>(v: &Vec<&T>) -> (r: Vec<T>)
    ensures
        r@ == elems(v@),
{
    let mut r: Vec<T> = Vec::new();
    let mut i: usize = 0;
    while i < v.len()
        invariant
            i <= v@.len(),
            r@ == elems(v@).take(i as int),
        decreases v@.len() - i,
    {
        r.push(v[i].copy_key());
        i += 1;
        assert(r@ =~= elems(v@).take(i as int));
    }
    assert(elems(v@).take(i as int) =~= elems(v@));
    r
}

impl<T> TrieTree<T> {
    /// The tree written as a struct with its count and its root rendered as
    /// by `TrieNode::debug_text`, in the pretty form (one field per line, the
    /// root indented one step) or the compact one.
    pub fn debug_text<F: Fn(&T) -> String>(&self, pretty: bool, key_text: F) -> (r: String)
        requires
            gives_texts(key_text),
        ensures
            r@ == if pretty {
                "TrieTree {\n    count: "@ + decimal(self@.len()) + ",\n    root: "@
                    + self.root_node().rendered(seq!['/'], "    "@, true, text_fn(key_text))
                    + ",\n}"@
            } else {
                "TrieTree { count: "@ + decimal(self@.len()) + ", root: "@
                    + self.root_node().rendered(seq!['/'], Seq::empty(), false, text_fn(key_text))
                    + " }"@
            },
    {
        proof {
            use_type_invariant(self);
            reveal_strlit("/");
            reveal_strlit("");
            assert("/"@ =~= seq!['/']);
            assert(""@ =~= Seq::<char>::empty());
        }
        let mut out = String::new();
        let ghost empty = out@;
        if pretty {
            out.append("TrieTree {\n    count: ");
            push_decimal(&mut out, self.count);
            out.append(",\n    root: ");
            self.root.render_into(&mut out, "/", "    ", true, &key_text);
            out.append(",\n}");
            assert(out@ =~= empty + ("TrieTree {\n    count: "@ + decimal(self@.len()) + ",\n    root: "@
                + self.root_node().rendered(seq!['/'], "    "@, true, text_fn(key_text)) + ",\n}"@));
        } else {
            out.append("TrieTree { count: ");
            push_decimal(&mut out, self.count);
            out.append(", root: ");
            self.root.render_into(&mut out, "/", "", false, &key_text);
            out.append(" }");
            assert(out@ =~= empty + ("TrieTree { count: "@ + decimal(self@.len()) + ", root: "@
                + self.root_node().rendered(seq!['/'], Seq::empty(), false, text_fn(key_text))
                + " }"@));
        }
        out
    }
}

impl<T> Default for TrieTree<T> {
    /// An empty tree.
    fn default() -> (r: Self)
        ensures
            r@ == Set::<Seq<T>>::empty(),
    {
        TrieTree::new()
    }
}

impl<T> From<TrieTree<T>> for TrieNode<T> {
    /// The root of the tree.
    fn from(tree: TrieTree<T>) -> (r: TrieNode<T>) {
        tree.root
    }
}

impl<T> vstd::std_specs::convert::FromSpecImpl<TrieTree<T>> for TrieNode<T> {
    open spec fn obeys_from_spec() -> bool {
        true
    }

    open spec fn from_spec(tree: TrieTree<T>) -> TrieNode<T> {
        tree.root_node()
    }
}

impl<T: TrieKey> PartialEq for TrieTree<T> {
    /// Whether the two trees store the same sequences.
    fn eq(&self, other: &Self) -> (r: bool) {
        proof {
            use_type_invariant(self);
            use_type_invariant(other);
        }
        self.count == other.count && self.root.eq(&other.root)
    }
}

impl<T: TrieKey> vstd::std_specs::cmp::PartialEqSpecImpl for TrieTree<T> {
    open spec fn obeys_eq_spec() -> bool {
        true
    }

    open spec fn eq_spec(&self, other: &Self) -> bool {
        self@ == other@
    }
}

} // verus!
