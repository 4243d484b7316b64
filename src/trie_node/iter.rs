//! Enumeration of the sequences stored below a node, one at a time, with the
//! walk kept as explicit state so that it can be resumed at any point.
use vstd::pervasive::VecAdditionalExecFns;
use vstd::prelude::*;

use super::{unique_keys, TrieNode};

verus! {

/// Whether the frame with flag `pending`, node `node` and cursor `cursor`,
/// reached by `path`, has `s` still to produce: the path itself while the flag
/// is set, and every sequence that goes on through an entry not yet visited.
pub open spec fn frame_has<T>(
    pending: bool,
    node: TrieNode<T>,
    cursor: int,
    path: Seq<T>,
    s: Seq<T>,
) -> bool {
    ||| (pending && s == path)
    ||| (s.len() > path.len() && s.take(path.len() as int) == path && exists|m: int|
        cursor <= m < node.entries().len() && node.entries()[m].0 == s[path.len() as int]
            && #[trigger] node.entries()[m].1.contains(s.skip(path.len() as int + 1)))
}

/// The elements that a list of references points to.
pub open spec fn elems<T>(v: Seq<&T>) -> Seq<T> {
    v.map_values(|x: &T| *x)
}

/// Iterator over the sequences stored below a node.
///
/// It keeps one frame per depth being visited: whether that node is terminal
/// and not produced yet, the node, and the position of its next child to
/// visit. Beside the frames it keeps the elements on the way down.
pub struct Iter<'a, T> {
    nodes: Vec<(bool, &'a TrieNode<T>, usize)>,
    datas: Vec<&'a T>,
}

impl<'a, T> Iter<'a, T> {
    /// The elements on the way from the starting node down to the deepest frame.
    pub closed spec fn path(self) -> Seq<T> {
        elems(self.datas@)
    }

    /// The references to the elements on the way down to the deepest frame.
    pub closed spec fn path_refs(self) -> Vec<&'a T> {
        self.datas
    }

    /// Whether the deepest frame is at a terminal node that has not been
    /// produced yet: then the next step produces `path` itself.
    pub closed spec fn pending(self) -> bool {
        self.nodes@.last().0
    }

    /// The node the iteration started from.
    pub closed spec fn start(self) -> TrieNode<T> {
        *self.nodes@[0].1
    }

    /// Whether frame `f` still has `s` to produce.
    pub closed spec fn frame_yields(self, f: int, s: Seq<T>) -> bool {
        frame_has(
            self.nodes@[f].0,
            *self.nodes@[f].1,
            self.nodes@[f].2 as int,
            self.path().take(f),
            s,
        )
    }

    /// The sequences that are still to be produced.
    pub closed spec fn remaining(self) -> Set<Seq<T>> {
        Set::new(|s: Seq<T>| exists|f: int| 0 <= f < self.nodes@.len() && #[trigger] self.frame_yields(f, s))
    }

    /// The frames agree with the tree below the starting node.
    pub closed spec fn inv(self) -> bool {
        &&& self.nodes@.len() >= 1
        &&& self.nodes@.len() == self.datas@.len() + 1
        &&& self.start().wf()
        &&& forall|f: int|
            #![trigger self.nodes@[f]]
            0 <= f < self.nodes@.len() ==> {
                &&& self.start().node_at(self.path().take(f)) == Some(*self.nodes@[f].1)
                &&& self.nodes@[f].2 <= self.nodes@[f].1.entries().len()
                &&& self.nodes@[f].0 ==> self.nodes@[f].1.is_terminal()
            }
        &&& forall|f: int|
            #![trigger self.nodes@[f]]
            0 <= f < self.nodes@.len() - 1 ==> {
                &&& self.nodes@[f].2 >= 1
                &&& self.nodes@[f].1.entries()[self.nodes@[f].2 - 1].0 == self.path()[f]
            }
    }

    /// Frames below the deepest one keep what they have still to produce
    /// when the deepest frame changes or goes, as their paths stay.
    proof fn lemma_lower_frames(o: Self, n: Self, f: int)
        requires
            0 <= f < o.nodes@.len(),
            0 <= f < n.nodes@.len(),
            n.nodes@[f] == o.nodes@[f],
            n.path().take(f) == o.path().take(f),
        ensures
            forall|s: Seq<T>| #[trigger] n.frame_yields(f, s) == o.frame_yields(f, s),
    {
    }

    /// `n` is `o` gone down into the child at the cursor of its deepest frame.
    pub closed spec fn descended(o: Self, n: Self) -> bool {
        let top = o.nodes@.len() - 1;
        let e = o.nodes@.last();
        let entry = e.1.entries()[e.2 as int];
        &&& n.nodes@.len() == o.nodes@.len() + 1
        &&& forall|f: int| 0 <= f < top ==> #[trigger] n.nodes@[f] == o.nodes@[f]
        &&& !n.nodes@[top].0
        &&& n.nodes@[top].1 == e.1
        &&& n.nodes@[top].2 == e.2 + 1
        &&& n.nodes@[top + 1] == (entry.1.is_terminal(), &entry.1, 0usize)
        &&& n.datas@ == o.datas@.push(&entry.0)
    }

    /// Dropping the deepest frame once it has nothing left to produce.
    proof fn lemma_pop(o: Self, n: Self)
        requires
            o.inv(),
            o.nodes@.len() >= 2,
            !o.nodes@.last().0,
            o.nodes@.last().2 == o.nodes@.last().1.entries().len(),
            n.nodes@ == o.nodes@.drop_last(),
            n.datas@ == o.datas@.drop_last(),
        ensures
            n.inv(),
            n.start() == o.start(),
            n.remaining() == o.remaining(),
    {
        let top = o.nodes@.len() - 1;
        assert(n.path() =~= o.path().drop_last());
        assert forall|f: int| 0 <= f < n.nodes@.len() implies n.path().take(f) == o.path().take(f) by {
            assert(n.path().take(f) =~= o.path().take(f));
        }
        assert forall|f: int| #![trigger n.nodes@[f]] 0 <= f < n.nodes@.len() - 1 implies n.path()[f]
            == o.path()[f] by {}
        assert forall|s: Seq<T>| n.remaining().contains(s) == o.remaining().contains(s) by {
            if o.remaining().contains(s) {
                let f = choose|f: int| 0 <= f < o.nodes@.len() && #[trigger] o.frame_yields(f, s);
                assert(f != top);
                Self::lemma_lower_frames(o, n, f);
                assert(n.frame_yields(f, s));
            }
            if n.remaining().contains(s) {
                let f = choose|f: int| 0 <= f < n.nodes@.len() && #[trigger] n.frame_yields(f, s);
                Self::lemma_lower_frames(o, n, f);
                assert(o.frame_yields(f, s));
            }
        }
        assert(n.remaining() =~= o.remaining());
    }

    /// Producing the path of the deepest frame, whose flag is set.
    proof fn lemma_yield(o: Self, n: Self)
        requires
            o.inv(),
            o.nodes@.last().0,
            n.nodes@ == o.nodes@.update(
                o.nodes@.len() - 1,
                (false, o.nodes@.last().1, o.nodes@.last().2),
            ),
            n.datas@ == o.datas@,
        ensures
            n.inv(),
            n.start() == o.start(),
            n.path() == o.path(),
            o.remaining().contains(o.path()),
            n.remaining() == o.remaining().remove(o.path()),
    {
        let top = o.nodes@.len() - 1;
        let p = o.path();
        assert(p.take(top) =~= p);
        assert(o.frame_yields(top, p));
        assert forall|f: int| 0 <= f < top implies !o.frame_yields(f, p) by {
            let e = o.nodes@[f];
            let node = *e.1;
            assert(p.take(f).len() == f);
            if exists|m: int|
                e.2 <= m < node.entries().len() && node.entries()[m].0 == p[f]
                    && #[trigger] node.entries()[m].1.contains(p.skip(f + 1)) {
                let m = choose|m: int|
                    e.2 <= m < node.entries().len() && node.entries()[m].0 == p[f]
                        && #[trigger] node.entries()[m].1.contains(p.skip(f + 1));
                o.start().lemma_node_at_wf(p.take(f));
                node.lemma_unique_entries(m, e.2 - 1);
            }
        }
        assert forall|s: Seq<T>| n.remaining().contains(s) == (o.remaining().contains(s) && s != p) by {
            if o.remaining().contains(s) && s != p {
                let f = choose|f: int| 0 <= f < o.nodes@.len() && #[trigger] o.frame_yields(f, s);
                if f < top {
                    Self::lemma_lower_frames(o, n, f);
                }
                assert(n.frame_yields(f, s));
            }
            if n.remaining().contains(s) {
                let f = choose|f: int| 0 <= f < n.nodes@.len() && #[trigger] n.frame_yields(f, s);
                if f < top {
                    Self::lemma_lower_frames(o, n, f);
                }
                assert(o.frame_yields(f, s));
            }
        }
        assert(n.remaining() =~= o.remaining().remove(p));
    }

    /// Going down into the child at the cursor of the deepest frame, whose
    /// flag is clear.
    proof fn lemma_descend(o: Self, n: Self)
        requires
            o.inv(),
            !o.nodes@.last().0,
            o.nodes@.last().2 < o.nodes@.last().1.entries().len(),
            Self::descended(o, n),
        ensures
            n.inv(),
            n.start() == o.start(),
            n.remaining() == o.remaining(),
    {
        let top = o.nodes@.len() - 1;
        let e = o.nodes@.last();
        let node = *e.1;
        let c = e.2 as int;
        let entry = node.entries()[c];
        let p = o.path();
        let q = n.path();
        assert(q =~= p.push(entry.0));
        assert(p.take(top) =~= p);
        assert(q.take(top + 1) =~= q);
        assert forall|f: int| 0 <= f <= top implies q.take(f) == p.take(f) by {
            assert(q.take(f) =~= p.take(f));
        }
        o.start().lemma_node_at_wf(p);
        node.lemma_entry_is_child(c);
        o.start().lemma_node_at_push(p, entry.0);
        assert(n.start() == o.start());
        assert(n.start().node_at(q.take(top + 1)) == Some(entry.1));
        assert forall|f: int| #![trigger n.nodes@[f]] 0 <= f < n.nodes@.len() - 1 implies {
            &&& n.nodes@[f].2 >= 1
            &&& n.nodes@[f].1.entries()[n.nodes@[f].2 - 1].0 == n.path()[f]
        } by {
            if f < top {
                assert(q[f] == p[f]);
                assert(n.nodes@[f] == o.nodes@[f]);
            } else {
                assert(q[f] == entry.0);
            }
        }
        assert forall|s: Seq<T>| n.remaining().contains(s) == o.remaining().contains(s) by {
            if o.remaining().contains(s) {
                let f = choose|f: int| 0 <= f < o.nodes@.len() && #[trigger] o.frame_yields(f, s);
                if f < top {
                    Self::lemma_lower_frames(o, n, f);
                    assert(n.frame_yields(f, s));
                } else {
                    Self::lemma_split_frame(o, n, s);
                }
            }
            if n.remaining().contains(s) {
                let f = choose|f: int| 0 <= f < n.nodes@.len() && #[trigger] n.frame_yields(f, s);
                if f < top {
                    Self::lemma_lower_frames(o, n, f);
                    assert(o.frame_yields(f, s));
                } else {
                    Self::lemma_split_frame(o, n, s);
                }
            }
        }
        assert(n.remaining() =~= o.remaining());
    }

    /// What the deepest frame had still to produce is split between itself,
    /// past the child it moved on from, and the frame of that child.
    proof fn lemma_split_frame(o: Self, n: Self, s: Seq<T>)
        requires
            o.inv(),
            !o.nodes@.last().0,
            o.nodes@.last().2 < o.nodes@.last().1.entries().len(),
            Self::descended(o, n),
        ensures
            o.frame_yields(o.nodes@.len() - 1, s) == (n.frame_yields(o.nodes@.len() - 1, s)
                || n.frame_yields(o.nodes@.len() as int, s)),
    {
        let top = o.nodes@.len() - 1;
        let e = o.nodes@.last();
        let node = *e.1;
        let c = e.2 as int;
        let entry = node.entries()[c];
        let p = o.path();
        let q = n.path();
        assert(q =~= p.push(entry.0));
        assert(p.take(top) =~= p);
        assert(q.take(top) =~= p);
        assert(q.take(top + 1) =~= q);
        o.start().lemma_node_at_wf(p);
        node.lemma_entry_is_child(c);
        o.start().lemma_node_at_push(p, entry.0);
        let child = entry.1;
        child.lemma_wf_unique();
        // what the child's frame takes over
        let in_child = s.len() > top && s.take(top) == p && s[top] == entry.0 && child.contains(
            s.skip(top + 1),
        );
        assert(o.frame_yields(top, s) == (n.frame_yields(top, s) || in_child)) by {
            if o.frame_yields(top, s) && !in_child {
                let m = choose|m: int|
                    c <= m < node.entries().len() && node.entries()[m].0 == s[p.len() as int]
                        && #[trigger] node.entries()[m].1.contains(s.skip(p.len() as int + 1));
                assert(m != c);
                assert(n.frame_yields(top, s));
            }
            if n.frame_yields(top, s) {
                let m = choose|m: int|
                    c + 1 <= m < node.entries().len() && node.entries()[m].0 == s[p.len() as int]
                        && #[trigger] node.entries()[m].1.contains(s.skip(p.len() as int + 1));
                assert(o.frame_yields(top, s));
            }
            if in_child {
                assert(p.len() == top);
                assert(node.entries()[c].1.contains(s.skip(p.len() as int + 1)));
                assert(frame_has(false, node, c, p, s));
                assert(o.frame_yields(top, s));
            }
        }
        if in_child {
            let u = s.skip(top + 1);
            if u.len() == 0 {
                assert(s =~= q);
            } else {
                child.lemma_contains_entry(u);
                assert(s.take(top + 1) =~= q);
                assert(u.drop_first() =~= s.skip(top + 2));
                assert(n.frame_yields(top + 1, s));
            }
        }
        if n.frame_yields(top + 1, s) {
            if s == q {
                assert(s.skip(top + 1) =~= Seq::<T>::empty());
                assert(s.take(top) =~= p);
            } else {
                let u = s.skip(top + 1);
                assert(s.take(top + 1) == q);
                assert(s.take(top) =~= s.take(top + 1).take(top));
                assert(s[top] == s.take(top + 1)[top]);
                assert(u.drop_first() =~= s.skip(top + 2));
                child.lemma_contains_entry(u);
            }
            assert(in_child);
        }
    }

    /// An iterator that starts at `node`.
    pub fn from_node(node: &'a TrieNode<T>) -> (r: Self)
        requires
            node.wf(),
        ensures
            r.inv(),
            r.start() == *node,
            r.remaining() == node@,
            r.path() == Seq::<T>::empty(),
            r.pending() == node.is_terminal(),
    {
        let mut nodes = Vec::new();
        nodes.push((node.stop, node, 0));
        let r = Iter { nodes, datas: Vec::new() };
        proof {
            assert(r.path() =~= Seq::<T>::empty());
            assert(r.path().take(0) =~= Seq::<T>::empty());
            assert forall|s: Seq<T>| r.remaining().contains(s) == node.contains(s) by {
                if s.len() > 0 {
                    node.lemma_contains_entry(s);
                    assert(s.take(0) =~= Seq::<T>::empty());
                    assert(s.skip(1) =~= s.drop_first());
                    if node.contains(s) {
                        assert(r.frame_yields(0, s));
                    }
                } else {
                    assert(s =~= Seq::<T>::empty());
                    if node.contains(s) {
                        assert(r.frame_yields(0, s));
                    }
                }
            }
            assert(r.remaining() =~= node@);
        }
        r
    }

    /// Moves on to the next stored sequence, which `path` then holds;
    /// `false` once every sequence has been produced.
    fn advance(&mut self) -> (r: bool)
        requires
            old(self).inv(),
        ensures
            final(self).inv(),
            final(self).start() == old(self).start(),
            r ==> old(self).remaining().contains(final(self).path()) && final(self).remaining()
                == old(self).remaining().remove(final(self).path()),
            !r ==> old(self).remaining() == Set::<Seq<T>>::empty() && final(self).remaining()
                == Set::<Seq<T>>::empty(),
            old(self).pending() ==> r && final(self).path() == old(self).path(),
    {
        let ghost o = *self;
        loop
            invariant
                o == *old(self),
                self.inv(),
                self.start() == o.start(),
                self.remaining() == o.remaining(),
                o.pending() ==> self.pending() && self.path() == o.path(),
            ensures
                self.inv(),
                self.start() == o.start(),
                self.remaining() == o.remaining(),
                o.pending() ==> self.pending() && self.path() == o.path(),
                self.nodes@.last().0 || self.nodes@.last().2 < self.nodes@.last().1.entries().len(),
            decreases self.nodes@.len(),
        {
            let top = self.nodes.len() - 1;
            let (b, node, c) = self.nodes[top];
            if b || c < node.childs.len() {
                break ;
            }
            if top == 0 {
                proof {
                    assert forall|s: Seq<T>| !self.remaining().contains(s) by {
                        if self.remaining().contains(s) {
                            let f = choose|f: int|
                                0 <= f < self.nodes@.len() && #[trigger] self.frame_yields(f, s);
                            assert(f == 0);
                        }
                    }
                    assert(self.remaining() =~= Set::<Seq<T>>::empty());
                }
                return false;
            }
            let ghost before = *self;
            self.nodes.pop();
            self.datas.pop();
            proof {
                Self::lemma_pop(before, *self);
            }
        }
        let top = self.nodes.len() - 1;
        let (b, node, c) = self.nodes[top];
        if b {
            let ghost before = *self;
            self.nodes.set(top, (false, node, c));
            proof {
                Self::lemma_yield(before, *self);
            }
            return true;
        }
        let ghost before = *self;
        let n_childs: usize = node.childs.len();
        assert(c < n_childs);
        let entry = &node.childs[c];
        self.nodes.set(top, (false, node, c + 1));
        self.datas.push(&entry.0);
        self.nodes.push((entry.1.stop, &entry.1, 0));
        proof {
            Self::lemma_descend(before, *self);
        }
        loop
            invariant
                o == *old(self),
                self.inv(),
                self.start() == o.start(),
                self.remaining() == o.remaining(),
                !o.pending(),
                self.nodes@.len() >= 2,
                self.nodes@.last().2 == 0,
                self.nodes@.last().0 == self.nodes@.last().1.is_terminal(),
            decreases self.nodes@.last().1.first_depth(),
        {
            let top = self.nodes.len() - 1;
            let (b, node, c) = self.nodes[top];
            if b {
                let ghost before = *self;
                self.nodes.set(top, (false, node, c));
                proof {
                    Self::lemma_yield(before, *self);
                }
                return true;
            }
            proof {
                let p = self.path().take(top as int);
                assert(self.nodes@[top as int] == self.nodes@.last());
                self.start().lemma_node_at_wf(p);
                node.lemma_first_depth();
            }
            let ghost before = *self;
            let entry = &node.childs[0];
            self.nodes.set(top, (false, node, 1));
            self.datas.push(&entry.0);
            self.nodes.push((entry.1.stop, &entry.1, 0));
            proof {
                Self::lemma_descend(before, *self);
            }
        }
    }

    /// The next stored sequence, as references to its elements, or `None`
    /// once every sequence has been produced.
    pub fn next(&mut self) -> (r: Option<Vec<&'a T>>)
        requires
            old(self).inv(),
        ensures
            final(self).inv(),
            final(self).start() == old(self).start(),
            match r {
                Some(v) => {
                    &&& old(self).remaining().contains(elems(v@))
                    &&& final(self).remaining() == old(self).remaining().remove(elems(v@))
                },
                None => old(self).remaining() == Set::<Seq<T>>::empty() && final(self).remaining()
                    == Set::<Seq<T>>::empty(),
            },
            old(self).pending() ==> r is Some && elems(r->0@) == old(self).path(),
    {
        if self.advance() {
            let mut v: Vec<&'a T> = Vec::new();
            let mut i: usize = 0;
            while i < self.datas.len()
                invariant
                    i <= self.datas@.len(),
                    v@ == self.datas@.take(i as int),
                decreases self.datas@.len() - i,
            {
                v.push(self.datas[i]);
                i += 1;
                assert(v@ =~= self.datas@.take(i as int));
            }
            assert(self.datas@.take(i as int) =~= self.datas@);
            Some(v)
        } else {
            None
        }
    }

    /// Every sequence that a frame has still to produce is stored below the
    /// starting node.
    proof fn lemma_remaining_stored(self)
        requires
            self.inv(),
        ensures
            self.remaining().subset_of(self.start()@),
    {
        let r = self.start();
        assert forall|s: Seq<T>| self.remaining().contains(s) implies r@.contains(s) by {
            let f = choose|f: int| 0 <= f < self.nodes@.len() && #[trigger] self.frame_yields(f, s);
            let p = self.path().take(f);
            let node = *self.nodes@[f].1;
            assert(self.nodes@[f] == self.nodes@[f]);
            r.lemma_node_at_wf(p);
            node.lemma_wf_unique();
            if self.nodes@[f].0 && s == p {
                assert(r.contains(s));
            } else {
                let m = choose|m: int|
                    self.nodes@[f].2 <= m < node.entries().len() && node.entries()[m].0 == s[p.len() as int]
                        && #[trigger] node.entries()[m].1.contains(s.skip(p.len() as int + 1));
                let u = s.skip(f);
                assert(u.drop_first() =~= s.skip(f + 1));
                node.lemma_contains_entry(u);
                assert(node.contains(u));
                assert(s.take(f) == p);
                r.lemma_node_at_split(s, f);
            }
        }
    }

    /// Produces every sequence still to come, in the order of the walk,
    /// each once.
    pub fn collect_rest(&mut self) -> (r: Vec<Vec<&'a T>>)
        requires
            old(self).inv(),
        ensures
            final(self).inv(),
            final(self).remaining() == Set::<Seq<T>>::empty(),
            r@.len() == old(self).remaining().len(),
            r@.map_values(|v: Vec<&'a T>| elems(v@)).no_duplicates(),
            r@.map_values(|v: Vec<&'a T>| elems(v@)).to_set() == old(self).remaining(),
    {
        let ghost r0 = self.remaining();
        proof {
            self.lemma_remaining_stored();
            self.start().lemma_finite();
            vstd::set_lib::lemma_len_subset(self.remaining(), self.start()@);
        }
        let mut out: Vec<Vec<&'a T>> = Vec::new();
        loop
            invariant
                self.inv(),
                self.remaining().finite(),
                r0.finite(),
                out@.map_values(|v: Vec<&'a T>| elems(v@)).no_duplicates(),
                out@.map_values(|v: Vec<&'a T>| elems(v@)).to_set() + self.remaining() == r0,
                out@.map_values(|v: Vec<&'a T>| elems(v@)).to_set().disjoint(self.remaining()),
                out@.len() + self.remaining().len() == r0.len(),
            ensures
                self.inv(),
                self.remaining() == Set::<Seq<T>>::empty(),
                out@.len() == r0.len(),
                out@.map_values(|v: Vec<&'a T>| elems(v@)).no_duplicates(),
                out@.map_values(|v: Vec<&'a T>| elems(v@)).to_set() == r0,
            decreases self.remaining().len(),
        {
            let ghost ys = out@.map_values(|v: Vec<&'a T>| elems(v@));
            let ghost rem = self.remaining();
            match self.next() {
                Some(v) => {
                    out.push(v);
                    proof {
                        let zs = out@.map_values(|v: Vec<&'a T>| elems(v@));
                        let y = elems(v@);
                        assert(zs =~= ys.push(y));
                        assert(!ys.contains(y)) by {
                            if ys.contains(y) {
                                let i = choose|i: int| 0 <= i < ys.len() && ys[i] == y;
                                assert(ys.to_set().contains(y));
                            }
                        }
                        assert forall|a: int, b: int| 0 <= a < b < zs.len() implies zs[a] != zs[b] by {
                            if b == ys.len() {
                                assert(ys[a] == zs[a]);
                            }
                        }
                        assert(zs.to_set() =~= ys.to_set().insert(y)) by {
                            assert forall|x: Seq<T>| zs.to_set().contains(x) == ys.to_set().insert(y).contains(x) by {
                                if zs.to_set().contains(x) {
                                    let i = choose|i: int| 0 <= i < zs.len() && zs[i] == x;
                                    if i < ys.len() {
                                        assert(ys[i] == x);
                                    }
                                }
                                if ys.to_set().contains(x) {
                                    let i = choose|i: int| 0 <= i < ys.len() && ys[i] == x;
                                    assert(zs[i] == x);
                                }
                                if x == y {
                                    assert(zs[ys.len() as int] == x);
                                }
                            }
                        }
                        assert(zs.to_set() + self.remaining() =~= r0);
                        assert(zs.to_set().disjoint(self.remaining()));
                    }
                },
                None => {
                    proof {
                        assert(ys.to_set() =~= r0);
                    }
                    break ;
                },
            }
        }
        out
    }

    /// Moves on to the next stored sequence and hands a reference to it, or
    /// `None` once every sequence has been produced.
    pub fn next_ref(&mut self) -> (r: Option<&Vec<&'a T>>)
        requires
            old(self).inv(),
        ensures
            final(self).inv(),
            final(self).start() == old(self).start(),
            match r {
                Some(v) => {
                    &&& elems(v@) == final(self).path()
                    &&& old(self).remaining().contains(elems(v@))
                    &&& final(self).remaining() == old(self).remaining().remove(elems(v@))
                },
                None => old(self).remaining() == Set::<Seq<T>>::empty() && final(self).remaining()
                    == Set::<Seq<T>>::empty(),
            },
            old(self).pending() ==> r is Some && elems(r->0@) == old(self).path(),
    {
        if self.advance() {
            Some(&self.datas)
        } else {
            None
        }
    }

    /// Moves on to the next stored sequence and returns what `f` makes of
    /// the references to its elements, or `None` once every sequence has
    /// been produced.
    pub fn next_op<R, F: FnOnce(&Vec<&'a T>) -> R>(&mut self, f: F) -> (r: Option<R>)
        requires
            old(self).inv(),
            forall|v: &Vec<&'a T>| #[trigger] f.requires((v,)),
        ensures
            final(self).inv(),
            final(self).start() == old(self).start(),
            match r {
                Some(x) => {
                    &&& old(self).remaining().contains(final(self).path())
                    &&& final(self).remaining() == old(self).remaining().remove(final(self).path())
                    &&& elems(final(self).path_refs()@) == final(self).path()
                    &&& f.ensures((&final(self).path_refs(),), x)
                },
                None => old(self).remaining() == Set::<Seq<T>>::empty() && final(self).remaining()
                    == Set::<Seq<T>>::empty(),
            },
            old(self).pending() ==> r is Some && final(self).path() == old(self).path(),
    {
        if self.advance() {
            let v = &self.datas;
            let x = f(v);
            assert(elems(v@) == self.path() && f.ensures((v,), x));
            Some(x)
        } else {
            None
        }
    }
}

} // verus!
