//! Looking keys up: by equality, by position and by overlap.
use crate::model::{has_key, lemma_remove_part, lemma_took_part};
use crate::node::{MaybeNode, Node};
use crate::range::TextRange;
use std::cmp::Ordering;
use vstd::prelude::*;

verus! {

impl<T: Clone> Node<T> {
    /// The nodes of a subtree whose keys overlap `range`, in key order.
    pub open spec fn hits<'a>(link: &'a MaybeNode<T>, range: TextRange) -> Seq<&'a Node<T>>
        decreases link,
    {
        match link {
            None => Seq::empty(),
            Some(b) => {
                let here = if b.key.overlaps(range) {
                    seq![&**b]
                } else {
                    Seq::empty()
                };
                Self::hits(&b.left, range) + here + Self::hits(&b.right, range)
            },
        }
    }

    /// The keys and values of a sequence of nodes.
    pub open spec fn pairs(nodes: Seq<&Node<T>>) -> Seq<(TextRange, T)> {
        nodes.map_values(|n: &Node<T>| (n.key, n.val))
    }

    /// No key of a search tree overlaps a range that lies outside the bounds
    /// of the tree.
    pub proof fn lemma_hits_outside(link: &MaybeNode<T>, lo: int, hi: int, range: TextRange)
        requires
            Self::bounded(*link, lo, hi),
            range.end <= lo || hi <= range.start || range.is_empty(),
        ensures
            Self::hits(link, range) == Seq::<&Node<T>>::empty(),
        decreases link,
    {
        match link {
            None => {},
            Some(b) => {
                Self::lemma_hits_outside(&b.left, lo, b.key.start as int, range);
                Self::lemma_hits_outside(&b.right, b.key.end as int, hi, range);
            },
        }
    }

    /// Every node that `hits` gives is a node of the subtree.
    pub proof fn lemma_hits_hold(link: &MaybeNode<T>, range: TextRange, i: int)
        requires
            0 <= i < Self::hits(link, range).len(),
        ensures
            Self::holds(*link, *Self::hits(link, range)[i]),
        decreases link,
    {
        match link {
            None => {},
            Some(b) => {
                let hl = Self::hits(&b.left, range);
                let hr = Self::hits(&b.right, range);
                let here: Seq<&Node<T>> = if b.key.overlaps(range) {
                    seq![&**b]
                } else {
                    Seq::empty()
                };
                let h = Self::hits(link, range);
                assert(h == hl + here + hr);
                if i < hl.len() {
                    assert(h[i] == hl[i]);
                    Self::lemma_hits_hold(&b.left, range, i);
                } else if i < hl.len() + here.len() {
                    assert(h[i] == here[i - hl.len()]);
                } else {
                    assert(h[i] == hr[i - hl.len() - here.len()]);
                    Self::lemma_hits_hold(&b.right, range, i - hl.len() - here.len());
                }
            },
        }
    }

    /// What `hits` gives at a node of a search tree, and which of its three
    /// parts are empty for a range that lies to one side of the node's key.
    pub proof fn lemma_hits_node(node: &Node<T>, range: TextRange)
        requires
            Self::ordered(node.link()),
        ensures
            Self::ordered(node.left),
            Self::ordered(node.right),
            Self::hits(&node.link(), range) == Self::hits(&node.left, range) + (if node.key.overlaps(
                range,
            ) {
                seq![node]
            } else {
                Seq::empty()
            }) + Self::hits(&node.right, range),
            range.is_empty() ==> Self::hits(&node.link(), range) == Seq::<&Node<T>>::empty(),
            range.end <= node.key.start ==> Self::hits(&node.right, range) == Seq::<
                &Node<T>,
            >::empty(),
            range.start >= node.key.end ==> Self::hits(&node.left, range) == Seq::<
                &Node<T>,
            >::empty(),
            range == node.key ==> Self::hits(&node.right, range) == Seq::<&Node<T>>::empty()
                && Self::hits(&node.left, range) == Seq::<&Node<T>>::empty(),
    {
        let top = usize::MAX as int;
        Self::lemma_bounded_wider(node.left, 0, node.key.start as int, 0, top);
        Self::lemma_bounded_wider(node.right, node.key.end as int, top, 0, top);
        if range.is_empty() {
            Self::lemma_hits_outside(&node.link(), 0, top, range);
        }
        if range.end <= node.key.start {
            Self::lemma_hits_outside(&node.right, node.key.end as int, top, range);
        }
        if range.start >= node.key.end {
            Self::lemma_hits_outside(&node.left, 0, node.key.start as int, range);
        }
        if range == node.key {
            Self::lemma_hits_outside(&node.right, node.key.end as int, top, range);
            Self::lemma_hits_outside(&node.left, 0, node.key.start as int, range);
        }
    }

    /// The nodes that `hits` gives stand for the entries whose keys overlap
    /// the range.
    pub proof fn lemma_hits_filter(link: &MaybeNode<T>, range: TextRange)
        ensures
            Self::pairs(Self::hits(link, range)) == Self::entries(*link).filter(
                |e: (TextRange, T)| e.0.overlaps(range),
            ),
        decreases link,
    {
        let pred = |e: (TextRange, T)| e.0.overlaps(range);
        let f = |n: &Node<T>| (n.key, n.val);
        match link {
            None => {
                assert(Self::pairs(Self::hits(link, range)) =~= Seq::empty());
            },
            Some(b) => {
                Self::lemma_hits_filter(&b.left, range);
                Self::lemma_hits_filter(&b.right, range);
                let l = Self::entries(b.left);
                let r = Self::entries(b.right);
                let hl = Self::hits(&b.left, range);
                let hr = Self::hits(&b.right, range);
                let here = if b.key.overlaps(range) {
                    seq![&**b]
                } else {
                    Seq::empty()
                };
                l.lemma_filter_push((b.key, b.val), pred);
                Seq::filter_distributes_over_add(l.push((b.key, b.val)), r, pred);
                assert((hl + here + hr).map_values(f) =~= hl.map_values(f) + here.map_values(f)
                    + hr.map_values(f));
                if b.key.overlaps(range) {
                    assert(here.map_values(f) =~= seq![(b.key, b.val)]);
                    assert(hl.map_values(f) + here.map_values(f) =~= l.filter(pred).push(
                        (b.key, b.val),
                    ));
                } else {
                    assert(here.map_values(f) =~= Seq::empty());
                    assert(hl.map_values(f) + here.map_values(f) =~= l.filter(pred));
                }
            },
        }
    }

    /// The leftmost node of the subtree that starts at `self`.
    pub fn min(&self) -> (r: &Node<T>)
        ensures
            (r.key, r.val) == Self::entries(self.link())[0],
            r.left.is_none(),
            Self::holds(self.link(), *r),
            Self::offset(self.link(), *r) == 0,
        decreases self,
    {
        let ghost l = Self::entries(self.left);
        proof {
            assert(Self::entries(self.link()) == l.push((self.key, self.val)) + Self::entries(
                self.right,
            ));
        }
        match &self.left {
            Some(n) => {
                let r = n.min();
                proof {
                    assert(l == Self::entries(n.left).push((n.key, n.val)) + Self::entries(
                        n.right,
                    ));
                    assert(l.push((self.key, self.val))[0] == l[0]);
                    assert(n.link() == self.left);
                    assert(*self != *r);
                }
                r
            },
            None => {
                proof {
                    assert(l.push((self.key, self.val))[0] == (self.key, self.val));
                }
                self
            },
        }
    }

    /// The leftmost node of the subtree that starts at `self`, as a value.
    pub open spec fn leftmost(self) -> Node<T>
        decreases self,
    {
        match self.left {
            None => self,
            Some(b) => b.leftmost(),
        }
    }

    /// The subtree that starts at `self` with `sub` in the place of its
    /// leftmost node.
    pub open spec fn with_leftmost(self, sub: Node<T>) -> Node<T>
        decreases self,
    {
        match self.left {
            None => sub,
            Some(b) => Node { left: Some(Box::new(b.with_leftmost(sub))), ..self },
        }
    }

    /// The leftmost node of the subtree that starts at `self`, for changing
    /// it in place.
    pub fn min_mut(&mut self) -> (r: &mut Node<T>)
        ensures
            *r == old(self).leftmost(),
            r.left.is_none(),
            *final(self) == old(self).with_leftmost(*final(r)),
        decreases *old(self),
    {
        proof {
            reveal_with_fuel(Node::leftmost, 2);
            reveal_with_fuel(Node::with_leftmost, 2);
        }
        if self.left.is_none() {
            return self;
        }
        self.left.as_mut().unwrap().min_mut()
    }

    /// The rightmost node of the subtree that starts at `self`.
    pub fn max(&self) -> (r: &Node<T>)
        requires
            Self::ordered(self.link()),
        ensures
            (r.key, r.val) == Self::entries(self.link()).last(),
            r.right.is_none(),
            Self::holds(self.link(), *r),
            Self::index_of(self.link(), *r) + 1 == Self::entries(self.link()).len(),
        decreases self,
    {
        proof {
            self.lemma_entries();
        }
        match &self.right {
            Some(n) => {
                proof {
                    Self::lemma_bounded_wider(
                        self.right,
                        self.key.end as int,
                        usize::MAX as int,
                        0,
                        usize::MAX as int,
                    );
                    assert(n.link() == self.right);
                }
                let r = n.max();
                proof {
                    n.lemma_entries();
                    assert(*self != *r);
                    Self::lemma_holds_bounded(self.right, *r, self.key.end as int, usize::MAX as int);
                    if Self::holds(self.left, *r) {
                        Self::lemma_holds_bounded(self.left, *r, 0, self.key.start as int);
                    }
                    r.lemma_entries();
                }
                r
            },
            None => {
                proof {
                    assert(Self::entries(self.link()).last() == (self.key, self.val));
                }
                self
            },
        }
    }

    /// A clone of the value stored under exactly `key` in this subtree.
    pub fn get(&self, key: TextRange) -> (r: Option<T>)
        requires
            Self::ordered(self.link()),
        ensures
            match r {
                Some(v) => exists|i: int|
                    0 <= i < Self::entries(self.link()).len() && (#[trigger] Self::entries(
                        self.link(),
                    )[i]).0 == key && cloned(Self::entries(self.link())[i].1, v),
                None => !has_key(Self::entries(self.link()), key),
            },
        decreases self,
    {
        let ghost s = Self::entries(self.link());
        let ghost l = Self::entries(self.left);
        let ghost rt = Self::entries(self.right);
        proof {
            assert(s == l.push((self.key, self.val)) + rt);
            assert(s[l.len() as int] == (self.key, self.val));
            assert(forall|i: int| 0 <= i < l.len() ==> s[i] == l[i]);
            assert(forall|i: int| 0 <= i < rt.len() ==> s[l.len() + 1 + i] == rt[i]);
            Self::lemma_bounded_sorted(self.left, 0, self.key.start as int);
            Self::lemma_bounded_sorted(self.right, self.key.end as int, usize::MAX as int);
        }
        if key == self.key {
            Some(self.val.clone())
        } else if key.lex_less(&self.key) {
            match &self.left {
                Some(n) => {
                    proof {
                        Self::lemma_bounded_wider(
                            self.left,
                            0,
                            self.key.start as int,
                            0,
                            usize::MAX as int,
                        );
                    }
                    let r = n.get(key);
                    proof {
                        if r.is_some() {
                            let i = choose|i: int|
                                0 <= i < l.len() && (#[trigger] l[i]).0 == key && cloned(
                                    l[i].1,
                                    r.unwrap(),
                                );
                            assert(s[i].0 == key);
                        } else {
                            assert forall|i: int| 0 <= i < s.len() implies (#[trigger] s[i]).0
                                != key by {
                                if i < l.len() {
                                    assert(l[i].0 != key);
                                } else if i > l.len() {
                                    assert(s[l.len() + 1 + (i - l.len() - 1)] == rt[i - l.len()
                                        - 1]);
                                }
                            }
                        }
                    }
                    r
                },
                None => {
                    proof {
                        assert forall|i: int| 0 <= i < s.len() implies (#[trigger] s[i]).0
                            != key by {
                            if i > l.len() {
                                assert(s[l.len() + 1 + (i - l.len() - 1)] == rt[i - l.len() - 1]);
                            }
                        }
                    }
                    None
                },
            }
        } else {
            match &self.right {
                Some(n) => {
                    proof {
                        Self::lemma_bounded_wider(
                            self.right,
                            self.key.end as int,
                            usize::MAX as int,
                            0,
                            usize::MAX as int,
                        );
                    }
                    let r = n.get(key);
                    proof {
                        if r.is_some() {
                            let i = choose|i: int|
                                0 <= i < rt.len() && (#[trigger] rt[i]).0 == key && cloned(
                                    rt[i].1,
                                    r.unwrap(),
                                );
                            assert(s[l.len() + 1 + i].0 == key);
                        } else {
                            assert forall|i: int| 0 <= i < s.len() implies (#[trigger] s[i]).0
                                != key by {
                                if i > l.len() {
                                    assert(s[l.len() + 1 + (i - l.len() - 1)] == rt[i - l.len()
                                        - 1]);
                                    assert(rt[i - l.len() - 1].0 != key);
                                }
                            }
                        }
                    }
                    r
                },
                None => {
                    proof {
                        assert forall|i: int| 0 <= i < s.len() implies (#[trigger] s[i]).0
                            != key by {}
                    }
                    None
                },
            }
        }
    }

    /// The node that a search for `key` comes to in a subtree.
    pub open spec fn at_key(link: MaybeNode<T>, key: TextRange) -> Option<Node<T>>
        decreases link,
    {
        match link {
            None => None,
            Some(b) => if key == b.key {
                Some(*b)
            } else if key.lex_lt(b.key) {
                Self::at_key(b.left, key)
            } else {
                Self::at_key(b.right, key)
            },
        }
    }

    /// The subtree with `sub` in the place of the node that a search for
    /// `key` comes to.
    pub open spec fn swapped(link: MaybeNode<T>, key: TextRange, sub: Node<T>) -> MaybeNode<T>
        decreases link,
    {
        match link {
            None => None,
            Some(b) => if key == b.key {
                Some(Box::new(sub))
            } else if key.lex_lt(b.key) {
                Some(Box::new(Node { left: Self::swapped(b.left, key, sub), ..*b }))
            } else {
                Some(Box::new(Node { right: Self::swapped(b.right, key, sub), ..*b }))
            },
        }
    }

    /// Where the entry of the node that a search for `key` comes to stands
    /// among the entries of the subtree.
    pub open spec fn rank(link: MaybeNode<T>, key: TextRange) -> int
        decreases link,
    {
        match link {
            None => 0,
            Some(b) => if key == b.key {
                Self::entries(b.left).len() as int
            } else if key.lex_lt(b.key) {
                Self::rank(b.left, key)
            } else {
                Self::entries(b.left).len() + 1 + Self::rank(b.right, key)
            },
        }
    }

    /// A search in a search tree comes to the node with the key if there is
    /// one, and to none otherwise.
    pub proof fn lemma_at_key(link: MaybeNode<T>, key: TextRange, lo: int, hi: int)
        requires
            Self::bounded(link, lo, hi),
        ensures
            match Self::at_key(link, key) {
                Some(n) => n.key == key && 0 <= Self::rank(link, key) < Self::entries(link).len()
                    && Self::entries(link)[Self::rank(link, key)] == (n.key, n.val),
                None => !has_key(Self::entries(link), key),
            },
        decreases link,
    {
        match link {
            None => {},
            Some(b) => {
                let l = Self::entries(b.left);
                let r = Self::entries(b.right);
                let e = (b.key, b.val);
                let s = Self::entries(link);
                Self::lemma_bounded_sorted(link, lo, hi);
                Self::lemma_at_key(b.left, key, lo, b.key.start as int);
                Self::lemma_at_key(b.right, key, b.key.end as int, hi);
                lemma_remove_part(l, e, r, 0);
                if key == b.key {
                } else {
                    lemma_took_part(l, e, r, l, key, None, lo, hi);
                    if key.lex_lt(b.key) {
                        if Self::at_key(b.left, key).is_some() {
                            lemma_remove_part(l, e, r, Self::rank(b.left, key));
                        }
                    } else {
                        if Self::at_key(b.right, key).is_some() {
                            lemma_remove_part(l, e, r, Self::rank(b.right, key));
                        }
                    }
                }
            },
        }
    }

    /// Putting another node in the place of one, with subtrees of the same
    /// entries, changes the one entry of that node.
    pub proof fn lemma_swapped_entries(link: MaybeNode<T>, key: TextRange, sub: Node<T>)
        requires
            Self::at_key(link, key).is_some(),
            Self::entries(sub.left) == Self::entries(Self::at_key(link, key).unwrap().left),
            Self::entries(sub.right) == Self::entries(Self::at_key(link, key).unwrap().right),
        ensures
            0 <= Self::rank(link, key) < Self::entries(link).len(),
            Self::entries(Self::swapped(link, key, sub)) == Self::entries(link).update(
                Self::rank(link, key),
                (sub.key, sub.val),
            ),
        decreases link,
    {
        match link {
            None => {},
            Some(b) => {
                let l = Self::entries(b.left);
                let r = Self::entries(b.right);
                let e = (b.key, b.val);
                let k = Self::rank(link, key);
                if key == b.key {
                    assert(l.push((sub.key, sub.val)) + r =~= (l.push(e) + r).update(
                        k,
                        (sub.key, sub.val),
                    ));
                } else if key.lex_lt(b.key) {
                    Self::lemma_swapped_entries(b.left, key, sub);
                    assert(l.update(k, (sub.key, sub.val)).push(e) + r =~= (l.push(e) + r).update(
                        k,
                        (sub.key, sub.val),
                    ));
                } else {
                    Self::lemma_swapped_entries(b.right, key, sub);
                    let j = Self::rank(b.right, key);
                    assert(l.push(e) + r.update(j, (sub.key, sub.val)) =~= (l.push(e) + r).update(
                        k,
                        (sub.key, sub.val),
                    ));
                }
            },
        }
    }

    /// Putting another node in the place of one keeps the tree well shaped,
    /// if the new node is well shaped below, hangs where the old one hung and
    /// has as many nodes below it.
    pub proof fn lemma_swapped_shaped(
        link: MaybeNode<T>,
        key: TextRange,
        sub: Node<T>,
        parent: Option<TextRange>,
        is_right: bool,
    )
        requires
            Self::shaped(link, parent, is_right),
            Self::at_key(link, key).is_some(),
            sub.shaped_below(),
            sub.parent == Self::at_key(link, key).unwrap().parent,
            sub.is_right_child == Self::at_key(link, key).unwrap().is_right_child,
            sub.n == Self::at_key(link, key).unwrap().n,
            Self::entries(sub.left).len() == Self::entries(
                Self::at_key(link, key).unwrap().left,
            ).len(),
            Self::entries(sub.right).len() == Self::entries(
                Self::at_key(link, key).unwrap().right,
            ).len(),
        ensures
            Self::shaped(Self::swapped(link, key, sub), parent, is_right),
            Self::entries(Self::swapped(link, key, sub)).len() == Self::entries(link).len(),
        decreases link,
    {
        match link {
            None => {},
            Some(b) => {
                if key == b.key {
                } else if key.lex_lt(b.key) {
                    Self::lemma_swapped_shaped(b.left, key, sub, Some(b.key), false);
                } else {
                    Self::lemma_swapped_shaped(b.right, key, sub, Some(b.key), true);
                }
            },
        }
    }

    /// Putting another node in the place of one changes nothing of the
    /// colours, if the new node has the colour of the old one and subtrees
    /// that look like those of the old one.
    pub proof fn lemma_swapped_shape(link: MaybeNode<T>, key: TextRange, sub: Node<T>)
        requires
            Self::at_key(link, key).is_some(),
            sub.color == Self::at_key(link, key).unwrap().color,
            Self::looks_like(sub.left, Self::at_key(link, key).unwrap().left),
            Self::looks_like(sub.right, Self::at_key(link, key).unwrap().right),
        ensures
            Self::looks_like(Self::swapped(link, key, sub), link),
        decreases link,
    {
        match link {
            None => {},
            Some(b) => {
                if key == b.key {
                    assert(*b == Self::at_key(link, key).unwrap());
                } else if key.lex_lt(b.key) {
                    Self::lemma_swapped_shape(b.left, key, sub);
                } else {
                    Self::lemma_swapped_shape(b.right, key, sub);
                }
            },
        }
    }

    /// The node that a search comes to in a well shaped tree is well shaped.
    pub proof fn lemma_at_key_shaped(
        link: MaybeNode<T>,
        key: TextRange,
        parent: Option<TextRange>,
        is_right: bool,
    )
        requires
            Self::shaped(link, parent, is_right),
            Self::at_key(link, key).is_some(),
        ensures
            Self::at_key(link, key).unwrap().shaped_below(),
            Self::shaped(
                Self::at_key(link, key).unwrap().link(),
                Self::at_key(link, key).unwrap().parent,
                Self::at_key(link, key).unwrap().is_right_child,
            ),
        decreases link,
    {
        match link {
            None => {},
            Some(b) => {
                if key == b.key {
                    assert(b.link() == link);
                } else if key.lex_lt(b.key) {
                    Self::lemma_at_key_shaped(b.left, key, Some(b.key), false);
                } else {
                    Self::lemma_at_key_shaped(b.right, key, Some(b.key), true);
                }
            },
        }
    }

    /// The node of this subtree that a search for `key` comes to.
    pub fn get_node(&self, key: TextRange) -> (r: Option<&Node<T>>)
        ensures
            match r {
                Some(n) => Self::at_key(self.link(), key) == Some(*n),
                None => Self::at_key(self.link(), key).is_none(),
            },
        decreases self,
    {
        proof {
            reveal_with_fuel(Node::at_key, 2);
        }
        if key == self.key {
            Some(self)
        } else if key.lex_less(&self.key) {
            match &self.left {
                Some(n) => n.get_node(key),
                None => None,
            }
        } else {
            match &self.right {
                Some(n) => n.get_node(key),
                None => None,
            }
        }
    }

    /// The node of this subtree that a search for `key` comes to, for
    /// changing it in place.
    ///
    /// Whoever changes the key of that node has to keep the keys of the tree
    /// in order and to let its children know the new key, as `set_key` does.
    pub fn get_node_mut(&mut self, key: TextRange) -> (r: Option<&mut Node<T>>)
        ensures
            match r {
                Some(n) => Self::at_key(old(self).link(), key) == Some(*n) && n.key == key
                    && final(self).link() == Self::swapped(old(self).link(), key, *final(n)),
                None => Self::at_key(old(self).link(), key).is_none() && *final(self) == *old(
                    self,
                ),
            },
        decreases *old(self),
    {
        proof {
            reveal_with_fuel(Node::at_key, 2);
        }
        if key == self.key {
            Some(self)
        } else if key.lex_less(&self.key) {
            match &mut self.left {
                Some(n) => n.get_node_mut(key),
                None => None,
            }
        } else {
            match &mut self.right {
                Some(n) => n.get_node_mut(key),
                None => None,
            }
        }
    }
}

} // verus!
