//! Where a node stands in a tree.
use crate::node::{MaybeNode, Node};
use crate::range::TextRange;
use vstd::prelude::*;

verus! {

impl<T: Clone> Node<T> {
    /// The node `node` stands somewhere in the subtree.
    pub open spec fn holds(link: MaybeNode<T>, node: Node<T>) -> bool
        decreases link,
    {
        match link {
            None => false,
            Some(b) => *b == node || Self::holds(b.left, node) || Self::holds(b.right, node),
        }
    }

    /// The index among the entries of the subtree at which the entries of
    /// `node` and of what hangs below it begin.
    pub open spec fn offset(link: MaybeNode<T>, node: Node<T>) -> int
        decreases link,
    {
        match link {
            None => 0,
            Some(b) => if *b == node {
                0
            } else if Self::holds(b.left, node) {
                Self::offset(b.left, node)
            } else {
                Self::entries(b.left).len() + 1 + Self::offset(b.right, node)
            },
        }
    }

    /// The index of the entry of `node` among the entries of the subtree.
    pub open spec fn index_of(link: MaybeNode<T>, node: Node<T>) -> int {
        Self::offset(link, node) + Self::entries(node.left).len()
    }

    /// A node holds itself, and what a node of a subtree holds the subtree
    /// holds.
    pub proof fn lemma_holds_below(link: MaybeNode<T>, node: Node<T>, inner: Node<T>)
        requires
            Self::holds(link, node),
            Self::holds(node.link(), inner),
        ensures
            Self::holds(link, inner),
            Self::holds(node.link(), node),
        decreases link,
    {
        match link {
            None => {},
            Some(b) => {
                if *b == node {
                    assert(link == node.link());
                } else if Self::holds(b.left, node) {
                    Self::lemma_holds_below(b.left, node, inner);
                } else {
                    Self::lemma_holds_below(b.right, node, inner);
                }
            },
        }
    }

    /// A node of a search tree starts a search tree between the same bounds.
    pub proof fn lemma_holds_bounded(link: MaybeNode<T>, node: Node<T>, lo: int, hi: int)
        requires
            Self::bounded(link, lo, hi),
            Self::holds(link, node),
        ensures
            Self::bounded(node.link(), lo, hi),
        decreases link,
    {
        match link {
            None => {},
            Some(b) => {
                if *b == node {
                    assert(link == node.link());
                } else if Self::holds(b.left, node) {
                    Self::lemma_holds_bounded(b.left, node, lo, b.key.start as int);
                    Self::lemma_bounded_wider(node.link(), lo, b.key.start as int, lo, hi);
                } else {
                    Self::lemma_holds_bounded(b.right, node, b.key.end as int, hi);
                    Self::lemma_bounded_wider(node.link(), b.key.end as int, hi, lo, hi);
                }
            },
        }
    }

    /// The entries of a node of a subtree stand side by side among the
    /// entries of the subtree, from `offset` on.
    pub proof fn lemma_offset(link: MaybeNode<T>, node: Node<T>)
        requires
            Self::holds(link, node),
        ensures
            0 <= Self::offset(link, node),
            Self::offset(link, node) + Self::entries(node.link()).len() <= Self::entries(
                link,
            ).len(),
            Self::entries(link).subrange(
                Self::offset(link, node),
                Self::offset(link, node) + Self::entries(node.link()).len(),
            ) == Self::entries(node.link()),
            0 <= Self::index_of(link, node) < Self::entries(link).len(),
            Self::entries(link)[Self::index_of(link, node)] == (node.key, node.val),
        decreases link,
    {
        match link {
            None => {},
            Some(b) => {
                let l = Self::entries(b.left);
                let r = Self::entries(b.right);
                let e = (b.key, b.val);
                let s = Self::entries(link);
                let t = Self::entries(node.link());
                node.lemma_entries();
                if *b == node {
                    assert(link == node.link());
                    assert(s.subrange(0, s.len() as int) =~= s);
                } else if Self::holds(b.left, node) {
                    Self::lemma_offset(b.left, node);
                    let o = Self::offset(b.left, node);
                    assert(s.subrange(o, o + t.len()) =~= l.subrange(o, o + t.len()));
                } else {
                    Self::lemma_offset(b.right, node);
                    let o = Self::offset(b.right, node);
                    assert(s.subrange(l.len() + 1 + o, l.len() + 1 + o + t.len()) =~= r.subrange(
                        o,
                        o + t.len(),
                    ));
                }
                let k = Self::index_of(link, node);
                let o = Self::offset(link, node);
                assert(s.subrange(o, o + t.len())[Self::entries(node.left).len() as int] == s[k]);
            },
        }
    }

    /// A search for the key of a node of a search tree comes to that node.
    pub proof fn lemma_holds_at_key(link: MaybeNode<T>, node: Node<T>, lo: int, hi: int)
        requires
            Self::bounded(link, lo, hi),
            Self::holds(link, node),
        ensures
            Self::at_key(link, node.key) == Some(node),
        decreases link,
    {
        match link {
            None => {},
            Some(b) => {
                if *b == node {
                } else if Self::holds(b.left, node) {
                    Self::lemma_holds_bounded(b.left, node, lo, b.key.start as int);
                    Self::lemma_holds_at_key(b.left, node, lo, b.key.start as int);
                } else {
                    Self::lemma_holds_bounded(b.right, node, b.key.end as int, hi);
                    Self::lemma_holds_at_key(b.right, node, b.key.end as int, hi);
                }
            },
        }
    }

    /// The node that a search comes to stands in the subtree and has the
    /// key that was looked for.
    pub proof fn lemma_at_key_holds(link: MaybeNode<T>, key: TextRange)
        requires
            Self::at_key(link, key).is_some(),
        ensures
            Self::holds(link, Self::at_key(link, key).unwrap()),
            Self::at_key(link, key).unwrap().key == key,
        decreases link,
    {
        match link {
            None => {},
            Some(b) => {
                if key == b.key {
                } else if key.lex_lt(b.key) {
                    Self::lemma_at_key_holds(b.left, key);
                } else {
                    Self::lemma_at_key_holds(b.right, key);
                }
            },
        }
    }

    /// In a well shaped search tree the back-reference of a node leads to
    /// the node that has it as a child, on the side that the node records;
    /// only the node on top has a back-reference that leads out of the
    /// tree.
    pub proof fn lemma_parent(
        link: MaybeNode<T>,
        node: Node<T>,
        parent: Option<TextRange>,
        is_right: bool,
        lo: int,
        hi: int,
    )
        requires
            Self::shaped(link, parent, is_right),
            Self::bounded(link, lo, hi),
            Self::holds(link, node),
        ensures
            link == node.link() ==> node.parent == parent && node.is_right_child == is_right
                && Self::offset(link, node) == 0,
            link != node.link() ==> node.parent.is_some() && Self::at_key(
                link,
                node.parent.unwrap(),
            ).is_some() && ({
                let p = Self::at_key(link, node.parent.unwrap()).unwrap();
                &&& Self::holds(link, p)
                &&& node.is_right_child ==> p.right == node.link() && Self::offset(link, node)
                    == Self::offset(link, p) + Self::entries(p.left).len() + 1
                &&& !node.is_right_child ==> p.left == node.link() && Self::offset(link, node)
                    == Self::offset(link, p)
            }),
        decreases link,
    {
        match link {
            None => {},
            Some(b) => {
                if *b == node {
                    assert(link == node.link());
                } else if Self::holds(b.left, node) {
                    Self::lemma_holds_bounded(b.left, node, lo, b.key.start as int);
                    Self::lemma_parent(b.left, node, Some(b.key), false, lo, b.key.start as int);
                    if b.left == node.link() {
                    } else {
                        let pk = node.parent.unwrap();
                        let p = Self::at_key(b.left, pk).unwrap();
                        Self::lemma_at_key_holds(b.left, pk);
                        Self::lemma_holds_bounded(b.left, p, lo, b.key.start as int);
                        Self::lemma_holds_at_key(b.left, p, lo, b.key.start as int);
                        assert(p.key == pk);
                        assert(*b != p);
                    }
                } else {
                    Self::lemma_holds_bounded(b.right, node, b.key.end as int, hi);
                    Self::lemma_parent(b.right, node, Some(b.key), true, b.key.end as int, hi);
                    if Self::holds(b.left, *b) {
                        Self::lemma_holds_bounded(b.left, *b, lo, b.key.start as int);
                    }
                    if b.right == node.link() {
                    } else {
                        let pk = node.parent.unwrap();
                        let p = Self::at_key(b.right, pk).unwrap();
                        Self::lemma_at_key_holds(b.right, pk);
                        Self::lemma_holds_bounded(b.right, p, b.key.end as int, hi);
                        Self::lemma_holds_at_key(b.right, p, b.key.end as int, hi);
                        assert(p.key == pk);
                        assert(*b != p);
                        if Self::holds(b.left, p) {
                            Self::lemma_holds_bounded(b.left, p, lo, b.key.start as int);
                        }
                    }
                }
            },
        }
    }

    /// In a search tree the place of a node below a node is its place
    /// below that node, counted from where that node begins.
    pub proof fn lemma_offset_below(
        link: MaybeNode<T>,
        node: Node<T>,
        inner: Node<T>,
        lo: int,
        hi: int,
    )
        requires
            Self::bounded(link, lo, hi),
            Self::holds(link, node),
            Self::holds(node.link(), inner),
        ensures
            Self::holds(link, inner),
            Self::offset(link, inner) == Self::offset(link, node) + Self::offset(
                node.link(),
                inner,
            ),
        decreases link,
    {
        Self::lemma_holds_below(link, node, inner);
        match link {
            None => {},
            Some(b) => {
                if *b == node {
                    assert(link == node.link());
                } else if Self::holds(b.left, node) {
                    Self::lemma_holds_below(b.left, node, inner);
                    Self::lemma_holds_bounded(b.left, inner, lo, b.key.start as int);
                    Self::lemma_offset_below(b.left, node, inner, lo, b.key.start as int);
                } else {
                    Self::lemma_holds_below(b.right, node, inner);
                    Self::lemma_holds_bounded(b.right, inner, b.key.end as int, hi);
                    if Self::holds(b.left, inner) {
                        Self::lemma_holds_bounded(b.left, inner, lo, b.key.start as int);
                    }
                    Self::lemma_offset_below(b.right, node, inner, b.key.end as int, hi);
                }
            },
        }
    }

    /// Where the two children of a node of a search tree begin.
    pub proof fn lemma_offset_children(self, lo: int, hi: int)
        requires
            Self::bounded(self.link(), lo, hi),
        ensures
            self.left.is_some() ==> Self::holds(self.link(), *self.left.unwrap()) && Self::offset(
                self.link(),
                *self.left.unwrap(),
            ) == 0,
            self.right.is_some() ==> Self::holds(self.link(), *self.right.unwrap())
                && Self::offset(self.link(), *self.right.unwrap()) == Self::entries(
                self.left,
            ).len() + 1,
    {
        reveal_with_fuel(Node::offset, 2);
        reveal_with_fuel(Node::holds, 2);
        reveal_with_fuel(Node::bounded, 2);
        if self.left.is_some() {
            let c = *self.left.unwrap();
            assert(c.link() == self.left);
            assert(Self::holds(self.left, c));
            assert(c.key != self.key);
            assert(self != c);
        }
        if self.right.is_some() {
            let c = *self.right.unwrap();
            assert(c.link() == self.right);
            assert(Self::holds(self.right, c));
            assert(c.key != self.key);
            assert(self != c);
            if Self::holds(self.left, c) {
                Self::lemma_holds_bounded(self.left, c, lo, self.key.start as int);
            }
        }
    }
}

} // verus!
