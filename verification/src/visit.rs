//! Visiting the nodes of a tree in key order.
use crate::model::indexes;
use crate::node::{MaybeNode, Node};
use crate::tree::IntervalTree;
use vstd::prelude::*;

verus! {

impl<T: Clone> Node<T> {
    /// Calls `f` on every node of the subtree in key order.
    ///
    /// `f` has to take every node of the subtree.  Afterwards it has come
    /// back from a call on each of them, so what it promises of a call on a
    /// node holds of every node of the subtree.
    pub fn apply<F>(&self, f: &mut F) where F: FnMut(&Node<T>)
        requires
            forall|n: Node<T>| #[trigger]
                Self::holds(self.link(), n) ==> call_requires(*old(f), (&n,)),
        ensures
            *final(f) == *old(f),
            forall|n: Node<T>| #[trigger]
                Self::holds(self.link(), n) ==> call_ensures(*old(f), (&n,), ()),
        decreases self,
    {
        proof {
            assert(Self::holds(self.link(), *self));
            assert forall|n: Node<T>| #[trigger] Self::holds(self.left, n) implies call_requires(
                *old(f),
                (&n,),
            ) by {
                assert(Self::holds(self.link(), n));
            }
            assert forall|n: Node<T>| #[trigger] Self::holds(self.right, n) implies call_requires(
                *old(f),
                (&n,),
            ) by {
                assert(Self::holds(self.link(), n));
            }
        }
        match &self.left {
            Some(l) => {
                proof {
                    assert(l.link() == self.left);
                }
                l.apply(f);
            },
            None => {},
        }
        f(self);
        match &self.right {
            Some(r) => {
                proof {
                    assert(r.link() == self.right);
                }
                r.apply(f);
            },
            None => {},
        }
        proof {
            assert forall|n: Node<T>| #[trigger] Self::holds(self.link(), n) implies call_ensures(
                *old(f),
                (&n,),
                (),
            ) by {
                if n == *self {
                } else if Self::holds(self.left, n) {
                } else {
                    assert(Self::holds(self.right, n));
                }
            }
        }
    }

    /// Calls `f` on the value of every node of the subtree in key order.
    ///
    /// `f` has to take every value of the subtree.  Afterwards it has come
    /// back from a call on each of them, so what it promises of a call on a
    /// value holds of every value of the subtree.
    pub fn apply_values<F>(&self, f: &mut F) where F: FnMut(&T)
        requires
            forall|i: int|
                0 <= i < Self::entries(self.link()).len() ==> call_requires(
                    *old(f),
                    (&(#[trigger] Self::entries(self.link())[i]).1,),
                ),
        ensures
            *final(f) == *old(f),
            forall|i: int|
                0 <= i < Self::entries(self.link()).len() ==> call_ensures(
                    *old(f),
                    (&(#[trigger] Self::entries(self.link())[i]).1,),
                    (),
                ),
        decreases self,
    {
        let ghost s = Self::entries(self.link());
        let ghost l = Self::entries(self.left);
        let ghost rt = Self::entries(self.right);
        proof {
            self.lemma_entries();
            assert forall|i: int| 0 <= i < l.len() implies call_requires(
                *old(f),
                (&(#[trigger] l[i]).1,),
            ) by {
                assert(s[i] == l[i]);
            }
            assert forall|i: int| 0 <= i < rt.len() implies call_requires(
                *old(f),
                (&(#[trigger] rt[i]).1,),
            ) by {
                assert(s[l.len() + 1 + i] == rt[i]);
            }
            assert(s[l.len() as int].1 == self.val);
        }
        match &self.left {
            Some(c) => {
                proof {
                    assert(c.link() == self.left);
                }
                c.apply_values(f);
            },
            None => {},
        }
        f(&self.val);
        match &self.right {
            Some(c) => {
                proof {
                    assert(c.link() == self.right);
                }
                c.apply_values(f);
            },
            None => {},
        }
        proof {
            assert forall|i: int| 0 <= i < s.len() implies call_ensures(
                *old(f),
                (&(#[trigger] s[i]).1,),
                (),
            ) by {
                if i < l.len() {
                    assert(s[i] == l[i]);
                } else if i > l.len() {
                    assert(s[i] == rt[i - l.len() - 1]);
                }
            }
        }
    }

    /// The subtree `new` is the subtree `old` after a walk in key order that
    /// has changed every node as `touch` allows.
    ///
    /// The nodes stand where they stood.  A node is changed after the nodes
    /// to its left and before the nodes to its right: `touch` relates the
    /// node as it was, with the left subtree as the walk has left it, to the
    /// node as it is now, with the right subtree as it was.
    pub open spec fn visited(
        old: MaybeNode<T>,
        new: MaybeNode<T>,
        touch: spec_fn(Node<T>, Node<T>) -> bool,
    ) -> bool
        decreases old,
    {
        match old {
            None => new.is_none(),
            Some(a) => new.is_some() && {
                let b = new.unwrap();
                &&& Self::visited(a.left, b.left, touch)
                &&& Self::visited(a.right, b.right, touch)
                &&& touch(Node { left: b.left, ..*a }, Node { right: a.right, ..*b })
            },
        }
    }

    /// Calls `f` on every node of the subtree in key order; `f` may change
    /// the node.
    ///
    /// `f` has to leave the children of a node in their places.  Where it
    /// changes a key, the order of the keys and what the children know of
    /// their parent are for the caller to look after.
    ///
    /// Every node is what a call of `f` on that very node has made of it:
    /// whatever holds between a node before and after any call of `f` holds
    /// between each node of the subtree as the walk came to it and as the
    /// call left it, field for field.
    pub fn apply_mut<F>(&mut self, f: &mut F) where F: FnMut(&mut Node<T>)
        requires
            forall|r: &mut Node<T>| call_requires(*old(f), (r,)),
            forall|r: &mut Node<T>| #[trigger]
                call_ensures(*old(f), (r,), ()) ==> final(r).left == r.left && final(r).right
                    == r.right,
        ensures
            *final(f) == *old(f),
            forall|touch: spec_fn(Node<T>, Node<T>) -> bool|
                (forall|r: &mut Node<T>| #[trigger]
                    call_ensures(*old(f), (r,), ()) ==> touch(*r, *final(r)))
                    ==> #[trigger] Self::visited(old(self).link(), final(self).link(), touch),
            Self::entries(final(self).link()).len() == Self::entries(old(self).link()).len(),
            forall|i: int| #[trigger]
                indexes(Self::entries(old(self).link()), i) ==> exists|r: &mut Node<T>| #[trigger]
                    call_ensures(*old(f), (r,), ()) && (r.key, r.val) == Self::entries(
                        old(self).link(),
                    )[i] && (final(r).key, final(r).val) == Self::entries(final(self).link())[i],
        decreases *old(self),
    {
        let ghost l = Self::entries(old(self).left);
        let ghost rt = Self::entries(old(self).right);
        let ghost e = (old(self).key, old(self).val);
        proof {
            old(self).lemma_entries();
        }
        match &mut self.left {
            Some(c) => {
                proof {
                    assert(c.link() == old(self).left);
                }
                c.apply_mut(f);
                proof {
                    assert(c.link() == Some(*c));
                }
            },
            None => {},
        }
        let ghost l2 = Self::entries(self.left);
        let ghost before = *self;
        f(self);
        let ghost after = *self;
        let ghost e2 = (self.key, self.val);
        match &mut self.right {
            Some(c) => {
                proof {
                    assert(c.link() == old(self).right);
                }
                c.apply_mut(f);
                proof {
                    assert(c.link() == Some(*c));
                }
            },
            None => {},
        }
        let ghost r2 = Self::entries(self.right);
        proof {
            assert forall|touch: spec_fn(Node<T>, Node<T>) -> bool|
                (forall|r: &mut Node<T>| #[trigger]
                    call_ensures(*old(f), (r,), ()) ==> touch(
                        *r,
                        *final(r),
                    )) implies #[trigger] Self::visited(old(self).link(), self.link(), touch) by {
                assert(touch(before, after));
                assert(Self::visited(old(self).left, self.left, touch));
                assert(Self::visited(old(self).right, self.right, touch));
                assert(before == (Node { left: self.left, ..*old(self) }));
                assert(after == (Node { right: old(self).right, ..*self }));
            }
            self.lemma_entries();
            let s = Self::entries(old(self).link());
            let t = Self::entries(self.link());
            assert forall|i: int| #[trigger] indexes(s, i) implies exists|r: &mut Node<T>| #[trigger]
                call_ensures(*old(f), (r,), ()) && (r.key, r.val) == s[i] && (
                final(r).key,
                final(r).val,
            ) == t[i] by {
                if i < l.len() {
                    assert(indexes(l, i));
                    assert(s[i] == l[i] && t[i] == l2[i]);
                } else if i == l.len() {
                    assert(s[i] == e && t[i] == e2);
                } else {
                    assert(indexes(rt, i - l.len() - 1));
                    assert(s[i] == rt[i - l.len() - 1] && t[i] == r2[i - l.len() - 1]);
                }
            }
        }
    }
}

impl<T: Clone> IntervalTree<T> {
    /// Calls `f` on the value of every interval in key order.
    ///
    /// `f` has to take every value of the tree.  Afterwards it has come back
    /// from a call on each of them, so what it promises of a call on a value
    /// holds of every value of the tree.
    pub fn apply<F: FnMut(&T)>(&self, f: &mut F)
        requires
            forall|i: int|
                0 <= i < self@.len() ==> call_requires(*old(f), (&(#[trigger] self@[i]).1,)),
        ensures
            *final(f) == *old(f),
            forall|i: int|
                0 <= i < self@.len() ==> call_ensures(*old(f), (&(#[trigger] self@[i]).1,), ()),
    {
        match &self.root {
            Some(r) => {
                proof {
                    assert(r.link() == self.root);
                    assert(Node::entries(r.link()) == self@);
                }
                r.apply_values(f);
            },
            None => {},
        }
    }

    /// Calls `f` on every node in key order; `f` may change the node.
    ///
    /// `f` has to leave the children of a node in their places.  Where it
    /// changes a key, the order of the keys and what the children know of
    /// their parent are for the caller to look after.
    ///
    /// Every node is what a call of `f` on that very node has made of it:
    /// whatever holds between a node before and after any call of `f` holds
    /// between each node of the tree as the walk came to it and as the call
    /// left it, field for field (`Node::visited`).
    pub fn apply_mut<F: FnMut(&mut Node<T>)>(&mut self, f: &mut F)
        requires
            forall|r: &mut Node<T>| call_requires(*old(f), (r,)),
            forall|r: &mut Node<T>| #[trigger]
                call_ensures(*old(f), (r,), ()) ==> final(r).left == r.left && final(r).right
                    == r.right,
        ensures
            *final(f) == *old(f),
            forall|touch: spec_fn(Node<T>, Node<T>) -> bool|
                (forall|r: &mut Node<T>| #[trigger]
                    call_ensures(*old(f), (r,), ()) ==> touch(*r, *final(r)))
                    ==> #[trigger] Node::visited(old(self).root, final(self).root, touch),
            final(self)@.len() == old(self)@.len(),
            forall|i: int| #[trigger]
                indexes(old(self)@, i) ==> exists|r: &mut Node<T>| #[trigger]
                    call_ensures(*old(f), (r,), ()) && (r.key, r.val) == Node::entries(
                        old(self).root,
                    )[i] && (final(r).key, final(r).val) == Node::entries(final(self).root)[i],
    {
        match &mut self.root {
            Some(r) => {
                proof {
                    assert(r.link() == old(self).root);
                }
                r.apply_mut(f);
                proof {
                    assert(r.link() == Some(*r));
                }
            },
            None => {},
        }
    }
}

} // verus!
