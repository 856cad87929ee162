//! The node before and the node after a node, in key order.
use crate::node::Node;
use crate::range::TextRange;
use crate::tree::IntervalTree;
use vstd::prelude::*;

verus! {

impl<T: Clone> Node<T> {
    /// The node of `tree` that follows this node, which is a node of `tree`,
    /// in key order.
    ///
    /// It is the least node below the right child, if there is a right
    /// child.  Otherwise the back-references are followed upwards until
    /// they come to a node from its left side: that node is the one.  A
    /// back-reference names the parent by its key, so each step up looks
    /// the parent up from the root.
    pub fn next<'a>(&'a self, tree: &'a IntervalTree<T>) -> (r: Option<&'a Node<T>>)
        requires
            tree.wf(),
            Node::holds(tree.root, *self),
        ensures
            0 <= Node::index_of(tree.root, *self) < tree@.len(),
            tree@[Node::index_of(tree.root, *self)] == (self.key, self.val),
            match r {
                Some(n) => Node::holds(tree.root, *n) && Node::index_of(tree.root, *n)
                    == Node::index_of(tree.root, *self) + 1 && Node::index_of(tree.root, *self)
                    + 1 < tree@.len() && tree@[Node::index_of(tree.root, *self) + 1] == (
                    n.key,
                    n.val,
                ),
                None => Node::index_of(tree.root, *self) + 1 == tree@.len(),
            },
    {
        let ghost top = usize::MAX as int;
        let ghost k = Node::index_of(tree.root, *self);
        proof {
            tree.lemma_wf();
            Node::lemma_offset(tree.root, *self);
            Node::lemma_holds_bounded(tree.root, *self, 0, top);
            self.lemma_entries();
        }
        match &self.right {
            Some(c) => {
                let m = c.min();
                proof {
                    self.lemma_offset_children(0, top);
                    assert(c.link() == self.right);
                    Node::lemma_offset_below(self.link(), **c, *m, 0, top);
                    Node::lemma_offset_below(tree.root, *self, *m, 0, top);
                    Node::lemma_offset(tree.root, *m);
                }
                return Some(m);
            },
            None => {},
        }
        let root = match &tree.root {
            Some(r) => r,
            None => {
                return None;
            },
        };
        let mut n: &'a Node<T> = self;
        loop
            invariant
                tree.wf(),
                top == usize::MAX as int,
                tree.root == Some(*root),
                Node::holds(tree.root, *n),
                k == Node::index_of(tree.root, *self),
                0 <= k < tree@.len(),
                tree@[k] == (self.key, self.val),
                Node::offset(tree.root, *n) + Node::entries(n.link()).len() - 1 == k,
            decreases tree@.len() - Node::entries(n.link()).len(),
        {
            proof {
                tree.lemma_wf();
                Node::lemma_parent(tree.root, *n, None, false, 0, top);
                Node::lemma_offset(tree.root, *n);
                assert(root.link() == tree.root);
            }
            let pk = match n.parent {
                Some(pk) => pk,
                None => {
                    return None;
                },
            };
            let p = match root.get_node(pk) {
                Some(p) => p,
                None => {
                    return None;
                },
            };
            proof {
                Node::lemma_offset(tree.root, *p);
                p.lemma_entries();
            }
            if !n.is_right_child {
                return Some(p);
            }
            n = p;
        }
    }

    /// The key of the node of `tree` that follows this node in key order:
    /// the name by which that node is still found after the tree has changed
    /// elsewhere.
    pub fn next_raw(&self, tree: &IntervalTree<T>) -> (r: Option<TextRange>)
        requires
            tree.wf(),
            Node::holds(tree.root, *self),
        ensures
            0 <= Node::index_of(tree.root, *self) < tree@.len(),
            tree@[Node::index_of(tree.root, *self)] == (self.key, self.val),
            match r {
                Some(k) => Node::index_of(tree.root, *self) + 1 < tree@.len() && tree@[Node::index_of(
                    tree.root,
                    *self,
                ) + 1].0 == k,
                None => Node::index_of(tree.root, *self) + 1 == tree@.len(),
            },
    {
        match self.next(tree) {
            Some(n) => Some(n.key),
            None => None,
        }
    }

    /// The node of `tree` that precedes this node, which is a node of
    /// `tree`, in key order.
    ///
    /// It is the greatest node below the left child, if there is a left
    /// child.  Otherwise the back-references are followed upwards until
    /// they come to a node from its right side: that node is the one.
    pub fn prev<'a>(&'a self, tree: &'a IntervalTree<T>) -> (r: Option<&'a Node<T>>)
        requires
            tree.wf(),
            Node::holds(tree.root, *self),
        ensures
            0 <= Node::index_of(tree.root, *self) < tree@.len(),
            tree@[Node::index_of(tree.root, *self)] == (self.key, self.val),
            match r {
                Some(n) => Node::holds(tree.root, *n) && Node::index_of(tree.root, *n) + 1
                    == Node::index_of(tree.root, *self) && Node::index_of(tree.root, *self) > 0
                    && tree@[Node::index_of(tree.root, *self) - 1] == (n.key, n.val),
                None => Node::index_of(tree.root, *self) == 0,
            },
    {
        let ghost top = usize::MAX as int;
        let ghost k = Node::index_of(tree.root, *self);
        proof {
            tree.lemma_wf();
            Node::lemma_offset(tree.root, *self);
            Node::lemma_holds_bounded(tree.root, *self, 0, top);
            self.lemma_entries();
        }
        match &self.left {
            Some(c) => {
                proof {
                    Node::lemma_bounded_wider(self.left, 0, self.key.start as int, 0, top);
                    assert(c.link() == self.left);
                }
                let m = c.max();
                proof {
                    self.lemma_offset_children(0, top);
                    Node::lemma_offset_below(self.link(), **c, *m, 0, top);
                    Node::lemma_offset_below(tree.root, *self, *m, 0, top);
                    Node::lemma_offset(tree.root, *m);
                }
                return Some(m);
            },
            None => {},
        }
        let root = match &tree.root {
            Some(r) => r,
            None => {
                return None;
            },
        };
        let mut n: &'a Node<T> = self;
        loop
            invariant
                tree.wf(),
                top == usize::MAX as int,
                tree.root == Some(*root),
                Node::holds(tree.root, *n),
                k == Node::index_of(tree.root, *self),
                0 <= k < tree@.len(),
                tree@[k] == (self.key, self.val),
                Node::offset(tree.root, *n) == k,
            decreases tree@.len() - Node::entries(n.link()).len(),
        {
            proof {
                tree.lemma_wf();
                Node::lemma_parent(tree.root, *n, None, false, 0, top);
                Node::lemma_offset(tree.root, *n);
                assert(root.link() == tree.root);
            }
            let pk = match n.parent {
                Some(pk) => pk,
                None => {
                    return None;
                },
            };
            let p = match root.get_node(pk) {
                Some(p) => p,
                None => {
                    return None;
                },
            };
            proof {
                Node::lemma_offset(tree.root, *p);
                p.lemma_entries();
            }
            if n.is_right_child {
                return Some(p);
            }
            n = p;
        }
    }

    /// The key of the node of `tree` that precedes this node in key order.
    pub fn prev_raw(&self, tree: &IntervalTree<T>) -> (r: Option<TextRange>)
        requires
            tree.wf(),
            Node::holds(tree.root, *self),
        ensures
            0 <= Node::index_of(tree.root, *self) < tree@.len(),
            tree@[Node::index_of(tree.root, *self)] == (self.key, self.val),
            match r {
                Some(k) => Node::index_of(tree.root, *self) > 0 && tree@[Node::index_of(
                    tree.root,
                    *self,
                ) - 1].0 == k,
                None => Node::index_of(tree.root, *self) == 0,
            },
    {
        match self.prev(tree) {
            Some(n) => Some(n.key),
            None => None,
        }
    }
}

} // verus!
