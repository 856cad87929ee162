//! Deletion of the least, the greatest and a given key.
use crate::model::{has_key, lemma_drop_ends, lemma_remove_part, lemma_took_part, removed};
use crate::node::{BoxedNode, Color, MaybeNode, Node};
use crate::range::TextRange;
use vstd::prelude::*;

verus! {

impl<T: Clone> Node<T> {
    /// The key by which the root of a subtree names its parent.
    pub open spec fn parent_of(link: MaybeNode<T>) -> Option<TextRange> {
        match link {
            None => None,
            Some(b) => b.parent,
        }
    }

    /// Whether the root of a subtree takes the right place below its parent.
    pub open spec fn side_of(link: MaybeNode<T>) -> bool {
        match link {
            None => false,
            Some(b) => b.is_right_child,
        }
    }

    /// The node is on its own: it has no children and names no parent.
    pub open spec fn detached(self) -> bool {
        &&& self.left.is_none()
        &&& self.right.is_none()
        &&& self.parent.is_none()
        &&& !self.is_right_child
        &&& self.n == 1
    }

    /// Takes the root out of the subtree at `node`, given that it has at most
    /// one child, and puts that child in its place.
    #[verifier::rlimit(40)]
    fn detach(node: &mut MaybeNode<T>) -> (r: BoxedNode<T>)
        requires
            old(node).is_some(),
            old(node).unwrap().left.is_none() || old(node).unwrap().right.is_none(),
            Self::shaped(*old(node), Self::parent_of(*old(node)), Self::side_of(*old(node))),
        ensures
            r.detached(),
            r.key == old(node).unwrap().key,
            r.val == old(node).unwrap().val,
            r.color == old(node).unwrap().color,
            old(node).unwrap().left.is_none() ==> Self::entries(*final(node)) == Self::entries(
                old(node).unwrap().right,
            ) && *final(node) == Self::adopted(
                old(node).unwrap().right,
                Self::parent_of(*old(node)),
                Self::side_of(*old(node)),
            ),
            old(node).unwrap().left.is_some() ==> Self::entries(*final(node)) == Self::entries(
                old(node).unwrap().left,
            ) && *final(node) == Self::adopted(
                old(node).unwrap().left,
                Self::parent_of(*old(node)),
                Self::side_of(*old(node)),
            ),
            Self::shaped(*final(node), Self::parent_of(*old(node)), Self::side_of(*old(node))),
    {
        let mut taken = node.take().unwrap();
        let mut rest = if taken.left.is_none() {
            taken.right.take()
        } else {
            taken.left.take()
        };
        match &mut rest {
            Some(c) => {
                c.parent = taken.parent;
                c.is_right_child = taken.is_right_child;
            },
            None => {},
        }
        *node = rest;
        taken.parent = None;
        taken.is_right_child = false;
        taken.n = 1;
        proof {
            let o = old(node).unwrap();
            Self::lemma_adopted(o.right, Some(o.key), true, o.parent, o.is_right_child);
            Self::lemma_adopted(o.left, Some(o.key), false, o.parent, o.is_right_child);
        }
        taken
    }

    /// Takes the node with the least key out of the subtree at `node` and
    /// gives it back on its own.
    ///
    /// On the way down red is pushed to the left, so that the node taken out
    /// is red; on the way back the red-black shape is repaired.
    #[verifier::rlimit(40)]
    pub fn delete_min(node: &mut MaybeNode<T>) -> (r: MaybeNode<T>)
        requires
            Self::ordered(*old(node)),
            Self::shaped(*old(node), Self::parent_of(*old(node)), Self::side_of(*old(node))),
        ensures
            old(node).is_none() ==> r.is_none() && final(node).is_none(),
            old(node).is_some() ==> r.is_some() && r.unwrap().detached() && (
            r.unwrap().key,
            r.unwrap().val,
            ) == Self::entries(*old(node)).first() && Self::entries(*final(node)) == Self::entries(
                *old(node),
            ).drop_first(),
            Self::shaped(*final(node), Self::parent_of(*old(node)), Self::side_of(*old(node))),
            Self::ready(*old(node)) ==> Self::settled(*old(node), *final(node)),
        decreases Self::entries(*old(node)).len(), 1nat,
    {
        if node.is_none() {
            return None;
        }
        let has_left = match node {
            Some(n) => n.left.is_some(),
            None => false,
        };
        if !has_left {
            let taken = Node::detach(node);
            proof {
                let o = old(node).unwrap();
                o.lemma_entries();
                assert(Self::entries(*old(node)).drop_first() =~= Self::entries(o.right));
                if Self::ready(*old(node)) {
                    Self::lemma_ready(*old(node));
                    o.lemma_single();
                }
            }
            return Some(taken);
        }
        let n = node.as_mut().unwrap();
        Node::delete_min_below(n)
    }

    /// `delete_min` for a subtree whose root has a left child.
    #[verifier::rlimit(40)]
    fn delete_min_below(n: &mut BoxedNode<T>) -> (r: MaybeNode<T>)
        requires
            old(n).left.is_some(),
            Self::ordered(Some(*old(n))),
            Self::shaped(Some(*old(n)), old(n).parent, old(n).is_right_child),
        ensures
            r.is_some(),
            r.unwrap().detached(),
            (r.unwrap().key, r.unwrap().val) == Self::entries(Some(*old(n))).first(),
            Self::entries(Some(*final(n))) == Self::entries(Some(*old(n))).drop_first(),
            Self::shaped(Some(*final(n)), old(n).parent, old(n).is_right_child),
            Self::ready(Some(*old(n))) ==> Self::settled(Some(*old(n)), Some(*final(n))),
        decreases Self::entries(Some(*old(n))).len(), 0nat,
    {
        let ghost top = usize::MAX as int;
        let push = match &n.left {
            Some(l) => l.color == Color::Black && !Node::red(&l.left),
            None => false,
        };
        proof {
            Self::lemma_bounded_len(Some(*n), 0, top);
            old(n).lemma_moved_red_left_root();
        }
        if push {
            Node::move_red_left(n);
        }
        let ghost m = *n;
        proof {
            m.lemma_entries();
            assert(m.left.is_some());
            m.left.unwrap().lemma_entries();
            assert(Self::bounded(Some(m), 0, top));
            Self::lemma_bounded_wider(m.left, 0, m.key.start as int, 0, top);
            assert(Self::shaped(m.left, Some(m.key), false));
            assert(*m == old(n).left_descended());
            if Self::ready(Some(*old(n))) {
                old(n).lemma_left_down();
            }
        }
        let result = Node::delete_min(&mut n.left);
        proof {
            let l = Self::entries(m.left);
            n.lemma_entries();
            lemma_drop_ends(l, (m.key, m.val), Self::entries(m.right));
            assert(n.key == m.key && n.right == m.right);
            if Self::ready(Some(*old(n))) {
                old(n).lemma_left_up(**n);
            }
        }
        Node::balance(n);
        result
    }

    /// Takes the node with the greatest key out of the subtree at `node` and
    /// gives it back on its own.
    ///
    /// On the way down red is pushed to the right, so that the node taken out
    /// is red; on the way back the red-black shape is repaired.
    #[verifier::rlimit(40)]
    pub fn delete_max(node: &mut MaybeNode<T>) -> (r: MaybeNode<T>)
        requires
            Self::ordered(*old(node)),
            Self::shaped(*old(node), Self::parent_of(*old(node)), Self::side_of(*old(node))),
        ensures
            old(node).is_none() ==> r.is_none() && final(node).is_none(),
            old(node).is_some() ==> r.is_some() && r.unwrap().detached() && (
            r.unwrap().key,
            r.unwrap().val,
            ) == Self::entries(*old(node)).last() && Self::entries(*final(node)) == Self::entries(
                *old(node),
            ).drop_last(),
            Self::shaped(*final(node), Self::parent_of(*old(node)), Self::side_of(*old(node))),
            Self::ready_max(*old(node)) ==> Self::settled(*old(node), *final(node)),
        decreases Self::entries(*old(node)).len(), 1nat,
    {
        if node.is_none() {
            return None;
        }
        let ghost top = usize::MAX as int;
        let ghost s = Self::entries(*old(node));
        let n = node.as_mut().unwrap();
        proof {
            Self::lemma_bounded_len(Some(*n), 0, top);
            n.lemma_entries();
            if n.left.is_some() {
                n.left.unwrap().lemma_entries();
                Self::lemma_shaped_size(n.right, Some(n.key), true);
                assert(Self::shaped(n.left.unwrap().right, Some(n.left.unwrap().key), true)) by {
                    reveal_with_fuel(Node::shaped, 3);
                }
                Self::lemma_shaped_size(n.left.unwrap().right, Some(n.left.unwrap().key), true);
            }
        }
        if Node::red(&n.left) {
            Node::rotate_right(n);
        }
        let ghost m0 = *n;
        let has_right = n.right.is_some();
        proof {
            m0.lemma_entries();
            assert(m0.n == old(node).unwrap().n);
            assert(Self::shaped(Some(m0), Self::parent_of(*old(node)), Self::side_of(*old(node))));
            assert(*m0 == old(node).unwrap().right_turned());
            if Self::ready_max(*old(node)) {
                old(node).unwrap().lemma_right_turn();
            }
        }
        if !has_right {
            let taken = Node::detach(node);
            proof {
                assert(s.drop_last() =~= Self::entries(m0.left));
                assert(s.last() == (m0.key, m0.val));
                if Self::ready_max(*old(node)) {
                    m0.lemma_single();
                }
            }
            return Some(taken);
        }
        let n = node.as_mut().unwrap();
        Node::delete_max_below(n)
    }

    /// `delete_max` for a subtree whose root has a right child.
    #[verifier::rlimit(40)]
    fn delete_max_below(n: &mut BoxedNode<T>) -> (r: MaybeNode<T>)
        requires
            old(n).right.is_some(),
            Self::ordered(Some(*old(n))),
            Self::shaped(Some(*old(n)), old(n).parent, old(n).is_right_child),
        ensures
            r.is_some(),
            r.unwrap().detached(),
            (r.unwrap().key, r.unwrap().val) == Self::entries(Some(*old(n))).last(),
            Self::entries(Some(*final(n))) == Self::entries(Some(*old(n))).drop_last(),
            Self::shaped(Some(*final(n)), old(n).parent, old(n).is_right_child),
            Self::ready_max(Some(*old(n))) && !Self::is_red(old(n).left) ==> Self::settled(
                Some(*old(n)),
                Some(*final(n)),
            ),
        decreases Self::entries(Some(*old(n))).len(), 0nat,
    {
        let ghost top = usize::MAX as int;
        let push = match &n.right {
            Some(r) => r.color == Color::Black && !Node::red(&r.left),
            None => false,
        };
        proof {
            Self::lemma_bounded_len(Some(*n), 0, top);
            old(n).lemma_moved_red_right_root();
        }
        if push {
            Node::move_red_right(n);
        }
        let ghost m = *n;
        proof {
            m.lemma_entries();
            assert(m.right.is_some());
            m.right.unwrap().lemma_entries();
            assert(Self::bounded(Some(m), 0, top));
            Self::lemma_bounded_wider(m.right, m.key.end as int, top, 0, top);
            assert(Self::shaped(m.right, Some(m.key), true));
            assert(*m == old(n).right_descended());
            if Self::ready_max(Some(*old(n))) && !Self::is_red(old(n).left) {
                old(n).lemma_right_down();
            }
        }
        let result = Node::delete_max(&mut n.right);
        proof {
            let rt = Self::entries(m.right);
            n.lemma_entries();
            lemma_drop_ends(Self::entries(m.left), (m.key, m.val), rt);
            assert(n.key == m.key && n.left == m.left);
            if Self::ready_max(Some(*old(n))) && !Self::is_red(old(n).left) {
                old(n).lemma_right_up(**n);
            }
        }
        Node::balance(n);
        result
    }

    /// Takes the node with the key `key` out of the subtree at `node` and
    /// gives it back on its own, or `None` if no node has that key.
    ///
    /// On the way down red is pushed towards the key.  A node that is found
    /// above a right subtree is replaced by the least node of that subtree.
    /// On the way back the red-black shape is repaired.
    #[verifier::rlimit(40)]
    pub fn delete(node: &mut MaybeNode<T>, key: TextRange) -> (r: MaybeNode<T>)
        requires
            Self::ordered(*old(node)),
            Self::shaped(*old(node), Self::parent_of(*old(node)), Self::side_of(*old(node))),
        ensures
            Self::took(*old(node), *final(node), key, r),
            Self::ready_for(*old(node), key) && has_key(Self::entries(*old(node)), key)
                ==> Self::settled(*old(node), *final(node)),
        decreases Self::entries(*old(node)).len(), 2nat,
    {
        if node.is_none() {
            return None;
        }
        let go_left = match node {
            Some(n) => key.lex_less(&n.key),
            None => false,
        };
        let ghost top = usize::MAX as int;
        let ghost s = Self::entries(*old(node));
        if go_left {
            let n = node.as_mut().unwrap();
            return Node::delete_leftward(n, key);
        }
        let n = node.as_mut().unwrap();
        proof {
            Self::lemma_bounded_len(Some(*n), 0, top);
            n.lemma_entries();
            if n.left.is_some() {
                n.left.unwrap().lemma_entries();
                Self::lemma_shaped_size(n.right, Some(n.key), true);
                assert(Self::shaped(n.left.unwrap().right, Some(n.left.unwrap().key), true)) by {
                    reveal_with_fuel(Node::shaped, 3);
                }
                Self::lemma_shaped_size(n.left.unwrap().right, Some(n.left.unwrap().key), true);
                assert(n.left.unwrap().key.end <= n.key.start) by {
                    reveal_with_fuel(Node::bounded, 2);
                }
            }
        }
        if Node::red(&n.left) {
            Node::rotate_right(n);
        }
        let ghost m0 = *n;
        let at_end = n.key == key && n.right.is_none();
        proof {
            m0.lemma_entries();
            assert(m0.n == old(node).unwrap().n);
            assert(Self::shaped(Some(m0), Self::parent_of(*old(node)), Self::side_of(*old(node))));
            assert(!key.lex_lt(m0.key));
            assert(*m0 == old(node).unwrap().right_turned());
            if Self::ready_for(*old(node), key) {
                old(node).unwrap().lemma_right_turn();
            }
        }
        if at_end {
            let taken = Node::detach(node);
            proof {
                let l = Self::entries(m0.left);
                lemma_remove_part(l, (m0.key, m0.val), Self::entries(m0.right), 0);
                assert(l + Self::entries(m0.right) =~= l);
                assert(s[l.len() as int] == (key, taken.val));
                if Self::ready_for(*old(node), key) {
                    m0.lemma_single();
                }
            }
            return Some(taken);
        }
        let n = node.as_mut().unwrap();
        Node::delete_rightward(n, key)
    }

    /// What `delete` promises: `new` is the subtree `old` without the node
    /// that had the key `key`, which is `r`; or `old` itself where no node
    /// had that key.  It is well shaped below the same parent and a search
    /// tree between the same bounds.
    pub open spec fn took(old: MaybeNode<T>, new: MaybeNode<T>, key: TextRange, r: MaybeNode<T>)
        -> bool {
        &&& match r {
            Some(m) => m.detached() && m.key == key && removed(
                Self::entries(old),
                Self::entries(new),
                key,
                m.val,
            ),
            None => !has_key(Self::entries(old), key) && Self::entries(new) == Self::entries(old),
        }
        &&& Self::shaped(new, Self::parent_of(old), Self::side_of(old))
    }

    /// `delete` for a key that comes before the key of the root.
    #[verifier::rlimit(40)]
    fn delete_leftward(n: &mut BoxedNode<T>, key: TextRange) -> (r: MaybeNode<T>)
        requires
            key.lex_lt(old(n).key),
            Self::ordered(Some(*old(n))),
            Self::shaped(Some(*old(n)), old(n).parent, old(n).is_right_child),
        ensures
            Self::took(Some(*old(n)), Some(*final(n)), key, r),
            Self::ready_for(Some(*old(n)), key) && has_key(Self::entries(Some(*old(n))), key)
                ==> Self::settled(Some(*old(n)), Some(*final(n))),
        decreases Self::entries(Some(*old(n))).len(), 1nat,
    {
        let ghost top = usize::MAX as int;
        let ghost s = Self::entries(Some(*old(n)));
        let ghost shape = Self::ready_for(Some(*old(n)), key) && has_key(s, key);
        let push = match &n.left {
            Some(l) => l.color == Color::Black && !Node::red(&l.left),
            None => false,
        };
        proof {
            Self::lemma_bounded_len(Some(*n), 0, top);
            old(n).lemma_moved_red_left_root();
            if shape {
                old(n).lemma_entries();
                Self::lemma_bounded_sorted(Some(*old(n)), 0, top);
                lemma_took_part(
                    Self::entries(old(n).left),
                    (old(n).key, old(n).val),
                    Self::entries(old(n).right),
                    Self::entries(old(n).left),
                    key,
                    None,
                    0,
                    top,
                );
                assert(old(n).left.is_some());
                Self::lemma_ready(Some(*old(n)));
                old(n).lemma_left_down();
            }
        }
        if push {
            Node::move_red_left(n);
        }
        let ghost m = *n;
        proof {
            m.lemma_entries();
            assert(Self::bounded(Some(m), 0, top));
            Self::lemma_bounded_wider(m.left, 0, m.key.start as int, 0, top);
            assert(Self::shaped(m.left, Some(m.key), false));
            assert(key.lex_lt(m.key));
            Self::lemma_bounded_sorted(Some(m), 0, top);
            assert(*m == old(n).left_descended());
            if shape {
                lemma_took_part(
                    Self::entries(m.left),
                    (m.key, m.val),
                    Self::entries(m.right),
                    Self::entries(m.left),
                    key,
                    None,
                    0,
                    top,
                );
                Self::lemma_ready_for(m.left, key);
            }
        }
        let result = Node::delete(&mut n.left, key);
        proof {
            n.lemma_entries();
            assert(n.key == m.key && n.right == m.right && n.val == m.val);
            if shape {
                old(n).lemma_left_up(**n);
            }
            let v = if result.is_some() {
                Some(result.unwrap().val)
            } else {
                None
            };
            lemma_took_part(
                Self::entries(m.left),
                (m.key, m.val),
                Self::entries(m.right),
                Self::entries(n.left),
                key,
                v,
                0,
                top,
            );
        }
        Node::balance(n);
        result
    }

    /// `delete` for a key that does not come before the key of the root,
    /// where the root is not a node with that key and without a right child.
    #[verifier::rlimit(40)]
    fn delete_rightward(n: &mut BoxedNode<T>, key: TextRange) -> (r: MaybeNode<T>)
        requires
            !key.lex_lt(old(n).key),
            !(old(n).key == key && old(n).right.is_none()),
            Self::ordered(Some(*old(n))),
            Self::shaped(Some(*old(n)), old(n).parent, old(n).is_right_child),
        ensures
            Self::took(Some(*old(n)), Some(*final(n)), key, r),
            Self::ready_for(Some(*old(n)), key) && !Self::is_red(old(n).left) && has_key(
                Self::entries(Some(*old(n))),
                key,
            ) ==> Self::settled(Some(*old(n)), Some(*final(n))),
        decreases Self::entries(Some(*old(n))).len(), 1nat,
    {
        let ghost top = usize::MAX as int;
        let ghost s = Self::entries(Some(*old(n)));
        let ghost shape = Self::ready_for(Some(*old(n)), key) && !Self::is_red(old(n).left)
            && has_key(s, key);
        let push = match &n.right {
            Some(r) => r.color == Color::Black && !Node::red(&r.left),
            None => true,
        };
        proof {
            Self::lemma_bounded_len(Some(*n), 0, top);
            old(n).lemma_moved_red_right_root();
            if shape {
                old(n).lemma_entries();
                Self::lemma_bounded_sorted(Some(*old(n)), 0, top);
                if old(n).key != key {
                    lemma_took_part(
                        Self::entries(old(n).left),
                        (old(n).key, old(n).val),
                        Self::entries(old(n).right),
                        Self::entries(old(n).right),
                        key,
                        None,
                        0,
                        top,
                    );
                }
                assert(old(n).right.is_some());
                old(n).lemma_right_down();
            }
        }
        if push {
            Node::move_red_right(n);
        }
        let ghost m = *n;
        proof {
            m.lemma_entries();
            assert(Self::bounded(Some(m), 0, top));
            Self::lemma_bounded_wider(m.right, m.key.end as int, top, 0, top);
            assert(Self::shaped(m.right, Some(m.key), true));
            assert(!key.lex_lt(m.key));
            assert(m.key == key ==> m.right.is_some());
            Self::lemma_bounded_sorted(Some(m), 0, top);
            assert(*m == old(n).right_descended());
            if shape {
                assert(m.key.end <= m.right.unwrap().key.start) by {
                    reveal_with_fuel(Node::bounded, 2);
                }
                if m.key == key {
                    Self::lemma_ready(m.right);
                } else {
                    lemma_took_part(
                        Self::entries(m.left),
                        (m.key, m.val),
                        Self::entries(m.right),
                        Self::entries(m.right),
                        key,
                        None,
                        0,
                        top,
                    );
                }
            }
        }
        let result = if n.key == key {
            let taken = Node::replace_by_next(n);
            proof {
                lemma_remove_part(Self::entries(m.left), (m.key, m.val), Self::entries(m.right), 0);
                if shape {
                    old(n).lemma_right_up(**n);
                }
            }
            Some(taken)
        } else {
            let result = Node::delete(&mut n.right, key);
            proof {
                n.lemma_entries();
                assert(n.key == m.key && n.left == m.left && n.val == m.val);
                if shape {
                    old(n).lemma_right_up(**n);
                }
                let v = if result.is_some() {
                    Some(result.unwrap().val)
                } else {
                    None
                };
                lemma_took_part(
                    Self::entries(m.left),
                    (m.key, m.val),
                    Self::entries(m.right),
                    Self::entries(n.right),
                    key,
                    v,
                    0,
                    top,
                );
            }
            result
        };
        Node::balance(n);
        result
    }

    /// Puts the least node of the right subtree in the place of `n` and gives
    /// back `n` on its own.  The node that comes in takes over the colour,
    /// the children and the place of `n`.
    #[verifier::rlimit(40)]
    fn replace_by_next(n: &mut BoxedNode<T>) -> (r: BoxedNode<T>)
        requires
            old(n).right.is_some(),
            Self::ordered(Some(*old(n))),
            old(n).shaped_below(),
        ensures
            r.detached(),
            r.key == old(n).key,
            r.val == old(n).val,
            Self::entries(Some(*final(n))) == Self::entries(old(n).left) + Self::entries(
                old(n).right,
            ),
            final(n).shaped_below(),
            final(n).parent == old(n).parent,
            final(n).is_right_child == old(n).is_right_child,
            final(n).color == old(n).color,
            Self::looks_like(final(n).left, old(n).left),
            Self::ready(old(n).right) ==> Self::settled(old(n).right, final(n).right),
    {
        let ghost top = usize::MAX as int;
        let ghost o = *old(n);
        let ghost l = Self::entries(o.left);
        let ghost rt = Self::entries(o.right);
        proof {
            o.lemma_entries();
            Self::lemma_bounded_wider(o.right, o.key.end as int, top, 0, top);
            o.right.unwrap().lemma_entries();
        }
        let mut next = Node::delete_min(&mut n.right).unwrap();
        let ghost rest = n.right;
        proof {
            Self::lemma_adopted_shape(rest, None, false, next.key);
            Self::lemma_adopted_shape(o.left, None, false, next.key);
        }
        next.left = n.left.take();
        next.right = n.right.take();
        next.color = n.color;
        next.is_right_child = n.is_right_child;
        next.parent = n.parent;
        next.n = n.n;
        let key = next.key;
        match &mut next.left {
            Some(c) => {
                c.parent = Some(key);
            },
            None => {},
        }
        match &mut next.right {
            Some(c) => {
                c.parent = Some(key);
            },
            None => {},
        }
        std::mem::swap(&mut next, n);
        next.parent = None;
        next.is_right_child = false;
        next.n = 1;
        proof {
            n.lemma_entries();
            assert(Self::entries(n.left) == l);
            assert(Self::entries(n.right) == rt.drop_first());
            assert((n.key, n.val) == rt.first());
            assert(l.push(rt.first()) + rt.drop_first() =~= l + rt);
        }
        next
    }
}

} // verus!
