//! Insertion: a key that overlaps stored keys is cut along their borders.
use crate::model::{
    added, copy_of, grown, has_key, inserted, kept, left_tail, lemma_copy_clone, lemma_copy_same,
    lemma_insert_first, lemma_insert_left, lemma_insert_right, lemma_insert_split, lemma_kept_parts,
    lemma_merged_parts, lemma_stored_overlap, meets, merged, merged_at, right_tail,
};
use crate::node::{BoxedNode, MaybeNode, Node};
use crate::range::TextRange;
use vstd::prelude::*;

verus! {

impl<T: Clone> Node<T> {
    /// `self` under the key `key`, with its children referring to it by that
    /// key.
    pub open spec fn rekeyed(self, key: TextRange) -> Node<T> {
        Node {
            key: key,
            left: Self::renamed_parent(self.left, key),
            right: Self::renamed_parent(self.right, key),
            ..self
        }
    }

    /// The same subtree, with its root referring to its parent by `key`.
    pub open spec fn renamed_parent(link: MaybeNode<T>, key: TextRange) -> MaybeNode<T> {
        match link {
            None => None,
            Some(b) => Some(Box::new(Node { parent: Some(key), ..*b })),
        }
    }

    /// The subtree `new` is what putting `key` with `val` into the subtree
    /// `old` gives: a search tree between the bounds of `old` where they
    /// hold `key`, well shaped below the same parent, whose entries are those
    /// of `old` with `key` put in.  Where `key` overlaps no key of `old`
    /// there is exactly one more entry; where `key` is a key of `old` only
    /// the value under it has changed; and every entry that `key` does not
    /// overlap is still there as it was.  Where `old` is a red-black tree
    /// and at most one node has come in, `new` is one too, up to its top.
    pub open spec fn put<F: Fn(T, T) -> T>(
        old: MaybeNode<T>,
        new: MaybeNode<T>,
        key: TextRange,
        val: T,
        parent: Option<TextRange>,
        is_right: bool,
        f: F,
    ) -> bool {
        &&& forall|lo: int, hi: int|
            #[trigger] Self::bounded(old, lo, hi) && lo <= key.start && key.end <= hi
                ==> Self::bounded(new, lo, hi)
        &&& Self::shaped(new, parent, is_right)
        &&& inserted(Self::entries(old), Self::entries(new), key, val, f)
        &&& !meets(Self::entries(old), key) ==> added(
            Self::entries(old),
            Self::entries(new),
            key,
            val,
        )
        &&& kept(Self::entries(old), Self::entries(new), key)
        &&& has_key(Self::entries(old), key) ==> merged_at(
            Self::entries(old),
            Self::entries(new),
            key,
            val,
            f,
        )
        &&& Self::llrb(old) ==> Self::stepped(old, new)
    }

    /// A search tree between two bounds is one between wider bounds.
    pub proof fn lemma_bounded_wider(link: MaybeNode<T>, lo: int, hi: int, lo2: int, hi2: int)
        requires
            Self::bounded(link, lo, hi),
            lo2 <= lo,
            hi <= hi2,
        ensures
            Self::bounded(link, lo2, hi2),
    {
        Self::lemma_bounded_sorted(link, lo, hi);
        Self::lemma_bounded_sorted(link, lo2, hi2);
    }

    /// Gives the node the key `key` and lets its children refer to it by that
    /// key.
    pub fn set_key(&mut self, key: TextRange)
        ensures
            *final(self) == old(self).rekeyed(key),
            Self::entries(final(self).left) == Self::entries(old(self).left),
            Self::entries(final(self).right) == Self::entries(old(self).right),
            old(self).shaped_below() ==> final(self).shaped_below(),
            forall|lo: int, hi: int|
                Self::bounded(old(self).left, lo, hi) ==> Self::bounded(final(self).left, lo, hi),
            forall|lo: int, hi: int|
                Self::bounded(old(self).right, lo, hi) ==> Self::bounded(
                    final(self).right,
                    lo,
                    hi,
                ),
    {
        self.key = key;
        match &mut self.left {
            Some(l) => {
                l.parent = Some(key);
            },
            None => {},
        }
        match &mut self.right {
            Some(r) => {
                r.parent = Some(key);
            },
            None => {},
        }
        proof {
            Self::lemma_same_entries_bounded(old(self).left, self.left);
            Self::lemma_same_entries_bounded(old(self).right, self.right);
        }
    }

    /// Puts `key` with `val` into the subtree at `node`, which hangs below
    /// the node with key `parent`, and gives back the root of that subtree.
    ///
    /// A key without positions is not put in and the result is `None`.  A
    /// missing subtree becomes a red node with a clone of `val`.
    #[verifier::rlimit(40)]
    pub fn insert_at<'a, F: Fn(T, T) -> T>(
        node: &'a mut MaybeNode<T>,
        key: TextRange,
        val: T,
        parent: Option<TextRange>,
        is_right_child: bool,
        merge_fn: &F,
    ) -> (r: Option<&'a mut BoxedNode<T>>)
        requires
            key.valid(),
            Self::bounded(*old(node), 0, usize::MAX as int),
            Self::shaped(*old(node), parent, is_right_child),
            forall|a: T, b: T| call_requires(*merge_fn, (a, b)),
        ensures
            key.is_empty() ==> r.is_none() && *final(node) == *old(node),
            !key.is_empty() ==> r.is_some() && *final(node) == Some(*final(r.unwrap()))
                && Self::put(
                *old(node),
                Some(*r.unwrap()),
                key,
                val,
                parent,
                is_right_child,
                *merge_fn,
            ),
        decreases Self::entries(*old(node)).len(), 2nat,
    {
        if key.start == key.end {
            return None;
        }
        match node {
            Some(n) => Node::insert_at_inner(n, key, val, merge_fn),
            None => {
                let v = val.clone();
                *node = Some(Node::new_boxed_with_parent(key, v, parent, is_right_child));
                proof {
                    reveal_with_fuel(Node::bounded, 2);
                    reveal_with_fuel(Node::shaped, 2);
                    lemma_insert_first(key, val, v, *merge_fn);
                    assert(Self::entries(*node) =~= seq![(key, v)]);
                    Self::lemma_leaf_shape(*node.unwrap());
                }
                node.as_mut()
            },
        }
    }

    /// Puts `key` with `val` into the subtree that starts at `node`.
    ///
    /// Where `key` overlaps the key of `node` the two are cut along each
    /// other's borders; otherwise the key goes down to the left or to the
    /// right.  On the way back the red-black shape is repaired.
    #[verifier::rlimit(40)]
    pub fn insert_at_inner<'a, F: Fn(T, T) -> T>(
        node: &'a mut BoxedNode<T>,
        key: TextRange,
        val: T,
        merge_fn: &F,
    ) -> (r: Option<&'a mut BoxedNode<T>>)
        requires
            key.start < key.end,
            Self::bounded(Some(*old(node)), 0, usize::MAX as int),
            Self::shaped(Some(*old(node)), old(node).parent, old(node).is_right_child),
            forall|a: T, b: T| call_requires(*merge_fn, (a, b)),
        ensures
            r.is_some(),
            *final(node) == *final(r.unwrap()),
            Self::put(
                Some(*old(node)),
                Some(*r.unwrap()),
                key,
                val,
                old(node).parent,
                old(node).is_right_child,
                *merge_fn,
            ),
        decreases Self::entries(Some(*old(node))).len(), 1nat,
    {
        let ghost l = Self::entries(old(node).left);
        let ghost e = (old(node).key, old(node).val);
        let ghost rt = Self::entries(old(node).right);
        let ghost top = usize::MAX as int;
        proof {
            Self::lemma_bounded_sorted(Some(*old(node)), 0, top);
            assert(Self::entries(Some(*old(node))) == l.push(e) + rt);
            Self::lemma_bounded_wider(old(node).left, 0, e.0.start as int, 0, top);
            Self::lemma_bounded_wider(old(node).right, e.0.end as int, top, 0, top);
        }
        if key.intersects(node.key) {
            Node::insert_across(node, key, val, merge_fn);
            proof {
                if key == e.0 {
                    node.lemma_entries();
                    lemma_merged_parts(l, e, rt, l, key, val, *merge_fn, node.val, 0, top);
                } else if has_key(l.push(e) + rt, key) {
                    lemma_stored_overlap(l, e, rt, key, 0, top);
                }
            }
        } else if key.lex_less(&node.key) {
            Node::insert_at(&mut node.left, key, val, Some(node.key), false, merge_fn);
            proof {
                let l2 = Self::entries(node.left);
                lemma_insert_left(l, e, rt, l2, key, val, *merge_fn, 0, top);
                lemma_kept_parts(l, e, rt, l2, e, rt, key, key, key, 0, top);
                lemma_merged_parts(l, e, rt, l2, key, val, *merge_fn, val, 0, top);
            }
        } else {
            Node::insert_at(&mut node.right, key, val, Some(node.key), true, merge_fn);
            proof {
                let r2 = Self::entries(node.right);
                lemma_insert_right(l, e, rt, r2, key, val, *merge_fn, 0, top);
                lemma_kept_parts(l, e, rt, l, e, r2, key, key, key, 0, top);
                lemma_merged_parts(l, e, rt, r2, key, val, *merge_fn, val, 0, top);
            }
        }
        let ghost m = *node;
        proof {
            assert(Self::entries(Some(m)) == Self::entries(m.left).push((m.key, m.val))
                + Self::entries(m.right));
            assert forall|lo: int, hi: int|
                #[trigger] Self::bounded(Some(*old(node)), lo, hi) && lo <= key.start && key.end
                    <= hi implies Self::bounded(Some(m), lo, hi) by {
                if !key.overlaps(e.0) {
                    if key.lex_lt(e.0) {
                        assert(key.end <= e.0.start);
                        assert(Self::bounded(old(node).left, lo, e.0.start as int));
                        assert(Self::bounded(m.left, lo, e.0.start as int));
                        assert(m.right == old(node).right);
                        assert(m.key == e.0);
                    } else {
                        assert(key.start >= e.0.end);
                        assert(Self::bounded(old(node).right, e.0.end as int, hi));
                        assert(Self::bounded(m.right, e.0.end as int, hi));
                        assert(m.left == old(node).left);
                        assert(m.key == e.0);
                    }
                }
            }
            Self::lemma_bounded_len(Some(m), 0, top);
        }
        Node::balance(node);
        proof {
            if Self::llrb(Some(*old(node))) {
                Self::lemma_insert_shape(**old(node), *m, **node);
            }
            assert forall|lo: int, hi: int|
                #[trigger] Self::bounded(Some(*old(node)), lo, hi) && lo <= key.start && key.end
                    <= hi implies Self::bounded(Some(*node), lo, hi) by {
                assert(Self::bounded(Some(m), lo, hi));
            }
        }
        Some(node)
    }

    /// Puts `key` into the subtree at `node`, whose key it overlaps.
    ///
    /// The common part stays at `node` and gets the merged value.  What `key`
    /// has beyond it on a side goes into the subtree of that side with a
    /// clone of `val`, and what the key of `node` has beyond it goes there
    /// with a clone of the value of `node`.
    #[verifier::rlimit(40)]
    fn insert_across<F: Fn(T, T) -> T>(
        node: &mut BoxedNode<T>,
        key: TextRange,
        val: T,
        merge_fn: &F,
    )
        requires
            key.overlaps(old(node).key),
            Self::bounded(Some(*old(node)), 0, usize::MAX as int),
            Self::shaped(Some(*old(node)), old(node).parent, old(node).is_right_child),
            forall|a: T, b: T| call_requires(*merge_fn, (a, b)),
        ensures
            final(node).parent == old(node).parent,
            final(node).is_right_child == old(node).is_right_child,
            final(node).shaped_below(),
            forall|lo: int, hi: int|
                #[trigger] Self::bounded(Some(*old(node)), lo, hi) && lo <= key.start && key.end
                    <= hi ==> Self::bounded(Some(*final(node)), lo, hi),
            inserted(
                Self::entries(Some(*old(node))),
                Self::entries(Some(*final(node))),
                key,
                val,
                *merge_fn,
            ),
            meets(Self::entries(Some(*old(node))), key),
            final(node).color == old(node).color,
            key == old(node).key ==> final(node).left == old(node).left && final(node).right
                == old(node).right && final(node).key == key && merged(
                val,
                old(node).val,
                *merge_fn,
                final(node).val,
            ),
            kept(Self::entries(Some(*old(node))), Self::entries(Some(*final(node))), key),
            Self::llrb(Some(*old(node))) ==> Self::stepped(old(node).left, final(node).left)
                && Self::stepped(old(node).right, final(node).right),
        decreases Self::entries(Some(*old(node))).len(), 0nat,
    {
        let ghost l = Self::entries(old(node).left);
        let ghost e = (old(node).key, old(node).val);
        let ghost rt = Self::entries(old(node).right);
        let ghost top = usize::MAX as int;
        proof {
            Self::lemma_bounded_sorted(Some(*old(node)), 0, top);
            assert(Self::entries(Some(*old(node))) == l.push(e) + rt);
        }
        let mut mid = node.key;
        let mut rest = key;
        let key_left;
        let left_val;
        if rest.start < mid.start {
            key_left = rest.split_at(mid.start, false);
            left_val = val.clone();
        } else {
            key_left = mid.split_at(rest.start, false);
            left_val = node.val.clone();
        }
        let mut key_right = TextRange { start: mid.end, end: mid.end };
        let mut right_val: Option<T> = None;
        if rest.end < mid.end {
            key_right = mid.split_at(rest.end, true);
            right_val = Some(node.val.clone());
        } else if rest.end > mid.end {
            key_right = rest.split_at(mid.end, true);
            right_val = Some(val.clone());
        }
        let ghost vr = if right_val.is_some() {
            right_val.unwrap()
        } else {
            val
        };
        proof {
            assert(key_left == left_tail(key, e.0));
            assert(key_right == right_tail(key, e.0));
            assert(Some(mid) == key.common(e.0));
            lemma_copy_same(val);
            lemma_copy_same(e.1);
            if key.start < e.0.start {
                lemma_copy_clone(val, val, left_val);
            } else {
                lemma_copy_clone(e.1, e.1, left_val);
            }
            if key.end < e.0.end {
                lemma_copy_clone(e.1, e.1, vr);
            } else if key.end > e.0.end {
                lemma_copy_clone(val, val, vr);
            }
        }
        node.set_key(mid);
        proof {
            Self::lemma_bounded_wider(node.left, 0, e.0.start as int, 0, top);
            Self::lemma_bounded_wider(node.right, e.0.end as int, top, 0, top);
            if key == e.0 {
                assert(node.left == old(node).left && node.right == old(node).right) by {
                    reveal_with_fuel(Node::shaped, 2);
                }
            }
            Self::lemma_adopted_shape(old(node).left, None, false, mid);
            Self::lemma_adopted_shape(old(node).right, None, false, mid);
        }
        Node::insert_at(&mut node.left, key_left, left_val, Some(mid), false, merge_fn);
        match right_val {
            Some(v) => {
                Node::insert_at(&mut node.right, key_right, v, Some(mid), true, merge_fn);
            },
            None => {},
        }
        let stored = node.val.clone();
        node.val = merge_fn(val, stored);
        proof {
            lemma_copy_clone(e.1, e.1, stored);
            assert(copy_of(val, val) && copy_of(e.1, stored) && call_ensures(
                *merge_fn,
                (val, stored),
                node.val,
            ));
            assert(merged(val, e.1, *merge_fn, node.val));
            let l2 = Self::entries(node.left);
            let r2 = Self::entries(node.right);
            assert(grown(l, l2, key_left, left_val, *merge_fn));
            assert(grown(rt, r2, key_right, vr, *merge_fn));
            lemma_insert_split(
                l,
                e,
                rt,
                l2,
                r2,
                key,
                val,
                *merge_fn,
                left_val,
                vr,
                node.val,
                0,
                top,
            );
            assert(Self::entries(Some(*node)) == l2.push((mid, node.val)) + r2);
            lemma_kept_parts(l, e, rt, l2, (mid, node.val), r2, key, key_left, key_right, 0, top);
            assert forall|lo: int, hi: int|
                #[trigger] Self::bounded(Some(*old(node)), lo, hi) && lo <= key.start && key.end
                    <= hi implies Self::bounded(Some(*node), lo, hi) by {
                Self::lemma_bounded_wider(
                    old(node).left,
                    lo,
                    e.0.start as int,
                    lo,
                    mid.start as int,
                );
                Self::lemma_bounded_wider(
                    old(node).right,
                    e.0.end as int,
                    hi,
                    mid.end as int,
                    hi,
                );
            }
        }
    }
}

} // verus!
