//! Moving keys when text is put in front of them.
use crate::model::{advanced, lemma_advanced_parts, room_for, shifted};
use crate::node::{MaybeNode, Node};
use crate::range::TextRange;
use vstd::prelude::*;

verus! {

impl<T: Clone> Node<T> {
    /// The subtree after `len` positions have been put into the text at
    /// `p`: every node stays where it is and keeps its colour, its size, its
    /// side and its value; it takes the key that `shifted` gives for its
    /// key, and names its parent by the key that the parent has taken.  The
    /// node on top names its parent by `parent`.
    pub open spec fn moved(link: MaybeNode<T>, parent: Option<TextRange>, p: int, len: int)
        -> MaybeNode<T>
        decreases link,
    {
        match link {
            None => None,
            Some(b) => Some(
                Box::new(
                    Node {
                        key: shifted(b.key, p, len),
                        parent: parent,
                        left: Self::moved(b.left, Some(shifted(b.key, p, len)), p, len),
                        right: Self::moved(b.right, Some(shifted(b.key, p, len)), p, len),
                        ..*b
                    },
                ),
            ),
        }
    }

    /// The node on top of a moved subtree names its parent as it is told to;
    /// nothing else in the subtree depends on that name.
    pub proof fn lemma_moved_parent(
        link: MaybeNode<T>,
        parent: Option<TextRange>,
        key: TextRange,
        p: int,
        len: int,
    )
        ensures
            Self::renamed_parent(Self::moved(link, parent, p, len), key) == Self::moved(
                link,
                Some(key),
                p,
                len,
            ),
    {
    }

    /// Below a bound behind `p` every key moves as a whole, wherever behind
    /// it `p` lies.
    pub proof fn lemma_moved_behind(
        link: MaybeNode<T>,
        parent: Option<TextRange>,
        p: int,
        len: int,
        lo: int,
        hi: int,
    )
        requires
            Self::bounded(link, lo, hi),
            p < lo,
            -1 <= p,
        ensures
            Self::moved(link, parent, p, len) == Self::moved(link, parent, -1, len),
        decreases link,
    {
        match link {
            None => {},
            Some(b) => {
                let k = shifted(b.key, p, len);
                assert(k == shifted(b.key, -1, len));
                Self::lemma_moved_behind(b.left, Some(k), p, len, lo, b.key.start as int);
                Self::lemma_moved_behind(b.right, Some(k), p, len, b.key.end as int, hi);
            },
        }
    }

    /// Moves every key of the subtree `length` positions to the right.
    #[verifier::rlimit(40)]
    pub fn shift(&mut self, length: usize)
        requires
            Self::ordered(old(self).link()),
            old(self).shaped_below(),
            room_for(Self::entries(old(self).link()), -1, length as int),
        ensures
            Self::entries(final(self).link()) == advanced(
                Self::entries(old(self).link()),
                -1,
                length as int,
            ),
            final(self).shaped_below(),
            final(self).parent == old(self).parent,
            final(self).is_right_child == old(self).is_right_child,
            final(self).n == old(self).n,
            final(self).key == shifted(old(self).key, -1, length as int),
            final(self).color == old(self).color,
            Self::looks_like(final(self).link(), old(self).link()),
            final(self).link() == Self::moved(
                old(self).link(),
                old(self).parent,
                -1,
                length as int,
            ),
        decreases *old(self),
    {
        let ghost l = Self::entries(old(self).left);
        let ghost e = (old(self).key, old(self).val);
        let ghost r = Self::entries(old(self).right);
        proof {
            old(self).lemma_entries();
            lemma_advanced_parts(l, e, r, -1, length as int);
            Self::lemma_bounded_wider(
                old(self).left,
                0,
                e.0.start as int,
                0,
                usize::MAX as int,
            );
            Self::lemma_bounded_wider(
                old(self).right,
                e.0.end as int,
                usize::MAX as int,
                0,
                usize::MAX as int,
            );
        }
        match &mut self.left {
            Some(c) => {
                c.shift(length);
            },
            None => {},
        }
        match &mut self.right {
            Some(c) => {
                c.shift(length);
            },
            None => {},
        }
        let mut key = self.key;
        key.advance(length);
        let ghost mid = *self;
        self.renew(key);
        proof {
            self.lemma_entries();
            assert(old(self).left.is_some() ==> old(self).left.unwrap().parent == Some(
                old(self).key,
            ));
            assert(old(self).right.is_some() ==> old(self).right.unwrap().parent == Some(
                old(self).key,
            ));
            Self::lemma_moved_parent(old(self).left, Some(old(self).key), key, -1, length as int);
            Self::lemma_moved_parent(old(self).right, Some(old(self).key), key, -1, length as int);
            assert(self.left == Self::moved(old(self).left, Some(key), -1, length as int));
            assert(self.right == Self::moved(old(self).right, Some(key), -1, length as int));
        }
    }

    /// Gives the node the key `key` and lets its children refer to it by
    /// that key, whatever key they knew it by.
    fn renew(&mut self, key: TextRange)
        requires
            Self::shaped(
                old(self).left,
                Self::parent_of(old(self).left),
                Self::side_of(old(self).left),
            ),
            Self::shaped(
                old(self).right,
                Self::parent_of(old(self).right),
                Self::side_of(old(self).right),
            ),
            old(self).left.is_some() ==> !old(self).left.unwrap().is_right_child,
            old(self).right.is_some() ==> old(self).right.unwrap().is_right_child,
        ensures
            *final(self) == old(self).rekeyed(key),
            Self::entries(final(self).left) == Self::entries(old(self).left),
            Self::entries(final(self).right) == Self::entries(old(self).right),
            final(self).shaped_below(),
            Self::looks_like(final(self).link(), old(self).link()),
    {
        self.set_key(key);
        proof {
            Self::lemma_adopted_shape(old(self).left, None, false, key);
            Self::lemma_adopted_shape(old(self).right, None, false, key);
        }
    }

    /// Moves the keys of the subtree as putting `length` positions into the
    /// text at `position` asks for: a key that starts behind `position`
    /// moves as a whole, a key that holds `position` grows at its end, and a
    /// key that ends at `position` or before it stays.
    ///
    /// Below a node that starts behind `position` the whole right subtree
    /// moves, without any comparison.
    #[verifier::rlimit(40)]
    pub fn advance(&mut self, position: usize, length: usize)
        requires
            Self::ordered(old(self).link()),
            old(self).shaped_below(),
            room_for(Self::entries(old(self).link()), position as int, length as int),
        ensures
            Self::entries(final(self).link()) == advanced(
                Self::entries(old(self).link()),
                position as int,
                length as int,
            ),
            final(self).shaped_below(),
            final(self).parent == old(self).parent,
            final(self).is_right_child == old(self).is_right_child,
            final(self).n == old(self).n,
            final(self).key == shifted(old(self).key, position as int, length as int),
            final(self).color == old(self).color,
            Self::looks_like(final(self).link(), old(self).link()),
            final(self).link() == Self::moved(
                old(self).link(),
                old(self).parent,
                position as int,
                length as int,
            ),
        decreases *old(self),
    {
        let ghost l = Self::entries(old(self).left);
        let ghost e = (old(self).key, old(self).val);
        let ghost r = Self::entries(old(self).right);
        let ghost top = usize::MAX as int;
        proof {
            old(self).lemma_entries();
            lemma_advanced_parts(l, e, r, position as int, length as int);
            Self::lemma_bounded_wider(old(self).left, 0, e.0.start as int, 0, top);
            Self::lemma_bounded_wider(old(self).right, e.0.end as int, top, 0, top);
            Self::lemma_bounded_sorted(old(self).right, e.0.end as int, top);
        }
        let mut key = self.key;
        if self.key.start > position {
            match &mut self.left {
                Some(c) => {
                    c.advance(position, length);
                },
                None => {},
            }
            key.advance(length);
            match &mut self.right {
                Some(c) => {
                    proof {
                        assert(advanced(r, position as int, length as int) =~= advanced(
                            r,
                            -1,
                            length as int,
                        ));
                        assert forall|i: int| 0 <= i < r.len() && (#[trigger] r[i]).0.end
                            > -1 implies r[i].0.end + length <= usize::MAX by {}
                    }
                    c.shift(length);
                },
                None => {},
            }
        } else {
            if self.key.end > position {
                key.end = key.end + length;
            }
            match &mut self.left {
                Some(c) => {
                    c.advance(position, length);
                },
                None => {},
            }
            match &mut self.right {
                Some(c) => {
                    c.advance(position, length);
                },
                None => {},
            }
        }
        let ghost mid = *self;
        self.renew(key);
        proof {
            self.lemma_entries();
            let p = position as int;
            let len = length as int;
            assert(old(self).left.is_some() ==> old(self).left.unwrap().parent == Some(
                old(self).key,
            ));
            assert(old(self).right.is_some() ==> old(self).right.unwrap().parent == Some(
                old(self).key,
            ));
            if old(self).key.start > position {
                Self::lemma_moved_behind(
                    old(self).right,
                    Some(old(self).key),
                    p,
                    len,
                    old(self).key.end as int,
                    top,
                );
            }
            Self::lemma_moved_parent(old(self).left, Some(old(self).key), key, p, len);
            Self::lemma_moved_parent(old(self).right, Some(old(self).key), key, p, len);
            assert(self.left == Self::moved(old(self).left, Some(key), p, len));
            assert(self.right == Self::moved(old(self).right, Some(key), p, len));
        }
    }
}

} // verus!
