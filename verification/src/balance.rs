//! Rotations, recolouring and the local repairs of the red-black shape.
use crate::node::{BoxedNode, Color, MaybeNode, Node};
use crate::range::TextRange;
use vstd::prelude::*;

verus! {

impl<T: Clone> Node<T> {
    /// `self` after a left rotation: the right child stands where `self`
    /// stood and has its colour; `self` is its red left child and has taken
    /// over what was the left subtree of that child.
    pub open spec fn rotated_left(self) -> Node<T>
        recommends
            self.right.is_some(),
    {
        let x = self.right.unwrap();
        Node {
            key: x.key,
            val: x.val,
            left: Some(
                Box::new(
                    Node {
                        key: self.key,
                        val: self.val,
                        left: self.left,
                        right: Self::adopted(x.left, Some(self.key), true),
                        color: Color::Red,
                        parent: Some(x.key),
                        is_right_child: false,
                        n: (1 + Self::size_of(self.left) + Self::size_of(x.left)) as usize,
                    },
                ),
            ),
            right: x.right,
            color: self.color,
            parent: self.parent,
            is_right_child: self.is_right_child,
            n: self.n,
        }
    }

    /// `self` after a right rotation, the mirror image of `rotated_left`.
    pub open spec fn rotated_right(self) -> Node<T>
        recommends
            self.left.is_some(),
    {
        let x = self.left.unwrap();
        Node {
            key: x.key,
            val: x.val,
            left: x.left,
            right: Some(
                Box::new(
                    Node {
                        key: self.key,
                        val: self.val,
                        left: Self::adopted(x.right, Some(self.key), false),
                        right: self.right,
                        color: Color::Red,
                        parent: Some(x.key),
                        is_right_child: true,
                        n: (1 + Self::size_of(x.right) + Self::size_of(self.right)) as usize,
                    },
                ),
            ),
            color: self.color,
            parent: self.parent,
            is_right_child: self.is_right_child,
            n: self.n,
        }
    }

    /// The subtree with the colour of its root flipped.
    pub open spec fn flipped_link(link: MaybeNode<T>) -> MaybeNode<T> {
        match link {
            None => None,
            Some(b) => Some(Box::new(Node { color: b.color.flipped(), ..*b })),
        }
    }

    /// The subtree with its root painted in `color`.
    pub open spec fn painted(link: MaybeNode<T>, color: Color) -> MaybeNode<T> {
        match link {
            None => None,
            Some(b) => Some(Box::new(Node { color: color, ..*b })),
        }
    }

    /// `self` with its colour and those of its two children flipped.
    pub open spec fn flipped_colors(self) -> Node<T> {
        Node {
            left: Self::flipped_link(self.left),
            right: Self::flipped_link(self.right),
            color: self.color.flipped(),
            ..self
        }
    }

    /// `self` after the three repairs that follow a change below it: a red
    /// right child beside a black left child is rotated to the left, two red
    /// links in a row on the left are rotated to the right, and two red
    /// children hand their colour up.  The size is counted anew.
    #[verifier::opaque]
    pub open spec fn rebalanced(self) -> Node<T> {
        let a = if Self::is_red(self.right) && !Self::is_red(self.left) {
            self.rotated_left()
        } else {
            self
        };
        let b = if Self::is_red(a.left) && Self::is_red(a.left.unwrap().left) {
            a.rotated_right()
        } else {
            a
        };
        let c = if Self::is_red(b.left) && Self::is_red(b.right) {
            Node {
                left: Self::painted(b.left, Color::Black),
                right: Self::painted(b.right, Color::Black),
                color: Color::Red,
                ..b
            }
        } else {
            b
        };
        Node { n: (1 + Self::size_of(c.left) + Self::size_of(c.right)) as usize, ..c }
    }

    /// `self` after red has been pushed to its left side.
    #[verifier::opaque]
    pub open spec fn moved_red_left(self) -> Node<T> {
        let f = self.flipped_colors();
        if f.right.is_some() && Self::is_red(f.right.unwrap().left) {
            (Node {
                right: Some(Box::new(f.right.unwrap().rotated_right())),
                ..f
            }).rotated_left().flipped_colors()
        } else {
            f
        }
    }

    /// `self` after red has been pushed to its right side.
    #[verifier::opaque]
    pub open spec fn moved_red_right(self) -> Node<T> {
        let f = self.flipped_colors();
        if f.left.is_some() && Self::is_red(f.left.unwrap().left) {
            f.rotated_right().flipped_colors()
        } else {
            f
        }
    }

    /// A subtree that is well shaped records its true size.
    pub proof fn lemma_shaped_size(link: MaybeNode<T>, parent: Option<TextRange>, is_right: bool)
        requires
            Self::shaped(link, parent, is_right),
        ensures
            Self::size_of(link) == Self::entries(link).len(),
    {
    }

    /// Hanging a subtree below another parent changes neither its entries nor
    /// its shape.
    pub proof fn lemma_adopted(
        link: MaybeNode<T>,
        from: Option<TextRange>,
        was_right: bool,
        parent: Option<TextRange>,
        is_right: bool,
    )
        ensures
            Self::entries(Self::adopted(link, parent, is_right)) == Self::entries(link),
            Self::size_of(Self::adopted(link, parent, is_right)) == Self::size_of(link),
            Self::is_red(Self::adopted(link, parent, is_right)) == Self::is_red(link),
            Self::shaped(link, from, was_right) ==> Self::shaped(
                Self::adopted(link, parent, is_right),
                parent,
                is_right,
            ),
    {
    }

    /// Painting the root of a subtree changes neither its entries nor its
    /// shape.
    pub proof fn lemma_painted(link: MaybeNode<T>, color: Color)
        ensures
            Self::entries(Self::painted(link, color)) == Self::entries(link),
            Self::size_of(Self::painted(link, color)) == Self::size_of(link),
            forall|p: Option<TextRange>, r: bool|
                Self::shaped(link, p, r) ==> Self::shaped(Self::painted(link, color), p, r),
            Self::entries(Self::flipped_link(link)) == Self::entries(link),
            Self::size_of(Self::flipped_link(link)) == Self::size_of(link),
            forall|p: Option<TextRange>, r: bool|
                Self::shaped(link, p, r) ==> Self::shaped(Self::flipped_link(link), p, r),
    {
    }

    /// A left rotation keeps the entries in order and the shape sound.
    pub proof fn lemma_rotated_left(self)
        requires
            self.right.is_some(),
        ensures
            Self::entries(self.rotated_left().link()) == Self::entries(self.link()),
            self.shaped_below() && 1 + Self::size_of(self.left) + Self::size_of(
                self.right.unwrap().left,
            ) <= usize::MAX ==> self.rotated_left().shaped_below(),
    {
        reveal_with_fuel(Node::entries, 3);
        reveal_with_fuel(Node::shaped, 3);
        let x = self.right.unwrap();
        let r = self.rotated_left();
        Self::lemma_adopted(x.left, Some(x.key), false, Some(self.key), true);
        let l = Self::entries(self.left);
        let c = Self::entries(x.left);
        let xr = Self::entries(x.right);
        assert(Self::entries(self.link()) == l.push((self.key, self.val)) + (c.push(
            (x.key, x.val),
        ) + xr));
        assert(Self::entries(r.left) == l.push((self.key, self.val)) + c);
        assert(Self::entries(r.link()) == (l.push((self.key, self.val)) + c).push((x.key, x.val))
            + xr);
        assert(l.push((self.key, self.val)) + (c.push((x.key, x.val)) + xr) =~= (l.push(
            (self.key, self.val),
        ) + c).push((x.key, x.val)) + xr);
        if self.shaped_below() {
            Self::lemma_shaped_size(self.left, Some(self.key), false);
            Self::lemma_shaped_size(x.left, Some(x.key), false);
        }
    }

    /// A right rotation keeps the entries in order and the shape sound.
    pub proof fn lemma_rotated_right(self)
        requires
            self.left.is_some(),
        ensures
            Self::entries(self.rotated_right().link()) == Self::entries(self.link()),
            self.shaped_below() && 1 + Self::size_of(self.left.unwrap().right) + Self::size_of(
                self.right,
            ) <= usize::MAX ==> self.rotated_right().shaped_below(),
    {
        reveal_with_fuel(Node::entries, 3);
        reveal_with_fuel(Node::shaped, 3);
        let x = self.left.unwrap();
        let r = self.rotated_right();
        Self::lemma_adopted(x.right, Some(x.key), true, Some(self.key), false);
        let xl = Self::entries(x.left);
        let c = Self::entries(x.right);
        let rr = Self::entries(self.right);
        assert(Self::entries(self.link()) == (xl.push((x.key, x.val)) + c).push(
            (self.key, self.val),
        ) + rr);
        assert(Self::entries(r.right) == c.push((self.key, self.val)) + rr);
        assert(Self::entries(r.link()) == xl.push((x.key, x.val)) + (c.push((self.key, self.val))
            + rr));
        assert((xl.push((x.key, x.val)) + c).push((self.key, self.val)) + rr =~= xl.push(
            (x.key, x.val),
        ) + (c.push((self.key, self.val)) + rr));
        if self.shaped_below() {
            Self::lemma_shaped_size(self.right, Some(self.key), true);
            Self::lemma_shaped_size(x.right, Some(x.key), true);
        }
    }

    /// Flipping colours changes neither the entries nor the shape.
    pub proof fn lemma_flipped_colors(self)
        ensures
            Self::entries(self.flipped_colors().link()) == Self::entries(self.link()),
            self.shaped_below() ==> self.flipped_colors().shaped_below(),
    {
        Self::lemma_painted(self.left, Color::Red);
        Self::lemma_painted(self.right, Color::Red);
    }

    /// Where the root of a search tree stands after red was pushed left: it
    /// is the old root, or a node from the right of it.
    pub proof fn lemma_moved_red_left_root(self)
        requires
            Self::ordered(self.link()),
        ensures
            self.moved_red_left().key == self.key || self.moved_red_left().key.start
                >= self.key.end,
            self.left.is_some() ==> self.moved_red_left().left.is_some(),
    {
        reveal(Node::moved_red_left);
        reveal_with_fuel(Node::bounded, 3);
    }

    /// Where the root of a search tree stands after red was pushed right: it
    /// is the old root, or a node from the left of it that has the old root
    /// below it on the right.
    pub proof fn lemma_moved_red_right_root(self)
        requires
            Self::ordered(self.link()),
        ensures
            (self.moved_red_right().key == self.key && self.moved_red_right().right.is_some()
                == self.right.is_some()) || (self.moved_red_right().key.end <= self.key.start
                && self.moved_red_right().right.is_some()),
    {
        reveal(Node::moved_red_right);
        reveal_with_fuel(Node::bounded, 3);
    }

    /// A subtree with the same entries is a search tree between the same
    /// bounds.
    pub proof fn lemma_same_entries_bounded(a: MaybeNode<T>, b: MaybeNode<T>)
        requires
            Self::entries(a) == Self::entries(b),
        ensures
            forall|lo: int, hi: int| Self::bounded(a, lo, hi) ==> Self::bounded(b, lo, hi),
    {
        assert forall|lo: int, hi: int| Self::bounded(a, lo, hi) implies Self::bounded(
            b,
            lo,
            hi,
        ) by {
            Self::lemma_bounded_sorted(a, lo, hi);
            Self::lemma_bounded_sorted(b, lo, hi);
        }
    }

    /// Rotates the subtree at `node` to the left:
    ///
    /// ```text
    ///      |            |
    ///      n            x
    ///     / \\        // \
    ///        x    =>  n
    ///       / \      / \
    ///      c            c
    /// ```
    ///
    /// Without a right child nothing changes and the result is `None`.
    #[verifier::rlimit(40)]
    pub fn rotate_left(node: &mut BoxedNode<T>) -> (r: Option<&mut BoxedNode<T>>)
        requires
            old(node).right.is_some() ==> 1 + Self::size_of(old(node).left) + Self::size_of(
                old(node).right.unwrap().left,
            ) <= usize::MAX,
        ensures
            old(node).right.is_none() ==> r.is_none() && *final(node) == *old(node),
            old(node).right.is_some() ==> r.is_some() && **r.unwrap() == old(node).rotated_left()
                && *final(node) == *final(r.unwrap()),
            old(node).right.is_some() ==> Self::entries(Some(*r.unwrap())) == Self::entries(
                Some(*old(node)),
            ),
            old(node).right.is_some() && old(node).shaped_below() ==> r.unwrap().shaped_below(),
            old(node).right.is_some() ==> forall|lo: int, hi: int|
                Self::bounded(Some(*old(node)), lo, hi) ==> Self::bounded(
                    Some(*r.unwrap()),
                    lo,
                    hi,
                ),
    {
        if node.right.is_none() {
            return None;
        }
        let mut x = node.right.take().unwrap();
        let mut c = x.left.take();
        match &mut c {
            Some(cn) => {
                cn.parent = Some(node.key);
                cn.is_right_child = true;
            },
            None => {},
        }
        node.right = c;
        x.color = node.color;
        x.parent = node.parent;
        x.is_right_child = node.is_right_child;
        node.parent = Some(x.key);
        node.is_right_child = false;
        x.n = node.n;
        node.color = Color::Red;
        node.n = node.n();
        std::mem::swap(node, &mut x);
        node.left = Some(x);
        proof {
            old(node).lemma_rotated_left();
            assert(**node == old(node).rotated_left());
            Self::lemma_same_entries_bounded(Some(*old(node)), Some(*node));
        }
        Some(node)
    }

    /// Rotates the subtree at `node` to the right:
    ///
    /// ```text
    ///      |            |
    ///      n            x
    ///    // \          / \\
    ///    x       =>       n
    ///   / \              / \
    ///      c            c
    /// ```
    ///
    /// Without a left child nothing changes and the result is `None`.
    #[verifier::rlimit(40)]
    pub fn rotate_right(node: &mut BoxedNode<T>) -> (r: Option<&mut BoxedNode<T>>)
        requires
            old(node).left.is_some() ==> 1 + Self::size_of(old(node).left.unwrap().right)
                + Self::size_of(old(node).right) <= usize::MAX,
        ensures
            old(node).left.is_none() ==> r.is_none() && *final(node) == *old(node),
            old(node).left.is_some() ==> r.is_some() && **r.unwrap() == old(node).rotated_right()
                && *final(node) == *final(r.unwrap()),
            old(node).left.is_some() ==> Self::entries(Some(*r.unwrap())) == Self::entries(
                Some(*old(node)),
            ),
            old(node).left.is_some() && old(node).shaped_below() ==> r.unwrap().shaped_below(),
            old(node).left.is_some() ==> forall|lo: int, hi: int|
                Self::bounded(Some(*old(node)), lo, hi) ==> Self::bounded(
                    Some(*r.unwrap()),
                    lo,
                    hi,
                ),
    {
        if node.left.is_none() {
            return None;
        }
        let mut x = node.left.take().unwrap();
        let mut c = x.right.take();
        match &mut c {
            Some(cn) => {
                cn.parent = Some(node.key);
                cn.is_right_child = false;
            },
            None => {},
        }
        node.left = c;
        x.color = node.color;
        x.parent = node.parent;
        x.is_right_child = node.is_right_child;
        node.parent = Some(x.key);
        node.is_right_child = true;
        node.color = Color::Red;
        x.n = node.n;
        node.n = node.n();
        std::mem::swap(node, &mut x);
        node.right = Some(x);
        proof {
            old(node).lemma_rotated_right();
            assert(**node == old(node).rotated_right());
            Self::lemma_same_entries_bounded(Some(*old(node)), Some(*node));
        }
        Some(node)
    }

    /// Flips the colour of `n` and of its two children.
    pub fn flip_colors(n: &mut BoxedNode<T>)
        ensures
            **final(n) == old(n).flipped_colors(),
            Self::entries(Some(*final(n))) == Self::entries(Some(*old(n))),
            old(n).shaped_below() ==> final(n).shaped_below(),
            forall|lo: int, hi: int|
                Self::bounded(Some(*old(n)), lo, hi) ==> Self::bounded(Some(*final(n)), lo, hi),
    {
        match &mut n.left {
            Some(l) => {
                l.color = l.color.flip();
            },
            None => {},
        }
        match &mut n.right {
            Some(r) => {
                r.color = r.color.flip();
            },
            None => {},
        }
        n.color = n.color.flip();
        proof {
            old(n).lemma_flipped_colors();
            assert(**n == old(n).flipped_colors());
            Self::lemma_same_entries_bounded(Some(*old(n)), Some(*n));
        }
    }
    /// Repaints the two children black and `node` red.
    fn hand_up_red(node: &mut BoxedNode<T>)
        ensures
            **final(node) == (Node {
                left: Self::painted(old(node).left, Color::Black),
                right: Self::painted(old(node).right, Color::Black),
                color: Color::Red,
                ..**old(node)
            }),
            Self::entries(Some(*final(node))) == Self::entries(Some(*old(node))),
            old(node).shaped_below() ==> final(node).shaped_below(),
    {
        match &mut node.left {
            Some(l) => {
                l.color = Color::Black;
            },
            None => {},
        }
        match &mut node.right {
            Some(r) => {
                r.color = Color::Black;
            },
            None => {},
        }
        node.color = Color::Red;
        proof {
            Self::lemma_painted(old(node).left, Color::Black);
            Self::lemma_painted(old(node).right, Color::Black);
        }
    }

    /// Repairs the red-black shape at `node` after a change below it and
    /// counts its size anew.
    ///
    /// A red right child beside a black left child is rotated to the left;
    /// then two red links in a row on the left are rotated to the right; then
    /// two red children are painted black and `node` red.
    #[verifier::rlimit(40)]
    pub fn balance(node: &mut BoxedNode<T>)
        requires
            old(node).shaped_below(),
            Self::entries(Some(*old(node))).len() <= usize::MAX,
        ensures
            **final(node) == old(node).rebalanced(),
            Self::entries(Some(*final(node))) == Self::entries(Some(*old(node))),
            Self::shaped(Some(*final(node)), old(node).parent, old(node).is_right_child),
            forall|lo: int, hi: int|
                Self::bounded(Some(*old(node)), lo, hi) ==> Self::bounded(
                    Some(*final(node)),
                    lo,
                    hi,
                ),
    {
        proof {
            reveal(Node::rebalanced);
            reveal_with_fuel(Node::entries, 3);
            reveal_with_fuel(Node::shaped, 3);
        }
        if Node::red(&node.right) && !Node::red(&node.left) {
            Node::rotate_left(node);
        }
        let cond2 = match &node.left {
            Some(nl) => nl.color == Color::Red && Node::red(&nl.left),
            None => false,
        };
        if cond2 {
            Node::rotate_right(node);
        }
        if Node::red(&node.left) && Node::red(&node.right) {
            Node::hand_up_red(node);
        }
        proof {
            Self::lemma_shaped_size(node.left, Some(node.key), false);
            Self::lemma_shaped_size(node.right, Some(node.key), true);
        }
        node.n = node.n();
        proof {
            Self::lemma_same_entries_bounded(Some(*old(node)), Some(*node));
        }
    }

    /// Given a red `node` whose left child and that child's left child are
    /// black, makes the left child or one of its children red.
    #[verifier::rlimit(40)]
    pub fn move_red_left(node: &mut BoxedNode<T>)
        requires
            old(node).shaped_below(),
            Self::entries(Some(*old(node))).len() <= usize::MAX,
        ensures
            **final(node) == old(node).moved_red_left(),
            Self::entries(Some(*final(node))) == Self::entries(Some(*old(node))),
            final(node).shaped_below(),
            final(node).n == old(node).n,
            final(node).parent == old(node).parent,
            final(node).is_right_child == old(node).is_right_child,
            forall|lo: int, hi: int|
                Self::bounded(Some(*old(node)), lo, hi) ==> Self::bounded(
                    Some(*final(node)),
                    lo,
                    hi,
                ),
    {
        proof {
            reveal(Node::moved_red_left);
            reveal_with_fuel(Node::entries, 4);
            reveal_with_fuel(Node::shaped, 4);
        }
        Node::flip_colors(node);
        let mut turned = false;
        match &mut node.right {
            Some(nr) => {
                if Node::red(&nr.left) {
                    Node::rotate_right(nr);
                    turned = true;
                }
            },
            None => {},
        }
        if turned {
            Node::rotate_left(node);
            Node::flip_colors(node);
        }
        proof {
            Self::lemma_same_entries_bounded(Some(*old(node)), Some(*node));
        }
    }

    /// Given a red `node` whose right child and that child's left child are
    /// black, makes the right child or one of its children red.
    #[verifier::rlimit(40)]
    pub fn move_red_right(node: &mut BoxedNode<T>)
        requires
            old(node).shaped_below(),
            Self::entries(Some(*old(node))).len() <= usize::MAX,
        ensures
            **final(node) == old(node).moved_red_right(),
            Self::entries(Some(*final(node))) == Self::entries(Some(*old(node))),
            final(node).shaped_below(),
            final(node).n == old(node).n,
            final(node).parent == old(node).parent,
            final(node).is_right_child == old(node).is_right_child,
            forall|lo: int, hi: int|
                Self::bounded(Some(*old(node)), lo, hi) ==> Self::bounded(
                    Some(*final(node)),
                    lo,
                    hi,
                ),
    {
        proof {
            reveal(Node::moved_red_right);
            reveal_with_fuel(Node::entries, 4);
            reveal_with_fuel(Node::shaped, 4);
        }
        Node::flip_colors(node);
        let cond = match &node.left {
            Some(l) => Node::red(&l.left),
            None => false,
        };
        if cond {
            Node::rotate_right(node);
            Node::flip_colors(node);
        }
        proof {
            Self::lemma_same_entries_bounded(Some(*old(node)), Some(*node));
        }
    }
}

} // verus!
