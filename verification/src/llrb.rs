//! The red-black shape: left-leaning, with black links in balance.
use crate::node::{Color, MaybeNode, Node};
use vstd::prelude::*;

verus! {

impl<T: Clone> Node<T> {
    /// The number of black links on the way from above a subtree down its
    /// left side to a missing child.
    pub open spec fn black_height(link: MaybeNode<T>) -> nat
        decreases link,
    {
        match link {
            None => 0,
            Some(b) => Self::black_height(b.left) + if b.color == Color::Black {
                1nat
            } else {
                0nat
            },
        }
    }

    /// The two subtrees of `self` are left-leaning red-black trees with as
    /// many black links on every way down the one as on every way down the
    /// other.
    pub open spec fn balanced_below(self) -> bool {
        &&& Self::llrb(self.left)
        &&& Self::llrb(self.right)
        &&& Self::black_height(self.left) == Self::black_height(self.right)
    }

    /// The subtree is a left-leaning red-black tree: no red link leans to
    /// the right, no two red links follow one another, and every way from
    /// the top down to a missing child crosses as many black links as any
    /// other.
    pub open spec fn llrb(link: MaybeNode<T>) -> bool
        decreases link,
    {
        match link {
            None => true,
            Some(b) => {
                &&& Self::llrb(b.left)
                &&& Self::llrb(b.right)
                &&& Self::black_height(b.left) == Self::black_height(b.right)
                &&& !Self::is_red(b.right)
                &&& !(b.color == Color::Red && Self::is_red(b.left))
            },
        }
    }

    /// A left-leaning red-black tree but for its top, where a red link may
    /// be followed by a red link to the left.
    pub open spec fn almost(link: MaybeNode<T>) -> bool {
        match link {
            None => true,
            Some(b) => b.balanced_below() && !Self::is_red(b.right),
        }
    }

    /// What putting a key into the red-black tree `old` makes of its shape:
    /// `new` has as many black links, and is a red-black tree but for a red
    /// link at the top of `old` that may now be followed by another.
    pub open spec fn grew(old: MaybeNode<T>, new: MaybeNode<T>) -> bool {
        &&& Self::almost(new)
        &&& Self::black_height(new) == Self::black_height(old)
        &&& !Self::is_red(old) ==> Self::llrb(new)
    }

    /// A node below whose left or right subtree a key has just been put in,
    /// before the repair at the node.
    pub open spec fn grown_below(self) -> bool {
        ||| (Self::llrb(self.right) && !Self::is_red(self.right) && Self::almost(self.left)
            && Self::black_height(self.left) == Self::black_height(self.right) && (self.color
            == Color::Red ==> Self::llrb(self.left)))
        ||| (self.balanced_below() && !(self.color == Color::Red && Self::is_red(self.left)))
    }

    /// The repair after putting a key in below a node restores the red-black
    /// shape, up to a red link at the top.
    #[verifier::rlimit(40)]
    pub proof fn lemma_rebalanced_grown(self)
        requires
            self.grown_below(),
        ensures
            Self::almost(self.rebalanced().link()),
            Self::black_height(self.rebalanced().link()) == Self::black_height(self.link()),
            self.color == Color::Black ==> Self::llrb(self.rebalanced().link()),
    {
        reveal(Node::rebalanced);
        reveal_with_fuel(Node::llrb, 4);
        reveal_with_fuel(Node::black_height, 4);
    }

    /// The repair leaves a red-black tree as it is, but for the size that it
    /// counts anew.
    pub proof fn lemma_rebalanced_settled(self)
        requires
            Self::llrb(self.link()),
        ensures
            self.rebalanced() == (Node {
                n: (1 + Self::size_of(self.left) + Self::size_of(self.right)) as usize,
                ..self
            }),
            Self::llrb(self.rebalanced().link()),
            Self::black_height(self.rebalanced().link()) == Self::black_height(self.link()),
    {
        reveal(Node::rebalanced);
        reveal_with_fuel(Node::llrb, 3);
    }

    /// What putting a key in has made of the shape of the red-black tree
    /// `old`: `new` has no fewer nodes; with as many nodes it has the
    /// colours of `old`; with one node more it has grown as `grew` says.
    /// With more than one node more, the nodes have come in at once on
    /// several sides, and nothing is said of the colours.
    pub open spec fn stepped(old: MaybeNode<T>, new: MaybeNode<T>) -> bool {
        &&& Self::entries(new).len() >= Self::entries(old).len()
        &&& Self::entries(new).len() == Self::entries(old).len() ==> Self::looks_like(new, old)
        &&& Self::entries(new).len() == Self::entries(old).len() + 1 ==> Self::grew(old, new)
    }

    /// The shape after a key was put in below the node `o`, which has
    /// become the node `m` before the repair and the node `x` after it.
    pub proof fn lemma_insert_shape(o: Node<T>, m: Node<T>, x: Node<T>)
        requires
            Self::llrb(o.link()),
            m.color == o.color,
            Self::stepped(o.left, m.left),
            Self::stepped(o.right, m.right),
            x == m.rebalanced(),
            Self::entries(x.link()) == Self::entries(m.link()),
        ensures
            Self::stepped(o.link(), x.link()),
    {
        o.lemma_entries();
        m.lemma_entries();
        let dl = Self::entries(m.left).len() - Self::entries(o.left).len();
        let dr = Self::entries(m.right).len() - Self::entries(o.right).len();
        if dl == 0 && dr == 0 {
            assert(Self::llrb(m.link()));
            m.lemma_rebalanced_settled();
        } else if dl + dr == 1 {
            assert(m.grown_below());
            m.lemma_rebalanced_grown();
        }
    }

    /// A fresh red node is a red-black tree without black links.
    pub proof fn lemma_leaf_shape(leaf: Node<T>)
        requires
            leaf.left.is_none(),
            leaf.right.is_none(),
            leaf.color == Color::Red,
        ensures
            Self::grew(None, leaf.link()),
            Self::stepped(None, leaf.link()),
    {
        reveal_with_fuel(Node::llrb, 2);
        reveal_with_fuel(Node::black_height, 2);
    }

    /// Painting the top of a tree black makes a red-black tree of one that
    /// was one but for its top.
    pub proof fn lemma_painted_black(link: MaybeNode<T>)
        requires
            Self::almost(link),
        ensures
            Self::llrb(Self::painted(link, Color::Black)),
            !Self::is_red(Self::painted(link, Color::Black)),
    {
    }

    /// The subtree is ready for the deletion of its least node: a red-black
    /// tree whose top link or the link to the left below it is red.
    pub open spec fn ready(link: MaybeNode<T>) -> bool {
        match link {
            None => true,
            Some(b) => Self::llrb(link) && (b.color == Color::Red || Self::is_red(b.left)),
        }
    }

    /// The subtree is ready for a deletion on its right side: its two
    /// subtrees are red-black trees in balance, and exactly one of the top
    /// link and the two links below it is red.
    pub open spec fn ready_max(link: MaybeNode<T>) -> bool {
        match link {
            None => true,
            Some(b) => b.balanced_below() && if b.color == Color::Red {
                !Self::is_red(b.left) && !Self::is_red(b.right)
            } else {
                Self::is_red(b.left) != Self::is_red(b.right)
            },
        }
    }

    /// The subtree is ready for the deletion of `key`: as `ready_max`, and
    /// where the link to the right is the red one, `key` does not come
    /// before the key at the top.
    pub open spec fn ready_for(link: MaybeNode<T>, key: crate::range::TextRange) -> bool {
        match link {
            None => true,
            Some(b) => Self::ready_max(link) && (Self::is_red(b.right) ==> !key.lex_lt(b.key)),
        }
    }

    /// What a deletion makes of the shape of a subtree that was ready for
    /// it: `new` is a red-black tree with as many black links as `old`, and
    /// its top link is black if that of `old` was.
    pub open spec fn settled(old: MaybeNode<T>, new: MaybeNode<T>) -> bool {
        &&& Self::llrb(new)
        &&& Self::black_height(new) == Self::black_height(old)
        &&& !Self::is_red(old) ==> !Self::is_red(new)
    }

    /// The two subtrees have the same colour at the top and as many black
    /// links, and one is a red-black tree if the other is.
    pub open spec fn looks_like(a: MaybeNode<T>, b: MaybeNode<T>) -> bool {
        &&& Self::llrb(a) == Self::llrb(b)
        &&& Self::black_height(a) == Self::black_height(b)
        &&& Self::is_red(a) == Self::is_red(b)
    }

    /// Red is pushed to the left before a deletion goes down to the left of
    /// a node whose left child and that child's left child are black.
    pub open spec fn pushes_left(self) -> bool {
        self.left.is_some() && self.left.unwrap().color == Color::Black && !Self::is_red(
            self.left.unwrap().left,
        )
    }

    /// Red is pushed to the right before a deletion goes down to the right
    /// of a node whose right child and that child's left child are black.
    pub open spec fn pushes_right(self) -> bool {
        self.right.is_none() || (self.right.unwrap().color == Color::Black && !Self::is_red(
            self.right.unwrap().left,
        ))
    }

    /// The node as a deletion that goes down to its left leaves it on the
    /// way down.
    pub open spec fn left_descended(self) -> Node<T> {
        if self.pushes_left() {
            self.moved_red_left()
        } else {
            self
        }
    }

    /// The node after the turn that a deletion on the right side starts
    /// with: a red link to the left is rotated to the right.
    pub open spec fn right_turned(self) -> Node<T> {
        if Self::is_red(self.left) {
            self.rotated_right()
        } else {
            self
        }
    }

    /// The node as a deletion that goes down to its right leaves it on the
    /// way down, after the turn.
    pub open spec fn right_descended(self) -> Node<T> {
        if self.pushes_right() {
            self.moved_red_right()
        } else {
            self
        }
    }

    /// On the way down to the left the subtree to go into is ready.
    #[verifier::rlimit(40)]
    pub proof fn lemma_left_down(self)
        requires
            self.left.is_some(),
            Self::ready(self.link()),
        ensures
            self.left_descended().left.is_some(),
            Self::ready(self.left_descended().left),
    {
        reveal(Node::moved_red_left);
        reveal_with_fuel(Node::llrb, 4);
        reveal_with_fuel(Node::black_height, 4);
    }

    /// On the way back up from the left the repair settles the shape.
    #[verifier::rlimit(40)]
    pub proof fn lemma_left_up(self, x: Node<T>)
        requires
            self.left.is_some(),
            Self::ready(self.link()),
            x.color == self.left_descended().color,
            Self::looks_like(x.right, self.left_descended().right),
            Self::settled(self.left_descended().left, x.left),
        ensures
            Self::settled(self.link(), x.rebalanced().link()),
    {
        reveal(Node::moved_red_left);
        reveal(Node::rebalanced);
        reveal_with_fuel(Node::llrb, 4);
        reveal_with_fuel(Node::black_height, 4);
    }

    /// The turn at the start of a deletion on the right side keeps a subtree
    /// ready and leaves its left link black.
    pub proof fn lemma_right_turn(self)
        requires
            Self::ready_max(self.link()),
        ensures
            Self::ready_max(self.right_turned().link()),
            !Self::is_red(self.right_turned().left),
            Self::black_height(self.right_turned().link()) == Self::black_height(self.link()),
            self.right_turned().color == self.color,
    {
        reveal_with_fuel(Node::llrb, 3);
        reveal_with_fuel(Node::black_height, 3);
    }

    /// A node that is ready and has a black link to the left and no child on
    /// one side is a red node without children.
    pub proof fn lemma_single(self)
        requires
            Self::ready_max(self.link()),
            !Self::is_red(self.left),
            self.right.is_none() || (self.left.is_none() && !Self::is_red(self.right)),
        ensures
            self.left.is_none(),
            self.right.is_none(),
            self.color == Color::Red,
            Self::settled(self.link(), None),
    {
        reveal_with_fuel(Node::llrb, 2);
        reveal_with_fuel(Node::black_height, 2);
    }

    /// A subtree that is ready with red on top or to the left is ready for
    /// the deletion of its least node.
    pub proof fn lemma_ready(link: MaybeNode<T>)
        requires
            Self::ready_max(link),
            link.is_some() ==> !Self::is_red(link.unwrap().right),
        ensures
            Self::ready(link),
            Self::ready(link) ==> Self::ready_max(link),
    {
    }

    /// On the way down to the right the subtree to go into is ready.  Where
    /// it has a red link to its right, it is the node that was on top.
    #[verifier::rlimit(40)]
    pub proof fn lemma_right_down(self)
        requires
            Self::ready_max(self.link()),
            !Self::is_red(self.left),
            self.right.is_some(),
        ensures
            self.right_descended().right.is_some(),
            Self::ready_max(self.right_descended().right),
            Self::is_red(self.right_descended().right.unwrap().right)
                ==> self.right_descended().right.unwrap().key == self.key,
            self.right_descended().key == self.key || (self.left.is_some()
                && self.right_descended().key == self.left.unwrap().key),
    {
        reveal(Node::moved_red_right);
        reveal_with_fuel(Node::llrb, 4);
        reveal_with_fuel(Node::black_height, 4);
    }

    /// On the way back up from the right the repair settles the shape.
    #[verifier::rlimit(40)]
    pub proof fn lemma_right_up(self, x: Node<T>)
        requires
            Self::ready_max(self.link()),
            !Self::is_red(self.left),
            self.right.is_some(),
            x.color == self.right_descended().color,
            Self::looks_like(x.left, self.right_descended().left),
            Self::settled(self.right_descended().right, x.right),
        ensures
            Self::settled(self.link(), x.rebalanced().link()),
    {
        reveal(Node::moved_red_right);
        reveal(Node::rebalanced);
        reveal_with_fuel(Node::llrb, 4);
        reveal_with_fuel(Node::black_height, 4);
    }

    /// Hanging a subtree below another parent, or giving its parent another
    /// name, changes nothing of its colours.
    pub proof fn lemma_adopted_shape(
        link: MaybeNode<T>,
        parent: Option<crate::range::TextRange>,
        is_right: bool,
        key: crate::range::TextRange,
    )
        ensures
            Self::looks_like(Self::adopted(link, parent, is_right), link),
            Self::looks_like(Self::renamed_parent(link, key), link),
            Self::ready(link) ==> Self::ready(Self::renamed_parent(link, key)),
    {
    }

    /// A red-black tree with a black top is ready for a deletion once its top
    /// is painted red where both links below it are black.
    pub proof fn lemma_reddened(link: MaybeNode<T>)
        requires
            Self::llrb(link),
            !Self::is_red(link),
        ensures
            link.is_some() && !Self::is_red(link.unwrap().left) && !Self::is_red(
                link.unwrap().right,
            ) ==> Self::ready(Self::painted(link, Color::Red)),
            link.is_some() && (Self::is_red(link.unwrap().left) || Self::is_red(
                link.unwrap().right,
            )) ==> Self::ready(link),
            Self::llrb(Self::painted(link, Color::Black)),
            forall|new: MaybeNode<T>|
                Self::llrb(new) ==> Self::llrb(#[trigger] Self::painted(new, Color::Black))
                    && !Self::is_red(Self::painted(new, Color::Black)),
    {
    }

    /// A subtree that is ready for the deletion of its least node is ready
    /// for the deletion of any key.
    pub proof fn lemma_ready_for(link: MaybeNode<T>, key: crate::range::TextRange)
        requires
            Self::ready(link),
        ensures
            Self::ready_max(link),
            Self::ready_for(link, key),
    {
    }
}

} // verus!
