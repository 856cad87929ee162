//! Tree nodes, what they stand for, and the shape of a sound tree.
use crate::model::{lemma_sorted_concat, lemma_sorted_len, sorted_within};
use crate::range::TextRange;
use vstd::prelude::*;

verus! {

/// The colour of the link from a node's parent to the node.
#[derive(Clone, Copy, Debug, PartialEq, Eq, Structural, PartialOrd, Ord)]
pub enum Color {
    Red,
    Black,
}

impl Color {
    /// The other colour.
    pub fn flip(&self) -> (r: Color)
        ensures
            r == self.flipped(),
    {
        match self {
            Color::Red => Color::Black,
            Color::Black => Color::Red,
        }
    }

    /// The other colour.
    pub open spec fn flipped(self) -> Color {
        match self {
            Color::Red => Color::Black,
            Color::Black => Color::Red,
        }
    }
}

/// A node of the tree with the subtrees below it.
///
/// `parent` names the node above by its key, and `is_right_child` says which
/// of that node's two places this node takes; `n` counts the nodes of the
/// subtree that starts here.
pub struct Node<T: Clone> {
    pub key: TextRange,
    pub val: T,
    pub left: MaybeNode<T>,
    pub right: MaybeNode<T>,
    pub color: Color,
    pub parent: Option<TextRange>,
    pub is_right_child: bool,
    pub n: usize,
}

pub type BoxedNode<T> = Box<Node<T>>;

pub type MaybeNode<T> = Option<BoxedNode<T>>;

impl<T: Clone> Node<T> {
    /// The subtree that starts at `self`, as its parent holds it.
    pub open spec fn link(self) -> MaybeNode<T> {
        Some(Box::new(self))
    }

    /// The entries of a subtree in key order.
    pub open spec fn entries(link: MaybeNode<T>) -> Seq<(TextRange, T)>
        decreases link,
    {
        match link {
            None => Seq::empty(),
            Some(b) => Self::entries(b.left).push((b.key, b.val)) + Self::entries(b.right),
        }
    }

    /// The subtree is a search tree whose keys lie inside `[lo, hi]`, hold a
    /// position each and do not overlap.
    pub open spec fn bounded(link: MaybeNode<T>, lo: int, hi: int) -> bool
        decreases link,
    {
        match link {
            None => true,
            Some(b) => {
                &&& lo <= b.key.start
                &&& b.key.start < b.key.end
                &&& b.key.end <= hi
                &&& Self::bounded(b.left, lo, b.key.start as int)
                &&& Self::bounded(b.right, b.key.end as int, hi)
            },
        }
    }

    /// The subtree is a search tree of keys that hold a position each and do
    /// not overlap.
    pub open spec fn ordered(link: MaybeNode<T>) -> bool {
        Self::bounded(link, 0, usize::MAX as int)
    }

    /// What the root of a subtree records as its size; 0 for no subtree.
    pub open spec fn size_of(link: MaybeNode<T>) -> nat {
        match link {
            None => 0,
            Some(b) => b.n as nat,
        }
    }

    /// The two subtrees of `self` are well shaped and refer back to `self`.
    pub open spec fn shaped_below(self) -> bool {
        &&& Self::shaped(self.left, Some(self.key), false)
        &&& Self::shaped(self.right, Some(self.key), true)
    }

    /// Every node of the subtree records the size of what starts at it, names
    /// its parent and knows which child it is.  The root of the subtree hangs
    /// below the node with key `parent`, on the right if `is_right`.
    pub open spec fn shaped(link: MaybeNode<T>, parent: Option<TextRange>, is_right: bool) -> bool
        decreases link,
    {
        match link {
            None => true,
            Some(b) => {
                &&& b.parent == parent
                &&& b.is_right_child == is_right
                &&& b.n == 1 + Self::entries(b.left).len() + Self::entries(b.right).len()
                &&& Self::shaped(b.left, Some(b.key), false)
                &&& Self::shaped(b.right, Some(b.key), true)
            },
        }
    }

    /// The link to the subtree is red.  A missing subtree counts as black.
    pub open spec fn is_red(link: MaybeNode<T>) -> bool {
        match link {
            None => false,
            Some(b) => b.color == Color::Red,
        }
    }

    /// The same subtree hung below another parent.
    pub open spec fn adopted(link: MaybeNode<T>, parent: Option<TextRange>, is_right: bool)
        -> MaybeNode<T> {
        match link {
            None => None,
            Some(b) => Some(Box::new(Node { parent: parent, is_right_child: is_right, ..*b })),
        }
    }

    /// The entries of a node are those of its left subtree, its own, and
    /// those of its right subtree.
    pub proof fn lemma_entries(self)
        ensures
            Self::entries(self.link()) == Self::entries(self.left).push((self.key, self.val))
                + Self::entries(self.right),
            Self::entries(self.link()).len() == Self::entries(self.left).len() + 1 + Self::entries(
                self.right,
            ).len(),
            Self::entries(self.link())[Self::entries(self.left).len() as int] == (
                self.key,
                self.val,
            ),
    {
    }

    /// A subtree is a search tree between two bounds exactly when its
    /// entries are sorted between them.
    pub proof fn lemma_bounded_sorted(link: MaybeNode<T>, lo: int, hi: int)
        ensures
            Self::bounded(link, lo, hi) <==> sorted_within(Self::entries(link), lo, hi),
        decreases link,
    {
        match link {
            None => {},
            Some(b) => {
                Self::lemma_bounded_sorted(b.left, lo, b.key.start as int);
                Self::lemma_bounded_sorted(b.right, b.key.end as int, hi);
                lemma_sorted_concat(
                    Self::entries(b.left),
                    (b.key, b.val),
                    Self::entries(b.right),
                    lo,
                    hi,
                );
            },
        }
    }

    /// A search tree inside `[lo, hi]` has at most `hi - lo` nodes.
    pub proof fn lemma_bounded_len(link: MaybeNode<T>, lo: int, hi: int)
        requires
            Self::bounded(link, lo, hi),
            lo <= hi,
        ensures
            Self::entries(link).len() <= hi - lo,
    {
        Self::lemma_bounded_sorted(link, lo, hi);
        lemma_sorted_len(Self::entries(link), lo, hi);
    }

    /// Whether the link to `node` is red.
    #[inline]
    pub fn red(node: &MaybeNode<T>) -> (r: bool)
        ensures
            r == Self::is_red(*node),
    {
        match node {
            Some(n) => n.color == Color::Red,
            None => false,
        }
    }

    /// A red node without children that has no parent.
    #[inline]
    pub fn new(key: TextRange, val: T) -> (r: Self)
        ensures
            r == (Node {
                key,
                val,
                left: None,
                right: None,
                color: Color::Red,
                parent: None,
                is_right_child: false,
                n: 1,
            }),
    {
        Self::new_with_parent(key, val, None, false)
    }

    /// A red node without children below the node with key `parent`.
    #[inline]
    pub fn new_with_parent(
        key: TextRange,
        val: T,
        parent: Option<TextRange>,
        is_right_child: bool,
    ) -> (r: Node<T>)
        ensures
            r == (Node {
                key,
                val,
                left: None,
                right: None,
                color: Color::Red,
                parent,
                is_right_child,
                n: 1,
            }),
    {
        Self { key, val, left: None, right: None, color: Color::Red, n: 1, parent, is_right_child }
    }

    /// `new`, boxed.
    #[inline]
    pub fn new_boxed(key: TextRange, val: T) -> (r: BoxedNode<T>)
        ensures
            *r == (Node {
                key,
                val,
                left: None,
                right: None,
                color: Color::Red,
                parent: None,
                is_right_child: false,
                n: 1,
            }),
    {
        Box::new(Self::new(key, val))
    }

    /// `new_with_parent`, boxed.
    #[inline]
    pub fn new_boxed_with_parent(
        key: TextRange,
        val: T,
        parent: Option<TextRange>,
        is_right_child: bool,
    ) -> (r: BoxedNode<T>)
        ensures
            *r == (Node {
                key,
                val,
                left: None,
                right: None,
                color: Color::Red,
                parent,
                is_right_child,
                n: 1,
            }),
    {
        Box::new(Self::new_with_parent(key, val, parent, is_right_child))
    }

    /// Records `parent` as the node above `self`.
    #[inline]
    pub fn set_parent(&mut self, parent: &Node<T>)
        ensures
            *final(self) == (Node { parent: Some(parent.key), ..*old(self) }),
    {
        self.parent = Some(parent.key);
    }

    /// The number of nodes in this subtree, from the sizes that the two
    /// children record.
    #[inline]
    pub fn n(&self) -> (r: usize)
        requires
            1 + Self::size_of(self.left) + Self::size_of(self.right) <= usize::MAX,
        ensures
            r == 1 + Self::size_of(self.left) + Self::size_of(self.right),
    {
        let l: usize = match self.left {
            Some(ref n) => n.n,
            None => 0,
        };
        let r: usize = match self.right {
            Some(ref n) => n.n,
            None => 0,
        };
        1 + l + r
    }
}

impl<T: Clone> Node<T> {
    /// The subtree `b` is a copy of the subtree `a`: node for node it has
    /// the same key, colour, size and back-reference, and a clone of the
    /// value.
    pub open spec fn copied(a: MaybeNode<T>, b: MaybeNode<T>) -> bool
        decreases a,
    {
        match a {
            None => b.is_none(),
            Some(x) => b.is_some() && {
                let y = b.unwrap();
                &&& y.key == x.key
                &&& cloned(x.val, y.val)
                &&& y.color == x.color
                &&& y.parent == x.parent
                &&& y.is_right_child == x.is_right_child
                &&& y.n == x.n
                &&& Self::copied(x.left, y.left)
                &&& Self::copied(x.right, y.right)
            },
        }
    }
}

impl<T: Clone> Clone for Node<T> {
    /// A copy of the node and of all that hangs below it.
    fn clone(&self) -> (r: Self)
        ensures
            Node::copied(self.link(), r.link()),
        decreases self,
    {
        let left = match &self.left {
            Some(n) => {
                let c = (&**n).clone();
                proof {
                    assert(n.link() == self.left);
                }
                Some(Box::new(c))
            },
            None => None,
        };
        let right = match &self.right {
            Some(n) => {
                let c = (&**n).clone();
                proof {
                    assert(n.link() == self.right);
                }
                Some(Box::new(c))
            },
            None => None,
        };
        proof {
            assert(Node::copied(self.left, left));
            assert(Node::copied(self.right, right));
        }
        Node {
            key: self.key,
            val: self.val.clone(),
            left,
            right,
            color: self.color,
            parent: self.parent,
            is_right_child: self.is_right_child,
            n: self.n,
        }
    }
}

} // verus!
