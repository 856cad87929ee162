//! What holds of every sound tree and of every run of the operations.
use crate::model::{
    added, advanced, clone_chain, copy_of, lemma_key_unique, removed, room_for, shifted, sorted,
};
use crate::node::{MaybeNode, Node};
use crate::range::TextRange;
use crate::tree::IntervalTree;
use vstd::prelude::*;

verus! {

impl<T: Clone> Node<T> {
    /// In a well shaped tree every node records the number of nodes of the
    /// subtree that starts at it, and each child of a node names that node as
    /// its parent and knows on which side of it it hangs.
    pub proof fn lemma_shaped_everywhere(
        link: MaybeNode<T>,
        parent: Option<TextRange>,
        is_right: bool,
        node: Node<T>,
    )
        requires
            Self::shaped(link, parent, is_right),
            Self::holds(link, node),
        ensures
            node.n == Self::entries(node.link()).len(),
            node.n == 1 + Self::size_of(node.left) + Self::size_of(node.right),
            node.left.is_some() ==> node.left.unwrap().parent == Some(node.key)
                && !node.left.unwrap().is_right_child,
            node.right.is_some() ==> node.right.unwrap().parent == Some(node.key)
                && node.right.unwrap().is_right_child,
        decreases link,
    {
        match link {
            None => {},
            Some(b) => {
                if *b == node {
                    reveal_with_fuel(Node::shaped, 2);
                    node.lemma_entries();
                    Self::lemma_shaped_size(node.left, Some(node.key), false);
                    Self::lemma_shaped_size(node.right, Some(node.key), true);
                } else if Self::holds(b.left, node) {
                    Self::lemma_shaped_everywhere(b.left, Some(b.key), false, node);
                } else {
                    Self::lemma_shaped_everywhere(b.right, Some(b.key), true, node);
                }
            },
        }
    }
}

impl<T: Clone> IntervalTree<T> {
    /// No two intervals of a sound tree overlap.
    pub proof fn lemma_no_overlap(&self, i: int, j: int)
        requires
            self.wf(),
            0 <= i < self@.len(),
            0 <= j < self@.len(),
            i != j,
        ensures
            !self@[i].0.overlaps(self@[j].0),
    {
        self.lemma_wf_sorted();
        if i < j {
            assert(self@[i].0.end <= self@[j].0.start);
        } else {
            assert(self@[j].0.end <= self@[i].0.start);
        }
    }

    /// A walk through a sound tree in key order meets the keys in strictly
    /// ascending order.
    pub proof fn lemma_ascending(&self, i: int, j: int)
        requires
            self.wf(),
            0 <= i < j < self@.len(),
        ensures
            self@[i].0.lex_lt(self@[j].0),
    {
        self.lemma_wf_sorted();
        assert(self@[i].0.end <= self@[j].0.start);
        assert(self@[i].0.start < self@[i].0.end);
    }

    /// In a sound tree every node records the number of nodes of the subtree
    /// that starts at it.  For the root this is the number of intervals.
    pub proof fn lemma_sizes(&self, node: Node<T>)
        requires
            self.wf(),
            Node::holds(self.root, node),
        ensures
            node.n == Node::entries(node.link()).len(),
            Node::size_of(self.root) == self@.len(),
    {
        self.lemma_wf();
        Node::lemma_shaped_everywhere(self.root, None, false, node);
        Node::lemma_shaped_size(self.root, None, false);
    }

    /// In a sound tree each child of a node names that node as its parent
    /// and knows on which side of it it hangs; the root names no parent.
    pub proof fn lemma_back_references(&self, node: Node<T>)
        requires
            self.wf(),
            Node::holds(self.root, node),
        ensures
            node.left.is_some() ==> node.left.unwrap().parent == Some(node.key)
                && !node.left.unwrap().is_right_child,
            node.right.is_some() ==> node.right.unwrap().parent == Some(node.key)
                && node.right.unwrap().is_right_child,
            self.root.is_some() ==> self.root.unwrap().parent.is_none(),
    {
        self.lemma_wf();
        Node::lemma_shaped_everywhere(self.root, None, false, node);
    }
}

/// Putting in an interval that overlaps none and deleting it again gives
/// back the entries as they were; the value that comes out is a clone of
/// the value that went in.
pub proof fn lemma_insert_then_delete<T: Clone>(
    before: Seq<(TextRange, T)>,
    between: Seq<(TextRange, T)>,
    after: Seq<(TextRange, T)>,
    key: TextRange,
    val: T,
    out: T,
)
    requires
        sorted(between),
        added(before, between, key, val),
        removed(between, after, key, out),
    ensures
        after == before,
        cloned(val, out),
{
    let (i, v) = choose|i: int, v: T|
        0 <= i <= before.len() && cloned(val, v) && #[trigger] before.insert(i, (key, v))
            == between;
    let j = choose|j: int|
        0 <= j < between.len() && #[trigger] between[j] == (key, out) && after == between.remove(j);
    assert(between[i] == (key, v));
    lemma_key_unique(between, i, j);
    assert(before.insert(i, (key, v)).remove(i) =~= before);
}

/// Putting no positions into the text moves nothing.
pub proof fn lemma_advance_nothing<T>(s: Seq<(TextRange, T)>, p: int)
    ensures
        advanced(s, p, 0) == s,
{
    assert(advanced(s, p, 0) =~= s);
}

/// Putting `a` positions into the text at `p` and then `b` more at the same
/// place moves the intervals as putting in `a + b` at once does.
pub proof fn lemma_advance_twice<T>(s: Seq<(TextRange, T)>, p: int, a: int, b: int)
    requires
        0 <= a,
        0 <= b,
        0 <= p,
        room_for(s, p, a + b),
        forall|i: int| 0 <= i < s.len() ==> (#[trigger] s[i]).0.valid(),
    ensures
        room_for(s, p, a),
        room_for(advanced(s, p, a), p, b),
        advanced(advanced(s, p, a), p, b) == advanced(s, p, a + b),
{
    let t = advanced(s, p, a);
    assert forall|i: int| 0 <= i < t.len() && (#[trigger] t[i]).0.end > p implies t[i].0.end + b
        <= usize::MAX by {
        assert(t[i].0 == shifted(s[i].0, p, a));
        assert(s[i].0.valid());
    }
    assert forall|i: int| 0 <= i < s.len() implies #[trigger] advanced(t, p, b)[i] == advanced(
        s,
        p,
        a + b,
    )[i] by {
        assert(t[i].0 == shifted(s[i].0, p, a));
        assert(s[i].0.valid());
    }
    assert(advanced(t, p, b) =~= advanced(s, p, a + b));
}

/// Where cloning gives back the value itself, a copy is the value itself:
/// for such values what the operations say of copies holds of the values.
pub proof fn lemma_copy_exact<T: Clone>(a: T, b: T)
    requires
        forall|x: T, y: T| #[trigger] cloned(x, y) ==> x == y,
        copy_of(a, b),
    ensures
        a == b,
{
    let c = choose|c: Seq<T>| clone_chain(c, a, b);
    lemma_chain_exact(c, a, b, c.len() - 1);
}

/// Every value of a chain of clones is the first, where cloning gives back
/// the value itself.
proof fn lemma_chain_exact<T: Clone>(c: Seq<T>, a: T, b: T, i: int)
    requires
        forall|x: T, y: T| #[trigger] cloned(x, y) ==> x == y,
        clone_chain(c, a, b),
        0 <= i < c.len(),
    ensures
        c[i] == a,
    decreases i,
{
    if i > 0 {
        lemma_chain_exact(c, a, b, i - 1);
        assert(cloned(c[i - 1], c[i - 1 + 1]));
    }
}

} // verus!
