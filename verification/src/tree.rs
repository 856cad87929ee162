//! The interval tree.
use crate::model::{
    added, advanced, covers, fits_at, has_key, inserted, kept, lemma_advanced_sorted, lemma_fits,
    lemma_key_unique, lemma_sorted_at, lemma_sorted_remove, lemma_sorted_rest, lemma_sorted_update,
    meets, merged_at, removed, room_for, sorted,
};
use crate::node::{BoxedNode, Color, MaybeNode, Node};
use crate::range::TextRange;
use vstd::prelude::*;

verus! {

/// An interval tree on a red-black tree, from intervals of text to values.
///
/// All intervals are half-open, `[start, end)`, and are kept in the order of
/// their starting points.  When an interval is put in that overlaps stored
/// ones without being equal to one, both are cut into parts, so the stored
/// intervals never overlap.  Neighbours with equal values are joined only on
/// request, by `merge` or `clean`.
pub struct IntervalTree<T: Clone> {
    pub root: MaybeNode<T>,
}

impl<T: Clone> View for IntervalTree<T> {
    type V = Seq<(TextRange, T)>;

    /// The stored intervals with their values, in key order.
    open spec fn view(&self) -> Seq<(TextRange, T)> {
        Node::entries(self.root)
    }
}

impl<T: Clone> Default for IntervalTree<T> {
    /// The empty tree.
    fn default() -> (r: Self)
        ensures
            r.wf(),
            r.is_llrb(),
            r@ == Seq::<(TextRange, T)>::empty(),
    {
        IntervalTree { root: None }
    }
}

impl<T: Clone> IntervalTree<T> {
    /// The tree is sound: a search tree of keys that hold a position each and
    /// do not overlap, in which every node records the size of the subtree
    /// below it, names its parent and knows which child it is.
    pub closed spec fn wf(&self) -> bool {
        &&& Node::ordered(self.root)
        &&& Node::shaped(self.root, None, false)
    }

    /// The tree is a left-leaning red-black tree with a black root.
    pub open spec fn is_llrb(&self) -> bool {
        Node::llrb(self.root) && !Node::is_red(self.root)
    }

    /// What soundness means for the nodes: the root starts a search tree and
    /// a well shaped tree, and names no parent.
    pub proof fn lemma_wf(&self)
        ensures
            self.wf() <==> Node::ordered(self.root) && Node::shaped(self.root, None, false),
    {
    }

    /// In a sound tree every key holds a position, and the entries on
    /// either side of an entry lie on either side of its key.
    pub proof fn lemma_wf_at(&self, i: int)
        requires
            self.wf(),
            0 <= i < self@.len(),
        ensures
            self@[i].0.start < self@[i].0.end,
            i > 0 ==> self@[i - 1].0.end <= self@[i].0.start,
            i + 1 < self@.len() ==> self@[i].0.end <= self@[i + 1].0.start,
    {
        self.lemma_wf_sorted();
        lemma_sorted_at(self@, i);
    }

    /// The keys of a sound tree come in ascending order without overlap.
    pub proof fn lemma_wf_sorted(&self)
        requires
            self.wf(),
        ensures
            sorted(self@),
    {
        Node::lemma_bounded_sorted(self.root, 0, usize::MAX as int);
    }

    /// Creates an empty interval tree.
    pub fn new() -> (r: Self)
        ensures
            r.wf(),
            r.is_llrb(),
            r@ == Seq::<(TextRange, T)>::empty(),
    {
        Self { root: None }
    }

    /// Puts the interval `key` with the value `val` into the tree and gives
    /// back the root of the tree, which is black.  An interval without
    /// positions is not put in, and the result is `None`.
    ///
    /// Where `key` overlaps stored intervals, they and `key` are cut along
    /// each other's borders.  A part that only `key` covers gets a copy of
    /// `val`; a part that only a stored interval covers keeps a copy of its
    /// value; a part that both cover gets what `merge_fn` makes of a copy of
    /// `val` and a copy of the stored value, in this order.  Intervals that
    /// `key` does not overlap stay as they are.
    ///
    /// A key that cuts stored intervals goes in piece by piece, each piece
    /// from the root with its own repair on the way back, so the tree stays
    /// a red-black tree.
    pub fn insert<F: Fn(T, T) -> T>(&mut self, key: TextRange, val: T, merge_fn: F) -> (r: Option<
        &mut BoxedNode<T>,
    >)
        requires
            old(self).wf(),
            key.valid(),
            forall|a: T, b: T| call_requires(merge_fn, (a, b)),
        ensures
            key.is_empty() ==> r.is_none() && *final(self) == *old(self),
            !key.is_empty() ==> r.is_some() && final(self).root == Some(*final(r.unwrap())),
            !key.is_empty() ==> (IntervalTree { root: Some(*r.unwrap()) }).wf(),
            !key.is_empty() ==> r.unwrap().color == Color::Black,
            !key.is_empty() ==> inserted(
                old(self)@,
                Node::entries(Some(*r.unwrap())),
                key,
                val,
                merge_fn,
            ),
            !key.is_empty() && !meets(old(self)@, key) ==> added(
                old(self)@,
                Node::entries(Some(*r.unwrap())),
                key,
                val,
            ),
            !key.is_empty() ==> kept(old(self)@, Node::entries(Some(*r.unwrap())), key),
            !key.is_empty() && has_key(old(self)@, key) ==> merged_at(
                old(self)@,
                Node::entries(Some(*r.unwrap())),
                key,
                val,
                merge_fn,
            ),
            !key.is_empty() && old(self).is_llrb() ==> (IntervalTree {
                root: Some(*r.unwrap()),
            }).is_llrb(),
    {
        if key.start == key.end {
            return None;
        }
        self.put_in(key, val, &merge_fn);
        self.root.as_mut()
    }

    /// Puts `key` with `val` into the tree in one go from the root, as
    /// `Node::insert_at` does it, and paints the root black.
    ///
    /// The tree stays a red-black tree where at most one node comes in, as
    /// it is when `key` is a stored interval or overlaps none.  A key that
    /// cuts intervals can bring in several nodes at once, and the one repair
    /// on the way back does not always restore the balance of colours.
    #[verifier::rlimit(40)]
    pub(crate) fn insert_at_root<F: Fn(T, T) -> T>(
        &mut self,
        key: TextRange,
        val: T,
        merge_fn: &F,
    )
        requires
            old(self).wf(),
            key.start < key.end,
            forall|a: T, b: T| call_requires(*merge_fn, (a, b)),
        ensures
            final(self).wf(),
            final(self).root.is_some(),
            final(self).root.unwrap().color == Color::Black,
            inserted(old(self)@, final(self)@, key, val, *merge_fn),
            !meets(old(self)@, key) ==> added(old(self)@, final(self)@, key, val),
            kept(old(self)@, final(self)@, key),
            has_key(old(self)@, key) ==> merged_at(
                old(self)@,
                final(self)@,
                key,
                val,
                *merge_fn,
            ),
            old(self).is_llrb() && final(self)@.len() <= old(self)@.len() + 1
                ==> final(self).is_llrb(),
    {
        let result = Node::insert_at(&mut self.root, key, val, None, false, merge_fn);
        match result {
            Some(n) => {
                let ghost before = *n;
                n.color = Color::Black;
                proof {
                    Node::lemma_painted(Some(before), Color::Black);
                    Node::lemma_same_entries_bounded(Some(before), Some(*n));
                    if old(self).is_llrb() && Node::entries(Some(before)).len() <= old(self)@.len()
                        + 1 {
                        Node::lemma_painted_black(Some(before));
                    }
                }
            },
            None => {},
        }
    }

    /// A clone of the value stored under exactly `key`, if there is one.
    pub fn get(&self, key: TextRange) -> (r: Option<T>)
        requires
            self.wf(),
        ensures
            match r {
                Some(v) => exists|i: int|
                    0 <= i < self@.len() && (#[trigger] self@[i]).0 == key && cloned(
                        self@[i].1,
                        v,
                    ),
                None => !has_key(self@, key),
            },
    {
        match &self.root {
            Some(r) => {
                let found = r.get(key);
                proof {
                    assert(r.link() == self.root);
                    let s = Node::entries(r.link());
                    assert(s == self@);
                    if found.is_some() {
                        let i = choose|i: int|
                            0 <= i < s.len() && (#[trigger] s[i]).0 == key && cloned(
                                s[i].1,
                                found.unwrap(),
                            );
                        assert(self@[i].0 == key);
                    }
                }
                found
            },
            None => None,
        }
    }

    /// The node with the least key, or `None` if the tree is empty.
    pub fn min(&self) -> (r: Option<&Node<T>>)
        ensures
            match r {
                Some(n) => self@.len() > 0 && (n.key, n.val) == self@[0] && Node::holds(
                    self.root,
                    *n,
                ),
                None => self@.len() == 0,
            },
    {
        match &self.root {
            Some(n) => {
                proof {
                    assert(n.link() == self.root);
                }
                Some(n.min())
            },
            None => None,
        }
    }

    /// The node with the least key, for changing it in place, or `None` if
    /// the tree is empty.
    ///
    /// Whoever changes the key of that node has to keep the keys of the tree
    /// in order and to let its children know the new key, as `set_key` does.
    pub fn min_mut(&mut self) -> (r: Option<&mut Node<T>>)
        ensures
            match r {
                Some(n) => old(self).root.is_some() && *n == old(self).root.unwrap().leftmost()
                    && final(self).root == Some(
                    Box::new(old(self).root.unwrap().with_leftmost(*final(n))),
                ),
                None => old(self).root.is_none() && final(self).root.is_none(),
            },
    {
        match &mut self.root {
            Some(n) => Some(n.min_mut()),
            None => None,
        }
    }

    /// All nodes whose intervals overlap `range`, in key order.  A range
    /// without positions overlaps none.
    pub fn find_intersects(&self, range: TextRange) -> (r: Vec<&Node<T>>)
        requires
            self.wf(),
            range.valid(),
        ensures
            r@ == Node::hits(&self.root, range),
            Node::pairs(r@) == self@.filter(|e: (TextRange, T)| e.0.overlaps(range)),
            forall|i: int| 0 <= i < r@.len() ==> Node::holds(self.root, *#[trigger] r@[i]),
    {
        let mut result = Vec::new();
        proof {
            Node::lemma_hits_filter(&self.root, range);
            assert forall|i: int| 0 <= i < Node::hits(&self.root, range).len() implies Node::holds(
                self.root,
                *#[trigger] Node::hits(&self.root, range)[i],
            ) by {
                Node::lemma_hits_hold(&self.root, range, i);
            }
        }
        if range.start == range.end {
            proof {
                Node::lemma_hits_outside(&self.root, 0, usize::MAX as int, range);
            }
            return result;
        }
        match &self.root {
            Some(r) => {
                r.find_intersects(range, &mut result);
            },
            None => {},
        }
        result
    }

    /// The node with the least key among those whose intervals overlap
    /// `range`.
    pub fn find_intersect_min(&self, range: TextRange) -> (r: Option<&Node<T>>)
        requires
            self.wf(),
            range.valid(),
        ensures
            match r {
                Some(n) => Node::hits(&self.root, range).len() > 0 && n == Node::hits(
                    &self.root,
                    range,
                ).first() && Node::holds(self.root, *n),
                None => Node::hits(&self.root, range).len() == 0,
            },
    {
        proof {
            if Node::hits(&self.root, range).len() > 0 {
                Node::lemma_hits_hold(&self.root, range, 0);
            }
        }
        match &self.root {
            Some(r) => r.find_intersect_min(range),
            None => None,
        }
    }

    /// The node with the greatest key among those whose intervals overlap
    /// `range`.
    pub fn find_intersect_max(&self, range: TextRange) -> (r: Option<&Node<T>>)
        requires
            self.wf(),
            range.valid(),
        ensures
            match r {
                Some(n) => Node::hits(&self.root, range).len() > 0 && n == Node::hits(
                    &self.root,
                    range,
                ).last() && Node::holds(self.root, *n),
                None => Node::hits(&self.root, range).len() == 0,
            },
    {
        proof {
            if Node::hits(&self.root, range).len() > 0 {
                Node::lemma_hits_hold(
                    &self.root,
                    range,
                    Node::hits(&self.root, range).len() - 1,
                );
            }
        }
        match &self.root {
            Some(r) => r.find_intersect_max(range),
            None => None,
        }
    }

    /// The node whose interval holds `position`, if there is one.
    pub fn find(&self, position: usize) -> (r: Option<&Node<T>>)
        requires
            self.wf(),
        ensures
            match r {
                Some(n) => n.key.contains(position as int) && Node::holds(self.root, *n)
                    && exists|i: int| 0 <= i < self@.len() && #[trigger] self@[i] == (n.key, n.val),
                None => !covers(self@, position as int),
            },
    {
        if position == usize::MAX {
            proof {
                self.lemma_wf_sorted();
            }
            return None;
        }
        let range = TextRange::new(position, position + 1);
        let res = self.find_intersects(range);
        let ghost pred = |e: (TextRange, T)| e.0.overlaps(range);
        let ghost f = self@.filter(pred);
        proof {
            self.lemma_wf_sorted();
        }
        if res.len() > 0 {
            let n = res[0];
            proof {
                assert(Node::pairs(res@)[0] == (n.key, n.val));
                self@.lemma_filter_pred(pred, 0);
                assert(f[0] == (n.key, n.val));
                assert(f.contains(f[0]));
                self@.lemma_filter_contains_rev(pred, f[0]);
                let i = choose|i: int| 0 <= i < self@.len() && self@[i] == f[0];
                assert(self@[i] == (n.key, n.val));
            }
            Some(n)
        } else {
            proof {
                assert(Node::pairs(res@).len() == 0);
                if covers(self@, position as int) {
                    let i = choose|i: int|
                        0 <= i < self@.len() && (#[trigger] self@[i]).0.contains(position as int);
                    assert(pred(self@[i]));
                    self@.lemma_filter_contains(pred, i);
                }
            }
            None
        }
    }

    /// Paints the root red where neither of its children is red, as the way
    /// down of a deletion expects it.
    fn redden_root(&mut self)
        requires
            old(self).wf(),
        ensures
            final(self).wf(),
            final(self)@ == old(self)@,
            Node::parent_of(final(self).root) == Node::parent_of(old(self).root),
            Node::side_of(final(self).root) == Node::side_of(old(self).root),
            final(self).root == if old(self).root.is_some() && !Node::is_red(
                old(self).root.unwrap().left,
            ) && !Node::is_red(old(self).root.unwrap().right) {
                Node::painted(old(self).root, Color::Red)
            } else {
                old(self).root
            },
    {
        match &mut self.root {
            Some(root) => {
                if !Node::red(&root.left) && !Node::red(&root.right) {
                    root.color = Color::Red;
                }
            },
            None => {},
        }
        proof {
            Node::lemma_painted(old(self).root, Color::Red);
            Node::lemma_same_entries_bounded(old(self).root, self.root);
        }
    }

    /// Paints the root black.
    fn blacken_root(&mut self)
        ensures
            final(self).root == Node::painted(old(self).root, Color::Black),
            final(self)@ == old(self)@,
            forall|p: Option<TextRange>, r: bool|
                Node::shaped(old(self).root, p, r) ==> Node::shaped(final(self).root, p, r),
            Node::ordered(old(self).root) ==> Node::ordered(final(self).root),
    {
        match &mut self.root {
            Some(root) => {
                root.color = Color::Black;
            },
            None => {},
        }
        proof {
            Node::lemma_painted(old(self).root, Color::Black);
            Node::lemma_same_entries_bounded(old(self).root, self.root);
        }
    }

    /// Deletes the node whose key is exactly `key` and gives it back on its
    /// own.  Without such a node nothing changes and the result is `None`.
    ///
    /// Where the root has two black children it is painted red before the
    /// deletion starts; afterwards the root is black again.
    #[verifier::rlimit(40)]
    pub fn delete_exact(&mut self, key: TextRange) -> (r: MaybeNode<T>)
        requires
            old(self).wf(),
        ensures
            final(self).wf(),
            match r {
                Some(m) => m.detached() && m.key == key && removed(
                    old(self)@,
                    final(self)@,
                    key,
                    m.val,
                ),
                None => !has_key(old(self)@, key) && *final(self) == *old(self),
            },
            old(self).is_llrb() ==> final(self).is_llrb(),
    {
        if self.get_node(key).is_none() {
            return None;
        }
        self.redden_root();
        proof {
            if old(self).is_llrb() {
                Node::lemma_reddened(old(self).root);
                Node::lemma_ready_for(self.root, key);
            }
        }
        let result = Node::delete(&mut self.root, key);
        proof {
            if old(self).is_llrb() {
                Node::lemma_reddened(old(self).root);
            }
        }
        self.blacken_root();
        proof {
            let top = usize::MAX as int;
            Node::lemma_bounded_sorted(old(self).root, 0, top);
            Node::lemma_bounded_sorted(self.root, 0, top);
            if result.is_some() {
                let i = choose|i: int|
                    0 <= i < old(self)@.len() && #[trigger] old(self)@[i] == (
                        key,
                        result.unwrap().val,
                    ) && self@ == old(self)@.remove(i);
                lemma_sorted_remove(old(self)@, 0, top, i);
            }
        }
        result
    }

    /// Deletes the node with the least key and gives it back on its own, or
    /// `None` if the tree is empty.
    pub fn delete_min(&mut self) -> (r: MaybeNode<T>)
        requires
            old(self).wf(),
        ensures
            final(self).wf(),
            match r {
                Some(m) => old(self)@.len() > 0 && m.detached() && (m.key, m.val) == old(
                    self,
                )@.first() && final(self)@ == old(self)@.drop_first(),
                None => old(self)@.len() == 0 && final(self)@.len() == 0,
            },
            old(self).is_llrb() ==> final(self).is_llrb(),
    {
        self.redden_root();
        proof {
            if old(self).is_llrb() {
                Node::lemma_reddened(old(self).root);
            }
        }
        let result = Node::delete_min(&mut self.root);
        self.blacken_root();
        proof {
            let top = usize::MAX as int;
            Node::lemma_bounded_sorted(old(self).root, 0, top);
            Node::lemma_bounded_sorted(self.root, 0, top);
            if result.is_some() {
                old(self).root.unwrap().lemma_entries();
                lemma_sorted_rest(old(self)@, 0, top);
            }
        }
        result
    }

    /// Deletes the node with the greatest key and gives it back on its own,
    /// or `None` if the tree is empty.
    pub fn delete_max(&mut self) -> (r: MaybeNode<T>)
        requires
            old(self).wf(),
        ensures
            final(self).wf(),
            match r {
                Some(m) => old(self)@.len() > 0 && m.detached() && (m.key, m.val) == old(
                    self,
                )@.last() && final(self)@ == old(self)@.drop_last(),
                None => old(self)@.len() == 0 && final(self)@.len() == 0,
            },
            old(self).is_llrb() ==> final(self).is_llrb(),
    {
        self.redden_root();
        proof {
            if old(self).is_llrb() {
                Node::lemma_reddened(old(self).root);
                Node::lemma_ready_for(self.root, TextRange { start: 0, end: 0 });
            }
        }
        let result = Node::delete_max(&mut self.root);
        self.blacken_root();
        proof {
            let top = usize::MAX as int;
            Node::lemma_bounded_sorted(old(self).root, 0, top);
            Node::lemma_bounded_sorted(self.root, 0, top);
            if result.is_some() {
                old(self).root.unwrap().lemma_entries();
                lemma_sorted_rest(old(self)@, 0, top);
            }
        }
        result
    }

    /// Moves the stored intervals as putting `length` positions into the
    /// text at `position` asks for.  An interval that starts behind
    /// `position` moves as a whole; one that holds `position` grows at its
    /// end; one that ends at `position` or before it stays.  Every node
    /// stays in its place and keeps its colour and its value.
    pub fn advance(&mut self, position: usize, length: usize)
        requires
            old(self).wf(),
            room_for(old(self)@, position as int, length as int),
        ensures
            final(self).wf(),
            final(self)@ == advanced(old(self)@, position as int, length as int),
            final(self).root == Node::moved(
                old(self).root,
                None,
                position as int,
                length as int,
            ),
            old(self).is_llrb() ==> final(self).is_llrb(),
    {
        match &mut self.root {
            Some(node) => {
                proof {
                    assert(node.link() == old(self).root);
                }
                node.advance(position, length);
                proof {
                    assert(Node::entries(node.link()) == Node::entries(Some(*node)));
                }
            },
            None => {
                assert(self@ =~= advanced(old(self)@, position as int, length as int));
            },
        }
        proof {
            let top = usize::MAX as int;
            Node::lemma_bounded_sorted(old(self).root, 0, top);
            Node::lemma_bounded_sorted(self.root, 0, top);
            lemma_advanced_sorted(old(self)@, position as int, length as int);
        }
    }

    /// The node whose key is exactly `key`, for changing it in place.
    ///
    /// Whoever changes the key of that node has to keep the keys of the tree
    /// in order and to let its children know the new key, as `set_key` does.
    pub fn get_node_mut(&mut self, key: TextRange) -> (r: Option<&mut Node<T>>)
        ensures
            match r {
                Some(n) => Node::at_key(old(self).root, key) == Some(*n) && n.key == key
                    && final(self).root == Node::swapped(old(self).root, key, *final(n)),
                None => Node::at_key(old(self).root, key).is_none() && *final(self) == *old(self),
            },
            old(self).wf() ==> (r.is_some() <==> has_key(old(self)@, key)),
            old(self).wf() && r.is_some() ==> 0 <= Node::rank(old(self).root, key) < old(
                self,
            )@.len() && old(self)@[Node::rank(old(self).root, key)] == (key, r.unwrap().val),
    {
        proof {
            if old(self).wf() {
                Node::lemma_at_key(old(self).root, key, 0, usize::MAX as int);
                if Node::at_key(old(self).root, key).is_some() {
                    assert(old(self)@[Node::rank(old(self).root, key)].0 == key);
                }
            }
        }
        match &mut self.root {
            Some(r) => {
                proof {
                    assert(r.link() == old(self).root);
                }
                r.get_node_mut(key)
            },
            None => None,
        }
    }

    /// Gives the entry with the key `key` the key `new_key`, which has to lie
    /// between the neighbours of that entry.
    pub(crate) fn set_range(&mut self, key: TextRange, new_key: TextRange) -> (i: Ghost<int>)
        requires
            old(self).wf(),
            has_key(old(self)@, key),
            forall|i: int|
                0 <= i < old(self)@.len() && (#[trigger] old(self)@[i]).0 == key ==> sorted(
                    old(self)@.update(i, (new_key, old(self)@[i].1)),
                ),
        ensures
            final(self).wf(),
            0 <= i@ < old(self)@.len(),
            old(self)@[i@].0 == key,
            final(self)@ == old(self)@.update(i@, (new_key, old(self)@[i@].1)),
            old(self).is_llrb() ==> final(self).is_llrb(),
    {
        let ghost top = usize::MAX as int;
        let ghost k = Node::rank(old(self).root, key);
        proof {
            Node::lemma_at_key(old(self).root, key, 0, top);
            Node::lemma_at_key_shaped(old(self).root, key, None, false);
        }
        match self.get_node_mut(key) {
            Some(n) => {
                let ghost before = *n;
                n.set_key(new_key);
                proof {
                    Node::lemma_swapped_entries(old(self).root, key, *n);
                    Node::lemma_swapped_shaped(old(self).root, key, *n, None, false);
                    Node::lemma_adopted_shape(before.left, None, false, new_key);
                    Node::lemma_adopted_shape(before.right, None, false, new_key);
                    Node::lemma_swapped_shape(old(self).root, key, *n);
                }
            },
            None => {},
        }
        proof {
            Node::lemma_bounded_sorted(self.root, 0, top);
        }
        Ghost(k)
    }

    /// Gives the entry with the key `key` the value `val`.
    pub(crate) fn set_value(&mut self, key: TextRange, val: T) -> (i: Ghost<int>)
        requires
            old(self).wf(),
            has_key(old(self)@, key),
        ensures
            final(self).wf(),
            0 <= i@ < old(self)@.len(),
            old(self)@[i@].0 == key,
            final(self)@ == old(self)@.update(i@, (key, val)),
            old(self).is_llrb() ==> final(self).is_llrb(),
    {
        let ghost top = usize::MAX as int;
        let ghost k = Node::rank(old(self).root, key);
        proof {
            Node::lemma_at_key(old(self).root, key, 0, top);
            Node::lemma_at_key_shaped(old(self).root, key, None, false);
            Node::lemma_bounded_sorted(old(self).root, 0, top);
        }
        match self.get_node_mut(key) {
            Some(n) => {
                n.val = val;
                proof {
                    Node::lemma_swapped_entries(old(self).root, key, *n);
                    Node::lemma_swapped_shaped(old(self).root, key, *n, None, false);
                    Node::lemma_swapped_shape(old(self).root, key, *n);
                }
            },
            None => {},
        }
        proof {
            lemma_sorted_update(old(self)@, k, key, val);
            Node::lemma_bounded_sorted(self.root, 0, top);
        }
        Ghost(k)
    }

    /// The node whose key is exactly `key`.
    pub fn get_node(&self, key: TextRange) -> (r: Option<&Node<T>>)
        requires
            self.wf(),
        ensures
            match r {
                Some(n) => n.key == key && Node::holds(self.root, *n) && exists|i: int|
                    0 <= i < self@.len() && #[trigger] self@[i] == (key, n.val),
                None => !has_key(self@, key),
            },
    {
        proof {
            Node::lemma_at_key(self.root, key, 0, usize::MAX as int);
            if Node::at_key(self.root, key).is_some() {
                Node::lemma_at_key_holds(self.root, key);
            }
        }
        match &self.root {
            Some(r) => {
                proof {
                    assert(r.link() == self.root);
                }
                let found = r.get_node(key);
                proof {
                    if found.is_some() {
                        assert(self@[Node::rank(self.root, key)] == (key, found.unwrap().val));
                    }
                }
                found
            },
            None => None,
        }
    }

    /// Deletes the entry at index `i`, whose key is `key`.
    pub(crate) fn remove_at(&mut self, key: TextRange, i: Ghost<int>)
        requires
            old(self).wf(),
            0 <= i@ < old(self)@.len(),
            old(self)@[i@].0 == key,
        ensures
            final(self).wf(),
            final(self)@ == old(self)@.remove(i@),
            old(self).is_llrb() ==> final(self).is_llrb(),
    {
        let r = self.delete_exact(key);
        proof {
            old(self).lemma_wf_sorted();
            assert(r.is_some());
            let j = choose|j: int|
                0 <= j < old(self)@.len() && #[trigger] old(self)@[j] == (key, r.unwrap().val)
                    && self@ == old(self)@.remove(j);
            lemma_key_unique(old(self)@, i@, j);
        }
    }

    /// Gives the entry at index `i`, whose key is `key`, the key `new_key`.
    pub(crate) fn retarget_at(&mut self, key: TextRange, new_key: TextRange, i: Ghost<int>)
        requires
            old(self).wf(),
            0 <= i@ < old(self)@.len(),
            old(self)@[i@].0 == key,
            new_key.start < new_key.end,
            i@ > 0 ==> old(self)@[i@ - 1].0.end <= new_key.start,
            i@ + 1 < old(self)@.len() ==> new_key.end <= old(self)@[i@ + 1].0.start,
        ensures
            final(self).wf(),
            final(self)@ == old(self)@.update(i@, (new_key, old(self)@[i@].1)),
            old(self).is_llrb() ==> final(self).is_llrb(),
    {
        proof {
            old(self).lemma_wf_sorted();
            assert forall|j: int|
                0 <= j < old(self)@.len() && (#[trigger] old(self)@[j]).0 == key implies sorted(
                old(self)@.update(j, (new_key, old(self)@[j].1)),
            ) by {
                lemma_key_unique(old(self)@, i@, j);
                lemma_sorted_update(old(self)@, i@, new_key, old(self)@[i@].1);
            }
        }
        let j = self.set_range(key, new_key);
        proof {
            lemma_key_unique(old(self)@, i@, j@);
        }
    }

    /// Gives the entry at index `i`, whose key is `key`, the value `val`.
    pub(crate) fn revalue_at(&mut self, key: TextRange, val: T, i: Ghost<int>)
        requires
            old(self).wf(),
            0 <= i@ < old(self)@.len(),
            old(self)@[i@].0 == key,
        ensures
            final(self).wf(),
            final(self)@ == old(self)@.update(i@, (key, val)),
            old(self).is_llrb() ==> final(self).is_llrb(),
    {
        let j = self.set_value(key, val);
        proof {
            old(self).lemma_wf_sorted();
            lemma_key_unique(old(self)@, i@, j@);
        }
    }

    /// Puts a clone of `val` under `key` into the tree, between the entries
    /// in front of index `i` and those from `i` on; the result is that clone.
    #[verifier::rlimit(40)]
    pub(crate) fn insert_gap(&mut self, key: TextRange, val: T, i: Ghost<int>) -> (v: Ghost<T>)
        requires
            old(self).wf(),
            fits_at(old(self)@, key, i@),
        ensures
            final(self).wf(),
            cloned(val, v@),
            final(self)@ == old(self)@.insert(i@, (key, v@)),
            old(self).is_llrb() ==> final(self).is_llrb(),
    {
        let keep = |a: T, b: T| -> T { a };
        proof {
            old(self).lemma_wf_sorted();
            lemma_fits(old(self)@, key, i@, 0, val);
        }
        let ghost before = self@;
        self.insert_at_root(key, val, &keep);
        let ghost (j, v) = choose|j: int, v: T|
            0 <= j <= before.len() && cloned(val, v) && #[trigger] before.insert(j, (key, v))
                == self@;
        proof {
            self.lemma_wf_sorted();
            lemma_fits(before, key, i@, j, v);
        }
        Ghost(v)
    }
}

} // verus!
