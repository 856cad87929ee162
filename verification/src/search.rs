//! Looking for the stored keys that overlap a range.
use crate::node::Node;
use crate::range::TextRange;
use std::cmp::Ordering;
use vstd::prelude::*;

verus! {

impl<T: Clone> Node<T> {
    /// Appends to `results` the nodes of this subtree whose keys overlap
    /// `range`, in key order.  A range without positions overlaps none.
    ///
    /// A subtree that lies wholly to one side of the range is not entered.
    pub fn find_intersects<'a>(&'a self, range: TextRange, results: &mut Vec<&'a Node<T>>)
        requires
            Self::ordered(self.link()),
            range.valid(),
        ensures
            final(results)@ == old(results)@ + Self::hits(&self.link(), range),
        decreases self,
    {
        proof {
            Self::lemma_hits_node(self, range);
        }
        if range.empty() {
            return ;
        }
        let ord = range.strict_order(&self.key);
        match ord {
            Some(Ordering::Less) => {
                match &self.left {
                    Some(l) => {
                        l.find_intersects(range, results);
                    },
                    None => {},
                }
            },
            Some(Ordering::Greater) => {
                match &self.right {
                    Some(r) => {
                        r.find_intersects(range, results);
                    },
                    None => {},
                }
            },
            _ => {
                match &self.left {
                    Some(l) => {
                        l.find_intersects(range, results);
                    },
                    None => {},
                }
                results.push(self);
                match &self.right {
                    Some(r) => {
                        r.find_intersects(range, results);
                    },
                    None => {},
                }
            },
        }
        proof {
            assert(results@ =~= old(results)@ + Self::hits(&self.link(), range));
        }
    }

    /// The leftmost node of this subtree whose key overlaps `range`.
    pub fn find_intersect_min(&self, range: TextRange) -> (r: Option<&Node<T>>)
        requires
            Self::ordered(self.link()),
            range.valid(),
        ensures
            match r {
                Some(n) => Self::hits(&self.link(), range).len() > 0 && n == Self::hits(
                    &self.link(),
                    range,
                ).first(),
                None => Self::hits(&self.link(), range).len() == 0,
            },
        decreases self,
    {
        proof {
            Self::lemma_hits_node(self, range);
        }
        if range.empty() {
            return None;
        }
        let ord = range.strict_order(&self.key);
        match ord {
            Some(Ordering::Less) => match &self.left {
                Some(l) => l.find_intersect_min(range),
                None => None,
            },
            Some(Ordering::Equal) => Some(self),
            Some(Ordering::Greater) => match &self.right {
                Some(r) => r.find_intersect_min(range),
                None => None,
            },
            None => {
                let found = match &self.left {
                    Some(l) => l.find_intersect_min(range),
                    None => None,
                };
                match found {
                    Some(n) => Some(n),
                    None => Some(self),
                }
            },
        }
    }

    /// The rightmost node of this subtree whose key overlaps `range`.
    pub fn find_intersect_max(&self, range: TextRange) -> (r: Option<&Node<T>>)
        requires
            Self::ordered(self.link()),
            range.valid(),
        ensures
            match r {
                Some(n) => Self::hits(&self.link(), range).len() > 0 && n == Self::hits(
                    &self.link(),
                    range,
                ).last(),
                None => Self::hits(&self.link(), range).len() == 0,
            },
        decreases self,
    {
        proof {
            Self::lemma_hits_node(self, range);
        }
        if range.empty() {
            return None;
        }
        let ord = range.strict_order(&self.key);
        match ord {
            Some(Ordering::Less) => match &self.left {
                Some(l) => l.find_intersect_max(range),
                None => None,
            },
            Some(Ordering::Equal) => Some(self),
            Some(Ordering::Greater) => match &self.right {
                Some(r) => r.find_intersect_max(range),
                None => None,
            },
            None => {
                let found = match &self.right {
                    Some(r) => r.find_intersect_max(range),
                    None => None,
                };
                match found {
                    Some(n) => Some(n),
                    None => Some(self),
                }
            },
        }
    }
}

} // verus!
