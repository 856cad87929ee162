//! Deleting what lies inside a range.
use crate::model::{
    copy_of, lemma_copy_clone, lemma_copy_same, lemma_key_unique, lemma_overlap_block,
    lemma_piecewise_push, lemma_rest_head, lemma_splice, lemma_splice_step, lemma_walk_end,
    lemma_walk_start, piecewise,
};
use crate::node::Node;
use crate::range::TextRange;
use crate::tree::IntervalTree;
use vstd::prelude::*;

verus! {

/// What deleting `range` leaves of the entry `e`.
///
/// An entry that does not overlap `range` stays.  Of one that does nothing
/// is left if `del_extend` is set; otherwise what it has in front of `range`
/// stays with its value, and what it has behind `range` stays with its value
/// too, or with a copy of it where the entry is cut in two.
pub open spec fn trimmed<T: Clone>(
    e: (TextRange, T),
    range: TextRange,
    del_extend: bool,
    ps: Seq<(TextRange, T)>,
) -> bool {
    let front = TextRange { start: e.0.start, end: range.start };
    let back = TextRange { start: range.end, end: e.0.end };
    if !e.0.overlaps(range) {
        ps == seq![e]
    } else if del_extend {
        ps.len() == 0
    } else if e.0.start < range.start && e.0.end > range.end {
        ps.len() == 2 && ps[0] == (front, e.1) && ps[1].0 == back && copy_of(e.1, ps[1].1)
    } else if e.0.start < range.start {
        ps == seq![(front, e.1)]
    } else if e.0.end > range.end {
        ps == seq![(back, e.1)]
    } else {
        ps.len() == 0
    }
}

/// `trimmed` as a rule from an entry to what is left of it.
pub open spec fn trim_rule<T: Clone>(range: TextRange, del_extend: bool) -> spec_fn(
    (TextRange, T),
    Seq<(TextRange, T)>,
) -> bool {
    |e: (TextRange, T), ps: Seq<(TextRange, T)>| trimmed(e, range, del_extend, ps)
}

impl<T: Clone> IntervalTree<T> {
    /// The keys that overlap `range`, in order, and the index of the first
    /// of them among the entries.
    pub(crate) fn overlapping_keys(&self, range: TextRange) -> (r: (Vec<TextRange>, Ghost<int>))
        requires
            self.wf(),
            range.valid(),
        ensures
            0 <= r.1@,
            r.1@ + r.0@.len() <= self@.len(),
            forall|k: int| 0 <= k < r.0@.len() ==> #[trigger] r.0@[k] == self@[r.1@ + k].0,
            forall|k: int|
                0 <= k < self@.len() ==> ((#[trigger] self@[k]).0.overlaps(range) <==> r.1@ <= k
                    < r.1@ + r.0@.len()),
    {
        let nodes = self.find_intersects(range);
        let ghost b = (0int, 0int);
        proof {
            self.lemma_wf_sorted();
            b = lemma_overlap_block(self@, range);
            assert(Node::pairs(nodes@).len() == nodes@.len());
        }
        let mut keys: Vec<TextRange> = Vec::new();
        let mut i: usize = 0;
        while i < nodes.len()
            invariant
                0 <= i <= nodes.len(),
                keys@.len() == i,
                nodes@.len() == b.1 - b.0,
                0 <= b.0 <= b.1 <= self@.len(),
                Node::pairs(nodes@) == self@.subrange(b.0, b.1),
                forall|k: int| 0 <= k < i ==> #[trigger] keys@[k] == self@[b.0 + k].0,
            decreases nodes.len() - i,
        {
            let n = nodes[i];
            proof {
                assert(Node::pairs(nodes@)[i as int] == (n.key, n.val));
                assert(self@.subrange(b.0, b.1)[i as int] == self@[b.0 + i]);
            }
            keys.push(n.key);
            i += 1;
        }
        (keys, Ghost(b.0))
    }

    /// Deletes from the entry at index `i`, whose key is `key` and overlaps
    /// `range`, what lies inside `range`, or all of it if `del_extend` is
    /// set.  The result is what is left of the entry.
    #[verifier::rlimit(40)]
    fn trim_at(&mut self, key: TextRange, range: TextRange, del_extend: bool, i: Ghost<int>) -> (ps:
        Ghost<Seq<(TextRange, T)>>)
        requires
            old(self).wf(),
            0 <= i@ < old(self)@.len(),
            old(self)@[i@].0 == key,
            key.overlaps(range),
        ensures
            final(self).wf(),
            trimmed(old(self)@[i@], range, del_extend, ps@),
            final(self)@ == old(self)@.take(i@) + ps@ + old(self)@.skip(i@ + 1),
            old(self).is_llrb() ==> final(self).is_llrb(),
    {
        let ghost s = self@;
        let ghost e = s[i@];
        proof {
            self.lemma_wf_at(i@);
        }
        if del_extend || (key.start >= range.start && key.end <= range.end) {
            self.remove_at(key, i);
            proof {
                lemma_splice(s, i@, e, e);
            }
            Ghost(Seq::empty())
        } else if key.start < range.start {
            let front = TextRange { start: key.start, end: range.start };
            self.retarget_at(key, front, i);
            if key.end > range.end {
                let back = TextRange { start: range.end, end: key.end };
                let val = self.value_at(front, i);
                let v = self.insert_gap(back, val, Ghost(i@ + 1));
                let ghost ps = seq![(front, e.1), (back, v@)];
                proof {
                    lemma_copy_same(e.1);
                    lemma_copy_clone(e.1, e.1, val);
                    lemma_copy_clone(e.1, val, v@);
                    lemma_splice(s, i@, (front, e.1), (back, v@));
                }
                Ghost(ps)
            } else {
                let ghost ps = seq![(front, e.1)];
                proof {
                    lemma_splice(s, i@, (front, e.1), e);
                }
                Ghost(ps)
            }
        } else {
            let back = TextRange { start: range.end, end: key.end };
            self.retarget_at(key, back, i);
            let ghost ps = seq![(back, e.1)];
            proof {
                lemma_splice(s, i@, (back, e.1), e);
            }
            Ghost(ps)
        }
    }

    /// A clone of the value of the entry at index `i`, whose key is `key`.
    pub(crate) fn value_at(&self, key: TextRange, i: Ghost<int>) -> (v: T)
        requires
            self.wf(),
            0 <= i@ < self@.len(),
            self@[i@].0 == key,
        ensures
            cloned(self@[i@].1, v),
    {
        let found = self.get(key);
        proof {
            self.lemma_wf_sorted();
            if found.is_some() {
                let j = choose|j: int|
                    0 <= j < self@.len() && (#[trigger] self@[j]).0 == key && cloned(
                        self@[j].1,
                        found.unwrap(),
                    );
                lemma_key_unique(self@, i@, j);
            }
        }
        found.unwrap()
    }

    /// Deletes from the tree what lies inside `range`.
    ///
    /// With `del_extend` every interval that overlaps `range` is deleted as
    /// a whole.  Without it only the part inside `range` goes: an interval
    /// that reaches out of `range` on one side is cut back to what lies
    /// outside, and one that reaches out on both sides is cut in two, the
    /// part behind `range` with a copy of its value.
    #[verifier::rlimit(40)]
    pub fn delete(&mut self, range: TextRange, del_extend: bool)
        requires
            old(self).wf(),
            range.valid(),
        ensures
            final(self).wf(),
            piecewise(old(self)@, final(self)@, trim_rule(range, del_extend)),
            old(self).is_llrb() ==> final(self).is_llrb(),
    {
        let (keys, Ghost(i0)) = self.overlapping_keys(range);
        let ghost s = self@;
        let ghost was = self.is_llrb();
        let ghost rel = trim_rule::<T>(range, del_extend);
        let ghost mut done = s.take(i0);
        proof {
            lemma_walk_start(s, i0, rel);
        }
        let mut k: usize = 0;
        while k < keys.len()
            invariant
                self.wf(),
                was ==> self.is_llrb(),
                0 <= k <= keys.len(),
                0 <= i0,
                i0 + keys@.len() <= s.len(),
                rel == trim_rule::<T>(range, del_extend),
                forall|j: int| 0 <= j < keys@.len() ==> #[trigger] keys@[j] == s[i0 + j].0,
                forall|j: int|
                    0 <= j < s.len() ==> ((#[trigger] s[j]).0.overlaps(range) <==> i0 <= j < i0
                        + keys@.len()),
                self@ == done + s.skip(i0 + k),
                piecewise(s.take(i0 + k), done, rel),
            decreases keys.len() - k,
        {
            let key = keys[k];
            let ghost e = s[i0 + k];
            let ghost before = self@;
            proof {
                lemma_rest_head(s, done, before, i0 + k);
                assert(e.0.overlaps(range));
            }
            let ps = self.trim_at(key, range, del_extend, Ghost(done.len() as int));
            proof {
                lemma_piecewise_push(s.take(i0 + k), done, rel, e, ps@);
                lemma_splice(s, i0 + k, e, e);
                lemma_splice_step(s, done, before, self@, ps@, i0 + k);
                done = done + ps@;
            }
            k += 1;
        }
        proof {
            lemma_walk_end(s, done, i0 + keys@.len(), rel);
        }
    }
}

} // verus!
