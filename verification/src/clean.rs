//! Dropping empty entries and joining neighbours with equal values.
use crate::model::{
    all_joined, clean_step, cleaned, has_key, lemma_clean_walk, lemma_cleaned_joined,
    lemma_cleaned_tests, lemma_key_unique,
};
use crate::node::Node;
use crate::range::TextRange;
use crate::tree::IntervalTree;
use vstd::prelude::*;

verus! {

/// What the test `eq` says of two values: that a call of it on them can give
/// `true`.
pub open spec fn says<T, F: Fn(&T, &T) -> bool>(eq: F) -> spec_fn(T, T) -> bool {
    |a: T, b: T| call_ensures(eq, (&a, &b), true)
}

/// What the test `empty` says of a value: that a call of it on the value can
/// give `true`.
pub open spec fn finds<T, G: Fn(&T) -> bool>(empty: G) -> spec_fn(T) -> bool {
    |a: T| call_ensures(empty, (&a,), true)
}

/// The test `eq` can be called on any two values and gives one answer for
/// them.
pub open spec fn decides_pairs<T, F: Fn(&T, &T) -> bool>(eq: F) -> bool {
    forall|a: T, b: T|
        #![trigger call_requires(eq, (&a, &b))]
        #![trigger call_ensures(eq, (&a, &b), true)]
        #![trigger call_ensures(eq, (&a, &b), false)]
        call_requires(eq, (&a, &b)) && !(call_ensures(eq, (&a, &b), true) && call_ensures(
            eq,
            (&a, &b),
            false,
        ))
}

/// The test `empty` can be called on any value and gives one answer for it.
pub open spec fn decides<T, G: Fn(&T) -> bool>(empty: G) -> bool {
    forall|a: T|
        #![trigger call_requires(empty, (&a,))]
        #![trigger call_ensures(empty, (&a,), true)]
        #![trigger call_ensures(empty, (&a,), false)]
        call_requires(empty, (&a,)) && !(call_ensures(empty, (&a,), true) && call_ensures(
            empty,
            (&a,),
            false,
        ))
}

impl<T: Clone> IntervalTree<T> {
    /// The node at index `i`, whose key is `key`.
    pub(crate) fn entry_at(&self, key: TextRange, i: Ghost<int>) -> (r: &Node<T>)
        requires
            self.wf(),
            0 <= i@ < self@.len(),
            self@[i@].0 == key,
        ensures
            (r.key, r.val) == self@[i@],
            Node::holds(self.root, *r),
            Node::index_of(self.root, *r) == i@,
    {
        let found = self.get_node(key);
        proof {
            self.lemma_wf_sorted();
            if found.is_some() {
                let n = *found.unwrap();
                Node::lemma_offset(self.root, n);
                lemma_key_unique(self@, i@, Node::index_of(self.root, n));
            }
        }
        found.unwrap()
    }

    /// Cleans the entries from the one with the key `start` on, which stands
    /// at index `i`; with no `start` nothing is done.
    ///
    /// Entry by entry, an entry whose key holds no position or whose value
    /// `empty` finds empty is deleted; an entry that begins where the last
    /// entry kept ends, with a value that `eq` finds equal to the value of
    /// that entry, is deleted and the entry kept reaches to its end;
    /// any other entry is kept.
    #[verifier::rlimit(40)]
    pub(crate) fn clean_from_node<F: Fn(&T, &T) -> bool, G: Fn(&T) -> bool>(
        &mut self,
        start: Option<TextRange>,
        eq: F,
        empty: G,
        i: Ghost<int>,
    )
        requires
            old(self).wf(),
            decides_pairs(eq),
            decides(empty),
            match start {
                Some(k) => 0 <= i@ < old(self)@.len() && old(self)@[i@].0 == k,
                None => i@ == old(self)@.len(),
            },
        ensures
            final(self).wf(),
            final(self)@ == old(self)@.take(i@) + cleaned(
                old(self)@.skip(i@),
                says(eq),
                finds(empty),
            ),
            old(self).is_llrb() ==> final(self).is_llrb(),
    {
        let ghost s = self@;
        let ghost was = self.is_llrb();
        let ghost pre = s.take(i@);
        let ghost same = says::<T, F>(eq);
        let ghost void = finds::<T, G>(empty);
        let ghost mut c: int = i@;
        let ghost mut acc: Seq<(TextRange, T)> = Seq::empty();
        let mut cur: Option<TextRange> = None;
        let mut next = start;
        proof {
            assert(s.subrange(i@, i@) =~= Seq::empty());
            assert(s =~= pre + acc + s.skip(c));
        }
        while next.is_some()
            invariant
                self.wf(),
                was ==> self.is_llrb(),
                decides_pairs(eq),
                decides(empty),
                same == says::<T, F>(eq),
                void == finds::<T, G>(empty),
                pre == s.take(i@),
                0 <= i@ <= c <= s.len(),
                self@ == pre + acc + s.skip(c),
                acc == cleaned(s.subrange(i@, c), same, void),
                match cur {
                    Some(k) => acc.len() > 0 && acc.last().0 == k,
                    None => acc.len() == 0,
                },
                match next {
                    Some(k) => c < s.len() && s[c].0 == k,
                    None => c == s.len(),
                },
            decreases s.len() - c,
        {
            let nk = next.unwrap();
            let ghost k: int = (pre.len() + acc.len()) as int;
            let ghost e = s[c];
            proof {
                lemma_clean_walk(pre, acc, s, c, i@, k, same, void);
                self.lemma_wf_at(k);
                if acc.len() > 0 {
                    self.lemma_wf_at(k - 1);
                }
            }
            let node = self.entry_at(nk, Ghost(k));
            let after = node.next_raw(self);
            let drop = nk.empty() || empty(&node.val);
            if drop {
                self.remove_at(nk, Ghost(k));
            } else {
                let join = match cur {
                    Some(ck) => {
                        let kept = self.entry_at(ck, Ghost(k - 1));
                        ck.end == nk.start && eq(&kept.val, &node.val)
                    },
                    None => false,
                };
                if join {
                    let ck = cur.unwrap();
                    let wide = TextRange { start: ck.start, end: nk.end };
                    self.remove_at(nk, Ghost(k));
                    self.retarget_at(ck, wide, Ghost(k - 1));
                    cur = Some(wide);
                } else {
                    cur = Some(nk);
                }
            }
            next = after;
            proof {
                acc = clean_step(acc, e, same, void);
                c = c + 1;
            }
        }
        proof {
            assert(s.subrange(i@, c) =~= s.skip(i@));
            assert(pre + acc + s.skip(c) =~= pre + acc);
        }
    }

    /// Cleans the tree: intervals without positions and intervals whose
    /// value `empty` finds empty are deleted, and intervals that touch and
    /// whose values `eq` finds equal are joined.
    ///
    /// The intervals are gone through from the least to the greatest.  One
    /// that is joined to the interval in front of it makes that interval
    /// longer, and the longer interval keeps its value.
    pub fn clean<F: Fn(&T, &T) -> bool, G: Fn(&T) -> bool>(&mut self, eq: F, empty: G)
        requires
            old(self).wf(),
            decides_pairs(eq),
            decides(empty),
        ensures
            final(self).wf(),
            final(self)@ == cleaned(old(self)@, says(eq), finds(empty)),
            all_joined(final(self)@, says(eq)),
            old(self).is_llrb() ==> final(self).is_llrb(),
    {
        let start = match self.min() {
            Some(n) => Some(n.key),
            None => None,
        };
        proof {
            assert(old(self)@.take(0) =~= Seq::empty());
            assert(old(self)@.skip(0) =~= old(self)@);
            lemma_cleaned_joined(old(self)@, says(eq), finds(empty));
        }
        self.clean_from_node(start, eq, empty, Ghost(0));
        proof {
            assert(Seq::empty() + cleaned(old(self)@, says(eq), finds(empty)) =~= cleaned(
                old(self)@,
                says(eq),
                finds(empty),
            ));
        }
    }

    /// Cleans the tree as `clean` does, from the interval `start` on.  What
    /// stands in front of that interval stays, and without such an interval
    /// in the tree nothing changes.
    pub fn clean_from<F: Fn(&T, &T) -> bool, G: Fn(&T) -> bool>(
        &mut self,
        start: TextRange,
        eq: F,
        empty: G,
    )
        requires
            old(self).wf(),
            decides_pairs(eq),
            decides(empty),
        ensures
            final(self).wf(),
            !has_key(old(self)@, start) ==> final(self)@ == old(self)@,
            has_key(old(self)@, start) ==> exists|i: int|
                0 <= i < old(self)@.len() && (#[trigger] old(self)@[i]).0 == start && final(self)@
                    == old(self)@.take(i) + cleaned(old(self)@.skip(i), says(eq), finds(empty)),
            old(self).is_llrb() ==> final(self).is_llrb(),
    {
        let ghost mut i: int = 0;
        let found = match self.get_node(start) {
            Some(n) => {
                proof {
                    i = choose|j: int|
                        0 <= j < self@.len() && #[trigger] self@[j] == (start, n.val);
                }
                true
            },
            None => false,
        };
        if found {
            self.clean_from_node(Some(start), eq, empty, Ghost(i));
        }
    }

    /// Joins the intervals that touch and whose values `eq` finds equal.
    ///
    /// The intervals are gone through from the least to the greatest; where
    /// an interval ends at the start of the next and `eq` finds their values
    /// equal, the first is made to reach to the end of the second, and the
    /// second is deleted.
    pub fn merge<F: Fn(&T, &T) -> bool>(&mut self, eq: F)
        requires
            old(self).wf(),
            decides_pairs(eq),
        ensures
            final(self).wf(),
            final(self)@ == cleaned(old(self)@, says(eq), |v: T| false),
            all_joined(final(self)@, says(eq)),
            old(self).is_llrb() ==> final(self).is_llrb(),
    {
        let never = |v: &T| -> (r: bool)
            ensures
                !r,
            { false };
        proof {
            lemma_cleaned_tests(old(self)@, says(eq), finds(never), says(eq), |v: T| false);
        }
        self.clean(eq, never);
    }
}

} // verus!
