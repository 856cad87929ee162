//! Putting in a key that cuts stored intervals, piece by piece.
use crate::model::{
    added, copy_of, cut_at, has_key, inserted, kept, lemma_copy_clone, lemma_copy_same, meets,
    merged, merged_at,
};
use crate::node::Color;
use crate::pieces::{
    ahead, clear_at, in_row, lemma_ahead_free, lemma_ahead_gap, lemma_ahead_merge,
    lemma_ahead_start, lemma_block_case, lemma_clear, lemma_partly_cut, lemma_partly_end,
    lemma_partly_gap, lemma_partly_meets, lemma_partly_merge, lemma_partly_start, partly,
};
use crate::range::TextRange;
use crate::tree::IntervalTree;
use vstd::prelude::*;

verus! {

/// What a cut at `p` has made of the entries `s`: nothing, where `p` lay
/// strictly inside no key; or two entries of the entry at `i`, the second
/// with a copy `v2` of the value.
pub open spec fn cut_in_two<T: Clone>(
    s: Seq<(TextRange, T)>,
    t: Seq<(TextRange, T)>,
    p: int,
    g: Option<(int, T)>,
) -> bool {
    match g {
        None => t == s && clear_at(s, p),
        Some((i, v2)) => {
            &&& 0 <= i < s.len()
            &&& s[i].0.start < p < s[i].0.end
            &&& copy_of(s[i].1, v2)
            &&& t == s.update(
                i,
                (TextRange { start: s[i].0.start, end: p as usize }, s[i].1),
            ).insert(i + 1, (TextRange { start: p as usize, end: s[i].0.end }, v2))
        },
    }
}

impl<T: Clone> IntervalTree<T> {
    /// Cuts the interval that has `p` strictly inside it in two at `p`, if
    /// there is such an interval.  The part in front keeps the node and its
    /// value; the part behind comes in as a node of its own with a copy of
    /// the value.
    pub(crate) fn cut(&mut self, p: usize) -> (g: Ghost<Option<(int, T)>>)
        requires
            old(self).wf(),
        ensures
            final(self).wf(),
            old(self).is_llrb() ==> final(self).is_llrb(),
            cut_in_two(old(self)@, final(self)@, p as int, g@),
    {
        let ghost s = self@;
        let ghost mut i: int = 0;
        let hit = match self.find(p) {
            Some(n) => {
                proof {
                    i = choose|i: int| 0 <= i < s.len() && #[trigger] s[i] == (n.key, n.val);
                }
                if n.key.start < p {
                    Some(n.key)
                } else {
                    None
                }
            },
            None => None,
        };
        proof {
            self.lemma_wf_sorted();
        }
        match hit {
            Some(k) => {
                proof {
                    self.lemma_wf_at(i);
                }
                let front = TextRange { start: k.start, end: p };
                let back = TextRange { start: p, end: k.end };
                self.retarget_at(k, front, Ghost(i));
                let val = self.value_at(front, Ghost(i));
                let v2 = self.insert_gap(back, val, Ghost(i + 1));
                proof {
                    lemma_copy_same(s[i].1);
                    lemma_copy_clone(s[i].1, s[i].1, val);
                    lemma_copy_clone(s[i].1, val, v2@);
                }
                Ghost(Some((i, v2@)))
            },
            None => {
                proof {
                    lemma_clear(s, p as int, i);
                }
                Ghost(None)
            },
        }
    }

    /// Puts `key` with `val` into the tree.
    ///
    /// A key that overlaps no stored interval, or that is one, goes in in
    /// one go.  Otherwise the stored intervals are cut where `key` begins
    /// and ends; then `key` goes in from its start to its end, piece by
    /// piece: what lies between stored intervals as a new interval with a
    /// clone of `val`, and each stored interval inside `key` by merging its
    /// value with a clone of `val`.  Every piece brings in one node at most.
    #[verifier::rlimit(80)]
    pub(crate) fn put_in<F: Fn(T, T) -> T>(&mut self, key: TextRange, val: T, merge_fn: &F)
        requires
            old(self).wf(),
            key.start < key.end,
            forall|a: T, b: T| call_requires(*merge_fn, (a, b)),
        ensures
            final(self).wf(),
            final(self).root.is_some(),
            final(self).root.unwrap().color == Color::Black,
            inserted(old(self)@, final(self)@, key, val, *merge_fn),
            !meets(old(self)@, key) ==> added(old(self)@, final(self)@, key, val),
            kept(old(self)@, final(self)@, key),
            has_key(old(self)@, key) ==> merged_at(
                old(self)@,
                final(self)@,
                key,
                val,
                *merge_fn,
            ),
            old(self).is_llrb() ==> final(self).is_llrb(),
    {
        let ghost s0 = self@;
        let ghost was = self.is_llrb();
        let (first, Ghost(j0)) = self.overlapping_keys(key);
        proof {
            self.lemma_wf_sorted();
            lemma_block_case(s0, first@, j0, key);
        }
        if first.len() == 0 || (first.len() == 1 && first[0] == key) {
            self.insert_at_root(key, val, merge_fn);
            proof {
                if !meets(s0, key) {
                    let (i, v) = choose|i: int, v: T|
                        0 <= i <= s0.len() && cloned(val, v) && #[trigger] s0.insert(i, (key, v))
                            == self@;
                } else {
                    let (i, v) = choose|i: int, v: T|
                        0 <= i < s0.len() && s0[i].0 == key && merged(val, s0[i].1, *merge_fn, v)
                            && #[trigger] s0.update(i, (key, v)) == self@;
                }
            }
            return ;
        }
        proof {
            lemma_partly_start(s0, key, val, *merge_fn);
        }
        let g1 = self.cut(key.start);
        let ghost s1 = self@;
        proof {
            if g1@.is_some() {
                let (i, v2) = g1@.unwrap();
                lemma_partly_cut(
                    s0,
                    s0,
                    key,
                    val,
                    *merge_fn,
                    i,
                    key.start as int,
                    TextRange { start: s0[i].0.start, end: key.start },
                    TextRange { start: key.start, end: s0[i].0.end },
                    v2,
                );
            }
            self.lemma_wf_sorted();
        }
        let g2 = self.cut(key.end);
        proof {
            if g2@.is_some() {
                let (i, v2) = g2@.unwrap();
                lemma_partly_cut(
                    s0,
                    s1,
                    key,
                    val,
                    *merge_fn,
                    i,
                    key.end as int,
                    TextRange { start: s1[i].0.start, end: key.end },
                    TextRange { start: key.end, end: s1[i].0.end },
                    v2,
                );
            }
            self.lemma_wf_sorted();
            lemma_partly_meets(s0, self@, key, val, *merge_fn);
        }
        let (keys, Ghost(i0)) = self.overlapping_keys(key);
        proof {
            lemma_block_case(self@, keys@, i0, key);
            lemma_ahead_start(self@, keys@, i0, key);
        }
        let mut c: usize = key.start;
        let mut j: usize = 0;
        while j < keys.len()
            invariant
                self.wf(),
                was ==> self.is_llrb(),
                forall|a: T, b: T| call_requires(*merge_fn, (a, b)),
                key.start < key.end,
                0 <= j <= keys.len(),
                key.start <= c <= key.end,
                in_row(keys@, key),
                j < keys.len() ==> c <= keys@[j as int].start,
                partly(s0, self@, key, c as int, val, *merge_fn),
                ahead(self@, keys@, j as int, TextRange { start: c, end: key.end }),
                c == key.start || cut_at(self@, c as int),
                c > key.start ==> cut_at(self@, key.start as int),
                j > 0 ==> self.root.is_some() && self.root.unwrap().color == Color::Black,
            decreases keys.len() - j,
        {
            let k = keys[j];
            let ghost rest = TextRange { start: c, end: key.end };
            if c < k.start {
                let gap = TextRange { start: c, end: k.start };
                let ghost cur = self@;
                proof {
                    lemma_ahead_free(cur, keys@, j as int, rest, gap, key);
                }
                let vc = val.clone();
                self.insert_at_root(gap, vc, merge_fn);
                proof {
                    let (i, v) = choose|i: int, v: T|
                        0 <= i <= cur.len() && cloned(vc, v) && #[trigger] cur.insert(i, (gap, v))
                            == self@;
                    lemma_copy_same(val);
                    lemma_copy_clone(val, val, vc);
                    lemma_copy_clone(val, vc, v);
                    assert(cut_at(cur, k.start as int)) by {
                        let x = choose|x: int|
                            0 <= x < cur.len() && (#[trigger] cur[x]).0 == keys@[j as int];
                        assert(cur[x].0.start == k.start);
                    }
                    lemma_partly_gap(s0, cur, key, val, *merge_fn, gap, i, v);
                    lemma_ahead_gap(cur, keys@, j as int, rest, gap, i, v);
                }
            }
            let ghost cur = self@;
            let ghost rest2 = TextRange { start: k.start, end: key.end };
            proof {
                self.lemma_wf_sorted();
            }
            let vc = val.clone();
            self.insert_at_root(k, vc, merge_fn);
            proof {
                let (i, v2) = choose|i: int, v2: T|
                    0 <= i < cur.len() && cur[i].0 == k && merged(vc, cur[i].1, *merge_fn, v2)
                        && #[trigger] cur.update(i, (k, v2)) == self@;
                lemma_copy_same(val);
                lemma_copy_clone(val, val, vc);
                lemma_partly_merge(s0, cur, key, val, *merge_fn, i, vc, v2);
                lemma_ahead_merge(cur, keys@, j as int, rest2, i, v2, key);
                if j + 1 < keys.len() {
                    assert(keys@[j as int].end <= keys@[j + 1].start);
                }
            }
            c = k.end;
            j += 1;
        }
        if c < key.end {
            let gap = TextRange { start: c, end: key.end };
            let ghost cur = self@;
            proof {
                lemma_ahead_free(cur, keys@, j as int, gap, gap, key);
            }
            self.insert_at_root(gap, val, merge_fn);
            proof {
                let (i, v) = choose|i: int, v: T|
                    0 <= i <= cur.len() && cloned(val, v) && #[trigger] cur.insert(i, (gap, v))
                        == self@;
                lemma_copy_same(val);
                lemma_copy_clone(val, val, v);
                lemma_partly_gap(s0, cur, key, val, *merge_fn, gap, i, v);
            }
        }
        proof {
            lemma_partly_end(s0, self@, key, val, *merge_fn);
        }
    }
}

} // verus!
