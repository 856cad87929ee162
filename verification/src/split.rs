//! Changing the values inside a range, cutting intervals at its borders.
use crate::model::{
    copy_of, lemma_copy_clone, lemma_copy_same, lemma_piecewise_all, lemma_piecewise_push,
    lemma_rest_head, lemma_splice, lemma_splice_step, lemma_walk_end, lemma_walk_start, piecewise,
};
use crate::range::TextRange;
use crate::tree::IntervalTree;
use vstd::prelude::*;

verus! {

/// The entry in front of `range` that is cut off an entry with the key `k`,
/// if there is any.
pub open spec fn front_run<T>(k: TextRange, range: TextRange, v: T) -> Seq<(TextRange, T)> {
    if k.start < range.start {
        seq![(TextRange { start: k.start, end: range.start }, v)]
    } else {
        Seq::empty()
    }
}

/// The entry behind `range` that is cut off an entry with the key `k`, if
/// there is any.
pub open spec fn back_run<T>(k: TextRange, range: TextRange, v: T) -> Seq<(TextRange, T)> {
    if range.end < k.end {
        seq![(TextRange { start: range.end, end: k.end }, v)]
    } else {
        Seq::empty()
    }
}

/// The entry inside `range` that is left of an entry with the key `k`,
/// with the value that the function gave, if it gave one.
pub open spec fn inner_run<T>(k: TextRange, range: TextRange, res: Option<T>) -> Seq<
    (TextRange, T),
> {
    match res {
        Some(v) => seq![(k.common(range).unwrap(), v)],
        None => Seq::empty(),
    }
}

/// What applying `f` inside `range` makes of the entry `e`.
///
/// An entry that does not overlap `range` stays.  One that does is cut at
/// the borders of `range`: what it has in front of `range` and behind it
/// stays, each with a copy of the value, and what it has inside `range`
/// gets the value that `f` gives for a copy of the value, or is deleted
/// where `f` gives none.
pub open spec fn carved<T: Clone, F: Fn(T) -> Option<T>>(
    e: (TextRange, T),
    range: TextRange,
    f: F,
    ps: Seq<(TextRange, T)>,
) -> bool {
    if !e.0.overlaps(range) {
        ps == seq![e]
    } else {
        exists|c: T, res: Option<T>, vf: T, vb: T|
            copy_of(e.1, c) && #[trigger] call_ensures(f, (c,), res) && copy_of(e.1, vf)
                && copy_of(e.1, vb) && ps == #[trigger] front_run(e.0, range, vf) + inner_run(
                e.0,
                range,
                res,
            ) + #[trigger] back_run(e.0, range, vb)
    }
}

/// `carved` as a rule from an entry to what is made of it.
pub open spec fn carve_rule<T: Clone, F: Fn(T) -> Option<T>>(range: TextRange, f: F) -> spec_fn(
    (TextRange, T),
    Seq<(TextRange, T)>,
) -> bool {
    |e: (TextRange, T), ps: Seq<(TextRange, T)>| carved(e, range, f, ps)
}

/// The key `k` lies inside `range`, or does not overlap it.
pub open spec fn inside_or_apart(k: TextRange, range: TextRange) -> bool {
    !k.overlaps(range) || (range.start <= k.start && k.end <= range.end)
}

/// Every key that `carved` gives lies inside the range or does not overlap
/// it.
pub proof fn lemma_carved_keys<T: Clone, F: Fn(T) -> Option<T>>(
    e: (TextRange, T),
    range: TextRange,
    f: F,
    ps: Seq<(TextRange, T)>,
    i: int,
)
    requires
        carved(e, range, f, ps),
        0 <= i < ps.len(),
        range.valid(),
    ensures
        inside_or_apart(ps[i].0, range),
{
    if e.0.overlaps(range) {
        let (c, res, vf, vb) = choose|c: T, res: Option<T>, vf: T, vb: T|
            copy_of(e.1, c) && #[trigger] call_ensures(f, (c,), res) && copy_of(e.1, vf)
                && copy_of(e.1, vb) && ps == #[trigger] front_run(e.0, range, vf) + inner_run(
                e.0,
                range,
                res,
            ) + #[trigger] back_run(e.0, range, vb);
        let a = front_run(e.0, range, vf);
        let b = inner_run(e.0, range, res);
        let d = back_run(e.0, range, vb);
        if i < a.len() {
            assert(ps[i] == a[i]);
        } else if i < a.len() + b.len() {
            assert(ps[i] == b[i - a.len()]);
        } else {
            assert(ps[i] == d[i - a.len() - b.len()]);
        }
    }
}

/// After `f` has been applied inside the range, every key lies inside the
/// range or does not overlap it.
pub proof fn lemma_carved_all<T: Clone, F: Fn(T) -> Option<T>>(
    s: Seq<(TextRange, T)>,
    t: Seq<(TextRange, T)>,
    range: TextRange,
    f: F,
)
    requires
        piecewise(s, t, carve_rule(range, f)),
        range.valid(),
    ensures
        forall|i: int| 0 <= i < t.len() ==> inside_or_apart((#[trigger] t[i]).0, range),
{
    let rel = carve_rule::<T, F>(range, f);
    let good = |x: (TextRange, T)| inside_or_apart(x.0, range);
    assert forall|e: (TextRange, T), ps: Seq<(TextRange, T)>, i: int|
        #[trigger] rel(e, ps) && 0 <= i < ps.len() implies good(#[trigger] ps[i]) by {
        lemma_carved_keys(e, range, f, ps, i);
    }
    lemma_piecewise_all(s, t, rel, good);
}

impl<T: Clone> IntervalTree<T> {
    /// Applies `f` to the part inside `range` of the entry at index `i`,
    /// whose key is `key` and overlaps `range`.  The result is what is made
    /// of the entry.
    #[verifier::rlimit(40)]
    fn carve_at<F: Fn(T) -> Option<T>>(
        &mut self,
        key: TextRange,
        range: TextRange,
        f: &F,
        i: Ghost<int>,
    ) -> (ps: Ghost<Seq<(TextRange, T)>>)
        requires
            old(self).wf(),
            0 <= i@ < old(self)@.len(),
            old(self)@[i@].0 == key,
            key.overlaps(range),
            forall|c: T| call_requires(*f, (c,)),
        ensures
            final(self).wf(),
            carved(old(self)@[i@], range, *f, ps@),
            final(self)@ == old(self)@.take(i@) + ps@ + old(self)@.skip(i@ + 1),
            old(self).is_llrb() ==> final(self).is_llrb(),
    {
        let ghost s = self@;
        let ghost e = s[i@];
        let ghost mut at: int = i@;
        let ghost mut vf = e.1;
        let ghost mut vb = e.1;
        proof {
            self.lemma_wf_at(i@);
            lemma_copy_same(e.1);
        }
        let overlap = key.intersection(range).unwrap();
        let mut here = key;
        if key.start < overlap.start {
            let front = TextRange { start: key.start, end: overlap.start };
            here = TextRange { start: overlap.start, end: key.end };
            self.retarget_at(key, here, i);
            let val = self.value_at(here, i);
            let v = self.insert_gap(front, val, i);
            proof {
                lemma_copy_clone(e.1, e.1, val);
                lemma_copy_clone(e.1, val, v@);
                vf = v@;
                at = i@ + 1;
                lemma_splice(s, i@, (here, e.1), (front, vf));
            }
        } else {
            proof {
                lemma_splice(s, i@, e, e);
                assert(s.update(i@, e) =~= s);
            }
        }
        let ghost mid = self@;
        proof {
            assert(mid == s.take(i@) + (front_run(key, range, vf) + seq![(here, e.1)]) + s.skip(
                i@ + 1,
            )) by {
                assert(s.take(i@) + seq![(here, e.1)] =~= s.take(i@) + (Seq::empty() + seq![
                    (here, e.1),
                ]));
                assert(s.take(i@) + seq![(TextRange { start: key.start, end: range.start }, vf), (
                    here,
                    e.1,
                )] =~= s.take(i@) + (seq![
                    (TextRange { start: key.start, end: range.start }, vf),
                ] + seq![(here, e.1)]));
            }
            assert(mid[at] == (here, e.1));
            self.lemma_wf_at(at);
        }
        if overlap.end < here.end {
            let back = TextRange { start: overlap.end, end: here.end };
            self.retarget_at(here, overlap, Ghost(at));
            let val = self.value_at(overlap, Ghost(at));
            let v = self.insert_gap(back, val, Ghost(at + 1));
            proof {
                lemma_copy_clone(e.1, e.1, val);
                lemma_copy_clone(e.1, val, v@);
                vb = v@;
            }
        }
        let ghost late = self@;
        proof {
            assert(late =~= s.take(i@) + (front_run(key, range, vf) + seq![(overlap, e.1)]
                + back_run(key, range, vb)) + s.skip(i@ + 1));
            assert(late[at] == (overlap, e.1));
        }
        let c = self.value_at(overlap, Ghost(at));
        let res = f(c);
        match res {
            Some(v) => {
                self.revalue_at(overlap, v, Ghost(at));
            },
            None => {
                self.remove_at(overlap, Ghost(at));
            },
        }
        let ghost ps = front_run(key, range, vf) + inner_run(key, range, res) + back_run(
            key,
            range,
            vb,
        );
        proof {
            lemma_copy_clone(e.1, e.1, c);
            assert(self@ =~= s.take(i@) + ps + s.skip(i@ + 1));
            assert(copy_of(e.1, c) && call_ensures(*f, (c,), res) && copy_of(e.1, vf) && copy_of(
                e.1,
                vb,
            ));
        }
        Ghost(ps)
    }

    /// Applies `f` to the values of the intervals inside `range`, cutting
    /// the intervals that reach out of `range` at its borders so that `f`
    /// reaches their inner parts only.
    ///
    /// `f` takes a clone of the value of an interval and gives the value
    /// that the part inside `range` is to have, or `None` for deleting that
    /// part.  The parts outside `range` stay, each with a copy of the
    /// value.  Afterwards every interval lies inside `range` or does not
    /// overlap it.
    #[verifier::rlimit(40)]
    pub fn apply_with_split<F: Fn(T) -> Option<T>>(&mut self, f: F, range: TextRange)
        requires
            old(self).wf(),
            range.valid(),
            forall|c: T| call_requires(f, (c,)),
        ensures
            final(self).wf(),
            piecewise(old(self)@, final(self)@, carve_rule(range, f)),
            forall|i: int|
                0 <= i < final(self)@.len() ==> inside_or_apart(
                    (#[trigger] final(self)@[i]).0,
                    range,
                ),
            old(self).is_llrb() ==> final(self).is_llrb(),
    {
        let (keys, Ghost(i0)) = self.overlapping_keys(range);
        let ghost s = self@;
        let ghost was = self.is_llrb();
        let ghost rel = carve_rule::<T, F>(range, f);
        let ghost mut done = s.take(i0);
        proof {
            lemma_walk_start(s, i0, rel);
        }
        let mut k: usize = 0;
        while k < keys.len()
            invariant
                self.wf(),
                was ==> self.is_llrb(),
                0 <= k <= keys.len(),
                0 <= i0,
                i0 + keys@.len() <= s.len(),
                rel == carve_rule::<T, F>(range, f),
                forall|c: T| call_requires(f, (c,)),
                forall|j: int| 0 <= j < keys@.len() ==> #[trigger] keys@[j] == s[i0 + j].0,
                forall|j: int|
                    0 <= j < s.len() ==> ((#[trigger] s[j]).0.overlaps(range) <==> i0 <= j < i0
                        + keys@.len()),
                self@ == done + s.skip(i0 + k),
                piecewise(s.take(i0 + k), done, rel),
            decreases keys.len() - k,
        {
            let key = keys[k];
            let ghost e = s[i0 + k];
            let ghost before = self@;
            proof {
                lemma_rest_head(s, done, before, i0 + k);
                assert(e.0.overlaps(range));
            }
            let ps = self.carve_at(key, range, &f, Ghost(done.len() as int));
            proof {
                lemma_piecewise_push(s.take(i0 + k), done, rel, e, ps@);
                lemma_splice(s, i0 + k, e, e);
                lemma_splice_step(s, done, before, self@, ps@, i0 + k);
                done = done + ps@;
            }
            k += 1;
        }
        proof {
            lemma_walk_end(s, done, i0 + keys@.len(), rel);
            lemma_carved_all(s, self@, range, f);
        }
    }
}

} // verus!
