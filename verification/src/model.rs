//! The mathematical model of a tree: its entries in key order.
//!
//! A tree stands for the sequence of its `(key, value)` pairs as an in-order
//! walk meets them.  The predicates here speak of such sequences alone.
use crate::range::TextRange;
use vstd::prelude::*;

verus! {

/// Every key of `s` holds a position and lies inside `[lo, hi]`, and each key
/// ends where the next begins or before it.
pub open spec fn sorted_within<T>(s: Seq<(TextRange, T)>, lo: int, hi: int) -> bool {
    &&& forall|i: int|
        0 <= i < s.len() ==> lo <= (#[trigger] s[i]).0.start && s[i].0.start < s[i].0.end
            && s[i].0.end <= hi
    &&& forall|i: int, j: int|
        0 <= i < j < s.len() ==> (#[trigger] s[i]).0.end <= (#[trigger] s[j]).0.start
}

/// The keys of `s` hold a position each and come in ascending order without
/// overlap.
pub open spec fn sorted<T>(s: Seq<(TextRange, T)>) -> bool {
    sorted_within(s, 0, usize::MAX as int)
}

/// Some key of `s` holds position `p`.
pub open spec fn covers<T>(s: Seq<(TextRange, T)>, p: int) -> bool {
    exists|i: int| 0 <= i < s.len() && (#[trigger] s[i]).0.contains(p)
}

/// Some key of `s` starts or ends at `p`.
pub open spec fn cut_at<T>(s: Seq<(TextRange, T)>, p: int) -> bool {
    exists|i: int| 0 <= i < s.len() && ((#[trigger] s[i]).0.start == p || s[i].0.end == p)
}

/// Position `p` lies in a key of `s` that carries the value `v`.
pub open spec fn maps<T>(s: Seq<(TextRange, T)>, p: int, v: T) -> bool {
    exists|i: int| 0 <= i < s.len() && (#[trigger] s[i]).0.contains(p) && s[i].1 == v
}

/// `s` holds an entry with the key `key`.
pub open spec fn has_key<T>(s: Seq<(TextRange, T)>, key: TextRange) -> bool {
    exists|i: int| 0 <= i < s.len() && (#[trigger] s[i]).0 == key
}

/// Some key of `s` overlaps `key`.
pub open spec fn meets<T>(s: Seq<(TextRange, T)>, key: TextRange) -> bool {
    exists|i: int| 0 <= i < s.len() && (#[trigger] s[i]).0.overlaps(key)
}

/// A sequence made of a part, an entry and a part is sorted exactly when
/// both parts are, the entry holds a position, the first part ends where
/// the entry starts or before it, and the second part starts where the
/// entry ends or behind it.
pub proof fn lemma_sorted_concat<T>(
    a: Seq<(TextRange, T)>,
    e: (TextRange, T),
    b: Seq<(TextRange, T)>,
    lo: int,
    hi: int,
)
    ensures
        sorted_within(a.push(e) + b, lo, hi) <==> (lo <= e.0.start && e.0.start < e.0.end
            && e.0.end <= hi && sorted_within(a, lo, e.0.start as int) && sorted_within(
            b,
            e.0.end as int,
            hi,
        )),
{
    let s = a.push(e) + b;
    let n = a.len() as int;
    assert(s.len() == a.len() + 1 + b.len());
    assert(forall|i: int| 0 <= i < a.len() ==> s[i] == a[i]);
    assert(s[n] == e);
    assert(forall|i: int| 0 <= i < b.len() ==> s[n + 1 + i] == b[i]);
    if sorted_within(s, lo, hi) {
        assert(lo <= s[n].0.start);
        assert forall|i: int| 0 <= i < a.len() implies lo <= (#[trigger] a[i]).0.start
            && a[i].0.start < a[i].0.end && a[i].0.end <= e.0.start by {
            assert(s[i] == a[i]);
            assert(s[i].0.end <= s[n].0.start);
        }
        assert forall|i: int, j: int| 0 <= i < j < a.len() implies (#[trigger] a[i]).0.end <= (
        #[trigger] a[j]).0.start by {
            assert(s[i].0.end <= s[j].0.start);
        }
        assert forall|i: int| 0 <= i < b.len() implies e.0.end <= (#[trigger] b[i]).0.start
            && b[i].0.start < b[i].0.end && b[i].0.end <= hi by {
            assert(s[n + 1 + i] == b[i]);
            assert(s[n].0.end <= s[n + 1 + i].0.start);
        }
        assert forall|i: int, j: int| 0 <= i < j < b.len() implies (#[trigger] b[i]).0.end <= (
        #[trigger] b[j]).0.start by {
            assert(s[n + 1 + i].0.end <= s[n + 1 + j].0.start);
        }
    }
    if lo <= e.0.start && e.0.start < e.0.end && e.0.end <= hi && sorted_within(
        a,
        lo,
        e.0.start as int,
    ) && sorted_within(b, e.0.end as int, hi) {
        assert forall|i: int| 0 <= i < s.len() implies lo <= (#[trigger] s[i]).0.start
            && s[i].0.start < s[i].0.end && s[i].0.end <= hi by {
            if i < n {
                assert(s[i] == a[i]);
            } else if i > n {
                assert(s[n + 1 + (i - n - 1)] == b[i - n - 1]);
            }
        }
        assert forall|i: int, j: int| 0 <= i < j < s.len() implies (#[trigger] s[i]).0.end <= (
        #[trigger] s[j]).0.start by {
            if i < n {
                assert(s[i] == a[i]);
            } else if i > n {
                assert(s[n + 1 + (i - n - 1)] == b[i - n - 1]);
            }
            if j < n {
                assert(s[j] == a[j]);
            } else if j > n {
                assert(s[n + 1 + (j - n - 1)] == b[j - n - 1]);
            }
        }
    }
}

/// A sorted sequence inside `[lo, hi]` has at most `hi - lo` entries.
pub proof fn lemma_sorted_len<T>(s: Seq<(TextRange, T)>, lo: int, hi: int)
    requires
        sorted_within(s, lo, hi),
        lo <= hi,
    ensures
        s.len() <= hi - lo,
    decreases s.len(),
{
    if s.len() > 0 {
        let t = s.drop_last();
        let e = s.last();
        assert(s[s.len() - 1] == e);
        assert forall|i: int| 0 <= i < t.len() implies lo <= (#[trigger] t[i]).0.start
            && t[i].0.start < t[i].0.end && t[i].0.end <= e.0.start by {
            assert(t[i] == s[i]);
            assert(s[i].0.end <= s[s.len() - 1].0.start);
        }
        assert forall|i: int, j: int| 0 <= i < j < t.len() implies (#[trigger] t[i]).0.end <= (
        #[trigger] t[j]).0.start by {
            assert(s[i].0.end <= s[j].0.start);
        }
        lemma_sorted_len(t, lo, e.0.start as int);
    }
}

/// `c` starts with `a` and ends with `b`, and each of its values but the
/// first is a clone of the one before it.
pub open spec fn clone_chain<T: Clone>(c: Seq<T>, a: T, b: T) -> bool {
    &&& c.len() > 0
    &&& c[0] == a
    &&& c[c.len() - 1] == b
    &&& forall|i: int| 0 <= i < c.len() - 1 ==> cloned(#[trigger] c[i], c[i + 1])
}

/// `b` is `a` itself, a clone of it, or a clone of such a clone.
pub open spec fn copy_of<T: Clone>(a: T, b: T) -> bool {
    exists|c: Seq<T>| clone_chain(c, a, b)
}

/// `v` is what `f` makes of a copy of the incoming value `val` and a copy of
/// the stored value `u`.
pub open spec fn merged<T: Clone, F: Fn(T, T) -> T>(val: T, u: T, f: F, v: T) -> bool {
    exists|a: T, b: T| copy_of(val, a) && copy_of(u, b) && #[trigger] call_ensures(f, (a, b), v)
}

/// The value `v` is a fitting one for position `p` once `key` with `val` has
/// been put into `s`: outside `key` a copy of what `s` had there, inside it a
/// copy of `val`, merged by `f` with what `s` had there if it had anything.
pub open spec fn placed<T: Clone, F: Fn(T, T) -> T>(
    s: Seq<(TextRange, T)>,
    key: TextRange,
    val: T,
    f: F,
    p: int,
    v: T,
) -> bool {
    if key.contains(p) {
        if covers(s, p) {
            exists|u: T| #[trigger] maps(s, p, u) && merged(val, u, f, v)
        } else {
            copy_of(val, v)
        }
    } else {
        exists|u: T| #[trigger] maps(s, p, u) && copy_of(u, v)
    }
}

/// `t` is `s` after `key`, which holds a position, has been put in with
/// `val`: the positions of `key` are now covered, the keys are cut at both
/// ends of `key` and nowhere else anew, and every position has a fitting
/// value.
pub open spec fn inserted<T: Clone, F: Fn(T, T) -> T>(
    s: Seq<(TextRange, T)>,
    t: Seq<(TextRange, T)>,
    key: TextRange,
    val: T,
    f: F,
) -> bool {
    &&& forall|p: int| #[trigger] covers(t, p) <==> covers(s, p) || key.contains(p)
    &&& forall|p: int| #[trigger] cut_at(t, p) <==> cut_at(s, p) || p == key.start || p == key.end
    &&& forall|p: int, v: T| #[trigger] maps(t, p, v) ==> placed(s, key, val, f, p, v)
}

/// `inserted`, or nothing changed where `key` holds no position.
pub open spec fn grown<T: Clone, F: Fn(T, T) -> T>(
    s: Seq<(TextRange, T)>,
    t: Seq<(TextRange, T)>,
    key: TextRange,
    val: T,
    f: F,
) -> bool {
    if key.is_empty() {
        t == s
    } else {
        inserted(s, t, key, val, f)
    }
}

/// `t` is `s` with one more entry, which has the key `key` and a clone of
/// `val`.
pub open spec fn added<T: Clone>(
    s: Seq<(TextRange, T)>,
    t: Seq<(TextRange, T)>,
    key: TextRange,
    val: T,
) -> bool {
    exists|i: int, v: T|
        0 <= i <= s.len() && cloned(val, v) && #[trigger] s.insert(i, (key, v)) == t
}

/// What lies between the starts of two ranges.
pub open spec fn left_tail(a: TextRange, b: TextRange) -> TextRange {
    if a.start <= b.start {
        TextRange { start: a.start, end: b.start }
    } else {
        TextRange { start: b.start, end: a.start }
    }
}

/// What lies between the ends of two ranges.
pub open spec fn right_tail(a: TextRange, b: TextRange) -> TextRange {
    if a.end <= b.end {
        TextRange { start: a.end, end: b.end }
    } else {
        TextRange { start: b.end, end: a.end }
    }
}

/// A value is a copy of itself.
pub proof fn lemma_copy_same<T: Clone>(a: T)
    ensures
        copy_of(a, a),
{
    assert(clone_chain(seq![a], a, a));
}

/// A clone of a copy is a copy.
pub proof fn lemma_copy_clone<T: Clone>(a: T, b: T, c: T)
    requires
        copy_of(a, b),
        cloned(b, c),
    ensures
        copy_of(a, c),
{
    let ch = choose|ch: Seq<T>| clone_chain(ch, a, b);
    assert(clone_chain(ch.push(c), a, c));
}

/// A copy of a copy is a copy.
pub proof fn lemma_copy_chain<T: Clone>(a: T, b: T, c: T)
    requires
        copy_of(a, b),
        copy_of(b, c),
    ensures
        copy_of(a, c),
{
    let x = choose|x: Seq<T>| clone_chain(x, a, b);
    let y = choose|y: Seq<T>| clone_chain(y, b, c);
    let z = x + y.subrange(1, y.len() as int);
    assert forall|i: int| 0 <= i < z.len() - 1 implies cloned(#[trigger] z[i], z[i + 1]) by {
        if i < x.len() - 1 {
        } else if i == x.len() - 1 {
            assert(z[i] == y[0]);
            assert(z[i + 1] == y[1]);
        } else {
            assert(z[i] == y[i - x.len() + 1]);
            assert(z[i + 1] == y[i - x.len() + 2]);
        }
    }
    assert(clone_chain(z, a, c));
}

/// A value merged from a copy of `val` is one merged from `val`.
pub proof fn lemma_merged_from<T: Clone, F: Fn(T, T) -> T>(val: T, w: T, u: T, f: F, v: T)
    requires
        copy_of(val, w),
        merged(w, u, f, v),
    ensures
        merged(val, u, f, v),
{
    let (a, b) = choose|a: T, b: T|
        copy_of(w, a) && copy_of(u, b) && #[trigger] call_ensures(f, (a, b), v);
    lemma_copy_chain(val, w, a);
    assert(copy_of(val, a) && copy_of(u, b) && call_ensures(f, (a, b), v));
}

/// How the entries of a node and of its two subtrees make up those of the
/// whole, position by position.
pub proof fn lemma_node_parts<T>(
    a: Seq<(TextRange, T)>,
    e: (TextRange, T),
    b: Seq<(TextRange, T)>,
    p: int,
)
    ensures
        covers(a.push(e) + b, p) <==> covers(a, p) || e.0.contains(p) || covers(b, p),
        cut_at(a.push(e) + b, p) <==> cut_at(a, p) || e.0.start == p || e.0.end == p || cut_at(
            b,
            p,
        ),
{
    let s = a.push(e) + b;
    let n = a.len() as int;
    assert(forall|i: int| 0 <= i < n ==> s[i] == a[i]);
    assert(s[n] == e);
    assert(forall|i: int| 0 <= i < b.len() ==> s[n + 1 + i] == b[i]);
    if covers(s, p) {
        let i = choose|i: int| 0 <= i < s.len() && (#[trigger] s[i]).0.contains(p);
        if i < n {
            assert(a[i].0.contains(p));
        } else if i > n {
            assert(s[n + 1 + (i - n - 1)] == b[i - n - 1]);
            assert(b[i - n - 1].0.contains(p));
        }
    }
    if covers(a, p) {
        let i = choose|i: int| 0 <= i < a.len() && (#[trigger] a[i]).0.contains(p);
        assert(s[i].0.contains(p));
    }
    if e.0.contains(p) {
        assert(s[n].0.contains(p));
    }
    if covers(b, p) {
        let i = choose|i: int| 0 <= i < b.len() && (#[trigger] b[i]).0.contains(p);
        assert(s[n + 1 + i].0.contains(p));
    }
    if cut_at(s, p) {
        let i = choose|i: int|
            0 <= i < s.len() && ((#[trigger] s[i]).0.start == p || s[i].0.end == p);
        if i < n {
            assert(a[i].0.start == p || a[i].0.end == p);
        } else if i > n {
            assert(s[n + 1 + (i - n - 1)] == b[i - n - 1]);
            assert(b[i - n - 1].0.start == p || b[i - n - 1].0.end == p);
        }
    }
    if cut_at(a, p) {
        let i = choose|i: int|
            0 <= i < a.len() && ((#[trigger] a[i]).0.start == p || a[i].0.end == p);
        assert(s[i].0.start == p || s[i].0.end == p);
    }
    if e.0.start == p || e.0.end == p {
        assert(s[n].0.start == p || s[n].0.end == p);
    }
    if cut_at(b, p) {
        let i = choose|i: int|
            0 <= i < b.len() && ((#[trigger] b[i]).0.start == p || b[i].0.end == p);
        assert(s[n + 1 + i].0.start == p || s[n + 1 + i].0.end == p);
    }
}

/// `lemma_node_parts` for the values.
pub proof fn lemma_node_maps<T>(
    a: Seq<(TextRange, T)>,
    e: (TextRange, T),
    b: Seq<(TextRange, T)>,
    p: int,
    v: T,
)
    ensures
        maps(a.push(e) + b, p, v) <==> maps(a, p, v) || (e.0.contains(p) && e.1 == v) || maps(
            b,
            p,
            v,
        ),
{
    let s = a.push(e) + b;
    let n = a.len() as int;
    assert(forall|i: int| 0 <= i < n ==> s[i] == a[i]);
    assert(s[n] == e);
    assert(forall|i: int| 0 <= i < b.len() ==> s[n + 1 + i] == b[i]);
    if maps(s, p, v) {
        let i = choose|i: int| 0 <= i < s.len() && (#[trigger] s[i]).0.contains(p) && s[i].1 == v;
        if i < n {
            assert(a[i].0.contains(p) && a[i].1 == v);
        } else if i > n {
            assert(s[n + 1 + (i - n - 1)] == b[i - n - 1]);
            assert(b[i - n - 1].0.contains(p) && b[i - n - 1].1 == v);
        }
    }
    if maps(a, p, v) {
        let i = choose|i: int| 0 <= i < a.len() && (#[trigger] a[i]).0.contains(p) && a[i].1 == v;
        assert(s[i].0.contains(p) && s[i].1 == v);
    }
    if e.0.contains(p) && e.1 == v {
        assert(s[n].0.contains(p) && s[n].1 == v);
    }
    if maps(b, p, v) {
        let i = choose|i: int| 0 <= i < b.len() && (#[trigger] b[i]).0.contains(p) && b[i].1 == v;
        assert(s[n + 1 + i].0.contains(p) && s[n + 1 + i].1 == v);
    }
}

/// What a sorted sequence inside `[lo, hi]` covers lies inside `[lo, hi)`,
/// and its cuts inside `[lo, hi]`.
pub proof fn lemma_sorted_reach<T>(s: Seq<(TextRange, T)>, lo: int, hi: int, p: int)
    requires
        sorted_within(s, lo, hi),
    ensures
        covers(s, p) ==> lo <= p < hi,
        cut_at(s, p) ==> lo <= p <= hi,
        forall|v: T| maps(s, p, v) ==> covers(s, p),
{
    assert forall|v: T| maps(s, p, v) implies covers(s, p) by {
        let i = choose|i: int| 0 <= i < s.len() && (#[trigger] s[i]).0.contains(p) && s[i].1 == v;
        assert(s[i].0.contains(p));
    }
}

/// Putting a key into an empty sequence.
pub proof fn lemma_insert_first<T: Clone, F: Fn(T, T) -> T>(key: TextRange, val: T, v: T, f: F)
    requires
        key.start < key.end,
        cloned(val, v),
    ensures
        inserted(Seq::<(TextRange, T)>::empty(), seq![(key, v)], key, val, f),
        added(Seq::<(TextRange, T)>::empty(), seq![(key, v)], key, val),
{
    let s = Seq::<(TextRange, T)>::empty();
    let t = seq![(key, v)];
    lemma_copy_same(val);
    lemma_copy_clone(val, val, v);
    assert forall|p: int| #[trigger] covers(t, p) <==> covers(s, p) || key.contains(p) by {
        if key.contains(p) {
            assert(t[0].0.contains(p));
        }
    }
    assert forall|p: int| #[trigger]
        cut_at(t, p) <==> cut_at(s, p) || p == key.start || p == key.end by {
        if p == key.start || p == key.end {
            assert(t[0].0.start == p || t[0].0.end == p);
        }
    }
    assert forall|p: int, w: T| #[trigger] maps(t, p, w) implies placed(s, key, val, f, p, w) by {
        let i = choose|i: int| 0 <= i < t.len() && (#[trigger] t[i]).0.contains(p) && t[i].1 == w;
        assert(w == v);
    }
    assert(s.insert(0, (key, v)) =~= t);
}

/// Putting a key into the left subtree of a node that it does not reach.
pub proof fn lemma_insert_left<T: Clone, F: Fn(T, T) -> T>(
    l: Seq<(TextRange, T)>,
    e: (TextRange, T),
    r: Seq<(TextRange, T)>,
    l2: Seq<(TextRange, T)>,
    key: TextRange,
    val: T,
    f: F,
    lo: int,
    hi: int,
)
    requires
        sorted_within(l.push(e) + r, lo, hi),
        key.start < key.end <= e.0.start,
        inserted(l, l2, key, val, f),
    ensures
        inserted(l.push(e) + r, l2.push(e) + r, key, val, f),
        added(l, l2, key, val) ==> added(l.push(e) + r, l2.push(e) + r, key, val),
        meets(l, key) ==> meets(l.push(e) + r, key),
{
    let s = l.push(e) + r;
    let t = l2.push(e) + r;
    lemma_sorted_concat(l, e, r, lo, hi);
    assert forall|p: int| #[trigger] covers(t, p) <==> covers(s, p) || key.contains(p) by {
        lemma_node_parts(l, e, r, p);
        lemma_node_parts(l2, e, r, p);
        assert(covers(l2, p) <==> covers(l, p) || key.contains(p));
    }
    assert forall|p: int| #[trigger]
        cut_at(t, p) <==> cut_at(s, p) || p == key.start || p == key.end by {
        lemma_node_parts(l, e, r, p);
        lemma_node_parts(l2, e, r, p);
        assert(cut_at(l2, p) <==> cut_at(l, p) || p == key.start || p == key.end);
    }
    assert forall|p: int, v: T| #[trigger] maps(t, p, v) implies placed(s, key, val, f, p, v) by {
        lemma_node_parts(l, e, r, p);
        lemma_node_maps(l2, e, r, p, v);
        lemma_sorted_reach(r, e.0.end as int, hi, p);
        if maps(l2, p, v) {
            assert(placed(l, key, val, f, p, v));
            if key.contains(p) {
                if covers(l, p) {
                    let u = choose|u: T| #[trigger] maps(l, p, u) && merged(val, u, f, v);
                    lemma_node_maps(l, e, r, p, u);
                    assert(maps(s, p, u) && merged(val, u, f, v));
                }
            } else {
                let u = choose|u: T| #[trigger] maps(l, p, u) && copy_of(u, v);
                lemma_node_maps(l, e, r, p, u);
                assert(maps(s, p, u) && copy_of(u, v));
            }
        } else {
            lemma_node_maps(l, e, r, p, v);
            lemma_copy_same(v);
            assert(maps(s, p, v) && copy_of(v, v));
        }
    }
    if added(l, l2, key, val) {
        let (i, v) = choose|i: int, v: T|
            0 <= i <= l.len() && cloned(val, v) && #[trigger] l.insert(i, (key, v)) == l2;
        assert(s.insert(i, (key, v)) =~= t);
    }
    if meets(l, key) {
        let i = choose|i: int| 0 <= i < l.len() && (#[trigger] l[i]).0.overlaps(key);
        assert(s[i] == l[i]);
    }
}

/// Putting a key into the right subtree of a node that it does not reach.
pub proof fn lemma_insert_right<T: Clone, F: Fn(T, T) -> T>(
    l: Seq<(TextRange, T)>,
    e: (TextRange, T),
    r: Seq<(TextRange, T)>,
    r2: Seq<(TextRange, T)>,
    key: TextRange,
    val: T,
    f: F,
    lo: int,
    hi: int,
)
    requires
        sorted_within(l.push(e) + r, lo, hi),
        e.0.end <= key.start < key.end,
        inserted(r, r2, key, val, f),
    ensures
        inserted(l.push(e) + r, l.push(e) + r2, key, val, f),
        added(r, r2, key, val) ==> added(l.push(e) + r, l.push(e) + r2, key, val),
        meets(r, key) ==> meets(l.push(e) + r, key),
{
    let s = l.push(e) + r;
    let t = l.push(e) + r2;
    lemma_sorted_concat(l, e, r, lo, hi);
    assert forall|p: int| #[trigger] covers(t, p) <==> covers(s, p) || key.contains(p) by {
        lemma_node_parts(l, e, r, p);
        lemma_node_parts(l, e, r2, p);
        assert(covers(r2, p) <==> covers(r, p) || key.contains(p));
    }
    assert forall|p: int| #[trigger]
        cut_at(t, p) <==> cut_at(s, p) || p == key.start || p == key.end by {
        lemma_node_parts(l, e, r, p);
        lemma_node_parts(l, e, r2, p);
        assert(cut_at(r2, p) <==> cut_at(r, p) || p == key.start || p == key.end);
    }
    assert forall|p: int, v: T| #[trigger] maps(t, p, v) implies placed(s, key, val, f, p, v) by {
        lemma_node_parts(l, e, r, p);
        lemma_node_maps(l, e, r2, p, v);
        lemma_sorted_reach(l, lo, e.0.start as int, p);
        if maps(r2, p, v) {
            assert(placed(r, key, val, f, p, v));
            if key.contains(p) {
                if covers(r, p) {
                    let u = choose|u: T| #[trigger] maps(r, p, u) && merged(val, u, f, v);
                    lemma_node_maps(l, e, r, p, u);
                    assert(maps(s, p, u) && merged(val, u, f, v));
                }
            } else {
                let u = choose|u: T| #[trigger] maps(r, p, u) && copy_of(u, v);
                lemma_node_maps(l, e, r, p, u);
                assert(maps(s, p, u) && copy_of(u, v));
            }
        } else {
            lemma_node_maps(l, e, r, p, v);
            lemma_copy_same(v);
            assert(maps(s, p, v) && copy_of(v, v));
        }
    }
    if added(r, r2, key, val) {
        let (i, v) = choose|i: int, v: T|
            0 <= i <= r.len() && cloned(val, v) && #[trigger] r.insert(i, (key, v)) == r2;
        assert(s.insert(l.len() + 1 + i, (key, v)) =~= t);
    }
    if meets(r, key) {
        let i = choose|i: int| 0 <= i < r.len() && (#[trigger] r[i]).0.overlaps(key);
        assert(s[l.len() + 1 + i] == r[i]);
    }
}

/// Putting a key in at a node that it overlaps: the common part stays at the
/// node with the merged value, and what either range has beyond the other on
/// a side goes into the subtree of that side.
#[verifier::rlimit(40)]
pub proof fn lemma_insert_split<T: Clone, F: Fn(T, T) -> T>(
    l: Seq<(TextRange, T)>,
    e: (TextRange, T),
    r: Seq<(TextRange, T)>,
    l2: Seq<(TextRange, T)>,
    r2: Seq<(TextRange, T)>,
    key: TextRange,
    val: T,
    f: F,
    vl: T,
    vr: T,
    v2: T,
    lo: int,
    hi: int,
)
    requires
        sorted_within(l.push(e) + r, lo, hi),
        key.overlaps(e.0),
        grown(l, l2, left_tail(key, e.0), vl, f),
        grown(r, r2, right_tail(key, e.0), vr, f),
        key.start < e.0.start ==> copy_of(val, vl),
        key.start > e.0.start ==> copy_of(e.1, vl),
        key.end < e.0.end ==> copy_of(e.1, vr),
        key.end > e.0.end ==> copy_of(val, vr),
        merged(val, e.1, f, v2),
    ensures
        inserted(l.push(e) + r, l2.push((key.common(e.0).unwrap(), v2)) + r2, key, val, f),
        meets(l.push(e) + r, key),
{
    let s = l.push(e) + r;
    let mid = key.common(e.0).unwrap();
    let e2 = (mid, v2);
    let t = l2.push(e2) + r2;
    let kl = left_tail(key, e.0);
    let kr = right_tail(key, e.0);
    lemma_sorted_concat(l, e, r, lo, hi);
    assert(s[l.len() as int] == e);
    assert forall|p: int| #[trigger] covers(t, p) <==> covers(s, p) || key.contains(p) by {
        lemma_node_parts(l, e, r, p);
        lemma_node_parts(l2, e2, r2, p);
        assert(covers(l2, p) <==> covers(l, p) || kl.contains(p));
        assert(covers(r2, p) <==> covers(r, p) || kr.contains(p));
    }
    assert forall|p: int| #[trigger]
        cut_at(t, p) <==> cut_at(s, p) || p == key.start || p == key.end by {
        lemma_node_parts(l, e, r, p);
        lemma_node_parts(l2, e2, r2, p);
        assert(cut_at(l2, p) <==> cut_at(l, p) || (!kl.is_empty() && (p == kl.start || p
            == kl.end)));
        assert(cut_at(r2, p) <==> cut_at(r, p) || (!kr.is_empty() && (p == kr.start || p
            == kr.end)));
    }
    assert forall|p: int, v: T| #[trigger] maps(t, p, v) implies placed(s, key, val, f, p, v) by {
        lemma_node_parts(l, e, r, p);
        lemma_node_maps(l2, e2, r2, p, v);
        lemma_sorted_reach(l, lo, e.0.start as int, p);
        lemma_sorted_reach(r, e.0.end as int, hi, p);
        if maps(l2, p, v) {
            lemma_side_value(l, e, r, l2, key, val, f, vl, kl, p, v);
        } else if maps(r2, p, v) {
            lemma_side_value(l, e, r, r2, key, val, f, vr, kr, p, v);
        } else {
            lemma_node_maps(l, e, r, p, e.1);
            assert(maps(s, p, e.1) && merged(val, e.1, f, v));
        }
    }
}

/// The part of `lemma_insert_split` on the values of a side.
#[verifier::rlimit(40)]
proof fn lemma_side_value<T: Clone, F: Fn(T, T) -> T>(
    l: Seq<(TextRange, T)>,
    e: (TextRange, T),
    r: Seq<(TextRange, T)>,
    x2: Seq<(TextRange, T)>,
    key: TextRange,
    val: T,
    f: F,
    vx: T,
    kx: TextRange,
    p: int,
    v: T,
)
    requires
        key.overlaps(e.0),
        maps(x2, p, v),
        ({
            ||| (kx == left_tail(key, e.0) && grown(l, x2, kx, vx, f) && (covers(l, p) ==> p
                < e.0.start) && (key.start < e.0.start ==> copy_of(val, vx)) && (key.start
                > e.0.start ==> copy_of(e.1, vx)))
            ||| (kx == right_tail(key, e.0) && grown(r, x2, kx, vx, f) && (covers(r, p) ==> p
                >= e.0.end) && (key.end < e.0.end ==> copy_of(e.1, vx)) && (key.end > e.0.end
                ==> copy_of(val, vx)))
        }),
        !covers(l, p) || !covers(r, p),
        covers(l, p) ==> p < e.0.start,
        covers(r, p) ==> p >= e.0.end,
    ensures
        placed(l.push(e) + r, key, val, f, p, v),
{
    let s = l.push(e) + r;
    let left = kx == left_tail(key, e.0) && grown(l, x2, kx, vx, f) && (covers(l, p) ==> p
        < e.0.start) && (key.start < e.0.start ==> copy_of(val, vx)) && (key.start > e.0.start
        ==> copy_of(e.1, vx));
    let x = if left {
        l
    } else {
        r
    };
    lemma_node_parts(l, e, r, p);
    lemma_copy_same(v);
    assert forall|u: T| maps(x, p, u) implies maps(s, p, u) && covers(x, p) by {
        lemma_node_maps(l, e, r, p, u);
        let i = choose|i: int| 0 <= i < x.len() && (#[trigger] x[i]).0.contains(p) && x[i].1 == u;
        assert(x[i].0.contains(p));
    }
    if kx.is_empty() {
        assert(maps(s, p, v) && copy_of(v, v));
    } else {
        assert(placed(x, kx, vx, f, p, v));
        let from_key = if left {
            key.start < e.0.start
        } else {
            key.end > e.0.end
        };
        if kx.contains(p) {
            if covers(x, p) {
                let u = choose|u: T| #[trigger] maps(x, p, u) && merged(vx, u, f, v);
                assert(from_key);
                lemma_merged_from(val, vx, u, f, v);
                assert(maps(s, p, u) && merged(val, u, f, v));
            } else if from_key {
                lemma_copy_chain(val, vx, v);
            } else {
                lemma_node_maps(l, e, r, p, e.1);
                lemma_copy_chain(e.1, vx, v);
                assert(maps(s, p, e.1) && copy_of(e.1, v));
            }
        } else {
            let u = choose|u: T| #[trigger] maps(x, p, u) && copy_of(u, v);
            assert(maps(s, p, u) && copy_of(u, v));
        }
    }
}

/// `t` is `s` without its entry `(key, val)`.
pub open spec fn removed<T>(
    s: Seq<(TextRange, T)>,
    t: Seq<(TextRange, T)>,
    key: TextRange,
    val: T,
) -> bool {
    exists|i: int| 0 <= i < s.len() && #[trigger] s[i] == (key, val) && t == s.remove(i)
}

/// In a sorted sequence, a key that comes before the key at `k` in the order
/// of ranges is not found at `k` or behind it, and one that does not come
/// before it is not found in front of `k`.
pub proof fn lemma_sorted_side<T>(s: Seq<(TextRange, T)>, lo: int, hi: int, k: int, key: TextRange)
    requires
        sorted_within(s, lo, hi),
        0 <= k < s.len(),
    ensures
        key.lex_lt(s[k].0) ==> forall|i: int| k <= i < s.len() ==> (#[trigger] s[i]).0 != key,
        !key.lex_lt(s[k].0) ==> forall|i: int| 0 <= i < k ==> (#[trigger] s[i]).0 != key,
{
    if key.lex_lt(s[k].0) {
        assert forall|i: int| k <= i < s.len() implies (#[trigger] s[i]).0 != key by {
            if i > k {
                assert(s[k].0.end <= s[i].0.start);
            }
        }
    } else {
        assert forall|i: int| 0 <= i < k implies (#[trigger] s[i]).0 != key by {
            assert(s[i].0.end <= s[k].0.start);
        }
    }
}

/// Taking an entry out of the left or the right part of a sequence takes it
/// out of the whole.
pub proof fn lemma_remove_part<T>(
    l: Seq<(TextRange, T)>,
    e: (TextRange, T),
    r: Seq<(TextRange, T)>,
    i: int,
)
    ensures
        0 <= i < l.len() ==> l.remove(i).push(e) + r == (l.push(e) + r).remove(i) && (l.push(e)
            + r)[i] == l[i],
        0 <= i < r.len() ==> l.push(e) + r.remove(i) == (l.push(e) + r).remove(l.len() + 1 + i)
            && (l.push(e) + r)[l.len() + 1 + i] == r[i],
        (l.push(e) + r).remove(l.len() as int) == l + r,
        (l.push(e) + r)[l.len() as int] == e,
{
    if 0 <= i < l.len() {
        assert(l.remove(i).push(e) + r =~= (l.push(e) + r).remove(i));
    }
    if 0 <= i < r.len() {
        assert(l.push(e) + r.remove(i) =~= (l.push(e) + r).remove(l.len() + 1 + i));
    }
    assert((l.push(e) + r).remove(l.len() as int) =~= l + r);
}

/// What is left of a sorted sequence without its first entry starts where
/// that entry ends or later, and what is left without its last entry ends
/// where that entry starts or earlier.
pub proof fn lemma_sorted_rest<T>(s: Seq<(TextRange, T)>, lo: int, hi: int)
    requires
        sorted_within(s, lo, hi),
        s.len() > 0,
    ensures
        sorted_within(s.drop_first(), s.first().0.end as int, hi),
        sorted_within(s.drop_last(), lo, s.last().0.start as int),
{
    let a = s.drop_first();
    assert forall|i: int| 0 <= i < a.len() implies s[0].0.end <= (#[trigger] a[i]).0.start
        && a[i].0.start < a[i].0.end && a[i].0.end <= hi by {
        assert(a[i] == s[i + 1]);
        assert(s[0].0.end <= s[i + 1].0.start);
    }
    assert forall|i: int, j: int| 0 <= i < j < a.len() implies (#[trigger] a[i]).0.end <= (
    #[trigger] a[j]).0.start by {
        assert(s[i + 1].0.end <= s[j + 1].0.start);
    }
    let b = s.drop_last();
    assert forall|i: int| 0 <= i < b.len() implies lo <= (#[trigger] b[i]).0.start
        && b[i].0.start < b[i].0.end && b[i].0.end <= s.last().0.start by {
        assert(b[i] == s[i]);
        assert(s[i].0.end <= s[s.len() - 1].0.start);
    }
    assert forall|i: int, j: int| 0 <= i < j < b.len() implies (#[trigger] b[i]).0.end <= (
    #[trigger] b[j]).0.start by {
        assert(s[i].0.end <= s[j].0.start);
    }
}

/// Dropping the first entry of the left part, or the last of the right part,
/// drops it from the whole.
pub proof fn lemma_drop_ends<T>(l: Seq<(TextRange, T)>, e: (TextRange, T), r: Seq<(TextRange, T)>)
    ensures
        l.len() > 0 ==> l.drop_first().push(e) + r == (l.push(e) + r).drop_first() && (l.push(e)
            + r).first() == l.first(),
        r.len() > 0 ==> l.push(e) + r.drop_last() == (l.push(e) + r).drop_last() && (l.push(e)
            + r).last() == r.last(),
        l.len() == 0 ==> (l.push(e) + r).drop_first() == r && (l.push(e) + r).first() == e,
        r.len() == 0 ==> (l.push(e) + r).drop_last() == l && (l.push(e) + r).last() == e,
{
    if l.len() > 0 {
        assert(l.drop_first().push(e) + r =~= (l.push(e) + r).drop_first());
    } else {
        assert((l.push(e) + r).drop_first() =~= r);
    }
    if r.len() > 0 {
        assert(l.push(e) + r.drop_last() =~= (l.push(e) + r).drop_last());
    } else {
        assert((l.push(e) + r).drop_last() =~= l);
    }
}

/// A sorted sequence stays sorted when an entry is taken out.
pub proof fn lemma_sorted_remove<T>(s: Seq<(TextRange, T)>, lo: int, hi: int, i: int)
    requires
        sorted_within(s, lo, hi),
        0 <= i < s.len(),
    ensures
        sorted_within(s.remove(i), lo, hi),
{
    let t = s.remove(i);
    assert forall|a: int| 0 <= a < t.len() implies lo <= (#[trigger] t[a]).0.start
        && t[a].0.start < t[a].0.end && t[a].0.end <= hi by {
        if a < i {
            assert(t[a] == s[a]);
        } else {
            assert(t[a] == s[a + 1]);
        }
    }
    assert forall|a: int, b: int| 0 <= a < b < t.len() implies (#[trigger] t[a]).0.end <= (
    #[trigger] t[b]).0.start by {
        let a2 = if a < i {
            a
        } else {
            a + 1
        };
        let b2 = if b < i {
            b
        } else {
            b + 1
        };
        assert(t[a] == s[a2]);
        assert(t[b] == s[b2]);
        assert(s[a2].0.end <= s[b2].0.start);
    }
}

/// What taking a key out of the left or the right part of a sorted sequence
/// means for the whole, given on which side of the middle entry the key
/// belongs.  `v` is the value that was taken out with the key, if one was.
pub proof fn lemma_took_part<T>(
    l: Seq<(TextRange, T)>,
    e: (TextRange, T),
    r: Seq<(TextRange, T)>,
    part: Seq<(TextRange, T)>,
    key: TextRange,
    v: Option<T>,
    lo: int,
    hi: int,
)
    requires
        sorted_within(l.push(e) + r, lo, hi),
        e.0 != key,
    ensures
        key.lex_lt(e.0) && v.is_some() && removed(l, part, key, v.unwrap()) ==> removed(
            l.push(e) + r,
            part.push(e) + r,
            key,
            v.unwrap(),
        ),
        key.lex_lt(e.0) && !has_key(l, key) ==> !has_key(l.push(e) + r, key),
        !key.lex_lt(e.0) && v.is_some() && removed(r, part, key, v.unwrap()) ==> removed(
            l.push(e) + r,
            l.push(e) + part,
            key,
            v.unwrap(),
        ),
        !key.lex_lt(e.0) && !has_key(r, key) ==> !has_key(l.push(e) + r, key),
{
    let s = l.push(e) + r;
    let n = l.len() as int;
    lemma_sorted_side(s, lo, hi, n, key);
    assert(s[n] == e);
    if key.lex_lt(e.0) {
        if v.is_some() && removed(l, part, key, v.unwrap()) {
            let i = choose|i: int|
                0 <= i < l.len() && #[trigger] l[i] == (key, v.unwrap()) && part == l.remove(i);
            lemma_remove_part(l, e, r, i);
            assert(s[i] == (key, v.unwrap()));
        }
        if !has_key(l, key) {
            assert forall|i: int| 0 <= i < s.len() implies (#[trigger] s[i]).0 != key by {
                if i < n {
                    assert(s[i] == l[i]);
                    assert(l[i].0 != key);
                }
            }
        }
    } else {
        if v.is_some() && removed(r, part, key, v.unwrap()) {
            let i = choose|i: int|
                0 <= i < r.len() && #[trigger] r[i] == (key, v.unwrap()) && part == r.remove(i);
            lemma_remove_part(l, e, r, i);
            assert(s[n + 1 + i] == (key, v.unwrap()));
        }
        if !has_key(r, key) {
            assert forall|i: int| 0 <= i < s.len() implies (#[trigger] s[i]).0 != key by {
                if i > n {
                    assert(s[n + 1 + (i - n - 1)] == r[i - n - 1]);
                    assert(r[i - n - 1].0 != key);
                }
            }
        }
    }
}

/// The key `k` after `len` positions have been put into the text at `p`: a
/// key that starts behind `p` moves as a whole, one that holds `p` grows at
/// its end, and one that ends at `p` or before it stays.
pub open spec fn shifted(k: TextRange, p: int, len: int) -> TextRange {
    if k.start > p {
        TextRange { start: (k.start + len) as usize, end: (k.end + len) as usize }
    } else if k.end > p {
        TextRange { start: k.start, end: (k.end + len) as usize }
    } else {
        k
    }
}

/// The entries `s` after `len` positions have been put into the text at `p`.
pub open spec fn advanced<T>(s: Seq<(TextRange, T)>, p: int, len: int) -> Seq<(TextRange, T)> {
    s.map_values(|e: (TextRange, T)| (shifted(e.0, p, len), e.1))
}

/// Every key of `s` that reaches beyond `p` can grow by `len` without
/// leaving the range of positions.
pub open spec fn room_for<T>(s: Seq<(TextRange, T)>, p: int, len: int) -> bool {
    forall|i: int| 0 <= i < s.len() && (#[trigger] s[i]).0.end > p ==> s[i].0.end + len <= usize::MAX
}

/// How `advanced` goes through the entries of a node and its subtrees.
pub proof fn lemma_advanced_parts<T>(
    l: Seq<(TextRange, T)>,
    e: (TextRange, T),
    r: Seq<(TextRange, T)>,
    p: int,
    len: int,
)
    ensures
        advanced(l.push(e) + r, p, len) == advanced(l, p, len).push((shifted(e.0, p, len), e.1))
            + advanced(r, p, len),
        room_for(l.push(e) + r, p, len) ==> room_for(l, p, len) && room_for(r, p, len) && (e.0.end
            > p ==> e.0.end + len <= usize::MAX),
{
    let s = l.push(e) + r;
    assert(advanced(s, p, len) =~= advanced(l, p, len).push((shifted(e.0, p, len), e.1))
        + advanced(r, p, len));
    if room_for(s, p, len) {
        assert forall|i: int| 0 <= i < l.len() && (#[trigger] l[i]).0.end > p implies l[i].0.end
            + len <= usize::MAX by {
            assert(s[i] == l[i]);
        }
        assert forall|i: int| 0 <= i < r.len() && (#[trigger] r[i]).0.end > p implies r[i].0.end
            + len <= usize::MAX by {
            assert(s[l.len() + 1 + i] == r[i]);
        }
        assert(s[l.len() as int] == e);
    }
}

/// Sorted entries stay sorted when positions are put into the text.
pub proof fn lemma_advanced_sorted<T>(s: Seq<(TextRange, T)>, p: int, len: int)
    requires
        sorted(s),
        room_for(s, p, len),
        0 <= len,
        0 <= p,
    ensures
        sorted(advanced(s, p, len)),
{
    let t = advanced(s, p, len);
    assert forall|i: int| 0 <= i < t.len() implies 0 <= (#[trigger] t[i]).0.start && t[i].0.start
        < t[i].0.end && t[i].0.end <= usize::MAX by {
        assert(t[i].0 == shifted(s[i].0, p, len));
        assert(s[i].0.start < s[i].0.end);
    }
    assert forall|i: int, j: int| 0 <= i < j < t.len() implies (#[trigger] t[i]).0.end <= (
    #[trigger] t[j]).0.start by {
        assert(t[i].0 == shifted(s[i].0, p, len));
        assert(t[j].0 == shifted(s[j].0, p, len));
        assert(s[i].0.end <= s[j].0.start);
        assert(s[i].0.start < s[i].0.end);
        assert(s[j].0.start < s[j].0.end);
    }
}

/// In a sorted sequence no key occurs twice.
pub proof fn lemma_key_unique<T>(s: Seq<(TextRange, T)>, i: int, j: int)
    requires
        sorted(s),
        0 <= i < s.len(),
        0 <= j < s.len(),
        s[i].0 == s[j].0,
    ensures
        i == j,
{
    if i < j {
        assert(s[i].0.end <= s[j].0.start);
    }
    if j < i {
        assert(s[j].0.end <= s[i].0.start);
    }
}

/// A sorted sequence stays sorted when the key at `i` is replaced by one
/// that holds a position and lies between its neighbours.
pub proof fn lemma_sorted_update<T>(s: Seq<(TextRange, T)>, i: int, key: TextRange, v: T)
    requires
        sorted(s),
        0 <= i < s.len(),
        key.start < key.end,
        i > 0 ==> s[i - 1].0.end <= key.start,
        i + 1 < s.len() ==> key.end <= s[i + 1].0.start,
    ensures
        sorted(s.update(i, (key, v))),
{
    let t = s.update(i, (key, v));
    assert forall|a: int, b: int| 0 <= a < b < t.len() implies (#[trigger] t[a]).0.end <= (
    #[trigger] t[b]).0.start by {
        assert(s[a].0.end <= s[b].0.start);
        if a == i {
            if b > i + 1 {
                assert(s[i + 1].0.end <= s[b].0.start);
                assert(s[i + 1].0.start < s[i + 1].0.end);
            }
        } else if b == i {
            if a < i - 1 {
                assert(s[a].0.end <= s[i - 1].0.start);
                assert(s[i - 1].0.start < s[i - 1].0.end);
            }
        }
    }
    assert forall|a: int| 0 <= a < t.len() implies 0 <= (#[trigger] t[a]).0.start
        && t[a].0.start < t[a].0.end && t[a].0.end <= usize::MAX by {
        if a != i {
            assert(t[a] == s[a]);
        }
    }
}

/// The key `key` fits into the sorted sequence `s` at index `i`: it lies
/// behind the entry in front of `i` and before the entry at `i`.
pub open spec fn fits_at<T>(s: Seq<(TextRange, T)>, key: TextRange, i: int) -> bool {
    &&& 0 <= i <= s.len()
    &&& key.start < key.end
    &&& i > 0 ==> s[i - 1].0.end <= key.start
    &&& i < s.len() ==> key.end <= s[i].0.start
}

/// A key that fits into a sorted sequence at an index overlaps none of its
/// keys, and putting it in anywhere so that the result is sorted puts it in
/// at that index.
#[verifier::rlimit(40)]
pub proof fn lemma_fits<T>(s: Seq<(TextRange, T)>, key: TextRange, i: int, j: int, v: T)
    requires
        sorted(s),
        fits_at(s, key, i),
    ensures
        !meets(s, key),
        0 <= j <= s.len() && sorted(s.insert(j, (key, v))) ==> j == i,
        sorted(s.insert(i, (key, v))),
{
    assert forall|k: int| 0 <= k < s.len() implies !(#[trigger] s[k]).0.overlaps(key) by {
        if k < i {
            if k < i - 1 {
                assert(s[k].0.end <= s[i - 1].0.start);
            }
            assert(s[i - 1].0.start < s[i - 1].0.end);
        } else {
            if k > i {
                assert(s[i].0.end <= s[k].0.start);
            }
            assert(s[i].0.start < s[i].0.end);
        }
    }
    if 0 <= j <= s.len() && sorted(s.insert(j, (key, v))) {
        let t = s.insert(j, (key, v));
        assert(t[j] == (key, v));
        if j < i {
            assert(t[i] == s[i - 1]);
            assert(t[j].0.end <= t[i].0.start);
            assert(s[i - 1].0.start < s[i - 1].0.end);
        }
        if j > i {
            assert(t[i] == s[i]);
            assert(t[i].0.end <= t[j].0.start);
            assert(s[i].0.start < s[i].0.end);
        }
    }
    let t = s.insert(i, (key, v));
    assert forall|a: int| 0 <= a < t.len() implies 0 <= (#[trigger] t[a]).0.start && t[a].0.start
        < t[a].0.end && t[a].0.end <= usize::MAX by {
        if a < i {
            assert(t[a] == s[a]);
        } else if a > i {
            assert(t[a] == s[a - 1]);
        }
    }
    assert forall|a: int, b: int| 0 <= a < b < t.len() implies (#[trigger] t[a]).0.end <= (
    #[trigger] t[b]).0.start by {
        if a < i {
            assert(t[a] == s[a]);
            if a < i - 1 {
                assert(s[a].0.end <= s[i - 1].0.start);
            }
            assert(s[i - 1].0.start < s[i - 1].0.end);
        } else if a > i {
            assert(t[a] == s[a - 1]);
        }
        if b < i {
            assert(t[b] == s[b]);
        } else if b > i {
            assert(t[b] == s[b - 1]);
            if b - 1 > i {
                assert(s[i].0.end <= s[b - 1].0.start);
            }
            assert(s[i].0.start < s[i].0.end);
        }
        if a < i && b > i {
            assert(s[a].0.end <= s[b - 1].0.start);
        }
        if a > i {
            assert(s[a - 1].0.end <= s[b - 1].0.start);
        }
        if b < i {
            assert(s[a].0.end <= s[b].0.start);
        }
    }
}

/// `cuts` says where in `t` the run of each entry of `s` begins and ends:
/// the run of the entry at `i` goes from `cuts[i]` up to `cuts[i + 1]`, and
/// `rel` allows it for that entry.
pub open spec fn runs<T>(
    s: Seq<(TextRange, T)>,
    t: Seq<(TextRange, T)>,
    rel: spec_fn((TextRange, T), Seq<(TextRange, T)>) -> bool,
    cuts: Seq<int>,
) -> bool {
    &&& cuts.len() == s.len() + 1
    &&& cuts[0] == 0
    &&& cuts[s.len() as int] == t.len()
    &&& forall|i: int|
        0 <= i < s.len() ==> 0 <= #[trigger] cuts[i] <= cuts[i + 1] <= t.len() && rel(
            s[i],
            t.subrange(cuts[i], cuts[i + 1]),
        )
}

/// `t` is made from `s` entry by entry: each entry of `s` gives a run of
/// entries of `t` that `rel` allows for it, and the runs follow one another
/// as the entries of `s` do.
pub open spec fn piecewise<T>(
    s: Seq<(TextRange, T)>,
    t: Seq<(TextRange, T)>,
    rel: spec_fn((TextRange, T), Seq<(TextRange, T)>) -> bool,
) -> bool {
    exists|cuts: Seq<int>| runs(s, t, rel, cuts)
}

/// One more entry with its run.
pub proof fn lemma_piecewise_push<T>(
    s: Seq<(TextRange, T)>,
    t: Seq<(TextRange, T)>,
    rel: spec_fn((TextRange, T), Seq<(TextRange, T)>) -> bool,
    e: (TextRange, T),
    ps: Seq<(TextRange, T)>,
)
    requires
        piecewise(s, t, rel),
        rel(e, ps),
    ensures
        piecewise(s.push(e), t + ps, rel),
{
    let cuts = choose|cuts: Seq<int>| runs(s, t, rel, cuts);
    let s2 = s.push(e);
    let t2 = t + ps;
    let c2 = cuts.push(t2.len() as int);
    assert forall|i: int| 0 <= i < s2.len() implies 0 <= #[trigger] c2[i] <= c2[i + 1] <= t2.len()
        && rel(s2[i], t2.subrange(c2[i], c2[i + 1])) by {
        if i < s.len() {
            assert(c2[i] == cuts[i] && c2[i + 1] == cuts[i + 1]);
            assert(t2.subrange(c2[i], c2[i + 1]) =~= t.subrange(cuts[i], cuts[i + 1]));
        } else {
            assert(t2.subrange(c2[i], c2[i + 1]) =~= ps);
        }
    }
    assert(runs(s2, t2, rel, c2));
}

/// Entries that stay as they are.
pub proof fn lemma_piecewise_same<T>(
    s: Seq<(TextRange, T)>,
    rel: spec_fn((TextRange, T), Seq<(TextRange, T)>) -> bool,
)
    requires
        forall|i: int| 0 <= i < s.len() ==> rel(#[trigger] s[i], seq![s[i]]),
    ensures
        piecewise(s, s, rel),
{
    let cuts = Seq::new(s.len() + 1, |i: int| i);
    assert forall|i: int| 0 <= i < s.len() implies 0 <= #[trigger] cuts[i] <= cuts[i + 1]
        <= s.len() && rel(s[i], s.subrange(cuts[i], cuts[i + 1])) by {
        assert(s.subrange(i, i + 1) =~= seq![s[i]]);
    }
    assert(runs(s, s, rel, cuts));
}

/// Two stretches one after the other.
pub proof fn lemma_piecewise_concat<T>(
    s1: Seq<(TextRange, T)>,
    t1: Seq<(TextRange, T)>,
    s2: Seq<(TextRange, T)>,
    t2: Seq<(TextRange, T)>,
    rel: spec_fn((TextRange, T), Seq<(TextRange, T)>) -> bool,
)
    requires
        piecewise(s1, t1, rel),
        piecewise(s2, t2, rel),
    ensures
        piecewise(s1 + s2, t1 + t2, rel),
{
    let c1 = choose|cuts: Seq<int>| runs(s1, t1, rel, cuts);
    let c2 = choose|cuts: Seq<int>| runs(s2, t2, rel, cuts);
    let s = s1 + s2;
    let t = t1 + t2;
    let n1 = s1.len() as int;
    let cuts = Seq::new(
        s.len() + 1,
        |i: int|
            if i <= n1 {
                c1[i]
            } else {
                t1.len() + c2[i - n1]
            },
    );
    assert forall|i: int| 0 <= i < s.len() implies 0 <= #[trigger] cuts[i] <= cuts[i + 1]
        <= t.len() && rel(s[i], t.subrange(cuts[i], cuts[i + 1])) by {
        if i < n1 {
            assert(0 <= c1[i] <= c1[i + 1] <= t1.len());
            assert(t.subrange(cuts[i], cuts[i + 1]) =~= t1.subrange(c1[i], c1[i + 1]));
        } else {
            let j = i - n1;
            assert(0 <= c2[j] <= c2[j + 1] <= t2.len());
            assert(s[i] == s2[j]);
            assert(cuts[i] == t1.len() + c2[j]);
            assert(t.subrange(cuts[i], cuts[i + 1]) =~= t2.subrange(c2[j], c2[j + 1]));
        }
    }
    assert(runs(s, t, rel, cuts));
}

/// The entries of `t` come from entries of `s`: what holds of every entry
/// in every run that `rel` allows holds of every entry of `t`.
pub proof fn lemma_piecewise_all<T>(
    s: Seq<(TextRange, T)>,
    t: Seq<(TextRange, T)>,
    rel: spec_fn((TextRange, T), Seq<(TextRange, T)>) -> bool,
    good: spec_fn((TextRange, T)) -> bool,
)
    requires
        piecewise(s, t, rel),
        forall|e: (TextRange, T), ps: Seq<(TextRange, T)>, i: int|
            #[trigger] rel(e, ps) && 0 <= i < ps.len() ==> good(#[trigger] ps[i]),
    ensures
        forall|i: int| 0 <= i < t.len() ==> good(#[trigger] t[i]),
{
    let cuts = choose|cuts: Seq<int>| runs(s, t, rel, cuts);
    assert forall|i: int| 0 <= i < t.len() implies good(#[trigger] t[i]) by {
        lemma_cut_holds(cuts, s.len() as int, i);
        let k = choose|k: int| 0 <= k < s.len() && #[trigger] cuts[k] <= i < cuts[k + 1];
        let ps = t.subrange(cuts[k], cuts[k + 1]);
        assert(0 <= cuts[k] <= cuts[k + 1] <= t.len());
        assert(rel(s[k], ps));
        assert(ps[i - cuts[k]] == t[i]);
    }
}

/// A position below the last of ascending cuts lies in one of the runs.
proof fn lemma_cut_holds(cuts: Seq<int>, n: int, i: int)
    requires
        cuts.len() == n + 1,
        n >= 0,
        cuts[0] == 0,
        0 <= i < cuts[n],
        forall|k: int| 0 <= k < n ==> #[trigger] cuts[k] <= cuts[k + 1],
    ensures
        exists|k: int| 0 <= k < n && #[trigger] cuts[k] <= i < cuts[k + 1],
    decreases n,
{
    if n > 0 {
        if cuts[n - 1] <= i {
            assert(0 <= n - 1 < n && cuts[n - 1] <= i < cuts[n - 1 + 1]);
        } else {
            let c = cuts.take(n);
            assert forall|k: int| 0 <= k < n - 1 implies #[trigger] c[k] <= c[k + 1] by {
                assert(cuts[k] <= cuts[k + 1]);
            }
            lemma_cut_holds(c, n - 1, i);
            let k = choose|k: int| 0 <= k < n - 1 && #[trigger] c[k] <= i < c[k + 1];
            assert(0 <= k < n && cuts[k] <= i < cuts[k + 1]);
        }
    }
}

/// In a sorted sequence the entries whose keys overlap `range` stand side by
/// side: they are the entries from the index that this lemma gives first up
/// to the one it gives second.
#[verifier::rlimit(40)]
pub proof fn lemma_overlap_block<T>(s: Seq<(TextRange, T)>, range: TextRange) -> (b: (int, int))
    requires
        sorted(s),
    ensures
        0 <= b.0 <= b.1 <= s.len(),
        s.filter(|e: (TextRange, T)| e.0.overlaps(range)) == s.subrange(b.0, b.1),
        forall|k: int| 0 <= k < s.len() ==> ((#[trigger] s[k]).0.overlaps(range) <==> b.0 <= k < b.1),
    decreases s.len(),
{
    let pred = |e: (TextRange, T)| e.0.overlaps(range);
    reveal(Seq::filter);
    if s.len() == 0 {
        assert(s.filter(pred) =~= s.subrange(0, 0));
        (0, 0)
    } else {
        let t = s.drop_last();
        let n = s.len() - 1;
        assert(forall|k: int| 0 <= k < t.len() ==> t[k] == s[k]);
        assert(sorted(t)) by {
            assert forall|a: int, c: int| 0 <= a < c < t.len() implies (#[trigger] t[a]).0.end <= (
            #[trigger] t[c]).0.start by {
                assert(s[a].0.end <= s[c].0.start);
            }
        }
        let (i, j) = lemma_overlap_block(t, range);
        if s.last().0.overlaps(range) {
            if i == j {
                assert(t.filter(pred).push(s.last()) =~= s.subrange(n, n + 1));
                assert forall|k: int| 0 <= k < s.len() implies ((#[trigger] s[k]).0.overlaps(range)
                    <==> n <= k < n + 1) by {
                    if k < n {
                        assert(t[k] == s[k]);
                    }
                }
                (n, n + 1)
            } else {
                if j < n {
                    assert(t[j - 1].0.overlaps(range));
                    assert(s[j - 1].0.end <= s[j].0.start);
                    assert(s[j].0.end <= s[n].0.start);
                    assert(s[j].0.start < s[j].0.end);
                    assert(t[j] == s[j]);
                    assert(false);
                }
                assert(t.subrange(i, j).push(s.last()) =~= s.subrange(i, n + 1));
                assert forall|k: int| 0 <= k < s.len() implies ((#[trigger] s[k]).0.overlaps(range)
                    <==> i <= k < n + 1) by {
                    if k < n {
                        assert(t[k] == s[k]);
                    }
                }
                (i, n + 1)
            }
        } else {
            assert(t.subrange(i, j) =~= s.subrange(i, j));
            assert forall|k: int| 0 <= k < s.len() implies ((#[trigger] s[k]).0.overlaps(range)
                <==> i <= k < j) by {
                if k < n {
                    assert(t[k] == s[k]);
                }
            }
            (i, j)
        }
    }
}

/// Ways of writing a sequence that has changed at one index.
pub proof fn lemma_splice<T>(s: Seq<(TextRange, T)>, i: int, x: (TextRange, T), y: (TextRange, T))
    requires
        0 <= i < s.len(),
    ensures
        s.remove(i) == s.take(i) + Seq::<(TextRange, T)>::empty() + s.skip(i + 1),
        s.update(i, x) == s.take(i) + seq![x] + s.skip(i + 1),
        s.update(i, x).insert(i + 1, y) == s.take(i) + seq![x, y] + s.skip(i + 1),
        s.update(i, x).insert(i, y) == s.take(i) + seq![y, x] + s.skip(i + 1),
        s.take(i).push(s[i]) == s.take(i + 1),
        s.skip(i)[0] == s[i],
{
    assert(s.remove(i) =~= s.take(i) + Seq::<(TextRange, T)>::empty() + s.skip(i + 1));
    assert(s.update(i, x) =~= s.take(i) + seq![x] + s.skip(i + 1));
    assert(s.update(i, x).insert(i + 1, y) =~= s.take(i) + seq![x, y] + s.skip(i + 1));
    assert(s.update(i, x).insert(i, y) =~= s.take(i) + seq![y, x] + s.skip(i + 1));
    assert(s.take(i).push(s[i]) =~= s.take(i + 1));
}

/// A step of a walk that has dealt with the entries of `s` in front of `c`
/// and now replaces the entry at `c` by the run `ps`.
pub proof fn lemma_splice_step<T>(
    s: Seq<(TextRange, T)>,
    done: Seq<(TextRange, T)>,
    before: Seq<(TextRange, T)>,
    after: Seq<(TextRange, T)>,
    ps: Seq<(TextRange, T)>,
    c: int,
)
    requires
        0 <= c < s.len(),
        before == done + s.skip(c),
        after == before.take(done.len() as int) + ps + before.skip(done.len() as int + 1),
    ensures
        after == (done + ps) + s.skip(c + 1),
        before[done.len() as int] == s[c],
{
    assert(before.take(done.len() as int) =~= done);
    assert(before.skip(done.len() as int + 1) =~= s.skip(c + 1));
}

/// The neighbours of an entry of a sorted sequence lie on either side of it,
/// and its key holds a position.
pub proof fn lemma_sorted_at<T>(s: Seq<(TextRange, T)>, i: int)
    requires
        sorted(s),
        0 <= i < s.len(),
    ensures
        s[i].0.start < s[i].0.end,
        i > 0 ==> s[i - 1].0.end <= s[i].0.start,
        i + 1 < s.len() ==> s[i].0.end <= s[i + 1].0.start,
{
    if i > 0 {
        assert(s[i - 1].0.end <= s[i].0.start);
    }
    if i + 1 < s.len() {
        assert(s[i].0.end <= s[i + 1].0.start);
    }
}

/// The first entry that a walk has not dealt with yet.
pub proof fn lemma_rest_head<T>(
    s: Seq<(TextRange, T)>,
    done: Seq<(TextRange, T)>,
    before: Seq<(TextRange, T)>,
    c: int,
)
    requires
        0 <= c < s.len(),
        before == done + s.skip(c),
    ensures
        done.len() < before.len(),
        before[done.len() as int] == s[c],
        c + 1 < s.len() ==> done.len() + 1 < before.len() && before[done.len() as int + 1] == s[c + 1],
        before.take(done.len() as int) == done,
{
    assert(s.skip(c)[0] == s[c]);
    if c + 1 < s.len() {
        assert(s.skip(c)[1] == s[c + 1]);
    }
    assert(before.take(done.len() as int) =~= done);
}

/// One step of cleaning: the entry `e` is dropped if its key holds no
/// position or its value counts as empty; it is joined to the last entry of
/// `acc` if it begins where that entry ends and their values count as equal;
/// otherwise it is kept.  A joined entry keeps the value of the first of
/// its parts.
pub open spec fn clean_step<T>(
    acc: Seq<(TextRange, T)>,
    e: (TextRange, T),
    same: spec_fn(T, T) -> bool,
    void: spec_fn(T) -> bool,
) -> Seq<(TextRange, T)> {
    if e.0.is_empty() || void(e.1) {
        acc
    } else if acc.len() > 0 && acc.last().0.end == e.0.start && same(acc.last().1, e.1) {
        acc.drop_last().push((TextRange { start: acc.last().0.start, end: e.0.end }, acc.last().1))
    } else {
        acc.push(e)
    }
}

/// The entries `s` cleaned from the first to the last: entries without
/// positions or with a value that counts as empty are gone, and entries that
/// touch and have values that count as equal are joined.
pub open spec fn cleaned<T>(
    s: Seq<(TextRange, T)>,
    same: spec_fn(T, T) -> bool,
    void: spec_fn(T) -> bool,
) -> Seq<(TextRange, T)>
    decreases s.len(),
{
    if s.len() == 0 {
        Seq::empty()
    } else {
        clean_step(cleaned(s.drop_last(), same, void), s.last(), same, void)
    }
}

/// No two neighbours in `c` touch and have values that count as equal.
pub open spec fn all_joined<T>(c: Seq<(TextRange, T)>, same: spec_fn(T, T) -> bool) -> bool {
    forall|i: int|
        0 <= i && i + 1 < c.len() ==> !((#[trigger] c[i]).0.end == c[i + 1].0.start && same(
            c[i].1,
            c[i + 1].1,
        ))
}

/// After cleaning no two neighbours touch and have values that count as
/// equal, and no value counts as empty.
pub proof fn lemma_cleaned_joined<T>(
    s: Seq<(TextRange, T)>,
    same: spec_fn(T, T) -> bool,
    void: spec_fn(T) -> bool,
)
    ensures
        all_joined(cleaned(s, same, void), same),
        forall|i: int|
            0 <= i < cleaned(s, same, void).len() ==> !void((#[trigger] cleaned(s, same, void)[i]).1),
    decreases s.len(),
{
    if s.len() > 0 {
        let acc = cleaned(s.drop_last(), same, void);
        let e = s.last();
        let c = cleaned(s, same, void);
        lemma_cleaned_joined(s.drop_last(), same, void);
        assert(c == clean_step(acc, e, same, void));
        if e.0.is_empty() || void(e.1) {
        } else if acc.len() > 0 && acc.last().0.end == e.0.start && same(acc.last().1, e.1) {
            let n = acc.len() - 1;
            assert forall|i: int| 0 <= i && i + 1 < c.len() implies !((#[trigger] c[i]).0.end
                == c[i + 1].0.start && same(c[i].1, c[i + 1].1)) by {
                assert(c[i] == acc[i]);
                if i + 1 < n {
                    assert(c[i + 1] == acc[i + 1]);
                } else {
                    assert(c[i + 1].0.start == acc[i + 1].0.start);
                    assert(c[i + 1].1 == acc[i + 1].1);
                }
            }
            assert forall|i: int| 0 <= i < c.len() implies !void((#[trigger] c[i]).1) by {
                assert(c[i].1 == acc[i].1);
            }
        } else {
            assert forall|i: int| 0 <= i && i + 1 < c.len() implies !((#[trigger] c[i]).0.end
                == c[i + 1].0.start && same(c[i].1, c[i + 1].1)) by {
                assert(c[i] == acc[i]);
                if i + 1 < acc.len() {
                    assert(c[i + 1] == acc[i + 1]);
                }
            }
            assert forall|i: int| 0 <= i < c.len() implies !void((#[trigger] c[i]).1) by {
                if i < acc.len() {
                    assert(c[i] == acc[i]);
                }
            }
        }
    }
}

/// Cleaning depends on the two tests only through what they say of values.
pub proof fn lemma_cleaned_tests<T>(
    s: Seq<(TextRange, T)>,
    same: spec_fn(T, T) -> bool,
    void: spec_fn(T) -> bool,
    same2: spec_fn(T, T) -> bool,
    void2: spec_fn(T) -> bool,
)
    requires
        forall|a: T, b: T| #[trigger] same(a, b) == same2(a, b),
        forall|a: T| #[trigger] void(a) == void2(a),
    ensures
        cleaned(s, same, void) == cleaned(s, same2, void2),
    decreases s.len(),
{
    if s.len() > 0 {
        lemma_cleaned_tests(s.drop_last(), same, void, same2, void2);
    }
}

/// What a step of cleaning does to the entries of the tree, which consist of
/// the untouched entries `pre`, the cleaned entries `acc` and the entries
/// of `s` from `c` on, which are still to come.  `k` is the index of the
/// first of these.
pub proof fn lemma_clean_walk<T>(
    pre: Seq<(TextRange, T)>,
    acc: Seq<(TextRange, T)>,
    s: Seq<(TextRange, T)>,
    c: int,
    i0: int,
    k: int,
    same: spec_fn(T, T) -> bool,
    void: spec_fn(T) -> bool,
)
    requires
        0 <= i0 <= c < s.len(),
        acc == cleaned(s.subrange(i0, c), same, void),
        k == pre.len() + acc.len(),
    ensures
        clean_step(acc, s[c], same, void) == cleaned(s.subrange(i0, c + 1), same, void),
        (pre + acc + s.skip(c))[k] == s[c],
        (pre + acc + s.skip(c)).remove(k) == pre + acc + s.skip(c + 1),
        pre + acc + s.skip(c) == pre + acc.push(s[c]) + s.skip(c + 1),
        acc.len() > 0 ==> (pre + acc + s.skip(c))[k - 1] == acc.last() && (pre + acc + s.skip(
            c + 1,
        ))[k - 1] == acc.last(),
        acc.len() > 0 ==> forall|x: (TextRange, T)|
            (pre + acc + s.skip(c + 1)).update(k - 1, x) == pre + #[trigger] acc.drop_last().push(
                x,
            ) + s.skip(c + 1),
        c + 1 < s.len() ==> (pre + acc + s.skip(c))[k + 1] == s[c + 1] && (pre + acc + s.skip(
            c + 1,
        ))[k] == s[c + 1],
        (pre + acc + s.skip(c)).len() == k + s.len() - c,
{
    let t = s.subrange(i0, c + 1);
    assert(t.drop_last() =~= s.subrange(i0, c));
    assert(t.last() == s[c]);
    let w = pre + acc + s.skip(c);
    assert(w[k] == s.skip(c)[0]);
    assert(w.remove(k) =~= pre + acc + s.skip(c + 1));
    assert(w =~= pre + acc.push(s[c]) + s.skip(c + 1));
    if acc.len() > 0 {
        assert forall|x: (TextRange, T)|
            (pre + acc + s.skip(c + 1)).update(k - 1, x) == pre + #[trigger] acc.drop_last().push(
                x,
            ) + s.skip(c + 1) by {
            assert((pre + acc + s.skip(c + 1)).update(k - 1, x) =~= pre + acc.drop_last().push(x)
                + s.skip(c + 1));
        }
    }
    if c + 1 < s.len() {
        assert(w[k + 1] == s.skip(c)[1]);
        assert((pre + acc + s.skip(c + 1))[k] == s.skip(c + 1)[0]);
    }
}

/// `i` is an index into `s`.
pub open spec fn indexes<A>(s: Seq<A>, i: int) -> bool {
    0 <= i < s.len()
}

/// Every entry of `s` whose key does not overlap `key` stands in `t` as it
/// is.
pub open spec fn kept<T>(s: Seq<(TextRange, T)>, t: Seq<(TextRange, T)>, key: TextRange) -> bool {
    forall|i: int| 0 <= i < s.len() && !(#[trigger] s[i]).0.overlaps(key) ==> t.contains(s[i])
}

/// `t` is `s` with the value under `key` replaced by what `f` makes of a
/// copy of `val` and a copy of that value.
pub open spec fn merged_at<T: Clone, F: Fn(T, T) -> T>(
    s: Seq<(TextRange, T)>,
    t: Seq<(TextRange, T)>,
    key: TextRange,
    val: T,
    f: F,
) -> bool {
    exists|i: int, v: T|
        0 <= i < s.len() && s[i].0 == key && merged(val, s[i].1, f, v) && #[trigger] s.update(
            i,
            (key, v),
        ) == t
}

/// What stays as it is when a key is put in at a node: the entries of a
/// subtree that the part of the key for that subtree does not overlap, and
/// the entry of the node unless the key overlaps it.
pub proof fn lemma_kept_parts<T>(
    l: Seq<(TextRange, T)>,
    e: (TextRange, T),
    r: Seq<(TextRange, T)>,
    l2: Seq<(TextRange, T)>,
    e2: (TextRange, T),
    r2: Seq<(TextRange, T)>,
    key: TextRange,
    kl: TextRange,
    kr: TextRange,
    lo: int,
    hi: int,
)
    requires
        sorted_within(l.push(e) + r, lo, hi),
        l2 == l || kept(l, l2, kl),
        r2 == r || kept(r, r2, kr),
        (key.start <= kl.start && kl.end <= key.end) || e.0.start <= kl.start,
        (key.start <= kr.start && kr.end <= key.end) || kr.end <= e.0.end,
        e2 == e || e.0.overlaps(key),
    ensures
        kept(l.push(e) + r, l2.push(e2) + r2, key),
{
    let s = l.push(e) + r;
    let t = l2.push(e2) + r2;
    let n = l.len() as int;
    let n2 = l2.len() as int;
    assert(s[n] == e);
    assert(t[n2] == e2);
    assert forall|i: int| 0 <= i < s.len() && !(#[trigger] s[i]).0.overlaps(key) implies t.contains(
        s[i],
    ) by {
        if i < n {
            assert(s[i] == l[i]);
            assert(s[i].0.end <= s[n].0.start);
            assert(s[i].0.start < s[i].0.end);
            assert(!l[i].0.overlaps(kl));
            assert(l2.contains(l[i]));
            let j = choose|j: int| 0 <= j < l2.len() && l2[j] == l[i];
            assert(t[j] == l[i]);
        } else if i == n {
            assert(t[n2] == s[i]);
        } else {
            let k = i - n - 1;
            assert(s[n + 1 + k] == r[k]);
            assert(s[n].0.end <= s[i].0.start);
            assert(s[i].0.start < s[i].0.end);
            assert(!r[k].0.overlaps(kr));
            assert(r2.contains(r[k]));
            let j = choose|j: int| 0 <= j < r2.len() && r2[j] == r[k];
            assert(t[n2 + 1 + j] == r[k]);
        }
    }
}

/// What putting in a key that is stored already means at a node: the key is
/// found at the node or on the side where it belongs, and nowhere else does
/// a value change.
pub proof fn lemma_merged_parts<T: Clone, F: Fn(T, T) -> T>(
    l: Seq<(TextRange, T)>,
    e: (TextRange, T),
    r: Seq<(TextRange, T)>,
    part: Seq<(TextRange, T)>,
    key: TextRange,
    val: T,
    f: F,
    v2: T,
    lo: int,
    hi: int,
)
    requires
        sorted_within(l.push(e) + r, lo, hi),
    ensures
        e.0 == key && merged(val, e.1, f, v2) ==> merged_at(
            l.push(e) + r,
            l.push((key, v2)) + r,
            key,
            val,
            f,
        ),
        e.0 != key && key.lex_lt(e.0) && has_key(l.push(e) + r, key) ==> has_key(l, key),
        e.0 != key && !key.lex_lt(e.0) && has_key(l.push(e) + r, key) ==> has_key(r, key),
        merged_at(l, part, key, val, f) ==> merged_at(l.push(e) + r, part.push(e) + r, key, val, f),
        merged_at(r, part, key, val, f) ==> merged_at(l.push(e) + r, l.push(e) + part, key, val, f),
{
    let s = l.push(e) + r;
    let n = l.len() as int;
    assert(s[n] == e);
    if e.0 == key && merged(val, e.1, f, v2) {
        assert(s.update(n, (key, v2)) =~= l.push((key, v2)) + r);
    }
    if e.0 != key {
        lemma_took_part(l, e, r, l, key, None, lo, hi);
    }
    if merged_at(l, part, key, val, f) {
        let (i, v) = choose|i: int, v: T|
            0 <= i < l.len() && l[i].0 == key && merged(val, l[i].1, f, v) && #[trigger] l.update(
                i,
                (key, v),
            ) == part;
        assert(s[i] == l[i]);
        assert(s.update(i, (key, v)) =~= part.push(e) + r);
    }
    if merged_at(r, part, key, val, f) {
        let (i, v) = choose|i: int, v: T|
            0 <= i < r.len() && r[i].0 == key && merged(val, r[i].1, f, v) && #[trigger] r.update(
                i,
                (key, v),
            ) == part;
        assert(s[n + 1 + i] == r[i]);
        assert(s.update(n + 1 + i, (key, v)) =~= l.push(e) + part);
    }
}

/// A stored key that overlaps the key of a node is the key of that node.
pub proof fn lemma_stored_overlap<T>(
    l: Seq<(TextRange, T)>,
    e: (TextRange, T),
    r: Seq<(TextRange, T)>,
    key: TextRange,
    lo: int,
    hi: int,
)
    requires
        sorted_within(l.push(e) + r, lo, hi),
        has_key(l.push(e) + r, key),
        key.overlaps(e.0),
    ensures
        key == e.0,
{
    let s = l.push(e) + r;
    let n = l.len() as int;
    assert(s[n] == e);
    let i = choose|i: int| 0 <= i < s.len() && (#[trigger] s[i]).0 == key;
    if i < n {
        assert(s[i].0.end <= s[n].0.start);
    } else if i > n {
        assert(s[n].0.end <= s[i].0.start);
    }
}

/// The start of a walk that changes entries from index `i0` on: the entries
/// in front stay as they are.
pub proof fn lemma_walk_start<T>(
    s: Seq<(TextRange, T)>,
    i0: int,
    rel: spec_fn((TextRange, T), Seq<(TextRange, T)>) -> bool,
)
    requires
        0 <= i0 <= s.len(),
        forall|i: int| 0 <= i < i0 ==> rel(#[trigger] s[i], seq![s[i]]),
    ensures
        piecewise(s.take(i0), s.take(i0), rel),
        s == s.take(i0) + s.skip(i0),
{
    let a = s.take(i0);
    assert forall|i: int| 0 <= i < a.len() implies rel(#[trigger] a[i], seq![a[i]]) by {
        assert(a[i] == s[i]);
    }
    lemma_piecewise_same(a, rel);
    assert(s =~= s.take(i0) + s.skip(i0));
}

/// The end of a walk that has changed the entries in front of index `j0`:
/// the entries from there on stay as they are.
pub proof fn lemma_walk_end<T>(
    s: Seq<(TextRange, T)>,
    done: Seq<(TextRange, T)>,
    j0: int,
    rel: spec_fn((TextRange, T), Seq<(TextRange, T)>) -> bool,
)
    requires
        0 <= j0 <= s.len(),
        piecewise(s.take(j0), done, rel),
        forall|i: int| j0 <= i < s.len() ==> rel(#[trigger] s[i], seq![s[i]]),
    ensures
        piecewise(s, done + s.skip(j0), rel),
{
    let rest = s.skip(j0);
    assert forall|i: int| 0 <= i < rest.len() implies rel(#[trigger] rest[i], seq![rest[i]]) by {
        assert(rest[i] == s[j0 + i]);
    }
    lemma_piecewise_same(rest, rel);
    lemma_piecewise_concat(s.take(j0), done, rest, rest, rel);
    assert(s.take(j0) + rest =~= s);
}

} // verus!
