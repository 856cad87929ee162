//! Putting a key in piece by piece: what holds of the entries on the way.
use crate::model::{
    copy_of, covers, cut_at, has_key, inserted, kept, lemma_copy_chain, lemma_copy_same, maps,
    meets, merged, placed, sorted,
};
use crate::range::TextRange;
use vstd::prelude::*;

verus! {

/// No key of `s` has the position `p` strictly inside it.
pub open spec fn clear_at<T>(s: Seq<(TextRange, T)>, p: int) -> bool {
    forall|i: int| 0 <= i < s.len() ==> !((#[trigger] s[i]).0.start < p && p < s[i].0.end)
}

/// `cur` is `s0` on the way to having `key` put in with `val`: the stored
/// keys are cut where `key` begins and ends if they are cut anywhere anew,
/// and the part of `key` in front of `c` has been put in.
pub open spec fn partly<T: Clone, F: Fn(T, T) -> T>(
    s0: Seq<(TextRange, T)>,
    cur: Seq<(TextRange, T)>,
    key: TextRange,
    c: int,
    val: T,
    f: F,
) -> bool {
    &&& forall|q: int| #[trigger] covers(cur, q) <==> covers(s0, q) || (key.start <= q && q < c)
    &&& forall|q: int| #[trigger]
        cut_at(cur, q) ==> cut_at(s0, q) || q == key.start || q == key.end
    &&& forall|q: int| #[trigger] cut_at(s0, q) ==> cut_at(cur, q)
    &&& forall|q: int, v: T| #[trigger]
        maps(cur, q, v) ==> if key.start <= q && q < c {
            placed(s0, key, val, f, q, v)
        } else {
            exists|u: T| #[trigger] maps(s0, q, u) && copy_of(u, v)
        }
    &&& kept(s0, cur, key)
}

/// The stored keys that the rest of the key still overlaps are the keys of
/// `keys` from index `j` on, and all of these are stored.
pub open spec fn ahead<T>(
    cur: Seq<(TextRange, T)>,
    keys: Seq<TextRange>,
    j: int,
    rest: TextRange,
) -> bool {
    &&& forall|i: int|
        0 <= i < cur.len() && (#[trigger] cur[i]).0.overlaps(rest) ==> exists|a: int|
            j <= a < keys.len() && #[trigger] keys[a] == cur[i].0
    &&& forall|a: int| j <= a < keys.len() ==> has_key(cur, #[trigger] keys[a])
}

/// The keys of `keys` lie inside `key`, one behind the other.
pub open spec fn in_row(keys: Seq<TextRange>, key: TextRange) -> bool {
    &&& forall|a: int|
        0 <= a < keys.len() ==> key.start <= (#[trigger] keys[a]).start && keys[a].start
            < keys[a].end && keys[a].end <= key.end
    &&& forall|a: int, b: int|
        0 <= a < b < keys.len() ==> (#[trigger] keys[a]).end <= (#[trigger] keys[b]).start
}

/// What one more entry means for the positions.
pub proof fn lemma_insert_facts<T>(s: Seq<(TextRange, T)>, i: int, e: (TextRange, T), q: int)
    requires
        0 <= i <= s.len(),
    ensures
        covers(s.insert(i, e), q) <==> covers(s, q) || e.0.contains(q),
        cut_at(s.insert(i, e), q) <==> cut_at(s, q) || e.0.start == q || e.0.end == q,
        forall|v: T| #[trigger]
            maps(s.insert(i, e), q, v) <==> maps(s, q, v) || (e.0.contains(q) && e.1 == v),
{
    let t = s.insert(i, e);
    assert(t[i] == e);
    assert(forall|j: int| 0 <= j < i ==> t[j] == s[j]);
    assert(forall|j: int| i <= j < s.len() ==> t[j + 1] == s[j]);
    if covers(t, q) {
        let j = choose|j: int| 0 <= j < t.len() && (#[trigger] t[j]).0.contains(q);
        if j < i {
            assert(s[j].0.contains(q));
        } else if j > i {
            assert(t[j - 1 + 1] == s[j - 1]);
            assert(s[j - 1].0.contains(q));
        }
    }
    if covers(s, q) {
        let j = choose|j: int| 0 <= j < s.len() && (#[trigger] s[j]).0.contains(q);
        if j < i {
            assert(t[j].0.contains(q));
        } else {
            assert(t[j + 1].0.contains(q));
        }
    }
    if e.0.contains(q) {
        assert(t[i].0.contains(q));
    }
    if cut_at(t, q) {
        let j = choose|j: int|
            0 <= j < t.len() && ((#[trigger] t[j]).0.start == q || t[j].0.end == q);
        if j < i {
            assert(s[j].0.start == q || s[j].0.end == q);
        } else if j > i {
            assert(t[j - 1 + 1] == s[j - 1]);
            assert(s[j - 1].0.start == q || s[j - 1].0.end == q);
        }
    }
    if cut_at(s, q) {
        let j = choose|j: int|
            0 <= j < s.len() && ((#[trigger] s[j]).0.start == q || s[j].0.end == q);
        if j < i {
            assert(t[j].0.start == q || t[j].0.end == q);
        } else {
            assert(t[j + 1].0.start == q || t[j + 1].0.end == q);
        }
    }
    if e.0.start == q || e.0.end == q {
        assert(t[i].0.start == q || t[i].0.end == q);
    }
    assert forall|v: T| #[trigger]
        maps(t, q, v) <==> maps(s, q, v) || (e.0.contains(q) && e.1 == v) by {
        if maps(t, q, v) {
            let j = choose|j: int|
                0 <= j < t.len() && (#[trigger] t[j]).0.contains(q) && t[j].1 == v;
            if j < i {
                assert(s[j].0.contains(q) && s[j].1 == v);
            } else if j > i {
                assert(t[j - 1 + 1] == s[j - 1]);
                assert(s[j - 1].0.contains(q) && s[j - 1].1 == v);
            }
        }
        if maps(s, q, v) {
            let j = choose|j: int|
                0 <= j < s.len() && (#[trigger] s[j]).0.contains(q) && s[j].1 == v;
            if j < i {
                assert(t[j].0.contains(q) && t[j].1 == v);
            } else {
                assert(t[j + 1].0.contains(q) && t[j + 1].1 == v);
            }
        }
        if e.0.contains(q) && e.1 == v {
            assert(t[i].0.contains(q) && t[i].1 == v);
        }
    }
}

/// What another entry in the place of one means for the positions.
pub proof fn lemma_update_facts<T>(s: Seq<(TextRange, T)>, i: int, e: (TextRange, T), q: int)
    requires
        0 <= i < s.len(),
    ensures
        covers(s.update(i, e), q) ==> covers(s, q) || e.0.contains(q),
        e.0.contains(q) ==> covers(s.update(i, e), q),
        covers(s, q) && !s[i].0.contains(q) ==> covers(s.update(i, e), q),
        cut_at(s.update(i, e), q) ==> cut_at(s, q) || e.0.start == q || e.0.end == q,
        e.0.start == q || e.0.end == q ==> cut_at(s.update(i, e), q),
        cut_at(s, q) && s[i].0.start != q && s[i].0.end != q ==> cut_at(s.update(i, e), q),
        forall|v: T| #[trigger]
            maps(s.update(i, e), q, v) ==> (e.0.contains(q) && e.1 == v) || (maps(s, q, v)
                && exists|j: int|
                0 <= j < s.len() && j != i && (#[trigger] s[j]).0.contains(q) && s[j].1 == v),
{
    let t = s.update(i, e);
    assert(t[i] == e);
    assert(forall|j: int| 0 <= j < s.len() && j != i ==> t[j] == s[j]);
    if covers(t, q) {
        let j = choose|j: int| 0 <= j < t.len() && (#[trigger] t[j]).0.contains(q);
        if j != i {
            assert(s[j].0.contains(q));
        }
    }
    if e.0.contains(q) {
        assert(t[i].0.contains(q));
    }
    if covers(s, q) && !s[i].0.contains(q) {
        let j = choose|j: int| 0 <= j < s.len() && (#[trigger] s[j]).0.contains(q);
        assert(t[j].0.contains(q));
    }
    if cut_at(t, q) {
        let j = choose|j: int|
            0 <= j < t.len() && ((#[trigger] t[j]).0.start == q || t[j].0.end == q);
        if j != i {
            assert(s[j].0.start == q || s[j].0.end == q);
        }
    }
    if e.0.start == q || e.0.end == q {
        assert(t[i].0.start == q || t[i].0.end == q);
    }
    if cut_at(s, q) && s[i].0.start != q && s[i].0.end != q {
        let j = choose|j: int|
            0 <= j < s.len() && ((#[trigger] s[j]).0.start == q || s[j].0.end == q);
        assert(t[j].0.start == q || t[j].0.end == q);
    }
    assert forall|v: T| #[trigger] maps(t, q, v) implies (e.0.contains(q) && e.1 == v) || (maps(
        s,
        q,
        v,
    ) && exists|j: int|
        0 <= j < s.len() && j != i && (#[trigger] s[j]).0.contains(q) && s[j].1 == v) by {
        let j = choose|j: int| 0 <= j < t.len() && (#[trigger] t[j]).0.contains(q) && t[j].1 == v;
        if j != i {
            assert(s[j].0.contains(q) && s[j].1 == v);
        }
    }
}

/// Nothing has been put in yet.
pub proof fn lemma_partly_start<T: Clone, F: Fn(T, T) -> T>(
    s0: Seq<(TextRange, T)>,
    key: TextRange,
    val: T,
    f: F,
)
    ensures
        partly(s0, s0, key, key.start as int, val, f),
{
    assert forall|q: int, v: T| #[trigger] maps(s0, q, v) implies exists|u: T| #[trigger]
        maps(s0, q, u) && copy_of(u, v) by {
        lemma_copy_same(v);
    }
    assert forall|i: int| 0 <= i < s0.len() && !(#[trigger] s0[i]).0.overlaps(key) implies s0.contains(
        s0[i],
    ) by {}
}

/// A gap of the key is filled: the step from `c` to `d`.
pub proof fn lemma_partly_gap<T: Clone, F: Fn(T, T) -> T>(
    s0: Seq<(TextRange, T)>,
    cur: Seq<(TextRange, T)>,
    key: TextRange,
    val: T,
    f: F,
    gap: TextRange,
    i: int,
    v: T,
)
    requires
        partly(s0, cur, key, gap.start as int, val, f),
        0 <= i <= cur.len(),
        key.start <= gap.start < gap.end <= key.end,
        !meets(cur, gap),
        copy_of(val, v),
        gap.start == key.start || cut_at(cur, gap.start as int),
        gap.end == key.end || cut_at(cur, gap.end as int),
    ensures
        partly(s0, cur.insert(i, (gap, v)), key, gap.end as int, val, f),
        cut_at(cur.insert(i, (gap, v)), gap.start as int),
        cut_at(cur.insert(i, (gap, v)), gap.end as int),
        forall|q: int| cut_at(cur, q) ==> #[trigger] cut_at(cur.insert(i, (gap, v)), q),
{
    let next = cur.insert(i, (gap, v));
    let c = gap.start as int;
    let d = gap.end as int;
    assert forall|q: int| gap.contains(q) implies !covers(cur, q) by {
        if covers(cur, q) {
            let j = choose|j: int| 0 <= j < cur.len() && (#[trigger] cur[j]).0.contains(q);
            assert(cur[j].0.overlaps(gap));
        }
    }
    assert forall|q: int| #[trigger]
        covers(next, q) <==> covers(s0, q) || (key.start <= q && q < d) by {
        lemma_insert_facts(cur, i, (gap, v), q);
        assert(covers(cur, q) <==> covers(s0, q) || (key.start <= q && q < c));
    }
    assert forall|q: int| #[trigger] cut_at(next, q) implies cut_at(s0, q) || q == key.start || q
        == key.end by {
        lemma_insert_facts(cur, i, (gap, v), q);
        if q == c && c != key.start {
            assert(cut_at(cur, c));
        }
        if q == d && d != key.end {
            assert(cut_at(cur, d));
        }
        if cut_at(cur, q) {
        }
    }
    assert forall|q: int| cut_at(cur, q) implies #[trigger] cut_at(next, q) by {
        lemma_insert_facts(cur, i, (gap, v), q);
    }
    assert forall|q: int| #[trigger] cut_at(s0, q) implies cut_at(next, q) by {
        assert(cut_at(cur, q));
    }
    assert forall|q: int, w: T| #[trigger] maps(next, q, w) implies if key.start <= q && q < d {
        placed(s0, key, val, f, q, w)
    } else {
        exists|u: T| #[trigger] maps(s0, q, u) && copy_of(u, w)
    } by {
        lemma_insert_facts(cur, i, (gap, v), q);
        if maps(cur, q, w) {
            let j = choose|j: int|
                0 <= j < cur.len() && (#[trigger] cur[j]).0.contains(q) && cur[j].1 == w;
            assert(cur[j].0.contains(q));
            assert(covers(cur, q));
            assert(!gap.contains(q));
        } else {
            assert(gap.contains(q) && w == v);
            assert(covers(cur, q) <==> covers(s0, q) || (key.start <= q && q < c));
        }
    }
    assert forall|k: int| 0 <= k < s0.len() && !(#[trigger] s0[k]).0.overlaps(key) implies next.contains(
        s0[k],
    ) by {
        assert(cur.contains(s0[k]));
        let j = choose|j: int| 0 <= j < cur.len() && cur[j] == s0[k];
        if j < i {
            assert(next[j] == cur[j]);
        } else {
            assert(next[j + 1] == cur[j]);
        }
    }
    lemma_insert_facts(cur, i, (gap, v), c);
    lemma_insert_facts(cur, i, (gap, v), d);
}

/// A stored key inside the key gets its merged value: the step from its
/// start to its end.
pub proof fn lemma_partly_merge<T: Clone, F: Fn(T, T) -> T>(
    s0: Seq<(TextRange, T)>,
    cur: Seq<(TextRange, T)>,
    key: TextRange,
    val: T,
    f: F,
    i: int,
    vc: T,
    v2: T,
)
    requires
        0 <= i < cur.len(),
        partly(s0, cur, key, cur[i].0.start as int, val, f),
        sorted(cur),
        key.start <= cur[i].0.start,
        cur[i].0.end <= key.end,
        merged(vc, cur[i].1, f, v2),
        copy_of(val, vc),
    ensures
        partly(s0, cur.update(i, (cur[i].0, v2)), key, cur[i].0.end as int, val, f),
        forall|q: int| cut_at(cur, q) ==> #[trigger] cut_at(cur.update(i, (cur[i].0, v2)), q),
        cut_at(cur.update(i, (cur[i].0, v2)), cur[i].0.start as int),
        cut_at(cur.update(i, (cur[i].0, v2)), cur[i].0.end as int),
{
    let k = cur[i].0;
    let next = cur.update(i, (k, v2));
    let c = k.start as int;
    let d = k.end as int;
    assert(k.start < k.end);
    assert forall|q: int| k.contains(q) implies covers(s0, q) && exists|u: T| #[trigger]
        maps(s0, q, u) && copy_of(u, cur[i].1) by {
        assert(cur[i].0.contains(q));
        assert(covers(cur, q));
        assert(maps(cur, q, cur[i].1));
    }
    assert forall|q: int| #[trigger]
        covers(next, q) <==> covers(s0, q) || (key.start <= q && q < d) by {
        lemma_update_facts(cur, i, (k, v2), q);
        assert(covers(cur, q) <==> covers(s0, q) || (key.start <= q && q < c));
    }
    assert forall|q: int| #[trigger] cut_at(next, q) implies cut_at(s0, q) || q == key.start || q
        == key.end by {
        lemma_update_facts(cur, i, (k, v2), q);
        if !cut_at(cur, q) {
            assert(cur[i].0.start == q || cur[i].0.end == q);
        }
    }
    assert forall|q: int| cut_at(cur, q) implies #[trigger] cut_at(next, q) by {
        lemma_update_facts(cur, i, (k, v2), q);
    }
    assert forall|q: int| #[trigger] cut_at(s0, q) implies cut_at(next, q) by {
        assert(cut_at(cur, q));
    }
    assert forall|q: int, w: T| #[trigger] maps(next, q, w) implies if key.start <= q && q < d {
        placed(s0, key, val, f, q, w)
    } else {
        exists|u: T| #[trigger] maps(s0, q, u) && copy_of(u, w)
    } by {
        lemma_update_facts(cur, i, (k, v2), q);
        if k.contains(q) && w == v2 {
            let u = choose|u: T| #[trigger] maps(s0, q, u) && copy_of(u, cur[i].1);
            let (a, b) = choose|a: T, b: T|
                copy_of(vc, a) && copy_of(cur[i].1, b) && #[trigger] call_ensures(f, (a, b), v2);
            lemma_copy_chain(val, vc, a);
            lemma_copy_chain(u, cur[i].1, b);
            assert(copy_of(val, a) && copy_of(u, b) && call_ensures(f, (a, b), v2));
            assert(maps(s0, q, u) && merged(val, u, f, v2));
        } else {
            let j = choose|j: int|
                0 <= j < cur.len() && j != i && (#[trigger] cur[j]).0.contains(q) && cur[j].1
                    == w;
            if j < i {
                assert(cur[j].0.end <= cur[i].0.start);
            } else {
                assert(cur[i].0.end <= cur[j].0.start);
            }
            assert(maps(cur, q, w));
        }
    }
    assert forall|x: int| 0 <= x < s0.len() && !(#[trigger] s0[x]).0.overlaps(key) implies next.contains(
        s0[x],
    ) by {
        assert(cur.contains(s0[x]));
        let j = choose|j: int| 0 <= j < cur.len() && cur[j] == s0[x];
        assert(j != i);
        assert(next[j] == cur[j]);
    }
    lemma_update_facts(cur, i, (k, v2), c);
    lemma_update_facts(cur, i, (k, v2), d);
}

/// A stored key is cut in two where the key begins or ends.
pub proof fn lemma_partly_cut<T: Clone, F: Fn(T, T) -> T>(
    s0: Seq<(TextRange, T)>,
    cur: Seq<(TextRange, T)>,
    key: TextRange,
    val: T,
    f: F,
    i: int,
    p: int,
    front: TextRange,
    back: TextRange,
    v2: T,
)
    requires
        partly(s0, cur, key, key.start as int, val, f),
        sorted(cur),
        0 <= i < cur.len(),
        cur[i].0.start < p < cur[i].0.end,
        p == key.start || p == key.end,
        key.start < key.end,
        front == (TextRange { start: cur[i].0.start, end: back.start }),
        back.start == p,
        back.end == cur[i].0.end,
        copy_of(cur[i].1, v2),
    ensures
        partly(
            s0,
            cur.update(i, (front, cur[i].1)).insert(i + 1, (back, v2)),
            key,
            key.start as int,
            val,
            f,
        ),
        clear_at(cur.update(i, (front, cur[i].1)).insert(i + 1, (back, v2)), p),
        forall|x: int|
            clear_at(cur, x) ==> #[trigger] clear_at(
                cur.update(i, (front, cur[i].1)).insert(i + 1, (back, v2)),
                x,
            ),
{
    let e = cur[i];
    let mid = cur.update(i, (front, e.1));
    let next = mid.insert(i + 1, (back, v2));
    let c = key.start as int;
    assert(next[i] == (front, e.1));
    assert(next[i + 1] == (back, v2));
    assert(forall|j: int| 0 <= j < i ==> next[j] == cur[j]);
    assert(forall|j: int| i < j < cur.len() ==> next[j + 1] == cur[j]);
    assert forall|q: int| #[trigger] covers(next, q) <==> covers(s0, q) || (key.start <= q && q
        < c) by {
        lemma_update_facts(cur, i, (front, e.1), q);
        lemma_insert_facts(mid, i + 1, (back, v2), q);
        assert(covers(cur, q) <==> covers(s0, q) || (key.start <= q && q < c));
        if e.0.contains(q) {
            assert(cur[i].0.contains(q));
            assert(covers(cur, q));
        }
    }
    assert forall|q: int| #[trigger] cut_at(next, q) implies cut_at(s0, q) || q == key.start || q
        == key.end by {
        lemma_update_facts(cur, i, (front, e.1), q);
        lemma_insert_facts(mid, i + 1, (back, v2), q);
        if q != p && !cut_at(cur, q) {
            assert(cur[i].0.start == q || cur[i].0.end == q);
        }
    }
    assert forall|q: int| #[trigger] cut_at(s0, q) implies cut_at(next, q) by {
        assert(cut_at(cur, q));
        let j = choose|j: int|
            0 <= j < cur.len() && ((#[trigger] cur[j]).0.start == q || cur[j].0.end == q);
        if j < i {
            assert(next[j].0.start == q || next[j].0.end == q);
        } else if j > i {
            assert(next[j + 1].0.start == q || next[j + 1].0.end == q);
        } else {
            assert(next[i].0.start == q || next[i + 1].0.end == q);
        }
    }
    assert forall|q: int, w: T| #[trigger] maps(next, q, w) implies if key.start <= q && q < c {
        placed(s0, key, val, f, q, w)
    } else {
        exists|u: T| #[trigger] maps(s0, q, u) && copy_of(u, w)
    } by {
        let j = choose|j: int|
            0 <= j < next.len() && (#[trigger] next[j]).0.contains(q) && next[j].1 == w;
        let u1 = if j == i + 1 {
            e.1
        } else {
            w
        };
        if j < i {
            assert(cur[j].0.contains(q) && cur[j].1 == w);
        } else if j == i {
            assert(cur[i].0.contains(q) && cur[i].1 == w);
        } else if j == i + 1 {
            assert(cur[i].0.contains(q) && cur[i].1 == u1);
        } else {
            assert(next[j - 1 + 1] == cur[j - 1]);
            assert(cur[j - 1].0.contains(q) && cur[j - 1].1 == w);
        }
        assert(maps(cur, q, u1));
        lemma_copy_same(w);
        assert(copy_of(u1, w));
        let u = choose|u: T| #[trigger] maps(s0, q, u) && copy_of(u, u1);
        lemma_copy_chain(u, u1, w);
        assert(maps(s0, q, u) && copy_of(u, w));
    }
    assert forall|x: int| 0 <= x < s0.len() && !(#[trigger] s0[x]).0.overlaps(key) implies next.contains(
        s0[x],
    ) by {
        assert(cur.contains(s0[x]));
        let j = choose|j: int| 0 <= j < cur.len() && cur[j] == s0[x];
        assert(cur[i].0.overlaps(key));
        assert(j != i);
        if j < i {
            assert(next[j] == cur[j]);
        } else {
            assert(next[j + 1] == cur[j]);
        }
    }
    assert forall|j: int| 0 <= j < next.len() implies !((#[trigger] next[j]).0.start < p && p
        < next[j].0.end) by {
        if j < i {
            assert(cur[j].0.end <= cur[i].0.start);
        } else if j > i + 1 {
            assert(next[j - 1 + 1] == cur[j - 1]);
            assert(cur[i].0.end <= cur[j - 1].0.start);
        }
    }
    assert forall|x: int| clear_at(cur, x) implies #[trigger] clear_at(next, x) by {
        assert forall|j: int| 0 <= j < next.len() implies !((#[trigger] next[j]).0.start < x && x
            < next[j].0.end) by {
            if j < i {
                assert(next[j] == cur[j]);
            } else if j > i + 1 {
                assert(next[j - 1 + 1] == cur[j - 1]);
            } else {
                assert(!(cur[i].0.start < x && x < cur[i].0.end));
            }
        }
    }
}

/// All of the key has been put in.
pub proof fn lemma_partly_end<T: Clone, F: Fn(T, T) -> T>(
    s0: Seq<(TextRange, T)>,
    cur: Seq<(TextRange, T)>,
    key: TextRange,
    val: T,
    f: F,
)
    requires
        partly(s0, cur, key, key.end as int, val, f),
        cut_at(cur, key.start as int),
        cut_at(cur, key.end as int),
    ensures
        inserted(s0, cur, key, val, f),
        kept(s0, cur, key),
{
    assert forall|q: int| #[trigger] covers(cur, q) <==> covers(s0, q) || key.contains(q) by {}
    assert forall|q: int| #[trigger]
        cut_at(cur, q) <==> cut_at(s0, q) || q == key.start || q == key.end by {
        if cut_at(s0, q) {
            assert(cut_at(cur, q));
        }
    }
    assert forall|q: int, v: T| #[trigger] maps(cur, q, v) implies placed(s0, key, val, f, q, v) by {
    }
}

/// The keys that overlap `key` stand at the indices from `i0` on and are
/// listed in `keys`.
pub open spec fn block<T>(
    s: Seq<(TextRange, T)>,
    keys: Seq<TextRange>,
    i0: int,
    key: TextRange,
) -> bool {
    &&& 0 <= i0
    &&& i0 + keys.len() <= s.len()
    &&& forall|a: int| 0 <= a < keys.len() ==> #[trigger] keys[a] == s[i0 + a].0
    &&& forall|i: int|
        0 <= i < s.len() ==> ((#[trigger] s[i]).0.overlaps(key) <==> i0 <= i < i0 + keys.len())
}

/// Whether the key overlaps stored keys, and whether it is one of them, shows
/// in the list of the keys that it overlaps.
pub proof fn lemma_block_case<T>(
    s: Seq<(TextRange, T)>,
    keys: Seq<TextRange>,
    i0: int,
    key: TextRange,
)
    requires
        sorted(s),
        block(s, keys, i0, key),
        key.start < key.end,
    ensures
        keys.len() == 0 <==> !meets(s, key),
        keys.len() == 1 && keys[0] == key <==> has_key(s, key),
{
    if keys.len() > 0 {
        assert(keys[0] == s[i0 + 0].0);
        assert(s[i0].0.overlaps(key));
    }
    if meets(s, key) {
        let i = choose|i: int| 0 <= i < s.len() && (#[trigger] s[i]).0.overlaps(key);
        assert(i0 <= i < i0 + keys.len());
    }
    if keys.len() == 1 && keys[0] == key {
        assert(keys[0] == s[i0 + 0].0);
        assert(s[i0].0 == key);
    }
    if has_key(s, key) {
        let i = choose|i: int| 0 <= i < s.len() && (#[trigger] s[i]).0 == key;
        assert(s[i].0.start < s[i].0.end);
        assert(s[i].0.overlaps(key));
        assert(i0 <= i < i0 + keys.len());
        if keys.len() > 1 {
            let j = if i == i0 {
                i0 + 1
            } else {
                i0
            };
            assert(s[j].0.overlaps(key));
            if j < i {
                assert(s[j].0.end <= s[i].0.start);
            } else {
                assert(s[i].0.end <= s[j].0.start);
            }
        }
        assert(keys[i - i0] == s[i0 + (i - i0)].0);
    }
}

/// Cutting stored keys leaves the key overlapping stored keys.
pub proof fn lemma_partly_meets<T: Clone, F: Fn(T, T) -> T>(
    s0: Seq<(TextRange, T)>,
    cur: Seq<(TextRange, T)>,
    key: TextRange,
    val: T,
    f: F,
)
    requires
        partly(s0, cur, key, key.start as int, val, f),
        sorted(s0),
        meets(s0, key),
    ensures
        meets(cur, key),
{
    let i = choose|i: int| 0 <= i < s0.len() && (#[trigger] s0[i]).0.overlaps(key);
    let q: int = if s0[i].0.start >= key.start {
        s0[i].0.start as int
    } else {
        key.start as int
    };
    assert(s0[i].0.contains(q));
    assert(covers(s0, q));
    assert(covers(cur, q));
    let j = choose|j: int| 0 <= j < cur.len() && (#[trigger] cur[j]).0.contains(q);
    assert(cur[j].0.overlaps(key));
}

/// After the cuts, the stored keys that the key overlaps lie inside it, one
/// behind the other, and they are what lies ahead.
pub proof fn lemma_ahead_start<T>(
    s: Seq<(TextRange, T)>,
    keys: Seq<TextRange>,
    i0: int,
    key: TextRange,
)
    requires
        sorted(s),
        block(s, keys, i0, key),
        clear_at(s, key.start as int),
        clear_at(s, key.end as int),
        key.start < key.end,
    ensures
        ahead(s, keys, 0, key),
        in_row(keys, key),
{
    assert forall|a: int| 0 <= a < keys.len() implies key.start <= (#[trigger] keys[a]).start
        && keys[a].start < keys[a].end && keys[a].end <= key.end by {
        assert(keys[a] == s[i0 + a].0);
        assert(s[i0 + a].0.overlaps(key));
    }
    assert forall|a: int, b: int| 0 <= a < b < keys.len() implies (#[trigger] keys[a]).end <= (
    #[trigger] keys[b]).start by {
        assert(keys[a] == s[i0 + a].0);
        assert(keys[b] == s[i0 + b].0);
        assert(s[i0 + a].0.end <= s[i0 + b].0.start);
    }
    assert forall|i: int| 0 <= i < s.len() && (#[trigger] s[i]).0.overlaps(key) implies exists|
        a: int,
    | 0 <= a < keys.len() && #[trigger] keys[a] == s[i].0 by {
        assert(keys[i - i0] == s[i0 + (i - i0)].0);
    }
    assert forall|a: int| 0 <= a < keys.len() implies has_key(s, #[trigger] keys[a]) by {
        assert(keys[a] == s[i0 + a].0);
        assert(s[i0 + a].0 == keys[a]);
    }
}

/// What lies between the place reached and the next stored key overlaps no
/// stored key.
pub proof fn lemma_ahead_free<T>(
    cur: Seq<(TextRange, T)>,
    keys: Seq<TextRange>,
    j: int,
    rest: TextRange,
    gap: TextRange,
    key: TextRange,
)
    requires
        ahead(cur, keys, j, rest),
        in_row(keys, key),
        0 <= j <= keys.len(),
        gap.start == rest.start,
        gap.end <= rest.end,
        j < keys.len() ==> gap.end <= keys[j].start,
    ensures
        !meets(cur, gap),
{
    if meets(cur, gap) {
        let i = choose|i: int| 0 <= i < cur.len() && (#[trigger] cur[i]).0.overlaps(gap);
        assert(cur[i].0.overlaps(rest));
        let a = choose|a: int| j <= a < keys.len() && #[trigger] keys[a] == cur[i].0;
        if a > j {
            assert(keys[j].end <= keys[a].start);
            assert(keys[j].start < keys[j].end);
        }
    }
}

/// What lies ahead once a gap has been filled.
pub proof fn lemma_ahead_gap<T>(
    cur: Seq<(TextRange, T)>,
    keys: Seq<TextRange>,
    j: int,
    rest: TextRange,
    gap: TextRange,
    i: int,
    v: T,
)
    requires
        ahead(cur, keys, j, rest),
        0 <= i <= cur.len(),
        gap.start == rest.start,
        gap.start < gap.end,
        gap.end <= rest.end,
    ensures
        ahead(cur.insert(i, (gap, v)), keys, j, TextRange { start: gap.end, end: rest.end }),
{
    let next = cur.insert(i, (gap, v));
    let rest2 = TextRange { start: gap.end, end: rest.end };
    assert(next[i] == (gap, v));
    assert forall|x: int| 0 <= x < next.len() && (#[trigger] next[x]).0.overlaps(rest2) implies exists|
        a: int,
    | j <= a < keys.len() && #[trigger] keys[a] == next[x].0 by {
        if x < i {
            assert(next[x] == cur[x]);
            assert(cur[x].0.overlaps(rest));
        } else if x > i {
            assert(next[x] == cur[x - 1]);
            assert(cur[x - 1].0.overlaps(rest));
        }
    }
    assert forall|a: int| j <= a < keys.len() implies has_key(next, #[trigger] keys[a]) by {
        let x = choose|x: int| 0 <= x < cur.len() && (#[trigger] cur[x]).0 == keys[a];
        if x < i {
            assert(next[x].0 == keys[a]);
        } else {
            assert(next[x + 1] == cur[x]);
            assert(next[x + 1].0 == keys[a]);
        }
    }
}

/// What lies ahead once the next stored key has its merged value.
pub proof fn lemma_ahead_merge<T>(
    cur: Seq<(TextRange, T)>,
    keys: Seq<TextRange>,
    j: int,
    rest: TextRange,
    i: int,
    v2: T,
    key: TextRange,
)
    requires
        ahead(cur, keys, j, rest),
        in_row(keys, key),
        0 <= j < keys.len(),
        0 <= i < cur.len(),
        cur[i].0 == keys[j],
        rest.start == keys[j].start,
        keys[j].end <= rest.end,
    ensures
        ahead(
            cur.update(i, (cur[i].0, v2)),
            keys,
            j + 1,
            TextRange { start: keys[j].end, end: rest.end },
        ),
{
    let next = cur.update(i, (cur[i].0, v2));
    let rest2 = TextRange { start: keys[j].end, end: rest.end };
    assert forall|x: int| 0 <= x < next.len() && (#[trigger] next[x]).0.overlaps(rest2) implies exists|
        a: int,
    | j + 1 <= a < keys.len() && #[trigger] keys[a] == next[x].0 by {
        assert(next[x].0 == cur[x].0);
        assert(cur[x].0.overlaps(rest));
        let a = choose|a: int| j <= a < keys.len() && #[trigger] keys[a] == cur[x].0;
        assert(a != j);
    }
    assert forall|a: int| j + 1 <= a < keys.len() implies has_key(next, #[trigger] keys[a]) by {
        let x = choose|x: int| 0 <= x < cur.len() && (#[trigger] cur[x]).0 == keys[a];
        assert(next[x].0 == keys[a]);
    }
}

/// A position that no key holds, or that a key starts at, lies strictly
/// inside no key.
pub proof fn lemma_clear<T>(s: Seq<(TextRange, T)>, p: int, i: int)
    requires
        sorted(s),
        !covers(s, p) || (0 <= i < s.len() && s[i].0.start == p),
    ensures
        clear_at(s, p),
{
    assert forall|j: int| 0 <= j < s.len() implies !((#[trigger] s[j]).0.start < p && p
        < s[j].0.end) by {
        if s[j].0.start < p && p < s[j].0.end {
            assert(s[j].0.contains(p));
            assert(covers(s, p));
            if j < i {
                assert(s[j].0.end <= s[i].0.start);
            } else if j > i {
                assert(s[i].0.end <= s[j].0.start);
                assert(s[i].0.start < s[i].0.end);
            }
        }
    }
}

} // verus!
