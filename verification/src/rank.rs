//! Ranking: the order of the highest keys first, where equal keys keep their places.

use vstd::prelude::*;

verus! {

/// Whether position `a` ranks before position `b`: a higher key, or the same key and an
/// earlier place.
pub open spec fn before(keys: Seq<i64>, a: usize, b: usize) -> bool {
    keys[a as int] > keys[b as int] || (keys[a as int] == keys[b as int] && a < b)
}

/// Every position ranks before the later ones.
pub open spec fn ranked(keys: Seq<i64>, r: Seq<usize>) -> bool {
    forall|i: int, j: int| 0 <= i < j < r.len() ==> before(keys, #[trigger] r[i], #[trigger] r[j])
}

/// Whether a list holds every position once, in rank order.
pub open spec fn is_ranking(keys: Seq<i64>, r: Seq<usize>) -> bool {
    &&& r.len() == keys.len()
    &&& forall|x: usize| #[trigger] r.contains(x) <==> x < keys.len()
    &&& ranked(keys, r)
}

/// The positions in rank order.
pub open spec fn ranking(keys: Seq<i64>) -> Seq<usize> {
    choose|r: Seq<usize>| is_ranking(keys, r)
}

proof fn lemma_ranked_unique(keys: Seq<i64>, a: Seq<usize>, b: Seq<usize>)
    requires
        ranked(keys, a),
        ranked(keys, b),
        a.len() == b.len(),
        forall|x: usize| #[trigger] a.contains(x) <==> b.contains(x),
    ensures
        a == b,
    decreases a.len(),
{
    if a.len() == 0 {
        assert(a =~= b);
    } else {
        assert(a.contains(a[0]));
        assert(b.contains(b[0]));
        assert(a.contains(b[0]));
        let j = choose|j: int| 0 <= j < b.len() && b[j] == a[0];
        let i = choose|i: int| 0 <= i < a.len() && a[i] == b[0];
        if j > 0 {
            assert(before(keys, b[0], b[j]));
            if i > 0 {
                assert(before(keys, a[0], a[i]));
            }
        }
        assert(a[0] == b[0]);
        let ta = a.drop_first();
        let tb = b.drop_first();
        assert forall|x: usize| #[trigger] ta.contains(x) <==> tb.contains(x) by {
            if ta.contains(x) {
                let k = choose|k: int| 0 <= k < ta.len() && ta[k] == x;
                assert(a[k + 1] == x);
                assert(before(keys, a[0], a[k + 1]));
                assert(a.contains(x));
                let m = choose|m: int| 0 <= m < b.len() && b[m] == x;
                assert(tb[m - 1] == x);
            }
            if tb.contains(x) {
                let k = choose|k: int| 0 <= k < tb.len() && tb[k] == x;
                assert(b[k + 1] == x);
                assert(before(keys, b[0], b[k + 1]));
                assert(a.contains(x));
                let m = choose|m: int| 0 <= m < a.len() && a[m] == x;
                assert(ta[m - 1] == x);
            }
        }
        assert forall|x: int, y: int| 0 <= x < y < ta.len() implies before(
            keys,
            #[trigger] ta[x],
            #[trigger] ta[y],
        ) by {
            assert(before(keys, a[x + 1], a[y + 1]));
        }
        assert forall|x: int, y: int| 0 <= x < y < tb.len() implies before(
            keys,
            #[trigger] tb[x],
            #[trigger] tb[y],
        ) by {
            assert(before(keys, b[x + 1], b[y + 1]));
        }
        lemma_ranked_unique(keys, ta, tb);
        assert(a =~= seq![a[0]] + ta);
        assert(b =~= seq![b[0]] + tb);
    }
}

/// There is one ranking only.
pub proof fn lemma_ranking(keys: Seq<i64>, r: Seq<usize>)
    requires
        is_ranking(keys, r),
    ensures
        ranking(keys) == r,
{
    let s = ranking(keys);
    assert(is_ranking(keys, s));
    assert forall|x: usize| #[trigger] r.contains(x) <==> s.contains(x) by {}
    lemma_ranked_unique(keys, r, s);
}

/// Where a key goes among positions in rank order: behind all that are not lower.
proof fn find_place(keys: Seq<i64>, r: Seq<usize>, key: i64) -> (p: int)
    ensures
        0 <= p <= r.len(),
        forall|i: int| 0 <= i < p ==> keys[(#[trigger] r[i]) as int] >= key,
        p < r.len() ==> keys[r[p] as int] < key,
    decreases r.len(),
{
    if r.len() == 0 {
        0
    } else {
        let init = r.drop_last();
        let p = find_place(keys, init, key);
        assert forall|i: int| 0 <= i < p implies keys[(#[trigger] r[i]) as int] >= key by {
            assert(init[i] == r[i]);
        }
        if p < init.len() {
            assert(init[p] == r[p]);
            p
        } else if keys[r.last() as int] >= key {
            p + 1
        } else {
            p
        }
    }
}

/// There is a ranking of every list of keys that fits in memory.
pub proof fn lemma_ranking_exists(keys: Seq<i64>)
    requires
        keys.len() <= usize::MAX,
    ensures
        is_ranking(keys, ranking(keys)),
    decreases keys.len(),
{
    if keys.len() == 0 {
        assert(is_ranking(keys, Seq::<usize>::empty()));
    } else {
        let init = keys.drop_last();
        lemma_ranking_exists(init);
        let r = ranking(init);
        let n = (keys.len() - 1) as usize;
        let p = find_place(init, r, keys[n as int]);
        let s = r.insert(p, n);
        assert forall|i: int| 0 <= i < r.len() implies (#[trigger] r[i]) < n by {
            assert(r.contains(r[i]));
        }
        assert forall|x: usize| #[trigger] s.contains(x) <==> x < keys.len() by {
            if s.contains(x) {
                let i = choose|i: int| 0 <= i < s.len() && s[i] == x;
                if i < p {
                    assert(r[i] == x);
                } else if i > p {
                    assert(r[i - 1] == x);
                }
            }
            if x < n {
                assert(r.contains(x));
                let i = choose|i: int| 0 <= i < r.len() && r[i] == x;
                if i < p {
                    assert(s[i] == x);
                } else {
                    assert(s[i + 1] == x);
                }
            }
            if x == n {
                assert(s[p] == x);
            }
        }
        assert forall|i: int, j: int| 0 <= i < j < s.len() implies before(
            keys,
            #[trigger] s[i],
            #[trigger] s[j],
        ) by {
            if i < p && j < p {
                assert(before(init, r[i], r[j]));
            } else if i < p && j == p {
                assert(init[r[i] as int] >= keys[n as int]);
                assert(keys[r[i] as int] == init[r[i] as int]);
            } else if i < p {
                assert(before(init, r[i], r[j - 1]));
            } else if i == p {
                assert(keys[r[j - 1] as int] == init[r[j - 1] as int]);
                if j - 1 > p {
                    assert(before(init, r[p], r[j - 1]));
                }
            } else {
                assert(before(init, r[i - 1], r[j - 1]));
            }
        }
        assert(is_ranking(keys, s));
    }
}

fn ranks_before(keys: &Vec<i64>, a: usize, b: usize) -> (r: bool)
    requires
        a < keys@.len(),
        b < keys@.len(),
    ensures
        r == before(keys@, a, b),
{
    keys[a] > keys[b] || (keys[a] == keys[b] && a < b)
}

/// Positions inside the keys.
spec fn inside(keys: Seq<i64>, r: Seq<usize>) -> bool {
    forall|i: int| 0 <= i < r.len() ==> (#[trigger] r[i]) < keys.len()
}

/// Merges two ranked lists without common positions.
fn merge(keys: &Vec<i64>, a: &Vec<usize>, b: &Vec<usize>) -> (r: Vec<usize>)
    requires
        inside(keys@, a@),
        inside(keys@, b@),
        ranked(keys@, a@),
        ranked(keys@, b@),
        forall|x: usize| !(#[trigger] a@.contains(x) && b@.contains(x)),
        a@.len() + b@.len() <= usize::MAX,
    ensures
        inside(keys@, r@),
        ranked(keys@, r@),
        r@.len() == a@.len() + b@.len(),
        forall|x: usize| #[trigger] r@.contains(x) <==> a@.contains(x) || b@.contains(x),
{
    let mut out: Vec<usize> = Vec::new();
    let mut i: usize = 0;
    let mut j: usize = 0;
    while i < a.len() || j < b.len()
        invariant
            inside(keys@, a@),
            inside(keys@, b@),
            ranked(keys@, a@),
            ranked(keys@, b@),
            forall|x: usize| !(#[trigger] a@.contains(x) && b@.contains(x)),
            a@.len() + b@.len() <= usize::MAX,
            i <= a@.len(),
            j <= b@.len(),
            out@.len() == i + j,
            inside(keys@, out@),
            ranked(keys@, out@),
            forall|k: int, m: int|
                0 <= k < out@.len() && i <= m < a@.len() ==> before(
                    keys@,
                    #[trigger] out@[k],
                    #[trigger] a@[m],
                ),
            forall|k: int, m: int|
                0 <= k < out@.len() && j <= m < b@.len() ==> before(
                    keys@,
                    #[trigger] out@[k],
                    #[trigger] b@[m],
                ),
            forall|x: usize| #[trigger] out@.contains(x) ==> a@.contains(x) || b@.contains(x),
            forall|m: int| 0 <= m < i ==> out@.contains(#[trigger] a@[m]),
            forall|m: int| 0 <= m < j ==> out@.contains(#[trigger] b@[m]),
        decreases a@.len() + b@.len() - i - j,
    {
        let from_a = if i == a.len() {
            false
        } else if j == b.len() {
            true
        } else {
            ranks_before(keys, a[i], b[j])
        };
        let ghost was = out@;
        if from_a {
            out.push(a[i]);
            proof {
                assert forall|k: int, m: int| 0 <= k < out@.len() && j <= m < b@.len() implies before(
                    keys@,
                    #[trigger] out@[k],
                    #[trigger] b@[m],
                ) by {
                    if k < was.len() {
                        assert(out@[k] == was[k]);
                    } else if m > j {
                        assert(before(keys@, b@[j as int], b@[m]));
                    }
                }
                assert forall|k: int, m: int| 0 <= k < out@.len() && i + 1 <= m < a@.len() implies before(
                    keys@,
                    #[trigger] out@[k],
                    #[trigger] a@[m],
                ) by {
                    if k < was.len() {
                        assert(out@[k] == was[k]);
                    } else {
                        assert(before(keys@, a@[i as int], a@[m]));
                    }
                }
                lemma_push_contains(was, a@[i as int]);
                assert(a@.contains(a@[i as int]));
            }
            i += 1;
        } else {
            proof {
                if i < a@.len() {
                    // the two heads differ, so the other one ranks first
                    assert(a@.contains(a@[i as int]) && b@.contains(b@[j as int]));
                    assert(before(keys@, b@[j as int], a@[i as int]));
                }
            }
            out.push(b[j]);
            proof {
                assert forall|k: int, m: int| 0 <= k < out@.len() && i <= m < a@.len() implies before(
                    keys@,
                    #[trigger] out@[k],
                    #[trigger] a@[m],
                ) by {
                    if k < was.len() {
                        assert(out@[k] == was[k]);
                    } else if m > i {
                        assert(before(keys@, a@[i as int], a@[m]));
                    }
                }
                assert forall|k: int, m: int| 0 <= k < out@.len() && j + 1 <= m < b@.len() implies before(
                    keys@,
                    #[trigger] out@[k],
                    #[trigger] b@[m],
                ) by {
                    if k < was.len() {
                        assert(out@[k] == was[k]);
                    } else {
                        assert(before(keys@, b@[j as int], b@[m]));
                    }
                }
                lemma_push_contains(was, b@[j as int]);
                assert(b@.contains(b@[j as int]));
            }
            j += 1;
        }
    }
    proof {
        assert forall|x: usize| #[trigger] out@.contains(x) <==> a@.contains(x) || b@.contains(x) by {
            if a@.contains(x) {
                let m = choose|m: int| 0 <= m < a@.len() && a@[m] == x;
                assert(out@.contains(a@[m]));
            }
            if b@.contains(x) {
                let m = choose|m: int| 0 <= m < b@.len() && b@[m] == x;
                assert(out@.contains(b@[m]));
            }
        }
    }
    out
}

proof fn lemma_push_contains(s: Seq<usize>, y: usize)
    ensures
        forall|x: usize| #[trigger] s.push(y).contains(x) <==> s.contains(x) || x == y,
{
    assert forall|x: usize| #[trigger] s.push(y).contains(x) <==> s.contains(x) || x == y by {
        if s.contains(x) {
            let k = choose|k: int| 0 <= k < s.len() && s[k] == x;
            assert(s.push(y)[k] == x);
        }
        assert(s.push(y)[s.len() as int] == y);
        if s.push(y).contains(x) && x != y {
            let k = choose|k: int| 0 <= k < s.push(y).len() && s.push(y)[k] == x;
            assert(s[k] == x);
        }
    }
}

/// Ranks the positions from `lo` to `hi`.
fn rank_range(keys: &Vec<i64>, lo: usize, hi: usize) -> (r: Vec<usize>)
    requires
        lo <= hi <= keys@.len(),
    ensures
        inside(keys@, r@),
        ranked(keys@, r@),
        r@.len() == hi - lo,
        forall|x: usize| #[trigger] r@.contains(x) <==> lo <= x < hi,
    decreases hi - lo,
{
    if lo == hi {
        return Vec::new();
    }
    if hi - lo == 1 {
        let mut out: Vec<usize> = Vec::new();
        out.push(lo);
        assert(out@[0] == lo);
        return out;
    }
    let mid: usize = lo + (hi - lo) / 2;
    let a = rank_range(keys, lo, mid);
    let b = rank_range(keys, mid, hi);
    merge(keys, &a, &b)
}

/// The positions of the keys, the highest key first; equal keys keep their places.
pub fn rank(keys: &Vec<i64>) -> (r: Vec<usize>)
    ensures
        r@ == ranking(keys@),
        is_ranking(keys@, r@),
{
    let r = rank_range(keys, 0, keys.len());
    proof {
        lemma_ranking(keys@, r@);
    }
    r
}

// ---------------------------------------------------------------------------
// Ids in order
// ---------------------------------------------------------------------------

/// Strictly ascending ids.
pub open spec fn ids_ascend(s: Seq<u128>) -> bool {
    forall|i: int, j: int| 0 <= i < j < s.len() ==> #[trigger] s[i] < #[trigger] s[j]
}

/// Whether a list holds the ids of a set, in ascending order.
pub open spec fn lists_ids(s: Seq<u128>, ids: Set<u128>) -> bool {
    &&& ids_ascend(s)
    &&& forall|x: u128| #[trigger] s.contains(x) <==> ids.contains(x)
}

/// The ids of a set, in ascending order.
pub open spec fn ids_in_order(ids: Set<u128>) -> Seq<u128> {
    choose|s: Seq<u128>| lists_ids(s, ids)
}

proof fn lemma_ascending_unique(a: Seq<u128>, b: Seq<u128>)
    requires
        ids_ascend(a),
        ids_ascend(b),
        forall|x: u128| #[trigger] a.contains(x) <==> b.contains(x),
    ensures
        a == b,
    decreases a.len(),
{
    if a.len() == 0 {
        if b.len() != 0 {
            assert(b.contains(b[0]));
            assert(a.contains(b[0]));
        }
        assert(a =~= b);
    } else {
        assert(a.contains(a[0]));
        let j = choose|j: int| 0 <= j < b.len() && b[j] == a[0];
        assert(b.contains(b[0]));
        assert(a.contains(b[0]));
        let i = choose|i: int| 0 <= i < a.len() && a[i] == b[0];
        assert(a[0] == b[0]) by {
            if j > 0 {
                assert(b[0] < b[j]);
                if i > 0 {
                    assert(a[0] < a[i]);
                }
            }
        }
        let ta = a.drop_first();
        let tb = b.drop_first();
        assert forall|x: u128| #[trigger] ta.contains(x) <==> tb.contains(x) by {
            if ta.contains(x) {
                let k = choose|k: int| 0 <= k < ta.len() && ta[k] == x;
                assert(a[k + 1] == x && a[0] < a[k + 1]);
                assert(a.contains(x));
                let m = choose|m: int| 0 <= m < b.len() && b[m] == x;
                assert(tb[m - 1] == x);
            }
            if tb.contains(x) {
                let k = choose|k: int| 0 <= k < tb.len() && tb[k] == x;
                assert(b[k + 1] == x && b[0] < b[k + 1]);
                assert(a.contains(x));
                let m = choose|m: int| 0 <= m < a.len() && a[m] == x;
                assert(ta[m - 1] == x);
            }
        }
        assert forall|x: int, y: int| 0 <= x < y < ta.len() implies #[trigger] ta[x]
            < #[trigger] ta[y] by {
            assert(a[x + 1] < a[y + 1]);
        }
        assert forall|x: int, y: int| 0 <= x < y < tb.len() implies #[trigger] tb[x]
            < #[trigger] tb[y] by {
            assert(b[x + 1] < b[y + 1]);
        }
        lemma_ascending_unique(ta, tb);
        assert(a =~= seq![a[0]] + ta);
        assert(b =~= seq![b[0]] + tb);
    }
}

/// A set has one ascending list only.
pub proof fn lemma_ids_in_order(s: Seq<u128>, ids: Set<u128>)
    requires
        lists_ids(s, ids),
    ensures
        ids_in_order(ids) == s,
{
    let t = ids_in_order(ids);
    assert(lists_ids(t, ids));
    lemma_ascending_unique(s, t);
}

proof fn lemma_greatest(ids: Set<u128>) -> (r: u128)
    requires
        ids.finite(),
        ids.len() != 0,
    ensures
        ids.contains(r),
        forall|x: u128| #[trigger] ids.contains(x) ==> x <= r,
    decreases ids.len(),
{
    let x = ids.choose();
    let rest = ids.remove(x);
    if rest.len() == 0 {
        assert forall|y: u128| #[trigger] ids.contains(y) implies y <= x by {
            if y != x {
                assert(rest.contains(y));
                assert(!Set::<u128>::empty().contains(y));
                assert(rest =~= Set::empty());
            }
        }
        x
    } else {
        let m = lemma_greatest(rest);
        assert forall|y: u128| #[trigger] ids.contains(y) implies y <= x || y <= m by {
            if y != x {
                assert(rest.contains(y));
            }
        }
        if x < m {
            m
        } else {
            x
        }
    }
}

proof fn lemma_listing_exists(ids: Set<u128>) -> (r: Seq<u128>)
    requires
        ids.finite(),
    ensures
        lists_ids(r, ids),
    decreases ids.len(),
{
    if ids.len() == 0 {
        assert(ids =~= Set::empty());
        Seq::empty()
    } else {
        let m = lemma_greatest(ids);
        let rest = ids.remove(m);
        let s = lemma_listing_exists(rest);
        let r = s.push(m);
        assert forall|i: int, j: int| 0 <= i < j < r.len() implies #[trigger] r[i]
            < #[trigger] r[j] by {
            assert(s.contains(s[i]));
            assert(rest.contains(s[i]));
            assert(ids.contains(s[i]));
            if j < s.len() {
                assert(s[i] < s[j]);
            }
        }
        assert forall|x: u128| #[trigger] r.contains(x) <==> ids.contains(x) by {
            assert(s.contains(x) <==> rest.contains(x));
            assert(r[s.len() as int] == m);
            if s.contains(x) {
                let i = choose|i: int| 0 <= i < s.len() && s[i] == x;
                assert(r[i] == x);
            }
            if r.contains(x) && x != m {
                let i = choose|i: int| 0 <= i < r.len() && r[i] == x;
                assert(s[i] == x);
            }
        }
        r
    }
}

/// The ids of a finite set can be listed.
pub proof fn lemma_ids_listed(ids: Set<u128>)
    requires
        ids.finite(),
    ensures
        lists_ids(ids_in_order(ids), ids),
{
    let r = lemma_listing_exists(ids);
    assert(lists_ids(r, ids));
}

fn merge_ids(a: &Vec<u128>, b: &Vec<u128>) -> (r: Vec<u128>)
    requires
        ids_ascend(a@),
        ids_ascend(b@),
    ensures
        ids_ascend(r@),
        forall|x: u128| #[trigger] r@.contains(x) <==> a@.contains(x) || b@.contains(x),
{
    let mut out: Vec<u128> = Vec::new();
    let mut i: usize = 0;
    let mut j: usize = 0;
    while i < a.len() || j < b.len()
        invariant
            ids_ascend(a@),
            ids_ascend(b@),
            ids_ascend(out@),
            i <= a@.len(),
            j <= b@.len(),
            forall|k: int, m: int|
                0 <= k < out@.len() && i <= m < a@.len() ==> #[trigger] out@[k] < #[trigger] a@[m],
            forall|k: int, m: int|
                0 <= k < out@.len() && j <= m < b@.len() ==> #[trigger] out@[k] < #[trigger] b@[m],
            forall|x: u128| #[trigger] out@.contains(x) ==> a@.contains(x) || b@.contains(x),
            forall|m: int| 0 <= m < i ==> out@.contains(#[trigger] a@[m]),
            forall|m: int| 0 <= m < j ==> out@.contains(#[trigger] b@[m]),
        decreases a@.len() + b@.len() - i - j,
    {
        let take_a = j == b.len() || (i < a.len() && a[i] <= b[j]);
        let take_b = i == a.len() || (j < b.len() && b[j] <= a[i]);
        let next: u128 = if take_a {
            a[i]
        } else {
            b[j]
        };
        let ghost was = out@;
        out.push(next);
        proof {
            assert forall|x: u128| #[trigger] out@.contains(x) <==> was.contains(x) || x == next by {
                if was.contains(x) {
                    let k = choose|k: int| 0 <= k < was.len() && was[k] == x;
                    assert(out@[k] == x);
                }
                assert(out@[was.len() as int] == next);
                if out@.contains(x) && x != next {
                    let k = choose|k: int| 0 <= k < out@.len() && out@[k] == x;
                    assert(was[k] == x);
                }
            }
            if take_a {
                assert(a@.contains(a@[i as int]));
            } else {
                assert(b@.contains(b@[j as int]));
            }
            let ni = if take_a {
                i + 1
            } else {
                i as int
            };
            let nj = if take_b {
                j + 1
            } else {
                j as int
            };
            assert forall|k: int, m: int| 0 <= k < out@.len() && ni <= m < a@.len() implies #[trigger] out@[k]
                < #[trigger] a@[m] by {
                if k < was.len() {
                    assert(out@[k] == was[k]);
                } else if m > i {
                    assert(a@[i as int] < a@[m]);
                }
            }
            assert forall|k: int, m: int| 0 <= k < out@.len() && nj <= m < b@.len() implies #[trigger] out@[k]
                < #[trigger] b@[m] by {
                if k < was.len() {
                    assert(out@[k] == was[k]);
                } else if m > j {
                    assert(b@[j as int] < b@[m]);
                }
            }
        }
        if take_a {
            i += 1;
        }
        if take_b {
            j += 1;
        }
    }
    proof {
        assert forall|x: u128| #[trigger] out@.contains(x) <==> a@.contains(x) || b@.contains(x) by {
            if a@.contains(x) {
                let m = choose|m: int| 0 <= m < a@.len() && a@[m] == x;
                assert(out@.contains(a@[m]));
            }
            if b@.contains(x) {
                let m = choose|m: int| 0 <= m < b@.len() && b@[m] == x;
                assert(out@.contains(b@[m]));
            }
        }
    }
    out
}

fn sort_ids_range(v: &Vec<u128>, lo: usize, hi: usize) -> (r: Vec<u128>)
    requires
        lo <= hi <= v@.len(),
    ensures
        ids_ascend(r@),
        forall|x: u128| #[trigger]
            r@.contains(x) <==> exists|i: int| lo <= i < hi && #[trigger] v@[i] == x,
    decreases hi - lo,
{
    let mut r: Vec<u128> = Vec::new();
    if lo == hi {
        return r;
    }
    if hi - lo == 1 {
        r.push(v[lo]);
        assert(r@[0] == v@[lo as int]);
        return r;
    }
    let mid: usize = lo + (hi - lo) / 2;
    let a = sort_ids_range(v, lo, mid);
    let b = sort_ids_range(v, mid, hi);
    r = merge_ids(&a, &b);
    assert forall|x: u128| #[trigger] r@.contains(x) <==> exists|i: int|
        lo <= i < hi && #[trigger] v@[i] == x by {
        assert(a@.contains(x) || b@.contains(x) <==> r@.contains(x));
    }
    r
}

/// Lists ids in ascending order, each once.
pub fn sort_ids(v: &Vec<u128>) -> (r: Vec<u128>)
    ensures
        lists_ids(r@, v@.to_set()),
{
    let r = sort_ids_range(v, 0, v.len());
    assert forall|x: u128| #[trigger] r@.contains(x) <==> v@.to_set().contains(x) by {
        if r@.contains(x) {
            let i = choose|i: int| 0 <= i < v@.len() && #[trigger] v@[i] == x;
            assert(v@.contains(x));
        }
        if v@.contains(x) {
            let i = choose|i: int| 0 <= i < v@.len() && v@[i] == x;
            assert(v@[i] == x);
        }
    }
    r
}

// ---------------------------------------------------------------------------
// The order of single-precision numbers
// ---------------------------------------------------------------------------

/// The place of a single-precision number in the order of numbers: its magnitude with its
/// sign. The two zeroes share a place; what is not a number comes below everything.
pub open spec fn order_of(bits: u32) -> i64 {
    let magnitude = if bits >= 0x8000_0000 {
        bits - 0x8000_0000
    } else {
        bits as int
    };
    if magnitude > 0x7f80_0000 {
        -0x1_0000_0000i64
    } else if bits >= 0x8000_0000 {
        (-magnitude) as i64
    } else {
        magnitude as i64
    }
}

/// The place of a single-precision number in the order of numbers.
pub fn order_key(bits: u32) -> (r: i64)
    ensures
        r == order_of(bits),
{
    let magnitude: u32 = if bits >= 0x8000_0000 {
        bits - 0x8000_0000
    } else {
        bits
    };
    if magnitude > 0x7f80_0000 {
        -0x1_0000_0000i64
    } else if bits >= 0x8000_0000 {
        -(magnitude as i64)
    } else {
        magnitude as i64
    }
}

/// The places of single-precision numbers.
pub open spec fn order_keys(bits: Seq<u32>) -> Seq<i64> {
    bits.map_values(|b: u32| order_of(b))
}

/// Whether bits are not a number.
pub open spec fn is_nan(bits: u32) -> bool {
    order_of(bits) == -0x1_0000_0000i64
}

/// Whether one number is greater than another; false where either is not a number.
pub open spec fn exceeds(a: u32, b: u32) -> bool {
    !is_nan(a) && !is_nan(b) && order_of(a) > order_of(b)
}

/// Whether one number is greater than another.
pub fn greater(a: u32, b: u32) -> (r: bool)
    ensures
        r == exceeds(a, b),
{
    let (x, y): (i64, i64) = (order_key(a), order_key(b));
    let nan: i64 = -0x1_0000_0000i64;
    x != nan && y != nan && x > y
}

/// The places of single-precision numbers.
pub fn order_keys_of(bits: &Vec<u32>) -> (r: Vec<i64>)
    ensures
        r@ == order_keys(bits@),
{
    let mut out: Vec<i64> = Vec::new();
    let n: usize = bits.len();
    for i in 0..n
        invariant
            n == bits@.len(),
            out@ == order_keys(bits@.take(i as int)),
    {
        out.push(order_key(bits[i]));
        assert(order_keys(bits@.take(i + 1)) =~= order_keys(bits@.take(i as int)).push(
            order_of(bits@[i as int]),
        ));
    }
    assert(bits@.take(n as int) =~= bits@);
    out
}

// ---------------------------------------------------------------------------
// Laws
// ---------------------------------------------------------------------------

/// Numbers are ordered by what they stand for: a positive one goes by its bits, a negative one
/// against them, the zeros are equal, and what is not a number comes before all.
pub proof fn numbers_are_in_order(a: u32, b: u32)
    ensures
        0 <= a < b <= 0x7f80_0000 ==> order_of(a) < order_of(b),
        0x8000_0000 <= a < b <= 0xff80_0000 ==> order_of(a) > order_of(b),
        0 < a <= 0x7f80_0000 && 0x8000_0000 <= b <= 0xff80_0000 ==> order_of(a) > order_of(b),
        order_of(0) == order_of(0x8000_0000),
        is_nan(a) <==> 0x7f80_0000 < a < 0x8000_0000 || a > 0xff80_0000,
        is_nan(a) && !is_nan(b) ==> order_of(a) < order_of(b),
        is_nan(a) || is_nan(b) ==> !exceeds(a, b),
        !is_nan(a) && !is_nan(b) ==> (exceeds(a, b) <==> order_of(a) > order_of(b)),
{
}

/// A ranking holds every position once, the greatest key first; equal keys keep their order.
pub proof fn rankings_are_stable(keys: Seq<i64>, i: int, j: int)
    requires
        keys.len() <= usize::MAX,
        0 <= i < j < ranking(keys).len(),
    ensures
        ranking(keys).len() == keys.len(),
        ranking(keys)[i] < keys.len(),
        ranking(keys)[i] != ranking(keys)[j],
        keys[ranking(keys)[i] as int] >= keys[ranking(keys)[j] as int],
        keys[ranking(keys)[i] as int] == keys[ranking(keys)[j] as int] ==> ranking(keys)[i]
            < ranking(keys)[j],
{
    lemma_ranking_exists(keys);
    let r = ranking(keys);
    assert(r.contains(r[i]) && r.contains(r[j]));
    assert(before(keys, r[i], r[j]));
}

} // verus!
